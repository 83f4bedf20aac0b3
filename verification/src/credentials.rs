//! Credential parsing.
//!
//! Raw file text is split into lines; each line is split on `,` into fields,
//! every field is trimmed of surrounding white space, and empty fields are
//! dropped. A line with fewer than two remaining fields is silently skipped.
//! The first field is the account id, normalized (lower-cased, spaces
//! replaced by underscores) because it is used as a URL query value by a
//! case- and space-insensitive service; the second is the secret, used
//! verbatim (beyond the trimming every field gets).

use vstd::prelude::*;
use vstd::string::StrSliceExecFns;

verus! {

// ------------------------------------------------------------------
// White space
// ------------------------------------------------------------------
/// The characters stripped when a field is trimmed: the Unicode white-space
/// characters, the same set `str::trim` strips.
pub open spec fn is_space_char(c: char) -> bool {
    ||| c == ' '
    ||| c == '\t'
    ||| c == '\n'
    ||| c == '\r'
    ||| c == '\u{000B}'
    ||| c == '\u{000C}'
    ||| c == '\u{0085}'
    ||| c == '\u{00A0}'
    ||| c == '\u{1680}'
    ||| c == '\u{2000}'
    ||| c == '\u{2001}'
    ||| c == '\u{2002}'
    ||| c == '\u{2003}'
    ||| c == '\u{2004}'
    ||| c == '\u{2005}'
    ||| c == '\u{2006}'
    ||| c == '\u{2007}'
    ||| c == '\u{2008}'
    ||| c == '\u{2009}'
    ||| c == '\u{200A}'
    ||| c == '\u{2028}'
    ||| c == '\u{2029}'
    ||| c == '\u{202F}'
    ||| c == '\u{205F}'
    ||| c == '\u{3000}'
}

pub fn is_space(c: char) -> (r: bool)
    ensures
        r == is_space_char(c),
{
    c == ' ' || c == '\t' || c == '\n' || c == '\r' || c == '\u{000B}' || c == '\u{000C}'
        || c == '\u{0085}' || c == '\u{00A0}' || c == '\u{1680}' || c == '\u{2000}'
        || c == '\u{2001}' || c == '\u{2002}' || c == '\u{2003}' || c == '\u{2004}'
        || c == '\u{2005}' || c == '\u{2006}' || c == '\u{2007}' || c == '\u{2008}'
        || c == '\u{2009}' || c == '\u{200A}' || c == '\u{2028}' || c == '\u{2029}'
        || c == '\u{202F}' || c == '\u{205F}' || c == '\u{3000}'
}

// ------------------------------------------------------------------
// Trimming
// ------------------------------------------------------------------
pub open spec fn drop_leading_spaces(s: Seq<char>) -> Seq<char>
    decreases s.len(),
{
    if s.len() > 0 && is_space_char(s.first()) {
        drop_leading_spaces(s.drop_first())
    } else {
        s
    }
}

pub open spec fn drop_trailing_spaces(s: Seq<char>) -> Seq<char>
    decreases s.len(),
{
    if s.len() > 0 && is_space_char(s.last()) {
        drop_trailing_spaces(s.drop_last())
    } else {
        s
    }
}

/// A field with its surrounding white space removed.
pub open spec fn trim_spec(s: Seq<char>) -> Seq<char> {
    drop_trailing_spaces(drop_leading_spaces(s))
}

proof fn lemma_drop_leading_is_skip(s: Seq<char>, a: int)
    requires
        0 <= a <= s.len(),
        forall|j: int| 0 <= j < a ==> is_space_char(#[trigger] s[j]),
        a == s.len() || !is_space_char(s[a]),
    ensures
        drop_leading_spaces(s) == s.skip(a),
    decreases s.len(),
{
    if a == 0 {
        assert(s.skip(0) =~= s);
    } else {
        assert(is_space_char(s.first()));
        lemma_drop_leading_is_skip(s.drop_first(), a - 1);
        assert(s.drop_first().skip(a - 1) =~= s.skip(a));
    }
}

proof fn lemma_drop_trailing_is_take(s: Seq<char>, b: int)
    requires
        0 <= b <= s.len(),
        forall|j: int| b <= j < s.len() ==> is_space_char(#[trigger] s[j]),
        b == 0 || !is_space_char(s[b - 1]),
    ensures
        drop_trailing_spaces(s) == s.take(b),
    decreases s.len(),
{
    if b == s.len() {
        if s.len() == 0 {
            assert(s.take(0) =~= s);
        } else {
            assert(!is_space_char(s.last()));
            assert(s.take(b) =~= s);
        }
    } else {
        assert(is_space_char(s.last()));
        lemma_drop_trailing_is_take(s.drop_last(), b);
        assert(s.drop_last().take(b) =~= s.take(b));
    }
}

/// Copy of `s[from..to]`.
pub fn copy_range(s: &Vec<char>, from: usize, to: usize) -> (r: Vec<char>)
    requires
        from <= to <= s@.len(),
    ensures
        r@ == s@.subrange(from as int, to as int),
{
    let mut r: Vec<char> = Vec::new();
    let mut i: usize = from;
    while i < to
        invariant
            from <= i <= to <= s@.len(),
            r@ == s@.subrange(from as int, i as int),
        decreases to - i,
    {
        r.push(s[i]);
        proof {
            assert(s@.subrange(from as int, i as int + 1) =~= s@.subrange(
                from as int,
                i as int,
            ).push(s@[i as int]));
        }
        i += 1;
    }
    r
}

/// Remove surrounding white space.
pub fn trim_chars(s: &Vec<char>) -> (r: Vec<char>)
    ensures
        r@ == trim_spec(s@),
{
    let n = s.len();
    let mut a: usize = 0;
    while a < n && is_space(s[a])
        invariant
            a <= n,
            n == s@.len(),
            forall|j: int| 0 <= j < a ==> is_space_char(#[trigger] s@[j]),
        decreases n - a,
    {
        a += 1;
    }
    let mut b: usize = n;
    while b > a && is_space(s[b - 1])
        invariant
            a <= b <= n,
            n == s@.len(),
            forall|j: int| b <= j < n ==> is_space_char(#[trigger] s@[j]),
        decreases b,
    {
        b -= 1;
    }
    let r = copy_range(s, a, b);
    proof {
        lemma_drop_leading_is_skip(s@, a as int);
        let t = s@.skip(a as int);
        assert(forall|j: int| 0 <= j < t.len() ==> t[j] == s@[a + j]);
        if b == a {
            lemma_drop_trailing_is_take(t, 0);
        } else {
            lemma_drop_trailing_is_take(t, b as int - a as int);
        }
        assert(t.take(b as int - a as int) =~= s@.subrange(a as int, b as int));
    }
    r
}

// ------------------------------------------------------------------
// Splitting on a separator
// ------------------------------------------------------------------
/// Index of the first occurrence of `sep` in `s`, or -1 if there is none.
pub open spec fn sep_pos(s: Seq<char>, sep: char) -> int
    decreases s.len(),
{
    if s.len() == 0 {
        -1
    } else if s.first() == sep {
        0
    } else {
        let p = sep_pos(s.drop_first(), sep);
        if p < 0 {
            -1
        } else {
            p + 1
        }
    }
}

proof fn lemma_sep_pos(s: Seq<char>, sep: char)
    ensures
        sep_pos(s, sep) >= 0 ==> {
            &&& sep_pos(s, sep) < s.len()
            &&& s[sep_pos(s, sep)] == sep
            &&& forall|j: int| 0 <= j < sep_pos(s, sep) ==> s[j] != sep
        },
        sep_pos(s, sep) < 0 ==> forall|j: int| 0 <= j < s.len() ==> s[j] != sep,
    decreases s.len(),
{
    if s.len() == 0 {
    } else if s.first() == sep {
    } else {
        let rest = s.drop_first();
        lemma_sep_pos(rest, sep);
        assert(forall|j: int| 0 <= j < rest.len() ==> #[trigger] rest[j] == s[j + 1]);
        let p = sep_pos(rest, sep);
        if p >= 0 {
            assert(sep_pos(s, sep) == p + 1);
            assert(s[p + 1] == rest[p]);
            assert forall|j: int| 1 <= j < p + 1 implies s[j] != sep by {
                assert(rest[j - 1] != sep);
            }
        } else {
            assert forall|j: int| 1 <= j < s.len() implies s[j] != sep by {
                assert(rest[j - 1] != sep);
            }
        }
    }
}

proof fn lemma_sep_pos_found(s: Seq<char>, sep: char, q: int)
    requires
        0 <= q < s.len(),
        s[q] == sep,
        forall|j: int| 0 <= j < q ==> s[j] != sep,
    ensures
        sep_pos(s, sep) == q,
    decreases s.len(),
{
    if q > 0 {
        assert(forall|j: int| 0 <= j < s.drop_first().len() ==> #[trigger] s.drop_first()[j] == s[j + 1]);
        lemma_sep_pos_found(s.drop_first(), sep, q - 1);
    }
}

proof fn lemma_sep_pos_missing(s: Seq<char>, sep: char)
    requires
        forall|j: int| 0 <= j < s.len() ==> s[j] != sep,
    ensures
        sep_pos(s, sep) < 0,
    decreases s.len(),
{
    if s.len() > 0 {
        assert(forall|j: int| 0 <= j < s.drop_first().len() ==> #[trigger] s.drop_first()[j] == s[j + 1]);
        lemma_sep_pos_missing(s.drop_first(), sep);
    }
}

/// `s` split on `sep`: the pieces between occurrences of `sep`, in order,
/// separators not included. There is always at least one piece; empty pieces
/// are kept (so a trailing separator yields a final empty piece).
pub open spec fn split_spec(s: Seq<char>, sep: char) -> Seq<Seq<char>>
    decreases s.len(),
    via split_spec_decreases
{
    let p = sep_pos(s, sep);
    if p < 0 {
        seq![s]
    } else {
        seq![s.take(p)] + split_spec(s.skip(p + 1), sep)
    }
}

#[via_fn]
proof fn split_spec_decreases(s: Seq<char>, sep: char) {
    lemma_sep_pos(s, sep);
}

/// First occurrence of `sep` in `s` at or after `from`, if any.
pub fn find_sep(s: &Vec<char>, from: usize, sep: char) -> (r: Option<usize>)
    requires
        from <= s@.len(),
    ensures
        match r {
            Some(q) => {
                &&& from <= q < s@.len()
                &&& s@[q as int] == sep
                &&& forall|j: int| from <= j < q ==> s@[j] != sep
            },
            None => forall|j: int| from <= j < s@.len() ==> s@[j] != sep,
        },
{
    let n = s.len();
    let mut i: usize = from;
    while i < n
        invariant
            from <= i <= n,
            n == s@.len(),
            forall|j: int| from <= j < i ==> s@[j] != sep,
        decreases n - i,
    {
        if s[i] == sep {
            return Some(i);
        }
        i += 1;
    }
    None
}

/// The views of a sequence of character vectors.
pub open spec fn views_of(vs: Seq<Vec<char>>) -> Seq<Seq<char>> {
    Seq::new(vs.len(), |i: int| vs[i]@)
}

/// Split `s` on `sep`, keeping empty pieces.
pub fn split_chars(s: &Vec<char>, sep: char) -> (r: Vec<Vec<char>>)
    ensures
        views_of(r@) == split_spec(s@, sep),
{
    let n = s.len();
    let mut out: Vec<Vec<char>> = Vec::new();
    let mut i: usize = 0;
    proof {
        assert(s@.skip(0) =~= s@);
        assert(views_of(out@) + split_spec(s@, sep) =~= split_spec(s@, sep));
    }
    loop
        invariant
            i <= s@.len(),
            n == s@.len(),
            split_spec(s@, sep) == views_of(out@) + split_spec(s@.skip(i as int), sep),
        decreases s@.len() - i,
    {
        let ghost prev = out@;
        let ghost t = s@.skip(i as int);
        proof {
            assert(forall|j: int| 0 <= j < t.len() ==> t[j] == s@[i + j]);
        }
        match find_sep(s, i, sep) {
            Some(q) => {
                let field = copy_range(s, i, q);
                out.push(field);
                proof {
                    lemma_sep_pos_found(t, sep, q as int - i as int);
                    assert(t.take(q as int - i as int) =~= s@.subrange(i as int, q as int));
                    assert(t.skip(q as int - i as int + 1) =~= s@.skip(q as int + 1));
                    assert(views_of(out@) =~= views_of(prev).push(field@));
                    assert(views_of(prev) + split_spec(t, sep) =~= views_of(out@) + split_spec(
                        s@.skip(q as int + 1),
                        sep,
                    ));
                }
                i = q + 1;
            },
            None => {
                let field = copy_range(s, i, s.len());
                out.push(field);
                proof {
                    lemma_sep_pos_missing(t, sep);
                    assert(t =~= s@.subrange(i as int, s@.len() as int));
                    assert(views_of(out@) =~= views_of(prev).push(field@));
                    assert(views_of(prev) + split_spec(t, sep) =~= views_of(out@));
                }
                return out;
            },
        }
    }
}

// ------------------------------------------------------------------
// Fields of one line
// ------------------------------------------------------------------
/// Trim every raw field and drop the ones that end up empty.
pub open spec fn trimmed_fields(raw: Seq<Seq<char>>) -> Seq<Seq<char>>
    decreases raw.len(),
{
    if raw.len() == 0 {
        Seq::empty()
    } else {
        let init = trimmed_fields(raw.drop_last());
        let t = trim_spec(raw.last());
        if t.len() > 0 {
            init.push(t)
        } else {
            init
        }
    }
}

/// The fields of one line: split on `,`, trimmed, empties dropped.
pub open spec fn line_fields(line: Seq<char>) -> Seq<Seq<char>> {
    trimmed_fields(split_spec(line, ','))
}

/// Split a line on `,`, trim every field, and drop the empty ones.
pub fn split_fields(line: &Vec<char>) -> (r: Vec<Vec<char>>)
    ensures
        views_of(r@) == line_fields(line@),
{
    let raw = split_chars(line, ',');
    let n = raw.len();
    let mut out: Vec<Vec<char>> = Vec::new();
    let mut i: usize = 0;
    proof {
        assert(views_of(raw@).take(0) =~= Seq::<Seq<char>>::empty());
        assert(views_of(out@) =~= trimmed_fields(views_of(raw@).take(0)));
    }
    while i < n
        invariant
            i <= n,
            n == raw@.len(),
            views_of(raw@) == split_spec(line@, ','),
            views_of(out@) == trimmed_fields(views_of(raw@).take(i as int)),
        decreases n - i,
    {
        let ghost prev = out@;
        let t = trim_chars(&raw[i]);
        if t.len() > 0 {
            out.push(t);
        }
        proof {
            let rv = views_of(raw@);
            assert(rv.take(i + 1).drop_last() =~= rv.take(i as int));
            assert(rv.take(i + 1).last() == rv[i as int]);
            if t@.len() > 0 {
                assert(views_of(out@) =~= views_of(prev).push(t@));
            }
        }
        i += 1;
    }
    proof {
        assert(views_of(raw@).take(n as int) =~= views_of(raw@));
    }
    out
}

// ------------------------------------------------------------------
// Account-id normalization
// ------------------------------------------------------------------
/// What `str::to_lowercase` returns: the lower-case form of the characters.
/// The full Unicode mapping is not restated here; the result is a function
/// of the input characters alone, which is all the contracts rely on.
pub uninterp spec fn lower_of(s: Seq<char>) -> Seq<char>;

/// Relies on `str::to_lowercase`: the result depends on the input characters
/// alone, so it is named by `lower_of`.
#[verifier::external_body]
fn lowercase(s: &str) -> (r: String)
    ensures
        r@ == lower_of(s@),
{
    s.to_lowercase()
}

/// Relies on `String::from_iter` over `char`s: the collected string holds
/// exactly the given characters, in order.
#[verifier::external_body]
fn chars_to_string(v: Vec<char>) -> (r: String)
    ensures
        r@ == v@,
{
    String::from_iter(v)
}

/// The characters of a string, as a vector.
pub fn str_chars(s: &str) -> (r: Vec<char>)
    ensures
        r@ == s@,
{
    let n = s.unicode_len();
    let mut r: Vec<char> = Vec::new();
    let mut i: usize = 0;
    while i < n
        invariant
            i <= n,
            n == s@.len(),
            r@ == s@.take(i as int),
        decreases n - i,
    {
        r.push(s.get_char(i));
        proof {
            assert(s@.take(i + 1) =~= s@.take(i as int).push(s@[i as int]));
        }
        i += 1;
    }
    proof {
        assert(s@.take(n as int) =~= s@);
    }
    r
}

/// Every space replaced by an underscore.
pub open spec fn underscored(s: Seq<char>) -> Seq<char> {
    Seq::new(s.len(), |i: int| if s[i] == ' ' { '_' } else { s[i] })
}

fn underscore_chars(v: &Vec<char>) -> (r: Vec<char>)
    ensures
        r@ == underscored(v@),
{
    let n = v.len();
    let mut r: Vec<char> = Vec::new();
    let mut i: usize = 0;
    while i < n
        invariant
            i <= n,
            n == v@.len(),
            r@.len() == i,
            forall|j: int| 0 <= j < i ==> #[trigger] r@[j] == underscored(v@)[j],
        decreases n - i,
    {
        let c = v[i];
        if c == ' ' {
            r.push('_');
        } else {
            r.push(c);
        }
        i += 1;
    }
    proof {
        assert(r@ =~= underscored(v@));
    }
    r
}

/// A normalized account id: lower-cased, with spaces replaced by
/// underscores, so it can stand in a URL query for a service that treats
/// account ids case- and space-insensitively.
pub open spec fn normalize_spec(s: Seq<char>) -> Seq<char> {
    underscored(lower_of(s))
}

/// Normalize an account id.
pub fn normalize_account_id(field: &str) -> (r: String)
    ensures
        r@ == normalize_spec(field@),
{
    let low = lowercase(field);
    let lowv = str_chars(low.as_str());
    let und = underscore_chars(&lowv);
    chars_to_string(und)
}

// ------------------------------------------------------------------
// Credentials
// ------------------------------------------------------------------
/// One account to authenticate: a normalized account id and the secret used
/// verbatim.
pub struct Credential {
    pub account_id: String,
    pub secret: String,
}

impl Clone for Credential {
    fn clone(&self) -> (r: Self)
        ensures
            r == *self,
    {
        Credential { account_id: self.account_id.clone(), secret: self.secret.clone() }
    }
}

/// The credential one line yields, if any: at least two fields must remain
/// after trimming and dropping empties, the first (normalized) is the
/// account id, the second is the secret; extra fields are ignored.
pub open spec fn line_cred(line: Seq<char>) -> Option<(Seq<char>, Seq<char>)> {
    let fs = line_fields(line);
    if fs.len() >= 2 {
        Some((normalize_spec(fs[0]), fs[1]))
    } else {
        None
    }
}

/// The credentials of a sequence of lines, in line order.
pub open spec fn creds_of_lines(lines: Seq<Seq<char>>) -> Seq<(Seq<char>, Seq<char>)>
    decreases lines.len(),
{
    if lines.len() == 0 {
        Seq::empty()
    } else {
        let init = creds_of_lines(lines.drop_last());
        match line_cred(lines.last()) {
            Some(p) => init.push(p),
            None => init,
        }
    }
}

/// What parsing a whole file yields: the credentials of its lines, in order.
pub open spec fn parse_spec(text: Seq<char>) -> Seq<(Seq<char>, Seq<char>)> {
    creds_of_lines(split_spec(text, '\n'))
}

/// The (account id, secret) views of parsed credentials.
pub open spec fn cred_views(cs: Seq<Credential>) -> Seq<(Seq<char>, Seq<char>)> {
    Seq::new(cs.len(), |i: int| (cs[i].account_id@, cs[i].secret@))
}

/// Parse raw file text into the ordered credential sequence. Blank lines and
/// lines with fewer than two non-empty fields are silently skipped.
pub fn parse_credentials(text: &str) -> (r: Vec<Credential>)
    ensures
        cred_views(r@) == parse_spec(text@),
{
    let chars = str_chars(text);
    let lines = split_chars(&chars, '\n');
    let n = lines.len();
    let mut out: Vec<Credential> = Vec::new();
    let mut i: usize = 0;
    proof {
        assert(views_of(lines@).take(0) =~= Seq::<Seq<char>>::empty());
        assert(cred_views(out@) =~= creds_of_lines(views_of(lines@).take(0)));
    }
    while i < n
        invariant
            i <= n,
            n == lines@.len(),
            views_of(lines@) == split_spec(text@, '\n'),
            cred_views(out@) == creds_of_lines(views_of(lines@).take(i as int)),
        decreases n - i,
    {
        let ghost prev = out@;
        let fields = split_fields(&lines[i]);
        if fields.len() >= 2 {
            let account_id = normalize_account_id(chars_to_string(copy_range(
                &fields[0],
                0,
                fields[0].len(),
            )).as_str());
            let secret = chars_to_string(copy_range(&fields[1], 0, fields[1].len()));
            out.push(Credential { account_id, secret });
        }
        proof {
            let lv = views_of(lines@);
            assert(lv.take(i + 1).drop_last() =~= lv.take(i as int));
            assert(lv.take(i + 1).last() == lv[i as int]);
            assert(views_of(fields@) == line_fields(lv[i as int]));
            if fields@.len() >= 2 {
                assert(fields@[0]@.subrange(0, fields@[0]@.len() as int) =~= fields@[0]@);
                assert(fields@[1]@.subrange(0, fields@[1]@.len() as int) =~= fields@[1]@);
                assert(views_of(fields@)[0] == fields@[0]@);
                assert(views_of(fields@)[1] == fields@[1]@);
                assert(cred_views(out@) =~= cred_views(prev).push(
                    (normalize_spec(fields@[0]@), fields@[1]@),
                ));
            } else {
                assert(line_fields(lv[i as int]).len() < 2);
            }
        }
        i += 1;
    }
    proof {
        assert(views_of(lines@).take(n as int) =~= views_of(lines@));
    }
    out
}

/// Remove the surrounding white space of a string.
pub fn trim_string(s: &str) -> (r: String)
    ensures
        r@ == trim_spec(s@),
{
    let chars = str_chars(s);
    chars_to_string(trim_chars(&chars))
}

} // verus!
