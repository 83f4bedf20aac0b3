use login_limiter::credentials::{parse_credentials, normalize_account_id, trim_string};
use login_limiter::request::{login_url, user_agent_value};

#[test]
fn parses_mixed_file() {
    // A messy file: surrounding white space, a single-field line, a line
    // with an extra field, and a blank line. Only the two well-formed
    // records survive, in file order, ids normalized.
    let creds = parse_credentials("  ALICE , secret1 \n,onlyone\nbob,pw2,extra\n\n");
    assert_eq!(creds.len(), 2);
    assert_eq!(creds[0].account_id, "alice");
    assert_eq!(creds[0].secret, "secret1");
    assert_eq!(creds[1].account_id, "bob");
    assert_eq!(creds[1].secret, "pw2");
}

#[test]
fn empty_input_yields_no_credentials() {
    let creds = parse_credentials("");
    assert_eq!(creds.len(), 0);
}

#[test]
fn skips_lines_with_fewer_than_two_fields() {
    // An empty field does not count: ", ,x" leaves only one field.
    let creds = parse_credentials("solo\n, ,x\n  \n");
    assert_eq!(creds.len(), 0);
}

#[test]
fn empty_middle_field_is_dropped_not_kept() {
    // "a,,b": the empty middle field is dropped, so the secret is "b".
    let creds = parse_credentials("a,,b");
    assert_eq!(creds.len(), 1);
    assert_eq!(creds[0].account_id, "a");
    assert_eq!(creds[0].secret, "b");
}

#[test]
fn secret_is_trimmed_but_otherwise_verbatim() {
    // Internal spaces and case are kept in the secret; only the surrounding
    // white space goes, and the account id alone is normalized.
    let creds = parse_credentials("Bob, My Secret PW \n");
    assert_eq!(creds.len(), 1);
    assert_eq!(creds[0].account_id, "bob");
    assert_eq!(creds[0].secret, "My Secret PW");
}

#[test]
fn normalizes_case_and_spaces() {
    assert_eq!(normalize_account_id("The North Pacific"), "the_north_pacific");
    assert_eq!(normalize_account_id("MixedCase"), "mixedcase");
    assert_eq!(normalize_account_id(""), "");
}

#[test]
fn account_id_spaces_become_underscores_in_file() {
    let creds = parse_credentials("My Main Nation, hunter2 ");
    assert_eq!(creds.len(), 1);
    assert_eq!(creds[0].account_id, "my_main_nation");
    assert_eq!(creds[0].secret, "hunter2");
}

#[test]
fn trims_surrounding_white_space_only() {
    assert_eq!(trim_string("  a b \t"), "a b");
    assert_eq!(trim_string("\n\n"), "");
    assert_eq!(trim_string("x"), "x");
}

#[test]
fn builds_login_url() {
    assert_eq!(
        login_url("my_nation"),
        "https://www.nationstates.net/cgi-bin/api.cgi?nation=my_nation&q=ping"
    );
}

#[test]
fn builds_user_agent() {
    assert_eq!(user_agent_value("operator@example.com"), "UPC's Login-rs, used by operator@example.com");
}
