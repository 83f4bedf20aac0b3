//! Request construction.
//!
//! One authenticated GET-style request is sent per credential: the endpoint
//! is templated with the normalized account id, an identifying `User-Agent`
//! header names the tool and its operator, and an `X-Password` header
//! carries the secret verbatim. The strings are built here, fully verified;
//! the network exchange itself is left to the embedding program.

use vstd::prelude::*;
use vstd::string::StringExecFns;

verus! {

/// The URL the login request for `account_id` is sent to.
pub open spec fn login_url_spec(account_id: Seq<char>) -> Seq<char> {
    "https://www.nationstates.net/cgi-bin/api.cgi?nation="@ + account_id + "&q=ping"@
}

/// Build the request URL for a (normalized) account id.
pub fn login_url(account_id: &str) -> (r: String)
    ensures
        r@ == login_url_spec(account_id@),
{
    let mut r = String::from_str("https://www.nationstates.net/cgi-bin/api.cgi?nation=");
    r.append(account_id);
    r.append("&q=ping");
    r
}

/// The value of the identifying `User-Agent` header: the tool's name and the
/// operator who runs it.
pub open spec fn user_agent_spec(operator: Seq<char>) -> Seq<char> {
    "UPC's Login-rs, used by "@ + operator
}

/// Build the `User-Agent` header value for an operator.
pub fn user_agent_value(operator: &str) -> (r: String)
    ensures
        r@ == user_agent_spec(operator@),
{
    let mut r = String::from_str("UPC's Login-rs, used by ");
    r.append(operator);
    r
}

} // verus!
