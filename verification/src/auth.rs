//! The bearer-token check: with exactly one registered token the header
//! is not consulted at all; otherwise the `Authorization: Token <value>`
//! header must name a registered token.
use vstd::prelude::*;

verus! {

use crate::text::{starts_with, str_to_chars, string_to_chars, chars_to_string};
use vstd::string::StringExecFns;

/// What the token check decided.
pub enum AuthOutcome {
    /// Serve with the library registered under this token.
    Granted(String),
    /// Refuse with an empty 401 response.
    Unauthorized,
}

/// The required header prefix, `Token` and a space.
pub open spec fn token_prefix() -> Seq<char> {
    seq!['T', 'o', 'k', 'e', 'n', ' ']
}

/// Choose the token a request is served under. With exactly one token
/// registered the check is skipped and that token is chosen; otherwise
/// the header must be present, start with the token prefix, and its
/// remainder must be a registered token.
pub fn authorize(tokens: &Vec<String>, auth_header: Option<&String>) -> (r: AuthOutcome)
    ensures
        tokens@.len() == 1 ==> (r matches AuthOutcome::Granted(t) && t@ == tokens.deep_view()[0]),
        tokens@.len() != 1 && auth_header is None ==> r is Unauthorized,
        auth_header matches Some(h) ==> ((tokens@.len() != 1 && !starts_with(
            h@,
            token_prefix(),
        )) ==> r is Unauthorized),
        auth_header matches Some(h) ==> ((tokens@.len() != 1 && starts_with(
            h@,
            token_prefix(),
        )) ==> ({
            let suffix = h@.skip(token_prefix().len() as int);
            if tokens.deep_view().contains(suffix) {
                r matches AuthOutcome::Granted(t) && t@ == suffix
            } else {
                r is Unauthorized
            }
        })),
{
    if tokens.len() == 1 {
        proof {
            assert(tokens.deep_view()[0] == tokens@[0]@);
        }
        return AuthOutcome::Granted(tokens[0].clone());
    }
    let header = match auth_header {
        Some(h) => h,
        None => {
            return AuthOutcome::Unauthorized;
        },
    };
    let hchars = string_to_chars(header);
    let prefix: Vec<char> = vec!['T', 'o', 'k', 'e', 'n', ' '];
    proof {
        assert(prefix@ =~= token_prefix());
    }
    if !crate::text::chars_start_with(&hchars, &prefix) {
        return AuthOutcome::Unauthorized;
    }
    let mut rest: Vec<char> = Vec::new();
    let mut i: usize = 6;
    while i < hchars.len()
        invariant
            6 <= i <= hchars@.len() || (hchars@.len() < 6 && i == 6),
            hchars@ == header@,
            hchars@.len() >= 6,
            rest@ == header@.subrange(6, i as int),
        decreases hchars@.len() - i,
    {
        rest.push(hchars[i]);
        proof {
            assert(rest@ =~= header@.subrange(6, i + 1));
        }
        i = i + 1;
    }
    proof {
        assert(rest@ =~= header@.skip(6));
    }
    let token = chars_to_string(&rest);
    if crate::store::contains_string(tokens, &token) {
        AuthOutcome::Granted(token)
    } else {
        AuthOutcome::Unauthorized
    }
}

} // verus!
