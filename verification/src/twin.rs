//! pi-twin actions from the pane context menu: the exact command line, and
//! the revalidation of a pane's twin tokens before anything is launched.
//!
//! The pane id and session token were captured when the menu opened. Before
//! launching, `twin=1` must still be on the pane, `twin_session` must still
//! equal the captured session (a recycled pane has another one), and a merge
//! also needs `twin_parent=1` (the pane is still a clone session).
use crate::text::{owned, str_eq};
use vstd::prelude::*;

verus! {

/// Name of the external command.
pub const CLI: &'static str = "pi-twin";

/// A pane's metadata tokens, as key/value pairs; the first pair with a key wins.
pub struct MetadataTokens {
    pub pairs: Vec<(String, String)>,
}

/// The value of `key` in `pairs`, looking from the `i`-th pair on.
pub open spec fn lookup_from(pairs: Seq<(Seq<char>, Seq<char>)>, key: Seq<char>, i: int) -> Option<Seq<char>>
    decreases pairs.len() - i,
{
    if i < 0 || i >= pairs.len() {
        None
    } else if pairs[i].0 == key {
        Some(pairs[i].1)
    } else {
        lookup_from(pairs, key, i + 1)
    }
}

pub open spec fn pairs_view(v: Seq<(String, String)>) -> Seq<(Seq<char>, Seq<char>)> {
    v.map_values(|p: (String, String)| (p.0@, p.1@))
}

impl View for MetadataTokens {
    type V = Seq<(Seq<char>, Seq<char>)>;

    open spec fn view(&self) -> Seq<(Seq<char>, Seq<char>)> {
        pairs_view(self.pairs@)
    }
}

/// The value of `key` among key/value pairs; the first pair with the key wins.
pub fn token_value<'a>(pairs: &'a Vec<(String, String)>, key: &str) -> (r: Option<&'a str>)
    ensures
        match lookup_from(pairs_view(pairs@), key@, 0) {
            Some(v) => r is Some && r.unwrap()@ == v,
            None => r is None,
        },
{
    let mut i: usize = 0;
    while i < pairs.len()
        invariant
            i <= pairs@.len(),
            lookup_from(pairs_view(pairs@), key@, 0) == lookup_from(pairs_view(pairs@), key@, i as int),
        decreases pairs.len() - i,
    {
        proof {
            assert(pairs_view(pairs@)[i as int] == (pairs@[i as int].0@, pairs@[i as int].1@));
        }
        if str_eq(pairs[i].0.as_str(), key) {
            return Some(pairs[i].1.as_str());
        }
        i += 1;
    }
    None
}

impl MetadataTokens {
    /// The value reported for `key`, if any.
    pub fn value(&self, key: &str) -> (r: Option<&str>)
        ensures
            match lookup_from(self@, key@, 0) {
                Some(v) => r is Some && r.unwrap()@ == v,
                None => r is None,
            },
    {
        token_value(&self.pairs, key)
    }
}

/// The command line `pi-twin <subcommand> --pane <id> --expected-session <uuid> --socket <path>`.
pub fn twin_argv(subcommand: &str, pane_id: &str, session_id: &str, socket: &str) -> (r: [String; 8])
    ensures
        r@[0]@ == CLI@,
        r@[1]@ == subcommand@,
        r@[2]@ == "--pane"@,
        r@[3]@ == pane_id@,
        r@[4]@ == "--expected-session"@,
        r@[5]@ == session_id@,
        r@[6]@ == "--socket"@,
        r@[7]@ == socket@,
{
    [
        owned(CLI),
        owned(subcommand),
        owned("--pane"),
        owned(pane_id),
        owned("--expected-session"),
        owned(session_id),
        owned("--socket"),
        owned(socket),
    ]
}

/// Why the tokens no longer allow the action, checked in order.
pub open spec fn twin_refusal(tokens: Seq<(Seq<char>, Seq<char>)>, captured: Seq<char>, is_merge: bool) -> Option<Seq<char>> {
    if lookup_from(tokens, "twin"@, 0) != Some("1"@) {
        Some("twin token no longer present"@)
    } else if ({
        let current = match lookup_from(tokens, "twin_session"@, 0) {
            Some(v) => v,
            None => Seq::empty(),
        };
        current.len() == 0 || current != captured
    }) {
        Some("twin_session token changed since menu was opened"@)
    } else if is_merge && lookup_from(tokens, "twin_parent"@, 0) != Some("1"@) {
        Some("twin_parent token no longer present (pane is not a clone session)"@)
    } else {
        None
    }
}

fn is_one(v: Option<&str>) -> (r: bool)
    ensures
        r == (match v {
            Some(s) => s@ == "1"@,
            None => false,
        }),
{
    match v {
        Some(s) => str_eq(s, "1"),
        None => false,
    }
}

/// The tokens still describe the captured live-clone session: `Ok`, or the
/// reason they do not.
pub fn validate_twin_tokens(tokens: &MetadataTokens, captured_session_id: &str, is_merge: bool) -> (r: Result<(), &'static str>)
    ensures
        match twin_refusal(tokens@, captured_session_id@, is_merge) {
            Some(e) => r is Err && r->Err_0@ == e,
            None => r is Ok,
        },
{
    if !is_one(tokens.value("twin")) {
        return Err("twin token no longer present");
    }
    let current = match tokens.value("twin_session") {
        Some(v) => v,
        None => "",
    };
    proof {
        reveal_strlit("");
    }
    if crate::bytes::byte_len(current) == 0 || !str_eq(current, captured_session_id) {
        proof {
            crate::editor::lemma_blen_zero(current@);
        }
        return Err("twin_session token changed since menu was opened");
    }
    proof {
        crate::editor::lemma_blen_zero(current@);
    }
    if is_merge && !is_one(tokens.value("twin_parent")) {
        return Err("twin_parent token no longer present (pane is not a clone session)");
    }
    Ok(())
}

} // verus!
