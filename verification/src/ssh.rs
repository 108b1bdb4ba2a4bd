//! Which host a terminal running `ssh` is opened for. Spawning the terminal
//! happens outside this module.

use vstd::prelude::*;
use crate::text::{chars_of, string_of, trim_chars, trimmed};

verus! {

/// The host to run `ssh` against: the given address without surrounding
/// whitespace; an address that is blank is refused.
pub fn ssh_target(host: &str) -> (r: Result<String, String>)
    ensures
        trimmed(host@).len() > 0 ==> (r matches Ok(h) && h@ == trimmed(host@)),
        trimmed(host@).len() == 0 ==> (r matches Err(e) && e@ == "no host address given"@),
{
    let cs = chars_of(host);
    let t = trim_chars(cs.as_slice());
    if t.len() == 0 {
        Err("no host address given".to_owned())
    } else {
        Ok(string_of(t.as_slice()))
    }
}

} // verus!
