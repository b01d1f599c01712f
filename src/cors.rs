//! The cross-origin headers that the service adds to every response when
//! cross-origin sharing is switched on.

use vstd::prelude::*;

verus! {

/// Switches on cross-origin resource sharing: responses then carry headers
/// that let pages of any origin read them.
#[derive(Debug, Clone, Copy)]
pub struct Cors;

impl Cors {
    /// The name under which the response hook is registered.
    pub fn name(&self) -> (r: &'static str)
        ensures
            r@ == "Attaching CORS headers to responses"@,
    {
        "Attaching CORS headers to responses"
    }

    /// The headers set on each response, as (name, value) pairs, in order.
    pub fn headers(&self) -> (r: Vec<(&'static str, &'static str)>)
        ensures
            r@.len() == 4,
            r@[0].0@ == "Access-Control-Allow-Origin"@,
            r@[0].1@ == "*"@,
            r@[1].0@ == "Access-Control-Allow-Methods"@,
            r@[1].1@ == "POST, GET, PATCH, OPTIONS"@,
            r@[2].0@ == "Access-Control-Allow-Headers"@,
            r@[2].1@ == "*"@,
            r@[3].0@ == "Access-Control-Allow-Credentials"@,
            r@[3].1@ == "true"@,
    {
        let mut r: Vec<(&'static str, &'static str)> = Vec::new();
        r.push(("Access-Control-Allow-Origin", "*"));
        r.push(("Access-Control-Allow-Methods", "POST, GET, PATCH, OPTIONS"));
        r.push(("Access-Control-Allow-Headers", "*"));
        r.push(("Access-Control-Allow-Credentials", "true"));
        r
    }
}

} // verus!
