//! Functions that take their arguments by value and build a result from them.
use vstd::prelude::*;

verus! {

/// `a` followed by `b`.
pub fn concatenate(a: String, b: String) -> (r: String)
    ensures
        r@ == a@ + b@,
{
    let mut r = a;
    r.append(b.as_str());
    r
}

/// `v` with `item` added at its end.
pub fn add_item(v: Vec<String>, item: String) -> (r: Vec<String>)
    ensures
        r@ == v@.push(item),
{
    let mut v = v;
    v.push(item);
    v
}

} // verus!
