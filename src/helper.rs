use vstd::prelude::*;

verus! {

/// Adds `src` to `*dst` unless the sum leaves the range of `usize`; returns
/// whether the addition took place.
pub fn safe_add(dst: &mut usize, src: usize) -> (ok: bool)
    ensures
        ok == (*old(dst) + src <= usize::MAX),
        ok ==> *final(dst) == *old(dst) + src,
        !ok ==> *final(dst) == *old(dst),
{
    match dst.checked_add(src) {
        Some(v) => {
            *dst = v;
            true
        },
        None => false,
    }
}

/// The characters of `s`, in order.
pub fn chars_of(s: &str) -> (r: Vec<char>)
    ensures
        r@ == s@,
{
    let mut v: Vec<char> = Vec::new();
    for c in it: s.chars()
        invariant
            v@ == it.seq().take(it.index() as int),
    {
        v.push(c);
    }
    v
}

} // verus!
