use vstd::prelude::*;

verus! {

/// Compares two byte strings for equality.
pub fn bytes_eq(a: &Vec<u8>, b: &Vec<u8>) -> (r: bool)
    ensures
        r == (a@ == b@),
{
    if a.len() != b.len() {
        return false;
    }
    let mut i: usize = 0;
    while i < a.len()
        invariant
            a@.len() == b@.len(),
            0 <= i <= a@.len(),
            a@.subrange(0, i as int) == b@.subrange(0, i as int),
        decreases a@.len() - i,
    {
        if a[i] != b[i] {
            assert(a@[i as int] != b@[i as int]);
            return false;
        }
        assert(a@.subrange(0, i + 1) =~= a@.subrange(0, i as int).push(a@[i as int]));
        assert(b@.subrange(0, i + 1) =~= b@.subrange(0, i as int).push(b@[i as int]));
        i = i + 1;
    }
    assert(a@ =~= a@.subrange(0, i as int));
    assert(b@ =~= b@.subrange(0, i as int));
    true
}

/// Returns a fresh copy of a byte string.
pub fn copy_bytes(a: &Vec<u8>) -> (r: Vec<u8>)
    ensures
        r@ == a@,
{
    let r = a.clone();
    assert(r@ =~= a@);
    r
}

/// Appends a byte string to another.
pub fn append_bytes(out: &mut Vec<u8>, b: &Vec<u8>)
    ensures
        final(out)@ == old(out)@ + b@,
{
    let mut k: usize = 0;
    while k < b.len()
        invariant
            0 <= k <= b@.len(),
            out@ == old(out)@ + b@.subrange(0, k as int),
        decreases b@.len() - k,
    {
        out.push(b[k]);
        assert(old(out)@ + b@.subrange(0, k + 1) =~= (old(out)@ + b@.subrange(0, k as int)).push(b@[k as int]));
        k = k + 1;
    }
    assert(b@.subrange(0, k as int) =~= b@);
}

} // verus!
