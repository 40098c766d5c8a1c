//! Byte strings: comparison, concatenation and search in lists.
use vstd::prelude::*;

verus! {

/// Compares two byte strings.
pub fn bytes_eq(a: &[u8], b: &[u8]) -> (r: bool)
    ensures
        r == (a@ == b@),
{
    if a.len() != b.len() {
        return false;
    }
    let mut i: usize = 0;
    while i < a.len()
        invariant
            i <= a@.len(),
            a@.len() == b@.len(),
            a@.subrange(0, i as int) == b@.subrange(0, i as int),
        decreases a@.len() - i,
    {
        if a[i] != b[i] {
            assert(a@[i as int] != b@[i as int]);
            return false;
        }
        assert(a@.subrange(0, i + 1) =~= a@.subrange(0, i as int).push(a@[i as int]));
        assert(b@.subrange(0, i + 1) =~= b@.subrange(0, i as int).push(b@[i as int]));
        i = i + 1;
    }
    assert(a@ =~= a@.subrange(0, i as int));
    assert(b@ =~= b@.subrange(0, i as int));
    true
}

/// `a`, then `sep`, then `b`.
pub fn join3(a: &[u8], sep: u8, b: &[u8]) -> (r: Vec<u8>)
    ensures
        r@ == a@.push(sep) + b@,
{
    let mut out = vstd::slice::slice_to_vec(a);
    out.push(sep);
    out.extend_from_slice(b);
    assert(out@ =~= a@.push(sep) + b@);
    out
}

/// The position of the first item whose first component is `key`.
pub fn find_key<T>(items: &Vec<(Vec<u8>, T)>, key: &[u8]) -> (r: Option<usize>)
    ensures
        r matches Some(i) ==> i < items@.len() && items@[i as int].0@ == key@
            && forall|j: int| 0 <= j < i ==> items@[j].0@ != key@,
        r is None ==> forall|j: int| 0 <= j < items@.len() ==> items@[j].0@ != key@,
{
    let mut i: usize = 0;
    while i < items.len()
        invariant
            i <= items@.len(),
            forall|j: int| 0 <= j < i ==> items@[j].0@ != key@,
        decreases items@.len() - i,
    {
        if bytes_eq(items[i].0.as_slice(), key) {
            return Some(i);
        }
        i = i + 1;
    }
    None
}

} // verus!
