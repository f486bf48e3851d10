//! Byte strings and word sequences: copies and comparison.
use vstd::prelude::*;

verus! {

/// Copies a byte string.
pub fn copy_bytes(bytes: &[u8]) -> (copy: Vec<u8>)
    ensures
        copy@ == bytes@,
{
    let mut copy: Vec<u8> = Vec::new();
    let mut i: usize = 0;
    while i < bytes.len()
        invariant
            i <= bytes.len(),
            copy@ == bytes@.take(i as int),
        decreases bytes.len() - i,
    {
        copy.push(bytes[i]);
        assert(bytes@.take(i + 1) == bytes@.take(i as int).push(bytes@[i as int]));
        i += 1;
    }
    assert(bytes@.take(i as int) == bytes@);
    copy
}

/// Copies a sequence of words.
pub fn copy_words(words: &[u64]) -> (copy: Vec<u64>)
    ensures
        copy@ == words@,
{
    let mut copy: Vec<u64> = Vec::new();
    let mut i: usize = 0;
    while i < words.len()
        invariant
            i <= words.len(),
            copy@ == words@.take(i as int),
        decreases words.len() - i,
    {
        copy.push(words[i]);
        assert(words@.take(i + 1) == words@.take(i as int).push(words@[i as int]));
        i += 1;
    }
    assert(words@.take(i as int) == words@);
    copy
}

/// Tells whether two byte strings are equal.
pub fn same_bytes(a: &[u8], b: &[u8]) -> (r: bool)
    ensures
        r == (a@ == b@),
{
    if a.len() != b.len() {
        return false;
    }
    let mut i: usize = 0;
    while i < a.len()
        invariant
            i <= a.len(),
            a@.len() == b@.len(),
            forall|k: int| 0 <= k < i ==> a@[k] == b@[k],
        decreases a.len() - i,
    {
        if a[i] != b[i] {
            return false;
        }
        i += 1;
    }
    assert(a@ =~= b@);
    true
}

} // verus!
