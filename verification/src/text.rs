//! Byte strings: the text of names, numbers and source files.

use vstd::prelude::*;
use vstd::string::StringSliceAdditionalSpecFns;

verus! {

/// Byte-wise equality of two byte strings.
pub fn bytes_eq(a: &[u8], b: &[u8]) -> (r: bool)
    ensures
        r == (a@ == b@),
{
    if a.len() != b.len() {
        return false;
    }
    let mut i: usize = 0;
    while i < a.len()
        invariant
            a.len() == b.len(),
            i <= a.len(),
            a@.subrange(0, i as int) == b@.subrange(0, i as int),
        decreases a.len() - i,
    {
        if a[i] != b[i] {
            assert(a@[i as int] != b@[i as int]);
            return false;
        }
        assert(a@.subrange(0, i + 1) == a@.subrange(0, i as int).push(a@[i as int]));
        assert(b@.subrange(0, i + 1) == b@.subrange(0, i as int).push(b@[i as int]));
        i += 1;
    }
    assert(a@ == a@.subrange(0, i as int));
    assert(b@ == b@.subrange(0, i as int));
    true
}

/// Whether a byte string spells the given word (as UTF-8).
pub fn is_word(a: &[u8], w: &str) -> (r: bool)
    ensures
        r == (a@ == w.spec_bytes()),
{
    bytes_eq(a, w.as_bytes())
}

/// The bytes of a word, as an owned byte string.
pub fn word(w: &str) -> (r: Vec<u8>)
    ensures
        r@ == w.spec_bytes(),
{
    copy_bytes(w.as_bytes())
}

/// A fresh copy of a byte string.
pub fn copy_bytes(a: &[u8]) -> (r: Vec<u8>)
    ensures
        r@ == a@,
{
    let mut r: Vec<u8> = Vec::with_capacity(a.len());
    let mut i: usize = 0;
    while i < a.len()
        invariant
            i <= a.len(),
            r@ == a@.subrange(0, i as int),
        decreases a.len() - i,
    {
        r.push(a[i]);
        i += 1;
    }
    assert(a@ == a@.subrange(0, i as int));
    r
}

/// A fresh copy of the bytes `a[from..to]`.
pub fn copy_range(a: &[u8], from: usize, to: usize) -> (r: Vec<u8>)
    requires
        from <= to <= a.len(),
    ensures
        r@ == a@.subrange(from as int, to as int),
{
    let mut r: Vec<u8> = Vec::with_capacity(to - from);
    let mut i: usize = from;
    while i < to
        invariant
            from <= i <= to <= a.len(),
            r@ == a@.subrange(from as int, i as int),
        decreases to - i,
    {
        r.push(a[i]);
        i += 1;
    }
    r
}

/// Appends the bytes of `b` to `a`.
pub fn push_all(a: &mut Vec<u8>, b: &[u8])
    ensures
        final(a)@ == old(a)@ + b@,
{
    let mut i: usize = 0;
    while i < b.len()
        invariant
            i <= b.len(),
            a@ == old(a)@ + b@.subrange(0, i as int),
        decreases b.len() - i,
    {
        a.push(b[i]);
        i += 1;
    }
    assert(b@ == b@.subrange(0, i as int));
}

/// Appends a word to `a`.
pub fn push_word(a: &mut Vec<u8>, w: &str)
    ensures
        final(a)@ == old(a)@ + w.spec_bytes(),
{
    push_all(a, w.as_bytes());
}


/// The decimal digits of a number, most significant first, without leading zeros.
pub open spec fn decimal(n: nat) -> Seq<u8>
    decreases n,
{
    if n < 10 {
        seq![(48 + n) as u8]
    } else {
        decimal(n / 10).push((48 + n % 10) as u8)
    }
}

/// Appends the decimal digits of `n` to `a`.
pub fn push_decimal(a: &mut Vec<u8>, n: usize)
    ensures
        final(a)@ == old(a)@ + decimal(n as nat),
    decreases n,
{
    if n >= 10 {
        push_decimal(a, n / 10);
    }
    let d: u8 = (n % 10) as u8;
    a.push(48 + d);
    proof {
        if n >= 10 {
            assert(decimal(n as nat) == decimal((n / 10) as nat).push((48 + n % 10) as u8));
        }
    }
    assert(a@ =~= old(a)@ + decimal(n as nat));
}

} // verus!
