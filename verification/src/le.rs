//! Unsigned integers as little-endian bytes.
use vstd::prelude::*;

use crate::ameon::be::{lemma_pow256_monotone, lemma_pow256_values, pow256};

verus! {

/// The `n` lowest bytes of `v`, least significant first.
pub open spec fn le_bytes(v: nat, n: nat) -> Seq<u8>
    decreases n,
{
    if n == 0 {
        seq![]
    } else {
        seq![(v % 256) as u8] + le_bytes(v / 256, (n - 1) as nat)
    }
}

/// The number that `b` holds, least significant byte first.
pub open spec fn le_value(b: Seq<u8>) -> nat
    decreases b.len(),
{
    if b.len() == 0 {
        0
    } else {
        (b[0] as nat) + 256 * le_value(b.drop_first())
    }
}

pub proof fn lemma_le_bytes_len(v: nat, n: nat)
    ensures
        le_bytes(v, n).len() == n,
    decreases n,
{
    if n > 0 {
        lemma_le_bytes_len(v / 256, (n - 1) as nat);
    }
}

/// Reading back the bytes of `v` gives `v`, when it fits.
pub proof fn lemma_le_roundtrip(v: nat, n: nat)
    requires
        v < pow256(n),
    ensures
        le_value(le_bytes(v, n)) == v,
    decreases n,
{
    if n > 0 {
        let q = v / 256;
        let p = pow256((n - 1) as nat);
        assert(q < p) by (nonlinear_arith)
            requires
                v < 256 * p,
                q == v / 256,
        ;
        lemma_le_roundtrip(q, (n - 1) as nat);
        let b = le_bytes(v, n);
        assert(b.drop_first() == le_bytes(q, (n - 1) as nat));
        assert(b[0] == (v % 256) as u8);
    }
}

/// The value of `n` bytes is below 256 to the power `n`.
pub proof fn lemma_le_value_bound(b: Seq<u8>)
    ensures
        le_value(b) < pow256(b.len()),
    decreases b.len(),
{
    if b.len() > 0 {
        lemma_le_value_bound(b.drop_first());
        let x = le_value(b.drop_first());
        let p = pow256((b.len() - 1) as nat);
        let y = b[0] as int;
        assert(y + 256 * x < 256 * p) by (nonlinear_arith)
            requires
                x < p,
                0 <= y < 256,
        ;
    }
}

/// Writing the value of `b` in `b.len()` bytes gives `b` back.
pub proof fn lemma_le_bytes_of_value(b: Seq<u8>)
    ensures
        le_bytes(le_value(b), b.len()) == b,
    decreases b.len(),
{
    if b.len() > 0 {
        let x = le_value(b.drop_first());
        let v = le_value(b);
        lemma_le_bytes_of_value(b.drop_first());
        assert(v / 256 == x && v % 256 == b[0]) by (nonlinear_arith)
            requires
                v == b[0] + 256 * x,
                0 <= b[0] < 256,
                x >= 0,
        ;
        assert(seq![b[0]] + b.drop_first() == b);
    }
}

/// Appends the `n` lowest bytes of `v`, least significant first.
pub fn push_le(out: &mut Vec<u8>, v: u128, n: usize)
    ensures
        final(out)@ == old(out)@ + le_bytes(v as nat, n as nat),
{
    let ghost start = out@;
    let mut x: u128 = v;
    let mut k: usize = 0;
    assert(start + le_bytes(v as nat, n as nat) == out@ + le_bytes(x as nat, (n - k) as nat));
    while k < n
        invariant
            k <= n,
            out@ + le_bytes(x as nat, (n - k) as nat) == start + le_bytes(v as nat, n as nat),
        decreases n - k,
    {
        let byte = (x % 256) as u8;
        let ghost before = out@;
        let ghost m = (n - k) as nat;
        assert(le_bytes(x as nat, m) == seq![byte] + le_bytes((x / 256) as nat, (m - 1) as nat));
        out.push(byte);
        assert(out@ + le_bytes((x / 256) as nat, (m - 1) as nat) == before + le_bytes(x as nat, m));
        x = x / 256;
        k = k + 1;
    }
    assert(le_bytes(x as nat, 0) == Seq::<u8>::empty());
    assert(out@ + Seq::<u8>::empty() == out@);
}

/// The number that `b` holds, least significant byte first.
pub fn read_le(b: &[u8]) -> (r: u128)
    requires
        b.len() <= 16,
    ensures
        r == le_value(b@),
{
    let mut acc: u128 = 0;
    let mut k: usize = b.len();
    proof {
        lemma_pow256_values();
        assert(b@.skip(b.len() as int) == Seq::<u8>::empty());
    }
    while k > 0
        invariant
            k <= b.len() <= 16,
            acc == le_value(b@.skip(k as int)),
            pow256(16) == 0x1_0000_0000_0000_0000_0000_0000_0000_0000,
        decreases k,
    {
        proof {
            let t = b@.skip(k - 1);
            assert(t.drop_first() == b@.skip(k as int));
            assert(t[0] == b@[k - 1]);
            lemma_le_value_bound(t);
            lemma_pow256_monotone(t.len(), 16);
        }
        acc = b[k - 1] as u128 + 256 * acc;
        k = k - 1;
    }
    assert(b@.skip(0) == b@);
    acc
}

} // verus!
