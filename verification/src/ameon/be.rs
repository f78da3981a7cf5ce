//! Unsigned integers as big-endian bytes.
use vstd::prelude::*;

verus! {

/// 256 to the power `n`.
pub open spec fn pow256(n: nat) -> nat
    decreases n,
{
    if n == 0 {
        1
    } else {
        256 * pow256((n - 1) as nat)
    }
}

/// The `n` lowest bytes of `v`, most significant first.
pub open spec fn be_bytes(v: nat, n: nat) -> Seq<u8>
    decreases n,
{
    if n == 0 {
        seq![]
    } else {
        be_bytes(v / 256, (n - 1) as nat).push((v % 256) as u8)
    }
}

/// The number that `b` holds, most significant byte first.
pub open spec fn be_value(b: Seq<u8>) -> nat
    decreases b.len(),
{
    if b.len() == 0 {
        0
    } else {
        be_value(b.drop_last()) * 256 + (b.last() as nat)
    }
}

pub proof fn lemma_be_bytes_len(v: nat, n: nat)
    ensures
        be_bytes(v, n).len() == n,
    decreases n,
{
    if n > 0 {
        lemma_be_bytes_len(v / 256, (n - 1) as nat);
    }
}

pub proof fn lemma_pow256_pos(n: nat)
    ensures
        pow256(n) >= 1,
    decreases n,
{
    if n > 0 {
        lemma_pow256_pos((n - 1) as nat);
    }
}

/// Reading back the bytes of `v` gives `v`, when it fits.
pub proof fn lemma_be_roundtrip(v: nat, n: nat)
    requires
        v < pow256(n),
    ensures
        be_value(be_bytes(v, n)) == v,
    decreases n,
{
    if n > 0 {
        let q = v / 256;
        let p = pow256((n - 1) as nat);
        assert(q < p) by (nonlinear_arith)
            requires
                v < 256 * p,
                q == v / 256,
        ;
        lemma_be_roundtrip(q, (n - 1) as nat);
        let b = be_bytes(v, n);
        assert(b.drop_last() == be_bytes(q, (n - 1) as nat));
        assert(b.last() == (v % 256) as u8);
    }
}

/// The value of `n` bytes is below 256 to the power `n`.
pub proof fn lemma_be_value_bound(b: Seq<u8>)
    ensures
        be_value(b) < pow256(b.len()),
    decreases b.len(),
{
    if b.len() > 0 {
        lemma_be_value_bound(b.drop_last());
        let x = be_value(b.drop_last());
        let p = pow256((b.len() - 1) as nat);
        let y = b.last() as int;
        assert(x * 256 + y < 256 * p) by (nonlinear_arith)
            requires
                x < p,
                0 <= y < 256,
        ;
    }
}

/// Writing the value of `b` in `b.len()` bytes gives `b` back.
pub proof fn lemma_be_bytes_of_value(b: Seq<u8>)
    ensures
        be_bytes(be_value(b), b.len()) == b,
    decreases b.len(),
{
    if b.len() > 0 {
        let x = be_value(b.drop_last());
        let v = be_value(b);
        lemma_be_bytes_of_value(b.drop_last());
        assert(v / 256 == x && v % 256 == b.last()) by (nonlinear_arith)
            requires
                v == x * 256 + b.last(),
                0 <= b.last() < 256,
                x >= 0,
        ;
        assert(b.drop_last().push(b.last()) == b);
    }
}

pub proof fn lemma_pow256_values()
    ensures
        pow256(1) == 0x100,
        pow256(2) == 0x10000,
        pow256(4) == 0x1_0000_0000,
        pow256(8) == 0x1_0000_0000_0000_0000,
        pow256(16) == 0x1_0000_0000_0000_0000_0000_0000_0000_0000,
{
    reveal_with_fuel(pow256, 17);
}

/// Appends the `n` lowest bytes of `v`, most significant first.
pub fn push_be(out: &mut Vec<u8>, v: u128, n: usize)
    requires
        n <= 16,
    ensures
        final(out)@ == old(out)@ + be_bytes(v as nat, n as nat),
{
    let mut tmp: Vec<u8> = Vec::new();
    let mut k: usize = 0;
    while k < n
        invariant
            k <= n,
            tmp.len() == k,
        decreases n - k,
    {
        tmp.push(0);
        k = k + 1;
    }
    let mut x: u128 = v;
    let mut k: usize = n;
    proof {
        lemma_be_bytes_len(v as nat, n as nat);
        assert(tmp@.subrange(n as int, n as int) == Seq::<u8>::empty());
        assert(be_bytes(v as nat, n as nat) == be_bytes(v as nat, n as nat) + Seq::<u8>::empty());
    }
    while k > 0
        invariant
            k <= n == tmp.len(),
            be_bytes(v as nat, n as nat) == be_bytes(x as nat, k as nat) + tmp@.subrange(
                k as int,
                n as int,
            ),
        decreases k,
    {
        let byte = (x % 256) as u8;
        let ghost old_tmp = tmp@;
        tmp.set(k - 1, byte);
        proof {
            let y = (x / 256) as nat;
            assert(be_bytes(x as nat, k as nat) == be_bytes(y, (k - 1) as nat).push(byte));
            assert(tmp@.subrange(k - 1, n as int) == seq![byte] + old_tmp.subrange(k as int, n as int));
            assert(be_bytes(y, (k - 1) as nat).push(byte) + old_tmp.subrange(k as int, n as int)
                == be_bytes(y, (k - 1) as nat) + tmp@.subrange(k - 1, n as int));
        }
        x = x / 256;
        k = k - 1;
    }
    assert(tmp@.subrange(0, n as int) == tmp@);
    assert(be_bytes(x as nat, 0) == Seq::<u8>::empty());
    let mut j: usize = 0;
    let ghost start = out@;
    while j < n
        invariant
            j <= n == tmp.len(),
            tmp@ == be_bytes(v as nat, n as nat),
            out@ == start + tmp@.take(j as int),
        decreases n - j,
    {
        out.push(tmp[j]);
        j = j + 1;
        assert(out@ == start + tmp@.take(j as int));
    }
    assert(tmp@.take(n as int) == tmp@);
}

/// The number that `b` holds, most significant byte first.
pub fn read_be(b: &[u8]) -> (r: u128)
    requires
        b.len() <= 16,
    ensures
        r == be_value(b@),
{
    let mut acc: u128 = 0;
    let mut k: usize = 0;
    proof {
        lemma_pow256_values();
    }
    while k < b.len()
        invariant
            k <= b.len() <= 16,
            acc == be_value(b@.take(k as int)),
            pow256(16) == 0x1_0000_0000_0000_0000_0000_0000_0000_0000,
        decreases b.len() - k,
    {
        proof {
            let t = b@.take(k + 1);
            assert(t.drop_last() == b@.take(k as int));
            assert(t.last() == b@[k as int]);
            lemma_be_value_bound(t);
            lemma_pow256_monotone((k + 1) as nat, 16);
        }
        acc = acc * 256 + b[k] as u128;
        k = k + 1;
    }
    assert(b@.take(b.len() as int) == b@);
    acc
}

pub proof fn lemma_pow256_monotone(m: nat, n: nat)
    requires
        m <= n,
    ensures
        pow256(m) <= pow256(n),
    decreases n,
{
    if m < n {
        lemma_pow256_monotone(m, (n - 1) as nat);
        lemma_pow256_pos((n - 1) as nat);
    }
}

} // verus!
