use vstd::prelude::*;
use vstd::arithmetic::div_mod::{lemma_div_denominator, lemma_fundamental_div_mod, lemma_small_mod};

verus! {

/// `256^n`, the weight of the `n`-th byte of a little-endian integer.
pub open spec fn pow256(n: nat) -> int
    decreases n,
{
    if n == 0 {
        1
    } else {
        256 * pow256((n - 1) as nat)
    }
}

pub proof fn lemma_pow256_pos(n: nat)
    ensures
        pow256(n) >= 1,
    decreases n,
{
    if n > 0 {
        lemma_pow256_pos((n - 1) as nat);
    }
}

/// Explicit values of the byte weights used by the header layout.
pub proof fn lemma_pow256_values()
    ensures
        pow256(0) == 1,
        pow256(1) == 0x100,
        pow256(2) == 0x1_0000,
        pow256(3) == 0x100_0000,
        pow256(4) == 0x1_0000_0000,
        pow256(5) == 0x100_0000_0000,
        pow256(6) == 0x1_0000_0000_0000,
        pow256(7) == 0x100_0000_0000_0000,
        pow256(8) == 0x1_0000_0000_0000_0000,
{
    assert(pow256(0) == 1);
    assert(pow256(1) == 0x100);
    assert(pow256(2) == 0x1_0000);
    assert(pow256(3) == 0x100_0000);
    assert(pow256(4) == 0x1_0000_0000);
    assert(pow256(5) == 0x100_0000_0000);
    assert(pow256(6) == 0x1_0000_0000_0000);
    assert(pow256(7) == 0x100_0000_0000_0000);
    assert(pow256(8) == 0x1_0000_0000_0000_0000);
}

/// The `n`-byte little-endian encoding of the non-negative value `v`.
pub open spec fn le_bytes(v: int, n: nat) -> Seq<u8> {
    Seq::new(n, |i: int| ((v / pow256(i as nat)) % 256) as u8)
}

/// The value denoted by a little-endian byte string.
pub open spec fn le_val(s: Seq<u8>) -> int
    decreases s.len(),
{
    if s.len() == 0 {
        0
    } else {
        s[0] + 256 * le_val(s.skip(1))
    }
}

/// A little-endian byte string denotes a value below `256^len`.
pub proof fn lemma_le_val_bound(s: Seq<u8>)
    ensures
        0 <= le_val(s) < pow256(s.len()),
    decreases s.len(),
{
    if s.len() == 0 {
    } else {
        lemma_le_val_bound(s.skip(1));
    }
}

/// Reading back an `n`-byte little-endian encoding recovers the value.
pub proof fn lemma_le_round_trip(v: int, n: nat)
    requires
        0 <= v < pow256(n),
    ensures
        le_val(le_bytes(v, n)) == v,
    decreases n,
{
    if n == 0 {
    } else {
        let s = le_bytes(v, n);
        let v1 = v / 256;
        assert(s.skip(1) =~= le_bytes(v1, (n - 1) as nat)) by {
            assert forall|i: int| 0 <= i < n - 1 implies s.skip(1)[i] == le_bytes(
                v1,
                (n - 1) as nat,
            )[i] by {
                lemma_pow256_pos(i as nat);
                lemma_div_denominator(v, 256, pow256(i as nat));
                assert(v / (256 * pow256(i as nat)) == (v / 256) / pow256(i as nat));
                assert(pow256((i + 1) as nat) == 256 * pow256(i as nat));
            }
        }
        assert(0 <= v1 < pow256((n - 1) as nat)) by {
            lemma_pow256_pos((n - 1) as nat);
            assert(v / 256 < pow256((n - 1) as nat)) by (nonlinear_arith)
                requires
                    0 <= v,
                    v < 256 * pow256((n - 1) as nat),
                    pow256((n - 1) as nat) >= 1,
            ;
        }
        lemma_le_round_trip(v1, (n - 1) as nat);
        assert(s[0] == (v / pow256(0)) % 256);
        assert(v / pow256(0) == v);
        lemma_fundamental_div_mod(v, 256);
        assert(le_val(s) == s[0] + 256 * le_val(s.skip(1)));
        assert(s[0] == v % 256);
        assert(le_val(s) == v % 256 + 256 * (v / 256));
    }
}

/// Appends the two-byte little-endian encoding of `v`.
pub fn push_le_u16(out: &mut Vec<u8>, v: u16)
    ensures
        final(out)@ == old(out)@ + le_bytes(v as int, 2),
{
    out.push((v % 256) as u8);
    out.push((v / 256) as u8);
    proof {
        let s = le_bytes(v as int, 2);
        assert(s[0] == ((v as int / pow256(0)) % 256) as u8);
        assert(s[1] == ((v as int / pow256(1)) % 256) as u8);
        assert(pow256(0) == 1 && pow256(1) == 256) by {
            lemma_pow256_values();
        }
        assert(v as int / 256 < 256);
        lemma_small_mod((v as int / 256) as nat, 256);
        assert(out@ =~= old(out)@ + s);
    }
}

/// Appends the eight-byte little-endian encoding of `v`.
pub fn push_le_u64(out: &mut Vec<u8>, v: u64)
    ensures
        final(out)@ == old(out)@ + le_bytes(v as int, 8),
{
    let mut x: u64 = v;
    let mut i: usize = 0;
    while i < 8
        invariant
            0 <= i <= 8,
            x == v as int / pow256(i as nat),
            out@ == old(out)@ + le_bytes(v as int, 8).take(i as int),
        decreases 8 - i,
    {
        out.push((x % 256) as u8);
        proof {
            let s = le_bytes(v as int, 8);
            assert(s[i as int] == ((v as int / pow256(i as nat)) % 256) as u8);
            assert(s.take(i + 1) =~= s.take(i as int).push(s[i as int]));
            lemma_pow256_pos(i as nat);
            lemma_div_denominator(v as int, pow256(i as nat), 256);
            assert(v as int / (pow256(i as nat) * 256) == (v as int / pow256(i as nat)) / 256);
            assert(pow256((i + 1) as nat) == 256 * pow256(i as nat));
            assert(pow256(i as nat) * 256 == 256 * pow256(i as nat)) by (nonlinear_arith);
        }
        x = x / 256;
        i = i + 1;
    }
    proof {
        assert(le_bytes(v as int, 8).take(8) =~= le_bytes(v as int, 8));
    }
}

/// Reads the two-byte little-endian value at `off`.
pub fn read_le_u16(bytes: &Vec<u8>, off: usize) -> (r: u16)
    requires
        off + 2 <= bytes@.len(),
    ensures
        r as int == le_val(bytes@.subrange(off as int, off as int + 2)),
{
    let n = bytes.len();
    let b0 = bytes[off];
    let b1 = bytes[off + 1];
    let r = (b0 as u16) + 256 * (b1 as u16);
    proof {
        let s = bytes@.subrange(off as int, off as int + 2);
        assert(s.skip(1) =~= bytes@.subrange(off as int + 1, off as int + 2));
        let t = s.skip(1);
        assert(t.skip(1) =~= Seq::<u8>::empty());
        assert(le_val(t) == t[0] + 256 * le_val(t.skip(1)));
        assert(le_val(s) == s[0] + 256 * le_val(t));
    }
    r
}

/// Reads the eight-byte little-endian value at `off`.
pub fn read_le_u64(bytes: &Vec<u8>, off: usize) -> (r: u64)
    requires
        off + 8 <= bytes@.len(),
    ensures
        r as int == le_val(bytes@.subrange(off as int, off as int + 8)),
{
    let n = bytes.len();
    let mut acc: u64 = 0;
    let mut i: usize = 8;
    while i > 0
        invariant
            0 <= i <= 8,
            n == bytes@.len(),
            off + 8 <= n,
            acc == le_val(bytes@.subrange(off as int + i, off as int + 8)),
            acc < pow256((8 - i) as nat),
        decreases i,
    {
        i = i - 1;
        proof {
            let s = bytes@.subrange(off as int + i, off as int + 8);
            assert(s.skip(1) =~= bytes@.subrange(off as int + i + 1, off as int + 8));
            assert(le_val(s) == s[0] + 256 * le_val(s.skip(1)));
            assert(s[0] == bytes@[off as int + i]);
            lemma_pow256_values();
            assert(pow256((8 - i) as nat) == 256 * pow256((8 - (i + 1)) as nat));
        }
        acc = 256 * acc + bytes[off + i] as u64;
    }
    acc
}

/// A run of `n` zero bytes.
pub open spec fn zero_seq(n: nat) -> Seq<u8> {
    Seq::new(n, |i: int| 0u8)
}

/// Appends `n` zero bytes.
pub fn push_zeros(out: &mut Vec<u8>, n: usize)
    requires
        old(out)@.len() + n <= usize::MAX,
    ensures
        final(out)@ == old(out)@ + zero_seq(n as nat),
{
    let mut i: usize = 0;
    while i < n
        invariant
            0 <= i <= n,
            out@ == old(out)@ + zero_seq(i as nat),
        decreases n - i,
    {
        out.push(0u8);
        proof {
            assert(zero_seq((i + 1) as nat) =~= zero_seq(i as nat).push(0u8));
        }
        i = i + 1;
    }
}

/// Appends all of `src`.
pub fn append_bytes(out: &mut Vec<u8>, src: &Vec<u8>)
    requires
        old(out)@.len() + src@.len() <= usize::MAX,
    ensures
        final(out)@ == old(out)@ + src@,
{
    let mut i: usize = 0;
    while i < src.len()
        invariant
            0 <= i <= src@.len(),
            out@ == old(out)@ + src@.take(i as int),
        decreases src@.len() - i,
    {
        out.push(src[i]);
        proof {
            assert(src@.take(i + 1) =~= src@.take(i as int).push(src@[i as int]));
        }
        i = i + 1;
    }
    proof {
        assert(src@.take(src@.len() as int) =~= src@);
    }
}

/// The bytes of `a` from `start` (inclusive) to `end` (exclusive), as a fresh
/// vector.
pub fn subvec(a: &Vec<u8>, start: usize, end: usize) -> (r: Vec<u8>)
    requires
        start <= end <= a@.len(),
    ensures
        r@ == a@.subrange(start as int, end as int),
{
    let mut r: Vec<u8> = Vec::new();
    let mut i: usize = start;
    while i < end
        invariant
            start <= i <= end <= a@.len(),
            r@ == a@.subrange(start as int, i as int),
        decreases end - i,
    {
        r.push(a[i]);
        proof {
            assert(a@.subrange(start as int, i + 1) =~= a@.subrange(start as int, i as int).push(
                a@[i as int],
            ));
        }
        i = i + 1;
    }
    r
}

/// Whether two byte vectors hold the same bytes.
pub fn bytes_eq(a: &Vec<u8>, b: &Vec<u8>) -> (r: bool)
    ensures
        r <==> a@ == b@,
{
    if a.len() != b.len() {
        proof {
            assert(a@ != b@);
        }
        return false;
    }
    let mut i: usize = 0;
    while i < a.len()
        invariant
            0 <= i <= a@.len(),
            a@.len() == b@.len(),
            forall|j: int| 0 <= j < i ==> a@[j] == b@[j],
        decreases a@.len() - i,
    {
        if a[i] != b[i] {
            proof {
                assert(a@[i as int] != b@[i as int]);
            }
            return false;
        }
        i = i + 1;
    }
    proof {
        assert(a@ =~= b@);
    }
    true
}

} // verus!
