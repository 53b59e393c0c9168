use vstd::prelude::*;
use vstd::arithmetic::power::pow;
use vstd::arithmetic::power::lemma_pow_positive;
use vstd::arithmetic::power::lemma_pow_increases;

verus! {

/// The unsigned integer whose little-endian encoding is `s`.
pub open spec fn le_value(s: Seq<u8>) -> nat
    decreases s.len(),
{
    if s.len() == 0 {
        0
    } else {
        s[0] as nat + 256 * le_value(s.skip(1))
    }
}

/// The `n` low-order bytes of `v`, least significant first.
pub open spec fn le_bytes(v: nat, n: nat) -> Seq<u8>
    decreases n,
{
    if n == 0 {
        Seq::empty()
    } else {
        seq![(v % 256) as u8] + le_bytes(v / 256, (n - 1) as nat)
    }
}

/// The number of distinct values that `n` bytes can hold.
pub open spec fn byte_range(n: nat) -> nat {
    pow(256, n) as nat
}

pub proof fn lemma_byte_range_step(n: nat)
    ensures
        byte_range(n) > 0,
        byte_range(n + 1) == 256 * byte_range(n),
{
    lemma_pow_positive(256, n);
    assert(pow(256, n + 1) == 256 * pow(256, n)) by {
        reveal(pow);
    }
}

pub proof fn lemma_byte_range_monotonic(a: nat, b: nat)
    requires
        a <= b,
    ensures
        byte_range(a) <= byte_range(b),
{
    lemma_pow_increases(256, a, b);
    lemma_pow_positive(256, a);
    lemma_pow_positive(256, b);
}

pub proof fn lemma_byte_range_values()
    ensures
        byte_range(0) == 1,
        byte_range(1) == 0x100,
        byte_range(2) == 0x1_0000,
        byte_range(3) == 0x100_0000,
        byte_range(4) == 0x1_0000_0000,
        byte_range(8) == 0x1_0000_0000_0000_0000,
{
    reveal_with_fuel(pow, 9);
}

pub proof fn lemma_le_bytes_len(v: nat, n: nat)
    ensures
        le_bytes(v, n).len() == n,
    decreases n,
{
    if n > 0 {
        lemma_le_bytes_len(v / 256, (n - 1) as nat);
    }
}

pub proof fn lemma_le_value_bound(s: Seq<u8>)
    ensures
        le_value(s) < byte_range(s.len()),
    decreases s.len(),
{
    if s.len() > 0 {
        lemma_le_value_bound(s.skip(1));
        lemma_byte_range_step((s.len() - 1) as nat);
    } else {
        lemma_byte_range_values();
    }
}

/// Reading back `n` bytes written from `v` gives `v` when it fits.
pub proof fn lemma_le_roundtrip(v: nat, n: nat)
    requires
        v < byte_range(n),
    ensures
        le_value(le_bytes(v, n)) == v,
    decreases n,
{
    lemma_le_bytes_len(v, n);
    if n == 0 {
        lemma_byte_range_values();
    } else {
        lemma_byte_range_step((n - 1) as nat);
        let rest = le_bytes(v / 256, (n - 1) as nat);
        assert(v / 256 < byte_range((n - 1) as nat));
        lemma_le_roundtrip(v / 256, (n - 1) as nat);
        assert(le_bytes(v, n).skip(1) =~= rest);
    }
}

/// The unsigned little-endian value of `bytes[off..off + n]`.
pub fn read_le(bytes: &[u8], off: usize, n: usize) -> (v: u64)
    requires
        n <= 8,
        off + n <= bytes@.len(),
    ensures
        v as nat == le_value(bytes@.subrange(off as int, off + n)),
{
    let ghost s = bytes@.subrange(off as int, off + n);
    let len = bytes.len();
    let mut v: u64 = 0;
    let mut i: usize = n;
    proof {
        assert(s.skip(n as int) =~= Seq::<u8>::empty());
        lemma_byte_range_values();
    }
    while i > 0
        invariant
            i <= n <= 8,
            off + n <= bytes@.len(),
            bytes@.len() == len,
            s == bytes@.subrange(off as int, off + n),
            v as nat == le_value(s.skip(i as int)),
        decreases i,
    {
        proof {
            lemma_le_value_bound(s.skip(i as int));
            lemma_byte_range_monotonic((n - i) as nat, 7);
            lemma_byte_range_step(7);
            lemma_byte_range_values();
            assert(s.skip(i - 1).skip(1) =~= s.skip(i as int));
        }
        let b = bytes[off + (i - 1)];
        v = v * 256 + b as u64;
        i = i - 1;
    }
    proof {
        assert(s.skip(0) =~= s);
    }
    v
}

/// The `n` low-order bytes of `v`, least significant first.
pub fn le_bytes_of(v: u64, n: usize) -> (out: Vec<u8>)
    requires
        n <= 8,
    ensures
        out@ == le_bytes(v as nat, n as nat),
{
    let mut out: Vec<u8> = Vec::new();
    let mut x: u64 = v;
    let mut i: usize = 0;
    while i < n
        invariant
            i <= n,
            out@ + le_bytes(x as nat, (n - i) as nat) == le_bytes(v as nat, n as nat),
        decreases n - i,
    {
        let ghost before = out@;
        let ghost x0 = x;
        out.push((x % 256) as u8);
        x = x / 256;
        i = i + 1;
        proof {
            assert(le_bytes(x0 as nat, (n - i + 1) as nat)
                == seq![(x0 % 256) as u8] + le_bytes(x as nat, (n - i) as nat));
            assert(out@ + le_bytes(x as nat, (n - i) as nat)
                =~= before + le_bytes(x0 as nat, (n - i + 1) as nat));
        }
    }
    proof {
        assert(le_bytes(x as nat, 0) =~= Seq::<u8>::empty());
        assert(out@ + Seq::<u8>::empty() =~= out@);
    }
    out
}

} // verus!
