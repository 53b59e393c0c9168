use vstd::prelude::*;

verus! {

/// Overwrites `out[off..off + src.len()]` with `src`.
pub fn copy_into(out: &mut [u8], off: usize, src: &[u8])
    requires
        off + src@.len() <= old(out)@.len(),
    ensures
        final(out)@ == old(out)@.take(off as int) + src@ + old(out)@.skip(off + src@.len()),
{
    let ghost o = out@;
    let n = src.len();
    let total = out.len();
    let mut i: usize = 0;
    while i < n
        invariant
            n == src@.len(),
            total == o.len(),
            i <= n,
            off + n <= o.len(),
            out@.len() == o.len(),
            out@ == o.take(off as int) + src@.take(i as int) + o.skip(off + i),
        decreases n - i,
    {
        let ghost before = out@;
        out[off + i] = src[i];
        proof {
            assert(out@ =~= o.take(off as int) + src@.take(i + 1) + o.skip(off + i + 1));
        }
        i = i + 1;
    }
    proof {
        assert(src@.take(n as int) =~= src@);
    }
}

/// Overwrites `out[off..off + n]` with zero bytes.
pub fn fill_zero(out: &mut [u8], off: usize, n: usize)
    requires
        off + n <= old(out)@.len(),
    ensures
        final(out)@ == old(out)@.take(off as int) + Seq::new(n as nat, |i: int| 0u8) + old(
            out,
        )@.skip(off + n),
{
    let ghost o = out@;
    let total = out.len();
    let mut i: usize = 0;
    while i < n
        invariant
            total == o.len(),
            i <= n,
            off + n <= o.len(),
            out@.len() == o.len(),
            out@ == o.take(off as int) + Seq::new(i as nat, |k: int| 0u8) + o.skip(off + i),
        decreases n - i,
    {
        out[off + i] = 0;
        proof {
            assert(out@ =~= o.take(off as int) + Seq::new((i + 1) as nat, |k: int| 0u8) + o.skip(
                off + i + 1,
            ));
        }
        i = i + 1;
    }
}

} // verus!
