//! Writing and moving runs of bytes inside a buffer of fixed length.

use vstd::prelude::*;

verus! {

/// `s` with the bytes from `at` on replaced by `bytes`, its length unchanged.
pub open spec fn overwrite(s: Seq<u8>, at: int, bytes: Seq<u8>) -> Seq<u8> {
    s.subrange(0, at) + bytes + s.subrange(at + bytes.len(), s.len() as int)
}

/// Writing `second` right behind `first` is writing both at once.
pub proof fn lemma_overwrite_twice(s: Seq<u8>, at: int, first: Seq<u8>, second: Seq<u8>)
    requires
        0 <= at,
        at + first.len() + second.len() <= s.len(),
    ensures
        overwrite(overwrite(s, at, first), at + first.len(), second) == overwrite(
            s,
            at,
            first + second,
        ),
{
    assert(overwrite(overwrite(s, at, first), at + first.len(), second) =~= overwrite(
        s,
        at,
        first + second,
    ));
}

/// Copies `src` into `dst`, from `at` on.
pub fn write_slice(dst: &mut Vec<u8>, at: usize, src: &[u8])
    requires
        at + src.len() <= old(dst).len(),
    ensures
        final(dst)@ == overwrite(old(dst)@, at as int, src@),
{
    let ghost before = dst@;
    let n = src.len();
    let mut i: usize = 0;
    assert(overwrite(before, at as int, src@.subrange(0, 0)) =~= before);
    while i < n
        invariant
            i <= n == src@.len(),
            at + n <= dst.len() == before.len(),
            dst@ == overwrite(before, at as int, src@.subrange(0, i as int)),
        decreases n - i,
    {
        dst[at + i] = src[i];
        assert(dst@ =~= overwrite(before, at as int, src@.subrange(0, i + 1)));
        i += 1;
    }
    assert(src@.subrange(0, n as int) =~= src@);
}

/// Moves the bytes `buf[from..end]` down to `buf[to..]`, where `to <= from`.
/// The two ranges may overlap.
pub fn move_down(buf: &mut Vec<u8>, from: usize, end: usize, to: usize)
    requires
        to <= from <= end <= old(buf).len(),
    ensures
        final(buf)@ == overwrite(old(buf)@, to as int, old(buf)@.subrange(from as int, end as int)),
{
    let ghost before = buf@;
    let n = end - from;
    let mut i: usize = 0;
    assert(overwrite(before, to as int, before.subrange(from as int, from as int)) =~= before);
    while i < n
        invariant
            i <= n == end - from,
            to <= from <= end <= buf.len() == before.len(),
            buf@ == overwrite(before, to as int, before.subrange(from as int, from + i)),
        decreases n - i,
    {
        let byte = buf[from + i];
        buf[to + i] = byte;
        assert(buf@ =~= overwrite(before, to as int, before.subrange(from as int, from + i + 1)));
        i += 1;
    }
}

} // verus!
