//! Helpers for moving bytes between buffers and streams.

use crate::error::StreamError;
use crate::io::Read;
use vstd::prelude::*;

verus! {

/// Overwrites `dst` with `src`, which has the same length.
pub fn copy_bytes(dst: &mut [u8], src: &[u8])
    requires
        old(dst)@.len() == src@.len(),
    ensures
        final(dst)@ == src@,
{
    let n = src.len();
    let mut i: usize = 0;
    while i < n
        invariant
            i <= n,
            n == src@.len(),
            dst@.len() == n,
            dst@.take(i as int) == src@.take(i as int),
        decreases n - i,
    {
        dst[i] = src[i];
        i += 1;
        assert(dst@.take(i as int) == src@.take(i as int)) by {
            assert forall|j: int| 0 <= j < i implies dst@[j] == src@[j] by {
                if j < i - 1 {
                    assert(dst@[j] == dst@.take(i - 1)[j]);
                    assert(src@[j] == src@.take(i - 1)[j]);
                }
            }
        }
    }
    assert(dst@.take(n as int) == dst@);
    assert(src@.take(n as int) == src@);
}

/// Appends `src` to `dst`.
pub fn append_bytes(dst: &mut Vec<u8>, src: &[u8])
    ensures
        final(dst)@ == old(dst)@ + src@,
{
    dst.extend_from_slice(src);
    assert(dst@ =~= old(dst)@ + src@);
}

/// A copy of the bytes of `src` from `start` up to `end`.
pub fn copy_range(src: &[u8], start: usize, end: usize) -> (r: Vec<u8>)
    requires
        start <= end <= src@.len(),
    ensures
        r@ == src@.subrange(start as int, end as int),
{
    let mut out: Vec<u8> = Vec::new();
    append_bytes(&mut out, vstd::slice::slice_subrange(src, start, end));
    out
}

/// A vector of `n` zero bytes.
pub fn zero_bytes(n: usize) -> (r: Vec<u8>)
    ensures
        r@.len() == n,
        forall|i: int| 0 <= i < n ==> r@[i] == 0,
{
    let mut out: Vec<u8> = Vec::new();
    out.resize(n, 0u8);
    out
}

/// Reads until `buf` is full or the source is at its end, and returns the
/// number of bytes read. The rest of `buf` stays as it is.
pub fn read_full<R: Read>(reader: &mut R, buf: &mut [u8]) -> (r: Result<usize, StreamError>)
    requires
        old(reader).wf(),
    ensures
        final(reader).wf(),
        final(buf)@.len() == old(buf)@.len(),
        old(reader).reliable() ==> r is Ok,
        r matches Ok(n) ==> {
            &&& n <= old(buf)@.len()
            &&& n <= old(reader).remaining().len()
            &&& (n == old(buf)@.len() || n == old(reader).remaining().len())
            &&& final(buf)@.take(n as int) == old(reader).remaining().take(n as int)
            &&& final(buf)@.skip(n as int) == old(buf)@.skip(n as int)
            &&& final(reader).remaining() == old(reader).remaining().skip(n as int)
            &&& final(reader).reliable() == old(reader).reliable()
        },
{
    let len = buf.len();
    let mut read_size: usize = 0;
    let ghost all = reader.remaining();
    loop
        invariant
            reader.wf(),
            len == buf@.len(),
            len == old(buf)@.len(),
            read_size <= len,
            read_size <= all.len(),
            all == old(reader).remaining(),
            buf@.take(read_size as int) == all.take(read_size as int),
            buf@.skip(read_size as int) == old(buf)@.skip(read_size as int),
            reader.remaining() == all.skip(read_size as int),
            reader.reliable() == old(reader).reliable(),
        decreases len - read_size,
    {
        let ghost before = buf@;
        let (head, tail) = buf.split_at_mut(read_size);
        let got = reader.read(tail);
        match got {
            Err(e) => {
                return Err(e);
            },
            Ok(n) => {
                proof {
                    let rest = all.skip(read_size as int);
                    assert(buf@.take(read_size + n) == before.take(read_size as int) + tail@.take(
                        n as int,
                    ));
                    assert(all.take(read_size + n) == all.take(read_size as int) + rest.take(
                        n as int,
                    ));
                    assert(buf@.skip(read_size + n) =~= tail@.skip(n as int));
                    assert(before.skip(read_size as int).skip(n as int) =~= old(buf)@.skip(
                        read_size + n,
                    ));
                    assert(rest.skip(n as int) == all.skip(read_size + n));
                }
                if n == 0 {
                    return Ok(read_size);
                }
                read_size += n;
            },
        }
    }
}

} // verus!
