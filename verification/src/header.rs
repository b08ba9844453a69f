//! The two bytes at the front of a share file: the threshold and the index
//! of the share.

use crate::error::StreamError;
use crate::io::{Read, Write};
use crate::partitioner::valid_indices;
use crate::utils::read_full;
use vstd::prelude::*;

verus! {

/// What a share file says of itself.
#[derive(Clone, Copy, Debug, PartialEq, Eq, Structural)]
pub struct ShareHeader {
    /// The number of shares that recover the data.
    pub k: u8,
    /// The index of this share.
    pub x: u8,
}

/// The bytes of a header.
pub open spec fn header_bytes(share_header: ShareHeader) -> Seq<u8> {
    seq![share_header.k, share_header.x]
}

/// Writes the header to `writer`.
pub fn write_share_header<W: Write>(writer: &mut W, share_header: &ShareHeader) -> (r: Result<
    (),
    StreamError,
>)
    requires
        old(writer).wf(),
    ensures
        final(writer).wf(),
        old(writer).reliable() ==> r is Ok,
        r is Ok ==> {
            &&& final(writer).written() == old(writer).written() + header_bytes(*share_header)
            &&& final(writer).reliable() == old(writer).reliable()
            &&& final(writer).follows(old(writer))
        },
{
    let mut bytes: Vec<u8> = Vec::new();
    bytes.push(share_header.k);
    bytes.push(share_header.x);
    proof {
        assert(bytes@ =~= header_bytes(*share_header));
    }
    writer.write_all(bytes.as_slice())
}

/// Reads a header from `reader`. Fails with `InvalidData` where the source
/// ends before the header does.
pub fn read_share_header<R: Read>(reader: &mut R) -> (r: Result<ShareHeader, StreamError>)
    requires
        old(reader).wf(),
    ensures
        final(reader).wf(),
        old(reader).reliable() ==> (r is Ok <==> old(reader).remaining().len() >= 2),
        old(reader).reliable() && r is Err ==> r == Err::<ShareHeader, StreamError>(
            StreamError::InvalidData,
        ),
        r matches Ok(share_header) ==> {
            &&& old(reader).remaining().len() >= 2
            &&& header_bytes(share_header) == old(reader).remaining().take(2)
            &&& final(reader).remaining() == old(reader).remaining().skip(2)
            &&& final(reader).reliable() == old(reader).reliable()
        },
{
    let mut buf: Vec<u8> = Vec::new();
    buf.push(0);
    buf.push(0);
    let count = match read_full(reader, buf.as_mut_slice()) {
        Err(e) => {
            return Err(e);
        },
        Ok(count) => count,
    };
    if count < 2 {
        return Err(StreamError::InvalidData);
    }
    let share_header = ShareHeader { k: buf[0], x: buf[1] };
    proof {
        assert(buf@.take(2)[0] == buf@[0]);
        assert(buf@.take(2)[1] == buf@[1]);
        assert(header_bytes(share_header) =~= old(reader).remaining().take(2));
    }
    Ok(share_header)
}

/// Whether the first `n` of `headers` can be joined: they are as many as
/// their threshold, which is two or more and the same in all, and their
/// indices are nonzero and differ.
pub open spec fn joinable(headers: Seq<ShareHeader>, n: int) -> bool {
    &&& 2 <= n <= headers.len()
    &&& forall|j: int| 0 <= j < n ==> (#[trigger] headers[j]).k == n
    &&& valid_indices(Seq::new(n as nat, |j: int| headers[j].x))
}

/// The number of shares to join, taken from the first header: `Some(k)` where
/// the first `k` of `headers` can be joined, `None` where they cannot.
pub fn agreed_threshold(headers: &[ShareHeader]) -> (r: Option<u8>)
    ensures
        match r {
            Some(k) => joinable(headers@, k as int),
            None => headers@.len() == 0 || !joinable(headers@, headers@[0].k as int),
        },
{
    if headers.len() == 0 {
        return None;
    }
    let k = headers[0].k;
    let n = k as usize;
    if k < 2 || headers.len() < n {
        return None;
    }
    let ghost xs = Seq::new(n as nat, |j: int| headers@[j].x);
    let mut j: usize = 0;
    while j < n
        invariant
            j <= n,
            n == k,
            k == headers@[0].k,
            2 <= n <= headers@.len(),
            xs == Seq::new(n as nat, |j: int| headers@[j].x),
            forall|i: int| 0 <= i < j ==> (#[trigger] headers@[i]).k == k,
            forall|i: int| 0 <= i < j ==> xs[i] != 0,
            forall|a: int, b: int| 0 <= a < b < j ==> xs[a] != xs[b],
        decreases n - j,
    {
        if headers[j].k != k || headers[j].x == 0 {
            proof {
                if headers@[j as int].k != k {
                    assert(!joinable(headers@, k as int));
                } else {
                    assert(xs[j as int] == 0);
                    assert(!valid_indices(xs));
                }
            }
            return None;
        }
        let mut i: usize = 0;
        while i < j
            invariant
                i <= j,
                j < n,
                n == k,
                k == headers@[0].k,
                n <= headers@.len(),
                xs == Seq::new(n as nat, |j: int| headers@[j].x),
                forall|a: int| 0 <= a < i ==> xs[a] != xs[j as int],
            decreases j - i,
        {
            if headers[i].x == headers[j].x {
                proof {
                    assert(xs[i as int] == xs[j as int]);
                    assert(!xs.no_duplicates());
                }
                return None;
            }
            i += 1;
        }
        j += 1;
    }
    proof {
        assert forall|a: int, b: int| 0 <= a < xs.len() && 0 <= b < xs.len() && a != b implies xs[a]
            != xs[b] by {
            if a < b {
                assert(xs[a] != xs[b]);
            } else {
                assert(xs[b] != xs[a]);
            }
        }
    }
    Some(k)
}

} // verus!
