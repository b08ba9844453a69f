//! Streams that add or remove ISO 7816-4 padding at the end of the stream
//! they wrap, without holding more than one block of it.
//!
//! Both adapters keep back the last `block_size` bytes that passed, since any
//! of them may belong to the last block, and decide about them when the
//! stream ends.

use crate::error::StreamError;
use crate::io::{Read, Write};
use crate::padding::{
    iso7816_pad, iso7816_unpad, lemma_unpad_pad, padding, transform, unpad_block, zeros,
};
use crate::utils::{append_bytes, copy_bytes, copy_range, read_full, zero_bytes};
use vstd::arithmetic::div_mod::{
    lemma_add_mod_noop, lemma_mod_is_zero, lemma_mod_twice, lemma_small_mod,
};
use vstd::prelude::*;

verus! {

/// The direction of a padding stream.
#[derive(Clone, Copy, Debug, PartialEq, Eq, Structural)]
pub enum Op {
    /// Append the padding at the end of the stream.
    Pad,
    /// Remove the padding at the end of the stream.
    Unpad,
}

/// `n` modulo `k`, with `k` in place of zero.
pub open spec fn spec_mod_positive(n: int, k: int) -> int {
    if n % k == 0 {
        k
    } else {
        n % k
    }
}

/// The representative of `n` modulo `k` that lies in `1..=k`.
pub fn mod_positive(n: usize, k: usize) -> (r: usize)
    requires
        k > 0,
    ensures
        r == spec_mod_positive(n as int, k as int),
        1 <= r <= k,
        (r as int) % (k as int) == (n as int) % (k as int),
{
    proof {
        vstd::arithmetic::div_mod::lemma_mod_self_0(k as int);
        if n % k != 0 {
            lemma_small_mod((n % k) as nat, k as nat);
        }
    }
    if n % k == 0 {
        k
    } else {
        n % k
    }
}

/// What becomes of the end of a stream: `tail` holds its last bytes, at least
/// a block of them unless it is the whole stream, and `phase` is the length
/// of the whole stream modulo the block size.
pub open spec fn finished_tail(op: Op, tail: Seq<u8>, phase: int, block_size: int) -> Option<
    Seq<u8>,
> {
    match op {
        Op::Pad => Some(tail + padding(phase, block_size)),
        Op::Unpad => if phase % block_size == 0 && tail.len() >= block_size {
            match unpad_block(tail.skip(tail.len() - block_size)) {
                Some(t) => Some(tail.take(tail.len() - block_size) + t),
                None => None,
            }
        } else {
            None
        },
    }
}

/// `finished_tail` where it is defined, the bytes as they are where it is not.
pub open spec fn resolved_tail(op: Op, tail: Seq<u8>, phase: int, block_size: int) -> Seq<u8> {
    match finished_tail(op, tail, phase, block_size) {
        Some(s) => s,
        None => tail,
    }
}

/// Finishing the tail of a stream finishes the stream.
pub proof fn lemma_finished_tail_is_transform(
    op: Op,
    head: Seq<u8>,
    tail: Seq<u8>,
    block_size: int,
)
    requires
        block_size >= 1,
        head.len() == 0 || tail.len() >= block_size,
    ensures
        transform(op, head + tail, block_size) == match finished_tail(
            op,
            tail,
            ((head + tail).len() as int) % block_size,
            block_size,
        ) {
            Some(t) => Some(head + t),
            None => None,
        },
{
    let whole = head + tail;
    let len = whole.len() as int;
    let phase = len % block_size;
    lemma_mod_twice(len, block_size);
    match op {
        Op::Pad => {
            assert(whole + padding(len, block_size) == head + (tail + padding(phase, block_size)));
        },
        Op::Unpad => {
            if len != 0 && phase == 0 {
                lemma_mod_is_zero(len as nat, block_size as nat);
                assert(tail.len() >= block_size);
                assert(whole.skip(len - block_size) == tail.skip(tail.len() - block_size));
                assert(whole.take(len - block_size) == head + tail.take(tail.len() - block_size));
                match unpad_block(tail.skip(tail.len() - block_size)) {
                    Some(t) => {
                        assert(whole.take(len - block_size) + t == head + (tail.take(
                            tail.len() - block_size,
                        ) + t));
                    },
                    None => {},
                }
            } else if len == 0 {
                assert(tail.len() < block_size);
            }
        },
    }
}

/// Handing out bytes that lie a block or more before the end does not change
/// what becomes of the end.
pub proof fn lemma_finished_tail_skip(op: Op, tail: Seq<u8>, phase: int, block_size: int, k: int)
    requires
        block_size >= 1,
        0 <= k,
        k + block_size <= tail.len(),
    ensures
        finished_tail(op, tail.skip(k), phase, block_size) == match finished_tail(
            op,
            tail,
            phase,
            block_size,
        ) {
            Some(s) => Some(s.skip(k)),
            None => None,
        },
        resolved_tail(op, tail.skip(k), phase, block_size) == resolved_tail(
            op,
            tail,
            phase,
            block_size,
        ).skip(k),
        resolved_tail(op, tail, phase, block_size).take(k) == tail.take(k),
        resolved_tail(op, tail, phase, block_size).len() >= k,
{
    let rest = tail.skip(k);
    match op {
        Op::Pad => {
            assert((tail + padding(phase, block_size)).skip(k) == rest + padding(
                phase,
                block_size,
            ));
            assert((tail + padding(phase, block_size)).take(k) == tail.take(k));
        },
        Op::Unpad => {
            let cut = tail.len() - block_size;
            assert(rest.skip(rest.len() - block_size) == tail.skip(cut));
            assert(rest.take(rest.len() - block_size) == tail.take(cut).skip(k));
            match unpad_block(tail.skip(cut)) {
                Some(t) => {
                    assert((tail.take(cut) + t).skip(k) == tail.take(cut).skip(k) + t);
                    assert((tail.take(cut) + t).take(k) == tail.take(k));
                },
                None => {},
            }
        },
    }
}

/// Taking `count` bytes from a source moves its phase by `count`.
proof fn lemma_phase_step(phase: int, count: int, left: int, block_size: int)
    requires
        block_size >= 1,
        0 <= phase,
        0 <= count <= left,
    ensures
        ((phase + count % block_size) % block_size + (left - count)) % block_size == (phase
            + left) % block_size,
        (phase + count % block_size) % block_size == (phase + count) % block_size,
{
    let m = block_size;
    lemma_add_mod_noop(phase, count, m);
    lemma_add_mod_noop(phase, count % m, m);
    lemma_mod_twice(count, m);
    lemma_add_mod_noop(phase + count, left - count, m);
    lemma_add_mod_noop((phase + count) % m, left - count, m);
    lemma_mod_twice(phase + count, m);
}

/// Taking `first` and then `second` bytes from a source moves its phase by
/// their sum.
proof fn lemma_phase_two_steps(phase: int, first: int, second: int, left: int, block_size: int)
    requires
        block_size >= 1,
        0 <= phase,
        0 <= first,
        0 <= second,
        first + second <= left,
    ensures
        ((phase + first) % block_size + second) % block_size == (phase + first + second)
            % block_size,
        ((phase + first + second) % block_size + (left - first - second)) % block_size == (phase
            + left) % block_size,
{
    let m = block_size;
    lemma_add_mod_noop(phase + first, second, m);
    lemma_add_mod_noop((phase + first) % m, second, m);
    lemma_mod_twice(phase + first, m);
    lemma_add_mod_noop(phase + first + second, left - first - second, m);
    lemma_add_mod_noop((phase + first + second) % m, left - first - second, m);
    lemma_mod_twice(phase + first + second, m);
}

/// Finishes the end of a stream: adds the padding to `tail`, or removes it.
pub fn finish_tail(op: Op, tail: Vec<u8>, phase: usize, block_size: usize) -> (r: Result<
    Vec<u8>,
    StreamError,
>)
    requires
        1 <= block_size,
        phase < block_size,
        phase <= tail@.len(),
    ensures
        match r {
            Ok(v) => finished_tail(op, tail@, phase as int, block_size as int) == Some(v@),
            Err(e) => e == StreamError::InvalidData && finished_tail(
                op,
                tail@,
                phase as int,
                block_size as int,
            ) is None,
        },
{
    let len = tail.len();
    proof {
        lemma_small_mod(phase as nat, block_size as nat);
    }
    match op {
        Op::Pad => {
            let cut = len - phase;
            let mut last = zero_bytes(block_size);
            let (front, back) = last.as_mut_slice().split_at_mut(phase);
            copy_bytes(front, vstd::slice::slice_subrange(tail.as_slice(), cut, len));
            iso7816_pad(last.as_mut_slice(), phase);
            let mut out = copy_range(tail.as_slice(), 0, cut);
            append_bytes(&mut out, last.as_slice());
            proof {
                assert(last@ == tail@.skip(cut as int) + seq![0x80u8] + zeros(
                    block_size - 1 - phase,
                ));
                assert(out@ == tail@ + padding(phase as int, block_size as int));
            }
            Ok(out)
        },
        Op::Unpad => {
            if mod_positive(phase, block_size) != block_size || len < block_size {
                return Err(StreamError::InvalidData);
            }
            let cut = len - block_size;
            let last = vstd::slice::slice_subrange(tail.as_slice(), cut, len);
            assert(last@ == tail@.skip(cut as int));
            match iso7816_unpad(last) {
                Err(_) => Err(StreamError::InvalidData),
                Ok(data) => {
                    let mut out = copy_range(tail.as_slice(), 0, cut);
                    append_bytes(&mut out, data);
                    assert(out@ == tail@.take(cut as int) + data@);
                    Ok(out)
                },
            }
        },
    }
}

/// Moves the bytes of `buf` from `by` on to its front.
fn shift_left(buf: &mut [u8], by: usize)
    requires
        by <= old(buf)@.len(),
    ensures
        final(buf)@.len() == old(buf)@.len(),
        final(buf)@.take(old(buf)@.len() - by) == old(buf)@.skip(by as int),
{
    let len = buf.len();
    let mut i: usize = 0;
    while i < len - by
        invariant
            by <= len,
            i <= len - by,
            buf@.len() == len,
            old(buf)@.len() == len,
            forall|j: int| 0 <= j < i ==> buf@[j] == old(buf)@[j + by],
            forall|j: int| i <= j < len ==> buf@[j] == old(buf)@[j],
        decreases len - by - i,
    {
        let b = buf[i + by];
        buf[i] = b;
        i += 1;
    }
    assert(buf@.take(len - by) =~= old(buf)@.skip(by as int));
}

/// The phase of a stream after `count` more bytes.
fn advance(phase: usize, count: usize, block_size: usize) -> (r: usize)
    requires
        1 <= block_size <= usize::MAX / 2,
        phase < block_size,
    ensures
        r == (phase + count) % (block_size as int),
        r < block_size,
{
    proof {
        let m = block_size as int;
        lemma_add_mod_noop(phase as int, count as int, m);
        lemma_add_mod_noop(phase as int, (count as int) % m, m);
        lemma_mod_twice(count as int, m);
    }
    (phase + count % block_size) % block_size
}

/// Hands the front of the full `store` to the shorter `out`, moves the rest
/// of `store` up and fills it again from `reader`.
fn refill_store<R: Read>(reader: &mut R, store: &mut Vec<u8>, out: &mut [u8]) -> (r: Result<
    usize,
    StreamError,
>)
    requires
        old(reader).wf(),
        old(out)@.len() < old(store)@.len(),
    ensures
        final(reader).wf(),
        final(out)@.len() == old(out)@.len(),
        final(store)@.len() == old(store)@.len(),
        old(reader).reliable() ==> r is Ok,
        r matches Ok(n) ==> {
            let unsent = old(store)@ + old(reader).remaining();
            &&& n <= old(out)@.len()
            &&& n <= old(reader).remaining().len()
            &&& (n == old(out)@.len() || n == old(reader).remaining().len())
            &&& final(out)@ == unsent.take(old(out)@.len() as int)
            &&& final(store)@.take(old(store)@.len() - old(out)@.len() + n) == unsent.subrange(
                old(out)@.len() as int,
                old(store)@.len() + n,
            )
            &&& final(reader).remaining() == old(reader).remaining().skip(n as int)
            &&& final(reader).reliable() == old(reader).reliable()
        },
{
    let want = out.len();
    let held = store.len();
    copy_bytes(out, vstd::slice::slice_subrange(store.as_slice(), 0, want));
    shift_left(store.as_mut_slice(), want);
    let ghost shifted = store@;
    let (kept, space) = store.as_mut_slice().split_at_mut(held - want);
    let n = match read_full(reader, space) {
        Ok(n) => n,
        Err(e) => {
            return Err(e);
        },
    };
    proof {
        let unsent = old(store)@ + old(reader).remaining();
        assert(out@ =~= unsent.take(want as int));
        assert(store@.take(held - want + n) =~= shifted.take(held - want) + space@.take(n as int));
        assert(shifted.take(held - want) + space@.take(n as int) =~= unsent.subrange(
            want as int,
            held + n,
        ));
    }
    Ok(n)
}

/// Hands the `held` bytes of `store` to the front of `out`, fills the rest of
/// `out` from `reader` and then `store`. Returns the number of bytes read
/// into `out` and into `store`.
fn refill_both<R: Read>(reader: &mut R, store: &mut Vec<u8>, held: usize, out: &mut [u8]) -> (r:
    Result<(usize, usize), StreamError>)
    requires
        old(reader).wf(),
        held <= old(store)@.len(),
        held <= old(out)@.len(),
    ensures
        final(reader).wf(),
        final(out)@.len() == old(out)@.len(),
        final(store)@.len() == old(store)@.len(),
        old(reader).reliable() ==> r is Ok,
        r matches Ok((n1, n2)) ==> {
            let unsent = old(store)@.take(held as int) + old(reader).remaining();
            &&& held + n1 <= old(out)@.len()
            &&& n2 <= old(store)@.len()
            &&& n1 + n2 <= old(reader).remaining().len()
            &&& (n2 > 0 ==> held + n1 == old(out)@.len())
            &&& (n1 + n2 == old(reader).remaining().len() || (held + n1 == old(out)@.len() && n2
                == old(store)@.len()))
            &&& final(out)@.take(held + n1) == unsent.take(held + n1)
            &&& final(out)@.skip(held + n1) == old(out)@.skip(held + n1)
            &&& final(store)@.take(n2 as int) == unsent.subrange(held + n1, held + n1 + n2)
            &&& final(reader).remaining() == old(reader).remaining().skip(n1 + n2)
            &&& final(reader).reliable() == old(reader).reliable()
        },
{
    let want = out.len();
    let ghost inner = reader.remaining();
    let ghost unsent = store@.take(held as int) + inner;
    let (front, back) = out.split_at_mut(held);
    copy_bytes(front, vstd::slice::slice_subrange(store.as_slice(), 0, held));
    let n1 = match read_full(reader, back) {
        Ok(n) => n,
        Err(e) => {
            return Err(e);
        },
    };
    proof {
        assert(out@.take(held + n1) =~= front@ + back@.take(n1 as int));
        assert(front@ + back@.take(n1 as int) =~= unsent.take(held + n1));
        assert(out@.skip(held + n1) =~= back@.skip(n1 as int));
        assert(old(out)@.skip(held as int).skip(n1 as int) =~= old(out)@.skip(held + n1));
    }
    if n1 < want - held {
        proof {
            assert(store@.take(0) =~= unsent.subrange(held + n1, held + n1));
            assert(inner.skip(n1 as int) =~= inner.skip(n1 + 0));
        }
        return Ok((n1, 0));
    }
    let n2 = match read_full(reader, store.as_mut_slice()) {
        Ok(n) => n,
        Err(e) => {
            return Err(e);
        },
    };
    proof {
        assert(inner.skip(n1 as int).take(n2 as int) =~= unsent.subrange(
            held + n1,
            held + n1 + n2,
        ));
        assert(inner.skip(n1 as int).skip(n2 as int) =~= inner.skip(n1 + n2));
    }
    Ok((n1, n2))
}

/// A buffer that was left as it was from `from` on, and then from `n` on,
/// is from `n` on as it was at first.
proof fn lemma_rest_kept(before: Seq<u8>, mid: Seq<u8>, after: Seq<u8>, from: int, n: int)
    requires
        before.len() == mid.len(),
        mid.len() == after.len(),
        0 <= from <= n <= before.len(),
        mid.skip(from) == before.skip(from),
        after.skip(n) == mid.skip(n),
    ensures
        after.skip(n) == before.skip(n),
{
    assert forall|j: int| 0 <= j < before.len() - n implies after.skip(n)[j] == before.skip(
        n,
    )[j] by {
        assert(mid.skip(n)[j] == mid.skip(from)[n - from + j]);
        assert(before.skip(n)[j] == before.skip(from)[n - from + j]);
    }
    assert(after.skip(n) =~= before.skip(n));
}

/// Moves as much of `pending` as fits into the front of `out`; returns how
/// much that is, and the rest.
fn hand_out(pending: &Vec<u8>, out: &mut [u8]) -> (r: (usize, Vec<u8>))
    ensures
        final(out)@.len() == old(out)@.len(),
        r.0 <= old(out)@.len(),
        r.0 <= pending@.len(),
        r.0 == old(out)@.len() || r.0 == pending@.len(),
        final(out)@.take(r.0 as int) == pending@.take(r.0 as int),
        final(out)@.skip(r.0 as int) == old(out)@.skip(r.0 as int),
        r.1@ == pending@.skip(r.0 as int),
{
    let want = out.len();
    let n = if pending.len() < want {
        pending.len()
    } else {
        want
    };
    let (front, back) = out.split_at_mut(n);
    copy_bytes(front, vstd::slice::slice_subrange(pending.as_slice(), 0, n));
    let rest = copy_range(pending.as_slice(), n, pending.len());
    proof {
        assert(out@.take(n as int) =~= front@);
        assert(out@.skip(n as int) =~= back@);
        assert(old(out)@.skip(n as int) =~= back@);
    }
    (n, rest)
}

/// A source that delivers the bytes of the source it wraps and then their
/// padding, or those bytes without their padding.
pub struct PaddedReader<R: Read> {
    block_size: usize,
    reader: R,
    op: Op,
    /// The last bytes read from `reader` that were not handed out yet.
    buf: Vec<u8>,
    /// How many bytes of `buf` are in use: none before the first read, all
    /// of them after it.
    held: usize,
    /// The number of bytes read from `reader` so far, modulo `block_size`.
    phase: usize,
    /// What is left to hand out once `reader` is at its end.
    output_buf: Option<Vec<u8>>,
}

impl<R: Read> PaddedReader<R> {
    /// The source that the adapter wraps.
    pub closed spec fn inner(&self) -> R {
        self.reader
    }

    /// The length of the blocks that the adapter pads to.
    pub closed spec fn block_size(&self) -> int {
        self.block_size as int
    }

    /// The bytes that were read and not handed out, then those still to read.
    closed spec fn unsent(&self) -> Seq<u8> {
        self.buf@.take(self.held as int) + self.reader.remaining()
    }

    /// What holds of the fields whatever the state.
    closed spec fn wf_core(&self) -> bool {
        &&& self.reader.wf()
        &&& 1 <= self.block_size <= usize::MAX / 2
        &&& self.buf@.len() == self.block_size
        &&& self.phase < self.block_size
        &&& self.held <= self.block_size
    }

    /// The length of the whole wrapped stream modulo the block size.
    closed spec fn total_phase(&self) -> int {
        (self.phase + self.reader.remaining().len()) % (self.block_size as int)
    }

    /// A stream over `reader` that pads or unpads to blocks of `block_size`
    /// bytes.
    pub fn new(block_size: usize, reader: R, op: Op) -> (r: Self)
        requires
            1 <= block_size <= usize::MAX / 2,
            reader.wf(),
        ensures
            r.wf(),
            r.inner() == reader,
            r.block_size() == block_size,
            r.reads_from(block_size as int, reader, op),
    {
        let buf = zero_bytes(block_size);
        let r = PaddedReader { block_size, reader, op, buf, held: 0, phase: 0, output_buf: None };
        proof {
            let inner = reader.remaining();
            assert(r.unsent() =~= inner);
            assert(Seq::<u8>::empty() + inner =~= inner);
            lemma_finished_tail_is_transform(op, Seq::<u8>::empty(), inner, block_size as int);
            assert forall|t: Seq<u8>| Seq::<u8>::empty() + t == t by {
                assert(Seq::<u8>::empty() + t =~= t);
            }
        }
        r
    }

    /// Whether the adapter has to deliver what a stream of direction `op`
    /// over `reader` has, as one that `new` made of them.
    pub open spec fn reads_from(&self, block_size: int, reader: R, op: Op) -> bool {
        &&& self.reliable() == (reader.reliable() && transform(
            op,
            reader.remaining(),
            block_size,
        ) is Some)
        &&& self.remaining() == match transform(op, reader.remaining(), block_size) {
            Some(s) => s,
            None => reader.remaining(),
        }
    }

    /// Hands the bytes held back to `out`, fills the rest of `out` and then
    /// the buffer from the wrapped source. Returns how many of the bytes not
    /// handed out before are now in `out`, and how many in the buffer.
    fn gather(&mut self, out: &mut [u8]) -> (r: Result<(usize, usize), StreamError>)
        requires
            old(self).wf(),
            old(self).output_buf is None,
            old(out)@.len() > 0,
        ensures
            final(self).wf_core(),
            r is Err ==> final(self).wf(),
            final(self).output_buf is None,
            final(self).held == old(self).held,
            final(self).op == old(self).op,
            final(self).block_size == old(self).block_size,
            final(out)@.len() == old(out)@.len(),
            old(self).reader.reliable() ==> r is Ok,
            r matches Ok((in_out, in_buf)) ==> {
                let fresh = in_out + in_buf - old(self).held;
                &&& in_out <= old(out)@.len()
                &&& in_buf <= old(self).block_size
                &&& 0 <= fresh <= old(self).reader.remaining().len()
                &&& (in_buf == old(self).block_size ==> in_out == old(out)@.len())
                &&& (in_buf < old(self).block_size ==> fresh == old(self).reader.remaining().len())
                &&& final(self).phase <= in_out + in_buf
                &&& final(out)@.take(in_out as int) + final(self).buf@.take(in_buf as int)
                    == old(self).unsent().take(in_out + in_buf)
                &&& final(out)@.skip(in_out as int) == old(out)@.skip(in_out as int)
                &&& final(self).reader.remaining() == old(self).reader.remaining().skip(fresh)
                &&& final(self).reader.reliable() == old(self).reader.reliable()
                &&& final(self).total_phase() == old(self).total_phase()
                &&& (fresh == old(self).reader.remaining().len() ==> final(self).phase
                    == final(self).total_phase())
            },
    {
        let want = out.len();
        let block_size = self.block_size;
        let held = self.held;
        let ghost inner = self.reader.remaining();
        let ghost unsent = self.unsent();
        if want < held {
            let n = match refill_store(&mut self.reader, &mut self.buf, out) {
                Ok(n) => n,
                Err(e) => {
                    return Err(e);
                },
            };
            self.phase = advance(self.phase, n, block_size);
            proof {
                lemma_phase_step(
                    old(self).phase as int,
                    n as int,
                    inner.len() as int,
                    block_size as int,
                );
                lemma_small_mod(self.phase as nat, block_size as nat);
                assert(old(self).buf@.take(held as int) =~= old(self).buf@);
                assert(out@.take(want as int) =~= out@);
                assert(unsent.take(want as int) + unsent.subrange(want as int, held + n)
                    =~= unsent.take(held + n));
            }
            Ok((want, held - want + n))
        } else {
            let (n1, n2) = match refill_both(&mut self.reader, &mut self.buf, held, out) {
                Ok(n) => n,
                Err(e) => {
                    return Err(e);
                },
            };
            let first = advance(self.phase, n1, block_size);
            self.phase = advance(first, n2, block_size);
            proof {
                lemma_phase_two_steps(
                    old(self).phase as int,
                    n1 as int,
                    n2 as int,
                    inner.len() as int,
                    block_size as int,
                );
                lemma_small_mod(self.phase as nat, block_size as nat);
                if held == 0 {
                    vstd::arithmetic::div_mod::lemma_mod_decreases(
                        (n1 + n2) as nat,
                        block_size as nat,
                    );
                }
                assert(unsent.take(held + n1) + unsent.subrange(held + n1, held + n1 + n2)
                    =~= unsent.take(held + n1 + n2));
            }
            Ok((held + n1, n2))
        }
    }

    /// Ends the stream: finishes the bytes not handed out yet, which are
    /// `in_out` bytes in `out` and `in_buf` bytes in the buffer, and hands
    /// out what fits of the result. Where padding is removed, less may be
    /// handed out than `out` holds by now, and the rest of `out` is put back
    /// from `saved`.
    fn conclude(&mut self, out: &mut [u8], in_out: usize, in_buf: usize, saved: &Vec<u8>) -> (r:
        Result<usize, StreamError>)
        requires
            old(self).op is Unpad ==> saved@.len() == old(out)@.len(),
            old(self).reader.wf(),
            1 <= old(self).block_size <= usize::MAX / 2,
            old(self).buf@.len() == old(self).block_size,
            old(self).phase < old(self).block_size,
            old(self).held <= old(self).block_size,
            old(self).phase <= in_out + in_buf,
            in_out <= old(out)@.len(),
            in_buf <= old(self).block_size,
            old(out)@.len() > 0,
        ensures
            final(self).wf(),
            final(self).reader == old(self).reader,
            final(self).block_size == old(self).block_size,
            final(self).op == old(self).op,
            final(out)@.len() == old(out)@.len(),
            final(self).output_buf is Some,
            ({
                let unsent = old(out)@.take(in_out as int) + old(self).buf@.take(in_buf as int);
                let done = finished_tail(
                    old(self).op,
                    unsent,
                    old(self).phase as int,
                    old(self).block_size as int,
                );
                match r {
                    Ok(n) => {
                        &&& done matches Some(all)
                        &&& n <= old(out)@.len()
                        &&& n <= all.len()
                        &&& (n == old(out)@.len() || n == all.len())
                        &&& final(out)@.take(n as int) == all.take(n as int)
                        &&& final(out)@.skip(n as int) == match old(self).op {
                            Op::Pad => old(out)@.skip(n as int),
                            Op::Unpad => saved@.skip(n as int),
                        }
                        &&& (old(self).op is Pad ==> n >= in_out)
                        &&& final(self).output_buf.unwrap()@ == all.skip(n as int)
                    },
                    Err(e) => done is None && e == StreamError::InvalidData,
                }
            }),
    {
        let mut all = copy_range(out, 0, in_out);
        append_bytes(&mut all, vstd::slice::slice_subrange(self.buf.as_slice(), 0, in_buf));
        match finish_tail(self.op, all, self.phase, self.block_size) {
            Err(e) => {
                self.output_buf = Some(Vec::new());
                Err(e)
            },
            Ok(deliver) => {
                let (n, rest) = hand_out(&deliver, out);
                self.output_buf = Some(rest);
                match self.op {
                    Op::Pad => {},
                    Op::Unpad => {
                        let len = out.len();
                        let (front, back) = out.split_at_mut(n);
                        copy_bytes(back, vstd::slice::slice_subrange(saved.as_slice(), n, len));
                        proof {
                            assert(out@.take(n as int) =~= front@);
                            assert(out@.skip(n as int) =~= back@);
                        }
                    },
                }
                Ok(n)
            },
        }
    }
}

impl<R: Read> Read for PaddedReader<R> {
    closed spec fn wf(&self) -> bool {
        &&& self.wf_core()
        &&& (self.output_buf is None ==> self.held == self.block_size || (self.held == 0
            && self.phase == 0))
    }

    closed spec fn remaining(&self) -> Seq<u8> {
        match self.output_buf {
            Some(pending) => pending@,
            None => resolved_tail(
                self.op,
                self.unsent(),
                self.total_phase(),
                self.block_size as int,
            ),
        }
    }

    closed spec fn reliable(&self) -> bool {
        self.reader.reliable() && (self.output_buf is Some || finished_tail(
            self.op,
            self.unsent(),
            self.total_phase(),
            self.block_size as int,
        ) is Some)
    }

    /// A stream that is not reliable over a source that is has no well-formed
    /// padding to take off. It delivers the bytes of the source as they are,
    /// up to a block before the end, and fails in the read that reaches the
    /// end of the source: one for more bytes than are left before that block.
    fn read(&mut self, buf: &mut [u8]) -> (r: Result<usize, StreamError>)
        ensures
            r matches Ok(n) ==> n == old(buf)@.len() || n == old(self).remaining().len(),
            final(self).block_size() == old(self).block_size(),
            final(self).inner().reliable() == old(self).inner().reliable() || r is Err,
            old(self).inner().reliable() && r is Err ==> r == Err::<usize, StreamError>(
                StreamError::InvalidData,
            ),
            old(self).inner().reliable() && !old(self).reliable() && old(buf)@.len() > 0
                && old(self).remaining().len() < old(buf)@.len() + old(self).block_size()
                ==> r is Err,
            old(self).inner().reliable() && r is Err ==> !old(self).reliable()
                && old(self).remaining().len() < old(buf)@.len() + old(self).block_size(),
    {
        let want = buf.len();
        if want == 0 {
            return Ok(0);
        }
        if self.output_buf.is_some() {
            let pending = self.output_buf.take().unwrap();
            let (n, rest) = hand_out(&pending, buf);
            self.output_buf = Some(rest);
            return Ok(n);
        }
        let block_size = self.block_size;
        let ghost unsent = self.unsent();
        let ghost phase = self.total_phase();
        let saved = match self.op {
            Op::Pad => Vec::new(),
            Op::Unpad => copy_range(buf, 0, want),
        };
        let (in_out, in_buf) = match self.gather(buf) {
            Ok(counts) => counts,
            Err(e) => {
                return Err(e);
            },
        };
        let ghost gathered = buf@;
        if in_buf == block_size {
            self.held = block_size;
            proof {
                assert(buf@.skip(want as int) =~= old(buf)@.skip(want as int));
                let front = buf@.take(want as int);
                let kept = self.buf@.take(block_size as int);
                assert((front + kept).skip(want as int) =~= kept);
                assert((front + kept).take(want as int) =~= front);
                assert(unsent.take(want + block_size).skip(want as int) =~= unsent.subrange(
                    want as int,
                    want + block_size,
                ));
                assert(unsent.take(want + block_size).take(want as int) =~= unsent.take(
                    want as int,
                ));
                assert(unsent.subrange(want as int, want + block_size)
                    + self.reader.remaining() =~= unsent.skip(want as int));
                assert(self.unsent() =~= unsent.skip(want as int));
                lemma_finished_tail_skip(self.op, unsent, phase, block_size as int, want as int);
                assert(buf@.take(want as int) =~= unsent.take(want as int));
            }
            return Ok(want);
        }
        proof {
            assert(unsent.take(in_out + in_buf) =~= unsent);
            lemma_small_mod(self.phase as nat, block_size as nat);
            if self.op is Unpad {
                assert(old(buf)@.subrange(0, want as int) =~= old(buf)@);
            }
        }
        let ghost op = self.op;
        let r = self.conclude(buf, in_out, in_buf, &saved);
        proof {
            if let Ok(n) = r {
                if op is Pad {
                    lemma_rest_kept(old(buf)@, gathered, buf@, in_out as int, n as int);
                }
            }
        }
        r
    }
}

/// A stream that removes the padding, over one that adds it, over a source:
/// it delivers the bytes of the source, and fails only where the source does.
pub proof fn lemma_unpad_pad_readers<R: Read>(
    source: R,
    padding: PaddedReader<R>,
    unpadding: PaddedReader<PaddedReader<R>>,
    block_size: int,
)
    requires
        block_size >= 1,
        padding.reads_from(block_size, source, Op::Pad),
        unpadding.reads_from(block_size, padding, Op::Unpad),
    ensures
        unpadding.remaining() == source.remaining(),
        unpadding.reliable() == source.reliable(),
{
    lemma_unpad_pad(source.remaining(), block_size);
}

/// Takes `data` into the `held` bytes that `store` keeps back, handing on to
/// `writer` what no longer fits. Returns the number of bytes kept back then.
fn store_bytes<W: Write>(writer: &mut W, store: &mut Vec<u8>, held: usize, data: &[u8]) -> (r:
    Result<usize, StreamError>)
    requires
        old(writer).wf(),
        held <= old(store)@.len(),
    ensures
        final(writer).wf(),
        final(store)@.len() == old(store)@.len(),
        old(writer).reliable() ==> r is Ok,
        r matches Ok(kept) ==> {
            &&& kept <= old(store)@.len()
            &&& kept == if held + data@.len() < old(store)@.len() {
                held + data@.len()
            } else {
                old(store)@.len() as int
            }
            &&& final(writer).written() + final(store)@.take(kept as int) == old(writer).written()
                + old(store)@.take(held as int) + data@
            &&& final(writer).reliable() == old(writer).reliable()
            &&& final(writer).follows(old(writer))
        },
{
    let block_size = store.len();
    let len = data.len();
    let room = block_size - held;
    let ghost kept = store@.take(held as int);
    let ghost sent = writer.written();
    if len < room {
        let (front, back) = store.as_mut_slice().split_at_mut(held);
        let (space, rest) = back.split_at_mut(len);
        copy_bytes(space, data);
        proof {
            assert(store@.take(held + len) =~= kept + data@);
            assert(sent + (kept + data@) =~= sent + kept + data@);
            writer.lemma_follows_itself();
        }
        return Ok(held + len);
    }
    let spill = len - room;
    if spill < held {
        match writer.write_all(vstd::slice::slice_subrange(store.as_slice(), 0, spill)) {
            Err(e) => {
                return Err(e);
            },
            Ok(()) => {},
        }
        shift_left(store.as_mut_slice(), spill);
        let ghost shifted = store@;
        let (front, back) = store.as_mut_slice().split_at_mut(held - spill);
        copy_bytes(back, data);
        proof {
            assert(store@ =~= shifted.take(held - spill) + data@);
            assert(shifted.take(held - spill) =~= kept.skip(spill as int));
            assert(store@.take(block_size as int) =~= store@);
            assert(sent + kept.take(spill as int) + (kept.skip(spill as int) + data@) =~= sent
                + kept + data@);
        }
    } else {
        match writer.write_all(vstd::slice::slice_subrange(store.as_slice(), 0, held)) {
            Err(e) => {
                return Err(e);
            },
            Ok(()) => {},
        }
        let ghost middle = *writer;
        match writer.write_all(vstd::slice::slice_subrange(data, 0, len - block_size)) {
            Err(e) => {
                return Err(e);
            },
            Ok(()) => {},
        }
        proof {
            writer.lemma_follows_chain(&middle, old(writer));
        }
        copy_bytes(store.as_mut_slice(), vstd::slice::slice_subrange(data, len - block_size, len));
        proof {
            assert(store@.take(block_size as int) =~= store@);
            assert(sent + kept + data@.take(len - block_size) + data@.skip(len - block_size)
                =~= sent + kept + data@);
        }
    }
    Ok(block_size)
}

/// What a writing adapter has handed on of the bytes `taken` while it is not
/// flushed: all but their last block, which it keeps back until the stream
/// ends; nothing while they are less than a block.
pub open spec fn handed_on(taken: Seq<u8>, block_size: int) -> Seq<u8> {
    if taken.len() < block_size {
        Seq::empty()
    } else {
        taken.take(taken.len() - block_size)
    }
}

/// A sink that hands the bytes it takes on to the sink it wraps and, when
/// flushed, their padding; or those bytes without their padding.
pub struct PaddedWriter<W: Write> {
    block_size: usize,
    writer: W,
    op: Op,
    /// The last bytes taken that were not handed on yet.
    buf: Vec<u8>,
    /// How many bytes of `buf` are in use.
    held: usize,
    /// The number of bytes taken so far, modulo `block_size`.
    phase: usize,
    /// Whether the end of the stream was written, or a write failed.
    flushed: bool,
    /// What the wrapped sink had taken when the adapter was made.
    base: Ghost<Seq<u8>>,
    /// The bytes taken since.
    accepted: Ghost<Seq<u8>>,
}

impl<W: Write> PaddedWriter<W> {
    /// The sink that the adapter wraps.
    pub closed spec fn inner(&self) -> W {
        self.writer
    }

    /// What the wrapped sink had taken when the adapter was made.
    pub closed spec fn base(&self) -> Seq<u8> {
        self.base@
    }

    /// The bytes that the adapter has taken.
    pub closed spec fn accepted(&self) -> Seq<u8> {
        self.accepted@
    }

    /// Whether the adapter takes no more bytes: it was flushed, or a write to
    /// the wrapped sink failed.
    pub closed spec fn is_flushed(&self) -> bool {
        self.flushed
    }

    /// The direction of the adapter.
    pub closed spec fn op(&self) -> Op {
        self.op
    }

    /// The block size of the adapter.
    pub closed spec fn block_size(&self) -> int {
        self.block_size as int
    }

    /// What holds of the fields whatever the state.
    closed spec fn wf_core(&self) -> bool {
        &&& self.writer.wf()
        &&& 1 <= self.block_size <= usize::MAX / 2
        &&& self.buf@.len() == self.block_size
        &&& self.held <= self.block_size
        &&& self.phase < self.block_size
    }

    /// What holds while the adapter takes bytes.
    closed spec fn wf_open(&self) -> bool {
        &&& self.phase == self.accepted@.len() % (self.block_size as nat)
        &&& self.held == if self.accepted@.len() < self.block_size {
            self.accepted@.len()
        } else {
            self.block_size as nat
        }
        &&& self.writer.written() + self.buf@.take(self.held as int) == self.base@
            + self.accepted@
    }

    /// The bytes held back are the end of what was taken, and what was handed
    /// on is all that came before them.
    proof fn lemma_split(self)
        requires
            self.wf_core(),
            self.wf_open(),
        ensures
            ({
                let cut = self.accepted@.len() - self.held;
                &&& 0 <= cut
                &&& self.phase <= self.held
                &&& self.writer.written() == self.base@ + self.accepted@.take(cut)
                &&& transform(self.op, self.accepted@, self.block_size as int)
                    == match finished_tail(
                    self.op,
                    self.buf@.take(self.held as int),
                    self.phase as int,
                    self.block_size as int,
                ) {
                    Some(t) => Some(self.accepted@.take(cut) + t),
                    None => None,
                }
            }),
    {
        let cut = self.accepted@.len() - self.held;
        let kept = self.buf@.take(self.held as int);
        let sent = self.writer.written();
        let whole = self.base@ + self.accepted@;
        if self.accepted@.len() < self.block_size {
            lemma_small_mod(self.accepted@.len(), self.block_size as nat);
        }
        assert(sent.len() + self.held == whole.len());
        assert(kept =~= whole.skip(sent.len() as int)) by {
            assert((sent + kept).skip(sent.len() as int) =~= kept);
        }
        assert(whole.skip(sent.len() as int) =~= self.accepted@.skip(cut));
        assert(sent =~= whole.take(sent.len() as int)) by {
            assert((sent + kept).take(sent.len() as int) =~= sent);
        }
        assert(whole.take(sent.len() as int) =~= self.base@ + self.accepted@.take(cut));
        assert(kept == self.accepted@.skip(cut));
        assert(self.accepted@.take(cut) + kept =~= self.accepted@);
        lemma_finished_tail_is_transform(
            self.op,
            self.accepted@.take(cut),
            kept,
            self.block_size as int,
        );
    }

    /// A stream onto `writer` that pads or unpads to blocks of `block_size`
    /// bytes.
    pub fn new(block_size: usize, writer: W, op: Op) -> (r: Self)
        requires
            1 <= block_size <= usize::MAX / 2,
            writer.wf(),
        ensures
            r.wf(),
            r.inner() == writer,
            r.base() == writer.written(),
            r.accepted() == Seq::<u8>::empty(),
            r.written() == writer.written(),
            r.reliable() == writer.reliable(),
            !r.is_flushed(),
            r.op() == op,
            r.block_size() == block_size,
    {
        let buf = zero_bytes(block_size);
        let ghost base = writer.written();
        let r = PaddedWriter {
            block_size,
            writer,
            op,
            buf,
            held: 0,
            phase: 0,
            flushed: false,
            base: Ghost(base),
            accepted: Ghost(Seq::empty()),
        };
        proof {
            assert(r.writer.written() + r.buf@.take(0) =~= r.base@ + r.accepted@);
            assert(r.base@ + r.accepted@ =~= base);
            lemma_small_mod(0, block_size as nat);
        }
        r
    }

    /// Writes the end of the stream: the bytes held back, with their padding
    /// added or removed. A second call does nothing.
    pub fn flush(&mut self) -> (r: Result<(), StreamError>)
        requires
            old(self).wf(),
        ensures
            final(self).wf(),
            final(self).is_flushed(),
            final(self).base() == old(self).base(),
            final(self).accepted() == old(self).accepted(),
            final(self).op() == old(self).op(),
            final(self).block_size() == old(self).block_size(),
            old(self).is_flushed() ==> r is Ok && final(self).inner() == old(self).inner(),
            !old(self).is_flushed() ==> {
                let done = transform(old(self).op(), old(self).accepted(), old(self).block_size());
                &&& done is None ==> {
                    &&& r == Err::<(), StreamError>(StreamError::InvalidData)
                    &&& final(self).inner() == old(self).inner()
                }
                &&& done is Some && old(self).inner().reliable() ==> r is Ok
                &&& r is Ok ==> {
                    &&& done is Some
                    &&& final(self).inner().written() == old(self).base() + done.unwrap()
                    &&& final(self).inner().reliable() == old(self).inner().reliable()
                    &&& final(self).inner().follows(&old(self).inner())
                }
            },
    {
        if self.flushed {
            return Ok(());
        }
        self.flushed = true;
        proof {
            old(self).lemma_split();
        }
        let tail = copy_range(self.buf.as_slice(), 0, self.held);
        match finish_tail(self.op, tail, self.phase, self.block_size) {
            Err(e) => Err(e),
            Ok(last) => {
                let done = self.writer.write_all(last.as_slice());
                proof {
                    if done is Ok {
                        let cut = self.accepted@.len() - self.held;
                        assert(self.writer.written() =~= self.base@ + (self.accepted@.take(cut)
                            + last@));
                    }
                }
                done
            },
        }
    }

    /// Until it is flushed, the adapter has handed on to the sink it wraps
    /// all that it took but the last block.
    pub proof fn lemma_handed_on(self)
        requires
            self.wf(),
            !self.is_flushed(),
        ensures
            self.inner().written() == self.base() + handed_on(
                self.accepted(),
                self.block_size(),
            ),
    {
        self.lemma_split();
        if self.accepted@.len() < self.block_size {
            assert(self.accepted@.take(0) =~= Seq::<u8>::empty());
        }
    }

    /// What the adapter has taken is what the wrapped sink had and what came
    /// since; it takes more as long as it was not flushed.
    pub proof fn lemma_view(self)
        ensures
            self.written() == self.base() + self.accepted(),
            self.reliable() == (self.inner().reliable() && !self.is_flushed()),
    {
    }

    /// What follows an adapter has its base, direction and block size, and
    /// wraps a sink that follows the one it wrapped.
    pub proof fn lemma_follows(self, earlier: Self)
        requires
            self.follows(&earlier),
        ensures
            self.base() == earlier.base(),
            self.op() == earlier.op(),
            self.block_size() == earlier.block_size(),
            self.is_flushed() ==> earlier.is_flushed(),
            self.inner().follows(&earlier.inner()),
    {
    }

    /// Whether the adapter takes no more bytes.
    pub fn flushed(&self) -> (r: bool)
        ensures
            r == self.is_flushed(),
    {
        self.flushed
    }

    /// Gives up the adapter for the sink it wraps.
    pub fn into_inner(self) -> (w: W)
        requires
            self.wf(),
        ensures
            w == self.inner(),
            w.wf(),
    {
        self.writer
    }
}

impl<W: Write> Write for PaddedWriter<W> {
    closed spec fn wf(&self) -> bool {
        &&& self.wf_core()
        &&& !self.flushed ==> self.wf_open()
    }

    closed spec fn written(&self) -> Seq<u8> {
        self.base@ + self.accepted@
    }

    closed spec fn reliable(&self) -> bool {
        self.writer.reliable() && !self.flushed
    }

    closed spec fn follows(&self, earlier: &Self) -> bool {
        &&& self.base@ == earlier.base@
        &&& self.op == earlier.op
        &&& self.block_size == earlier.block_size
        &&& (self.flushed ==> earlier.flushed)
        &&& self.writer.follows(&earlier.writer)
    }

    proof fn lemma_follows_itself(&self) {
        self.writer.lemma_follows_itself();
    }

    proof fn lemma_follows_chain(&self, middle: &Self, earlier: &Self) {
        self.writer.lemma_follows_chain(&middle.writer, &earlier.writer);
    }

    fn write_all(&mut self, buf: &[u8]) -> (r: Result<(), StreamError>)
        ensures
            final(self).base() == old(self).base(),
            final(self).op() == old(self).op(),
            final(self).block_size() == old(self).block_size(),
            old(self).is_flushed() ==> r == Err::<(), StreamError>(StreamError::InvalidInput),
            r is Ok ==> {
                &&& final(self).accepted() == old(self).accepted() + buf@
                &&& !final(self).is_flushed()
                &&& final(self).inner().reliable() == old(self).inner().reliable()
            },
    {
        if self.flushed {
            return Err(StreamError::InvalidInput);
        }
        let block_size = self.block_size;
        match store_bytes(&mut self.writer, &mut self.buf, self.held, buf) {
            Err(e) => {
                self.flushed = true;
                Err(e)
            },
            Ok(kept) => {
                self.held = kept;
                proof {
                    if buf@.len() == 0 {
                        self.writer.lemma_follows_itself();
                    }
                }
                self.phase = advance(self.phase, buf.len(), block_size);
                self.accepted = Ghost(self.accepted@ + buf@);
                proof {
                    let m = block_size as int;
                    let before = old(self).accepted@.len() as int;
                    lemma_add_mod_noop(before, buf@.len() as int, m);
                    lemma_add_mod_noop(before % m, buf@.len() as int, m);
                    lemma_mod_twice(before, m);
                    assert(old(self).base@ + old(self).accepted@ + buf@ =~= self.base@
                        + self.accepted@);
                    assert(self.written() =~= old(self).written() + buf@);
                }
                Ok(())
            },
        }
    }
}

} // verus!
