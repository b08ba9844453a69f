//! ISO 7816-4 padding: a byte `0x80`, then zero bytes up to the next block
//! boundary.

use block_padding::RawPadding;
use crate::error::StreamError;
use crate::padding_streaming::Op;
use crate::utils::{append_bytes, copy_range, zero_bytes};
use vstd::arithmetic::div_mod::{lemma_fundamental_div_mod, lemma_small_mod};
use vstd::prelude::*;

verus! {

/// `n` zero bytes.
pub open spec fn zeros(n: int) -> Seq<u8> {
    Seq::new(n as nat, |i: int| 0u8)
}

/// The bytes that follow a message of `len` bytes: the marker, then zeros up
/// to a multiple of `block_size`.
pub open spec fn padding(len: int, block_size: int) -> Seq<u8> {
    seq![0x80u8] + zeros(block_size - 1 - len % block_size)
}

/// `data` with its padding.
pub open spec fn pad(data: Seq<u8>, block_size: int) -> Seq<u8> {
    data + padding(data.len() as int, block_size)
}

/// What is left of a block without its trailing zeros and the marker before
/// them; `None` where the last nonzero byte is not the marker.
pub open spec fn unpad_block(block: Seq<u8>) -> Option<Seq<u8>>
    decreases block.len(),
{
    if block.len() == 0 {
        None
    } else if block.last() == 0x80 {
        Some(block.drop_last())
    } else if block.last() == 0 {
        unpad_block(block.drop_last())
    } else {
        None
    }
}

/// `data` without the padding of its last block; `None` where `data` is
/// empty, does not end on a block boundary, or ends in a malformed block.
pub open spec fn unpad(data: Seq<u8>, block_size: int) -> Option<Seq<u8>> {
    if data.len() == 0 || data.len() % (block_size as nat) != 0 {
        None
    } else {
        match unpad_block(data.skip(data.len() - block_size)) {
            Some(tail) => Some(data.take(data.len() - block_size) + tail),
            None => None,
        }
    }
}

/// What a padding stream of direction `op` makes of `data`.
pub open spec fn transform(op: Op, data: Seq<u8>, block_size: int) -> Option<Seq<u8>> {
    match op {
        Op::Pad => Some(pad(data, block_size)),
        Op::Unpad => unpad(data, block_size),
    }
}

/// Trailing zeros and the marker before them are all that `unpad_block`
/// removes.
pub proof fn lemma_unpad_block_padding(head: Seq<u8>, n: int)
    requires
        n >= 0,
    ensures
        unpad_block(head + seq![0x80u8] + zeros(n)) == Some(head),
    decreases n,
{
    let block = head + seq![0x80u8] + zeros(n);
    if n == 0 {
        assert(block.drop_last() == head);
    } else {
        assert(block.last() == 0);
        assert(block.drop_last() == head + seq![0x80u8] + zeros(n - 1));
        lemma_unpad_block_padding(head, n - 1);
    }
}

/// The length of padded data is the next multiple of the block size.
pub proof fn lemma_pad_len(data: Seq<u8>, block_size: int)
    requires
        block_size >= 1,
    ensures
        pad(data, block_size).len() == data.len() + block_size - data.len() % (block_size as nat),
        pad(data, block_size).len() % (block_size as nat) == 0,
        pad(data, block_size).len() >= block_size,
{
    let len = data.len() as int;
    let total = len + block_size - len % block_size;
    lemma_fundamental_div_mod(len, block_size);
    assert(total == block_size * (len / block_size + 1)) by (nonlinear_arith)
        requires
            len == block_size * (len / block_size) + len % block_size,
            total == len + block_size - len % block_size,
    ;
    vstd::arithmetic::div_mod::lemma_mod_multiples_basic(len / block_size + 1, block_size);
    assert((block_size * (len / block_size + 1)) % block_size == 0) by {
        vstd::arithmetic::mul::lemma_mul_is_commutative(block_size, len / block_size + 1);
    }
}

/// Removing the padding gives back the data that was padded.
pub proof fn lemma_unpad_pad(data: Seq<u8>, block_size: int)
    requires
        block_size >= 1,
    ensures
        unpad(pad(data, block_size), block_size) == Some(data),
{
    let len = data.len() as int;
    let tail_len = len % block_size;
    let padded = pad(data, block_size);
    lemma_pad_len(data, block_size);
    let cut = padded.len() - block_size;
    assert(cut == len - tail_len);
    let tail = data.skip(cut);
    let last = padded.skip(cut);
    assert(last == tail + seq![0x80u8] + zeros(block_size - 1 - tail_len));
    lemma_unpad_block_padding(tail, block_size - 1 - tail_len);
    assert(padded.take(cut) == data.take(cut));
    assert(data.take(cut) + tail == data);
}

#[verifier::external_type_specification]
#[verifier::external_body]
pub struct ExUnpadError(block_padding::UnpadError);

/// Calls `Iso7816::raw_pad`, which panics unless `pos` is less than the
/// block's length, and else writes the marker at `pos` and zeros behind it,
/// leaving the bytes before `pos` as they were.
#[verifier::external_body]
pub(crate) fn iso7816_pad(block: &mut [u8], pos: usize)
    requires
        pos < old(block)@.len(),
    ensures
        final(block)@ == old(block)@.take(pos as int) + seq![0x80u8] + zeros(
            old(block)@.len() - 1 - pos,
        ),
{
    block_padding::Iso7816::raw_pad(block, pos)
}

/// Calls `Iso7816::raw_unpad`, which walks the block from its end over zero
/// bytes and returns what stands before the marker, or fails where the first
/// other byte is not the marker or there is none.
#[verifier::external_body]
pub(crate) fn iso7816_unpad(block: &[u8]) -> (r: Result<&[u8], block_padding::UnpadError>)
    ensures
        match r {
            Ok(data) => unpad_block(block@) == Some(data@),
            Err(_) => unpad_block(block@) is None,
        },
{
    block_padding::Iso7816::raw_unpad(block)
}

/// Pads `data` in one piece.
pub fn pad_vec(data: &[u8], block_size: usize) -> (r: Vec<u8>)
    requires
        1 <= block_size,
        data@.len() + block_size <= usize::MAX,
    ensures
        r@ == pad(data@, block_size as int),
{
    let len = data.len();
    let tail_len = len % block_size;
    proof {
        vstd::arithmetic::div_mod::lemma_mod_decreases(len as nat, block_size as nat);
    }
    let mut out: Vec<u8> = Vec::new();
    append_bytes(&mut out, data);
    let fill = zero_bytes(block_size - tail_len);
    append_bytes(&mut out, fill.as_slice());
    let ghost filled = out@;
    let (head, last) = out.as_mut_slice().split_at_mut(len - tail_len);
    iso7816_pad(last, tail_len);
    proof {
        assert(filled.skip(len - tail_len).take(tail_len as int) == data@.skip(len - tail_len));
        assert(out@ == data@.take(len - tail_len) + (data@.skip(len - tail_len) + seq![0x80u8]
            + zeros(block_size - 1 - tail_len)));
        assert(out@ == pad(data@, block_size as int));
    }
    out
}

/// Removes the padding of `data` in one piece.
pub fn unpad_vec(data: &[u8], block_size: usize) -> (r: Result<Vec<u8>, StreamError>)
    requires
        1 <= block_size,
    ensures
        match r {
            Ok(v) => unpad(data@, block_size as int) == Some(v@),
            Err(e) => e == StreamError::InvalidData && unpad(data@, block_size as int) is None,
        },
{
    let len = data.len();
    if len == 0 || len % block_size != 0 {
        return Err(StreamError::InvalidData);
    }
    proof {
        if len < block_size {
            lemma_small_mod(len as nat, block_size as nat);
        }
    }
    let last = vstd::slice::slice_subrange(data, len - block_size, len);
    assert(last@ == data@.skip(len - block_size));
    match iso7816_unpad(last) {
        Err(_) => Err(StreamError::InvalidData),
        Ok(tail) => {
            let mut out: Vec<u8> = copy_range(data, 0, len - block_size);
            append_bytes(&mut out, tail);
            assert(out@ == data@.take(len - block_size) + tail@);
            Ok(out)
        },
    }
}

} // verus!
