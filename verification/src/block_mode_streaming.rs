//! Streams that encrypt what is read and decrypt what is written, with
//! AES-256 in cipher block chaining mode and ISO 7816-4 padding.

use crate::aes_cbc::{
    cbc_decrypt, cbc_encrypt, decrypt_blocks, encrypt_blocks, lemma_decrypt_concat,
    lemma_encrypt_concat, lemma_undoes_concat, next_chain, undoes, BLOCK_SIZE, IV_SIZE, KEY_SIZE,
};
use crate::error::StreamError;
use crate::io::{Read, Write};
use crate::padding::{lemma_pad_len, pad, unpad};
use crate::padding_streaming::{handed_on, Op, PaddedReader, PaddedWriter};
use crate::utils::{copy_bytes, copy_range, read_full, zero_bytes};
use vstd::arithmetic::div_mod::{
    lemma_add_mod_noop, lemma_fundamental_div_mod, lemma_small_mod, lemma_sub_mod_noop,
};
use vstd::prelude::*;

verus! {

/// The number of bytes that the encrypting stream reads in one step.
pub const BUF_SIZE: usize = 1024;

/// The number of bytes that the decrypting stream decrypts in one step.
pub const WRITE_BUF_SIZE: usize = 128;

/// The plaintext of the ciphertext `data`: what decryption gives, without its
/// padding. `None` where `data` is not a whole number of blocks or the
/// padding is malformed.
pub open spec fn decrypted(key: Seq<u8>, iv: Seq<u8>, data: Seq<u8>) -> Option<Seq<u8>> {
    if data.len() % BLOCK_SIZE as nat != 0 {
        None
    } else {
        unpad(cbc_decrypt(key, iv, data), BLOCK_SIZE as int)
    }
}

/// The ciphertext of the plaintext `data`: the encryption of the padded data.
pub open spec fn encrypted(key: Seq<u8>, iv: Seq<u8>, data: Seq<u8>) -> Seq<u8> {
    cbc_encrypt(key, iv, pad(data, BLOCK_SIZE as int))
}

/// The chain value after two pieces is that after the second, started at
/// that after the first.
pub proof fn lemma_next_chain_concat(iv: Seq<u8>, first: Seq<u8>, second: Seq<u8>)
    requires
        first.len() % BLOCK_SIZE as nat == 0,
        second.len() % BLOCK_SIZE as nat == 0,
    ensures
        next_chain(next_chain(iv, first), second) == next_chain(iv, first + second),
{
    let size = BLOCK_SIZE as int;
    if second.len() >= BLOCK_SIZE {
        assert((first + second).skip((first + second).len() - size) =~= second.skip(
            second.len() - size,
        ));
    } else {
        assert(second.len() == 0);
        assert(first + second =~= first);
    }
}

/// A source that delivers the ciphertext of what the source it wraps
/// delivers.
pub struct EncryptReadStream<R: Read> {
    key: Vec<u8>,
    /// The ciphertext block that chains the next one.
    chain: Vec<u8>,
    reader: PaddedReader<R>,
    buf: Vec<u8>,
    /// Where the ciphertext not yet delivered starts in `buf`.
    start: usize,
    /// Where it ends.
    end: usize,
    /// Whether reading the wrapped source has failed.
    failed: bool,
}

impl<R: Read> EncryptReadStream<R> {
    /// A stream of the ciphertext, under `key` and `iv`, of what `reader`
    /// delivers.
    pub fn new(key: Vec<u8>, iv: Vec<u8>, reader: R) -> (r: Self)
        requires
            key@.len() == KEY_SIZE,
            iv@.len() == IV_SIZE,
            reader.wf(),
        ensures
            r.wf(),
            r.reliable() == reader.reliable(),
            !r.has_failed(),
            r.remaining() == encrypted(key@, iv@, reader.remaining()),
    {
        let inner = PaddedReader::new(BLOCK_SIZE, reader, Op::Pad);
        let buf = zero_bytes(BUF_SIZE);
        let r = EncryptReadStream {
            key,
            chain: iv,
            reader: inner,
            buf,
            start: 0,
            end: 0,
            failed: false,
        };
        proof {
            lemma_pad_len(reader.remaining(), BLOCK_SIZE as int);
            assert(r.buf@.subrange(0, 0) + r.upcoming() =~= r.upcoming());
        }
        r
    }

    /// Whether reading the wrapped source has failed, after which the stream
    /// delivers nothing.
    pub closed spec fn has_failed(&self) -> bool {
        self.failed
    }

    /// The ciphertext of what the wrapped source has yet to deliver.
    closed spec fn upcoming(&self) -> Seq<u8> {
        cbc_encrypt(self.key@, self.chain@, self.reader.remaining())
    }

    /// What holds of the fields whatever the state.
    closed spec fn wf_core(&self) -> bool {
        &&& self.key@.len() == KEY_SIZE
        &&& self.chain@.len() == IV_SIZE
        &&& self.reader.wf()
        &&& self.buf@.len() == BUF_SIZE
        &&& self.start <= self.end <= BUF_SIZE
    }

    /// Encrypts the next blocks of the wrapped source into the buffer, where
    /// the buffer is empty. Returns the number of bytes in the buffer.
    fn fill_buf(&mut self) -> (r: Result<usize, StreamError>)
        requires
            old(self).wf(),
            !old(self).failed,
        ensures
            final(self).wf(),
            old(self).reliable() ==> r is Ok,
            r matches Ok(n) ==> {
                &&& n == final(self).end - final(self).start
                &&& (n == 0 ==> final(self).remaining().len() == 0)
                &&& final(self).remaining() == old(self).remaining()
                &&& final(self).reliable() == old(self).reliable()
                &&& !final(self).failed
            },
    {
        if self.end > self.start {
            return Ok(self.end - self.start);
        }
        let target = BUF_SIZE - BUF_SIZE % BLOCK_SIZE;
        let ghost rest = self.reader.remaining();
        let ghost chain = self.chain@;
        let (space, tail) = self.buf.as_mut_slice().split_at_mut(target);
        let count = match read_full(&mut self.reader, space) {
            Ok(count) => count,
            Err(e) => {
                self.failed = true;
                return Err(e);
            },
        };
        proof {
            lemma_sub_mod_noop(rest.len() as int, count as int, BLOCK_SIZE as int);
            lemma_small_mod(0, BLOCK_SIZE as nat);
        }
        if count % BLOCK_SIZE != 0 {
            self.failed = true;
            return Err(StreamError::InvalidInput);
        }
        self.start = 0;
        self.end = count;
        let ghost plain = self.buf@.take(count as int);
        let (blocks, tail) = self.buf.as_mut_slice().split_at_mut(count);
        encrypt_blocks(self.key.as_slice(), &mut self.chain, blocks);
        proof {
            assert(plain =~= rest.take(count as int));
            assert(self.buf@.subrange(0, count as int) =~= blocks@);
            lemma_encrypt_concat(
                self.key@,
                chain,
                rest.take(count as int),
                rest.skip(count as int),
            );
            assert(rest.take(count as int) + rest.skip(count as int) =~= rest);
            assert(old(self).buf@.subrange(old(self).start as int, old(self).end as int)
                + old(self).upcoming() =~= old(self).upcoming());
            if count == 0 {
                assert(rest.len() == 0);
                assert(self.buf@.subrange(0, 0) + self.upcoming() =~= self.upcoming());
            }
        }
        Ok(count)
    }
}

impl<R: Read> Read for EncryptReadStream<R> {
    closed spec fn wf(&self) -> bool {
        &&& self.wf_core()
        &&& (!self.failed ==> self.reader.remaining().len() % BLOCK_SIZE as nat == 0)
    }

    closed spec fn remaining(&self) -> Seq<u8> {
        self.buf@.subrange(self.start as int, self.end as int) + self.upcoming()
    }

    closed spec fn reliable(&self) -> bool {
        self.reader.reliable() && !self.failed
    }

    fn read(&mut self, buf: &mut [u8]) -> (r: Result<usize, StreamError>)
        ensures
            r matches Ok(n) ==> n == old(buf)@.len() || n == old(self).remaining().len(),
            old(self).has_failed() ==> r == Err::<usize, StreamError>(StreamError::InvalidInput),
            r is Ok ==> !final(self).has_failed(),
    {
        if self.failed {
            return Err(StreamError::InvalidInput);
        }
        let want = buf.len();
        let mut read_size: usize = 0;
        let ghost all = self.remaining();
        proof {
            assert(all.skip(0) =~= all);
        }
        loop
            invariant
                self.wf(),
                !self.failed,
                !old(self).failed,
                self.reliable() == old(self).reliable(),
                want == buf@.len(),
                want == old(buf)@.len(),
                read_size <= want,
                read_size <= all.len(),
                all == old(self).remaining(),
                self.remaining() == all.skip(read_size as int),
                buf@.take(read_size as int) == all.take(read_size as int),
                buf@.skip(read_size as int) == old(buf)@.skip(read_size as int),
            decreases want - read_size,
        {
            let count = match self.fill_buf() {
                Ok(count) => count,
                Err(e) => {
                    return Err(e);
                },
            };
            if count == 0 {
                return Ok(read_size);
            }
            let ghost before = buf@;
            let ghost left = self.remaining();
            if want - read_size >= count {
                let (done, space) = buf.split_at_mut(read_size);
                let (target, rest) = space.split_at_mut(count);
                copy_bytes(
                    target,
                    vstd::slice::slice_subrange(self.buf.as_slice(), self.start, self.end),
                );
                proof {
                    let piece = self.buf@.subrange(self.start as int, self.end as int);
                    assert(left == piece + self.upcoming());
                    assert(left.len() >= count);
                    assert(buf@.take(read_size + count) =~= before.take(read_size as int)
                        + piece);
                    assert(piece =~= left.take(count as int));
                    assert(all.take(read_size + count) =~= all.take(read_size as int)
                        + all.skip(read_size as int).take(count as int));
                    assert(left.skip(count as int) =~= self.upcoming());
                    assert(all.skip(read_size as int).skip(count as int) =~= all.skip(
                        read_size + count,
                    ));
                    assert(buf@.skip(read_size + count) =~= rest@);
                    assert(before.skip(read_size as int).skip(count as int) =~= rest@);
                    assert(old(buf)@.skip(read_size as int).skip(count as int) =~= old(
                        buf,
                    )@.skip(read_size + count));
                }
                read_size += count;
                self.start = 0;
                self.end = 0;
                proof {
                    assert(self.buf@.subrange(0, 0) + self.upcoming() =~= self.upcoming());
                }
            } else {
                let part = want - read_size;
                let upto = self.start + part;
                let (done, space) = buf.split_at_mut(read_size);
                copy_bytes(
                    space,
                    vstd::slice::slice_subrange(self.buf.as_slice(), self.start, upto),
                );
                proof {
                    let piece = self.buf@.subrange(self.start as int, upto as int);
                    assert(left == self.buf@.subrange(self.start as int, self.end as int)
                        + self.upcoming());
                    assert(left.len() >= part);
                    assert(buf@.take(want as int) =~= before.take(read_size as int) + piece);
                    assert(piece =~= left.take(part as int));
                    assert(all.take(want as int) =~= all.take(read_size as int) + all.skip(
                        read_size as int,
                    ).take(part as int));
                    assert(left.skip(part as int) =~= self.buf@.subrange(
                        upto as int,
                        self.end as int,
                    ) + self.upcoming());
                    assert(all.skip(read_size as int).skip(part as int) =~= all.skip(want as int));
                    assert(buf@.skip(want as int) =~= old(buf)@.skip(want as int));
                }
                self.start = upto;
                return Ok(want);
            }
        }
    }
}

/// Takes `piece` after the `held` bytes that `store` keeps, decrypts the
/// whole blocks that this gives and hands them on to `writer`, and moves the
/// rest to the front of `store`. Returns the number of bytes kept then.
fn absorb<W: Write>(
    key: &[u8],
    chain: &mut Vec<u8>,
    writer: &mut PaddedWriter<W>,
    store: &mut Vec<u8>,
    held: usize,
    piece: &[u8],
) -> (r: Result<usize, StreamError>)
    requires
        key@.len() == KEY_SIZE,
        old(chain)@.len() == IV_SIZE,
        old(writer).wf(),
        old(store)@.len() == WRITE_BUF_SIZE,
        held < BLOCK_SIZE,
        piece@.len() <= WRITE_BUF_SIZE - held,
    ensures
        final(writer).wf(),
        final(store)@.len() == WRITE_BUF_SIZE,
        final(chain)@.len() == IV_SIZE,
        final(writer).base() == old(writer).base(),
        final(writer).op() == old(writer).op(),
        final(writer).block_size() == old(writer).block_size(),
        old(writer).reliable() ==> r is Ok,
        r matches Ok(rest) ==> {
            let all = old(store)@.take(held as int) + piece@;
            let whole = all.len() - all.len() % BLOCK_SIZE as nat;
            &&& rest == all.len() % BLOCK_SIZE as nat
            &&& final(writer).accepted() == old(writer).accepted() + cbc_decrypt(
                key@,
                old(chain)@,
                all.take(whole),
            )
            &&& final(chain)@ == next_chain(old(chain)@, all.take(whole))
            &&& undoes(
                key@,
                old(chain)@,
                all.take(whole),
                cbc_decrypt(key@, old(chain)@, all.take(whole)),
            )
            &&& final(store)@.take(rest as int) == all.skip(whole)
            &&& !final(writer).is_flushed()
            &&& final(writer).inner().reliable() == old(writer).inner().reliable()
            &&& final(writer).reliable() == old(writer).reliable()
            &&& final(writer).follows(old(writer))
        },
{
    let len = piece.len();
    let total = held + len;
    let rest = total % BLOCK_SIZE;
    let whole = total - rest;
    let ghost all = store@.take(held as int) + piece@;
    {
        let (front, back) = store.as_mut_slice().split_at_mut(held);
        let (space, tail) = back.split_at_mut(len);
        copy_bytes(space, piece);
    }
    proof {
        assert(store@.take(total as int) =~= all);
        lemma_fundamental_div_mod(total as int, BLOCK_SIZE as int);
        vstd::arithmetic::div_mod::lemma_mod_multiples_basic(
            (total / BLOCK_SIZE) as int,
            BLOCK_SIZE as int,
        );
        assert(whole == BLOCK_SIZE * (total / BLOCK_SIZE));
        vstd::arithmetic::mul::lemma_mul_is_commutative(
            BLOCK_SIZE as int,
            (total / BLOCK_SIZE) as int,
        );
    }
    let ghost filled = store@;
    {
        let (blocks, tail) = store.as_mut_slice().split_at_mut(whole);
        decrypt_blocks(key, chain, blocks);
    }
    let ghost plain = store@.take(whole as int);
    proof {
        assert(filled.take(whole as int) =~= all.take(whole as int)) by {
            assert(filled.take(total as int).take(whole as int) =~= filled.take(whole as int));
        }
        assert(filled.subrange(0, whole as int) =~= filled.take(whole as int));
        assert(plain =~= cbc_decrypt(key@, old(chain)@, all.take(whole as int)));
        assert(store@.subrange(whole as int, total as int) =~= filled.subrange(
            whole as int,
            total as int,
        ));
        assert(filled.subrange(whole as int, total as int) =~= filled.take(total as int).skip(
            whole as int,
        ));
    }
    let done = writer.write_all(vstd::slice::slice_subrange(store.as_slice(), 0, whole));
    match done {
        Err(e) => {
            return Err(e);
        },
        Ok(()) => {},
    }
    let ghost before = store@;
    {
        let kept = copy_range(store.as_slice(), whole, total);
        let (front, back) = store.as_mut_slice().split_at_mut(rest);
        copy_bytes(front, kept.as_slice());
    }
    proof {
        assert(store@.take(rest as int) =~= before.subrange(whole as int, total as int));
    }
    Ok(rest)
}

/// A sink that hands on to the sink it wraps the plaintext of the ciphertext
/// that it takes, without its padding.
pub struct DecryptWriteStream<W: Write> {
    key: Vec<u8>,
    /// The ciphertext block that chains the next one.
    chain: Vec<u8>,
    writer: PaddedWriter<W>,
    buf: Vec<u8>,
    /// How many bytes of `buf` wait for the rest of their block.
    buf_bytes: usize,
    /// Whether a write to the wrapped sink has failed.
    failed: bool,
    /// The initialisation vector that the stream was made with.
    iv: Ghost<Seq<u8>>,
    /// The ciphertext taken so far.
    accepted: Ghost<Seq<u8>>,
}

impl<W: Write> DecryptWriteStream<W> {
    /// The sink that the stream wraps.
    pub closed spec fn inner(&self) -> W {
        self.writer.inner()
    }

    /// What the wrapped sink had taken when the stream was made.
    pub closed spec fn base(&self) -> Seq<u8> {
        self.writer.base()
    }

    /// The ciphertext that the stream has taken.
    pub closed spec fn accepted(&self) -> Seq<u8> {
        self.accepted@
    }

    /// The key of the stream.
    pub closed spec fn key(&self) -> Seq<u8> {
        self.key@
    }

    /// The initialisation vector of the stream.
    pub closed spec fn iv(&self) -> Seq<u8> {
        self.iv@
    }

    /// Whether the stream takes no more bytes: it was flushed, or a write to
    /// the wrapped sink failed.
    pub closed spec fn is_closed(&self) -> bool {
        self.failed || self.writer.is_flushed()
    }

    /// What holds of the fields whatever the state.
    closed spec fn wf_core(&self) -> bool {
        &&& self.key@.len() == KEY_SIZE
        &&& self.chain@.len() == IV_SIZE
        &&& self.writer.wf()
        &&& self.buf@.len() == WRITE_BUF_SIZE
        &&& self.buf_bytes < BLOCK_SIZE
        &&& self.writer.op() == Op::Unpad
        &&& self.writer.block_size() == BLOCK_SIZE
        &&& self.buf_bytes <= self.accepted@.len()
        &&& (self.accepted@.len() - self.buf_bytes) % BLOCK_SIZE as int == 0
        &&& (!self.failed && self.writer.is_flushed() ==> self.buf_bytes == 0)
    }

    /// What holds while the stream takes bytes.
    closed spec fn wf_open(&self) -> bool {
        &&& self.buf@.take(self.buf_bytes as int) == self.accepted@.skip(
            self.accepted@.len() - self.buf_bytes,
        )
        &&& self.chain@ == next_chain(self.iv@, self.processed())
        &&& self.writer.accepted() == cbc_decrypt(self.key@, self.iv@, self.processed())
        &&& undoes(self.key@, self.iv@, self.processed(), self.writer.accepted())
    }

    /// The ciphertext that was decrypted: all that was taken but the
    /// beginning of a block at its end.
    closed spec fn processed(&self) -> Seq<u8> {
        self.accepted@.take(self.accepted@.len() - self.buf_bytes)
    }

    /// A stream that decrypts under `key` and `iv` onto `writer`.
    pub fn new(key: Vec<u8>, iv: Vec<u8>, writer: W) -> (r: Self)
        requires
            key@.len() == KEY_SIZE,
            iv@.len() == IV_SIZE,
            writer.wf(),
        ensures
            r.wf(),
            r.inner() == writer,
            r.base() == writer.written(),
            r.accepted() == Seq::<u8>::empty(),
            r.written() == writer.written(),
            r.reliable() == writer.reliable(),
            r.key() == key@,
            r.iv() == iv@,
            !r.is_closed(),
    {
        let inner = PaddedWriter::new(BLOCK_SIZE, writer, Op::Unpad);
        let buf = zero_bytes(WRITE_BUF_SIZE);
        let ghost first = iv@;
        let r = DecryptWriteStream {
            key,
            chain: iv,
            writer: inner,
            buf,
            buf_bytes: 0,
            failed: false,
            iv: Ghost(first),
            accepted: Ghost(Seq::empty()),
        };
        proof {
            inner.lemma_view();
            lemma_small_mod(0, BLOCK_SIZE as nat);
            assert(r.processed() =~= Seq::<u8>::empty());
            assert(r.buf@.take(0) =~= r.accepted@.skip(0));
            assert forall|other: Seq<u8>| other.len() == 0 implies other
                == Seq::<u8>::empty() by {
                assert(other =~= Seq::<u8>::empty());
            }
            assert(r.writer.base() + r.accepted@ =~= writer.written());
        }
        r
    }

    /// Ends the stream: hands on the end of the plaintext without its
    /// padding. Fails with `InvalidData` where the ciphertext taken is not a
    /// whole number of blocks, or the plaintext does not end in a well-formed
    /// padding. A second call does nothing.
    pub fn flush(&mut self) -> (r: Result<(), StreamError>)
        requires
            old(self).wf(),
        ensures
            final(self).wf(),
            final(self).base() == old(self).base(),
            final(self).accepted() == old(self).accepted(),
            final(self).key() == old(self).key(),
            final(self).iv() == old(self).iv(),
            old(self).is_closed() ==> final(self).inner() == old(self).inner() && (r is Ok || r
                == Err::<(), StreamError>(StreamError::InvalidInput)),
            !old(self).is_closed() ==> {
                let plain = decrypted(old(self).key(), old(self).iv(), old(self).accepted());
                &&& plain is None ==> {
                    &&& r == Err::<(), StreamError>(StreamError::InvalidData)
                    &&& final(self).inner() == old(self).inner()
                }
                &&& plain is Some && old(self).inner().reliable() ==> r is Ok
                &&& r is Ok ==> {
                    &&& plain is Some
                    &&& final(self).is_closed()
                    &&& final(self).inner().written() == old(self).base() + plain.unwrap()
                    &&& final(self).inner().reliable() == old(self).inner().reliable()
                    &&& final(self).inner().follows(&old(self).inner())
                }
            },
    {
        if self.failed {
            return Err(StreamError::InvalidInput);
        }
        if self.buf_bytes != 0 {
            proof {
                let len = self.accepted@.len() as int;
                lemma_add_mod_noop(len - self.buf_bytes, self.buf_bytes as int, BLOCK_SIZE as int);
                lemma_small_mod(self.buf_bytes as nat, BLOCK_SIZE as nat);
                lemma_small_mod(0, BLOCK_SIZE as nat);
            }
            return Err(StreamError::InvalidData);
        }
        proof {
            assert(self.processed() =~= self.accepted@);
        }
        self.writer.flush()
    }

    /// Gives up the stream for the sink it wraps.
    pub fn into_inner(self) -> (w: W)
        requires
            self.wf(),
        ensures
            w == self.inner(),
            w.wf(),
    {
        self.writer.into_inner()
    }

    /// Until it is closed, the stream has handed on to the sink it wraps the
    /// plaintext of the whole blocks that it took, but the last block of that
    /// plaintext.
    pub proof fn lemma_handed_on(self)
        requires
            self.wf(),
            !self.is_closed(),
        ensures
            ({
                let len = self.accepted().len();
                let blocks = self.accepted().take(len - len % BLOCK_SIZE as nat);
                self.inner().written() == self.base() + handed_on(
                    cbc_decrypt(self.key(), self.iv(), blocks),
                    BLOCK_SIZE as int,
                )
            }),
    {
        let len = self.accepted@.len() as int;
        lemma_add_mod_noop(len - self.buf_bytes, self.buf_bytes as int, BLOCK_SIZE as int);
        lemma_small_mod(self.buf_bytes as nat, BLOCK_SIZE as nat);
        self.writer.lemma_handed_on();
    }

    /// Where the ciphertext taken so far is a whole number of blocks, its
    /// plaintext is the only one that it can have.
    pub proof fn lemma_undoes(self)
        requires
            self.wf(),
            !self.is_closed(),
            self.accepted().len() % BLOCK_SIZE as nat == 0,
        ensures
            undoes(
                self.key(),
                self.iv(),
                self.accepted(),
                cbc_decrypt(self.key(), self.iv(), self.accepted()),
            ),
    {
        let len = self.accepted@.len() as int;
        lemma_sub_mod_noop(len, self.buf_bytes as int, BLOCK_SIZE as int);
        lemma_small_mod(self.buf_bytes as nat, BLOCK_SIZE as nat);
        lemma_small_mod(0, BLOCK_SIZE as nat);
        assert(self.buf_bytes == 0);
        assert(self.processed() =~= self.accepted@);
    }

    /// What follows a stream has its key, initialisation vector and base, and
    /// wraps a sink that follows the one it wrapped.
    pub proof fn lemma_follows(self, earlier: Self)
        requires
            self.follows(&earlier),
        ensures
            self.key() == earlier.key(),
            self.iv() == earlier.iv(),
            self.base() == earlier.base(),
            self.is_closed() ==> earlier.is_closed(),
            self.inner().follows(&earlier.inner()),
    {
        self.writer.lemma_follows(earlier.writer);
    }

    /// What the stream has taken is what the wrapped sink had and what came
    /// since; it takes more as long as it is not closed.
    pub proof fn lemma_view(self)
        ensures
            self.written() == self.base() + self.accepted(),
            self.reliable() == (self.inner().reliable() && !self.is_closed()),
    {
        self.writer.lemma_view();
    }
}

impl<W: Write> Write for DecryptWriteStream<W> {
    closed spec fn wf(&self) -> bool {
        &&& self.wf_core()
        &&& (!self.is_closed() ==> self.wf_open())
    }

    closed spec fn written(&self) -> Seq<u8> {
        self.writer.base() + self.accepted@
    }

    closed spec fn reliable(&self) -> bool {
        self.writer.reliable() && !self.failed
    }

    closed spec fn follows(&self, earlier: &Self) -> bool {
        &&& self.key@ == earlier.key@
        &&& self.iv@ == earlier.iv@
        &&& (self.failed ==> earlier.failed)
        &&& self.writer.follows(&earlier.writer)
    }

    proof fn lemma_follows_itself(&self) {
        self.writer.lemma_follows_itself();
    }

    proof fn lemma_follows_chain(&self, middle: &Self, earlier: &Self) {
        self.writer.lemma_follows_chain(&middle.writer, &earlier.writer);
    }

    fn write_all(&mut self, buf: &[u8]) -> (r: Result<(), StreamError>)
        ensures
            final(self).base() == old(self).base(),
            final(self).key() == old(self).key(),
            final(self).iv() == old(self).iv(),
            old(self).is_closed() ==> r == Err::<(), StreamError>(StreamError::InvalidInput),
            r is Ok ==> {
                &&& final(self).accepted() == old(self).accepted() + buf@
                &&& !final(self).is_closed()
                &&& final(self).inner().reliable() == old(self).inner().reliable()
            },
    {
        proof {
            self.writer.lemma_view();
        }
        if self.failed {
            return Err(StreamError::InvalidInput);
        }
        let len = buf.len();
        let mut taken: usize = 0;
        proof {
            assert(self.accepted@ + buf@.take(0) =~= self.accepted@);
            self.writer.lemma_follows_itself();
        }
        if self.writer_is_flushed() {
            return Err(StreamError::InvalidInput);
        }
        while taken < len
            invariant
                taken <= len,
                len == buf@.len(),
                self.wf(),
                !self.is_closed(),
                !old(self).is_closed(),
                self.writer.base() == old(self).writer.base(),
                self.key@ == old(self).key@,
                self.iv@ == old(self).iv@,
                self.accepted@ == old(self).accepted@ + buf@.take(taken as int),
                self.writer.inner().reliable() == old(self).writer.inner().reliable(),
                self.writer.reliable() == old(self).writer.reliable(),
                self.writer.follows(&old(self).writer),
            decreases len - taken,
        {
            let room = WRITE_BUF_SIZE - self.buf_bytes;
            let part = if len - taken < room {
                len - taken
            } else {
                room
            };
            let piece = vstd::slice::slice_subrange(buf, taken, taken + part);
            let ghost before = *self;
            let step = absorb(
                self.key.as_slice(),
                &mut self.chain,
                &mut self.writer,
                &mut self.buf,
                self.buf_bytes,
                piece,
            );
            match step {
                Err(e) => {
                    self.failed = true;
                    return Err(e);
                },
                Ok(rest) => {
                    self.buf_bytes = rest;
                    self.accepted = Ghost(self.accepted@ + piece@);
                    proof {
                        lemma_step(
                            before.key@,
                            before.iv@,
                            before.accepted@,
                            before.buf_bytes as int,
                            before.buf@.take(before.buf_bytes as int),
                            piece@,
                        );
                        let before_call = old(self).accepted@;
                        assert(before_call + buf@.take(taken as int) + piece@ =~= before_call
                            + buf@.take(taken + part));
                        self.writer.lemma_view();
                        self.writer.lemma_follows_chain(&before.writer, &old(self).writer);
                    }
                },
            }
            taken += part;
        }
        proof {
            assert(buf@.take(len as int) =~= buf@);
            let base = self.writer.base();
            assert(base + old(self).accepted@ + buf@ =~= base + (old(self).accepted@ + buf@));
        }
        Ok(())
    }
}

impl<W: Write> DecryptWriteStream<W> {
    /// Whether the padding stream below was flushed.
    fn writer_is_flushed(&self) -> (r: bool)
        requires
            self.wf(),
            !self.failed,
        ensures
            r == self.is_closed(),
    {
        proof {
            self.writer.lemma_view();
        }
        self.writer.flushed()
    }
}

/// One step of decryption keeps the relation between the ciphertext taken,
/// its decrypted part and the bytes that wait.
proof fn lemma_step(
    key: Seq<u8>,
    iv: Seq<u8>,
    accepted: Seq<u8>,
    held: int,
    kept: Seq<u8>,
    piece: Seq<u8>,
)
    requires
        0 <= held <= accepted.len(),
        held < BLOCK_SIZE,
        (accepted.len() - held) % BLOCK_SIZE as int == 0,
        kept == accepted.skip(accepted.len() - held),
        undoes(
            key,
            iv,
            accepted.take(accepted.len() - held),
            cbc_decrypt(key, iv, accepted.take(accepted.len() - held)),
        ),
        ({
            let processed = accepted.take(accepted.len() - held);
            let all = kept + piece;
            let whole = all.len() - all.len() % BLOCK_SIZE as nat;
            undoes(
                key,
                next_chain(iv, processed),
                all.take(whole),
                cbc_decrypt(key, next_chain(iv, processed), all.take(whole)),
            )
        }),
    ensures
        ({
            let processed = accepted.take(accepted.len() - held);
            let all = kept + piece;
            let whole = all.len() - all.len() % BLOCK_SIZE as nat;
            let rest = (all.len() % BLOCK_SIZE as nat) as int;
            let longer = accepted + piece;
            let further = longer.take(longer.len() - rest);
            &&& 0 <= whole <= all.len()
            &&& 0 <= rest < BLOCK_SIZE
            &&& rest <= longer.len()
            &&& (longer.len() - rest) % BLOCK_SIZE as int == 0
            &&& further == processed + all.take(whole)
            &&& all.skip(whole) == longer.skip(longer.len() - rest)
            &&& cbc_decrypt(key, iv, further) == cbc_decrypt(key, iv, processed) + cbc_decrypt(
                key,
                next_chain(iv, processed),
                all.take(whole),
            )
            &&& next_chain(next_chain(iv, processed), all.take(whole)) == next_chain(iv, further)
            &&& undoes(key, iv, further, cbc_decrypt(key, iv, further))
        }),
{
    let size = BLOCK_SIZE as int;
    let processed = accepted.take(accepted.len() - held);
    let all = kept + piece;
    let total = all.len() as int;
    let rest = total % size;
    let whole = total - rest;
    let longer = accepted + piece;
    let further = longer.take(longer.len() - rest);
    lemma_fundamental_div_mod(total, size);
    vstd::arithmetic::div_mod::lemma_mod_multiples_basic(total / size, size);
    vstd::arithmetic::mul::lemma_mul_is_commutative(size, total / size);
    assert(whole == size * (total / size));
    assert(whole % size == 0);
    lemma_add_mod_noop(accepted.len() - held, whole, size);
    lemma_small_mod(0, size as nat);
    assert(longer.len() - rest == (accepted.len() - held) + whole);
    assert(further =~= processed + all.take(whole));
    assert(all.skip(whole) =~= longer.skip(longer.len() - rest));
    lemma_decrypt_concat(key, iv, processed, all.take(whole));
    lemma_next_chain_concat(iv, processed, all.take(whole));
    assert(all.take(whole).len() == whole);
    lemma_undoes_concat(key, iv, processed, all.take(whole));
}

} // verus!
