//! AES-256 in cipher block chaining mode, on whole blocks.
//!
//! The block cipher itself is the `aes` crate's and is not described here:
//! [`aes256_encrypt_block`] and [`aes256_decrypt_block`] only name what it
//! computes. The chaining is that of the `cbc` crate.

use cipher::{BlockDecryptMut, BlockEncryptMut, KeyIvInit};
use crate::utils::{copy_bytes, copy_range};
use vstd::prelude::*;

verus! {

/// The length of a key.
pub const KEY_SIZE: usize = 32;

/// The length of an initialisation vector.
pub const IV_SIZE: usize = 16;

/// The length of a block.
pub const BLOCK_SIZE: usize = 16;

/// What AES-256 with `key` makes of the block `block`.
pub uninterp spec fn aes256_encrypt_block(key: Seq<u8>, block: Seq<u8>) -> [u8; 16];

/// What the inverse of AES-256 with `key` makes of the block `block`.
pub uninterp spec fn aes256_decrypt_block(key: Seq<u8>, block: Seq<u8>) -> [u8; 16];

/// The exclusive or of two blocks, byte by byte.
pub open spec fn xor_block(a: Seq<u8>, b: Seq<u8>) -> Seq<u8> {
    Seq::new(a.len(), |i: int| a[i] ^ b[i])
}

/// The ciphertext of `data`, a whole number of blocks: each block is
/// encrypted after the exclusive or with the ciphertext block before it, the
/// first with `iv`.
pub open spec fn cbc_encrypt(key: Seq<u8>, iv: Seq<u8>, data: Seq<u8>) -> Seq<u8>
    decreases data.len(),
{
    if data.len() < BLOCK_SIZE {
        Seq::empty()
    } else {
        let first = aes256_encrypt_block(key, xor_block(data.take(BLOCK_SIZE as int), iv))@;
        first + cbc_encrypt(key, first, data.skip(BLOCK_SIZE as int))
    }
}

/// The plaintext of `data`, a whole number of blocks: each block is decrypted
/// and then combined by exclusive or with the ciphertext block before it, the
/// first with `iv`.
pub open spec fn cbc_decrypt(key: Seq<u8>, iv: Seq<u8>, data: Seq<u8>) -> Seq<u8>
    decreases data.len(),
{
    if data.len() < BLOCK_SIZE {
        Seq::empty()
    } else {
        let first = data.take(BLOCK_SIZE as int);
        xor_block(aes256_decrypt_block(key, first)@, iv) + cbc_decrypt(
            key,
            first,
            data.skip(BLOCK_SIZE as int),
        )
    }
}

/// The value that chains the next block: the last block of `data`, or `iv`
/// where `data` is empty.
pub open spec fn next_chain(iv: Seq<u8>, data: Seq<u8>) -> Seq<u8> {
    if data.len() < BLOCK_SIZE {
        iv
    } else {
        data.skip(data.len() - BLOCK_SIZE)
    }
}

/// Whether `plain` is the only plaintext as long as `cipher` that `cipher`
/// can be the ciphertext of, under `key` and `iv`.
pub open spec fn undoes(key: Seq<u8>, iv: Seq<u8>, cipher: Seq<u8>, plain: Seq<u8>) -> bool {
    forall|other: Seq<u8>|
        other.len() == cipher.len() && #[trigger] cbc_encrypt(key, iv, other) == cipher ==> plain
            == other
}

/// Whether decryption with `key` undoes encryption with it, block by block.
pub open spec fn block_cipher_inverts(key: Seq<u8>) -> bool {
    forall|block: Seq<u8>|
        block.len() == BLOCK_SIZE ==> aes256_decrypt_block(
            key,
            (#[trigger] aes256_encrypt_block(key, block))@,
        )@ == block
}

/// Calls `cbc::Encryptor::<aes::Aes256>::new_from_slices`, which takes a key
/// of 32 and an initialisation vector of 16 bytes, and `encrypt_blocks_inout_mut`,
/// which replaces each block of `data` by its ciphertext, chaining as
/// [`cbc_encrypt`] says.
#[verifier::external_body]
fn encrypt_in_place(key: &[u8], iv: &[u8], data: &mut [u8])
    requires
        key@.len() == KEY_SIZE,
        iv@.len() == IV_SIZE,
        old(data)@.len() % BLOCK_SIZE as nat == 0,
    ensures
        final(data)@.len() == old(data)@.len(),
        final(data)@ == cbc_encrypt(key@, iv@, old(data)@),
        old(data)@.len() == BLOCK_SIZE ==> final(data)@ == aes256_encrypt_block(
            key@,
            xor_block(old(data)@, iv@),
        )@,
{
    let mut cipher = cbc::Encryptor::<aes::Aes256>::new_from_slices(key, iv).unwrap();
    let (blocks, _) = cipher::inout::InOutBuf::from(data).into_chunks();
    cipher.encrypt_blocks_inout_mut(blocks);
}

/// Calls `cbc::Decryptor::<aes::Aes256>::new_from_slices`, which takes a key
/// of 32 and an initialisation vector of 16 bytes, and `decrypt_blocks_inout_mut`,
/// which replaces each block of `data` by its plaintext, chaining as
/// [`cbc_decrypt`] says. Decryption is the inverse of encryption: where
/// `data` is the ciphertext of some plaintext, under the same key and
/// initialisation vector, the call gives that plaintext.
#[verifier::external_body]
fn decrypt_in_place(key: &[u8], iv: &[u8], data: &mut [u8])
    requires
        key@.len() == KEY_SIZE,
        iv@.len() == IV_SIZE,
        old(data)@.len() % BLOCK_SIZE as nat == 0,
    ensures
        final(data)@.len() == old(data)@.len(),
        final(data)@ == cbc_decrypt(key@, iv@, old(data)@),
        undoes(key@, iv@, old(data)@, final(data)@),
        old(data)@.len() == BLOCK_SIZE ==> final(data)@ == xor_block(
            aes256_decrypt_block(key@, old(data)@)@,
            iv@,
        ),
{
    let mut cipher = cbc::Decryptor::<aes::Aes256>::new_from_slices(key, iv).unwrap();
    let (blocks, _) = cipher::inout::InOutBuf::from(data).into_chunks();
    cipher.decrypt_blocks_inout_mut(blocks);
}

/// Encrypts the blocks of `data` in place and moves `chain` on to the last
/// block of the ciphertext.
pub fn encrypt_blocks(key: &[u8], chain: &mut Vec<u8>, data: &mut [u8])
    requires
        key@.len() == KEY_SIZE,
        old(chain)@.len() == IV_SIZE,
        old(data)@.len() % BLOCK_SIZE as nat == 0,
    ensures
        final(data)@ == cbc_encrypt(key@, old(chain)@, old(data)@),
        final(data)@.len() == old(data)@.len(),
        final(chain)@ == next_chain(old(chain)@, final(data)@),
        final(chain)@.len() == IV_SIZE,
{
    encrypt_in_place(key, chain.as_slice(), data);
    let len = data.len();
    if len >= BLOCK_SIZE {
        copy_bytes(chain.as_mut_slice(), vstd::slice::slice_subrange(data, len - BLOCK_SIZE, len));
    }
}

/// Decrypts the blocks of `data` in place and moves `chain` on to the last
/// block of the ciphertext.
pub fn decrypt_blocks(key: &[u8], chain: &mut Vec<u8>, data: &mut [u8])
    requires
        key@.len() == KEY_SIZE,
        old(chain)@.len() == IV_SIZE,
        old(data)@.len() % BLOCK_SIZE as nat == 0,
    ensures
        final(data)@ == cbc_decrypt(key@, old(chain)@, old(data)@),
        final(data)@.len() == old(data)@.len(),
        final(chain)@ == next_chain(old(chain)@, old(data)@),
        final(chain)@.len() == IV_SIZE,
        undoes(key@, old(chain)@, old(data)@, final(data)@),
{
    let len = data.len();
    let mut next = copy_range(chain.as_slice(), 0, IV_SIZE);
    if len >= BLOCK_SIZE {
        copy_bytes(next.as_mut_slice(), vstd::slice::slice_subrange(data, len - BLOCK_SIZE, len));
    }
    decrypt_in_place(key, chain.as_slice(), data);
    copy_bytes(chain.as_mut_slice(), next.as_slice());
    proof {
        assert(old(chain)@.subrange(0, IV_SIZE as int) =~= old(chain)@);
    }
}

/// Each block of plaintext gives one of ciphertext.
pub proof fn lemma_encrypt_len(key: Seq<u8>, iv: Seq<u8>, data: Seq<u8>)
    requires
        data.len() % BLOCK_SIZE as nat == 0,
    ensures
        cbc_encrypt(key, iv, data).len() == data.len(),
    decreases data.len(),
{
    if data.len() >= BLOCK_SIZE {
        let block = xor_block(data.take(BLOCK_SIZE as int), iv);
        let first = aes256_encrypt_block(key, block)@;
        lemma_encrypt_len(key, first, data.skip(BLOCK_SIZE as int));
    }
}

/// The ciphertext of two pieces in a row is the ciphertext of the first and
/// then that of the second, chained to the first.
pub proof fn lemma_encrypt_concat(key: Seq<u8>, iv: Seq<u8>, first: Seq<u8>, second: Seq<u8>)
    requires
        first.len() % BLOCK_SIZE as nat == 0,
    ensures
        cbc_encrypt(key, iv, first + second) == cbc_encrypt(key, iv, first) + cbc_encrypt(
            key,
            next_chain(iv, cbc_encrypt(key, iv, first)),
            second,
        ),
    decreases first.len(),
{
    let size = BLOCK_SIZE as int;
    if first.len() < BLOCK_SIZE {
        assert(first.len() == 0);
        assert(first + second =~= second);
        assert(Seq::<u8>::empty() + cbc_encrypt(key, iv, second) =~= cbc_encrypt(
            key,
            iv,
            second,
        ));
    } else {
        let both = first + second;
        let block = xor_block(first.take(size), iv);
        let head = aes256_encrypt_block(key, block)@;
        assert(both.take(size) =~= first.take(size));
        assert(both.skip(size) =~= first.skip(size) + second);
        lemma_encrypt_concat(key, head, first.skip(size), second);
        lemma_encrypt_len(key, head, first.skip(size));
        let rest = cbc_encrypt(key, head, first.skip(size));
        let whole = cbc_encrypt(key, iv, first);
        assert(whole == head + rest);
        assert(next_chain(head, rest) == next_chain(iv, whole)) by {
            if rest.len() >= BLOCK_SIZE {
                assert(whole.skip(whole.len() - size) =~= rest.skip(rest.len() - size));
            } else {
                assert(rest.len() == 0);
                assert(whole.skip(whole.len() - size) =~= head);
            }
        }
        assert(head + (rest + cbc_encrypt(key, next_chain(head, rest), second)) =~= head + rest
            + cbc_encrypt(key, next_chain(head, rest), second));
    }
}

/// The plaintext of two pieces in a row is the plaintext of the first and
/// then that of the second, chained to the first.
pub proof fn lemma_decrypt_concat(key: Seq<u8>, iv: Seq<u8>, first: Seq<u8>, second: Seq<u8>)
    requires
        first.len() % BLOCK_SIZE as nat == 0,
    ensures
        cbc_decrypt(key, iv, first + second) == cbc_decrypt(key, iv, first) + cbc_decrypt(
            key,
            next_chain(iv, first),
            second,
        ),
    decreases first.len(),
{
    let size = BLOCK_SIZE as int;
    if first.len() < BLOCK_SIZE {
        assert(first.len() == 0);
        assert(first + second =~= second);
        assert(Seq::<u8>::empty() + cbc_decrypt(key, iv, second) =~= cbc_decrypt(
            key,
            iv,
            second,
        ));
    } else {
        let both = first + second;
        let head = first.take(size);
        assert(both.take(size) =~= head);
        assert(both.skip(size) =~= first.skip(size) + second);
        lemma_decrypt_concat(key, head, first.skip(size), second);
        let rest = first.skip(size);
        assert(next_chain(head, rest) == next_chain(iv, first)) by {
            if rest.len() >= BLOCK_SIZE {
                assert(first.skip(first.len() - size) =~= rest.skip(rest.len() - size));
            } else {
                assert(rest.len() == 0);
                assert(first.skip(first.len() - size) =~= head);
            }
        }
        let plain = xor_block(aes256_decrypt_block(key, head)@, iv);
        assert(plain + (cbc_decrypt(key, head, rest) + cbc_decrypt(
            key,
            next_chain(head, rest),
            second,
        )) =~= plain + cbc_decrypt(key, head, rest) + cbc_decrypt(
            key,
            next_chain(head, rest),
            second,
        ));
    }
}

/// Where the plaintexts of two pieces of ciphertext are the only ones that
/// they can have, that of the two in a row is the only one that these can
/// have.
pub proof fn lemma_undoes_concat(key: Seq<u8>, iv: Seq<u8>, first: Seq<u8>, second: Seq<u8>)
    requires
        first.len() % BLOCK_SIZE as nat == 0,
        second.len() % BLOCK_SIZE as nat == 0,
        undoes(key, iv, first, cbc_decrypt(key, iv, first)),
        undoes(
            key,
            next_chain(iv, first),
            second,
            cbc_decrypt(key, next_chain(iv, first), second),
        ),
    ensures
        undoes(key, iv, first + second, cbc_decrypt(key, iv, first + second)),
{
    let both = first + second;
    lemma_decrypt_concat(key, iv, first, second);
    assert forall|other: Seq<u8>|
        other.len() == both.len() && #[trigger] cbc_encrypt(key, iv, other)
            == both implies cbc_decrypt(key, iv, both) == other by {
        let front = other.take(first.len() as int);
        let back = other.skip(first.len() as int);
        assert(front + back =~= other);
        lemma_encrypt_concat(key, iv, front, back);
        lemma_encrypt_len(key, iv, front);
        let front_cipher = cbc_encrypt(key, iv, front);
        let back_cipher = cbc_encrypt(key, next_chain(iv, front_cipher), back);
        assert(front_cipher + back_cipher == first + second);
        assert(front_cipher =~= (front_cipher + back_cipher).take(first.len() as int));
        assert(first =~= (first + second).take(first.len() as int));
        assert(back_cipher =~= (front_cipher + back_cipher).skip(first.len() as int));
        assert(second =~= (first + second).skip(first.len() as int));
        assert(cbc_encrypt(key, iv, front) == first);
        assert(cbc_encrypt(key, next_chain(iv, first), back) == second);
    }
}

/// Decryption undoes encryption, where the block cipher does.
pub proof fn lemma_decrypt_encrypt(key: Seq<u8>, iv: Seq<u8>, data: Seq<u8>)
    requires
        block_cipher_inverts(key),
        iv.len() == BLOCK_SIZE,
        data.len() % BLOCK_SIZE as nat == 0,
    ensures
        cbc_decrypt(key, iv, cbc_encrypt(key, iv, data)) == data,
    decreases data.len(),
{
    let size = BLOCK_SIZE as int;
    if data.len() >= BLOCK_SIZE {
        let block = xor_block(data.take(size), iv);
        let head = aes256_encrypt_block(key, block)@;
        assert(block.len() == BLOCK_SIZE);
        let rest = cbc_encrypt(key, head, data.skip(size));
        let whole = head + rest;
        lemma_encrypt_len(key, head, data.skip(size));
        lemma_decrypt_encrypt(key, head, data.skip(size));
        assert(whole.take(size) =~= head);
        assert(whole.skip(size) =~= rest);
        assert(xor_block(block, iv) =~= data.take(size)) by {
            assert forall|i: int| 0 <= i < size implies xor_block(block, iv)[i] == data[i] by {
                let a = data[i];
                let b = iv[i];
                assert((a ^ b) ^ b == a) by (bit_vector);
            }
        }
        assert(data.take(size) + data.skip(size) =~= data);
    } else {
        assert(data.len() == 0);
        assert(data =~= Seq::<u8>::empty());
    }
}

} // verus!
