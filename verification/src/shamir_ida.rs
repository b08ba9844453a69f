//! The hybrid scheme: the data is encrypted under a fresh key, the ciphertext
//! is dispersed with Rabin's scheme, and the key is shared with Shamir's.
//! Each share holds its share of the key and then its share of the
//! ciphertext.

use crate::aes_cbc::{
    block_cipher_inverts, cbc_decrypt, cbc_encrypt, lemma_decrypt_encrypt, lemma_encrypt_len,
    undoes, BLOCK_SIZE, KEY_SIZE,
};
use crate::block_mode_streaming::{decrypted, encrypted, DecryptWriteStream, EncryptReadStream};
use crate::error::StreamError;
use crate::ida::{
    ida_join, ida_shares, lemma_ida_choice, lemma_ida_round_trip, lemma_ida_share_len, Ida,
};
use crate::io::{MemoryReader, Read, Write};
use crate::padding::{lemma_pad_len, lemma_unpad_pad, pad};
use crate::partitioner::{
    appended, chosen, input_remaining, input_xs, inputs_reliable, inputs_wf, is_choice,
    lemma_chosen_valid, lemma_shortest_bound, output_xs, shortest, valid_indices, InputPartition,
    OutputPartition, Partitioner,
};
use crate::random::random_bytes;
use crate::shamir::{
    is_shamir_sharing, lemma_shamir_choice, lemma_shamir_round_trip, lemma_shamir_share_len,
    lemma_weighted_sum_window, shamir_combine, shamir_weights, weighted_sum, Shamir,
};
use crate::utils::copy_range;
use vstd::prelude::*;

verus! {

/// The length of the key and the initialisation vector together.
pub const SECRET_SIZE: usize = 48;

/// Whether `shares` are, for each index of `xs`, its share `key_shares[j]` of
/// `secret`, the key and then the initialisation vector, followed by its share
/// of the ciphertext of `message` under them.
pub open spec fn is_hybrid_sharing_with(
    k: int,
    message: Seq<u8>,
    xs: Seq<u8>,
    shares: Seq<Seq<u8>>,
    secret: Seq<u8>,
    key_shares: Seq<Seq<u8>>,
) -> bool {
    let cipher = encrypted(
        secret.take(KEY_SIZE as int),
        secret.skip(KEY_SIZE as int),
        message,
    );
    &&& secret.len() == SECRET_SIZE
    &&& is_shamir_sharing(k, secret, xs, key_shares)
    &&& shares.len() == xs.len()
    &&& forall|j: int|
        0 <= j < xs.len() ==> #[trigger] shares[j] == key_shares[j] + ida_shares(
            pad(cipher, k),
            k,
            xs,
        )[j]
}

/// Whether `shares` can be what splitting `message` with threshold `k` gives
/// to the indices `xs`.
pub open spec fn is_hybrid_sharing(k: int, message: Seq<u8>, xs: Seq<u8>, shares: Seq<Seq<u8>>)
    -> bool {
    exists|secret: Seq<u8>, key_shares: Seq<Seq<u8>>| #[trigger]
        is_hybrid_sharing_with(k, message, xs, shares, secret, key_shares)
}

/// Each of `shares` without the share of the key at its front.
pub open spec fn cipher_shares(shares: Seq<Seq<u8>>) -> Seq<Seq<u8>> {
    Seq::new(shares.len(), |j: int| shares[j].skip(SECRET_SIZE as int))
}

/// What joining `shares` with the indices `xs` gives: the plaintext of the
/// ciphertext that the shares disperse, under the key that they share.
/// `None` where a share is too short to hold its share of the key, or the
/// ciphertext or the plaintext does not end in a well-formed padding.
pub open spec fn hybrid_join(xs: Seq<u8>, shares: Seq<Seq<u8>>) -> Option<Seq<u8>> {
    if shortest(shares, SECRET_SIZE as int, xs.len() as int) < SECRET_SIZE {
        None
    } else {
        let secret = shamir_combine(xs, shares, SECRET_SIZE as int);
        match ida_join(xs, cipher_shares(shares)) {
            None => None,
            Some(cipher) => decrypted(
                secret.take(KEY_SIZE as int),
                secret.skip(KEY_SIZE as int),
                cipher,
            ),
        }
    }
}

/// Some of the shares of a message are shares of the message for their
/// indices.
pub proof fn lemma_hybrid_choice(
    k: int,
    message: Seq<u8>,
    xs: Seq<u8>,
    shares: Seq<Seq<u8>>,
    picks: Seq<int>,
)
    requires
        is_hybrid_sharing(k, message, xs, shares),
        is_choice(picks, xs.len() as int, picks.len() as int),
    ensures
        is_hybrid_sharing(k, message, chosen(xs, picks), chosen(shares, picks)),
{
    let (secret, key_shares) = choose|secret: Seq<u8>, key_shares: Seq<Seq<u8>>| #[trigger]
        is_hybrid_sharing_with(k, message, xs, shares, secret, key_shares);
    let cipher = encrypted(
        secret.take(KEY_SIZE as int),
        secret.skip(KEY_SIZE as int),
        message,
    );
    let some_xs = chosen(xs, picks);
    let some = chosen(shares, picks);
    let some_keys = chosen(key_shares, picks);
    lemma_shamir_choice(k, secret, xs, key_shares, picks);
    lemma_ida_choice(pad(cipher, k), k, xs, picks);
    assert forall|j: int| 0 <= j < some_xs.len() implies #[trigger] some[j] == some_keys[j]
        + ida_shares(pad(cipher, k), k, some_xs)[j] by {
        assert(shares[picks[j]] == key_shares[picks[j]] + ida_shares(
            pad(cipher, k),
            k,
            xs,
        )[picks[j]]);
    }
    assert(is_hybrid_sharing_with(k, message, some_xs, some, secret, some_keys));
}

/// The key that joining `shares` with the indices `xs` recovers.
pub open spec fn recovered_key(xs: Seq<u8>, shares: Seq<Seq<u8>>) -> Seq<u8> {
    shamir_combine(xs, shares, SECRET_SIZE as int).take(KEY_SIZE as int)
}

/// The initialisation vector that joining `shares` with the indices `xs`
/// recovers.
pub open spec fn recovered_iv(xs: Seq<u8>, shares: Seq<Seq<u8>>) -> Seq<u8> {
    shamir_combine(xs, shares, SECRET_SIZE as int).skip(KEY_SIZE as int)
}

/// What the shares of a message for as many different indices as the
/// threshold hold: the key and the initialisation vector, and the ciphertext
/// of the message under them.
pub proof fn lemma_hybrid_parts(k: int, message: Seq<u8>, xs: Seq<u8>, shares: Seq<Seq<u8>>)
    requires
        1 <= k <= 256,
        xs.len() == k,
        xs.no_duplicates(),
        is_hybrid_sharing(k, message, xs, shares),
    ensures
        shortest(shares, SECRET_SIZE as int, k) == SECRET_SIZE,
        recovered_key(xs, shares).len() == KEY_SIZE,
        recovered_iv(xs, shares).len() == BLOCK_SIZE,
        ida_join(xs, cipher_shares(shares)) == Some(
            encrypted(recovered_key(xs, shares), recovered_iv(xs, shares), message),
        ),
        encrypted(recovered_key(xs, shares), recovered_iv(xs, shares), message).len() == pad(
            message,
            BLOCK_SIZE as int,
        ).len(),
        pad(message, BLOCK_SIZE as int).len() % BLOCK_SIZE as nat == 0,
{
    let (secret, key_shares) = choose|secret: Seq<u8>, key_shares: Seq<Seq<u8>>| #[trigger]
        is_hybrid_sharing_with(k, message, xs, shares, secret, key_shares);
    let size = SECRET_SIZE as int;
    let key = secret.take(KEY_SIZE as int);
    let iv = secret.skip(KEY_SIZE as int);
    let cipher = encrypted(key, iv, message);
    let tails = ida_shares(pad(cipher, k), k, xs);
    lemma_shamir_share_len(k, secret, xs, key_shares);
    lemma_shamir_round_trip(k, secret, xs, key_shares);
    assert forall|j: int| 0 <= j < k implies (#[trigger] shares[j]).len() >= size
        && shares[j].skip(size) == tails[j] && shares[j].take(size) == key_shares[j] by {
        assert(shares[j] == key_shares[j] + tails[j]);
        assert(key_shares[j].len() == size);
        assert((key_shares[j] + tails[j]).skip(size) =~= tails[j]);
        assert((key_shares[j] + tails[j]).take(size) =~= key_shares[j]);
    }
    lemma_at_least(shares, size, k);
    // The key and the initialisation vector.
    assert forall|p: int| 0 <= p < size implies weighted_sum(shamir_weights(xs), shares, p, k)
        == weighted_sum(shamir_weights(xs), key_shares, p, k) by {
        assert forall|j: int| 0 <= j < k implies (#[trigger] shares[j])[0 + p]
            == key_shares[j][p] by {
            assert(shares[j].take(size)[p] == key_shares[j][p]);
        }
        assert forall|j: int| 0 <= j < k implies (#[trigger] key_shares[j])[p]
            == shares[j][0 + p] by {
            assert(shares[j].take(size)[p] == key_shares[j][p]);
        }
        lemma_weighted_sum_window(shamir_weights(xs), shares, key_shares, 0, p, k);
    }
    assert(shamir_combine(xs, shares, size) =~= shamir_combine(xs, key_shares, size));
    // The ciphertext.
    assert(cipher_shares(shares) =~= tails);
    lemma_ida_round_trip(k, cipher, xs, tails);
    lemma_pad_len(message, BLOCK_SIZE as int);
    lemma_encrypt_len(key, iv, pad(message, BLOCK_SIZE as int));
}

/// Joining undoes splitting, where the plaintext of the ciphertext that the
/// shares hold is the only one that it can have: the shares of a message for
/// as many different indices as the threshold join to the message.
pub proof fn lemma_hybrid_round_trip_of(
    k: int,
    message: Seq<u8>,
    xs: Seq<u8>,
    shares: Seq<Seq<u8>>,
)
    requires
        1 <= k <= 256,
        xs.len() == k,
        xs.no_duplicates(),
        is_hybrid_sharing(k, message, xs, shares),
        ({
            let key = recovered_key(xs, shares);
            let iv = recovered_iv(xs, shares);
            let cipher = encrypted(key, iv, message);
            undoes(key, iv, cipher, cbc_decrypt(key, iv, cipher))
        }),
    ensures
        hybrid_join(xs, shares) == Some(message),
{
    let key = recovered_key(xs, shares);
    let iv = recovered_iv(xs, shares);
    let padded = pad(message, BLOCK_SIZE as int);
    lemma_hybrid_parts(k, message, xs, shares);
    assert(cbc_encrypt(key, iv, padded) == encrypted(key, iv, message));
    lemma_unpad_pad(message, BLOCK_SIZE as int);
}

/// Joining undoes splitting, where the block cipher can be undone: the
/// shares of a message for as many different indices as the threshold join
/// to the message.
pub proof fn lemma_hybrid_round_trip(k: int, message: Seq<u8>, xs: Seq<u8>, shares: Seq<Seq<u8>>)
    requires
        1 <= k <= 256,
        xs.len() == k,
        xs.no_duplicates(),
        is_hybrid_sharing(k, message, xs, shares),
        forall|key: Seq<u8>| key.len() == KEY_SIZE ==> #[trigger] block_cipher_inverts(key),
    ensures
        hybrid_join(xs, shares) == Some(message),
{
    let key = recovered_key(xs, shares);
    let iv = recovered_iv(xs, shares);
    let padded = pad(message, BLOCK_SIZE as int);
    lemma_hybrid_parts(k, message, xs, shares);
    assert(block_cipher_inverts(key));
    lemma_decrypt_encrypt(key, iv, padded);
    lemma_unpad_pad(message, BLOCK_SIZE as int);
}

/// Shares that are all as long as the limit, or longer, reach the limit.
pub proof fn lemma_at_least(shares: Seq<Seq<u8>>, limit: int, n: int)
    requires
        0 <= n <= shares.len(),
        forall|j: int| 0 <= j < n ==> (#[trigger] shares[j]).len() >= limit,
    ensures
        shortest(shares, limit, n) == limit,
    decreases n,
{
    if n > 0 {
        lemma_at_least(shares, limit, n - 1);
        assert(shares[n - 1].len() >= limit);
    }
}

/// Every share of a message holds the share of the key and the
/// initialisation vector, and then one byte for each `k` bytes of the
/// ciphertext, and one more; the ciphertext has one block for each block of
/// the message, and one more.
pub proof fn lemma_hybrid_share_len(k: int, message: Seq<u8>, xs: Seq<u8>, shares: Seq<Seq<u8>>)
    requires
        1 <= k,
        is_hybrid_sharing(k, message, xs, shares),
    ensures
        shares.len() == xs.len(),
        forall|j: int|
            0 <= j < xs.len() ==> (#[trigger] shares[j]).len() == SECRET_SIZE + (message.len()
                / 16 + 1) * 16 / (k as nat) + 1,
{
    let (secret, key_shares) = choose|secret: Seq<u8>, key_shares: Seq<Seq<u8>>| #[trigger]
        is_hybrid_sharing_with(k, message, xs, shares, secret, key_shares);
    let key = secret.take(KEY_SIZE as int);
    let iv = secret.skip(KEY_SIZE as int);
    let cipher = encrypted(key, iv, message);
    let padded = pad(message, BLOCK_SIZE as int);
    let len = message.len() as int;
    lemma_shamir_share_len(k, secret, xs, key_shares);
    lemma_pad_len(message, BLOCK_SIZE as int);
    lemma_encrypt_len(key, iv, padded);
    assert(cipher.len() == (len / 16 + 1) * 16) by {
        vstd::arithmetic::div_mod::lemma_fundamental_div_mod(len, 16);
    }
    assert forall|j: int| 0 <= j < xs.len() implies (#[trigger] shares[j]).len() == SECRET_SIZE
        + (message.len() / 16 + 1) * 16 / (k as nat) + 1 by {
        lemma_ida_share_len(cipher, k, xs[j]);
        assert(shares[j] == key_shares[j] + ida_shares(pad(cipher, k), k, xs)[j]);
    }
}

/// The hybrid scheme with a threshold.
pub struct ShamirIda {
    shamir: Shamir,
    ida: Ida,
}

impl ShamirIda {
    /// The scheme in which `k` shares recover the data.
    pub fn new(k: u8) -> (r: Self)
        requires
            k > 1,
        ensures
            r.wf(),
            r.threshold() == k,
    {
        ShamirIda { shamir: Shamir::new(k), ida: Ida::new(k) }
    }

    /// The number of shares that recover the data.
    pub fn k(&self) -> (k: u8)
        ensures
            k == self.threshold(),
    {
        self.shamir.k()
    }

    /// Reads from each of `inputs` its share of the key and the
    /// initialisation vector, and joins them.
    fn recover_secret<R: Read>(&self, inputs: &mut Vec<InputPartition<R>>) -> (r: Result<
        Vec<u8>,
        StreamError,
    >)
        requires
            self.wf(),
            self.threshold() == old(inputs)@.len(),
            valid_indices(input_xs(old(inputs)@)),
            inputs_wf(old(inputs)@),
        ensures
            inputs_wf(final(inputs)@),
            final(inputs)@.len() == old(inputs)@.len(),
            input_xs(final(inputs)@) == input_xs(old(inputs)@),
            ({
                let xs = input_xs(old(inputs)@);
                let shares = input_remaining(old(inputs)@);
                let reach = shortest(shares, SECRET_SIZE as int, xs.len() as int);
                &&& inputs_reliable(old(inputs)@) ==> (r is Ok <==> reach == SECRET_SIZE)
                &&& inputs_reliable(old(inputs)@) && r is Err ==> r == Err::<
                    Vec<u8>,
                    StreamError,
                >(StreamError::InvalidData)
                &&& r matches Ok(secret) ==> {
                    &&& reach == SECRET_SIZE
                    &&& secret@ == shamir_combine(xs, shares, SECRET_SIZE as int)
                    &&& inputs_reliable(final(inputs)@) == inputs_reliable(old(inputs)@)
                    &&& input_remaining(final(inputs)@) == cipher_shares(shares)
                }
            }),
    {
        let ghost shares = input_remaining(inputs@);
        let ghost xs = input_xs(inputs@);
        let empty: Vec<u8> = Vec::new();
        let secret = match self.shamir.join_up_to(inputs, empty, Some(SECRET_SIZE)) {
            Err(e) => {
                return Err(e);
            },
            Ok(secret) => secret,
        };
        proof {
            lemma_shortest_bound(shares, SECRET_SIZE as int, xs.len() as int);
            assert(secret@ =~= shamir_combine(
                xs,
                shares,
                shortest(shares, SECRET_SIZE as int, xs.len() as int),
            ));
        }
        if secret.len() != SECRET_SIZE {
            return Err(StreamError::InvalidData);
        }
        proof {
            assert(input_remaining(inputs@) =~= cipher_shares(shares));
        }
        Ok(secret)
    }
}

impl Partitioner for ShamirIda {
    closed spec fn wf(&self) -> bool {
        &&& self.shamir.wf()
        &&& self.ida.wf()
        &&& self.ida.threshold() == self.shamir.threshold()
    }

    closed spec fn threshold(&self) -> int {
        self.shamir.threshold()
    }

    open spec fn is_sharing(&self, message: Seq<u8>, xs: Seq<u8>, shares: Seq<Seq<u8>>) -> bool {
        is_hybrid_sharing(self.threshold(), message, xs, shares)
    }

    open spec fn joined(&self, xs: Seq<u8>, shares: Seq<Seq<u8>>) -> Option<Seq<u8>> {
        hybrid_join(xs, shares)
    }

    fn threshold_value(&self) -> (k: u8) {
        self.shamir.k()
    }

    open spec fn draws_random(&self, len: nat) -> bool {
        true
    }

    open spec fn premises(&self) -> bool {
        forall|key: Seq<u8>| key.len() == KEY_SIZE ==> #[trigger] block_cipher_inverts(key)
    }

    proof fn lemma_round_trip(&self, message: Seq<u8>, xs: Seq<u8>, shares: Seq<Seq<u8>>) {
        self.shamir.lemma_threshold();
        lemma_hybrid_round_trip(self.threshold(), message, xs, shares);
    }

    proof fn lemma_choice(
        &self,
        message: Seq<u8>,
        xs: Seq<u8>,
        shares: Seq<Seq<u8>>,
        picks: Seq<int>,
    ) {
        lemma_chosen_valid(xs, picks);
        lemma_hybrid_choice(self.threshold(), message, xs, shares, picks);
    }

    proof fn lemma_threshold(&self) {
        self.shamir.lemma_threshold();
    }

    /// Writes to each of `outputs` its share of a fresh key and
    /// initialisation vector, and then its share of the ciphertext of all that
    /// `input` delivers.
    ///
    /// The call fails with `Io` where the random generator does.
    fn split<R: Read, W: Write>(&self, input: R, outputs: &mut Vec<OutputPartition<W>>) -> (r:
        Result<(), StreamError>)
    {
        let secret = match random_bytes(SECRET_SIZE) {
            Err(e) => {
                return Err(e);
            },
            Ok(secret) => secret,
        };
        let key = copy_range(secret.as_slice(), 0, KEY_SIZE);
        let iv = copy_range(secret.as_slice(), KEY_SIZE, SECRET_SIZE);
        let ghost secret_bytes = secret@;
        let stream = EncryptReadStream::new(key, iv, input);
        match self.shamir.split(MemoryReader::new(secret), outputs) {
            Err(e) => {
                return Err(e);
            },
            Ok(()) => {},
        }
        let ghost middle = outputs@;
        match self.ida.split(stream, outputs) {
            Err(e) => {
                return Err(e);
            },
            Ok(()) => {},
        }
        proof {
            let before = old(outputs)@;
            let after = outputs@;
            let xs = output_xs(before);
            let k = self.threshold();
            let key_shares = appended(before, middle);
            let parts = appended(before, after);
            let cipher = encrypted(
                secret_bytes.take(KEY_SIZE as int),
                secret_bytes.skip(KEY_SIZE as int),
                input.remaining(),
            );
            assert(key@ =~= secret_bytes.take(KEY_SIZE as int));
            assert(iv@ =~= secret_bytes.skip(KEY_SIZE as int));
            let tails = ida_shares(pad(cipher, k), k, xs);
            assert(appended(middle, after) == tails);
            assert forall|j: int| 0 <= j < xs.len() implies #[trigger] parts[j] == key_shares[j]
                + tails[j] && after[j].writer.written() == before[j].writer.written()
                + parts[j] by {
                let base = before[j].writer.written();
                assert(middle[j].writer.written() == base + key_shares[j]);
                assert(after[j].writer.written() == middle[j].writer.written() + appended(
                    middle,
                    after,
                )[j]);
                assert((base + key_shares[j] + tails[j]).skip(base.len() as int)
                    =~= key_shares[j] + tails[j]);
                assert(base + key_shares[j] + tails[j] =~= base + (key_shares[j] + tails[j]));
            }
            assert(is_hybrid_sharing_with(
                k,
                input.remaining(),
                xs,
                parts,
                secret_bytes,
                key_shares,
            ));
        }
        Ok(())
    }


    /// Writes to `output` the data whose shares `inputs` deliver. Returns
    /// `output`.
    ///
    /// Fails with `InvalidData` where a share is too short to hold its share
    /// of the key, where the ciphertext that the shares give is not a whole
    /// number of blocks, and where it or the plaintext does not end in a
    /// well-formed padding.
    fn join<R: Read, W: Write>(&self, inputs: &mut Vec<InputPartition<R>>, output: W) -> (r:
        Result<W, StreamError>) {
        let ghost shares = input_remaining(inputs@);
        let ghost xs = input_xs(inputs@);
        let ghost k = self.threshold();
        proof {
            self.shamir.lemma_threshold();
            lemma_shortest_bound(shares, SECRET_SIZE as int, xs.len() as int);
            assert forall|message: Seq<u8>| #[trigger]
                is_hybrid_sharing(k, message, xs, shares) implies shortest(
                shares,
                SECRET_SIZE as int,
                k,
            ) == SECRET_SIZE && ida_join(xs, cipher_shares(shares)) is Some by {
                lemma_hybrid_parts(k, message, xs, shares);
            }
        }
        let secret = match self.recover_secret(inputs) {
            Err(e) => {
                return Err(e);
            },
            Ok(secret) => secret,
        };
        let key = copy_range(secret.as_slice(), 0, KEY_SIZE);
        let iv = copy_range(secret.as_slice(), KEY_SIZE, SECRET_SIZE);
        let stream = DecryptWriteStream::new(key, iv, output);
        proof {
            assert(key@ =~= secret@.take(KEY_SIZE as int));
            assert(iv@ =~= secret@.skip(KEY_SIZE as int));
            stream.lemma_view();
        }
        let mut filled = match self.ida.join(inputs, stream) {
            Err(e) => {
                return Err(e);
            },
            Ok(filled) => filled,
        };
        proof {
            filled.lemma_view();
            filled.lemma_follows(stream);
            let cipher = ida_join(xs, cipher_shares(shares)).unwrap();
            assert((filled.base() + filled.accepted()).skip(filled.base().len() as int)
                =~= filled.accepted());
            assert((stream.written() + cipher).skip(filled.base().len() as int) =~= cipher);
            assert(filled.accepted() == cipher);
            assert forall|message: Seq<u8>| #[trigger]
                is_hybrid_sharing(k, message, xs, shares) implies hybrid_join(xs, shares)
                == Some(message) by {
                lemma_hybrid_parts(k, message, xs, shares);
                filled.lemma_undoes();
                lemma_hybrid_round_trip_of(k, message, xs, shares);
            }
        }
        let ghost before = filled;
        match filled.flush() {
            Err(e) => Err(e),
            Ok(()) => {
                proof {
                    filled.inner().lemma_follows_chain(&before.inner(), &output);
                }
                Ok(filled.into_inner())
            },
        }
    }
}

} // verus!
