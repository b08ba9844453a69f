//! Share files: the header of two bytes, then the share of the hybrid
//! scheme, which is the share of the key and the initialisation vector and
//! then the share of the ciphertext.

use crate::aes_cbc::{block_cipher_inverts, KEY_SIZE};
use crate::error::StreamError;
use crate::header::{
    agreed_threshold, header_bytes, joinable, read_share_header, write_share_header, ShareHeader,
};
use crate::io::{Read, Write};
use crate::partitioner::{
    appended, extends, input_remaining, input_xs, inputs_reliable, inputs_wf, output_xs,
    outputs_reliable, outputs_wf, valid_indices, InputPartition, OutputPartition, Partitioner,
};
use crate::shamir_ida::{hybrid_join, is_hybrid_sharing, lemma_hybrid_round_trip, ShamirIda};
use vstd::prelude::*;

verus! {

/// Whether `files` are, for each index of `xs`, the header for the threshold
/// `k` and the index, and then the share `shares[j]` of `message`.
pub open spec fn is_share_files_with(
    k: u8,
    message: Seq<u8>,
    xs: Seq<u8>,
    files: Seq<Seq<u8>>,
    shares: Seq<Seq<u8>>,
) -> bool {
    &&& is_hybrid_sharing(k as int, message, xs, shares)
    &&& shares.len() == xs.len()
    &&& files.len() == xs.len()
    &&& forall|j: int|
        0 <= j < xs.len() ==> #[trigger] files[j] == header_bytes(ShareHeader { k, x: xs[j] })
            + shares[j]
}

/// Whether `files` can be the share files that splitting `message` with the
/// threshold `k` gives to the indices `xs`.
pub open spec fn is_share_files(k: u8, message: Seq<u8>, xs: Seq<u8>, files: Seq<Seq<u8>>) -> bool {
    exists|shares: Seq<Seq<u8>>| #[trigger] is_share_files_with(k, message, xs, files, shares)
}

/// The headers at the front of `files`.
pub open spec fn headers_of(files: Seq<Seq<u8>>) -> Seq<ShareHeader> {
    Seq::new(files.len(), |j: int| ShareHeader { k: files[j][0], x: files[j][1] })
}

/// The indices that `headers` give.
pub open spec fn header_xs(headers: Seq<ShareHeader>) -> Seq<u8> {
    Seq::new(headers.len(), |j: int| headers[j].x)
}

/// What follows the headers in `files`.
pub open spec fn bodies_of(files: Seq<Seq<u8>>) -> Seq<Seq<u8>> {
    Seq::new(files.len(), |j: int| files[j].skip(2))
}

/// Whether every one of the first `n` of `files` holds a header.
pub open spec fn have_headers(files: Seq<Seq<u8>>, n: int) -> bool {
    forall|j: int| 0 <= j < n ==> (#[trigger] files[j]).len() >= 2
}

/// What joining the share files `files` gives: the message that they hold
/// shares of; `InvalidData` where a file is too short for its header or the
/// shares cannot be joined; `InvalidInput` where the headers do not agree on
/// a threshold that is the number of the files, or on indices that are
/// nonzero and differ.
pub open spec fn joined_files(files: Seq<Seq<u8>>) -> Result<Seq<u8>, StreamError> {
    if !have_headers(files, files.len() as int) {
        Err(StreamError::InvalidData)
    } else if !joinable(headers_of(files), files.len() as int) {
        Err(StreamError::InvalidInput)
    } else {
        match hybrid_join(header_xs(headers_of(files)), bodies_of(files)) {
            Some(message) => Ok(message),
            None => Err(StreamError::InvalidData),
        }
    }
}

/// Writes to each of `outputs` the header of its share.
pub fn write_share_headers<W: Write>(k: u8, outputs: &mut Vec<OutputPartition<W>>) -> (r: Result<
    (),
    StreamError,
>)
    requires
        outputs_wf(old(outputs)@),
    ensures
        outputs_wf(final(outputs)@),
        final(outputs)@.len() == old(outputs)@.len(),
        output_xs(final(outputs)@) == output_xs(old(outputs)@),
        outputs_reliable(old(outputs)@) ==> r is Ok,
        r is Ok ==> {
            &&& outputs_reliable(final(outputs)@) == outputs_reliable(old(outputs)@)
            &&& forall|j: int|
                0 <= j < old(outputs)@.len() ==> (#[trigger] final(outputs)@[j]).writer.written()
                    == old(outputs)@[j].writer.written() + header_bytes(
                    ShareHeader { k, x: old(outputs)@[j].x },
                )
        },
{
    let n = outputs.len();
    let mut j: usize = 0;
    while j < n
        invariant
            j <= n,
            n == outputs@.len(),
            n == old(outputs)@.len(),
            outputs_wf(outputs@),
            output_xs(outputs@) == output_xs(old(outputs)@),
            outputs_reliable(outputs@) == outputs_reliable(old(outputs)@),
            forall|i: int|
                0 <= i < j ==> (#[trigger] outputs@[i]).writer.written()
                    == old(outputs)@[i].writer.written() + header_bytes(
                    ShareHeader { k, x: old(outputs)@[i].x },
                ),
            forall|i: int| j <= i < n ==> (#[trigger] outputs@[i]) == old(outputs)@[i],
        decreases n - j,
    {
        let ghost before = outputs@;
        let share_header = ShareHeader { k, x: outputs[j].x };
        let done = write_share_header(&mut outputs[j].writer, &share_header);
        proof {
            assert(forall|i: int| 0 <= i < n && i != j ==> outputs@[i] == before[i]);
            assert(outputs@[j as int].x == before[j as int].x);
            assert(output_xs(outputs@) =~= output_xs(before));
        }
        match done {
            Err(e) => {
                assert(!outputs_reliable(old(outputs)@)) by {
                    assert(!before[j as int].writer.reliable());
                }
                return Err(e);
            },
            Ok(()) => {
                proof {
                    if outputs_reliable(before) {
                        assert forall|i: int| 0 <= i < n implies (
                        #[trigger] outputs@[i]).writer.reliable() by {
                            if i != j {
                                assert(before[i].writer.reliable());
                            } else {
                                assert(before[j as int].writer.reliable());
                            }
                        }
                    } else {
                        let bad = choose|i: int|
                            0 <= i < n && !(#[trigger] before[i]).writer.reliable();
                        assert(!outputs@[bad].writer.reliable());
                    }
                }
            },
        }
        j += 1;
    }
    Ok(())
}

/// Reads from each of `inputs` the header of its share and takes the index
/// of the share from it. Returns the threshold on which the headers agree.
///
/// Fails with `InvalidData` where a source ends before its header does, and
/// with `InvalidInput` where the headers do not agree on a threshold that is
/// the number of the sources, or on indices that are nonzero and differ.
pub fn read_share_headers<R: Read>(inputs: &mut Vec<InputPartition<R>>) -> (r: Result<
    u8,
    StreamError,
>)
    requires
        inputs_wf(old(inputs)@),
    ensures
        inputs_wf(final(inputs)@),
        final(inputs)@.len() == old(inputs)@.len(),
        ({
            let files = input_remaining(old(inputs)@);
            let n = files.len() as int;
            &&& inputs_reliable(old(inputs)@) ==> (r is Ok <==> have_headers(files, n)
                && joinable(headers_of(files), n))
            &&& inputs_reliable(old(inputs)@) && r is Err ==> r == Err::<u8, StreamError>(
                if have_headers(files, n) {
                    StreamError::InvalidInput
                } else {
                    StreamError::InvalidData
                },
            )
            &&& r matches Ok(k) ==> {
                &&& k == n
                &&& have_headers(files, n)
                &&& joinable(headers_of(files), n)
                &&& input_xs(final(inputs)@) == header_xs(headers_of(files))
                &&& input_remaining(final(inputs)@) == bodies_of(files)
                &&& inputs_reliable(final(inputs)@) == inputs_reliable(old(inputs)@)
            }
        }),
{
    let n = inputs.len();
    let ghost files = input_remaining(inputs@);
    let mut headers: Vec<ShareHeader> = Vec::new();
    let mut j: usize = 0;
    while j < n
        invariant
            j <= n,
            n == inputs@.len(),
            n == old(inputs)@.len(),
            files == input_remaining(old(inputs)@),
            inputs_wf(inputs@),
            inputs_reliable(inputs@) == inputs_reliable(old(inputs)@),
            headers@.len() == j,
            have_headers(files, j as int),
            forall|i: int| 0 <= i < j ==> #[trigger] headers@[i] == headers_of(files)[i],
            forall|i: int| 0 <= i < j ==> (#[trigger] inputs@[i]).x == headers_of(files)[i].x,
            forall|i: int|
                0 <= i < j ==> (#[trigger] inputs@[i]).reader.remaining() == files[i].skip(2),
            forall|i: int| j <= i < n ==> (#[trigger] inputs@[i]) == old(inputs)@[i],
        decreases n - j,
    {
        let ghost before = inputs@;
        let got = read_share_header(&mut inputs[j].reader);
        proof {
            assert(forall|i: int| 0 <= i < n && i != j ==> inputs@[i] == before[i]);
            assert(before[j as int] == old(inputs)@[j as int]);
            assert(files[j as int] == before[j as int].reader.remaining());
        }
        match got {
            Err(e) => {
                proof {
                    if inputs_reliable(old(inputs)@) {
                        assert(before[j as int].reader.reliable());
                        assert(files[j as int].len() < 2);
                        assert(!have_headers(files, n as int));
                    }
                }
                return Err(e);
            },
            Ok(share_header) => {
                let ghost middle = inputs@;
                inputs[j].x = share_header.x;
                headers.push(share_header);
                proof {
                    assert(forall|i: int| 0 <= i < n && i != j ==> inputs@[i] == middle[i]);
                    assert(inputs@[j as int].reader == middle[j as int].reader);
                    assert(header_bytes(share_header)[0] == share_header.k);
                    assert(header_bytes(share_header)[1] == share_header.x);
                    assert(files[j as int].take(2)[0] == files[j as int][0]);
                    assert(files[j as int].take(2)[1] == files[j as int][1]);
                    if inputs_reliable(before) {
                        assert forall|i: int| 0 <= i < n implies (
                        #[trigger] inputs@[i]).reader.reliable() by {
                            if i != j {
                                assert(before[i].reader.reliable());
                            } else {
                                assert(before[j as int].reader.reliable());
                            }
                        }
                    } else {
                        let bad = choose|i: int|
                            0 <= i < n && !(#[trigger] before[i]).reader.reliable();
                        assert(!inputs@[bad].reader.reliable());
                    }
                }
            },
        }
        j += 1;
    }
    proof {
        assert(headers@ =~= headers_of(files));
        assert(input_xs(inputs@) =~= header_xs(headers_of(files)));
        assert(input_remaining(inputs@) =~= bodies_of(files));
    }
    match agreed_threshold(headers.as_slice()) {
        None => Err(StreamError::InvalidInput),
        Some(k) => {
            if k as usize != n {
                proof {
                    if joinable(headers@, n as int) {
                        assert(headers@[0].k == n);
                    }
                }
                Err(StreamError::InvalidInput)
            } else {
                Ok(k)
            }
        },
    }
}

/// Writes to each of `outputs` the share file of all that `input` delivers:
/// the header, then the share of the hybrid scheme with the threshold `k`.
///
/// The call fails with `Io` where the random generator does.
pub fn split_shares<R: Read, W: Write>(
    k: u8,
    input: R,
    outputs: &mut Vec<OutputPartition<W>>,
) -> (r: Result<(), StreamError>)
    requires
        2 <= k <= old(outputs)@.len() <= 255,
        valid_indices(output_xs(old(outputs)@)),
        input.wf(),
        outputs_wf(old(outputs)@),
    ensures
        outputs_wf(final(outputs)@),
        final(outputs)@.len() == old(outputs)@.len(),
        output_xs(final(outputs)@) == output_xs(old(outputs)@),
        r is Ok ==> {
            &&& extends(old(outputs)@, final(outputs)@)
            &&& is_share_files(
                k,
                input.remaining(),
                output_xs(old(outputs)@),
                appended(old(outputs)@, final(outputs)@),
            )
            &&& outputs_reliable(final(outputs)@) == outputs_reliable(old(outputs)@)
        },
        r matches Err(e) ==> e == StreamError::Io || !input.reliable() || !outputs_reliable(
            old(outputs)@,
        ),
{
    match write_share_headers(k, outputs) {
        Err(e) => {
            return Err(e);
        },
        Ok(()) => {},
    }
    let ghost middle = outputs@;
    let scheme = ShamirIda::new(k);
    match scheme.split(input, outputs) {
        Err(e) => {
            return Err(e);
        },
        Ok(()) => {},
    }
    proof {
        let before = old(outputs)@;
        let after = outputs@;
        let xs = output_xs(before);
        let shares = appended(middle, after);
        let files = appended(before, after);
        assert forall|j: int| 0 <= j < xs.len() implies #[trigger] files[j] == header_bytes(
            ShareHeader { k, x: xs[j] },
        ) + shares[j] && after[j].writer.written() == before[j].writer.written()
            + files[j] by {
            let base = before[j].writer.written();
            let front = header_bytes(ShareHeader { k, x: xs[j] });
            assert(middle[j].writer.written() == base + front);
            assert(after[j].writer.written() == middle[j].writer.written() + shares[j]);
            assert((base + front + shares[j]).skip(base.len() as int) =~= front + shares[j]);
            assert(base + front + shares[j] =~= base + (front + shares[j]));
        }
        assert(is_share_files_with(k, input.remaining(), xs, files, shares));
    }
    Ok(())
}

/// Writes to `output` the data whose share files `inputs` deliver, and
/// returns `output`. The indices that `inputs` come with do not count: those
/// of the headers take their place.
pub fn join_shares<R: Read, W: Write>(inputs: &mut Vec<InputPartition<R>>, output: W) -> (r: Result<
    W,
    StreamError,
>)
    requires
        inputs_wf(old(inputs)@),
        output.wf(),
    ensures
        inputs_wf(final(inputs)@),
        final(inputs)@.len() == old(inputs)@.len(),
        ({
            let joined = joined_files(input_remaining(old(inputs)@));
            &&& inputs_reliable(old(inputs)@) && output.reliable() ==> match joined {
                Ok(message) => r is Ok,
                Err(e) => r == Err::<W, StreamError>(e),
            }
            &&& r matches Ok(w) ==> {
                &&& joined == Ok::<Seq<u8>, StreamError>(w.written().skip(
                    output.written().len() as int,
                ))
                &&& w.wf()
                &&& w.reliable() == output.reliable()
                &&& w.follows(&output)
                &&& w.written() == output.written() + joined->Ok_0
            }
        }),
        inputs_reliable(old(inputs)@) && output.reliable() ==> forall|
            k: u8,
            message: Seq<u8>,
            xs: Seq<u8>,
        | #[trigger]
            is_share_files(k, message, xs, input_remaining(old(inputs)@)) && 2 <= k == xs.len()
                && valid_indices(xs) ==> r is Ok && joined_files(input_remaining(old(inputs)@))
                == Ok::<Seq<u8>, StreamError>(message),
{
    let ghost files = input_remaining(inputs@);
    proof {
        assert forall|k: u8, message: Seq<u8>, xs: Seq<u8>| #[trigger]
            is_share_files(k, message, xs, files) && 2 <= k == xs.len() && valid_indices(
                xs,
            ) implies have_headers(files, files.len() as int) && joinable(
            headers_of(files),
            files.len() as int,
        ) && header_xs(headers_of(files)) == xs && is_hybrid_sharing(
            k as int,
            message,
            xs,
            bodies_of(files),
        ) by {
            lemma_share_files_parts(k, message, xs, files);
        }
    }
    let k = match read_share_headers(inputs) {
        Err(e) => {
            return Err(e);
        },
        Ok(k) => k,
    };
    let scheme = ShamirIda::new(k);
    let ghost shares = input_remaining(inputs@);
    let ghost indices = input_xs(inputs@);
    let r = scheme.join(inputs, output);
    proof {
        assert forall|k: u8, message: Seq<u8>, xs: Seq<u8>| #[trigger]
            is_share_files(k, message, xs, files) && 2 <= k == xs.len() && valid_indices(
                xs,
            ) implies scheme.is_sharing(message, indices, shares) by {
            lemma_share_files_parts(k, message, xs, files);
        }
        if r is Ok {
            let message = joined_files(files)->Ok_0;
            assert((output.written() + message).skip(output.written().len() as int) =~= message);
        }
    }
    r
}

/// What the share files of a message hold: headers that can be joined, and
/// after them the shares of the message.
pub proof fn lemma_share_files_parts(k: u8, message: Seq<u8>, xs: Seq<u8>, files: Seq<Seq<u8>>)
    requires
        2 <= k,
        xs.len() == k,
        valid_indices(xs),
        is_share_files(k, message, xs, files),
    ensures
        files.len() == k,
        have_headers(files, files.len() as int),
        joinable(headers_of(files), files.len() as int),
        header_xs(headers_of(files)) == xs,
        is_hybrid_sharing(k as int, message, xs, bodies_of(files)),
{
    let shares = choose|shares: Seq<Seq<u8>>| #[trigger]
        is_share_files_with(k, message, xs, files, shares);
    let headers = headers_of(files);
    assert forall|j: int| 0 <= j < k implies (#[trigger] files[j]).len() >= 2 && headers[j]
        == (ShareHeader { k, x: xs[j] }) && files[j].skip(2) == shares[j] by {
        let front = header_bytes(ShareHeader { k, x: xs[j] });
        assert(files[j] == front + shares[j]);
        assert((front + shares[j]).skip(2) =~= shares[j]);
        assert((front + shares[j])[0] == front[0]);
        assert((front + shares[j])[1] == front[1]);
    }
    assert(header_xs(headers) =~= xs);
    assert(Seq::new(k as nat, |j: int| headers[j].x) =~= xs);
    assert(bodies_of(files) =~= shares);
}

/// Joining undoes splitting, where the block cipher can be undone: the share
/// files of a message for as many different indices as the threshold join to
/// the message.
pub proof fn lemma_share_files_round_trip(
    k: u8,
    message: Seq<u8>,
    xs: Seq<u8>,
    files: Seq<Seq<u8>>,
)
    requires
        2 <= k,
        xs.len() == k,
        valid_indices(xs),
        is_share_files(k, message, xs, files),
        forall|key: Seq<u8>| key.len() == KEY_SIZE ==> #[trigger] block_cipher_inverts(key),
    ensures
        joined_files(files) == Ok::<Seq<u8>, StreamError>(message),
{
    lemma_share_files_parts(k, message, xs, files);
    lemma_hybrid_round_trip(k as int, message, xs, bodies_of(files));
}

} // verus!
