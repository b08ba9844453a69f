//! What the sharing schemes have in common: the streams of one share, and
//! the interface of a scheme.

use crate::error::StreamError;
use crate::io::{MemoryReader, Read, Write};
use crate::utils::{copy_range, read_full};
use vstd::prelude::*;

verus! {

/// One share held in memory.
pub struct InMemoryPartition {
    /// The index of the share.
    pub x: u8,
    /// The bytes of the share.
    pub value: Vec<u8>,
}

/// The source of one share during joining.
pub struct InputPartition<R: Read> {
    /// The index of the share.
    pub x: u8,
    /// Where the bytes of the share come from.
    pub reader: R,
}

/// The sink of one share during splitting.
pub struct OutputPartition<W: Write> {
    /// The index of the share.
    pub x: u8,
    /// Where the bytes of the share go.
    pub writer: W,
}

/// Whether `xs` can be the indices of shares: none is zero, none occurs
/// twice.
pub open spec fn valid_indices(xs: Seq<u8>) -> bool {
    &&& xs.no_duplicates()
    &&& forall|j: int| 0 <= j < xs.len() ==> xs[j] != 0
}

/// The indices of the shares that `outputs` take.
pub open spec fn output_xs<W: Write>(outputs: Seq<OutputPartition<W>>) -> Seq<u8> {
    Seq::new(outputs.len(), |j: int| outputs[j].x)
}

/// The indices of the shares that `inputs` deliver.
pub open spec fn input_xs<R: Read>(inputs: Seq<InputPartition<R>>) -> Seq<u8> {
    Seq::new(inputs.len(), |j: int| inputs[j].x)
}

/// What each of `inputs` has yet to deliver.
pub open spec fn input_remaining<R: Read>(inputs: Seq<InputPartition<R>>) -> Seq<Seq<u8>> {
    Seq::new(inputs.len(), |j: int| inputs[j].reader.remaining())
}

/// What each of `after` has taken since it was as in `before`.
pub open spec fn appended<W: Write>(
    before: Seq<OutputPartition<W>>,
    after: Seq<OutputPartition<W>>,
) -> Seq<Seq<u8>> {
    Seq::new(
        before.len(),
        |j: int| after[j].writer.written().skip(before[j].writer.written().len() as int),
    )
}

/// Whether each of `after` has what it had in `before`, and then more.
pub open spec fn extends<W: Write>(
    before: Seq<OutputPartition<W>>,
    after: Seq<OutputPartition<W>>,
) -> bool {
    &&& after.len() == before.len()
    &&& output_xs(after) == output_xs(before)
    &&& forall|j: int|
        0 <= j < before.len() ==> (#[trigger] after[j]).writer.written()
            == before[j].writer.written() + appended(before, after)[j]
}

/// Whether every one of `outputs` is well formed.
pub open spec fn outputs_wf<W: Write>(outputs: Seq<OutputPartition<W>>) -> bool {
    forall|j: int| 0 <= j < outputs.len() ==> (#[trigger] outputs[j]).writer.wf()
}

/// Whether no write to any of `outputs` fails.
pub open spec fn outputs_reliable<W: Write>(outputs: Seq<OutputPartition<W>>) -> bool {
    forall|j: int| 0 <= j < outputs.len() ==> (#[trigger] outputs[j]).writer.reliable()
}

/// Whether every one of `inputs` is well formed.
pub open spec fn inputs_wf<R: Read>(inputs: Seq<InputPartition<R>>) -> bool {
    forall|j: int| 0 <= j < inputs.len() ==> (#[trigger] inputs[j]).reader.wf()
}

/// Whether no read from any of `inputs` fails.
pub open spec fn inputs_reliable<R: Read>(inputs: Seq<InputPartition<R>>) -> bool {
    forall|j: int| 0 <= j < inputs.len() ==> (#[trigger] inputs[j]).reader.reliable()
}

/// Whether `xs` can be the indices of shares.
pub fn indices_are_valid(xs: &[u8]) -> (r: bool)
    ensures
        r == valid_indices(xs@),
{
    let n = xs.len();
    let mut j: usize = 0;
    while j < n
        invariant
            j <= n,
            n == xs@.len(),
            forall|i: int| 0 <= i < j ==> xs@[i] != 0,
            forall|a: int, b: int| 0 <= a < b < j ==> xs@[a] != xs@[b],
        decreases n - j,
    {
        if xs[j] == 0 {
            return false;
        }
        let mut i: usize = 0;
        while i < j
            invariant
                i <= j,
                j < n,
                n == xs@.len(),
                forall|a: int| 0 <= a < i ==> xs@[a] != xs@[j as int],
            decreases j - i,
        {
            if xs[i] == xs[j] {
                assert(!xs@.no_duplicates());
                return false;
            }
            i += 1;
        }
        j += 1;
    }
    proof {
        assert forall|a: int, b: int| 0 <= a < n && 0 <= b < n && a != b implies xs@[a]
            != xs@[b] by {
            if a < b {
                assert(xs@[a] != xs@[b]);
            } else {
                assert(xs@[b] != xs@[a]);
            }
        }
    }
    true
}

/// The indices of `outputs`, in order.
pub fn collect_output_xs<W: Write>(outputs: &Vec<OutputPartition<W>>) -> (xs: Vec<u8>)
    ensures
        xs@ == output_xs(outputs@),
{
    let mut xs: Vec<u8> = Vec::new();
    let mut j: usize = 0;
    while j < outputs.len()
        invariant
            j <= outputs@.len(),
            xs@.len() == j,
            forall|i: int| 0 <= i < j ==> xs@[i] == outputs@[i].x,
        decreases outputs@.len() - j,
    {
        xs.push(outputs[j].x);
        j += 1;
    }
    assert(xs@ =~= output_xs(outputs@));
    xs
}

/// The indices of `inputs`, in order.
pub fn collect_input_xs<R: Read>(inputs: &Vec<InputPartition<R>>) -> (xs: Vec<u8>)
    ensures
        xs@ == input_xs(inputs@),
{
    let mut xs: Vec<u8> = Vec::new();
    let mut j: usize = 0;
    while j < inputs.len()
        invariant
            j <= inputs@.len(),
            xs@.len() == j,
            forall|i: int| 0 <= i < j ==> xs@[i] == inputs@[i].x,
        decreases inputs@.len() - j,
    {
        xs.push(inputs[j].x);
        j += 1;
    }
    assert(xs@ =~= input_xs(inputs@));
    xs
}

/// Appends to each of `outputs` the chunk of its share.
pub fn write_chunks<W: Write>(outputs: &mut Vec<OutputPartition<W>>, chunks: &Vec<Vec<u8>>) -> (r:
    Result<(), StreamError>)
    requires
        outputs_wf(old(outputs)@),
        chunks@.len() == old(outputs)@.len(),
    ensures
        outputs_wf(final(outputs)@),
        final(outputs)@.len() == old(outputs)@.len(),
        output_xs(final(outputs)@) == output_xs(old(outputs)@),
        outputs_reliable(old(outputs)@) ==> r is Ok,
        r is Ok ==> {
            &&& outputs_reliable(final(outputs)@) == outputs_reliable(old(outputs)@)
            &&& forall|j: int|
                0 <= j < old(outputs)@.len() ==> (#[trigger] final(outputs)@[j]).writer.written()
                    == old(outputs)@[j].writer.written() + chunks@[j]@
        },
{
    let n = outputs.len();
    let mut j: usize = 0;
    while j < n
        invariant
            j <= n,
            n == outputs@.len(),
            n == old(outputs)@.len(),
            chunks@.len() == n,
            outputs_wf(outputs@),
            output_xs(outputs@) == output_xs(old(outputs)@),
            outputs_reliable(outputs@) == outputs_reliable(old(outputs)@),
            forall|i: int|
                0 <= i < j ==> (#[trigger] outputs@[i]).writer.written()
                    == old(outputs)@[i].writer.written() + chunks@[i]@,
            forall|i: int| j <= i < n ==> (#[trigger] outputs@[i]) == old(outputs)@[i],
        decreases n - j,
    {
        let ghost before = outputs@;
        let done = outputs[j].writer.write_all(chunks[j].as_slice());
        proof {
            assert(forall|i: int| 0 <= i < n && i != j ==> outputs@[i] == before[i]);
            assert(outputs@[j as int].x == before[j as int].x);
            assert(output_xs(outputs@) =~= output_xs(before));
        }
        match done {
            Err(e) => {
                assert(!outputs_reliable(old(outputs)@)) by {
                    assert(!before[j as int].writer.reliable());
                }
                return Err(e);
            },
            Ok(()) => {
                proof {
                    if outputs_reliable(before) {
                        assert forall|i: int| 0 <= i < n implies (
                        #[trigger] outputs@[i]).writer.reliable() by {
                            if i != j {
                                assert(before[i].writer.reliable());
                            } else {
                                assert(before[j as int].writer.reliable());
                            }
                        }
                    } else {
                        let bad = choose|i: int|
                            0 <= i < n && !(#[trigger] before[i]).writer.reliable();
                        assert(!outputs@[bad].writer.reliable());
                    }
                }
            },
        }
        j += 1;
    }
    Ok(())
}

/// The byte sequences of a vector of vectors.
pub open spec fn rows(v: Seq<Vec<u8>>) -> Seq<Seq<u8>> {
    Seq::new(v.len(), |i: int| v[i]@)
}

/// The length of the shortest of the first `n` of `shares`, and at most
/// `limit`.
pub open spec fn shortest(shares: Seq<Seq<u8>>, limit: int, n: int) -> int
    decreases n,
{
    if n <= 0 {
        limit
    } else {
        let rest = shortest(shares, limit, n - 1);
        if shares[n - 1].len() < rest {
            shares[n - 1].len() as int
        } else {
            rest
        }
    }
}

/// The number of bytes that joining `shares` gives: the length of the
/// shortest of them, and no more than the limit where there is one.
pub open spec fn join_len(shares: Seq<Seq<u8>>, limit: Option<usize>) -> int {
    match limit {
        Some(l) => shortest(shares, l as int, shares.len() as int),
        None => shortest(shares, shares[0].len() as int, shares.len() as int),
    }
}

/// The shortest length is a lower bound, and one of the lengths or the limit.
pub proof fn lemma_shortest_bound(shares: Seq<Seq<u8>>, limit: int, n: int)
    requires
        0 <= n <= shares.len(),
        0 <= limit,
    ensures
        0 <= shortest(shares, limit, n) <= limit,
        forall|j: int| 0 <= j < n ==> shortest(shares, limit, n) <= (#[trigger] shares[j]).len(),
        shortest(shares, limit, n) == limit || exists|j: int|
            0 <= j < n && shortest(shares, limit, n) == (#[trigger] shares[j]).len(),
    decreases n,
{
    if n > 0 {
        lemma_shortest_bound(shares, limit, n - 1);
        let rest = shortest(shares, limit, n - 1);
        if shares[n - 1].len() < rest {
            assert(shortest(shares, limit, n) == shares[n - 1].len());
        } else if rest != limit {
            let j = choose|j: int| 0 <= j < n - 1 && rest == (#[trigger] shares[j]).len();
            assert(0 <= j < n && shortest(shares, limit, n) == shares[j].len());
        }
    }
}

/// A lower limit cuts the shortest length off, and one above it changes
/// nothing.
pub proof fn lemma_shortest_limits(shares: Seq<Seq<u8>>, low: int, high: int, n: int)
    requires
        0 <= n <= shares.len(),
        0 <= low <= high,
    ensures
        shortest(shares, low, n) == if low < shortest(shares, high, n) {
            low
        } else {
            shortest(shares, high, n)
        },
    decreases n,
{
    if n > 0 {
        lemma_shortest_limits(shares, low, high, n - 1);
    }
}

/// Reads up to `chunk` bytes of every share into its buffer, and returns the
/// least number of bytes that a share gave.
pub fn read_chunks<R: Read>(
    inputs: &mut Vec<InputPartition<R>>,
    bufs: &mut Vec<Vec<u8>>,
    chunk: usize,
) -> (r: Result<usize, StreamError>)
    requires
        inputs_wf(old(inputs)@),
        old(bufs)@.len() == old(inputs)@.len(),
        forall|j: int| 0 <= j < old(bufs)@.len() ==> (#[trigger] old(bufs)@[j])@.len() >= chunk,
    ensures
        inputs_wf(final(inputs)@),
        final(inputs)@.len() == old(inputs)@.len(),
        input_xs(final(inputs)@) == input_xs(old(inputs)@),
        final(bufs)@.len() == old(bufs)@.len(),
        forall|j: int|
            0 <= j < old(bufs)@.len() ==> (#[trigger] final(bufs)@[j])@.len()
                == old(bufs)@[j]@.len(),
        inputs_reliable(old(inputs)@) ==> r is Ok,
        r matches Ok(least) ==> {
            let shares = input_remaining(old(inputs)@);
            &&& inputs_reliable(final(inputs)@) == inputs_reliable(old(inputs)@)
            &&& least == shortest(shares, chunk as int, shares.len() as int)
            &&& forall|j: int|
                0 <= j < shares.len() ==> (#[trigger] final(bufs)@[j])@.take(least as int)
                    == shares[j].take(least as int)
            &&& (least == chunk ==> forall|j: int|
                0 <= j < shares.len() ==> (#[trigger] final(inputs)@[j]).reader.remaining()
                    == shares[j].skip(chunk as int))
        },
{
    let n = inputs.len();
    let ghost shares = input_remaining(inputs@);
    let mut least = chunk;
    let mut j: usize = 0;
    while j < n
        invariant
            j <= n,
            n == inputs@.len(),
            n == old(inputs)@.len(),
            bufs@.len() == n,
            old(bufs)@.len() == n,
            shares == input_remaining(old(inputs)@),
            inputs_wf(inputs@),
            input_xs(inputs@) == input_xs(old(inputs)@),
            inputs_reliable(inputs@) == inputs_reliable(old(inputs)@),
            forall|i: int| 0 <= i < n ==> (#[trigger] bufs@[i])@.len() == old(bufs)@[i]@.len(),
            forall|i: int| 0 <= i < n ==> (#[trigger] old(bufs)@[i])@.len() >= chunk,
            least == shortest(shares, chunk as int, j as int),
            least <= chunk,
            forall|i: int|
                0 <= i < j ==> (#[trigger] bufs@[i])@.take(least as int) == shares[i].take(
                    least as int,
                ),
            forall|i: int| 0 <= i < j ==> least <= (#[trigger] shares[i]).len(),
            least == chunk ==> forall|i: int|
                0 <= i < j ==> (#[trigger] inputs@[i]).reader.remaining() == shares[i].skip(
                    chunk as int,
                ),
            forall|i: int| j <= i < n ==> (#[trigger] inputs@[i]) == old(inputs)@[i],
        decreases n - j,
    {
        let ghost before = inputs@;
        let ghost bufs_before = bufs@;
        assert(old(bufs)@[j as int]@.len() >= chunk);
        assert(bufs@[j as int]@.len() >= chunk);
        let (space, rest) = bufs[j].as_mut_slice().split_at_mut(chunk);
        let got = read_full(&mut inputs[j].reader, space);
        proof {
            assert(forall|i: int| 0 <= i < n && i != j ==> inputs@[i] == before[i]);
            assert(forall|i: int| 0 <= i < n && i != j ==> bufs@[i] == bufs_before[i]);
            assert(inputs@[j as int].x == before[j as int].x);
            assert(input_xs(inputs@) =~= input_xs(before));
            assert(before[j as int] == old(inputs)@[j as int]);
            assert(shares[j as int] == before[j as int].reader.remaining());
        }
        match got {
            Err(e) => {
                assert(!inputs_reliable(old(inputs)@)) by {
                    assert(!before[j as int].reader.reliable());
                }
                return Err(e);
            },
            Ok(count) => {
                proof {
                    if inputs_reliable(before) {
                        assert forall|i: int| 0 <= i < n implies (
                        #[trigger] inputs@[i]).reader.reliable() by {
                            if i != j {
                                assert(before[i].reader.reliable());
                            } else {
                                assert(before[j as int].reader.reliable());
                            }
                        }
                    } else {
                        let bad = choose|i: int|
                            0 <= i < n && !(#[trigger] before[i]).reader.reliable();
                        assert(!inputs@[bad].reader.reliable());
                    }
                    assert(bufs@[j as int]@.take(count as int) =~= space@.take(count as int));
                }
                let ghost smaller = if count < least {
                    count
                } else {
                    least
                };
                proof {
                    assert forall|i: int| 0 <= i <= j implies (#[trigger] bufs@[i])@.take(
                        smaller as int,
                    ) == shares[i].take(smaller as int) by {
                        if i < j {
                            assert(bufs@[i]@.take(smaller as int) =~= bufs@[i]@.take(
                                least as int,
                            ).take(smaller as int));
                            assert(shares[i].take(smaller as int) =~= shares[i].take(
                                least as int,
                            ).take(smaller as int));
                        } else {
                            assert(bufs@[i]@.take(smaller as int) =~= bufs@[i]@.take(
                                count as int,
                            ).take(smaller as int));
                            assert(shares[i].take(smaller as int) =~= shares[i].take(
                                count as int,
                            ).take(smaller as int));
                        }
                    }
                }
                if count < least {
                    least = count;
                }
            },
        }
        j += 1;
    }
    Ok(least)
}

/// The shortest of what is left of the shares after `done` bytes is what is
/// left of the shortest.
pub proof fn lemma_shortest_shift(shares: Seq<Seq<u8>>, done: int, chunk: int, n: int)
    requires
        0 <= n <= shares.len(),
        0 <= done,
        0 <= chunk,
        forall|j: int| 0 <= j < n ==> done <= (#[trigger] shares[j]).len(),
    ensures
        shortest(Seq::new(shares.len(), |i: int| shares[i].skip(done)), chunk, n) + done
            == shortest(shares, done + chunk, n),
    decreases n,
{
    if n > 0 {
        lemma_shortest_shift(shares, done, chunk, n - 1);
        assert(shares[n - 1].len() >= done);
    }
}

/// The values of `parts`.
pub open spec fn memory_values(parts: Seq<InMemoryPartition>) -> Seq<Seq<u8>> {
    Seq::new(parts.len(), |j: int| parts[j].value@)
}

/// The indices of `parts`.
pub open spec fn memory_xs(parts: Seq<InMemoryPartition>) -> Seq<u8> {
    Seq::new(parts.len(), |j: int| parts[j].x)
}

/// The values of the shares that `parts` refer to.
pub open spec fn borrowed_values(parts: Seq<&InMemoryPartition>) -> Seq<Seq<u8>> {
    Seq::new(parts.len(), |j: int| parts[j].value@)
}

/// The indices of the shares that `parts` refer to.
pub open spec fn borrowed_xs(parts: Seq<&InMemoryPartition>) -> Seq<u8> {
    Seq::new(parts.len(), |j: int| parts[j].x)
}

/// The indices `1, 2, .., n`.
pub open spec fn first_indices(n: int) -> Seq<u8> {
    Seq::new(n as nat, |j: int| (j + 1) as u8)
}

/// A scheme that splits a stream into shares of which any `threshold()`
/// give the stream back.
pub trait Partitioner {
    /// The invariant of the scheme.
    spec fn wf(&self) -> bool;

    /// The number of shares that it takes to join.
    spec fn threshold(&self) -> int;

    /// Whether `shares` can be what splitting `message` gives to the indices
    /// `xs`.
    spec fn is_sharing(&self, message: Seq<u8>, xs: Seq<u8>, shares: Seq<Seq<u8>>) -> bool;

    /// What joining `shares` with the indices `xs` gives; `None` where they
    /// cannot be joined.
    spec fn joined(&self, xs: Seq<u8>, shares: Seq<Seq<u8>>) -> Option<Seq<u8>>;

    /// Whether splitting a message of `len` bytes draws random bytes, and so
    /// fails where the random generator does.
    spec fn draws_random(&self, len: nat) -> bool;

    /// What the scheme takes for granted of the primitives that it is built
    /// on, for joining to undo splitting.
    spec fn premises(&self) -> bool;

    /// Joining undoes splitting: what `threshold()` shares of a message join
    /// to is the message.
    proof fn lemma_round_trip(&self, message: Seq<u8>, xs: Seq<u8>, shares: Seq<Seq<u8>>)
        requires
            self.wf(),
            self.premises(),
            xs.len() == self.threshold(),
            valid_indices(xs),
            self.is_sharing(message, xs, shares),
        ensures
            self.joined(xs, shares) == Some(message),
    ;

    /// Some of the shares of a message are shares of the message for their
    /// indices.
    proof fn lemma_choice(
        &self,
        message: Seq<u8>,
        xs: Seq<u8>,
        shares: Seq<Seq<u8>>,
        picks: Seq<int>,
    )
        requires
            self.wf(),
            valid_indices(xs),
            self.is_sharing(message, xs, shares),
            is_choice(picks, xs.len() as int, picks.len() as int),
        ensures
            valid_indices(chosen(xs, picks)),
            self.is_sharing(message, chosen(xs, picks), chosen(shares, picks)),
    ;

    /// Every choice of `threshold()` shares of a message joins to the
    /// message.
    proof fn lemma_any_choice_joins(
        &self,
        message: Seq<u8>,
        xs: Seq<u8>,
        shares: Seq<Seq<u8>>,
        picks: Seq<int>,
    )
        requires
            self.wf(),
            self.premises(),
            valid_indices(xs),
            self.is_sharing(message, xs, shares),
            is_choice(picks, xs.len() as int, self.threshold()),
        ensures
            self.joined(chosen(xs, picks), chosen(shares, picks)) == Some(message),
    {
        self.lemma_choice(message, xs, shares, picks);
        self.lemma_round_trip(message, chosen(xs, picks), chosen(shares, picks));
    }

    /// The number of shares that it takes to join.
    fn threshold_value(&self) -> (k: u8)
        requires
            self.wf(),
        ensures
            k == self.threshold(),
    ;

    /// A well-formed scheme takes two shares or more, and no more than there
    /// are indices.
    proof fn lemma_threshold(&self)
        requires
            self.wf(),
        ensures
            2 <= self.threshold() <= 255,
    ;

    /// Writes to each of `outputs` its share of all that `input` delivers.
    fn split<R: Read, W: Write>(&self, input: R, outputs: &mut Vec<OutputPartition<W>>) -> (r:
        Result<(), StreamError>)
        requires
            self.wf(),
            self.threshold() <= old(outputs)@.len() <= 255,
            valid_indices(output_xs(old(outputs)@)),
            input.wf(),
            outputs_wf(old(outputs)@),
        ensures
            outputs_wf(final(outputs)@),
            final(outputs)@.len() == old(outputs)@.len(),
            output_xs(final(outputs)@) == output_xs(old(outputs)@),
            r is Ok ==> {
                &&& extends(old(outputs)@, final(outputs)@)
                &&& self.is_sharing(
                    input.remaining(),
                    output_xs(old(outputs)@),
                    appended(old(outputs)@, final(outputs)@),
                )
                &&& outputs_reliable(final(outputs)@) == outputs_reliable(old(outputs)@)
            },
            r matches Err(e) ==> e == StreamError::Io || !input.reliable() || !outputs_reliable(
                old(outputs)@,
            ),
            !self.draws_random(input.remaining().len()) && input.reliable() && outputs_reliable(
                old(outputs)@,
            ) ==> r is Ok,
    ;

    /// Writes to `output` what the shares that `inputs` deliver join to, and
    /// returns `output`. Fails with `InvalidData` where they cannot be joined.
    /// Shares of a message join to the message.
    fn join<R: Read, W: Write>(&self, inputs: &mut Vec<InputPartition<R>>, output: W) -> (r:
        Result<W, StreamError>)
        requires
            self.wf(),
            self.threshold() == old(inputs)@.len(),
            valid_indices(input_xs(old(inputs)@)),
            inputs_wf(old(inputs)@),
            output.wf(),
        ensures
            inputs_wf(final(inputs)@),
            final(inputs)@.len() == old(inputs)@.len(),
            input_xs(final(inputs)@) == input_xs(old(inputs)@),
            ({
                let plain = self.joined(input_xs(old(inputs)@), input_remaining(old(inputs)@));
                &&& inputs_reliable(old(inputs)@) && output.reliable() ==> (r is Ok
                    <==> plain is Some)
                &&& inputs_reliable(old(inputs)@) && output.reliable() && r is Err ==> r
                    == Err::<W, StreamError>(StreamError::InvalidData)
                &&& r matches Ok(w) ==> {
                    &&& plain is Some
                    &&& w.wf()
                    &&& w.reliable() == output.reliable()
                    &&& w.follows(&output)
                    &&& w.written() == output.written() + plain.unwrap()
                }
            }),
            inputs_reliable(old(inputs)@) && output.reliable() ==> forall|message: Seq<u8>|
                #[trigger] self.is_sharing(
                    message,
                    input_xs(old(inputs)@),
                    input_remaining(old(inputs)@),
                ) ==> r is Ok && self.joined(
                    input_xs(old(inputs)@),
                    input_remaining(old(inputs)@),
                ) == Some(message),
    ;

    /// Splits `input` into `n` shares with the indices `1, 2, .., n`.
    fn split_in_memory(&self, input: &Vec<u8>, n: u8) -> (r: Result<
        Vec<InMemoryPartition>,
        StreamError,
    >)
        requires
            self.wf(),
            self.threshold() <= n,
        ensures
            r matches Ok(parts) ==> {
                &&& memory_xs(parts@) == first_indices(n as int)
                &&& self.is_sharing(input@, memory_xs(parts@), memory_values(parts@))
            },
            r matches Err(e) ==> e == StreamError::Io,
            !self.draws_random(input@.len()) ==> r is Ok,
    {
        let mut outputs: Vec<OutputPartition<Vec<u8>>> = Vec::new();
        let mut x: u8 = 0;
        while x < n
            invariant
                x <= n,
                outputs@.len() == x,
                forall|j: int| 0 <= j < x ==> (#[trigger] outputs@[j]).x == j + 1,
                forall|j: int| 0 <= j < x ==> (#[trigger] outputs@[j]).writer@.len() == 0,
            decreases n - x,
        {
            x += 1;
            outputs.push(OutputPartition { x, writer: Vec::new() });
        }
        let ghost before = outputs@;
        proof {
            assert(output_xs(before) =~= first_indices(n as int));
            assert(outputs_reliable(before));
        }
        let source = MemoryReader::new(copy_range(input.as_slice(), 0, input.len()));
        proof {
            assert(input@.subrange(0, input@.len() as int) =~= input@);
        }
        match self.split(source, &mut outputs) {
            Err(e) => {
                return Err(e);
            },
            Ok(()) => {},
        }
        let ghost after = outputs@;
        let mut parts: Vec<InMemoryPartition> = Vec::new();
        let mut j: usize = 0;
        while j < outputs.len()
            invariant
                j <= outputs@.len(),
                outputs@ == after,
                parts@.len() == j,
                forall|i: int| 0 <= i < j ==> (#[trigger] parts@[i]).x == after[i].x,
                forall|i: int| 0 <= i < j ==> (#[trigger] parts@[i]).value@ == after[i].writer@,
            decreases outputs@.len() - j,
        {
            let value = copy_range(outputs[j].writer.as_slice(), 0, outputs[j].writer.len());
            proof {
                assert(after[j as int].writer@.subrange(0, after[j as int].writer@.len() as int)
                    =~= after[j as int].writer@);
            }
            parts.push(InMemoryPartition { x: outputs[j].x, value });
            j += 1;
        }
        proof {
            assert(memory_xs(parts@) =~= output_xs(after));
            let written = appended(before, after);
            assert forall|i: int| 0 <= i < after.len() implies #[trigger] memory_values(
                parts@,
            )[i] == written[i] by {
                assert(before[i].writer@.len() == 0);
                assert(after[i].writer.written().skip(0) =~= after[i].writer@);
            }
            assert(memory_values(parts@) =~= written);
        }
        Ok(parts)
    }

    /// Joins the shares that `inputs` refer to.
    fn join_in_memory(&self, inputs: &Vec<&InMemoryPartition>) -> (r: Result<Vec<u8>, StreamError>)
        requires
            self.wf(),
            self.threshold() == inputs@.len(),
            valid_indices(borrowed_xs(inputs@)),
        ensures
            r == match self.joined(borrowed_xs(inputs@), borrowed_values(inputs@)) {
                Some(message) => Ok::<Vec<u8>, StreamError>(r->Ok_0),
                None => Err(StreamError::InvalidData),
            },
            r matches Ok(message) ==> Some(message@) == self.joined(
                borrowed_xs(inputs@),
                borrowed_values(inputs@),
            ),
            forall|message: Seq<u8>| #[trigger]
                self.is_sharing(message, borrowed_xs(inputs@), borrowed_values(inputs@)) ==> r
                    is Ok && r->Ok_0@ == message,
    {
        let mut readers: Vec<InputPartition<MemoryReader>> = Vec::new();
        let mut j: usize = 0;
        while j < inputs.len()
            invariant
                j <= inputs@.len(),
                readers@.len() == j,
                inputs_wf(readers@),
                inputs_reliable(readers@),
                forall|i: int| 0 <= i < j ==> (#[trigger] readers@[i]).x == inputs@[i].x,
                forall|i: int|
                    0 <= i < j ==> (#[trigger] readers@[i]).reader.remaining()
                        == inputs@[i].value@,
            decreases inputs@.len() - j,
        {
            let part = inputs[j];
            let value = copy_range(part.value.as_slice(), 0, part.value.len());
            proof {
                assert(part.value@.subrange(0, part.value@.len() as int) =~= part.value@);
            }
            readers.push(InputPartition { x: part.x, reader: MemoryReader::new(value) });
            j += 1;
        }
        proof {
            assert(input_xs(readers@) =~= borrowed_xs(inputs@));
            assert(input_remaining(readers@) =~= borrowed_values(inputs@));
        }
        let output: Vec<u8> = Vec::new();
        match self.join(&mut readers, output) {
            Err(e) => Err(e),
            Ok(message) => {
                proof {
                    assert(Seq::<u8>::empty() + message@.skip(0) =~= message@);
                    let plain = self.joined(borrowed_xs(inputs@), borrowed_values(inputs@));
                    assert(Seq::<u8>::empty() + plain.unwrap() =~= plain.unwrap());
                }
                Ok(message)
            },
        }
    }
}

/// The entries of `s` that `picks` choose.
pub open spec fn chosen<A>(s: Seq<A>, picks: Seq<int>) -> Seq<A> {
    Seq::new(picks.len(), |i: int| s[picks[i]])
}

/// A choice of valid indices is valid.
pub proof fn lemma_chosen_valid(xs: Seq<u8>, picks: Seq<int>)
    requires
        valid_indices(xs),
        is_choice(picks, xs.len() as int, picks.len() as int),
    ensures
        valid_indices(chosen(xs, picks)),
{
    let some = chosen(xs, picks);
    assert forall|a: int, b: int|
        0 <= a < some.len() && 0 <= b < some.len() && a != b implies some[a] != some[b] by {
        if a < b {
            assert(picks[a] < picks[b]);
        } else {
            assert(picks[b] < picks[a]);
        }
        assert(xs[picks[a]] != xs[picks[b]]);
    }
    assert forall|a: int| 0 <= a < some.len() implies some[a] != 0 by {
        assert(xs[picks[a]] != 0);
    }
}

/// Whether `picks` choose `k` of `n` shares, in rising order.
pub open spec fn is_choice(picks: Seq<int>, n: int, k: int) -> bool {
    &&& picks.len() == k
    &&& forall|i: int| 0 <= i < picks.len() ==> 0 <= #[trigger] picks[i] < n
    &&& forall|a: int, b: int| 0 <= a < b < picks.len() ==> picks[a] < picks[b]
}

/// The indices of the shares of `parts` that `picks` choose.
pub open spec fn picked_xs(parts: Seq<InMemoryPartition>, picks: Seq<int>) -> Seq<u8> {
    Seq::new(picks.len(), |i: int| parts[picks[i]].x)
}

/// The values of the shares of `parts` that `picks` choose.
pub open spec fn picked_values(parts: Seq<InMemoryPartition>, picks: Seq<int>) -> Seq<Seq<u8>> {
    Seq::new(picks.len(), |i: int| parts[picks[i]].value@)
}

/// Whether the shares of `parts` that `picks` choose join to `expected`.
pub open spec fn joins_to<P: Partitioner>(
    partitioner: &P,
    parts: Seq<InMemoryPartition>,
    picks: Seq<int>,
    expected: Seq<u8>,
) -> bool {
    partitioner.joined(picked_xs(parts, picks), picked_values(parts, picks)) == Some(expected)
}

/// The positions that `chosen` holds.
pub open spec fn positions(chosen: Seq<usize>) -> Seq<int> {
    Seq::new(chosen.len(), |i: int| chosen[i] as int)
}

/// Whether two slices hold the same bytes.
pub fn same_bytes(a: &[u8], b: &[u8]) -> (r: bool)
    ensures
        r == (a@ == b@),
{
    if a.len() != b.len() {
        return false;
    }
    let mut i: usize = 0;
    while i < a.len()
        invariant
            i <= a@.len(),
            a@.len() == b@.len(),
            forall|j: int| 0 <= j < i ==> a@[j] == b@[j],
        decreases a@.len() - i,
    {
        if a[i] != b[i] {
            return false;
        }
        i += 1;
    }
    assert(a@ =~= b@);
    true
}

/// Whether the shares of `inputs` at the positions `chosen` join to
/// `expected`.
fn choice_joins<P: Partitioner>(
    partitioner: &P,
    inputs: &[InMemoryPartition],
    chosen: &Vec<usize>,
    expected: &Vec<u8>,
) -> (r: bool)
    requires
        partitioner.wf(),
        valid_indices(memory_xs(inputs@)),
        is_choice(positions(chosen@), inputs@.len() as int, partitioner.threshold()),
    ensures
        r == joins_to(partitioner, inputs@, positions(chosen@), expected@),
        partitioner.is_sharing(expected@, memory_xs(inputs@), memory_values(inputs@)) ==> r,
{
    let ghost picks = positions(chosen@);
    let mut refs: Vec<&InMemoryPartition> = Vec::new();
    let mut i: usize = 0;
    while i < chosen.len()
        invariant
            i <= chosen@.len(),
            refs@.len() == i,
            picks == positions(chosen@),
            forall|e: int| 0 <= e < picks.len() ==> 0 <= #[trigger] picks[e] < inputs@.len(),
            forall|e: int| 0 <= e < i ==> *(#[trigger] refs@[e]) == inputs@[picks[e]],
        decreases chosen@.len() - i,
    {
        assert(0 <= picks[i as int] < inputs@.len());
        refs.push(&inputs[chosen[i]]);
        i += 1;
    }
    proof {
        let xs = picked_xs(inputs@, picks);
        assert(borrowed_xs(refs@) =~= xs);
        assert(borrowed_values(refs@) =~= picked_values(inputs@, picks));
        let all = memory_xs(inputs@);
        assert forall|a: int, b: int| 0 <= a < xs.len() && 0 <= b < xs.len() && a != b implies xs[a]
            != xs[b] by {
            if a < b {
                assert(picks[a] < picks[b]);
            } else {
                assert(picks[b] < picks[a]);
            }
            assert(all[picks[a]] != all[picks[b]]);
        }
        assert forall|a: int| 0 <= a < xs.len() implies xs[a] != 0 by {
            assert(all[picks[a]] != 0);
        }
        if partitioner.is_sharing(expected@, all, memory_values(inputs@)) {
            partitioner.lemma_choice(expected@, all, memory_values(inputs@), picks);
            assert(self::chosen(all, picks) =~= xs);
            assert(self::chosen(memory_values(inputs@), picks) =~= picked_values(
                inputs@,
                picks,
            ));
        }
    }
    match partitioner.join_in_memory(&refs) {
        Err(_) => false,
        Ok(message) => same_bytes(message.as_slice(), expected.as_slice()),
    }
}

/// In a choice, positions that lie apart choose shares that lie as far apart,
/// or farther.
pub proof fn lemma_choice_gap(picks: Seq<int>, n: int, a: int, b: int)
    requires
        is_choice(picks, n, picks.len() as int),
        0 <= a <= b < picks.len(),
    ensures
        picks[b] - picks[a] >= b - a,
    decreases b - a,
{
    if a < b {
        lemma_choice_gap(picks, n, a, b - 1);
        assert(picks[b - 1] < picks[b]);
    }
}

/// Whether every choice of shares of `inputs` that starts with `chosen` joins
/// to `expected`.
fn choices_join<P: Partitioner>(
    partitioner: &P,
    inputs: &[InMemoryPartition],
    chosen: &mut Vec<usize>,
    expected: &Vec<u8>,
) -> (r: bool)
    requires
        partitioner.wf(),
        valid_indices(memory_xs(inputs@)),
        old(chosen)@.len() <= partitioner.threshold(),
        is_choice(positions(old(chosen)@), inputs@.len() as int, old(chosen)@.len() as int),
    ensures
        final(chosen)@ == old(chosen)@,
        r == forall|picks: Seq<int>|
            is_choice(picks, inputs@.len() as int, partitioner.threshold()) && picks.take(
                old(chosen)@.len() as int,
            ) == positions(old(chosen)@) ==> #[trigger] joins_to(
                partitioner,
                inputs@,
                picks,
                expected@,
            ),
        partitioner.is_sharing(expected@, memory_xs(inputs@), memory_values(inputs@)) ==> r,
    decreases partitioner.threshold() - old(chosen)@.len(),
{
    let n = inputs.len();
    let depth = chosen.len();
    let k = partitioner.threshold_value() as usize;
    let ghost prefix = positions(chosen@);
    if depth >= k {
        let r = choice_joins(partitioner, inputs, chosen, expected);
        proof {
            assert forall|picks: Seq<int>|
                is_choice(picks, n as int, k as int) && picks.take(depth as int)
                    == prefix implies picks == prefix by {
                assert(picks.take(depth as int) =~= picks);
            }
            assert(prefix.take(depth as int) =~= prefix);
        }
        return r;
    }
    // The shares that are still to choose must fit behind the next one.
    let need = k - depth;
    proof {
        assert forall|picks: Seq<int>|
            is_choice(picks, n as int, k as int) && picks.take(depth as int)
                == prefix implies #[trigger] picks[depth as int] + need <= n by {
            lemma_choice_gap(picks, n as int, depth as int, k - 1);
            assert(0 <= picks[k - 1] < n);
        }
        assert forall|picks: Seq<int>|
            is_choice(picks, n as int, k as int) && picks.take(depth as int)
                == prefix implies #[trigger] picks[depth as int] >= 0 by {
            assert(0 <= picks[depth as int] < n);
        }
    }
    if n < need {
        proof {
            assert forall|picks: Seq<int>|
                is_choice(picks, n as int, k as int) && picks.take(depth as int)
                    == prefix implies #[trigger] joins_to(
                partitioner,
                inputs@,
                picks,
                expected@,
            ) by {
                assert(picks[depth as int] + need <= n);
                assert(picks[depth as int] >= 0);
            }
        }
        return true;
    }
    let stop = n - need;
    proof {
        if depth > 0 {
            assert(0 <= prefix[depth - 1] < n);
        }
    }
    let start = if depth == 0 {
        0
    } else {
        chosen[depth - 1] + 1
    };
    let mut all = true;
    let mut i: usize = start;
    proof {
        assert forall|picks: Seq<int>|
            is_choice(picks, n as int, k as int) && picks.take(depth as int)
                == prefix implies picks[depth as int] >= start by {
            assert(0 <= picks[depth as int] < n);
            if depth > 0 {
                assert(picks.take(depth as int)[depth - 1] == picks[depth - 1]);
                assert(picks[depth - 1] < picks[depth as int]);
            }
        }
    }
    while i <= stop
        invariant
            start <= i,
            stop < n,
            n == inputs@.len(),
            depth == chosen@.len(),
            depth < k,
            k == partitioner.threshold(),
            partitioner.wf(),
            valid_indices(memory_xs(inputs@)),
            chosen@ == old(chosen)@,
            prefix == positions(chosen@),
            is_choice(prefix, n as int, depth as int),
            depth > 0 ==> start == chosen@[depth - 1] + 1,
            depth == 0 ==> start == 0,
            partitioner.is_sharing(expected@, memory_xs(inputs@), memory_values(inputs@))
                ==> all,
            all == forall|picks: Seq<int>|
                is_choice(picks, n as int, k as int) && picks.take(depth as int) == prefix
                    && picks[depth as int] < i ==> #[trigger] joins_to(
                    partitioner,
                    inputs@,
                    picks,
                    expected@,
                ),
        decreases n - i,
    {
        chosen.push(i);
        let ghost longer = positions(chosen@);
        proof {
            assert(longer =~= prefix.push(i as int));
            assert forall|a: int, b: int| 0 <= a < b < longer.len() implies longer[a]
                < longer[b] by {
                if b == depth {
                    if a < depth - 1 {
                        assert(prefix[a] < prefix[depth - 1]);
                    }
                    assert(prefix[depth - 1] < i);
                } else {
                    assert(prefix[a] < prefix[b]);
                }
            }
        }
        let below = choices_join(partitioner, inputs, chosen, expected);
        chosen.pop();
        proof {
            assert(chosen@ =~= old(chosen)@);
            assert forall|picks: Seq<int>|
                is_choice(picks, n as int, k as int) && picks.take(depth as int)
                    == prefix implies (picks.take(depth + 1) == longer <==> picks[depth as int]
                == i) by {
                if picks[depth as int] == i {
                    assert(picks.take(depth + 1) =~= picks.take(depth as int).push(
                        picks[depth as int],
                    ));
                } else {
                    assert(picks.take(depth + 1)[depth as int] == picks[depth as int]);
                }
            }
            assert forall|picks: Seq<int>|
                is_choice(picks, n as int, k as int) && picks.take(depth + 1)
                    == longer implies picks.take(depth as int) == prefix by {
                assert(picks.take(depth as int) =~= picks.take(depth + 1).take(depth as int));
                assert(longer.take(depth as int) =~= prefix);
            }
        }
        all = all && below;
        i += 1;
    }
    all
}

/// Whether every `k` of `inputs` join to `expected_output`, where `k` is
/// the threshold of the scheme. They do where `inputs` are shares of
/// `expected_output`.
pub fn test_join<P: Partitioner>(
    partitioner: &P,
    inputs: &[InMemoryPartition],
    k: u8,
    expected_output: &Vec<u8>,
) -> (r: bool)
    requires
        partitioner.wf(),
        partitioner.threshold() == k,
        valid_indices(memory_xs(inputs@)),
    ensures
        r == forall|picks: Seq<int>|
            is_choice(picks, inputs@.len() as int, k as int) ==> #[trigger] joins_to(
                partitioner,
                inputs@,
                picks,
                expected_output@,
            ),
        partitioner.is_sharing(expected_output@, memory_xs(inputs@), memory_values(inputs@))
            ==> r,
{
    let mut chosen: Vec<usize> = Vec::new();
    proof {
        assert forall|picks: Seq<int>| picks.take(0) == positions(chosen@) by {
            assert(picks.take(0) =~= positions(chosen@));
        }
    }
    choices_join(partitioner, inputs, &mut chosen, expected_output)
}

} // verus!
