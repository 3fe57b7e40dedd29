//! Per-position nucleotide tallies over a sample of sequences, and their
//! normalisation into per-position distributions.

use crate::error::RegionError;
use crate::record::Record;
use vstd::prelude::*;

verus! {

/// Number of nucleotide channels: A, C, G, T in that order.
pub const NUM_CHANNELS: usize = 4;

/// The channel of a base byte: `A`, `C`, `G`, `T` map to 0..4; any other byte
/// is ambiguous.
pub open spec fn base_channel(byte: u8) -> Option<usize> {
    if byte == 65 {
        Some(0usize)
    } else if byte == 67 {
        Some(1usize)
    } else if byte == 71 {
        Some(2usize)
    } else if byte == 84 {
        Some(3usize)
    } else {
        None
    }
}

/// Whether sequence `s` adds one to channel `ch` at position `pos`: the base
/// there is that channel, or is ambiguous and so adds to every channel.
pub open spec fn hits(s: Seq<u8>, pos: int, ch: int) -> bool {
    &&& 0 <= pos < s.len()
    &&& match base_channel(s[pos]) {
        Some(c) => c == ch,
        None => true,
    }
}

/// How many of the sequences add to channel `ch` at position `pos`.
pub open spec fn tally(seqs: Seq<Seq<u8>>, pos: int, ch: int) -> nat
    decreases seqs.len(),
{
    if seqs.len() == 0 {
        0
    } else {
        tally(seqs.drop_last(), pos, ch) + if hits(seqs.last(), pos, ch) {
            1nat
        } else {
            0nat
        }
    }
}

/// The sum of the four channel tallies at a position.
pub open spec fn row_total(seqs: Seq<Seq<u8>>, pos: int) -> nat {
    tally(seqs, pos, 0) + tally(seqs, pos, 1) + tally(seqs, pos, 2) + tally(seqs, pos, 3)
}

/// A tally never exceeds the number of sequences.
pub proof fn lemma_tally_bounded(seqs: Seq<Seq<u8>>, pos: int, ch: int)
    ensures
        tally(seqs, pos, ch) <= seqs.len(),
    decreases seqs.len(),
{
    if seqs.len() > 0 {
        lemma_tally_bounded(seqs.drop_last(), pos, ch);
    }
}

/// Maps a base byte to its nucleotide channel; `None` for an ambiguous byte.
pub fn base_map(byte: u8) -> (r: Option<usize>)
    ensures
        r == base_channel(byte),
{
    match byte {
        65u8 => Some(0),
        67u8 => Some(1),
        71u8 => Some(2),
        84u8 => Some(3),
        _ => None,
    }
}

/// The four channel counts at one position.
#[derive(Clone, Copy, Debug)]
pub struct BaseCounts {
    pub a: usize,
    pub c: usize,
    pub g: usize,
    pub t: usize,
}

impl BaseCounts {
    pub open spec fn channel(self, ch: int) -> usize {
        if ch == 0 {
            self.a
        } else if ch == 1 {
            self.c
        } else if ch == 2 {
            self.g
        } else {
            self.t
        }
    }

    /// The count of channel `ch`.
    pub fn get(&self, ch: usize) -> (r: usize)
        requires
            ch < NUM_CHANNELS,
        ensures
            r == self.channel(ch as int),
    {
        if ch == 0 {
            self.a
        } else if ch == 1 {
            self.c
        } else if ch == 2 {
            self.g
        } else {
            self.t
        }
    }
}

/// A position-by-channel count matrix over the sequences added so far.
pub struct FrequencyMatrix {
    rows: Vec<BaseCounts>,
    num_sampled: usize,
    sampled: Ghost<Seq<Seq<u8>>>,
}

impl FrequencyMatrix {
    /// The number of positions.
    pub closed spec fn length(&self) -> nat {
        self.rows@.len()
    }

    /// The sequences tallied so far, in order.
    pub closed spec fn sampled(&self) -> Seq<Seq<u8>> {
        self.sampled@
    }

    #[verifier::type_invariant]
    closed spec fn inv(&self) -> bool {
        &&& self.num_sampled == self.sampled@.len()
        &&& forall|pos: int, ch: int|
            0 <= pos < self.rows@.len() && 0 <= ch < 4 ==> #[trigger] self.rows@[pos].channel(ch)
                == tally(self.sampled@, pos, ch)
    }

    /// A matrix of `len` positions with nothing tallied.
    pub fn new(len: usize) -> (m: FrequencyMatrix)
        ensures
            m.length() == len,
            m.sampled() == Seq::<Seq<u8>>::empty(),
    {
        let mut rows: Vec<BaseCounts> = Vec::new();
        let mut i: usize = 0;
        while i < len
            invariant
                i <= len,
                rows@.len() == i,
                forall|pos: int, ch: int|
                    0 <= pos < i && 0 <= ch < 4 ==> #[trigger] rows@[pos].channel(ch) == 0,
            decreases len - i,
        {
            rows.push(BaseCounts { a: 0, c: 0, g: 0, t: 0 });
            i = i + 1;
        }
        FrequencyMatrix { rows, num_sampled: 0, sampled: Ghost(Seq::empty()) }
    }

    /// The number of sequences tallied.
    pub fn num_sampled(&self) -> (r: usize)
        ensures
            r == self.sampled().len(),
    {
        proof {
            use_type_invariant(self);
        }
        self.num_sampled
    }

    /// The number of positions.
    pub fn len(&self) -> (r: usize)
        ensures
            r == self.length(),
    {
        self.rows.len()
    }

    /// How many tallied sequences add to channel `ch` at position `pos`.
    pub fn count(&self, pos: usize, ch: usize) -> (r: usize)
        requires
            pos < self.length(),
            ch < NUM_CHANNELS,
        ensures
            r == tally(self.sampled(), pos as int, ch as int),
    {
        proof {
            use_type_invariant(self);
        }
        self.rows[pos].get(ch)
    }

    /// Tallies one more sequence: each of its first `length` bases adds one
    /// to its channel, or to all four channels when ambiguous. Bases beyond
    /// the matrix length are ignored.
    pub fn add_record(&mut self, seq: &[u8])
        requires
            old(self).sampled().len() < usize::MAX,
        ensures
            final(self).length() == old(self).length(),
            final(self).sampled() == old(self).sampled().push(seq@),
    {
        proof {
            use_type_invariant(&*self);
        }
        let ghost new_sampled = self.sampled@.push(seq@);
        let len = self.rows.len();
        let mut rows: Vec<BaseCounts> = Vec::new();
        let mut pos: usize = 0;
        while pos < len
            invariant
                len == self.rows@.len(),
                pos <= len,
                rows@.len() == pos,
                self.num_sampled == self.sampled@.len(),
                self.num_sampled < usize::MAX,
                new_sampled == self.sampled@.push(seq@),
                forall|p: int, ch: int|
                    0 <= p < len && 0 <= ch < 4 ==> #[trigger] self.rows@[p].channel(ch)
                        == tally(self.sampled@, p, ch),
                forall|p: int, ch: int|
                    0 <= p < pos && 0 <= ch < 4 ==> #[trigger] rows@[p].channel(ch) == tally(
                        new_sampled,
                        p,
                        ch,
                    ),
            decreases len - pos,
        {
            let old_row = self.rows[pos];
            proof {
                assert(new_sampled.drop_last() =~= self.sampled@);
                assert(new_sampled.last() == seq@);
                lemma_tally_bounded(self.sampled@, pos as int, 0);
                lemma_tally_bounded(self.sampled@, pos as int, 1);
                lemma_tally_bounded(self.sampled@, pos as int, 2);
                lemma_tally_bounded(self.sampled@, pos as int, 3);
                assert(old_row.channel(0) == tally(self.sampled@, pos as int, 0));
                assert(old_row.channel(1) == tally(self.sampled@, pos as int, 1));
                assert(old_row.channel(2) == tally(self.sampled@, pos as int, 2));
                assert(old_row.channel(3) == tally(self.sampled@, pos as int, 3));
            }
            let new_row = if pos < seq.len() {
                match base_map(seq[pos]) {
                    Some(0) => BaseCounts { a: old_row.a + 1, ..old_row },
                    Some(1) => BaseCounts { c: old_row.c + 1, ..old_row },
                    Some(2) => BaseCounts { g: old_row.g + 1, ..old_row },
                    Some(_) => BaseCounts { t: old_row.t + 1, ..old_row },
                    None => BaseCounts {
                        a: old_row.a + 1,
                        c: old_row.c + 1,
                        g: old_row.g + 1,
                        t: old_row.t + 1,
                    },
                }
            } else {
                old_row
            };
            proof {
                assert forall|ch: int| 0 <= ch < 4 implies #[trigger] new_row.channel(ch) == tally(
                    new_sampled,
                    pos as int,
                    ch,
                ) by {
                    assert(old_row.channel(ch) == tally(self.sampled@, pos as int, ch));
                }
            }
            rows.push(new_row);
            pos = pos + 1;
        }
        *self = FrequencyMatrix {
            rows,
            num_sampled: self.num_sampled + 1,
            sampled: Ghost(new_sampled),
        };
    }
}

/// The probability of channel `ch` at position `pos`: its tally over the
/// row's total.
pub open spec fn probability(seqs: Seq<Seq<u8>>, pos: int, ch: int) -> real {
    tally(seqs, pos, ch) as real / row_total(seqs, pos) as real
}

/// Each position whose row holds any count is a categorical distribution:
/// its four channel probabilities sum to one.
pub proof fn lemma_rows_sum_to_one(seqs: Seq<Seq<u8>>, pos: int)
    requires
        row_total(seqs, pos) > 0,
    ensures
        probability(seqs, pos, 0) + probability(seqs, pos, 1) + probability(seqs, pos, 2)
            + probability(seqs, pos, 3) == 1real,
{
    let a = tally(seqs, pos, 0) as real;
    let c = tally(seqs, pos, 1) as real;
    let g = tally(seqs, pos, 2) as real;
    let t = tally(seqs, pos, 3) as real;
    let n = row_total(seqs, pos) as real;
    assert(n == a + c + g + t);
    assert(a / n + c / n + g / n + t / n == 1real) by (nonlinear_arith)
        requires
            n == a + c + g + t,
            n > 0real,
    ;
}

/// The sequences of a run of records.
pub open spec fn sequences(records: Seq<Record>) -> Seq<Seq<u8>> {
    records.map_values(|r: Record| r@.seq)
}

/// The sequences that the accumulator tallies: those of the first
/// `num_samples` records, or of all of them when there are fewer.
pub open spec fn sample_of(records: Seq<Record>, num_samples: nat) -> Seq<Seq<u8>> {
    let end = if records.len() <= num_samples {
        records.len() as int
    } else {
        num_samples as int
    };
    sequences(records.subrange(0, end))
}

/// The sequence length fixed by the first record of a source.
pub fn get_sequence_size(first: Option<&Record>) -> (r: Result<usize, RegionError>)
    ensures
        first is None ==> r == Err::<usize, RegionError>(RegionError::EmptySource),
        first matches Some(rec) ==> r matches Ok(n) && n == rec@.seq.len(),
{
    match first {
        Some(rec) => Ok(rec.seq().len()),
        None => Err(RegionError::EmptySource),
    }
}

/// Tallies the bases of a sample of records: the first `num_samples`
/// records, or all when there are fewer. The first record fixes the matrix
/// length `L`; each sampled record adds its first `L` bases.
pub fn position_counts(records: &Vec<Record>, num_samples: usize) -> (r: Result<
    FrequencyMatrix,
    RegionError,
>)
    ensures
        records@.len() == 0 <==> r is Err,
        r is Err ==> r == Err::<FrequencyMatrix, RegionError>(RegionError::EmptySource),
        r matches Ok(m) ==> m.length() == records@[0]@.seq.len() && m.sampled() == sample_of(
            records@,
            num_samples as nat,
        ),
{
    let first = if records.len() > 0 {
        Some(&records[0])
    } else {
        None
    };
    let size = match get_sequence_size(first) {
        Ok(size) => size,
        Err(e) => {
            return Err(e);
        },
    };
    let mut matrix = FrequencyMatrix::new(size);
    let end: usize = if records.len() <= num_samples {
        records.len()
    } else {
        num_samples
    };
    let ghost target = sample_of(records@, num_samples as nat);
    assert(target == sequences(records@.subrange(0, end as int)));
    assert(sequences(records@.subrange(0, 0)) =~= Seq::<Seq<u8>>::empty());
    let mut k: usize = 0;
    while k < end
        invariant
            0 <= k <= end <= records@.len(),
            matrix.length() == size,
            matrix.sampled() == sequences(records@.subrange(0, k as int)),
            target == sequences(records@.subrange(0, end as int)),
        decreases end - k,
    {
        proof {
            assert(matrix.sampled().len() == k);
        }
        matrix.add_record(records[k].seq());
        proof {
            assert(sequences(records@.subrange(0, k + 1)) =~= sequences(
                records@.subrange(0, k as int),
            ).push(records@[k as int]@.seq));
        }
        k = k + 1;
    }
    Ok(matrix)
}

/// Where every sequence is `s`, each channel tallies all sequences or none.
proof fn lemma_identical_tally(seqs: Seq<Seq<u8>>, s: Seq<u8>, pos: int, ch: int)
    requires
        forall|k: int| 0 <= k < seqs.len() ==> #[trigger] seqs[k] == s,
        base_channel(s[pos]) is Some,
        0 <= pos < s.len(),
        0 <= ch < 4,
    ensures
        tally(seqs, pos, ch) == if base_channel(s[pos]) == Some(ch as usize) {
            seqs.len()
        } else {
            0
        },
    decreases seqs.len(),
{
    if seqs.len() > 0 {
        assert(seqs.last() == s);
        lemma_identical_tally(seqs.drop_last(), s, pos, ch);
    }
}

/// Where every sampled sequence is the same `s` and `s` holds no ambiguous
/// base, each position puts its whole count on the channel of its base: the
/// distribution there gives that channel probability one and the others
/// zero.
pub proof fn lemma_identical_samples_point_mass(seqs: Seq<Seq<u8>>, s: Seq<u8>, pos: int)
    requires
        seqs.len() > 0,
        forall|k: int| 0 <= k < seqs.len() ==> #[trigger] seqs[k] == s,
        forall|p: int| 0 <= p < s.len() ==> #[trigger] base_channel(s[p]) is Some,
        0 <= pos < s.len(),
    ensures
        row_total(seqs, pos) == seqs.len(),
        forall|ch: int|
            0 <= ch < 4 ==> #[trigger] probability(seqs, pos, ch) == if base_channel(s[pos])
                == Some(ch as usize) {
                1real
            } else {
                0real
            },
{
    assert(base_channel(s[pos]) is Some);
    lemma_identical_tally(seqs, s, pos, 0);
    lemma_identical_tally(seqs, s, pos, 1);
    lemma_identical_tally(seqs, s, pos, 2);
    lemma_identical_tally(seqs, s, pos, 3);
    let n = seqs.len() as real;
    assert(n / n == 1real) by (nonlinear_arith)
        requires
            n > 0real,
    ;
    assert(0real / n == 0real) by (nonlinear_arith)
        requires
            n > 0real,
    ;
}

/// How many of the sequences equal `a`.
pub open spec fn occurrences(seqs: Seq<Seq<u8>>, a: Seq<u8>) -> nat
    decreases seqs.len(),
{
    if seqs.len() == 0 {
        0
    } else {
        occurrences(seqs.drop_last(), a) + if seqs.last() == a {
            1nat
        } else {
            0nat
        }
    }
}

/// Where every sequence is `a` or `b`, and those differ at `pos` in
/// unambiguous bases, the channel of `a` tallies the copies of `a`, the
/// channel of `b` the rest, and no other channel anything.
proof fn lemma_two_sequence_tally(seqs: Seq<Seq<u8>>, a: Seq<u8>, b: Seq<u8>, pos: int, ch: int)
    requires
        forall|k: int| 0 <= k < seqs.len() ==> #[trigger] seqs[k] == a || seqs[k] == b,
        0 <= pos < a.len(),
        pos < b.len(),
        base_channel(a[pos]) is Some,
        base_channel(b[pos]) is Some,
        base_channel(a[pos]) != base_channel(b[pos]),
        0 <= ch < 4,
    ensures
        tally(seqs, pos, ch) == if base_channel(a[pos]) == Some(ch as usize) {
            occurrences(seqs, a)
        } else if base_channel(b[pos]) == Some(ch as usize) {
            (seqs.len() - occurrences(seqs, a)) as nat
        } else {
            0
        },
        occurrences(seqs, a) <= seqs.len(),
    decreases seqs.len(),
{
    if seqs.len() > 0 {
        assert(seqs.last() == seqs[seqs.len() - 1]);
        lemma_two_sequence_tally(seqs.drop_last(), a, b, pos, ch);
    }
}

/// Where every sampled sequence is one of two sequences `a` and `b` that
/// differ at `pos` in unambiguous bases, the distribution at `pos` is the
/// two-outcome split of the sample: the channel of `a` has the share of
/// copies of `a`, the channel of `b` the share of the rest, and every other
/// channel zero.
pub proof fn lemma_two_sequence_split(seqs: Seq<Seq<u8>>, a: Seq<u8>, b: Seq<u8>, pos: int)
    requires
        seqs.len() > 0,
        forall|k: int| 0 <= k < seqs.len() ==> #[trigger] seqs[k] == a || seqs[k] == b,
        0 <= pos < a.len(),
        pos < b.len(),
        base_channel(a[pos]) is Some,
        base_channel(b[pos]) is Some,
        base_channel(a[pos]) != base_channel(b[pos]),
    ensures
        row_total(seqs, pos) == seqs.len(),
        forall|ch: int|
            0 <= ch < 4 ==> #[trigger] probability(seqs, pos, ch) == if base_channel(a[pos])
                == Some(ch as usize) {
                occurrences(seqs, a) as real / seqs.len() as real
            } else if base_channel(b[pos]) == Some(ch as usize) {
                (seqs.len() - occurrences(seqs, a)) as real / seqs.len() as real
            } else {
                0real
            },
{
    lemma_two_sequence_tally(seqs, a, b, pos, 0);
    lemma_two_sequence_tally(seqs, a, b, pos, 1);
    lemma_two_sequence_tally(seqs, a, b, pos, 2);
    lemma_two_sequence_tally(seqs, a, b, pos, 3);
    let n = seqs.len() as real;
    assert(0real / n == 0real) by (nonlinear_arith)
        requires
            n > 0real,
    ;
}

/// The distribution of a position, as tallies over a positive total.
pub struct ProbabilityMatrix {
    counts: FrequencyMatrix,
    totals: Vec<u128>,
}

impl ProbabilityMatrix {
    /// The number of positions.
    pub closed spec fn length(&self) -> nat {
        self.counts.length()
    }

    /// The sequences whose tallies the distributions are made of.
    pub closed spec fn sampled(&self) -> Seq<Seq<u8>> {
        self.counts.sampled()
    }

    #[verifier::type_invariant]
    closed spec fn inv(&self) -> bool {
        &&& self.totals@.len() == self.counts.length()
        &&& forall|pos: int|
            0 <= pos < self.totals@.len() ==> #[trigger] self.totals@[pos] == row_total(
                self.counts.sampled(),
                pos,
            ) && self.totals@[pos] > 0
    }

    /// The number of positions.
    pub fn len(&self) -> (r: usize)
        ensures
            r == self.length(),
    {
        self.counts.len()
    }

    /// The probability of channel `ch` at position `pos`, as a numerator and
    /// a positive denominator.
    pub fn fraction(&self, pos: usize, ch: usize) -> (r: (u128, u128))
        requires
            pos < self.length(),
            ch < NUM_CHANNELS,
        ensures
            r.0 == tally(self.sampled(), pos as int, ch as int),
            r.1 == row_total(self.sampled(), pos as int),
            r.1 > 0,
            r.0 as real / r.1 as real == probability(self.sampled(), pos as int, ch as int),
    {
        proof {
            use_type_invariant(self);
        }
        (self.counts.count(pos, ch) as u128, self.totals[pos])
    }
}

/// Divides each row of the matrix by its total. `None` when some row holds
/// no count at all, where no distribution is defined.
pub fn normalize_counts(matrix: FrequencyMatrix) -> (r: Option<ProbabilityMatrix>)
    ensures
        r is Some <==> forall|pos: int|
            0 <= pos < matrix.length() ==> #[trigger] row_total(matrix.sampled(), pos) > 0,
        r matches Some(p) ==> p.length() == matrix.length() && p.sampled() == matrix.sampled(),
{
    let len = matrix.len();
    let mut totals: Vec<u128> = Vec::new();
    let mut pos: usize = 0;
    while pos < len
        invariant
            len == matrix.length(),
            pos <= len,
            totals@.len() == pos,
            forall|p: int|
                0 <= p < pos ==> #[trigger] totals@[p] == row_total(matrix.sampled(), p)
                    && totals@[p] > 0,
        decreases len - pos,
    {
        let total = matrix.count(pos, 0) as u128 + matrix.count(pos, 1) as u128 + matrix.count(
            pos,
            2,
        ) as u128 + matrix.count(pos, 3) as u128;
        assert(total == row_total(matrix.sampled(), pos as int));
        if total == 0 {
            assert(!(row_total(matrix.sampled(), pos as int) > 0));
            return None;
        }
        totals.push(total);
        pos = pos + 1;
    }
    assert forall|p: int| 0 <= p < matrix.length() implies #[trigger] row_total(
        matrix.sampled(),
        p,
    ) > 0 by {
        assert(totals@[p] == row_total(matrix.sampled(), p));
    }
    Some(ProbabilityMatrix { counts: matrix, totals })
}

} // verus!
