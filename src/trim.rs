//! Cutting records at the first occurrence of an adapter sequence.

use crate::emit::append;
use crate::record::{serialized, Record, RecordView, FASTA_MARK, FASTQ_MARK, NEWLINE};
use vstd::prelude::*;
use vstd::utf8::encode_utf8;

verus! {

/// `needle` occurs in `haystack` starting at `i`.
pub open spec fn occurs_at(haystack: Seq<u8>, needle: Seq<u8>, i: int) -> bool {
    0 <= i && i + needle.len() <= haystack.len() && haystack.subrange(i, i + needle.len())
        == needle
}

/// `i` is the first index at which `needle` occurs in `haystack`.
pub open spec fn first_at(haystack: Seq<u8>, needle: Seq<u8>, i: int) -> bool {
    occurs_at(haystack, needle, i) && forall|j: int| 0 <= j < i ==> !occurs_at(haystack, needle, j)
}

/// Relies on `memchr::memmem::find`: the index of the first occurrence of
/// `needle` in `haystack`, or `None` when it does not occur (an empty needle
/// occurs at 0).
#[verifier::external_body]
fn find_first(haystack: &[u8], needle: &[u8]) -> (r: Option<usize>)
    ensures
        r matches Some(i) ==> first_at(haystack@, needle@, i as int),
        r is None ==> forall|j: int| !occurs_at(haystack@, needle@, j),
{
    memchr::memmem::find(haystack, needle)
}

/// The record with its bases, and its quality when present, from index `k`
/// to the end.
pub open spec fn cut_from(r: RecordView, k: int) -> RecordView {
    RecordView {
        id: r.id,
        seq: r.seq.subrange(k, r.seq.len() as int),
        quality: match r.quality {
            None => None,
            Some((plus, qual)) => Some((plus, qual.subrange(k, qual.len() as int))),
        },
    }
}

/// Cuts records at the first occurrence of an adapter, and counts how many
/// records it saw and how many it cut.
pub struct Trimmer {
    adapter: String,
    trim_adapter: bool,
    num_records: usize,
    num_trimmed: usize,
}

impl Trimmer {
    /// The adapter, as bytes.
    pub closed spec fn adapter(&self) -> Seq<u8> {
        encode_utf8(self.adapter@)
    }

    /// Whether the adapter itself is cut away along with what precedes it.
    pub closed spec fn trims_adapter(&self) -> bool {
        self.trim_adapter
    }

    pub closed spec fn records_seen(&self) -> nat {
        self.num_records as nat
    }

    pub closed spec fn records_trimmed(&self) -> nat {
        self.num_trimmed as nat
    }

    pub fn new(adapter: String, trim_adapter: bool) -> (r: Self)
        ensures
            r.adapter() == encode_utf8(adapter@),
            r.trims_adapter() == trim_adapter,
            r.records_seen() == 0,
            r.records_trimmed() == 0,
    {
        Self { adapter, trim_adapter, num_records: 0, num_trimmed: 0 }
    }

    /// How many records were offered.
    pub fn num_records(&self) -> (r: usize)
        ensures
            r == self.records_seen(),
    {
        self.num_records
    }

    /// How many records held the adapter.
    pub fn num_trimmed(&self) -> (r: usize)
        ensures
            r == self.records_trimmed(),
    {
        self.num_trimmed
    }

    /// Offers a record. Where the adapter occurs in its bases, returns the
    /// record cut to begin at the first occurrence (or just after it, when
    /// the adapter is trimmed too), written in its own form; else `None`.
    pub fn trim(&mut self, record: &Record) -> (r: Option<Vec<u8>>)
        requires
            old(self).records_seen() < usize::MAX,
            old(self).records_trimmed() < usize::MAX,
        ensures
            final(self).adapter() == old(self).adapter(),
            final(self).trims_adapter() == old(self).trims_adapter(),
            final(self).records_seen() == old(self).records_seen() + 1,
            r is None <==> forall|j: int| !occurs_at(record@.seq, old(self).adapter(), j),
            r is None ==> final(self).records_trimmed() == old(self).records_trimmed(),
            r matches Some(v) ==> final(self).records_trimmed() == old(self).records_trimmed() + 1
                && exists|i: int|
                first_at(record@.seq, old(self).adapter(), i) && v@ == serialized(
                    cut_from(
                        record@,
                        if old(self).trims_adapter() {
                            i + old(self).adapter().len()
                        } else {
                            i
                        },
                    ),
                ),
    {
        self.num_records = self.num_records + 1;
        let seq = record.seq();
        let adapter = self.adapter.as_str().as_bytes();
        assert(adapter@ == old(self).adapter());
        match find_first(seq, adapter) {
            Some(idx) => {
                assert(occurs_at(seq@, adapter@, idx as int));
                let n = seq.len();
                let m = adapter.len();
                assert(idx + m <= n);
                self.num_trimmed = self.num_trimmed + 1;
                let start = if self.trim_adapter {
                    idx + m
                } else {
                    idx
                };
                Some(self.prepare_record(record, start))
            },
            None => None,
        }
    }

    /// The record cut to begin at `start`, written in its own form.
    fn prepare_record(&self, record: &Record, start: usize) -> (r: Vec<u8>)
        requires
            start <= record@.seq.len(),
        ensures
            r@ == serialized(cut_from(record@, start as int)),
    {
        let seq = record.seq();
        let id = record.id();
        let mut out: Vec<u8> = Vec::new();
        let ghost t = cut_from(record@, start as int);
        match (record.plus(), record.qual()) {
            (Some(plus), Some(qual)) => {
                out.push(FASTQ_MARK);
                append(&mut out, id, 0, id.len());
                out.push(NEWLINE);
                append(&mut out, seq, start, seq.len());
                out.push(NEWLINE);
                append(&mut out, plus, 0, plus.len());
                out.push(NEWLINE);
                append(&mut out, qual, start, qual.len());
                out.push(NEWLINE);
                proof {
                    assert(id@.subrange(0, id@.len() as int) =~= id@);
                    assert(plus@.subrange(0, plus@.len() as int) =~= plus@);
                    assert(out@ =~= serialized(t));
                }
            },
            _ => {
                out.push(FASTA_MARK);
                append(&mut out, id, 0, id.len());
                out.push(NEWLINE);
                append(&mut out, seq, start, seq.len());
                out.push(NEWLINE);
                proof {
                    assert(id@.subrange(0, id@.len() as int) =~= id@);
                    assert(out@ =~= serialized(t));
                }
            },
        }
        out
    }
}

} // verus!
