//! Sequence records in their two textual forms: with and without quality.

use vstd::prelude::*;

verus! {

/// First byte of a record without quality.
pub const FASTA_MARK: u8 = 62;

/// First byte of a record with quality.
pub const FASTQ_MARK: u8 = 64;

/// Line terminator.
pub const NEWLINE: u8 = 10;

/// What a record holds, as mathematical byte sequences.
pub struct RecordView {
    pub id: Seq<u8>,
    pub seq: Seq<u8>,
    /// The separator line and the quality line, present for a record that
    /// carries quality.
    pub quality: Option<(Seq<u8>, Seq<u8>)>,
}

/// One sequence entry: identifier, bases and, for the quality-carrying form,
/// a separator line and a quality string as long as the bases.
pub struct Record {
    id: Vec<u8>,
    seq: Vec<u8>,
    quality: Option<(Vec<u8>, Vec<u8>)>,
}

/// The record written out in its own form: `>id\nseq\n`, or
/// `@id\nseq\nplus\nqual\n`.
pub open spec fn serialized(r: RecordView) -> Seq<u8> {
    match r.quality {
        None => seq![FASTA_MARK] + r.id + seq![NEWLINE] + r.seq + seq![NEWLINE],
        Some((plus, qual)) => seq![FASTQ_MARK] + r.id + seq![NEWLINE] + r.seq + seq![NEWLINE] + plus
            + seq![NEWLINE] + qual + seq![NEWLINE],
    }
}

/// A record view whose quality, when present, is as long as its bases.
pub open spec fn well_formed(r: RecordView) -> bool {
    match r.quality {
        None => true,
        Some((_plus, qual)) => qual.len() == r.seq.len(),
    }
}

impl View for Record {
    type V = RecordView;

    closed spec fn view(&self) -> RecordView {
        RecordView {
            id: self.id@,
            seq: self.seq@,
            quality: match self.quality {
                None => None,
                Some((plus, qual)) => Some((plus@, qual@)),
            },
        }
    }
}

impl Record {
    #[verifier::type_invariant]
    closed spec fn inv(&self) -> bool {
        well_formed(self@)
    }

    /// A record without quality.
    pub fn fasta(id: Vec<u8>, seq: Vec<u8>) -> (r: Record)
        ensures
            r@ == (RecordView { id: id@, seq: seq@, quality: None }),
    {
        Record { id, seq, quality: None }
    }

    /// A record with a separator line and a quality string; `None` when the
    /// quality is not as long as the bases.
    pub fn fastq(id: Vec<u8>, seq: Vec<u8>, plus: Vec<u8>, qual: Vec<u8>) -> (r: Option<Record>)
        ensures
            r is Some <==> qual@.len() == seq@.len(),
            r matches Some(rec) ==> rec@ == (RecordView {
                id: id@,
                seq: seq@,
                quality: Some((plus@, qual@)),
            }),
    {
        if qual.len() == seq.len() {
            Some(Record { id, seq, quality: Some((plus, qual)) })
        } else {
            None
        }
    }

    pub fn id(&self) -> (r: &[u8])
        ensures
            r@ == self@.id,
    {
        self.id.as_slice()
    }

    pub fn seq(&self) -> (r: &[u8])
        ensures
            r@ == self@.seq,
            well_formed(self@),
    {
        proof {
            use_type_invariant(self);
        }
        self.seq.as_slice()
    }

    pub fn plus(&self) -> (r: Option<&[u8]>)
        ensures
            r is Some <==> self@.quality is Some,
            r matches Some(p) ==> p@ == self@.quality.unwrap().0,
    {
        match &self.quality {
            Some((plus, _qual)) => Some(plus.as_slice()),
            None => None,
        }
    }

    pub fn qual(&self) -> (r: Option<&[u8]>)
        ensures
            r is Some <==> self@.quality is Some,
            r matches Some(q) ==> q@ == self@.quality.unwrap().1,
    {
        match &self.quality {
            Some((_plus, qual)) => Some(qual.as_slice()),
            None => None,
        }
    }
}

} // verus!
