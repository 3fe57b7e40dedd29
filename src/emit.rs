//! Re-emission of records trimmed to a resolved interval.

use crate::error::RegionError;
use crate::record::{serialized, well_formed, Record, RecordView, FASTA_MARK, FASTQ_MARK, NEWLINE};
use vstd::prelude::*;

verus! {

/// The record with its bases, and its quality when present, cut to the
/// inclusive interval `[lo, hi]`.
pub open spec fn trimmed(r: RecordView, lo: int, hi: int) -> RecordView {
    RecordView {
        id: r.id,
        seq: r.seq.subrange(lo, hi + 1),
        quality: match r.quality {
            None => None,
            Some((plus, qual)) => Some((plus, qual.subrange(lo, hi + 1))),
        },
    }
}

/// The bytes written for one record and the interval `[lo, hi]`; a record
/// too short to supply `hi` is an error.
pub open spec fn emitted(r: RecordView, lo: int, hi: int) -> Result<Seq<u8>, RegionError> {
    if hi >= r.seq.len() {
        Err(RegionError::RecordTooShort)
    } else {
        Ok(serialized(trimmed(r, lo, hi)))
    }
}

/// The bytes written for a run of records, one after the other; the first
/// record that is too short stops it.
pub open spec fn emitted_all(rs: Seq<RecordView>, lo: int, hi: int) -> Result<
    Seq<u8>,
    RegionError,
>
    decreases rs.len(),
{
    if rs.len() == 0 {
        Ok(Seq::empty())
    } else {
        match emitted_all(rs.drop_last(), lo, hi) {
            Err(e) => Err(e),
            Ok(front) => match emitted(rs.last(), lo, hi) {
                Err(e) => Err(e),
                Ok(back) => Ok(front + back),
            },
        }
    }
}

/// The records written out whole, one after the other.
pub open spec fn serialized_all(rs: Seq<RecordView>) -> Seq<u8>
    decreases rs.len(),
{
    if rs.len() == 0 {
        Seq::empty()
    } else {
        serialized_all(rs.drop_last()) + serialized(rs.last())
    }
}

/// Appends `src[from..to]` to `out`.
pub(crate) fn append(out: &mut Vec<u8>, src: &[u8], from: usize, to: usize)
    requires
        from <= to <= src@.len(),
    ensures
        final(out)@ == old(out)@ + src@.subrange(from as int, to as int),
{
    let ghost start = out@;
    let mut i: usize = from;
    while i < to
        invariant
            from <= i <= to <= src@.len(),
            out@ == start + src@.subrange(from as int, i as int),
        decreases to - i,
    {
        out.push(src[i]);
        proof {
            assert(src@.subrange(from as int, i + 1) =~= src@.subrange(from as int, i as int).push(
                src@[i as int],
            ));
            assert(start + src@.subrange(from as int, i + 1) =~= (start + src@.subrange(
                from as int,
                i as int,
            )).push(src@[i as int]));
        }
        i = i + 1;
    }
}

/// Writes the record in its own form with its bases, and its quality when
/// present, cut to the inclusive interval `[pos_min, pos_max]`. The
/// identifier and separator line are kept as they are.
pub fn format_print(record: &Record, pos_min: usize, pos_max: usize) -> (r: Result<
    Vec<u8>,
    RegionError,
>)
    requires
        pos_min <= pos_max,
    ensures
        r is Err <==> pos_max >= record@.seq.len(),
        r matches Err(e) ==> e == RegionError::RecordTooShort,
        r matches Ok(v) ==> emitted(record@, pos_min as int, pos_max as int) == Ok::<
            Seq<u8>,
            RegionError,
        >(v@),
{
    let seq = record.seq();
    if pos_max >= seq.len() {
        return Err(RegionError::RecordTooShort);
    }
    let id = record.id();
    let mut out: Vec<u8> = Vec::new();
    let ghost v = record@;
    let ghost t = trimmed(v, pos_min as int, pos_max as int);
    match (record.plus(), record.qual()) {
        (Some(plus), Some(qual)) => {
            out.push(FASTQ_MARK);
            append(&mut out, id, 0, id.len());
            out.push(NEWLINE);
            append(&mut out, seq, pos_min, pos_max + 1);
            out.push(NEWLINE);
            append(&mut out, plus, 0, plus.len());
            out.push(NEWLINE);
            append(&mut out, qual, pos_min, pos_max + 1);
            out.push(NEWLINE);
            proof {
                assert(id@.subrange(0, id@.len() as int) =~= id@);
                assert(plus@.subrange(0, plus@.len() as int) =~= plus@);
                assert(out@ =~= serialized(t));
            }
        },
        _ => {
            out.push(FASTA_MARK);
            append(&mut out, id, 0, id.len());
            out.push(NEWLINE);
            append(&mut out, seq, pos_min, pos_max + 1);
            out.push(NEWLINE);
            proof {
                assert(id@.subrange(0, id@.len() as int) =~= id@);
                assert(out@ =~= serialized(t));
            }
        },
    }
    Ok(out)
}

/// Writes every record cut to `[pos_min, pos_max]`, in order; fails at the
/// first record too short to supply the interval.
pub fn write_to_output(records: &Vec<Record>, pos_min: usize, pos_max: usize) -> (r: Result<
    Vec<u8>,
    RegionError,
>)
    requires
        pos_min <= pos_max,
    ensures
        r is Err <==> emitted_all(records@.map_values(|x: Record| x@), pos_min as int, pos_max as int) is Err,
        r matches Err(e) ==> e == RegionError::RecordTooShort,
        r matches Ok(v) ==> emitted_all(
            records@.map_values(|x: Record| x@),
            pos_min as int,
            pos_max as int,
        ) == Ok::<Seq<u8>, RegionError>(v@),
{
    let ghost views = records@.map_values(|x: Record| x@);
    let mut out: Vec<u8> = Vec::new();
    let mut k: usize = 0;
    while k < records.len()
        invariant
            k <= records@.len(),
            pos_min <= pos_max,
            views == records@.map_values(|x: Record| x@),
            emitted_all(views.subrange(0, k as int), pos_min as int, pos_max as int) == Ok::<
                Seq<u8>,
                RegionError,
            >(out@),
        decreases records@.len() - k,
    {
        let ghost front = views.subrange(0, k as int);
        let ghost next = views.subrange(0, k + 1);
        proof {
            assert(next.drop_last() =~= front);
            assert(next.last() == records@[k as int]@);
        }
        match format_print(&records[k], pos_min, pos_max) {
            Ok(mut bytes) => {
                out.append(&mut bytes);
            },
            Err(e) => {
                proof {
                    lemma_emitted_all_stops(views, pos_min as int, pos_max as int, k as int);
                }
                return Err(e);
            },
        }
        k = k + 1;
    }
    proof {
        assert(views.subrange(0, records@.len() as int) =~= views);
    }
    Ok(out)
}

/// Once a record of the run is too short, the whole run fails.
proof fn lemma_emitted_all_stops(rs: Seq<RecordView>, lo: int, hi: int, k: int)
    requires
        0 <= k < rs.len(),
        emitted(rs[k], lo, hi) is Err,
        emitted_all(rs.subrange(0, k), lo, hi) is Ok,
    ensures
        emitted_all(rs, lo, hi) is Err,
    decreases rs.len(),
{
    let n = rs.len();
    if k == n - 1 {
        assert(rs.drop_last() =~= rs.subrange(0, k));
    } else {
        assert(rs.drop_last().subrange(0, k) =~= rs.subrange(0, k));
        lemma_emitted_all_stops(rs.drop_last(), lo, hi, k);
    }
}

/// Emitting a record over its full length `[0, L - 1]` gives back the record
/// as it was, byte for byte.
pub proof fn lemma_full_interval_round_trip(r: RecordView)
    requires
        well_formed(r),
        r.seq.len() > 0,
    ensures
        emitted(r, 0, r.seq.len() - 1) == Ok::<Seq<u8>, RegionError>(serialized(r)),
{
    let t = trimmed(r, 0, r.seq.len() - 1);
    assert(t.seq =~= r.seq);
    if let Some((plus, qual)) = r.quality {
        assert(qual.subrange(0, r.seq.len() as int) =~= qual);
    }
    assert(t == r);
}

/// Emitting a run of records of common length `L` over `[0, L - 1]` gives
/// back the run as it was, byte for byte.
pub proof fn lemma_round_trip_all(rs: Seq<RecordView>, len: int)
    requires
        len > 0,
        forall|k: int| 0 <= k < rs.len() ==> well_formed(#[trigger] rs[k]) && rs[k].seq.len() == len,
    ensures
        emitted_all(rs, 0, len - 1) == Ok::<Seq<u8>, RegionError>(serialized_all(rs)),
    decreases rs.len(),
{
    if rs.len() > 0 {
        let front = rs.drop_last();
        assert forall|k: int| 0 <= k < front.len() implies well_formed(#[trigger] front[k])
            && front[k].seq.len() == len by {
            assert(front[k] == rs[k]);
        }
        lemma_round_trip_all(front, len);
        lemma_full_interval_round_trip(rs.last());
    }
}

} // verus!
