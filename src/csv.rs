//! Conversion of delimited tables into records without quality.

use crate::emit::append;
use crate::record::{FASTA_MARK, NEWLINE};
use vstd::prelude::*;
use vstd::utf8::encode_utf8;

verus! {

/// The field separator of a table.
#[derive(Clone, Copy, Debug, PartialEq, Eq, Structural)]
pub enum Delimiter {
    Tab,
    Comma,
}

/// Why a table could not be converted.
#[derive(Clone, Copy, Debug, PartialEq, Eq, Structural)]
pub enum CsvError {
    /// No header of the table carries the name of the header column.
    MissingHeaderColumn,
    /// No header of the table carries the name of the sequence column.
    MissingSequenceColumn,
    /// The row of this index has no field under the header column.
    MissingHeader(usize),
    /// The row of this index has no field under the sequence column.
    MissingSequence(usize),
}

impl Delimiter {
    /// The separator byte: a tab or a comma.
    pub fn try_into(self) -> (r: Result<u8, CsvError>)
        ensures
            r == Ok::<u8, CsvError>(
                match self {
                    Delimiter::Tab => 9u8,
                    Delimiter::Comma => 44u8,
                },
            ),
    {
        match self {
            Self::Tab => Ok(9),
            Self::Comma => Ok(44),
        }
    }
}

/// The first index of `headers` that holds `column`.
pub open spec fn column_index(headers: Seq<String>, column: Seq<char>) -> Option<int>
    decreases headers.len(),
{
    if headers.len() == 0 {
        None
    } else {
        match column_index(headers.drop_last(), column) {
            Some(i) => Some(i),
            None => if headers.last()@ == column {
                Some(headers.len() - 1)
            } else {
                None
            },
        }
    }
}

/// The record written for a row: `>header\nsequence\n`.
pub open spec fn row_record(header: String, sequence: String) -> Seq<u8> {
    seq![FASTA_MARK] + encode_utf8(header@) + seq![NEWLINE] + encode_utf8(sequence@) + seq![
        NEWLINE,
    ]
}

/// The records written for the rows, taking the header from field `hi` and
/// the sequence from field `si`; the first row that lacks one is an error.
pub open spec fn rows_output(rows: Seq<Vec<String>>, hi: int, si: int) -> Result<
    Seq<u8>,
    CsvError,
>
    decreases rows.len(),
{
    if rows.len() == 0 {
        Ok(Seq::empty())
    } else {
        match rows_output(rows.drop_last(), hi, si) {
            Err(e) => Err(e),
            Ok(front) => {
                let row = rows.last()@;
                let k = (rows.len() - 1) as usize;
                if hi >= row.len() {
                    Err(CsvError::MissingHeader(k))
                } else if si >= row.len() {
                    Err(CsvError::MissingSequence(k))
                } else {
                    Ok(front + row_record(row[hi], row[si]))
                }
            },
        }
    }
}

/// What converting a table gives: the header and sequence columns are looked
/// up by name, the header column first, then each row becomes one record.
pub open spec fn table_output(
    headers: Seq<String>,
    rows: Seq<Vec<String>>,
    header_col: Seq<char>,
    sequence_col: Seq<char>,
) -> Result<Seq<u8>, CsvError> {
    match (column_index(headers, header_col), column_index(headers, sequence_col)) {
        (None, _) => Err(CsvError::MissingHeaderColumn),
        (Some(_), None) => Err(CsvError::MissingSequenceColumn),
        (Some(hi), Some(si)) => rows_output(rows, hi, si),
    }
}

/// The index of the first header equal to `column`; `None` when no header
/// is.
pub fn header_index(headers: &Vec<String>, column: &String) -> (r: Option<usize>)
    ensures
        r matches Some(i) ==> column_index(headers@, column@) == Some(i as int),
        r is None <==> column_index(headers@, column@) is None,
{
    let mut i: usize = 0;
    while i < headers.len()
        invariant
            i <= headers@.len(),
            column_index(headers@.subrange(0, i as int), column@) is None,
        decreases headers@.len() - i,
    {
        proof {
            lemma_column_index_prefix(headers@, column@, i as int);
        }
        if headers[i] == *column {
            return Some(i);
        }
        i = i + 1;
    }
    proof {
        assert(headers@.subrange(0, headers@.len() as int) =~= headers@);
    }
    None
}

/// Extending a prefix that lacks the column by one header.
proof fn lemma_column_index_prefix(headers: Seq<String>, column: Seq<char>, i: int)
    requires
        0 <= i < headers.len(),
        column_index(headers.subrange(0, i), column) is None,
    ensures
        column_index(headers.subrange(0, i + 1), column) == if headers[i]@ == column {
            Some(i)
        } else {
            None::<int>
        },
        headers[i]@ == column ==> column_index(headers, column) == Some(i),
    decreases headers.len(),
{
    assert(headers.subrange(0, i + 1).drop_last() =~= headers.subrange(0, i));
    if headers[i]@ == column {
        lemma_column_index_extends(headers, column, i + 1);
    }
}

/// A column found in a prefix is found at the same index in the whole.
proof fn lemma_column_index_extends(headers: Seq<String>, column: Seq<char>, n: int)
    requires
        0 <= n <= headers.len(),
        column_index(headers.subrange(0, n), column) is Some,
    ensures
        column_index(headers, column) == column_index(headers.subrange(0, n), column),
    decreases headers.len() - n,
{
    if n < headers.len() {
        assert(headers.subrange(0, n + 1).drop_last() =~= headers.subrange(0, n));
        lemma_column_index_extends(headers, column, n + 1);
    } else {
        assert(headers.subrange(0, n) =~= headers);
    }
}

/// Converts a table into records without quality: the header of each record
/// is the field under `header_col` and its bases are the field under
/// `sequence_col`.
pub fn run(
    headers: &Vec<String>,
    rows: &Vec<Vec<String>>,
    header_col: &String,
    sequence_col: &String,
) -> (r: Result<Vec<u8>, CsvError>)
    ensures
        r is Err <==> table_output(headers@, rows@, header_col@, sequence_col@) is Err,
        r matches Err(e) ==> table_output(headers@, rows@, header_col@, sequence_col@) == Err::<
            Seq<u8>,
            CsvError,
        >(e),
        r matches Ok(v) ==> table_output(headers@, rows@, header_col@, sequence_col@) == Ok::<
            Seq<u8>,
            CsvError,
        >(v@),
{
    let header_idx = match header_index(headers, header_col) {
        Some(i) => i,
        None => {
            return Err(CsvError::MissingHeaderColumn);
        },
    };
    let sequence_idx = match header_index(headers, sequence_col) {
        Some(i) => i,
        None => {
            return Err(CsvError::MissingSequenceColumn);
        },
    };
    let mut out: Vec<u8> = Vec::new();
    let mut k: usize = 0;
    while k < rows.len()
        invariant
            k <= rows@.len(),
            table_output(headers@, rows@, header_col@, sequence_col@) == rows_output(
                rows@,
                header_idx as int,
                sequence_idx as int,
            ),
            rows_output(rows@.subrange(0, k as int), header_idx as int, sequence_idx as int)
                == Ok::<Seq<u8>, CsvError>(out@),
        decreases rows@.len() - k,
    {
        let row = &rows[k];
        let ghost next = rows@.subrange(0, k + 1);
        proof {
            assert(next.drop_last() =~= rows@.subrange(0, k as int));
            assert(next.last() == rows@[k as int]);
        }
        if header_idx >= row.len() {
            proof {
                lemma_rows_output_stops(rows@, header_idx as int, sequence_idx as int, k as int);
            }
            return Err(CsvError::MissingHeader(k));
        }
        if sequence_idx >= row.len() {
            proof {
                lemma_rows_output_stops(rows@, header_idx as int, sequence_idx as int, k as int);
            }
            return Err(CsvError::MissingSequence(k));
        }
        let header = row[header_idx].as_str().as_bytes();
        let sequence = row[sequence_idx].as_str().as_bytes();
        let ghost before = out@;
        out.push(FASTA_MARK);
        append(&mut out, header, 0, header.len());
        out.push(NEWLINE);
        append(&mut out, sequence, 0, sequence.len());
        out.push(NEWLINE);
        proof {
            assert(header@.subrange(0, header@.len() as int) =~= header@);
            assert(sequence@.subrange(0, sequence@.len() as int) =~= sequence@);
            assert(out@ =~= before + row_record(row@[header_idx as int], row@[sequence_idx as int]));
        }
        k = k + 1;
    }
    proof {
        assert(rows@.subrange(0, rows@.len() as int) =~= rows@);
    }
    Ok(out)
}

/// The first row that lacks a field decides the error of the whole table.
proof fn lemma_rows_output_stops(rows: Seq<Vec<String>>, hi: int, si: int, k: int)
    requires
        0 <= k < rows.len(),
        rows_output(rows.subrange(0, k), hi, si) is Ok,
        rows_output(rows.subrange(0, k + 1), hi, si) is Err,
    ensures
        rows_output(rows, hi, si) == rows_output(rows.subrange(0, k + 1), hi, si),
    decreases rows.len() - k,
{
    if k + 1 < rows.len() {
        lemma_rows_output_err_extends(rows, hi, si, k + 1);
    } else {
        assert(rows.subrange(0, k + 1) =~= rows);
    }
}

/// An error in a prefix of the rows stays the error of the whole table.
proof fn lemma_rows_output_err_extends(rows: Seq<Vec<String>>, hi: int, si: int, n: int)
    requires
        0 <= n <= rows.len(),
        rows_output(rows.subrange(0, n), hi, si) is Err,
    ensures
        rows_output(rows, hi, si) == rows_output(rows.subrange(0, n), hi, si),
    decreases rows.len() - n,
{
    if n < rows.len() {
        assert(rows.subrange(0, n + 1).drop_last() =~= rows.subrange(0, n));
        lemma_rows_output_err_extends(rows, hi, si, n + 1);
    } else {
        assert(rows.subrange(0, n) =~= rows);
    }
}

} // verus!
