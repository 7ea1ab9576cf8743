//! Truth tables read from CSV data.

use vstd::prelude::*;

use crate::bit::{bit_of, Bit};
use crate::table::{Entry, Truth};

verus! {

/// csv's error type, carried as an opaque value from `read_records` to the row builder.
#[verifier::external_type_specification]
#[verifier::external_body]
pub struct ExCsvError(csv::Error);

/// The records of CSV data read without a header row: for each record in order, its
/// fields, or `None` where reading it failed.
pub uninterp spec fn csv_records(data: Seq<u8>) -> Seq<Option<Seq<Seq<char>>>>;

/// The integer a text spells in decimal, when it spells one that fits in an `i32`.
pub uninterp spec fn i32_of(s: Seq<char>) -> Option<i32>;

/// The fields of a record.
pub open spec fn fields(f: Vec<String>) -> Seq<Seq<char>> {
    f@.map_values(|s: String| s@)
}

/// The records as read, with failed ones as `None`.
pub open spec fn record_fields(recs: Seq<Result<Vec<String>, csv::Error>>) -> Seq<Option<Seq<Seq<char>>>> {
    recs.map_values(
        |r: Result<Vec<String>, csv::Error>|
            match r {
                Ok(f) => Some(fields(f)),
                Err(_) => None,
            },
    )
}

/// Relies on csv's `ReaderBuilder` (headers off) and its string-record iterator: it
/// yields every record of the data in order, each as its fields or as the error met
/// reading it, and the records depend on the data alone.
#[verifier::external_body]
fn read_records(data: &[u8]) -> (r: Vec<Result<Vec<String>, csv::Error>>)
    ensures
        record_fields(r@) == csv_records(data@),
{
    let mut rdr = csv::ReaderBuilder::new().has_headers(false).from_reader(data);
    rdr.records().map(|rec| rec.map(|fs| fs.iter().map(|f| f.to_string()).collect())).collect()
}

/// Relies on `str::parse::<i32>`: the value of the decimal integer the text spells, or
/// an error when it spells none that fits.
#[verifier::external_body]
fn parse_i32(s: &str) -> (r: Option<i32>)
    ensures
        r == i32_of(s@),
{
    s.parse::<i32>().ok()
}

/// A cell is set when it holds a nonzero integer; any other text counts as clear.
pub open spec fn cell_bit(s: Seq<char>) -> bool {
    match i32_of(s) {
        Some(v) => v != 0,
        None => false,
    }
}

/// The inputs of a record: its leftmost `nin` cells.
pub open spec fn row_input(f: Seq<Seq<char>>, nin: nat) -> Seq<Bit> {
    Seq::new(nin, |i: int| bit_of(cell_bit(f[i])))
}

/// The outputs of a record: its rightmost `nout` cells.
pub open spec fn row_output(f: Seq<Seq<char>>, nout: nat) -> Seq<bool> {
    Seq::new(nout, |j: int| cell_bit(f[f.len() - nout + j]))
}

/// The record was read and has enough cells for the inputs and for the outputs.
pub open spec fn usable(rec: Option<Seq<Seq<char>>>, nin: nat, nout: nat) -> bool {
    rec matches Some(f) && f.len() >= nin && f.len() >= nout
}

/// Why CSV data does not give a truth table. Lines count from 1, header lines included.
#[derive(Clone, Copy, Debug, PartialEq, Eq, Structural)]
pub enum ParseError {
    /// The record on this line could not be read.
    Malformed(usize),
    /// The record on this line has fewer cells than the inputs or the outputs need.
    Short(usize),
}

/// `r` is what the records give after `nheader` header records: a row per record, or
/// the error of the first record that gives none.
pub open spec fn parsed_as(
    recs: Seq<Option<Seq<Seq<char>>>>,
    nheader: nat,
    nin: nat,
    nout: nat,
    r: Result<Truth, ParseError>,
) -> bool {
    match r {
        Ok(t) => {
            &&& forall|k: int| nheader <= k < recs.len() ==> #[trigger] usable(recs[k], nin, nout)
            &&& t.table@.len() == (if recs.len() > nheader {
                recs.len() - nheader
            } else {
                0
            })
            &&& forall|k: int|
                0 <= k < t.table@.len() ==> (#[trigger] t.table@[k]).input@ == row_input(
                    recs[nheader + k].unwrap(),
                    nin,
                ) && t.table@[k].output@ == row_output(recs[nheader + k].unwrap(), nout)
        },
        Err(ParseError::Malformed(line)) => {
            &&& nheader < line <= recs.len()
            &&& recs[line - 1] is None
            &&& forall|k: int| nheader <= k < line - 1 ==> #[trigger] usable(recs[k], nin, nout)
        },
        Err(ParseError::Short(line)) => {
            &&& nheader < line <= recs.len()
            &&& recs[line - 1] is Some
            &&& !usable(recs[line - 1], nin, nout)
            &&& forall|k: int| nheader <= k < line - 1 ==> #[trigger] usable(recs[k], nin, nout)
        },
    }
}

/// Whether a cell is set.
fn cell(s: &String) -> (r: bool)
    ensures
        r == cell_bit(s@),
{
    match parse_i32(s.as_str()) {
        Some(v) => v != 0,
        None => false,
    }
}

/// Builds a truth table from CSV records: `nheader` records are skipped, then each
/// record gives a row whose inputs are its leftmost `nin` cells and whose outputs are
/// its rightmost `nout` cells (cells between them are ignored).
pub fn records_to_table(
    records: &Vec<Result<Vec<String>, csv::Error>>,
    nheader: usize,
    nin: usize,
    nout: usize,
) -> (r: Result<Truth, ParseError>)
    ensures
        parsed_as(record_fields(records@), nheader as nat, nin as nat, nout as nat, r),
{
    let ghost recs = record_fields(records@);
    let mut tbl = Truth::default();
    let mut k: usize = nheader;
    while k < records.len()
        invariant
            recs == record_fields(records@),
            nheader <= k,
            k <= records@.len() || k == nheader,
            tbl.table@.len() == k - nheader,
            forall|a: int| nheader <= a < k ==> #[trigger] usable(recs[a], nin as nat, nout as nat),
            forall|a: int|
                0 <= a < tbl.table@.len() ==> (#[trigger] tbl.table@[a]).input@ == row_input(
                    recs[nheader + a].unwrap(),
                    nin as nat,
                ) && tbl.table@[a].output@ == row_output(recs[nheader + a].unwrap(), nout as nat),
        decreases records@.len() - k,
    {
        match &records[k] {
            Err(_) => {
                return Err(ParseError::Malformed(k + 1));
            },
            Ok(rec) => {
                let ghost f = fields(*rec);
                assert(recs[k as int] == Some(f));
                if rec.len() < nin || rec.len() < nout {
                    return Err(ParseError::Short(k + 1));
                }
                let mut input: Vec<Bit> = Vec::new();
                let mut i: usize = 0;
                while i < nin
                    invariant
                        i <= nin,
                        nin <= rec@.len(),
                        f == fields(*rec),
                        input@ == row_input(f, nin as nat).take(i as int),
                    decreases nin - i,
                {
                    input.push(Bit::new(cell(&rec[i])));
                    i = i + 1;
                    assert(input@ =~= row_input(f, nin as nat).take(i as int));
                }
                let mut output: Vec<bool> = Vec::new();
                let mincol = rec.len() - nout;
                let mut j: usize = mincol;
                while j < rec.len()
                    invariant
                        mincol <= j <= rec@.len(),
                        mincol == rec@.len() - nout,
                        f == fields(*rec),
                        output@ == row_output(f, nout as nat).take(j - mincol),
                    decreases rec@.len() - j,
                {
                    output.push(cell(&rec[j]));
                    j = j + 1;
                    assert(output@ =~= row_output(f, nout as nat).take(j - mincol));
                }
                assert(input@ =~= row_input(f, nin as nat));
                assert(output@ =~= row_output(f, nout as nat));
                tbl.table.push(Entry { input, output });
            },
        }
        k = k + 1;
    }
    Ok(tbl)
}

/// Reads a truth table from CSV data; see `records_to_table`.
pub fn parse(data: &[u8], nheader: usize, nin: usize, nout: usize) -> (r: Result<Truth, ParseError>)
    ensures
        parsed_as(csv_records(data@), nheader as nat, nin as nat, nout as nat, r),
{
    let records = read_records(data);
    records_to_table(&records, nheader, nin, nout)
}

} // verus!
