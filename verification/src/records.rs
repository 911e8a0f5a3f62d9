//! The CSV tables the simulator reads (the station ephemeris and the
//! azimuth/elevation/range debris observations): which records are used and
//! the text of their fields, and which neighbouring samples a finite
//! difference uses.

use vstd::prelude::*;
use crate::text::{texts, trimmed, trimmed_of, trim, trim_byte};

verus! {

/// The records of a CSV document whose first row is a header: every record
/// after the header that the `csv` reader accepts (default settings: comma
/// separated, double-quote quoting, as many fields as the header), each field
/// as its bytes.  Records the reader rejects are left out.
pub uninterp spec fn csv_data_records(content: Seq<u8>) -> Seq<Seq<Seq<u8>>>;

/// Contents of a list of records.
pub open spec fn records_text(v: Seq<Vec<Vec<u8>>>) -> Seq<Seq<Seq<u8>>> {
    v.map_values(|r: Vec<Vec<u8>>| texts(r@))
}

/// Reads every record after the header row with `csv::ReaderBuilder`
/// (`has_headers(true)`, `from_reader`, `records`), keeping the records read
/// without error.  Trusted: the result is taken to be `csv_data_records` of
/// the bytes given; nothing more about the CSV grammar is stated.
#[verifier::external_body]
fn csv_records(content: &[u8]) -> (r: Vec<Vec<Vec<u8>>>)
    ensures
        records_text(r@) == csv_data_records(content@),
{
    let mut reader = csv::ReaderBuilder::new().has_headers(true).from_reader(content);
    let mut out: Vec<Vec<Vec<u8>>> = Vec::new();
    for result in reader.records() {
        if let Ok(record) = result {
            out.push(record.iter().map(|f| f.as_bytes().to_vec()).collect());
        }
    }
    out
}

/// The records with at least `width` fields, in order.
pub open spec fn records_with_fields(recs: Seq<Seq<Seq<u8>>>, width: nat) -> Seq<Seq<Seq<u8>>>
    decreases recs.len(),
{
    if recs.len() == 0 {
        Seq::empty()
    } else {
        let kept = records_with_fields(recs.drop_last(), width);
        if recs.last().len() >= width {
            kept.push(recs.last())
        } else {
            kept
        }
    }
}

/// The first `width` fields of a record: the first (a time stamp) with its
/// surrounding double quotes removed, the others with surrounding whitespace
/// removed.
pub open spec fn row_fields(rec: Seq<Seq<u8>>, width: nat) -> Seq<Seq<u8>> {
    Seq::new(width, |i: int| if i == 0 { trimmed_of(rec[0], 34) } else { trimmed(rec[i]) })
}

/// The rows of a table: from each record with at least `width` fields, the
/// text of its first `width` fields (see `row_fields`).
pub fn select_rows(records: &Vec<Vec<Vec<u8>>>, width: usize) -> (rows: Vec<Vec<Vec<u8>>>)
    requires
        width >= 1,
    ensures
        rows.len() == records_with_fields(records_text(records@), width as nat).len(),
        forall|k: int|
            0 <= k < rows.len() ==> texts(#[trigger] rows@[k]@) == row_fields(
                records_with_fields(records_text(records@), width as nat)[k],
                width as nat,
            ),
{
    let ghost recs = records_text(records@);
    let mut rows: Vec<Vec<Vec<u8>>> = Vec::new();
    let mut k: usize = 0;
    while k < records.len()
        invariant
            0 <= k <= records.len(),
            width >= 1,
            recs == records_text(records@),
            rows.len() == records_with_fields(recs.take(k as int), width as nat).len(),
            forall|q: int|
                0 <= q < rows.len() ==> texts(#[trigger] rows@[q]@) == row_fields(
                    records_with_fields(recs.take(k as int), width as nat)[q],
                    width as nat,
                ),
        decreases records.len() - k,
    {
        let rec = &records[k];
        assert(recs.take(k + 1).drop_last() =~= recs.take(k as int));
        assert(recs.take(k + 1).last() == recs[k as int]);
        assert(recs[k as int] == texts(rec@));
        if rec.len() >= width {
            let mut fields: Vec<Vec<u8>> = Vec::new();
            let mut i: usize = 0;
            while i < width
                invariant
                    0 <= i <= width <= rec.len(),
                    fields.len() == i,
                    forall|j: int|
                        0 <= j < i ==> (#[trigger] fields@[j])@ == row_fields(texts(rec@), width as nat)[j],
                decreases width - i,
            {
                assert(texts(rec@)[i as int] == rec@[i as int]@);
                let f = if i == 0 {
                    trim_byte(rec[i].as_slice(), 34)
                } else {
                    trim(rec[i].as_slice())
                };
                fields.push(f);
                i += 1;
            }
            assert(texts(fields@) =~= row_fields(texts(rec@), width as nat));
            rows.push(fields);
        }
        k += 1;
    }
    assert(recs.take(k as int) =~= recs);
    rows
}

/// Rows of an azimuth/elevation/range table: time, azimuth, elevation, range.
pub fn aer_rows(content: &[u8]) -> (rows: Vec<Vec<Vec<u8>>>)
    ensures
        rows.len() == records_with_fields(csv_data_records(content@), 4).len(),
        forall|k: int|
            0 <= k < rows.len() ==> texts(#[trigger] rows@[k]@) == row_fields(
                records_with_fields(csv_data_records(content@), 4)[k],
                4,
            ),
{
    let records = csv_records(content);
    select_rows(&records, 4)
}

/// Rows of the station ephemeris table: time, latitude, longitude, altitude
/// and the three velocity components.
pub fn ephemeris_rows(content: &[u8]) -> (rows: Vec<Vec<Vec<u8>>>)
    ensures
        rows.len() == records_with_fields(csv_data_records(content@), 7).len(),
        forall|k: int|
            0 <= k < rows.len() ==> texts(#[trigger] rows@[k]@) == row_fields(
                records_with_fields(csv_data_records(content@), 7)[k],
                7,
            ),
{
    let records = csv_records(content);
    select_rows(&records, 7)
}

/// Samples used to estimate the velocity of sample `i` of `n` by finite
/// differences: the two neighbours inside the series, the first two at the
/// start, the last two at the end; none for a single sample.
pub open spec fn stencil(i: int, n: int) -> Option<(usize, usize)> {
    if 0 < i && i < n - 1 {
        Some(((i - 1) as usize, (i + 1) as usize))
    } else if i == 0 && n > 1 {
        Some((0, 1))
    } else if i == n - 1 && n > 1 {
        Some(((n - 2) as usize, (n - 1) as usize))
    } else {
        None
    }
}

/// The records a table keeps: in their order, exactly the records with at
/// least `width` fields.
pub proof fn lemma_records_kept(recs: Seq<Seq<Seq<u8>>>, width: nat)
    ensures
        records_with_fields(recs, width) == recs.filter(|r: Seq<Seq<u8>>| r.len() >= width),
    decreases recs.len(),
{
    reveal(Seq::filter);
    if recs.len() > 0 {
        lemma_records_kept(recs.drop_last(), width);
    }
}

/// The two samples of a finite difference: distinct, in order, inside the
/// series and around sample `i`; the two neighbours of an inner sample, the
/// sample and its only neighbour at either end of a longer series.
pub proof fn lemma_stencil_neighbours(i: int, n: int)
    requires
        0 <= i < n <= usize::MAX,
    ensures
        n == 1 <==> stencil(i, n) is None,
        stencil(i, n) matches Some((a, b)) ==> {
            &&& 0 <= a < b < n
            &&& a <= i <= b
            &&& (0 < i < n - 1 ==> a == i - 1 && b == i + 1)
            &&& (i == 0 || i == n - 1 ==> b == a + 1)
        },
{
}

/// Which samples the finite-difference velocity of sample `i` of `n` uses.
pub fn velocity_stencil(i: usize, n: usize) -> (r: Option<(usize, usize)>)
    requires
        i < n,
    ensures
        r == stencil(i as int, n as int),
        r matches Some((a, b)) ==> a < b < n,
{
    if i > 0 && i < n - 1 {
        Some((i - 1, i + 1))
    } else if i == 0 && n > 1 {
        Some((0, 1))
    } else if i == n - 1 && n > 1 {
        Some((n - 2, n - 1))
    } else {
        None
    }
}

/// Start of the pair of samples a time is interpolated between, from the
/// number `idx` of samples at or before that time: the last such sample,
/// kept at least one before the end of the series.
pub fn bracket_start(idx: usize, len: usize) -> (r: usize)
    requires
        len >= 2,
    ensures
        r == (if idx == 0 { 0 } else if idx - 1 < len - 2 { idx - 1 } else { len - 2 }),
        r + 1 < len,
{
    let prev = if idx == 0 { 0 } else { idx - 1 };
    if prev < len - 2 {
        prev
    } else {
        len - 2
    }
}

} // verus!
