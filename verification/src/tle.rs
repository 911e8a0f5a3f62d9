//! Two-line element sets: splitting a TLE file into its name and element
//! lines, and cutting the fixed-width element fields out of the lines.
//!
//! The fields are returned as trimmed text; converting them to numbers is
//! left to the caller.

use vstd::prelude::*;
use crate::text::{trimmed, lines_from, texts, split_lines, trim, copy_range};

verus! {

/// "UNKNOWN", the name given to a TLE file without a name line.
pub open spec fn unknown_name() -> Seq<u8> {
    seq![85u8, 78, 75, 78, 79, 87, 78]
}

/// The three lines of a TLE set, each trimmed.
pub struct TleLines {
    pub name: Vec<u8>,
    pub line1: Vec<u8>,
    pub line2: Vec<u8>,
}

/// Line `k` of `ls`, or `default` when there is no such line.
pub open spec fn line_or(ls: Seq<Seq<u8>>, k: int, default: Seq<u8>) -> Seq<u8> {
    if k < ls.len() {
        ls[k]
    } else {
        default
    }
}

fn unknown() -> (r: Vec<u8>)
    ensures
        r@ == unknown_name(),
{
    let r = vec![85u8, 78, 75, 78, 79, 87, 78];
    assert(r@ =~= unknown_name());
    r
}

/// Takes the first three lines of a TLE file: the name (default "UNKNOWN")
/// and the two element lines (default empty), each trimmed.
pub fn tle_record_lines(content: &[u8]) -> (r: TleLines)
    ensures
        r.name@ == trimmed(line_or(lines_from(content@, 0), 0, unknown_name())),
        r.line1@ == trimmed(line_or(lines_from(content@, 0), 1, Seq::empty())),
        r.line2@ == trimmed(line_or(lines_from(content@, 0), 2, Seq::empty())),
{
    let lines = split_lines(content);
    let ghost ls = lines_from(content@, 0);
    let name = if lines.len() > 0 {
        assert(texts(lines@)[0] == lines@[0]@);
        trim(lines[0].as_slice())
    } else {
        let u = unknown();
        trim(u.as_slice())
    };
    let empty: Vec<u8> = Vec::new();
    assert(empty@ =~= Seq::<u8>::empty());
    let line1 = if lines.len() > 1 {
        assert(texts(lines@)[1] == lines@[1]@);
        trim(lines[1].as_slice())
    } else {
        trim(empty.as_slice())
    };
    let line2 = if lines.len() > 2 {
        assert(texts(lines@)[2] == lines@[2]@);
        trim(lines[2].as_slice())
    } else {
        trim(empty.as_slice())
    };
    TleLines { name, line1, line2 }
}

/// The text of columns `start..end` of a line (clipped to the line), trimmed;
/// none when the clipped range is empty.
pub open spec fn column_text(s: Seq<u8>, start: int, end: int) -> Option<Seq<u8>> {
    let e = if end < s.len() { end } else { s.len() as int };
    if start >= e {
        None
    } else {
        Some(trimmed(s.subrange(start, e)))
    }
}

/// Contents of an optional byte string.
pub open spec fn opt_text(o: Option<Vec<u8>>) -> Option<Seq<u8>> {
    match o {
        Some(v) => Some(v@),
        None => None,
    }
}

/// Text of columns `start..end` of a line, clipped to the line and trimmed.
pub fn tle_column(s: &[u8], start: usize, end: usize) -> (r: Option<Vec<u8>>)
    ensures
        opt_text(r) == column_text(s@, start as int, end as int),
{
    let e = if end < s.len() { end } else { s.len() };
    if start >= e {
        None
    } else {
        let piece = copy_range(s, start, e);
        Some(trim(piece.as_slice()))
    }
}

/// The element fields of a TLE set, as trimmed text.
pub struct TleFieldTexts {
    /// Inclination (degrees), line 2 columns 8..16.
    pub inclination: Option<Vec<u8>>,
    /// Right ascension of the ascending node (degrees), line 2 columns 17..25.
    pub raan: Option<Vec<u8>>,
    /// Eccentricity digits after an implied "0.", line 2 columns 26..33.
    pub eccentricity_digits: Vec<u8>,
    /// Argument of perigee (degrees), line 2 columns 34..42.
    pub arg_perigee: Option<Vec<u8>>,
    /// Mean anomaly (degrees), line 2 columns 43..51.
    pub mean_anomaly: Option<Vec<u8>>,
    /// Mean motion (revolutions per day), line 2 columns 52..63.
    pub mean_motion: Option<Vec<u8>>,
    /// Epoch (YYDDD.DDDDDDDD), line 1 columns 18..32.
    pub epoch: Vec<u8>,
}

/// Cuts the element fields out of the two element lines of a TLE set.
pub fn tle_fields(line1: &[u8], line2: &[u8]) -> (r: TleFieldTexts)
    requires
        line1.len() >= 32,
        line2.len() >= 33,
    ensures
        opt_text(r.inclination) == column_text(line2@, 8, 16),
        opt_text(r.raan) == column_text(line2@, 17, 25),
        r.eccentricity_digits@ == trimmed(line2@.subrange(26, 33)),
        opt_text(r.arg_perigee) == column_text(line2@, 34, 42),
        opt_text(r.mean_anomaly) == column_text(line2@, 43, 51),
        opt_text(r.mean_motion) == column_text(line2@, 52, 63),
        r.epoch@ == trimmed(line1@.subrange(18, 32)),
{
    let inclination = tle_column(line2, 8, 16);
    let raan = tle_column(line2, 17, 25);
    let ecc = copy_range(line2, 26, 33);
    let eccentricity_digits = trim(ecc.as_slice());
    let arg_perigee = tle_column(line2, 34, 42);
    let mean_anomaly = tle_column(line2, 43, 51);
    let mean_motion = tle_column(line2, 52, 63);
    let ep = copy_range(line1, 18, 32);
    let epoch = trim(ep.as_slice());
    TleFieldTexts { inclination, raan, eccentricity_digits, arg_perigee, mean_anomaly, mean_motion, epoch }
}

/// The trimmed, non-blank lines among the first `n` lines, in order.
pub open spec fn content_lines(ls: Seq<Seq<u8>>, n: int) -> Seq<Seq<u8>>
    decreases n,
{
    if n <= 0 {
        Seq::empty()
    } else {
        let before = content_lines(ls, n - 1);
        if trimmed(ls[n - 1]).len() > 0 {
            before.push(trimmed(ls[n - 1]))
        } else {
            before
        }
    }
}

/// The lines a catalogue is read from: in their order, the trimmed lines
/// that are not blank.
pub proof fn lemma_content_lines_kept(ls: Seq<Seq<u8>>)
    ensures
        content_lines(ls, ls.len() as int) == ls.map_values(|l: Seq<u8>| trimmed(l)).filter(
            |t: Seq<u8>| t.len() > 0,
        ),
    decreases ls.len(),
{
    reveal(Seq::filter);
    if ls.len() > 0 {
        let prev = ls.drop_last();
        lemma_content_lines_kept(prev);
        lemma_content_lines_prefix(ls, prev, prev.len() as int);
        assert(ls.map_values(|l: Seq<u8>| trimmed(l)).drop_last() =~= prev.map_values(|l: Seq<u8>| trimmed(l)));
    }
}

proof fn lemma_content_lines_prefix(a: Seq<Seq<u8>>, b: Seq<Seq<u8>>, n: int)
    requires
        0 <= n <= a.len(),
        n <= b.len(),
        forall|i: int| 0 <= i < n ==> a[i] == b[i],
    ensures
        content_lines(a, n) == content_lines(b, n),
    decreases n,
{
    if n > 0 {
        lemma_content_lines_prefix(a, b, n - 1);
    }
}

/// Splits a catalogue file holding many TLE sets: its non-blank lines,
/// trimmed, taken three at a time as name, line 1 and line 2; a trailing
/// incomplete set is ignored.
pub fn tle_sets(content: &[u8]) -> (r: Vec<TleLines>)
    ensures
        ({
            let kept = content_lines(lines_from(content@, 0), lines_from(content@, 0).len() as int);
            &&& r.len() == kept.len() / 3
            &&& forall|k: int|
                0 <= k < r.len() ==> {
                    &&& (#[trigger] r[k]).name@ == kept[3 * k]
                    &&& r[k].line1@ == kept[3 * k + 1]
                    &&& r[k].line2@ == kept[3 * k + 2]
                }
        }),
{
    let lines = split_lines(content);
    let ghost ls = lines_from(content@, 0);
    let mut kept: Vec<Vec<u8>> = Vec::new();
    let mut i: usize = 0;
    while i < lines.len()
        invariant
            0 <= i <= lines.len(),
            texts(lines@) == ls,
            texts(kept@) == content_lines(ls, i as int),
        decreases lines.len() - i,
    {
        assert(texts(lines@)[i as int] == lines@[i as int]@);
        let t = trim(lines[i].as_slice());
        if t.len() > 0 {
            let ghost before = kept@;
            kept.push(t);
            assert(texts(kept@) =~= texts(before).push(t@));
        }
        i += 1;
    }
    let ghost all = texts(kept@);
    let mut sets: Vec<TleLines> = Vec::new();
    let mut k: usize = 0;
    let count = kept.len() / 3;
    let parts = kept;
    while k < count
        invariant
            0 <= k <= count,
            count == all.len() / 3,
            parts.len() == all.len(),
            texts(parts@) == all,
            sets.len() == k,
            forall|q: int|
                0 <= q < k ==> {
                    &&& (#[trigger] sets[q]).name@ == all[3 * q]
                    &&& sets[q].line1@ == all[3 * q + 1]
                    &&& sets[q].line2@ == all[3 * q + 2]
                },
        decreases count - k,
    {
        assert(3 * k + 2 < parts.len()) by {
            assert(k < all.len() / 3);
        }
        assert(texts(parts@)[3 * k as int] == parts@[3 * k as int]@);
        assert(texts(parts@)[3 * k + 1] == parts@[3 * k + 1]@);
        assert(texts(parts@)[3 * k + 2] == parts@[3 * k + 2]@);
        let name = copy_range(parts[3 * k].as_slice(), 0, parts[3 * k].len());
        let line1 = copy_range(parts[3 * k + 1].as_slice(), 0, parts[3 * k + 1].len());
        let line2 = copy_range(parts[3 * k + 2].as_slice(), 0, parts[3 * k + 2].len());
        assert(name@ =~= parts@[3 * k as int]@);
        assert(line1@ =~= parts@[3 * k + 1]@);
        assert(line2@ =~= parts@[3 * k + 2]@);
        sets.push(TleLines { name, line1, line2 });
        k += 1;
    }
    sets
}

} // verus!
