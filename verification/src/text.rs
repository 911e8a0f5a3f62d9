//! Byte-level text handling for the simulator's input formats: Unicode
//! whitespace, trimming, word and line splitting, and integer parsing.
//!
//! Text is handled as its UTF-8 bytes.  Every Unicode whitespace character
//! (the `White_Space` property, which `char::is_whitespace` follows) is
//! recognised by its encoding, so on the bytes of any `str` these functions
//! cut exactly where the standard `str` methods of the same name cut.

use vstd::prelude::*;

verus! {

/// ASCII whitespace: tab, line feed, vertical tab, form feed, carriage return, space.
pub open spec fn is_ascii_space(b: u8) -> bool {
    (9 <= b && b <= 13) || b == 32
}

/// The three-byte encodings of Unicode whitespace: U+1680, U+2000..U+200A,
/// U+2028, U+2029, U+202F, U+205F and U+3000.
pub open spec fn is_wide_space(a: u8, b: u8, c: u8) -> bool {
    ||| (a == 0xE1 && b == 0x9A && c == 0x80)
    ||| (a == 0xE2 && b == 0x80 && ((0x80 <= c && c <= 0x8A) || c == 0xA8 || c == 0xA9 || c == 0xAF))
    ||| (a == 0xE2 && b == 0x81 && c == 0x9F)
    ||| (a == 0xE3 && b == 0x80 && c == 0x80)
}

/// Length of the whitespace character encoded at `i` (0 when there is none).
/// The two-byte ones are U+0085 and U+00A0.
pub open spec fn space_width_at(s: Seq<u8>, i: int) -> int {
    if 0 <= i < s.len() && is_ascii_space(s[i]) {
        1
    } else if 0 <= i && i + 2 <= s.len() && s[i] == 0xC2 && (s[i + 1] == 0x85 || s[i + 1] == 0xA0) {
        2
    } else if 0 <= i && i + 3 <= s.len() && is_wide_space(s[i], s[i + 1], s[i + 2]) {
        3
    } else {
        0
    }
}

/// Length of the whitespace character whose encoding ends just before `j`
/// (0 when there is none).
pub open spec fn space_width_before(s: Seq<u8>, j: int) -> int {
    if 1 <= j <= s.len() && is_ascii_space(s[j - 1]) {
        1
    } else if 2 <= j <= s.len() && s[j - 2] == 0xC2 && (s[j - 1] == 0x85 || s[j - 1] == 0xA0) {
        2
    } else if 3 <= j <= s.len() && is_wide_space(s[j - 3], s[j - 2], s[j - 1]) {
        3
    } else {
        0
    }
}

/// First index at or after `i` that does not start a whitespace character.
pub open spec fn skip_spaces(s: Seq<u8>, i: int) -> int
    decreases s.len() - i,
{
    if 0 <= i < s.len() && space_width_at(s, i) > 0 {
        skip_spaces(s, i + space_width_at(s, i))
    } else {
        i
    }
}

/// Walking back from `j`, the end left after dropping trailing whitespace
/// characters that lie entirely at or after `lo`.
pub open spec fn drop_trailing_spaces(s: Seq<u8>, lo: int, j: int) -> int
    decreases j,
{
    if lo < j && j <= s.len() && space_width_before(s, j) > 0 && j - space_width_before(s, j) >= lo {
        drop_trailing_spaces(s, lo, j - space_width_before(s, j))
    } else {
        j
    }
}

/// `s` with leading and trailing whitespace removed (`str::trim`).
pub open spec fn trimmed(s: Seq<u8>) -> Seq<u8> {
    let lo = skip_spaces(s, 0);
    s.subrange(lo, drop_trailing_spaces(s, lo, s.len() as int))
}

pub proof fn lemma_skip_spaces_bounds(s: Seq<u8>, i: int)
    requires
        0 <= i <= s.len(),
    ensures
        i <= skip_spaces(s, i) <= s.len(),
        skip_spaces(s, i) < s.len() ==> space_width_at(s, skip_spaces(s, i)) == 0,
    decreases s.len() - i,
{
    if i < s.len() && space_width_at(s, i) > 0 {
        lemma_skip_spaces_bounds(s, i + space_width_at(s, i));
    }
}

pub proof fn lemma_drop_trailing_bounds(s: Seq<u8>, lo: int, j: int)
    requires
        0 <= lo <= j <= s.len(),
    ensures
        lo <= drop_trailing_spaces(s, lo, j) <= j,
    decreases j,
{
    if lo < j && space_width_before(s, j) > 0 && j - space_width_before(s, j) >= lo {
        lemma_drop_trailing_bounds(s, lo, j - space_width_before(s, j));
    }
}

/// The byte contents of a list of byte strings.
pub open spec fn texts(v: Seq<Vec<u8>>) -> Seq<Seq<u8>> {
    v.map_values(|w: Vec<u8>| w@)
}

/// Copy of `s[a..b]`.
pub fn copy_range(s: &[u8], a: usize, b: usize) -> (r: Vec<u8>)
    requires
        a <= b <= s.len(),
    ensures
        r@ == s@.subrange(a as int, b as int),
{
    let mut r: Vec<u8> = Vec::new();
    let mut k = a;
    while k < b
        invariant
            a <= k <= b <= s.len(),
            r@ == s@.subrange(a as int, k as int),
        decreases b - k,
    {
        r.push(s[k]);
        k += 1;
        assert(r@ =~= s@.subrange(a as int, k as int));
    }
    r
}

fn ascii_space(b: u8) -> (r: bool)
    ensures
        r == is_ascii_space(b),
{
    (9 <= b && b <= 13) || b == 32
}

fn wide_space(a: u8, b: u8, c: u8) -> (r: bool)
    ensures
        r == is_wide_space(a, b, c),
{
    (a == 0xE1 && b == 0x9A && c == 0x80) || (a == 0xE2 && b == 0x80 && ((0x80 <= c && c <= 0x8A)
        || c == 0xA8 || c == 0xA9 || c == 0xAF)) || (a == 0xE2 && b == 0x81 && c == 0x9F) || (a
        == 0xE3 && b == 0x80 && c == 0x80)
}

/// Length of the whitespace character encoded at `i` (0 when there is none).
pub fn space_width(s: &[u8], i: usize) -> (w: usize)
    requires
        i <= s.len(),
    ensures
        w == space_width_at(s@, i as int),
{
    let n = s.len();
    if i < n && ascii_space(s[i]) {
        1
    } else if 2 <= n - i && s[i] == 0xC2 && (s[i + 1] == 0x85 || s[i + 1] == 0xA0) {
        2
    } else if 3 <= n - i && wide_space(s[i], s[i + 1], s[i + 2]) {
        3
    } else {
        0
    }
}

fn space_width_ending(s: &[u8], j: usize) -> (w: usize)
    requires
        j <= s.len(),
    ensures
        w == space_width_before(s@, j as int),
{
    if 1 <= j && ascii_space(s[j - 1]) {
        1
    } else if 2 <= j && s[j - 2] == 0xC2 && (s[j - 1] == 0x85 || s[j - 1] == 0xA0) {
        2
    } else if 3 <= j && wide_space(s[j - 3], s[j - 2], s[j - 1]) {
        3
    } else {
        0
    }
}

/// First index at or after `i` that does not start a whitespace character.
pub fn skip_spaces_from(s: &[u8], i: usize) -> (r: usize)
    requires
        i <= s.len(),
    ensures
        r == skip_spaces(s@, i as int),
{
    let mut k = i;
    while k < s.len() && space_width(s, k) > 0
        invariant
            i <= k <= s.len(),
            skip_spaces(s@, k as int) == skip_spaces(s@, i as int),
        decreases s.len() - k,
    {
        k = k + space_width(s, k);
    }
    k
}

/// `s` with leading and trailing Unicode whitespace removed (`str::trim`).
pub fn trim(s: &[u8]) -> (r: Vec<u8>)
    ensures
        r@ == trimmed(s@),
{
    let lo = skip_spaces_from(s, 0);
    proof {
        lemma_skip_spaces_bounds(s@, 0);
    }
    let mut j = s.len();
    while lo < j && space_width_ending(s, j) > 0 && j - space_width_ending(s, j) >= lo
        invariant
            lo <= j <= s.len(),
            lo == skip_spaces(s@, 0),
            drop_trailing_spaces(s@, lo as int, j as int) == drop_trailing_spaces(
                s@,
                lo as int,
                s.len() as int,
            ),
        decreases j,
    {
        j = j - space_width_ending(s, j);
    }
    copy_range(s, lo, j)
}

/// ASCII text: every byte below 128.
pub open spec fn is_ascii_text(s: Seq<u8>) -> bool {
    forall|k: int| 0 <= k < s.len() ==> #[trigger] s[k] < 128
}

proof fn lemma_skip_spaces_ascii(s: Seq<u8>, i: int)
    requires
        0 <= i <= s.len(),
        is_ascii_text(s),
    ensures
        forall|k: int| i <= k < skip_spaces(s, i) ==> (9 <= #[trigger] s[k] <= 13 || s[k] == 32),
        skip_spaces(s, i) < s.len() ==> !(9 <= s[skip_spaces(s, i)] <= 13 || s[skip_spaces(s, i)] == 32),
    decreases s.len() - i,
{
    lemma_skip_spaces_bounds(s, i);
    if i < s.len() && space_width_at(s, i) > 0 {
        assert(s[i] < 128);
        lemma_skip_spaces_ascii(s, i + space_width_at(s, i));
    }
    if skip_spaces(s, i) < s.len() {
        assert(s[skip_spaces(s, i)] < 128);
    }
}

proof fn lemma_drop_trailing_ascii(s: Seq<u8>, lo: int, j: int)
    requires
        0 <= lo <= j <= s.len(),
        is_ascii_text(s),
    ensures
        forall|k: int| drop_trailing_spaces(s, lo, j) <= k < j ==> (9 <= #[trigger] s[k] <= 13 || s[k] == 32),
        drop_trailing_spaces(s, lo, j) > lo ==> !(9 <= s[drop_trailing_spaces(s, lo, j) - 1] <= 13
            || s[drop_trailing_spaces(s, lo, j) - 1] == 32),
    decreases j,
{
    lemma_drop_trailing_bounds(s, lo, j);
    if lo < j {
        assert(s[j - 1] < 128);
        if j >= 2 {
            assert(s[j - 2] < 128);
        }
        if j >= 3 {
            assert(s[j - 3] < 128);
        }
    }
    if lo < j && space_width_before(s, j) > 0 && j - space_width_before(s, j) >= lo {
        lemma_drop_trailing_ascii(s, lo, j - space_width_before(s, j));
    }
}

/// Trimming cuts off exactly the surrounding whitespace: the result is a
/// piece `s[a..b]` of the text; on ASCII text everything before `a` and from
/// `b` on is whitespace (tab, line feed, vertical tab, form feed, carriage
/// return, space) and a non-empty result neither starts nor ends with it.
pub proof fn lemma_trim_cuts_surrounding_whitespace(s: Seq<u8>)
    ensures
        exists|a: int, b: int|
            0 <= a <= b <= s.len() && #[trigger] s.subrange(a, b) == trimmed(s) && (is_ascii_text(s) ==> {
                &&& forall|k: int| 0 <= k < a ==> (9 <= #[trigger] s[k] <= 13 || s[k] == 32)
                &&& forall|k: int| b <= k < s.len() ==> (9 <= #[trigger] s[k] <= 13 || s[k] == 32)
                &&& a < b ==> !(9 <= s[a] <= 13 || s[a] == 32) && !(9 <= s[b - 1] <= 13 || s[b - 1] == 32)
            }),
{
    let lo = skip_spaces(s, 0);
    lemma_skip_spaces_bounds(s, 0);
    let hi = drop_trailing_spaces(s, lo, s.len() as int);
    lemma_drop_trailing_bounds(s, lo, s.len() as int);
    if is_ascii_text(s) {
        lemma_skip_spaces_ascii(s, 0);
        lemma_drop_trailing_ascii(s, lo, s.len() as int);
    }
    assert(s.subrange(lo, hi) == trimmed(s));
}

/// End of the word starting at `i`: the first index at or after `i` that
/// starts a whitespace character, or the end of `s`.
pub open spec fn word_end(s: Seq<u8>, i: int) -> int
    decreases s.len() - i,
{
    if 0 <= i < s.len() && space_width_at(s, i) == 0 {
        word_end(s, i + 1)
    } else {
        i
    }
}

pub proof fn lemma_word_end_bounds(s: Seq<u8>, i: int)
    requires
        0 <= i <= s.len(),
    ensures
        i <= word_end(s, i) <= s.len(),
        i < s.len() && space_width_at(s, i) == 0 ==> i < word_end(s, i),
    decreases s.len() - i,
{
    if i < s.len() && space_width_at(s, i) == 0 {
        lemma_word_end_bounds(s, i + 1);
    }
}

/// The whitespace-separated words of `s` from index `i` on (`str::split_whitespace`).
pub open spec fn words_from(s: Seq<u8>, i: int) -> Seq<Seq<u8>>
    decreases s.len() - i,
{
    if i < 0 || i >= s.len() {
        Seq::empty()
    } else {
        let a = skip_spaces(s, i);
        if a >= s.len() {
            Seq::empty()
        } else {
            let b = word_end(s, a);
            proof {
                lemma_skip_spaces_bounds(s, i);
                lemma_word_end_bounds(s, a);
            }
            seq![s.subrange(a, b)] + words_from(s, b)
        }
    }
}

/// The whitespace-separated words of `s`, in order (`str::split_whitespace`).
pub fn split_words(s: &[u8]) -> (r: Vec<Vec<u8>>)
    ensures
        texts(r@) == words_from(s@, 0),
{
    let mut r: Vec<Vec<u8>> = Vec::new();
    let mut i: usize = 0;
    while i < s.len()
        invariant
            i <= s.len(),
            words_from(s@, 0) == texts(r@) + words_from(s@, i as int),
        decreases s.len() - i,
    {
        let a = skip_spaces_from(s, i);
        proof {
            lemma_skip_spaces_bounds(s@, i as int);
        }
        if a >= s.len() {
            i = s.len();
            assert(words_from(s@, i as int) =~= Seq::<Seq<u8>>::empty());
        } else {
            let mut b = a;
            while b < s.len() && space_width(s, b) == 0
                invariant
                    a <= b <= s.len(),
                    word_end(s@, b as int) == word_end(s@, a as int),
                decreases s.len() - b,
            {
                b += 1;
            }
            proof {
                lemma_word_end_bounds(s@, a as int);
            }
            let w = copy_range(s, a, b);
            let ghost before = texts(r@);
            let ghost before_vec = r@;
            r.push(w);
            assert(r@ == before_vec.push(w));
            assert(texts(r@) =~= before.push(w@));
            assert(words_from(s@, i as int) == seq![s@.subrange(a as int, b as int)] + words_from(
                s@,
                b as int,
            ));
            assert(before.push(w@) + words_from(s@, b as int) =~= before + words_from(s@, i as int));
            i = b;
        }
    }
    assert(words_from(s@, i as int) =~= Seq::<Seq<u8>>::empty());
    assert(texts(r@) + Seq::<Seq<u8>>::empty() =~= texts(r@));
    r
}

/// Index of the first line feed at or after `i`, or the end of `s`.
pub open spec fn next_line_feed(s: Seq<u8>, i: int) -> int
    decreases s.len() - i,
{
    if 0 <= i < s.len() && s[i] != 10 {
        next_line_feed(s, i + 1)
    } else {
        i
    }
}

pub proof fn lemma_next_line_feed_bounds(s: Seq<u8>, i: int)
    requires
        0 <= i <= s.len(),
    ensures
        i <= next_line_feed(s, i) <= s.len(),
        next_line_feed(s, i) < s.len() ==> s[next_line_feed(s, i)] == 10,
        forall|k: int| i <= k < next_line_feed(s, i) ==> s[k] != 10,
    decreases s.len() - i,
{
    if i < s.len() && s[i] != 10 {
        lemma_next_line_feed_bounds(s, i + 1);
    }
}

/// Text of the line running from `i` to the line feed at `e`: a carriage
/// return just before a line feed is part of the line ending.
pub open spec fn line_text(s: Seq<u8>, i: int, e: int) -> Seq<u8> {
    if e < s.len() && i < e && s[e - 1] == 13 {
        s.subrange(i, e - 1)
    } else {
        s.subrange(i, e)
    }
}

/// The lines of `s` from index `i` on (`str::lines`): split at `\n` or
/// `\r\n`; a final line ending is optional.
pub open spec fn lines_from(s: Seq<u8>, i: int) -> Seq<Seq<u8>>
    decreases s.len() - i + 1,
{
    if i < 0 || i >= s.len() {
        Seq::empty()
    } else {
        let e = next_line_feed(s, i);
        proof {
            lemma_next_line_feed_bounds(s, i);
        }
        seq![line_text(s, i, e)] + lines_from(s, e + 1)
    }
}

/// Line splitting loses nothing but the line endings: no line holds a line
/// feed, and on text without carriage returns the lines joined again with
/// line feeds give back the text, minus one final line feed.
pub proof fn lemma_lines_rejoin(s: Seq<u8>, i: int)
    requires
        0 <= i < s.len(),
    ensures
        forall|l: int, k: int|
            0 <= l < lines_from(s, i).len() && 0 <= k < lines_from(s, i)[l].len() ==> #[trigger] lines_from(
                s,
                i,
            )[l][k] != 10,
        (forall|k: int| 0 <= k < s.len() ==> #[trigger] s[k] != 13) ==> joined(lines_from(s, i), 10) == if s.last()
            == 10 {
            s.subrange(i, s.len() - 1)
        } else {
            s.subrange(i, s.len() as int)
        },
    decreases s.len() - i,
{
    let e = next_line_feed(s, i);
    lemma_next_line_feed_bounds(s, i);
    let ls = lines_from(s, i);
    let first = line_text(s, i, e);
    let rest = lines_from(s, e + 1);
    assert(ls == seq![first] + rest);
    assert(ls.drop_first() =~= rest);
    assert(forall|k: int| 0 <= k < first.len() ==> #[trigger] first[k] != 10) by {
        assert forall|k: int| 0 <= k < first.len() implies #[trigger] first[k] != 10 by {
            assert(first[k] == s[i + k]);
        }
    }
    if e + 1 < s.len() {
        lemma_lines_rejoin(s, e + 1);
    } else {
        assert(rest =~= Seq::<Seq<u8>>::empty());
    }
    assert forall|l: int, k: int| 0 <= l < ls.len() && 0 <= k < ls[l].len() implies #[trigger] ls[l][k] != 10 by {
        if l == 0 {
            assert(ls[0] == first);
        } else {
            assert(ls[l] == rest[l - 1]);
        }
    }
    if forall|k: int| 0 <= k < s.len() ==> #[trigger] s[k] != 13 {
        if e < s.len() {
            assert(s[e] == 10);
            assert(first == s.subrange(i, e));
            if e + 1 < s.len() {
                assert(rest.len() >= 1);
                assert(joined(ls, 10) == first + seq![10u8] + joined(rest, 10));
                if s.last() == 10 {
                    assert(s.subrange(i, s.len() - 1) =~= s.subrange(i, e) + seq![10u8] + s.subrange(e + 1, s.len() - 1));
                } else {
                    assert(s.subrange(i, s.len() as int) =~= s.subrange(i, e) + seq![10u8] + s.subrange(
                        e + 1,
                        s.len() as int,
                    ));
                }
            } else {
                assert(ls =~= seq![first]);
                assert(s.last() == 10);
            }
        } else {
            assert(ls =~= seq![first]);
            assert(first == s.subrange(i, s.len() as int));
            assert(s.last() != 10) by {
                assert(s[s.len() - 1] != 10);
            }
        }
    }
}

/// The lines of `s`, in order (`str::lines`).
pub fn split_lines(s: &[u8]) -> (r: Vec<Vec<u8>>)
    ensures
        texts(r@) == lines_from(s@, 0),
{
    let mut r: Vec<Vec<u8>> = Vec::new();
    let mut i: usize = 0;
    while i < s.len()
        invariant
            i <= s.len(),
            lines_from(s@, 0) == texts(r@) + lines_from(s@, i as int),
        decreases s.len() - i,
    {
        let mut e = i;
        while e < s.len() && s[e] != 10
            invariant
                i <= e <= s.len(),
                next_line_feed(s@, e as int) == next_line_feed(s@, i as int),
            decreases s.len() - e,
        {
            e += 1;
        }
        let line = if e < s.len() && i < e && s[e - 1] == 13 {
            copy_range(s, i, e - 1)
        } else {
            copy_range(s, i, e)
        };
        let ghost before = texts(r@);
        let ghost before_vec = r@;
        r.push(line);
        assert(r@ == before_vec.push(line));
        assert(texts(r@) =~= before.push(line@));
        assert(lines_from(s@, i as int) == seq![line_text(s@, i as int, e as int)] + lines_from(
            s@,
            e + 1,
        ));
        assert(before.push(line@) + lines_from(s@, e + 1) =~= before + lines_from(s@, i as int));
        if e < s.len() {
            i = e + 1;
        } else {
            i = s.len();
            assert(lines_from(s@, e + 1) =~= Seq::<Seq<u8>>::empty());
            assert(lines_from(s@, i as int) =~= Seq::<Seq<u8>>::empty());
        }
    }
    assert(lines_from(s@, i as int) =~= Seq::<Seq<u8>>::empty());
    assert(texts(r@) + Seq::<Seq<u8>>::empty() =~= texts(r@));
    r
}

/// Index of the first `d` at or after `i`, or the end of `s`.
pub open spec fn next_byte(s: Seq<u8>, i: int, d: u8) -> int
    decreases s.len() - i,
{
    if 0 <= i < s.len() && s[i] != d {
        next_byte(s, i + 1, d)
    } else {
        i
    }
}

pub proof fn lemma_next_byte_bounds(s: Seq<u8>, i: int, d: u8)
    requires
        0 <= i <= s.len(),
    ensures
        i <= next_byte(s, i, d) <= s.len(),
    decreases s.len() - i,
{
    if i < s.len() && s[i] != d {
        lemma_next_byte_bounds(s, i + 1, d);
    }
}

/// The pieces of `s[i..]` between occurrences of the byte `d` (`str::split`
/// with an ASCII separator): always at least one piece, empty pieces kept.
pub open spec fn pieces_from(s: Seq<u8>, i: int, d: u8) -> Seq<Seq<u8>>
    decreases s.len() - i + 1,
{
    if i < 0 || i > s.len() {
        Seq::empty()
    } else {
        let e = next_byte(s, i, d);
        proof {
            lemma_next_byte_bounds(s, i, d);
        }
        if e >= s.len() {
            seq![s.subrange(i, s.len() as int)]
        } else {
            seq![s.subrange(i, e)] + pieces_from(s, e + 1, d)
        }
    }
}

/// Pieces put back together with the separator between them.
pub open spec fn joined(ps: Seq<Seq<u8>>, d: u8) -> Seq<u8>
    decreases ps.len(),
{
    if ps.len() == 0 {
        Seq::empty()
    } else if ps.len() == 1 {
        ps[0]
    } else {
        ps[0] + seq![d] + joined(ps.drop_first(), d)
    }
}

proof fn lemma_next_byte_finds(s: Seq<u8>, i: int, d: u8)
    requires
        0 <= i <= s.len(),
    ensures
        forall|k: int| i <= k < next_byte(s, i, d) ==> #[trigger] s[k] != d,
        next_byte(s, i, d) < s.len() ==> s[next_byte(s, i, d)] == d,
    decreases s.len() - i,
{
    if i < s.len() && s[i] != d {
        lemma_next_byte_finds(s, i + 1, d);
    }
}

/// Splitting on a separator loses nothing and cuts at every separator: the
/// pieces, joined again with the separator, give back the text, and no
/// piece holds the separator.
pub proof fn lemma_split_on_rejoins(s: Seq<u8>, i: int, d: u8)
    requires
        0 <= i <= s.len(),
    ensures
        pieces_from(s, i, d).len() >= 1,
        joined(pieces_from(s, i, d), d) == s.subrange(i, s.len() as int),
        forall|p: int, k: int|
            0 <= p < pieces_from(s, i, d).len() && 0 <= k < pieces_from(s, i, d)[p].len() ==> #[trigger] pieces_from(
                s,
                i,
                d,
            )[p][k] != d,
    decreases s.len() - i,
{
    let e = next_byte(s, i, d);
    lemma_next_byte_bounds(s, i, d);
    lemma_next_byte_finds(s, i, d);
    let ps = pieces_from(s, i, d);
    if e >= s.len() {
        assert(ps =~= seq![s.subrange(i, s.len() as int)]);
        assert forall|p: int, k: int| 0 <= p < ps.len() && 0 <= k < ps[p].len() implies #[trigger] ps[p][k] != d by {
            assert(ps[p][k] == s[i + k]);
        }
    } else {
        lemma_split_on_rejoins(s, e + 1, d);
        let rest = pieces_from(s, e + 1, d);
        assert(ps == seq![s.subrange(i, e)] + rest);
        assert(ps.drop_first() =~= rest);
        assert(ps[0] == s.subrange(i, e));
        assert(joined(ps, d) == ps[0] + seq![d] + joined(rest, d));
        assert(s.subrange(i, s.len() as int) =~= s.subrange(i, e) + seq![d] + s.subrange(e + 1, s.len() as int));
        assert forall|p: int, k: int| 0 <= p < ps.len() && 0 <= k < ps[p].len() implies #[trigger] ps[p][k] != d by {
            if p == 0 {
                assert(ps[0][k] == s[i + k]);
            } else {
                assert(ps[p] == rest[p - 1]);
                assert(rest[p - 1][k] != d);
            }
        }
    }
}

/// The words of a text are non-empty pieces of it with no ASCII whitespace
/// in them.
pub proof fn lemma_words_are_pieces(s: Seq<u8>, i: int)
    requires
        0 <= i <= s.len(),
    ensures
        forall|w: int|
            0 <= w < words_from(s, i).len() ==> #[trigger] words_from(s, i)[w].len() >= 1 && (exists|a: int|
                i <= a && a + words_from(s, i)[w].len() <= s.len() && #[trigger] s.subrange(a, a + words_from(s, i)[w].len())
                    == words_from(s, i)[w]) && forall|k: int|
                0 <= k < words_from(s, i)[w].len() ==> !(9 <= #[trigger] words_from(s, i)[w][k] <= 13
                    || words_from(s, i)[w][k] == 32),
    decreases s.len() - i,
{
    if i < s.len() {
        let a = skip_spaces(s, i);
        lemma_skip_spaces_bounds(s, i);
        if a < s.len() {
            let b = word_end(s, a);
            lemma_word_end_bounds(s, a);
            lemma_word_end_no_space(s, a);
            lemma_words_are_pieces(s, b);
            let ws = words_from(s, i);
            let rest = words_from(s, b);
            assert(ws == seq![s.subrange(a, b)] + rest);
            assert forall|w: int| 0 <= w < ws.len() implies #[trigger] ws[w].len() >= 1 && (exists|c: int|
                i <= c && c + ws[w].len() <= s.len() && #[trigger] s.subrange(c, c + ws[w].len()) == ws[w]) && forall|k: int|
                0 <= k < ws[w].len() ==> !(9 <= #[trigger] ws[w][k] <= 13 || ws[w][k] == 32) by {
                if w == 0 {
                    assert(ws[0] == s.subrange(a, b));
                    assert(s.subrange(a, a + ws[0].len()) == ws[0]);
                    assert forall|k: int| 0 <= k < ws[0].len() implies !(9 <= #[trigger] ws[0][k] <= 13 || ws[0][k]
                        == 32) by {
                        assert(ws[0][k] == s[a + k]);
                    }
                } else {
                    assert(ws[w] == rest[w - 1]);
                    let c = choose|c: int|
                        b <= c && c + rest[w - 1].len() <= s.len() && #[trigger] s.subrange(c, c + rest[w - 1].len())
                            == rest[w - 1];
                    assert(s.subrange(c, c + ws[w].len()) == ws[w]);
                }
            }
        }
    }
}

proof fn lemma_word_end_no_space(s: Seq<u8>, i: int)
    requires
        0 <= i <= s.len(),
    ensures
        forall|k: int| i <= k < word_end(s, i) ==> !(9 <= #[trigger] s[k] <= 13 || s[k] == 32),
    decreases s.len() - i,
{
    if i < s.len() && space_width_at(s, i) == 0 {
        lemma_word_end_no_space(s, i + 1);
    }
}

/// The pieces of `s` between occurrences of the ASCII byte `d` (`str::split`).
pub fn split_on(s: &[u8], d: u8) -> (r: Vec<Vec<u8>>)
    requires
        d < 128,
    ensures
        texts(r@) == pieces_from(s@, 0, d),
{
    let mut r: Vec<Vec<u8>> = Vec::new();
    let mut i: usize = 0;
    loop
        invariant
            i <= s.len(),
            pieces_from(s@, 0, d) == texts(r@) + pieces_from(s@, i as int, d),
        decreases s.len() - i,
    {
        let mut e = i;
        while e < s.len() && s[e] != d
            invariant
                i <= e <= s.len(),
                next_byte(s@, e as int, d) == next_byte(s@, i as int, d),
            decreases s.len() - e,
        {
            e += 1;
        }
        let piece = copy_range(s, i, e);
        let ghost before = texts(r@);
        let ghost before_vec = r@;
        r.push(piece);
        assert(r@ == before_vec.push(piece));
        assert(texts(r@) =~= before.push(piece@));
        if e >= s.len() {
            assert(pieces_from(s@, i as int, d) == seq![s@.subrange(i as int, s.len() as int)]);
            assert(before.push(piece@) =~= before + pieces_from(s@, i as int, d));
            return r;
        }
        assert(pieces_from(s@, i as int, d) == seq![s@.subrange(i as int, e as int)] + pieces_from(
            s@,
            e + 1,
            d,
        ));
        assert(before.push(piece@) + pieces_from(s@, e + 1, d) =~= before + pieces_from(
            s@,
            i as int,
            d,
        ));
        i = e + 1;
    }
}

/// First index at or after `i` not holding the byte `c`.
pub open spec fn skip_byte(s: Seq<u8>, i: int, c: u8) -> int
    decreases s.len() - i,
{
    if 0 <= i < s.len() && s[i] == c {
        skip_byte(s, i + 1, c)
    } else {
        i
    }
}

/// Walking back from `j` towards `lo`, the end left after dropping trailing `c` bytes.
pub open spec fn drop_trailing_byte(s: Seq<u8>, lo: int, j: int, c: u8) -> int
    decreases j,
{
    if 0 <= lo < j && j <= s.len() && s[j - 1] == c {
        drop_trailing_byte(s, lo, j - 1, c)
    } else {
        j
    }
}

/// `s` with every leading and trailing `c` removed (`str::trim_matches`
/// with an ASCII character).
pub open spec fn trimmed_of(s: Seq<u8>, c: u8) -> Seq<u8> {
    let lo = skip_byte(s, 0, c);
    s.subrange(lo, drop_trailing_byte(s, lo, s.len() as int, c))
}

pub proof fn lemma_skip_byte_bounds(s: Seq<u8>, i: int, c: u8)
    requires
        0 <= i <= s.len(),
    ensures
        i <= skip_byte(s, i, c) <= s.len(),
    decreases s.len() - i,
{
    if i < s.len() && s[i] == c {
        lemma_skip_byte_bounds(s, i + 1, c);
    }
}

pub proof fn lemma_drop_trailing_byte_bounds(s: Seq<u8>, lo: int, j: int, c: u8)
    requires
        0 <= lo <= j <= s.len(),
    ensures
        lo <= drop_trailing_byte(s, lo, j, c) <= j,
    decreases j,
{
    if 0 <= lo < j && s[j - 1] == c {
        lemma_drop_trailing_byte_bounds(s, lo, j - 1, c);
    }
}

proof fn lemma_skip_byte_finds(s: Seq<u8>, i: int, c: u8)
    requires
        0 <= i <= s.len(),
    ensures
        forall|k: int| i <= k < skip_byte(s, i, c) ==> #[trigger] s[k] == c,
        skip_byte(s, i, c) < s.len() ==> s[skip_byte(s, i, c)] != c,
    decreases s.len() - i,
{
    if i < s.len() && s[i] == c {
        lemma_skip_byte_finds(s, i + 1, c);
    }
}

proof fn lemma_drop_trailing_byte_finds(s: Seq<u8>, lo: int, j: int, c: u8)
    requires
        0 <= lo <= j <= s.len(),
    ensures
        forall|k: int| drop_trailing_byte(s, lo, j, c) <= k < j ==> #[trigger] s[k] == c,
        drop_trailing_byte(s, lo, j, c) > lo ==> s[drop_trailing_byte(s, lo, j, c) - 1] != c,
    decreases j,
{
    if 0 <= lo < j && s[j - 1] == c {
        lemma_drop_trailing_byte_finds(s, lo, j - 1, c);
    }
}

/// Trimming a byte cuts off exactly the surrounding copies of it: the result
/// is a piece `s[a..b]` with only `c` before `a` and from `b` on, and a
/// non-empty result neither starts nor ends with `c`.
pub proof fn lemma_trim_byte_cuts_surrounding(s: Seq<u8>, c: u8)
    ensures
        exists|a: int, b: int|
            0 <= a <= b <= s.len() && #[trigger] s.subrange(a, b) == trimmed_of(s, c) && (forall|k: int|
                0 <= k < a ==> #[trigger] s[k] == c) && (forall|k: int| b <= k < s.len() ==> #[trigger] s[k] == c)
                && (a < b ==> s[a] != c && s[b - 1] != c),
{
    let lo = skip_byte(s, 0, c);
    lemma_skip_byte_bounds(s, 0, c);
    lemma_skip_byte_finds(s, 0, c);
    let hi = drop_trailing_byte(s, lo, s.len() as int, c);
    lemma_drop_trailing_byte_bounds(s, lo, s.len() as int, c);
    lemma_drop_trailing_byte_finds(s, lo, s.len() as int, c);
    assert(s.subrange(lo, hi) == trimmed_of(s, c));
}

/// `s` with every leading and trailing ASCII byte `c` removed (`str::trim_matches`).
pub fn trim_byte(s: &[u8], c: u8) -> (r: Vec<u8>)
    requires
        c < 128,
    ensures
        r@ == trimmed_of(s@, c),
{
    let mut lo: usize = 0;
    while lo < s.len() && s[lo] == c
        invariant
            lo <= s.len(),
            skip_byte(s@, lo as int, c) == skip_byte(s@, 0, c),
        decreases s.len() - lo,
    {
        lo += 1;
    }
    let mut j = s.len();
    while lo < j && s[j - 1] == c
        invariant
            lo <= j <= s.len(),
            lo == skip_byte(s@, 0, c),
            drop_trailing_byte(s@, lo as int, j as int, c) == drop_trailing_byte(
                s@,
                lo as int,
                s.len() as int,
                c,
            ),
        decreases j,
    {
        j -= 1;
    }
    copy_range(s, lo, j)
}

pub open spec fn is_digit(b: u8) -> bool {
    48 <= b && b <= 57
}

pub open spec fn all_digits(d: Seq<u8>) -> bool {
    forall|k: int| 0 <= k < d.len() ==> is_digit(#[trigger] d[k])
}

/// Decimal value of a string of ASCII digits.
pub open spec fn digits_value(d: Seq<u8>) -> int
    decreases d.len(),
{
    if d.len() == 0 {
        0
    } else {
        digits_value(d.drop_last()) * 10 + (d.last() - 48)
    }
}

/// The integer `s` spells in decimal (`i32::from_str`): an optional `+` or
/// `-` and at least one ASCII digit, nothing else, and a value in range.
pub open spec fn parsed_i32(s: Seq<u8>) -> Option<i32> {
    if s.len() == 0 {
        None
    } else {
        let negative = s[0] == 45;
        let signed = s[0] == 45 || s[0] == 43;
        let d = if signed { s.skip(1) } else { s };
        let v = if negative { -digits_value(d) } else { digits_value(d) };
        if d.len() == 0 || !all_digits(d) || v < i32::MIN || v > i32::MAX {
            None
        } else {
            Some(v as i32)
        }
    }
}

proof fn lemma_digits_value_nonneg(d: Seq<u8>)
    requires
        all_digits(d),
    ensures
        digits_value(d) >= 0,
    decreases d.len(),
{
    if d.len() > 0 {
        assert(all_digits(d.drop_last()));
        lemma_digits_value_nonneg(d.drop_last());
    }
}

/// Appending digits never makes a number smaller.
proof fn lemma_digits_value_prefix(d: Seq<u8>, k: int)
    requires
        all_digits(d),
        0 <= k <= d.len(),
    ensures
        digits_value(d.take(k)) <= digits_value(d),
    decreases d.len(),
{
    if k < d.len() {
        let p = d.drop_last();
        assert(all_digits(p));
        lemma_digits_value_prefix(p, k);
        assert(p.take(k) =~= d.take(k));
        lemma_digits_value_nonneg(p);
    } else {
        assert(d.take(k) =~= d);
    }
}

/// Integer parsing reads decimal numbers: a single digit is its value; a
/// digit appended to an unsigned number multiplies it by ten and adds the
/// digit (while it fits in an `i32`); a leading `+` changes nothing and a
/// leading `-` negates; an empty text, or a text with a byte that is neither
/// a digit nor a leading sign, is no number.
pub proof fn lemma_parse_reads_decimal(s: Seq<u8>, c: u8)
    ensures
        48 <= c <= 57 ==> parsed_i32(seq![c]) == Some((c - 48) as i32),
        s.len() >= 1 && !(s[0] == 43 || s[0] == 45) && 48 <= c <= 57 && parsed_i32(s) is Some && 0
            <= parsed_i32(s)->0 * 10 + (c - 48) <= i32::MAX ==> parsed_i32(s.push(c)) == Some(
            (parsed_i32(s)->0 * 10 + (c - 48)) as i32,
        ),
        s.len() >= 1 && 48 <= s[0] <= 57 ==> parsed_i32(seq![43u8] + s) == parsed_i32(s),
        s.len() >= 1 && 48 <= s[0] <= 57 && parsed_i32(s) is Some && parsed_i32(s)->0 > i32::MIN ==> parsed_i32(
            seq![45u8] + s,
        ) == Some((-parsed_i32(s)->0) as i32),
        parsed_i32(Seq::empty()) is None,
        (exists|k: int| 0 <= k < s.len() && !(48 <= #[trigger] s[k] <= 57) && !(k == 0 && (s[k] == 43 || s[k] == 45)))
            ==> parsed_i32(s) is None,
{
    let one = seq![c];
    assert(one.drop_last() =~= Seq::<u8>::empty());
    if 48 <= c <= 57 {
        assert(one.len() == 1 && one[0] == c && one.last() == c);
        assert(all_digits(one));
        assert(digits_value(one.drop_last()) == 0);
        assert(digits_value(one) == c - 48);
    }
    if s.len() >= 1 && !(s[0] == 43 || s[0] == 45) && 48 <= c <= 57 && parsed_i32(s) is Some {
        let t = s.push(c);
        assert(t.drop_last() =~= s);
        assert(all_digits(t)) by {
            assert forall|k: int| 0 <= k < t.len() implies is_digit(#[trigger] t[k]) by {
                if k < s.len() {
                    assert(t[k] == s[k]);
                }
            }
        }
    }
    if s.len() >= 1 && 48 <= s[0] <= 57 {
        assert((seq![43u8] + s).skip(1) =~= s);
        assert((seq![45u8] + s).skip(1) =~= s);
        if parsed_i32(s) is Some {
            assert(digits_value(s) >= 0) by {
                lemma_digits_value_nonneg(s);
            }
        }
    }
    if exists|k: int| 0 <= k < s.len() && !(48 <= #[trigger] s[k] <= 57) && !(k == 0 && (s[k] == 43 || s[k] == 45)) {
        let k = choose|k: int| 0 <= k < s.len() && !(48 <= #[trigger] s[k] <= 57) && !(k == 0 && (s[k] == 43 || s[k] == 45));
        if s[0] == 43 || s[0] == 45 {
            assert(s.skip(1)[k - 1] == s[k]);
        }
    }
}

/// The integer `s` spells in decimal, if any (`i32::from_str`).
pub fn parse_i32(s: &[u8]) -> (r: Option<i32>)
    ensures
        r == parsed_i32(s@),
{
    if s.len() == 0 {
        return None;
    }
    let negative = s[0] == 45;
    let signed = s[0] == 45 || s[0] == 43;
    let start: usize = if signed { 1 } else { 0 };
    let ghost d = s@.skip(start as int);
    assert(d =~= (if signed { s@.skip(1) } else { s@ }));
    if start == s.len() {
        return None;
    }
    let mut acc: i64 = 0;
    let mut k = start;
    while k < s.len()
        invariant
            start <= k <= s.len(),
            start < s.len(),
            d == s@.skip(start as int),
            d == (if signed { s@.skip(1) } else { s@ }),
            s.len() > 0,
            negative == (s@[0] == 45),
            signed == (s@[0] == 45 || s@[0] == 43),
            all_digits(d.take(k - start)),
            acc == digits_value(d.take(k - start)),
            0 <= acc <= 2147483648,
        decreases s.len() - k,
    {
        let b = s[k];
        if !(48 <= b && b <= 57) {
            assert(!is_digit(d[k - start]));
            assert(!all_digits(d));
            return None;
        }
        assert(d.take(k - start + 1).drop_last() =~= d.take(k - start));
        acc = acc * 10 + (b - 48) as i64;
        k += 1;
        assert(all_digits(d.take(k - start)));
        if acc > 2147483648 {
            proof {
                if all_digits(d) {
                    lemma_digits_value_prefix(d, k - start);
                    assert(digits_value(d) > 2147483648);
                }
            }
            return None;
        }
    }
    assert(d.take(k - start) =~= d);
    if negative {
        Some((-acc) as i32)
    } else if acc > 2147483647 {
        None
    } else {
        Some(acc as i32)
    }
}

} // verus!
