//! Name matching: which catalogue names belong to which fragment family.

use vstd::prelude::*;

verus! {

/// `needle` occurs in `hay` as a contiguous run of characters.
pub open spec fn occurs_in(hay: Seq<char>, needle: Seq<char>) -> bool {
    exists|k: int| 0 <= k && k + needle.len() <= hay.len() && #[trigger] hay.subrange(k, k + needle.len()) == needle
}

/// The characters of `s`.
pub fn chars_of(s: &str) -> (r: Vec<char>)
    ensures
        r@ == s@,
{
    let n = s.unicode_len();
    let mut r: Vec<char> = Vec::new();
    let mut i: usize = 0;
    while i < n
        invariant
            0 <= i <= n,
            n == s@.len(),
            r@ == s@.subrange(0, i as int),
        decreases n - i,
    {
        r.push(s.get_char(i));
        i += 1;
        assert(r@ =~= s@.subrange(0, i as int));
    }
    assert(r@ =~= s@);
    r
}

fn matches_at(hay: &Vec<char>, needle: &Vec<char>, k: usize) -> (r: bool)
    requires
        k + needle.len() <= hay.len(),
    ensures
        r == (hay@.subrange(k as int, k + needle.len()) == needle@),
{
    let mut j: usize = 0;
    while j < needle.len()
        invariant
            0 <= j <= needle.len(),
            k + needle.len() <= hay.len(),
            forall|q: int| 0 <= q < j ==> hay@[k + q] == needle@[q],
        decreases needle.len() - j,
    {
        if hay[k + j] != needle[j] {
            assert(hay@.subrange(k as int, k + needle.len())[j as int] != needle@[j as int]);
            return false;
        }
        j += 1;
    }
    assert(hay@.subrange(k as int, k + needle.len()) =~= needle@);
    true
}

/// Whether `needle` occurs in `hay` (`str::contains`).
pub fn contains(hay: &str, needle: &str) -> (r: bool)
    ensures
        r == occurs_in(hay@, needle@),
{
    let h = chars_of(hay);
    let n = chars_of(needle);
    if n.len() > h.len() {
        return false;
    }
    let mut k: usize = 0;
    let last = h.len() - n.len();
    loop
        invariant
            last == h.len() - n.len(),
            n.len() <= h.len(),
            h@ == hay@,
            n@ == needle@,
            forall|q: int| 0 <= q < k ==> #[trigger] h@.subrange(q, q + n.len()) != n@,
            k <= last,
        ensures
            forall|q: int| 0 <= q <= last ==> #[trigger] h@.subrange(q, q + n.len()) != n@,
        decreases last - k,
    {
        if matches_at(&h, &n, k) {
            return true;
        }
        if k == last {
            break;
        }
        k += 1;
    }
    assert forall|q: int| 0 <= q && q + needle@.len() <= hay@.len() implies #[trigger] hay@.subrange(
        q,
        q + needle@.len(),
    ) != needle@ by {
        assert(h@.subrange(q, q + n.len()) != n@);
    }
    false
}

/// Names of Cosmos-2251 fragments.
pub open spec fn is_cosmos_name(name: Seq<char>) -> bool {
    occurs_in(name, "COSMOS"@) || occurs_in(name, "2251"@)
}

/// Names of Iridium-33 fragments.
pub open spec fn is_iridium_name(name: Seq<char>) -> bool {
    occurs_in(name, "IRIDIUM"@)
}

/// Whether `name` is the name of a Cosmos-2251 fragment.
pub fn is_cosmos_fragment(name: &str) -> (r: bool)
    ensures
        r == is_cosmos_name(name@),
{
    contains(name, "COSMOS") || contains(name, "2251")
}

/// Whether `name` is the name of an Iridium-33 fragment.
pub fn is_iridium_fragment(name: &str) -> (r: bool)
    ensures
        r == is_iridium_name(name@),
{
    contains(name, "IRIDIUM")
}

/// Upper-case form of a text under Unicode case mapping (`str::to_uppercase`).
pub uninterp spec fn uppercase_of(s: Seq<char>) -> Seq<char>;

/// Lower-case form of a text under Unicode case mapping (`str::to_lowercase`).
pub uninterp spec fn lowercase_of(s: Seq<char>) -> Seq<char>;

/// Calls `str::to_uppercase`.  Trusted: the result is `uppercase_of` the
/// text given; nothing about the Unicode case tables is stated.
#[verifier::external_body]
pub(crate) fn uppercase(s: &str) -> (r: String)
    ensures
        r@ == uppercase_of(s@),
{
    s.to_uppercase()
}

/// Calls `str::to_lowercase`.  Trusted: the result is `lowercase_of` the
/// text given; nothing about the Unicode case tables is stated.
#[verifier::external_body]
pub(crate) fn lowercase(s: &str) -> (r: String)
    ensures
        r@ == lowercase_of(s@),
{
    s.to_lowercase()
}

/// Catalogue names (already upper-cased) of the scenario's own objects,
/// which the live constellation leaves out: the station module, the two
/// primary satellites, and catalogue numbers 22675 and 24903.
pub open spec fn is_scenario_object_upper(upper: Seq<char>) -> bool {
    ||| occurs_in(upper, "ZARYA"@)
    ||| occurs_in(upper, "IRIDIUM 33"@)
    ||| occurs_in(upper, "COSMOS 2251"@)
    ||| occurs_in(upper, "22675"@)
    ||| occurs_in(upper, "24903"@)
}

/// Whether an upper-cased catalogue name is one of the scenario's own objects.
pub fn is_scenario_object_upper_name(upper: &str) -> (r: bool)
    ensures
        r == is_scenario_object_upper(upper@),
{
    contains(upper, "ZARYA") || contains(upper, "IRIDIUM 33") || contains(upper, "COSMOS 2251")
        || contains(upper, "22675") || contains(upper, "24903")
}

/// Whether a catalogue name, compared in upper case, is one of the scenario's
/// own objects.
pub fn is_scenario_object(name: &str) -> (r: bool)
    ensures
        r == is_scenario_object_upper(uppercase_of(name@)),
{
    let upper = uppercase(name);
    is_scenario_object_upper_name(upper.as_str())
}

} // verus!
