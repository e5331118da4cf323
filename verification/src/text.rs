//! Small text utilities shared by the library: decimal rendering of
//! integers and conversions between strings and character vectors.

use vstd::prelude::*;

verus! {

/// The ASCII digit for a value below ten.
pub open spec fn digit_char(d: int) -> char {
    if d == 0 {
        '0'
    } else if d == 1 {
        '1'
    } else if d == 2 {
        '2'
    } else if d == 3 {
        '3'
    } else if d == 4 {
        '4'
    } else if d == 5 {
        '5'
    } else if d == 6 {
        '6'
    } else if d == 7 {
        '7'
    } else if d == 8 {
        '8'
    } else {
        '9'
    }
}

/// Decimal representation of a natural number, most significant digit first,
/// without leading zeros.
pub open spec fn spec_decimal(n: nat) -> Seq<char>
    decreases n,
{
    if n < 10 {
        seq![digit_char(n as int)]
    } else {
        spec_decimal(n / 10) + seq![digit_char((n % 10) as int)]
    }
}

fn digit_of(d: usize) -> (c: char)
    requires
        d < 10,
    ensures
        c == digit_char(d as int),
{
    if d == 0 {
        '0'
    } else if d == 1 {
        '1'
    } else if d == 2 {
        '2'
    } else if d == 3 {
        '3'
    } else if d == 4 {
        '4'
    } else if d == 5 {
        '5'
    } else if d == 6 {
        '6'
    } else if d == 7 {
        '7'
    } else if d == 8 {
        '8'
    } else {
        '9'
    }
}

/// The decimal digits of `n`.
pub fn decimal_chars(n: usize) -> (v: Vec<char>)
    ensures
        v@ == spec_decimal(n as nat),
    decreases n,
{
    if n < 10 {
        let mut v = Vec::new();
        v.push(digit_of(n));
        v
    } else {
        let mut v = decimal_chars(n / 10);
        v.push(digit_of(n % 10));
        v
    }
}

/// The decimal rendering of `n`, as `format!("{}", n)` writes it.
pub fn decimal_string(n: usize) -> (s: String)
    ensures
        s@ == spec_decimal(n as nat),
{
    let v = decimal_chars(n);
    string_from_chars(&v)
}

/// Collects characters into a `String` through std's `FromIterator<char>`;
/// the string holds exactly those characters, in order.
#[verifier::external_body]
pub(crate) fn string_from_chars(v: &Vec<char>) -> (s: String)
    ensures
        s@ == v@,
{
    v.iter().collect()
}

/// The characters of a string slice, in order.
pub fn chars_of(s: &str) -> (v: Vec<char>)
    ensures
        v@ == s@,
{
    broadcast use vstd::string::axiom_spec_iter;
    let mut v: Vec<char> = Vec::new();
    for c in it: s.chars()
        invariant
            it.seq() == s@,
            v@ == s@.take(it.index() as int),
    {
        assert(s@.take(it.index() + 1) =~= v@.push(c));
        v.push(c);
    }
    assert(s@.take(s@.len() as int) =~= s@);
    v
}

/// Appends the characters of `s` to `v`.
pub fn push_str_chars(v: &mut Vec<char>, s: &str)
    ensures
        final(v)@ == old(v)@ + s@,
{
    let cs = chars_of(s);
    push_all(v, &cs);
}

/// Appends the characters of `w` to `v`.
pub fn push_all(v: &mut Vec<char>, w: &Vec<char>)
    ensures
        final(v)@ == old(v)@ + w@,
{
    let ghost start = v@;
    let mut i: usize = 0;
    while i < w.len()
        invariant
            i <= w.len(),
            v@ == start + w@.take(i as int),
        decreases w.len() - i,
    {
        v.push(w[i]);
        i = i + 1;
        assert(w@.take(i as int) =~= w@.take((i - 1) as int).push(w@[(i - 1) as int]));
    }
    assert(w@.take(i as int) =~= w@);
}

/// The characters `v[a..b]`.
pub fn subvec(v: &Vec<char>, a: usize, b: usize) -> (w: Vec<char>)
    requires
        a <= b <= v.len(),
    ensures
        w@ == v@.subrange(a as int, b as int),
{
    let mut w: Vec<char> = Vec::new();
    let mut k: usize = a;
    while k < b
        invariant
            a <= k <= b <= v.len(),
            w@ == v@.subrange(a as int, k as int),
        decreases b - k,
    {
        w.push(v[k]);
        k = k + 1;
        assert(w@ =~= v@.subrange(a as int, k as int));
    }
    w
}

/// `needle` occurs in `hay` as a contiguous run.
pub open spec fn seq_contains(hay: Seq<char>, needle: Seq<char>) -> bool {
    exists|i: int|
        0 <= i && i + needle.len() <= hay.len() && #[trigger] hay.subrange(i, i + needle.len())
            == needle
}

fn matches_at(h: &Vec<char>, i: usize, nd: &Vec<char>) -> (b: bool)
    requires
        i + nd.len() <= h.len(),
    ensures
        b == (h@.subrange(i as int, i + nd.len()) == nd@),
{
    let mut k: usize = 0;
    while k < nd.len()
        invariant
            k <= nd.len(),
            i + nd.len() <= h.len(),
            forall|j: int| 0 <= j < k ==> h@[i + j] == nd@[j],
        decreases nd.len() - k,
    {
        if h[i + k] != nd[k] {
            assert(h@.subrange(i as int, i + nd.len())[k as int] != nd@[k as int]);
            return false;
        }
        k = k + 1;
    }
    assert(h@.subrange(i as int, i + nd.len()) =~= nd@);
    true
}

/// Whether `needle` occurs in `hay` (std's `str::contains` on a string
/// pattern).
pub fn str_contains(hay: &str, needle: &str) -> (b: bool)
    ensures
        b == seq_contains(hay@, needle@),
{
    let h = chars_of(hay);
    let nd = chars_of(needle);
    if nd.len() == 0 {
        assert(hay@.subrange(0, 0 + needle@.len() as int) =~= needle@);
        return true;
    }
    if nd.len() > h.len() {
        return false;
    }
    let last = h.len() - nd.len();
    let mut i: usize = 0;
    while i <= last
        invariant
            last == h.len() - nd.len(),
            0 < nd.len() <= h.len(),
            h@ == hay@,
            nd@ == needle@,
            forall|j: int| 0 <= j < i ==> #[trigger] h@.subrange(j, j + nd.len()) != nd@,
        decreases last + 1 - i,
    {
        if matches_at(&h, i, &nd) {
            return true;
        }
        i = i + 1;
    }
    false
}

/// Whether two strings hold the same characters.
pub fn str_equal(a: &str, b: &str) -> (r: bool)
    ensures
        r == (a@ == b@),
{
    let x = chars_of(a);
    let y = chars_of(b);
    if x.len() != y.len() {
        return false;
    }
    let r = matches_at(&x, 0, &y);
    assert(x@.subrange(0, y@.len() as int) =~= x@);
    r
}

/// What std's `str::to_lowercase` gives for a string: its Unicode lower
/// case mapping. It depends on the characters alone.
pub uninterp spec fn lowercase(s: Seq<char>) -> Seq<char>;

/// Lower-cases a string through std's `str::to_lowercase`; the result is
/// the `lowercase` of its characters.
#[verifier::external_body]
pub(crate) fn to_lowercase(s: &str) -> (r: String)
    ensures
        r@ == lowercase(s@),
{
    s.to_lowercase()
}

/// Whether two character vectors are equal.
pub fn chars_equal(a: &Vec<char>, b: &Vec<char>) -> (r: bool)
    ensures
        r == (a@ == b@),
{
    if a.len() != b.len() {
        return false;
    }
    let r = matches_at(a, 0, b);
    assert(a@.subrange(0, b@.len() as int) =~= a@);
    r
}

} // verus!
