use vstd::prelude::*;

verus! {

/// The Unicode White_Space property: the characters that `str::trim` and
/// `char::is_whitespace` treat as whitespace.
pub open spec fn is_ws(c: char) -> bool {
    let u = c as u32;
    (0x9 <= u <= 0xd) || u == 0x20 || u == 0x85 || u == 0xa0 || u == 0x1680 || (0x2000 <= u
        <= 0x200a) || u == 0x2028 || u == 0x2029 || u == 0x202f || u == 0x205f || u == 0x3000
}

pub fn is_whitespace(c: char) -> (r: bool)
    ensures
        r == is_ws(c),
{
    let u = c as u32;
    (0x9 <= u && u <= 0xd) || u == 0x20 || u == 0x85 || u == 0xa0 || u == 0x1680 || (0x2000 <= u
        && u <= 0x200a) || u == 0x2028 || u == 0x2029 || u == 0x202f || u == 0x205f || u == 0x3000
}

/// First index at or after `i` whose character is not whitespace (or the length).
pub open spec fn skip_ws(s: Seq<char>, i: int) -> int
    decreases s.len() - i,
{
    if 0 <= i < s.len() && is_ws(s[i]) {
        skip_ws(s, i + 1)
    } else {
        i
    }
}

/// First index at or after `i` whose character is not `c` (or the length).
pub open spec fn skip_char(s: Seq<char>, i: int, c: char) -> int
    decreases s.len() - i,
{
    if 0 <= i < s.len() && s[i] == c {
        skip_char(s, i + 1, c)
    } else {
        i
    }
}

/// Moving down from `j`, but not below `lo`, past whitespace characters.
pub open spec fn back_ws(s: Seq<char>, j: int, lo: int) -> int
    decreases j - lo,
{
    if lo < j <= s.len() && is_ws(s[j - 1]) {
        back_ws(s, j - 1, lo)
    } else {
        j
    }
}

/// Moving down from `j`, but not below `lo`, past characters equal to `c`.
pub open spec fn back_char(s: Seq<char>, j: int, lo: int, c: char) -> int
    decreases j - lo,
{
    if lo < j <= s.len() && s[j - 1] == c {
        back_char(s, j - 1, lo, c)
    } else {
        j
    }
}

/// `s` without leading and trailing whitespace.
pub open spec fn trim(s: Seq<char>) -> Seq<char> {
    let a = skip_ws(s, 0);
    s.subrange(a, back_ws(s, s.len() as int, a))
}

pub proof fn lemma_skip_ws_bounds(s: Seq<char>, i: int)
    requires
        0 <= i <= s.len(),
    ensures
        i <= skip_ws(s, i) <= s.len(),
        skip_ws(s, i) < s.len() ==> !is_ws(s[skip_ws(s, i)]),
        forall|k: int| i <= k < skip_ws(s, i) ==> is_ws(#[trigger] s[k]),
    decreases s.len() - i,
{
    if i < s.len() && is_ws(s[i]) {
        lemma_skip_ws_bounds(s, i + 1);
    }
}

pub proof fn lemma_skip_char_bounds(s: Seq<char>, i: int, c: char)
    requires
        0 <= i <= s.len(),
    ensures
        i <= skip_char(s, i, c) <= s.len(),
        skip_char(s, i, c) < s.len() ==> s[skip_char(s, i, c)] != c,
        forall|k: int| i <= k < skip_char(s, i, c) ==> #[trigger] s[k] == c,
    decreases s.len() - i,
{
    if i < s.len() && s[i] == c {
        lemma_skip_char_bounds(s, i + 1, c);
    }
}

pub proof fn lemma_back_ws_bounds(s: Seq<char>, j: int, lo: int)
    requires
        0 <= lo <= j <= s.len(),
    ensures
        lo <= back_ws(s, j, lo) <= j,
        forall|k: int| back_ws(s, j, lo) <= k < j ==> is_ws(#[trigger] s[k]),
    decreases j - lo,
{
    if lo < j && is_ws(s[j - 1]) {
        lemma_back_ws_bounds(s, j - 1, lo);
    }
}

pub proof fn lemma_back_char_bounds(s: Seq<char>, j: int, lo: int, c: char)
    requires
        0 <= lo <= j <= s.len(),
    ensures
        lo <= back_char(s, j, lo, c) <= j,
    decreases j - lo,
{
    if lo < j && s[j - 1] == c {
        lemma_back_char_bounds(s, j - 1, lo, c);
    }
}

pub proof fn lemma_trim_bounds(s: Seq<char>)
    ensures
        0 <= skip_ws(s, 0) <= back_ws(s, s.len() as int, skip_ws(s, 0)) <= s.len(),
{
    lemma_skip_ws_bounds(s, 0);
    lemma_back_ws_bounds(s, s.len() as int, skip_ws(s, 0));
}

pub fn skip_whitespace(s: &Vec<char>, i: usize) -> (r: usize)
    requires
        i <= s.len(),
    ensures
        r == skip_ws(s@, i as int),
        i <= r <= s.len(),
{
    proof {
        lemma_skip_ws_bounds(s@, i as int);
    }
    let mut k: usize = i;
    while k < s.len() && is_whitespace(s[k])
        invariant
            i <= k <= s.len(),
            skip_ws(s@, k as int) == skip_ws(s@, i as int),
        decreases s.len() - k,
    {
        k += 1;
    }
    k
}

pub fn skip_chars(s: &Vec<char>, i: usize, c: char) -> (r: usize)
    requires
        i <= s.len(),
    ensures
        r == skip_char(s@, i as int, c),
        i <= r <= s.len(),
{
    proof {
        lemma_skip_char_bounds(s@, i as int, c);
    }
    let mut k: usize = i;
    while k < s.len() && s[k] == c
        invariant
            i <= k <= s.len(),
            skip_char(s@, k as int, c) == skip_char(s@, i as int, c),
        decreases s.len() - k,
    {
        k += 1;
    }
    k
}

pub fn back_whitespace(s: &Vec<char>, j: usize, lo: usize) -> (r: usize)
    requires
        lo <= j <= s.len(),
    ensures
        r == back_ws(s@, j as int, lo as int),
        lo <= r <= j,
{
    proof {
        lemma_back_ws_bounds(s@, j as int, lo as int);
    }
    let mut k: usize = j;
    while k > lo && is_whitespace(s[k - 1])
        invariant
            lo <= k <= j <= s.len(),
            back_ws(s@, k as int, lo as int) == back_ws(s@, j as int, lo as int),
        decreases k,
    {
        k -= 1;
    }
    k
}

pub fn back_chars(s: &Vec<char>, j: usize, lo: usize, c: char) -> (r: usize)
    requires
        lo <= j <= s.len(),
    ensures
        r == back_char(s@, j as int, lo as int, c),
        lo <= r <= j,
{
    proof {
        lemma_back_char_bounds(s@, j as int, lo as int, c);
    }
    let mut k: usize = j;
    while k > lo && s[k - 1] == c
        invariant
            lo <= k <= j <= s.len(),
            back_char(s@, k as int, lo as int, c) == back_char(s@, j as int, lo as int, c),
        decreases k,
    {
        k -= 1;
    }
    k
}

/// Copies the characters `s[a..b]`.
pub fn slice_chars(s: &Vec<char>, a: usize, b: usize) -> (r: Vec<char>)
    requires
        a <= b <= s.len(),
    ensures
        r@ == s@.subrange(a as int, b as int),
{
    let mut r: Vec<char> = Vec::new();
    let mut k: usize = a;
    while k < b
        invariant
            a <= k <= b <= s.len(),
            r@ == s@.subrange(a as int, k as int),
        decreases b - k,
    {
        r.push(s[k]);
        k += 1;
        assert(r@ =~= s@.subrange(a as int, k as int));
    }
    r
}

/// The characters of `s` without surrounding whitespace.
pub fn trim_chars(s: &Vec<char>) -> (r: Vec<char>)
    ensures
        r@ == trim(s@),
{
    proof {
        lemma_trim_bounds(s@);
    }
    let a = skip_whitespace(s, 0);
    let b = back_whitespace(s, s.len(), a);
    slice_chars(s, a, b)
}

/// Relies on `String::push`: appends one character.
#[verifier::external_body]
pub(crate) fn push_char(s: &mut String, c: char)
    ensures
        final(s)@ == old(s)@.push(c),
{
    s.push(c)
}

/// A `String` holding exactly the given characters.
pub fn string_of(v: &Vec<char>) -> (r: String)
    ensures
        r@ == v@,
{
    let mut r = String::new();
    let mut k: usize = 0;
    while k < v.len()
        invariant
            k <= v.len(),
            r@ == v@.subrange(0, k as int),
        decreases v.len() - k,
    {
        push_char(&mut r, v[k]);
        k += 1;
        assert(r@ =~= v@.subrange(0, k as int));
    }
    r
}

/// The characters of a string.
pub fn chars_of(s: &str) -> (r: Vec<char>)
    ensures
        r@ == s@,
{
    let mut r: Vec<char> = Vec::new();
    for c in it: s.chars()
        invariant
            it.seq() == s@,
            r@ == it.seq().take(it.index() as int),
    {
        r.push(c);
        assert(r@ =~= it.seq().take(it.index() as int + 1));
    }
    assert(r@ =~= s@);
    r
}

/// The character of a decimal digit.
pub open spec fn digit_char(d: nat) -> char {
    if d == 0 { '0' } else if d == 1 { '1' } else if d == 2 { '2' } else if d == 3 { '3' }
    else if d == 4 { '4' } else if d == 5 { '5' } else if d == 6 { '6' } else if d == 7 { '7' }
    else if d == 8 { '8' } else { '9' }
}

/// The decimal digits of `n`.
pub open spec fn decimal(n: nat) -> Seq<char>
    decreases n,
{
    if n < 10 {
        seq![digit_char(n)]
    } else {
        decimal(n / 10).push(digit_char(n % 10))
    }
}

/// Number of bytes of the characters in UTF-8.
pub open spec fn utf8_len(s: Seq<char>) -> nat {
    vstd::utf8::encode_utf8(s).len()
}

/// Number of bytes that the characters take in UTF-8.
pub fn byte_len(v: &Vec<char>) -> (r: usize)
    ensures
        r == utf8_len(v@),
{
    let s = string_of(v);
    let b = s.as_str().as_bytes();
    b.len()
}

/// The UTF-8 length of joined characters is the sum of their lengths.
pub proof fn lemma_utf8_len_concat(a: Seq<char>, b: Seq<char>)
    ensures
        utf8_len(a + b) == utf8_len(a) + utf8_len(b),
    decreases a.len(),
{
    if a.len() > 0 {
        lemma_utf8_len_concat(a.drop_first(), b);
        assert((a + b).drop_first() =~= a.drop_first() + b);
        assert((a + b)[0] == a[0]);
        assert(vstd::utf8::encode_utf8(a + b) =~= vstd::utf8::encode_scalar(a[0] as u32)
            + vstd::utf8::encode_utf8(a.drop_first() + b));
    } else {
        assert(a + b =~= b);
    }
}

/// A prefix takes no more bytes than the whole.
pub proof fn lemma_utf8_len_prefix(s: Seq<char>, k: int)
    requires
        0 <= k <= s.len(),
    ensures
        utf8_len(s.take(k)) <= utf8_len(s),
{
    lemma_utf8_len_concat(s.take(k), s.skip(k));
    assert(s.take(k) + s.skip(k) =~= s);
}

/// Characters below 0x80 take one byte each.
pub proof fn lemma_utf8_len_ascii(s: Seq<char>)
    requires
        forall|k: int| 0 <= k < s.len() ==> (#[trigger] s[k]) as u32 <= 0x7f,
    ensures
        utf8_len(s) == s.len(),
    decreases s.len(),
{
    if s.len() > 0 {
        lemma_utf8_len_ascii(s.drop_first());
        assert((s[0] as u32) <= 0x7f);
    }
}

} // verus!
