use vstd::prelude::*;
use crate::markdown::lines::{lemma_next_newline_bounds, next_newline};
use crate::markdown::text::{
    chars_of, skip_whitespace, skip_ws, slice_chars, string_of, trim,
    trim_chars,
};

verus! {

/// The state of a decision record.
#[derive(Clone, Copy, Debug, PartialEq, Eq, Structural)]
pub enum Status {
    Accepted,
    Proposed,
}

pub open spec fn status_text(s: Status) -> Seq<char> {
    match s {
        Status::Accepted => "Accepted"@,
        Status::Proposed => "Proposed"@,
    }
}

impl Status {
    /// The name the status is written with.
    pub fn to_text(&self) -> (r: String)
        ensures
            r@ == status_text(*self),
    {
        match self {
            Status::Accepted => String::from_str("Accepted"),
            Status::Proposed => String::from_str("Proposed"),
        }
    }
}

/// A calendar date.
#[derive(Clone, Copy, Debug, PartialEq, Eq, Structural)]
pub struct AdrDate {
    pub year: i32,
    pub month: u32,
    pub day: u32,
}

pub open spec fn is_leap_year(y: int) -> bool {
    (y % 4 == 0 && y % 100 != 0) || y % 400 == 0
}

pub open spec fn days_in_month(y: int, m: int) -> int {
    if m == 2 {
        if is_leap_year(y) { 29 } else { 28 }
    } else if m == 4 || m == 6 || m == 9 || m == 11 {
        30
    } else {
        31
    }
}

/// A date of the Gregorian calendar.
pub open spec fn valid_date(y: int, m: int, d: int) -> bool {
    1 <= m <= 12 && 1 <= d <= days_in_month(y, m)
}

/// Relies on `chrono::NaiveDate::from_ymd_opt`: `Some` exactly for a date
/// that exists, for years that chrono supports (0 to 9999 among them).
#[verifier::external_body]
fn date_exists(year: i32, month: u32, day: u32) -> (r: bool)
    requires
        0 <= year <= 9999,
    ensures
        r == valid_date(year as int, month as int, day as int),
{
    chrono::NaiveDate::from_ymd_opt(year, month, day).is_some()
}

/// A loaded decision record.
#[derive(Debug)]
pub struct Adr {
    pub index: String,
    pub title: String,
    pub content: String,
    pub date: Option<AdrDate>,
    pub status: Option<Status>,
}

pub open spec fn is_digit(c: char) -> bool {
    '0' <= c <= '9'
}

pub open spec fn digit_value(c: char) -> int {
    c as int - '0' as int
}

/// The number that a run of decimal digits denotes.
pub open spec fn digits_value(s: Seq<char>) -> int
    decreases s.len(),
{
    if s.len() == 0 {
        0
    } else {
        digits_value(s.drop_last()) * 10 + digit_value(s.last())
    }
}

pub uninterp spec fn is_decimal_digit(c: char) -> bool;

/// Relies on `regex`'s `\d`: a Unicode decimal digit (category Nd), which the
/// ASCII digits are.
#[verifier::external_body]
fn decimal_digit(c: char) -> (r: bool)
    ensures
        r == is_decimal_digit(c),
        is_digit(c) ==> r,
{
    regex::Regex::new(r"^\d$").unwrap().is_match(&c.to_string())
}

pub open spec fn all_decimal_digits(s: Seq<char>) -> bool {
    forall|k: int| 0 <= k < s.len() ==> is_decimal_digit(#[trigger] s[k])
}

pub open spec fn all_digits(s: Seq<char>) -> bool {
    forall|k: int| 0 <= k < s.len() ==> is_digit(#[trigger] s[k])
}

/// First index at or after `i` that is not a decimal digit (or the length).
pub open spec fn skip_digits(s: Seq<char>, i: int) -> int
    decreases s.len() - i,
{
    if 0 <= i < s.len() && is_decimal_digit(s[i]) {
        skip_digits(s, i + 1)
    } else {
        i
    }
}

/// A record's file name: an index of 5 to 14 decimal digits (of any
/// script), `-`, a name without a line feed, and `.md`. Gives the index and
/// the name.
pub open spec fn parse_file_name(f: Seq<char>) -> Option<(Seq<char>, Seq<char>)> {
    let d = skip_digits(f, 0);
    if 5 <= d <= 14 && d < f.len() && f[d] == '-' && f.len() >= d + 4 && f.subrange(
        f.len() - 3,
        f.len() as int,
    ) == ".md"@ && (forall|k: int| d < k < f.len() - 3 ==> f[k] != '\n') {
        Some((f.subrange(0, d), f.subrange(d + 1, f.len() - 3)))
    } else {
        None
    }
}

/// The title given by a record's first line: `#`, whitespace (line feeds
/// too), then the rest of that line, trimmed.
pub open spec fn title_in_content(c: Seq<char>) -> Option<Seq<char>> {
    if c.len() >= 2 && c[0] == '#' && crate::markdown::text::is_ws(c[1]) {
        let a = skip_ws(c, 1);
        Some(trim(c.subrange(a, next_newline(c, a))))
    } else {
        None
    }
}

pub uninterp spec fn title_case_of(s: Seq<char>) -> Seq<char>;

/// Relies on `inflector::Inflector::to_title_case`: the title-case form of
/// the text, which depends on the text alone.
#[verifier::external_body]
pub(crate) fn title_case(s: &str) -> (r: String)
    ensures
        r@ == title_case_of(s@),
{
    inflector::Inflector::to_title_case(s)
}

pub open spec fn dashes_to_spaces(s: Seq<char>) -> Seq<char> {
    s.map_values(|c: char| if c == '-' { ' ' } else { c })
}

/// The title made from a file name: dashes as spaces, trimmed, in title
/// case; none when nothing is left.
pub open spec fn title_from_name(name: Seq<char>) -> Option<Seq<char>> {
    let t = trim(dashes_to_spaces(name));
    if t.len() == 0 {
        None
    } else {
        Some(title_case_of(t))
    }
}

pub open spec fn date_pattern_at(c: Seq<char>, i: int) -> bool {
    &&& 0 <= i
    &&& i + 16 <= c.len()
    &&& c.subrange(i, i + 6) == "Date: "@
    &&& all_decimal_digits(c.subrange(i + 6, i + 10))
    &&& c[i + 10] == '-'
    &&& all_decimal_digits(c.subrange(i + 11, i + 13))
    &&& c[i + 13] == '-'
    &&& all_decimal_digits(c.subrange(i + 14, i + 16))
}

/// First index at or after `i` where `Date: YYYY-MM-DD` stands.
pub open spec fn first_date_from(c: Seq<char>, i: int) -> Option<int>
    decreases c.len() - i,
{
    if i < 0 || i + 16 > c.len() {
        None
    } else if date_pattern_at(c, i) {
        Some(i)
    } else {
        first_date_from(c, i + 1)
    }
}

/// The date a record states: the first `Date: YYYY-MM-DD` (any decimal
/// digits), when its digits are ASCII ones, as chrono's parser reads only
/// those, and it is a date that exists.
pub open spec fn date_in_content(c: Seq<char>) -> Option<AdrDate> {
    match first_date_from(c, 0) {
        None => None,
        Some(i) => if !(all_digits(c.subrange(i + 6, i + 10)) && all_digits(c.subrange(i + 11, i + 13))
            && all_digits(c.subrange(i + 14, i + 16))) {
            None
        } else {
            let y = digits_value(c.subrange(i + 6, i + 10));
            let m = digits_value(c.subrange(i + 11, i + 13));
            let d = digits_value(c.subrange(i + 14, i + 16));
            if valid_date(y, m, d) {
                Some(AdrDate { year: y as i32, month: m as u32, day: d as u32 })
            } else {
                None
            }
        },
    }
}

/// The status stated at `i`: `## Status`, whitespace, then `Proposed` or
/// `Accepted`.
pub open spec fn status_at(c: Seq<char>, i: int) -> Option<Status> {
    if 0 <= i && i + 9 <= c.len() && c.subrange(i, i + 9) == "## Status"@ {
        let a = skip_ws(c, i + 9);
        if a + 8 <= c.len() && c.subrange(a, a + 8) == "Proposed"@ {
            Some(Status::Proposed)
        } else if a + 8 <= c.len() && c.subrange(a, a + 8) == "Accepted"@ {
            Some(Status::Accepted)
        } else {
            None
        }
    } else {
        None
    }
}

/// The first status stated at or after `i`.
pub open spec fn status_from(c: Seq<char>, i: int) -> Option<Status>
    decreases c.len() - i,
{
    if i < 0 || i >= c.len() {
        None
    } else if status_at(c, i) is Some {
        status_at(c, i)
    } else {
        status_from(c, i + 1)
    }
}

pub proof fn lemma_skip_digits_bounds(s: Seq<char>, i: int)
    requires
        0 <= i <= s.len(),
    ensures
        i <= skip_digits(s, i) <= s.len(),
        skip_digits(s, i) < s.len() ==> !is_decimal_digit(s[skip_digits(s, i)]),
        forall|k: int| i <= k < skip_digits(s, i) ==> is_decimal_digit(#[trigger] s[k]),
    decreases s.len() - i,
{
    if i < s.len() && is_decimal_digit(s[i]) {
        lemma_skip_digits_bounds(s, i + 1);
    }
}

proof fn lemma_digits_monotonic(s: Seq<char>, k: int)
    requires
        all_digits(s),
        0 <= k <= s.len(),
    ensures
        0 <= digits_value(s.take(k)) <= digits_value(s),
    decreases s.len() - k,
{
    if k < s.len() {
        lemma_digits_monotonic(s, k + 1);
        assert(s.take(k + 1).drop_last() =~= s.take(k));
    } else {
        assert(s.take(k) =~= s);
    }
    lemma_digits_nonneg(s.take(k));
}

proof fn lemma_digits_nonneg(s: Seq<char>)
    requires
        all_digits(s),
    ensures
        digits_value(s) >= 0,
    decreases s.len(),
{
    if s.len() > 0 {
        assert(all_digits(s.drop_last())) by {
            assert forall|k: int| 0 <= k < s.drop_last().len() implies is_digit(
                #[trigger] s.drop_last()[k],
            ) by {
                assert(s.drop_last()[k] == s[k]);
            }
        }
        lemma_digits_nonneg(s.drop_last());
    }
}

/// The number a run of decimal digits denotes, when it fits in `u32`.
pub fn digits_to_u32(s: &Vec<char>) -> (r: Option<u32>)
    requires
        all_digits(s@),
    ensures
        match r {
            Some(v) => v as int == digits_value(s@),
            None => digits_value(s@) > u32::MAX,
        },
{
    let mut acc: u64 = 0;
    let mut k: usize = 0;
    while k < s.len()
        invariant
            k <= s.len(),
            all_digits(s@),
            acc as int == digits_value(s@.take(k as int)),
            acc <= u32::MAX,
        decreases s.len() - k,
    {
        assert(is_digit(s@[k as int]));
        let d = (s[k] as u32 - '0' as u32) as u64;
        assert(s@.take(k + 1).drop_last() =~= s@.take(k as int));
        acc = acc * 10 + d;
        k += 1;
        if acc > u32::MAX as u64 {
            proof {
                lemma_digits_monotonic(s@, k as int);
            }
            return None;
        }
    }
    assert(s@.take(k as int) =~= s@);
    Some(acc as u32)
}

fn skip_digit_chars(s: &Vec<char>, i: usize) -> (r: usize)
    requires
        i <= s.len(),
    ensures
        r == skip_digits(s@, i as int),
        i <= r <= s.len(),
{
    proof {
        lemma_skip_digits_bounds(s@, i as int);
    }
    let mut k: usize = i;
    while k < s.len() && decimal_digit(s[k])
        invariant
            i <= k <= s.len(),
            skip_digits(s@, k as int) == skip_digits(s@, i as int),
        decreases s.len() - k,
    {
        k += 1;
    }
    k
}

/// Splits a record's file name into its index and its name.
pub fn file_name_parts(f: &Vec<char>) -> (r: Option<(Vec<char>, Vec<char>)>)
    ensures
        match r {
            Some((i, n)) => parse_file_name(f@) == Some((i@, n@)),
            None => parse_file_name(f@) is None,
        },
{
    let d = skip_digit_chars(f, 0);
    if d < 5 || d > 14 || d >= f.len() || f[d] != '-' || f.len() < d + 4 {
        return None;
    }
    let n = f.len();
    proof {
        reveal_strlit(".md");
    }
    if !(f[n - 3] == '.' && f[n - 2] == 'm' && f[n - 1] == 'd') {
        assert(f@.subrange(n - 3, n as int)[0] == f@[n - 3]);
        assert(f@.subrange(n - 3, n as int)[1] == f@[n - 2]);
        assert(f@.subrange(n - 3, n as int)[2] == f@[n - 1]);
        return None;
    }
    assert(f@.subrange(n - 3, n as int) =~= ".md"@);
    let mut k: usize = d + 1;
    while k < n - 3
        invariant
            d + 1 <= k <= n - 3,
            n == f.len(),
            d == skip_digits(f@, 0),
            5 <= d <= 14,
            f@[d as int] == '-',
            f@.subrange(n - 3, n as int) == ".md"@,
            forall|j: int| d < j < k ==> f@[j] != '\n',
        decreases n - 3 - k,
    {
        if f[k] == '\n' {
            assert(f@[k as int] == '\n');
            return None;
        }
        k += 1;
    }
    Some((slice_chars(f, 0, d), slice_chars(f, d + 1, n - 3)))
}

/// The title given by a record's first line.
pub fn title_from_content(c: &Vec<char>) -> (r: Option<String>)
    ensures
        match r {
            Some(t) => title_in_content(c@) == Some(t@),
            None => title_in_content(c@) is None,
        },
{
    if c.len() < 2 || c[0] != '#' || !crate::markdown::text::is_whitespace(c[1]) {
        return None;
    }
    let a = skip_whitespace(c, 1);
    let mut e: usize = a;
    proof {
        lemma_next_newline_bounds(c@, a as int);
    }
    while e < c.len() && c[e] != '\n'
        invariant
            a <= e <= c.len(),
            next_newline(c@, e as int) == next_newline(c@, a as int),
        decreases c.len() - e,
    {
        e += 1;
    }
    let line = slice_chars(c, a, e);
    let t = trim_chars(&line);
    Some(string_of(&t))
}

/// The title made from a file name.
pub fn title_from_filename(name: &Vec<char>) -> (r: Option<String>)
    ensures
        match r {
            Some(t) => title_from_name(name@) == Some(t@),
            None => title_from_name(name@) is None,
        },
{
    let mut rep: Vec<char> = Vec::new();
    let mut k: usize = 0;
    while k < name.len()
        invariant
            k <= name.len(),
            rep@ == dashes_to_spaces(name@).take(k as int),
        decreases name.len() - k,
    {
        let c = name[k];
        rep.push(if c == '-' { ' ' } else { c });
        k += 1;
        assert(rep@ =~= dashes_to_spaces(name@).take(k as int));
    }
    assert(rep@ =~= dashes_to_spaces(name@));
    let t = trim_chars(&rep);
    if t.len() == 0 {
        return None;
    }
    let text = string_of(&t);
    Some(title_case(text.as_str()))
}

fn digits_at(c: &Vec<char>, a: usize, b: usize) -> (r: bool)
    requires
        a <= b <= c.len(),
    ensures
        r == all_digits(c@.subrange(a as int, b as int)),
{
    let mut k: usize = a;
    while k < b
        invariant
            a <= k <= b <= c.len(),
            all_digits(c@.subrange(a as int, k as int)),
        decreases b - k,
    {
        if !('0' <= c[k] && c[k] <= '9') {
            assert(c@.subrange(a as int, b as int)[k - a] == c@[k as int]);
            return false;
        }
        k += 1;
        assert forall|j: int| 0 <= j < k - a implies is_digit(#[trigger] c@.subrange(a as int, k as int)[j]) by {
            assert(c@.subrange(a as int, k as int)[j] == c@[a + j]);
            if j < k - 1 - a {
                assert(c@.subrange(a as int, k - 1)[j] == c@[a + j]);
            }
        }
    }
    true
}

fn decimal_digits_at(c: &Vec<char>, a: usize, b: usize) -> (r: bool)
    requires
        a <= b <= c.len(),
    ensures
        r == all_decimal_digits(c@.subrange(a as int, b as int)),
{
    let mut k: usize = a;
    while k < b
        invariant
            a <= k <= b <= c.len(),
            all_decimal_digits(c@.subrange(a as int, k as int)),
        decreases b - k,
    {
        if !decimal_digit(c[k]) {
            assert(c@.subrange(a as int, b as int)[k - a] == c@[k as int]);
            return false;
        }
        k += 1;
        assert forall|j: int| 0 <= j < k - a implies is_decimal_digit(#[trigger] c@.subrange(a as int, k as int)[j]) by {
            assert(c@.subrange(a as int, k as int)[j] == c@[a + j]);
            if j < k - 1 - a {
                assert(c@.subrange(a as int, k - 1)[j] == c@[a + j]);
            }
        }
    }
    true
}

fn date_pattern_here(c: &Vec<char>, i: usize) -> (r: bool)
    ensures
        r == date_pattern_at(c@, i as int),
{
    if i > c.len() || c.len() - i < 16 {
        return false;
    }
    proof {
        reveal_strlit("Date: ");
    }
    let head = c[i] == 'D' && c[i + 1] == 'a' && c[i + 2] == 't' && c[i + 3] == 'e' && c[i + 4]
        == ':' && c[i + 5] == ' ';
    if head {
        assert(c@.subrange(i as int, i + 6) =~= "Date: "@);
    } else {
        assert(c@.subrange(i as int, i + 6) != "Date: "@) by {
            if c@.subrange(i as int, i + 6) == "Date: "@ {
                assert(c@.subrange(i as int, i + 6)[0] == c@[i as int]);
                assert(c@.subrange(i as int, i + 6)[1] == c@[i + 1]);
                assert(c@.subrange(i as int, i + 6)[2] == c@[i + 2]);
                assert(c@.subrange(i as int, i + 6)[3] == c@[i + 3]);
                assert(c@.subrange(i as int, i + 6)[4] == c@[i + 4]);
                assert(c@.subrange(i as int, i + 6)[5] == c@[i + 5]);
            }
        }
        return false;
    }
    decimal_digits_at(c, i + 6, i + 10) && c[i + 10] == '-' && decimal_digits_at(c, i + 11, i + 13)
        && c[i + 13] == '-' && decimal_digits_at(c, i + 14, i + 16)
}

/// The date a record states, when it exists.
pub fn date_from_content(c: &Vec<char>) -> (r: Option<AdrDate>)
    ensures
        r == date_in_content(c@),
{
    if c.len() < 16 {
        return None;
    }
    let last = c.len() - 16;
    let mut i: usize = 0;
    while i <= last && !date_pattern_here(c, i)
        invariant
            last == c.len() - 16,
            i <= last + 1,
            first_date_from(c@, i as int) == first_date_from(c@, 0),
        decreases last + 1 - i,
    {
        i += 1;
    }
    if i > last {
        return None;
    }
    if !(digits_at(c, i + 6, i + 10) && digits_at(c, i + 11, i + 13) && digits_at(c, i + 14, i + 16)) {
        return None;
    }
    let ys = slice_chars(c, i + 6, i + 10);
    let ms = slice_chars(c, i + 11, i + 13);
    let ds = slice_chars(c, i + 14, i + 16);
    let y = digits_to_u32(&ys);
    let m = digits_to_u32(&ms);
    let d = digits_to_u32(&ds);
    proof {
        reveal_with_fuel(digits_value, 5);
        lemma_digits_nonneg(ys@);
        lemma_digits_nonneg(ms@);
        lemma_digits_nonneg(ds@);
        assert(ys@.drop_last().drop_last().drop_last().drop_last().len() == 0);
    }
    match (y, m, d) {
        (Some(y), Some(m), Some(d)) => {
            assert(y <= 9999);
            let year = y as i32;
            if date_exists(year, m, d) {
                Some(AdrDate { year, month: m, day: d })
            } else {
                None
            }
        },
        _ => None,
    }
}

fn matches_at(c: &Vec<char>, i: usize, w: &str) -> (r: bool)
    ensures
        r == (i + w@.len() <= c@.len() && c@.subrange(i as int, i + w@.len()) == w@),
{
    let wc = chars_of(w);
    if i > c.len() || c.len() - i < wc.len() {
        return false;
    }
    let mut k: usize = 0;
    while k < wc.len()
        invariant
            k <= wc.len(),
            i + wc.len() <= c.len(),
            wc@ == w@,
            forall|j: int| 0 <= j < k ==> c@[i + j] == wc@[j],
        decreases wc.len() - k,
    {
        if c[i + k] != wc[k] {
            assert(c@.subrange(i as int, i + wc@.len())[k as int] == c@[i + k]);
            return false;
        }
        k += 1;
    }
    assert(c@.subrange(i as int, i + wc@.len()) =~= wc@);
    true
}

fn status_here(c: &Vec<char>, i: usize) -> (r: Option<Status>)
    requires
        i < c.len(),
    ensures
        r == status_at(c@, i as int),
{
    if !matches_at(c, i, "## Status") {
        return None;
    }
    proof {
        reveal_strlit("## Status");
    }
    let a = skip_whitespace(c, i + 9);
    proof {
        reveal_strlit("Proposed");
        reveal_strlit("Accepted");
    }
    if matches_at(c, a, "Proposed") {
        Some(Status::Proposed)
    } else if matches_at(c, a, "Accepted") {
        Some(Status::Accepted)
    } else {
        None
    }
}

/// The first status a record states.
pub fn status_from_content(c: &Vec<char>) -> (r: Option<Status>)
    ensures
        r == status_from(c@, 0),
{
    let mut i: usize = 0;
    while i < c.len()
        invariant
            i <= c.len(),
            status_from(c@, i as int) == status_from(c@, 0),
        decreases c.len() - i,
    {
        let s = status_here(c, i);
        if s.is_some() {
            return s;
        }
        i += 1;
    }
    None
}

/// The title a record goes by: the one in its first line, or else the one
/// made from its file name.
pub open spec fn record_title(c: Seq<char>, name: Seq<char>) -> Option<Seq<char>> {
    match title_in_content(c) {
        Some(t) => Some(t),
        None => title_from_name(name),
    }
}

impl Adr {
    /// A record from its file name and content: `None` where the file name is
    /// not a record's, or no title can be found.
    pub fn parse(file_name: &str, content: &str) -> (r: Option<Adr>)
        ensures
            match r {
                Some(a) => parse_file_name(file_name@) matches Some((idx, name)) && a.index@ == idx
                    && record_title(content@, name) == Some(a.title@) && a.content@ == content@
                    && a.date == date_in_content(content@) && a.status == status_from(content@, 0),
                None => parse_file_name(file_name@) matches Some((idx, name)) ==> record_title(
                    content@,
                    name,
                ) is None,
            },
    {
        let f = chars_of(file_name);
        let c = chars_of(content);
        let (index, name) = match file_name_parts(&f) {
            None => return None,
            Some(p) => p,
        };
        let title = match title_from_content(&c) {
            Some(t) => t,
            None => match title_from_filename(&name) {
                Some(t) => t,
                None => return None,
            },
        };
        Some(
            Adr {
                index: string_of(&index),
                title,
                content: string_of(&c),
                date: date_from_content(&c),
                status: status_from_content(&c),
            },
        )
    }

    /// The record's index as a number, as `str::parse::<u32>` reads it:
    /// `None` unless it is a nonempty run of digits whose value fits in `u32`.
    pub fn index_number(&self) -> (r: Option<u32>)
        ensures
            match r {
                Some(v) => self.index@.len() > 0 && all_digits(self.index@) && v as int
                    == digits_value(self.index@),
                None => self.index@.len() == 0 || !all_digits(self.index@) || digits_value(
                    self.index@,
                ) > u32::MAX,
            },
    {
        let s = chars_of(self.index.as_str());
        if s.len() == 0 {
            return None;
        }
        let mut k: usize = 0;
        while k < s.len()
            invariant
                k <= s.len(),
                s@ == self.index@,
                forall|j: int| 0 <= j < k ==> is_digit(#[trigger] s@[j]),
            decreases s.len() - k,
        {
            if !('0' <= s[k] && s[k] <= '9') {
                assert(!is_digit(s@[k as int]));
                return None;
            }
            k += 1;
        }
        digits_to_u32(&s)
    }
}

/// Whether a file name is that of a record.
pub fn record_file_name(f: &str) -> (r: bool)
    ensures
        r == parse_file_name(f@) is Some,
{
    let c = chars_of(f);
    file_name_parts(&c).is_some()
}

} // verus!
