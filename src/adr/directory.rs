use vstd::prelude::*;
use super::model::{status_text, title_case, title_case_of, AdrDate, Status};
use crate::markdown::text::{chars_of, decimal, digit_char, push_char, string_of, trim, trim_chars};

verus! {

/// How the records of a directory are numbered.
#[derive(Clone, Copy, Debug, PartialEq, Eq, Structural)]
pub enum IndexType {
    Timestamp,
    Sequential,
}

/// A directory of decision records: its path relative to the project root,
/// its name, how its records are numbered, and its full path.
#[derive(Clone, Debug)]
pub struct Directory {
    pub path: String,
    pub name: String,
    pub index: IndexType,
    pub full_path: String,
}

/// The largest of the indexes, 0 for none.
pub open spec fn max_index(s: Seq<u32>) -> nat
    decreases s.len(),
{
    if s.len() == 0 {
        0
    } else {
        let m = max_index(s.drop_last());
        if m < s.last() {
            s.last() as nat
        } else {
            m
        }
    }
}

/// `s` with `0` in front up to `width` characters.
pub open spec fn zero_padded(s: Seq<char>, width: nat) -> Seq<char> {
    if s.len() >= width {
        s
    } else {
        Seq::new((width - s.len()) as nat, |i: int| '0') + s
    }
}

pub open spec fn sequential_index(indexes: Seq<u32>) -> Seq<char> {
    zero_padded(decimal(max_index(indexes) + 1), 5)
}

/// The index after the largest one in use.
pub fn next_seq_index(indexes: &Vec<u32>) -> (r: u32)
    requires
        forall|i: int| 0 <= i < indexes@.len() ==> indexes@[i] < u32::MAX,
    ensures
        r == max_index(indexes@) + 1,
{
    let mut max: u32 = 0;
    let mut k: usize = 0;
    while k < indexes.len()
        invariant
            k <= indexes.len(),
            forall|i: int| 0 <= i < indexes@.len() ==> indexes@[i] < u32::MAX,
            max == max_index(indexes@.take(k as int)),
            max < u32::MAX,
        decreases indexes.len() - k,
    {
        assert(indexes@.take(k + 1).drop_last() =~= indexes@.take(k as int));
        if max < indexes[k] {
            max = indexes[k];
        }
        k += 1;
    }
    assert(indexes@.take(k as int) =~= indexes@);
    max + 1
}

fn digit_of(d: u32) -> (r: char)
    requires
        d < 10,
    ensures
        r == digit_char(d as nat),
{
    if d == 0 { '0' } else if d == 1 { '1' } else if d == 2 { '2' } else if d == 3 { '3' }
    else if d == 4 { '4' } else if d == 5 { '5' } else if d == 6 { '6' } else if d == 7 { '7' }
    else if d == 8 { '8' } else { '9' }
}

/// The decimal digits of `n`.
pub fn decimal_chars(n: u32) -> (r: Vec<char>)
    ensures
        r@ == decimal(n as nat),
    decreases n,
{
    if n < 10 {
        let mut v: Vec<char> = Vec::new();
        v.push(digit_of(n));
        assert(v@ =~= decimal(n as nat));
        v
    } else {
        let mut v = decimal_chars(n / 10);
        v.push(digit_of(n % 10));
        v
    }
}

/// The decimal digits of `n`, with `0` in front up to `width` characters.
pub fn padded_decimal(n: u32, width: usize) -> (r: String)
    ensures
        r@ == zero_padded(decimal(n as nat), width as nat),
{
    let digits = decimal_chars(n);
    let mut r = String::new();
    let mut k: usize = digits.len();
    while k < width
        invariant
            digits.len() <= k <= width || (width < digits.len() && k == digits.len()),
            r@ == Seq::new((k - digits.len()) as nat, |i: int| '0'),
        decreases width - k,
    {
        push_char(&mut r, '0');
        k += 1;
        assert(r@ =~= Seq::new((k - digits.len()) as nat, |i: int| '0'));
    }
    let mut j: usize = 0;
    let ghost pad = r@;
    while j < digits.len()
        invariant
            j <= digits.len(),
            r@ == pad + digits@.take(j as int),
        decreases digits.len() - j,
    {
        push_char(&mut r, digits[j]);
        j += 1;
        assert(r@ =~= pad + digits@.take(j as int));
    }
    assert(digits@.take(j as int) =~= digits@);
    if digits.len() >= width {
        assert(pad =~= Seq::<char>::empty());
        assert(r@ =~= digits@);
    }
    r
}

/// The index a new record gets: for sequential numbering the next number,
/// five digits at least; for timestamps the given timestamp.
pub fn index_text(index: IndexType, indexes: &Vec<u32>, timestamp: &str) -> (r: String)
    requires
        index == IndexType::Sequential ==> forall|i: int|
            0 <= i < indexes@.len() ==> indexes@[i] < u32::MAX,
    ensures
        r@ == match index {
            IndexType::Sequential => sequential_index(indexes@),
            IndexType::Timestamp => timestamp@,
        },
{
    match index {
        IndexType::Sequential => padded_decimal(next_seq_index(indexes), 5),
        IndexType::Timestamp => String::from_str(timestamp),
    }
}

/// Relies on `std::time::SystemTime::now` and `duration_since(UNIX_EPOCH)`,
/// then `chrono::DateTime::from_timestamp` with the `Datelike` and
/// `Timelike` getters: the current UTC date and time, month and day counted
/// from 1, hour, minute and second from 0 (a leap second shows in the
/// nanoseconds only); `None` when the clock reads before 1970 or past what
/// chrono can represent.
#[verifier::external_body]
fn utc_now() -> (r: Option<Stamp>)
    ensures
        r matches Some(t) ==> valid_stamp(t),
{
    let since = std::time::SystemTime::now().duration_since(std::time::UNIX_EPOCH).ok()?;
    let secs = i64::try_from(since.as_secs()).ok()?;
    let now = chrono::DateTime::from_timestamp(secs, since.subsec_nanos())?;
    Some(Stamp {
        year: chrono::Datelike::year(&now),
        month: chrono::Datelike::month(&now),
        day: chrono::Datelike::day(&now),
        hour: chrono::Timelike::hour(&now),
        minute: chrono::Timelike::minute(&now),
        second: chrono::Timelike::second(&now),
    })
}

impl Directory {
    /// The index for a new record in this directory, given the indexes of
    /// the records already in it: the next sequential number, or the current
    /// UTC time as `%Y%m%d%H%M%S`; `None` only for a time stamp when the clock
    /// cannot be read as a date.
    pub fn next_index(&self, indexes: &Vec<u32>) -> (r: Option<String>)
        requires
            self.index == IndexType::Sequential ==> forall|i: int|
                0 <= i < indexes@.len() ==> indexes@[i] < u32::MAX,
        ensures
            self.index == IndexType::Sequential ==> (r matches Some(s) && s@ == sequential_index(
                indexes@,
            )),
            self.index == IndexType::Timestamp ==> (r matches Some(s) ==> exists|t: Stamp|
                valid_stamp(t) && s@ == #[trigger] timestamp_text(t)),
    {
        match self.index {
            IndexType::Sequential => Some(index_text(IndexType::Sequential, indexes, "")),
            IndexType::Timestamp => {
                match utc_now() {
                    None => None,
                    Some(now) => {
                        let stamp = format_timestamp(&now);
                        let r = index_text(IndexType::Timestamp, indexes, stamp.as_str());
                        assert(valid_stamp(now) && r@ == timestamp_text(now));
                        Some(r)
                    },
                }
            },
        }
    }
}

pub uninterp spec fn lower_of(s: Seq<char>) -> Seq<char>;

/// Relies on `str::to_lowercase`: the lowercase form, which depends on the
/// text alone.
#[verifier::external_body]
fn lowercase(s: &str) -> (r: String)
    ensures
        r@ == lower_of(s@),
{
    s.to_lowercase()
}

pub open spec fn spaces_to_dashes(s: Seq<char>) -> Seq<char> {
    s.map_values(|c: char| if c == ' ' { '-' } else { c })
}

/// A record's file name: the index, `-`, the trimmed title with dashes for
/// spaces in lower case, and `.md`.
pub open spec fn file_name_of(index: Seq<char>, title: Seq<char>) -> Seq<char> {
    index + "-"@ + lower_of(spaces_to_dashes(trim(title))) + ".md"@
}

/// The file name of a new record.
pub fn adr_file_name(index: &str, title: &str) -> (r: String)
    ensures
        r@ == file_name_of(index@, title@),
{
    let t = trim_chars(&chars_of(title));
    let mut d: Vec<char> = Vec::new();
    let mut k: usize = 0;
    while k < t.len()
        invariant
            k <= t.len(),
            d@ == spaces_to_dashes(t@).take(k as int),
        decreases t.len() - k,
    {
        let c = t[k];
        d.push(if c == ' ' { '-' } else { c });
        k += 1;
        assert(d@ =~= spaces_to_dashes(t@).take(k as int));
    }
    assert(d@ =~= spaces_to_dashes(t@));
    let dashed = string_of(&d);
    let lower = lowercase(dashed.as_str());
    let mut r = String::from_str(index);
    r.append("-");
    r.append(lower.as_str());
    r.append(".md");
    r
}

/// A date as `YYYY-MM-DD`.
/// A year as chrono's `%Y` writes it: four digits at least, and a sign
/// outside 0 to 9999.
pub open spec fn year_text(y: int) -> Seq<char> {
    if 0 <= y <= 9999 {
        zero_padded(decimal(y as nat), 4)
    } else if y < 0 {
        "-"@ + zero_padded(decimal((-y) as nat), 4)
    } else {
        "+"@ + zero_padded(decimal(y as nat), 4)
    }
}

/// A year written as chrono's `%Y` does.
pub fn format_year(y: i32) -> (r: String)
    ensures
        r@ == year_text(y as int),
{
    if 0 <= y && y <= 9999 {
        padded_decimal(y as u32, 4)
    } else {
        let mut r = if y < 0 {
            String::from_str("-")
        } else {
            String::from_str("+")
        };
        let a: u32 = if y < 0 {
            (-(y as i64)) as u32
        } else {
            y as u32
        };
        let digits = padded_decimal(a, 4);
        r.append(digits.as_str());
        r
    }
}

/// A date and time of day, as the clock gives it.
pub struct Stamp {
    pub year: i32,
    pub month: u32,
    pub day: u32,
    pub hour: u32,
    pub minute: u32,
    pub second: u32,
}

pub open spec fn valid_stamp(t: Stamp) -> bool {
    1 <= t.month <= 12 && 1 <= t.day <= 31 && t.hour < 24 && t.minute < 60 && t.second < 60
}

/// A time as `%Y%m%d%H%M%S`.
pub open spec fn timestamp_text(t: Stamp) -> Seq<char> {
    year_text(t.year as int) + zero_padded(decimal(t.month as nat), 2) + zero_padded(
        decimal(t.day as nat),
        2,
    ) + zero_padded(decimal(t.hour as nat), 2) + zero_padded(decimal(t.minute as nat), 2)
        + zero_padded(decimal(t.second as nat), 2)
}

/// A time written as `%Y%m%d%H%M%S`.
pub fn format_timestamp(t: &Stamp) -> (r: String)
    ensures
        r@ == timestamp_text(*t),
{
    let mut r = format_year(t.year);
    let p = padded_decimal(t.month, 2);
    r.append(p.as_str());
    let p = padded_decimal(t.day, 2);
    r.append(p.as_str());
    let p = padded_decimal(t.hour, 2);
    r.append(p.as_str());
    let p = padded_decimal(t.minute, 2);
    r.append(p.as_str());
    let p = padded_decimal(t.second, 2);
    r.append(p.as_str());
    r
}

pub open spec fn date_text(d: AdrDate) -> Seq<char> {
    year_text(d.year as int) + "-"@ + zero_padded(decimal(d.month as nat), 2) + "-"@
        + zero_padded(decimal(d.day as nat), 2)
}

/// The first text of a new record.
pub open spec fn template_of(
    title: Seq<char>,
    date: AdrDate,
    status: Status,
    context: Seq<char>,
    decision: Seq<char>,
    consequences: Seq<char>,
) -> Seq<char> {
    "# "@ + title_case_of(title) + "\n\nDate: "@ + date_text(date) + "\n\n## Status\n\n"@
        + status_text(status) + " \n\n## Context\n\n"@ + context + "\n\n## Decision\n\n"@ + decision
        + "\n\n## Consequences\n\n"@ + consequences + "\n"@
}

/// The date written the way records state it.
pub fn format_date(d: &AdrDate) -> (r: String)
    ensures
        r@ == date_text(*d),
{
    let mut r = format_year(d.year);
    r.append("-");
    let m = padded_decimal(d.month, 2);
    r.append(m.as_str());
    r.append("-");
    let day = padded_decimal(d.day, 2);
    r.append(day.as_str());
    r
}

/// The text a new record starts with.
pub fn adr_template(
    title: &str,
    date: &AdrDate,
    status: Status,
    context: &str,
    decision: &str,
    consequences: &str,
) -> (r: String)
    ensures
        r@ == template_of(title@, *date, status, context@, decision@, consequences@),
{
    let mut r = String::from_str("# ");
    let t = title_case(title);
    r.append(t.as_str());
    r.append("\n\nDate: ");
    let ds = format_date(date);
    r.append(ds.as_str());
    r.append("\n\n## Status\n\n");
    let st = status.to_text();
    r.append(st.as_str());
    r.append(" \n\n## Context\n\n");
    r.append(context);
    r.append("\n\n## Decision\n\n");
    r.append(decision);
    r.append("\n\n## Consequences\n\n");
    r.append(consequences);
    r.append("\n");
    r
}

} // verus!
