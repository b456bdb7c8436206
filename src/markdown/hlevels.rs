use vstd::prelude::*;
use super::lines::{lines_view, split_lines, split_text};
use super::text::{byte_len, chars_of, decimal, slice_chars, utf8_len, skip_char, skip_chars, skip_whitespace, skip_ws, string_of};

verus! {

/// A problem a linter found in a document.
#[derive(Debug, PartialEq)]
pub struct Issue {
    pub line_start: usize,
    pub line_end: usize,
    pub col_start: usize,
    pub col_end: usize,
    pub content: String,
    pub msg: String,
}

impl Issue {
    /// The text shown for the issue.
    pub fn message(&self) -> (r: String)
        ensures
            r@ == self.msg@,
    {
        self.msg.clone()
    }
}

/// Checks that no heading levels are skipped in a document.
pub struct HeadingLevels {}

/// English ordinal suffix: 1st, 2nd, 3rd, 4th, 11th, 12th, 13th, 21st, ...
pub open spec fn ordinal_suffix(n: nat) -> Seq<char> {
    if n % 10 == 1 && n % 100 != 11 {
        seq!['s', 't']
    } else if n % 10 == 2 && n % 100 != 12 {
        seq!['n', 'd']
    } else if n % 10 == 3 && n % 100 != 13 {
        seq!['r', 'd']
    } else {
        seq!['t', 'h']
    }
}

/// Relies on `ordinal::Ordinal`'s `Display`: the decimal number followed by
/// its English suffix.
#[verifier::external_body]
fn ordinal_text(n: usize) -> (r: String)
    ensures
        r@ == decimal(n as nat) + ordinal_suffix(n as nat),
{
    ordinal::Ordinal(n).to_string()
}

/// Number of `#` that open a line after its leading whitespace, when that is
/// from 1 to 6.
pub open spec fn heading_depth(l: Seq<char>) -> Option<nat> {
    let a = skip_ws(l, 0);
    let n = skip_char(l, a, '#') - a;
    if 1 <= n <= 6 {
        Some(n as nat)
    } else {
        None
    }
}

pub open spec fn skipped_msg(depth: nat) -> Seq<char> {
    "Skipped "@ + decimal(depth + 1) + ordinal_suffix(depth + 1) + " level header"@
}

/// The model of an issue: its lines, its columns, the line's text and the
/// message.
pub struct IssueModel {
    pub line: nat,
    pub line_end: nat,
    pub col_start: nat,
    pub col_end: nat,
    pub content: Seq<char>,
    pub msg: Seq<char>,
}

pub open spec fn issue_view(i: Issue) -> IssueModel {
    IssueModel {
        line: i.line_start as nat,
        line_end: i.line_end as nat,
        col_start: i.col_start as nat,
        col_end: i.col_end as nat,
        content: i.content@,
        msg: i.msg@,
    }
}

/// Issues for the lines `k..` of `ls`, `current` being the depth of the last
/// heading seen. A heading deeper than one past the current depth is an
/// issue, reported from its first `#` to the end of the line; columns are
/// byte offsets into the line's UTF-8 text.
pub open spec fn level_issues(ls: Seq<Seq<char>>, k: int, current: nat) -> Seq<IssueModel>
    decreases ls.len() - k,
{
    if k < 0 || k >= ls.len() {
        Seq::empty()
    } else {
        match heading_depth(ls[k]) {
            None => level_issues(ls, k + 1, current),
            Some(depth) => {
                let rest = level_issues(ls, k + 1, depth);
                if depth > current + 1 {
                    seq![
                        IssueModel {
                            line: k as nat,
                            line_end: k as nat,
                            col_start: utf8_len(ls[k].take(skip_ws(ls[k], 0))),
                            col_end: utf8_len(ls[k]),
                            content: ls[k],
                            msg: skipped_msg(current),
                        },
                    ] + rest
                } else {
                    rest
                }
            },
        }
    }
}

/// Depth of a heading line: the number of `#` after its leading whitespace,
/// when from 1 to 6.
pub fn heading_count(line: &str) -> (r: Option<usize>)
    ensures
        match r {
            Some(n) => heading_depth(line@) == Some(n as nat),
            None => heading_depth(line@) is None,
        },
{
    let s = chars_of(line);
    depth_of(&s)
}

fn depth_of(s: &Vec<char>) -> (r: Option<usize>)
    ensures
        match r {
            Some(n) => heading_depth(s@) == Some(n as nat),
            None => heading_depth(s@) is None,
        },
{
    let a = skip_whitespace(s, 0);
    let h = skip_chars(s, a, '#');
    let n = h - a;
    if 1 <= n && n <= 6 {
        Some(n)
    } else {
        None
    }
}

impl HeadingLevels {
    pub fn name(&self) -> (r: &'static str)
        ensures
            r@ == "Heading Levels"@,
    {
        "Heading Levels"
    }

    pub fn description(&self) -> (r: &'static str)
        ensures
            r@ == "Checks that no heading levels are skipped in a document."@,
    {
        "Checks that no heading levels are skipped in a document."
    }

    /// The issues of a document: one for each heading that is more than one
    /// level deeper than the heading before it (or than level 0 at the start).
    pub fn lint(&self, content: &str) -> (r: Vec<Issue>)
        ensures
            r@.map_values(|i: Issue| issue_view(i)) == level_issues(split_lines(content@), 0, 0),
    {
        let chars = chars_of(content);
        let lines = split_text(&chars);
        let ghost ls = lines_view(lines@);
        let mut current_depth: usize = 0;
        let mut res: Vec<Issue> = Vec::new();
        let mut num: usize = 0;
        while num < lines.len()
            invariant
                ls == lines_view(lines@),
                num <= lines.len(),
                current_depth <= 6,
                res@.map_values(|i: Issue| issue_view(i)) + level_issues(ls, num as int, current_depth as nat)
                    == level_issues(ls, 0, 0),
            decreases lines.len() - num,
        {
            let line = &lines[num];
            assert(ls[num as int] == line@);
            let ghost before = res@.map_values(|i: Issue| issue_view(i));
            match depth_of(line) {
                Some(depth) => {
                    if depth > current_depth + 1 {
                        let a = skip_whitespace(line, 0);
                        let head = slice_chars(line, 0, a);
                        assert(head@ =~= line@.take(a as int));
                        let start = byte_len(&head);
                        let mut msg = String::new();
                        msg.append("Skipped ");
                        let ord = ordinal_text(current_depth + 1);
                        msg.append(ord.as_str());
                        msg.append(" level header");
                        let issue = Issue {
                            line_start: num,
                            line_end: num,
                            col_start: start,
                            col_end: byte_len(line),
                            content: string_of(line),
                            msg,
                        };
                        assert(issue_view(issue).msg =~= skipped_msg(current_depth as nat));
                        res.push(issue);
                        assert(res@.map_values(|i: Issue| issue_view(i)) =~= before.push(issue_view(issue)));
                        assert(res@.map_values(|i: Issue| issue_view(i)) + level_issues(ls, num + 1, depth as nat)
                            =~= before + level_issues(ls, num as int, current_depth as nat));
                    }
                    current_depth = depth;
                },
                None => {},
            }
            num += 1;
        }
        assert(res@.map_values(|i: Issue| issue_view(i)) + Seq::<IssueModel>::empty() =~= res@.map_values(
            |i: Issue| issue_view(i),
        ));
        res
    }
}

} // verus!
