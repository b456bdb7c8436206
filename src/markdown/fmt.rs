use vstd::prelude::*;
use super::lines::{join_lines, join_text, lines_view, split_lines, split_text};
use super::text::{chars_of, push_char, slice_chars, trim, trim_chars};

verus! {

/// The width that reflowed lines are broken at.
pub const LINE_WIDTH: usize = 80;

/// Index of the last space before `j`, if any.
pub open spec fn last_space_before(s: Seq<char>, j: int) -> Option<int>
    decreases j,
{
    if j <= 0 || j > s.len() {
        None
    } else if s[j - 1] == ' ' {
        Some(j - 1)
    } else {
        last_space_before(s, j - 1)
    }
}

/// Index of the first space at or after `i`, if any.
pub open spec fn first_space_from(s: Seq<char>, i: int) -> Option<int>
    decreases s.len() - i,
{
    if i < 0 || i >= s.len() {
        None
    } else if s[i] == ' ' {
        Some(i)
    } else {
        first_space_from(s, i + 1)
    }
}

/// Where a line that is too wide is broken: the last space before the width,
/// or else the first one after it.
pub open spec fn closest_space(s: Seq<char>, width: int) -> Option<int> {
    match last_space_before(s, width) {
        Some(x) => Some(x),
        None => first_space_from(s, width),
    }
}

/// A line broken into pieces of at most `width` characters where spaces
/// allow, each piece trimmed.
pub open spec fn wrap_line(s: Seq<char>, width: int) -> Seq<Seq<char>>
    decreases s.len(),
{
    if trim(s).len() <= width {
        seq![trim(s)]
    } else {
        match closest_space(s, width) {
            None => seq![s],
            Some(x) => {
                proof {
                    lemma_closest_space_bounds(s, width);
                }
                if 0 <= x < s.len() {
                    seq![trim(s.subrange(0, x + 1))] + wrap_line(s.subrange(x + 1, s.len() as int), width)
                } else {
                    seq![s]
                }
            },
        }
    }
}

pub open spec fn starts_with(s: Seq<char>, p: Seq<char>) -> bool {
    p.len() <= s.len() && s.subrange(0, p.len() as int) == p
}

pub open spec fn fence_mark() -> Seq<char> {
    seq!['`', '`', '`']
}

/// Whether a line opening with a fence leaves the state inside a code block.
pub open spec fn code_state_after(l: Seq<char>, in_code: bool) -> bool {
    if starts_with(l, fence_mark()) {
        !in_code
    } else {
        in_code
    }
}

/// What one line becomes: wrapped, unless it lies in a code block or is a
/// table row.
pub open spec fn reflow_line(l: Seq<char>, in_code: bool) -> Seq<char> {
    if !code_state_after(l, in_code) && !starts_with(l, seq!['|']) {
        join_lines(wrap_line(l, LINE_WIDTH as int))
    } else {
        l
    }
}

/// The reflowed text of the lines `ls`, each output line ended by `\n`.
pub open spec fn reflow(ls: Seq<Seq<char>>, in_code: bool) -> Seq<char>
    decreases ls.len(),
{
    if ls.len() == 0 {
        Seq::empty()
    } else {
        reflow_line(ls[0], in_code) + seq!['\n'] + reflow(
            ls.drop_first(),
            code_state_after(ls[0], in_code),
        )
    }
}

pub proof fn lemma_last_space_bounds(s: Seq<char>, j: int)
    ensures
        last_space_before(s, j) matches Some(x) ==> 0 <= x < j && x < s.len() && s[x] == ' ',
    decreases j,
{
    if 0 < j <= s.len() && s[j - 1] != ' ' {
        lemma_last_space_bounds(s, j - 1);
    }
}

pub proof fn lemma_first_space_bounds(s: Seq<char>, i: int)
    ensures
        first_space_from(s, i) matches Some(x) ==> i <= x < s.len() && 0 <= x && s[x] == ' ',
    decreases s.len() - i,
{
    if 0 <= i < s.len() && s[i] != ' ' {
        lemma_first_space_bounds(s, i + 1);
    }
}

pub proof fn lemma_closest_space_bounds(s: Seq<char>, width: int)
    ensures
        closest_space(s, width) matches Some(x) ==> 0 <= x < s.len() && s[x] == ' ',
{
    lemma_last_space_bounds(s, width);
    lemma_first_space_bounds(s, width);
}

/// The space closest to `width` to break `line` at: the last one before it,
/// or the first one from it on.
pub fn find_closest_space(line: &str, width: usize) -> (r: Option<usize>)
    ensures
        match r {
            Some(x) => closest_space(line@, width as int) == Some(x as int),
            None => closest_space(line@, width as int) is None,
        },
{
    let s = chars_of(line);
    closest_space_in(&s, width)
}

fn closest_space_in(s: &Vec<char>, width: usize) -> (r: Option<usize>)
    ensures
        match r {
            Some(x) => closest_space(s@, width as int) == Some(x as int),
            None => closest_space(s@, width as int) is None,
        },
{
    if width <= s.len() {
        let mut j: usize = width;
        while j > 0
            invariant
                j <= width <= s.len(),
                last_space_before(s@, j as int) == last_space_before(s@, width as int),
            decreases j,
        {
            if s[j - 1] == ' ' {
                return Some(j - 1);
            }
            j -= 1;
        }
    }
    let mut i: usize = width;
    while i < s.len()
        invariant
            width <= i,
            first_space_from(s@, i as int) == first_space_from(s@, width as int),
            width <= s.len() ==> last_space_before(s@, width as int) is None,
            width > s.len() ==> i == width,
        decreases s.len() - i,
    {
        if s[i] == ' ' {
            return Some(i);
        }
        i += 1;
    }
    None
}

/// Breaks a line into trimmed pieces no wider than `width` where spaces allow.
pub fn split_line(line: &Vec<char>, width: usize) -> (r: Vec<Vec<char>>)
    ensures
        lines_view(r@) == wrap_line(line@, width as int),
    decreases line@.len(),
{
    let t = trim_chars(line);
    if t.len() <= width {
        let mut r: Vec<Vec<char>> = Vec::new();
        r.push(t);
        assert(lines_view(r@) =~= seq![trim(line@)]);
        return r;
    }
    proof {
        lemma_closest_space_bounds(line@, width as int);
    }
    match closest_space_in(line, width) {
        None => {
            let mut r: Vec<Vec<char>> = Vec::new();
            let copy = slice_chars(line, 0, line.len());
            assert(copy@ =~= line@);
            r.push(copy);
            assert(lines_view(r@) =~= seq![line@]);
            r
        },
        Some(x) => {
            assert(x < line.len());
            let head = slice_chars(line, 0, x + 1);
            let rest = slice_chars(line, x + 1, line.len());
            let mut r: Vec<Vec<char>> = Vec::new();
            r.push(trim_chars(&head));
            let mut tail = split_line(&rest, width);
            let ghost first = lines_view(r@);
            r.append(&mut tail);
            assert(lines_view(r@) =~= first + wrap_line(rest@, width as int));
            r
        },
    }
}

fn starts_with_chars(s: &Vec<char>, p: &Vec<char>) -> (r: bool)
    ensures
        r == starts_with(s@, p@),
{
    if p.len() > s.len() {
        return false;
    }
    let mut k: usize = 0;
    while k < p.len()
        invariant
            k <= p.len() <= s.len(),
            forall|j: int| 0 <= j < k ==> s@[j] == p@[j],
        decreases p.len() - k,
    {
        if s[k] != p[k] {
            assert(s@.subrange(0, p@.len() as int)[k as int] != p@[k as int]);
            return false;
        }
        k += 1;
    }
    assert(s@.subrange(0, p@.len() as int) =~= p@);
    true
}

fn push_chars(out: &mut String, v: &Vec<char>)
    ensures
        final(out)@ == old(out)@ + v@,
{
    let mut k: usize = 0;
    let ghost start = out@;
    while k < v.len()
        invariant
            k <= v.len(),
            out@ == start + v@.subrange(0, k as int),
        decreases v.len() - k,
    {
        push_char(out, v[k]);
        k += 1;
        assert(out@ =~= start + v@.subrange(0, k as int));
    }
    assert(v@.subrange(0, v@.len() as int) =~= v@);
}

/// Reflows a text to lines of at most 80 characters where spaces allow,
/// leaving fenced code blocks and table rows as they are.
pub fn fix_line_length(s: &str) -> (r: String)
    ensures
        r@ == reflow(split_lines(s@), false),
{
    let chars = chars_of(s);
    let lines = split_text(&chars);
    let ghost ls = lines_view(lines@);
    let fence: Vec<char> = vec!['`', '`', '`'];
    let bar: Vec<char> = vec!['|'];
    assert(fence@ =~= fence_mark());
    assert(bar@ =~= seq!['|']);
    let mut res = String::new();
    let mut in_code_block = false;
    let mut k: usize = 0;
    assert(ls.subrange(0, ls.len() as int) =~= ls);
    assert(res@ + reflow(ls, false) =~= reflow(ls, false));
    while k < lines.len()
        invariant
            ls == lines_view(lines@),
            k <= lines.len(),
            fence@ == fence_mark(),
            bar@ == seq!['|'],
            res@ + reflow(ls.subrange(k as int, ls.len() as int), in_code_block) == reflow(ls, false),
        decreases lines.len() - k,
    {
        let line = &lines[k];
        let ghost rest = ls.subrange(k as int, ls.len() as int);
        assert(rest[0] == line@);
        assert(rest.drop_first() =~= ls.subrange(k + 1, ls.len() as int));
        let ghost was_in_code = in_code_block;
        if starts_with_chars(line, &fence) {
            in_code_block = !in_code_block;
        }
        let is_table = starts_with_chars(line, &bar);
        let ghost before = res@;
        if !in_code_block && !is_table {
            let pieces = split_line(line, LINE_WIDTH);
            let joined = join_text(&pieces);
            push_chars(&mut res, &joined);
        } else {
            push_chars(&mut res, line);
        }
        assert(res@ == before + reflow_line(line@, was_in_code));
        push_char(&mut res, '\n');
        assert(res@ + reflow(ls.subrange(k + 1, ls.len() as int), in_code_block) =~= before + reflow(
            rest,
            was_in_code,
        ));
        k += 1;
    }
    assert(ls.subrange(k as int, ls.len() as int) =~= Seq::<Seq<char>>::empty());
    assert(res@ + Seq::<char>::empty() =~= res@);
    res
}

} // verus!
