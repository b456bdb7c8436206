use vstd::prelude::*;
use super::text::slice_chars;

verus! {

/// Index of the first line feed at or after `i` (or the length).
pub open spec fn next_newline(s: Seq<char>, i: int) -> int
    decreases s.len() - i,
{
    if 0 <= i < s.len() && s[i] != '\n' {
        next_newline(s, i + 1)
    } else {
        i
    }
}

/// A line terminated by `\r\n` loses its carriage return.
pub open spec fn strip_cr(l: Seq<char>) -> Seq<char> {
    if l.len() > 0 && l.last() == '\r' {
        l.drop_last()
    } else {
        l
    }
}

/// The lines of `s[i..]`: split at each `\n`, a `\r` right before it dropped,
/// and no empty line after a final `\n`.
pub open spec fn lines_from(s: Seq<char>, i: int) -> Seq<Seq<char>>
    decreases s.len() - i,
{
    if 0 <= i < s.len() {
        let k = next_newline(s, i);
        proof {
            lemma_next_newline_bounds(s, i);
        }
        if k < s.len() {
            seq![strip_cr(s.subrange(i, k))] + lines_from(s, k + 1)
        } else {
            seq![s.subrange(i, s.len() as int)]
        }
    } else {
        Seq::empty()
    }
}

/// The lines of a text, as `str::lines` gives them.
pub open spec fn split_lines(s: Seq<char>) -> Seq<Seq<char>> {
    lines_from(s, 0)
}

/// Lines joined with `\n` between them.
pub open spec fn join_lines(ls: Seq<Seq<char>>) -> Seq<char>
    decreases ls.len(),
{
    if ls.len() == 0 {
        Seq::empty()
    } else if ls.len() == 1 {
        ls[0]
    } else {
        ls[0] + seq!['\n'] + join_lines(ls.drop_first())
    }
}

/// Characters plus one separator per line: the size that nested tokenizing
/// makes smaller.
pub open spec fn weight(ls: Seq<Seq<char>>) -> nat
    decreases ls.len(),
{
    if ls.len() == 0 {
        0
    } else {
        ls[0].len() + 1 + weight(ls.drop_first())
    }
}

pub open spec fn no_newline(l: Seq<char>) -> bool {
    forall|k: int| 0 <= k < l.len() ==> #[trigger] l[k] != '\n'
}

pub open spec fn no_newlines(ls: Seq<Seq<char>>) -> bool {
    forall|k: int| 0 <= k < ls.len() ==> no_newline(#[trigger] ls[k])
}

pub open spec fn lines_view(v: Seq<Vec<char>>) -> Seq<Seq<char>> {
    v.map_values(|l: Vec<char>| l@)
}

pub proof fn lemma_next_newline_bounds(s: Seq<char>, i: int)
    requires
        0 <= i <= s.len(),
    ensures
        i <= next_newline(s, i) <= s.len(),
        next_newline(s, i) < s.len() ==> s[next_newline(s, i)] == '\n',
        forall|k: int| i <= k < next_newline(s, i) ==> #[trigger] s[k] != '\n',
    decreases s.len() - i,
{
    if i < s.len() && s[i] != '\n' {
        lemma_next_newline_bounds(s, i + 1);
    }
}

pub proof fn lemma_lines_from_no_newlines(s: Seq<char>, i: int)
    requires
        0 <= i,
    ensures
        no_newlines(lines_from(s, i)),
    decreases s.len() - i,
{
    if i < s.len() {
        lemma_next_newline_bounds(s, i);
        let k = next_newline(s, i);
        if k < s.len() {
            lemma_lines_from_no_newlines(s, k + 1);
            let l = strip_cr(s.subrange(i, k));
            assert(no_newline(l));
            let r = lines_from(s, k + 1);
            assert forall|j: int| 0 <= j < lines_from(s, i).len() implies no_newline(
                #[trigger] lines_from(s, i)[j],
            ) by {
                if j > 0 {
                    assert(lines_from(s, i)[j] == r[j - 1]);
                }
            }
        } else {
            assert(no_newline(s.subrange(i, s.len() as int)));
        }
    }
}

/// Every line of a text is free of line feeds.
pub proof fn lemma_split_no_newlines(s: Seq<char>)
    ensures
        no_newlines(split_lines(s)),
{
    lemma_lines_from_no_newlines(s, 0);
}

proof fn lemma_next_newline_shift(a: Seq<char>, b: Seq<char>, j: int)
    requires
        0 <= j <= b.len(),
    ensures
        next_newline(a + b, a.len() + j) == a.len() + next_newline(b, j),
    decreases b.len() - j,
{
    if j < b.len() && b[j] != '\n' {
        assert((a + b)[a.len() + j] == b[j]);
        lemma_next_newline_shift(a, b, j + 1);
    } else if j < b.len() {
        assert((a + b)[a.len() + j] == b[j]);
    }
}

proof fn lemma_lines_from_shift(a: Seq<char>, b: Seq<char>, j: int)
    requires
        0 <= j,
    ensures
        lines_from(a + b, a.len() + j) == lines_from(b, j),
    decreases b.len() - j,
{
    let s = a + b;
    if j < b.len() {
        lemma_next_newline_shift(a, b, j);
        lemma_next_newline_bounds(b, j);
        let k = next_newline(b, j);
        if k < b.len() {
            lemma_lines_from_shift(a, b, k + 1);
            assert(s.subrange(a.len() + j, a.len() + k) =~= b.subrange(j, k));
            assert((a.len() + k + 1) as int == a.len() + (k + 1));
        } else {
            assert(s.subrange(a.len() + j, s.len() as int) =~= b.subrange(j, b.len() as int));
        }
    }
}

proof fn lemma_next_newline_in_line(x: Seq<char>, rest: Seq<char>, i: int)
    requires
        0 <= i <= x.len(),
        no_newline(x),
    ensures
        next_newline(x + rest, i) == if rest.len() > 0 && rest[0] == '\n' {
            x.len() as int
        } else {
            x.len() + next_newline(rest, 0)
        },
    decreases x.len() - i,
{
    if i < x.len() {
        assert((x + rest)[i] == x[i]);
        lemma_next_newline_in_line(x, rest, i + 1);
    } else {
        lemma_next_newline_shift(x, rest, 0);
        if rest.len() > 0 {
            assert((x + rest)[x.len() as int] == rest[0]);
        }
    }
}

/// Splitting joined lines gives back no more lines than were joined, each no
/// longer than the one it came from.
pub proof fn lemma_split_join(f: Seq<Seq<char>>)
    requires
        no_newlines(f),
    ensures
        split_lines(join_lines(f)).len() <= f.len(),
        forall|k: int|
            0 <= k < split_lines(join_lines(f)).len() ==> (#[trigger] split_lines(
                join_lines(f),
            )[k]).len() <= f[k].len() && split_lines(join_lines(f))[k] == f[k].take(
                split_lines(join_lines(f))[k].len() as int,
            ),
    decreases f.len(),
{
    if f.len() == 1 {
        let x = f[0];
        assert(no_newline(x));
        if x.len() > 0 {
            lemma_next_newline_in_line(x, Seq::empty(), 0);
            assert(x + Seq::<char>::empty() =~= x);
            assert(x.subrange(0, x.len() as int) =~= x);
            assert(x.take(x.len() as int) =~= x);
        }
    } else if f.len() > 1 {
        let x = f[0];
        assert(no_newline(x));
        let rest = f.drop_first();
        assert(no_newlines(rest)) by {
            assert forall|k: int| 0 <= k < rest.len() implies no_newline(#[trigger] rest[k]) by {
                assert(rest[k] == f[k + 1]);
            }
        }
        lemma_split_join(rest);
        let tail = seq!['\n'] + join_lines(rest);
        let s = join_lines(f);
        assert(s =~= x + tail);
        lemma_next_newline_in_line(x, tail, 0);
        assert(tail[0] == '\n');
        assert(next_newline(s, 0) == x.len());
        lemma_lines_from_shift(x + seq!['\n'], join_lines(rest), 0);
        assert(x + seq!['\n'] + join_lines(rest) =~= s);
        assert(s.subrange(0, x.len() as int) =~= x);
        assert(split_lines(s) == seq![strip_cr(x)] + split_lines(join_lines(rest)));
        let l = split_lines(s);
        assert forall|k: int| 0 <= k < l.len() implies (#[trigger] l[k]).len() <= f[k].len()
            && l[k] == f[k].take(l[k].len() as int) by {
            if k > 0 {
                assert(l[k] == split_lines(join_lines(rest))[k - 1]);
                assert(rest[k - 1] == f[k]);
            } else {
                assert(strip_cr(x) =~= x.take(strip_cr(x).len() as int));
            }
        }
    }
}

/// Pointwise shorter lines, no more of them, weigh no more; strictly less
/// when the first line is strictly shorter.
pub proof fn lemma_weight_le(a: Seq<Seq<char>>, b: Seq<Seq<char>>, off: int)
    requires
        0 <= off,
        a.len() + off <= b.len(),
        forall|k: int| 0 <= k < a.len() ==> (#[trigger] a[k]).len() <= b[k + off].len(),
    ensures
        weight(a) <= weight(b),
        a.len() > 0 && a[0].len() < b[off].len() ==> weight(a) < weight(b),
    decreases b.len(),
{
    if off > 0 {
        let bd = b.drop_first();
        assert forall|k: int| 0 <= k < a.len() implies (#[trigger] a[k]).len() <= bd[k + off
            - 1].len() by {
            assert(bd[k + off - 1] == b[k + off]);
        }
        lemma_weight_le(a, bd, off - 1);
        assert(a.len() > 0 ==> bd[off - 1] == b[off]);
    } else if a.len() > 0 {
        let ad = a.drop_first();
        let bd = b.drop_first();
        assert forall|k: int| 0 <= k < ad.len() implies (#[trigger] ad[k]).len() <= bd[k].len() by {
            assert(ad[k] == a[k + 1]);
            assert(bd[k] == b[k + 1]);
        }
        lemma_weight_le(ad, bd, 0);
        assert(a[0].len() <= b[0].len());
    }
}

/// Splits a text into lines as `str::lines` does.
pub fn split_text(s: &Vec<char>) -> (r: Vec<Vec<char>>)
    ensures
        lines_view(r@) == split_lines(s@),
{
    let mut out: Vec<Vec<char>> = Vec::new();
    let mut start: usize = 0;
    let mut i: usize = 0;
    while i < s.len()
        invariant
            start <= i <= s.len(),
            next_newline(s@, start as int) == next_newline(s@, i as int),
            lines_view(out@) + lines_from(s@, start as int) == split_lines(s@),
        decreases s.len() - i,
    {
        if s[i] == '\n' {
            let mut line = slice_chars(s, start, i);
            if line.len() > 0 && line[line.len() - 1] == '\r' {
                line.pop();
            }
            assert(line@ == strip_cr(s@.subrange(start as int, i as int)));
            assert(lines_from(s@, start as int) == seq![line@] + lines_from(s@, i + 1));
            let ghost before = out@;
            out.push(line);
            assert(lines_view(out@) =~= lines_view(before).push(line@));
            assert(lines_view(out@) + lines_from(s@, i + 1) =~= lines_view(before) + (seq![line@]
                + lines_from(s@, i + 1)));
            start = i + 1;
        }
        i += 1;
    }
    if start < s.len() {
        let line = slice_chars(s, start, s.len());
        assert(lines_from(s@, start as int) == seq![line@]);
        let ghost before = out@;
        out.push(line);
        assert(lines_view(out@) =~= lines_view(before).push(line@));
        assert(lines_view(before) + seq![line@] =~= lines_view(before).push(line@));
    } else {
        assert(lines_view(out@) + lines_from(s@, start as int) =~= lines_view(out@));
    }
    out
}

proof fn lemma_join_push(ls: Seq<Seq<char>>, x: Seq<char>)
    requires
        ls.len() >= 1,
    ensures
        join_lines(ls.push(x)) == join_lines(ls) + seq!['\n'] + x,
    decreases ls.len(),
{
    if ls.len() == 1 {
        assert(ls.push(x).drop_first() =~= seq![x]);
        assert(join_lines(seq![x]) == x);
        assert(ls.push(x)[0] == ls[0]);
        assert(join_lines(ls) == ls[0]);
    } else {
        assert(ls.push(x).drop_first() =~= ls.drop_first().push(x));
        lemma_join_push(ls.drop_first(), x);
        assert(join_lines(ls.push(x)) =~= join_lines(ls) + seq!['\n'] + x);
    }
}

/// Joins lines with `\n` between them.
pub fn join_text(ls: &Vec<Vec<char>>) -> (r: Vec<char>)
    ensures
        r@ == join_lines(lines_view(ls@)),
{
    let ghost lv = lines_view(ls@);
    if ls.len() == 0 {
        return Vec::new();
    }
    let mut out: Vec<char> = slice_chars(&ls[0], 0, ls[0].len());
    assert(lv.take(1) =~= seq![lv[0]]);
    assert(out@ =~= lv[0]);
    let mut k: usize = 1;
    while k < ls.len()
        invariant
            1 <= k <= ls.len(),
            lv == lines_view(ls@),
            out@ == join_lines(lv.take(k as int)),
        decreases ls.len() - k,
    {
        out.push('\n');
        let line = &ls[k];
        let mut j: usize = 0;
        let ghost base = out@;
        while j < line.len()
            invariant
                j <= line.len(),
                out@ == base + line@.subrange(0, j as int),
            decreases line.len() - j,
        {
            out.push(line[j]);
            j += 1;
            assert(out@ =~= base + line@.subrange(0, j as int));
        }
        proof {
            lemma_join_push(lv.take(k as int), lv[k as int]);
            assert(lv.take(k as int).push(lv[k as int]) =~= lv.take(k + 1));
            assert(line@.subrange(0, j as int) =~= lv[k as int]);
        }
        k += 1;
    }
    assert(lv.take(ls.len() as int) =~= lv);
    out
}

/// A text weighs at most one more than its length once split into lines.
pub proof fn lemma_lines_from_weight(s: Seq<char>, i: int)
    requires
        0 <= i <= s.len(),
    ensures
        weight(lines_from(s, i)) <= s.len() - i + 1,
    decreases s.len() - i,
{
    if i < s.len() {
        lemma_next_newline_bounds(s, i);
        let k = next_newline(s, i);
        if k < s.len() {
            lemma_lines_from_weight(s, k + 1);
            let l = seq![strip_cr(s.subrange(i, k))] + lines_from(s, k + 1);
            assert(lines_from(s, i) == l);
            assert(l.drop_first() =~= lines_from(s, k + 1));
            assert(l[0].len() <= k - i);
            assert(weight(l) == l[0].len() + 1 + weight(l.drop_first()));
        } else {
            let l = seq![s.subrange(i, s.len() as int)];
            assert(lines_from(s, i) == l);
            assert(l.drop_first() =~= Seq::<Seq<char>>::empty());
            assert(weight(l.drop_first()) == 0);
            assert(weight(l) == l[0].len() + 1 + weight(l.drop_first()));
        }
    } else {
        assert(weight(lines_from(s, i)) == 0);
    }
}

/// Joined lines are one character shorter than their weight.
pub proof fn lemma_join_len(f: Seq<Seq<char>>)
    requires
        f.len() >= 1,
    ensures
        join_lines(f).len() + 1 == weight(f),
    decreases f.len(),
{
    if f.len() == 1 {
        assert(f.drop_first() =~= Seq::<Seq<char>>::empty());
        assert(weight(f.drop_first()) == 0);
    } else {
        lemma_join_len(f.drop_first());
    }
}

/// Splitting joined lines never adds weight.
pub proof fn lemma_split_join_weight(f: Seq<Seq<char>>)
    requires
        f.len() >= 1,
    ensures
        weight(split_lines(join_lines(f))) <= weight(f),
{
    lemma_join_len(f);
    lemma_lines_from_weight(join_lines(f), 0);
}

} // verus!
