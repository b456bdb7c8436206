use vstd::prelude::*;
use super::lines::{
    join_lines, join_text, lemma_split_join, lemma_split_join_weight, lemma_split_no_newlines,
    lemma_weight_le, lines_view, no_newlines, split_lines, split_text, weight,
};
use super::text::{
    back_char, back_chars, back_whitespace, back_ws, chars_of, is_whitespace, is_ws, lemma_back_ws_bounds, lemma_skip_char_bounds, lemma_trim_bounds, lemma_skip_ws_bounds, skip_char, skip_chars,
    skip_whitespace, skip_ws, slice_chars, string_of, trim, trim_chars, byte_len, utf8_len,
    lemma_utf8_len_prefix, lemma_utf8_len_concat, lemma_utf8_len_ascii,
};
use super::token::{
    doc_view, block_token_view, inline_token_view, text_view, lemma_quote_view, Block, BlockModel, BlockToken,
    BlockTokenModel, Document, HeadingStyle, Inline, InlineModel, InlineToken, InlineTokenModel,
    Text,
};

verus! {

// ---------------------------------------------------------------------------
// The grammar, stated over lines of characters.
// ---------------------------------------------------------------------------

/// A single plain-text chunk at the given line and byte offset.
pub open spec fn chunk_at(line: nat, position: nat, s: Seq<char>) -> Seq<InlineTokenModel> {
    seq![InlineTokenModel { line_start: line, position, token: InlineModel::Chunk(s) }]
}

pub open spec fn heading_at(
    line: nat,
    level: nat,
    s: Seq<char>,
    position: nat,
    style: HeadingStyle,
) -> BlockTokenModel {
    BlockTokenModel {
        line_start: line,
        token: BlockModel::Heading { level, content: chunk_at(line, position, s), style },
    }
}

/// End of the run of `#` that follows the leading whitespace.
pub open spec fn atx_marker_end(l: Seq<char>) -> int {
    skip_char(l, skip_ws(l, 0), '#')
}

pub open spec fn atx_level(l: Seq<char>) -> int {
    atx_marker_end(l) - skip_ws(l, 0)
}

/// One to six `#` after optional whitespace, then whitespace or the end.
pub open spec fn is_atx(l: Seq<char>) -> bool {
    let h = atx_marker_end(l);
    1 <= atx_level(l) <= 6 && (h == l.len() || is_ws(l[h]))
}

/// Index where the heading text starts: past the marker and its whitespace.
pub open spec fn atx_content_start(l: Seq<char>) -> int {
    skip_ws(l, atx_marker_end(l))
}

/// End of the heading text: trailing whitespace, then a closing run of `#`,
/// then the whitespace before it, are left out.
pub open spec fn atx_content_end(l: Seq<char>) -> int {
    let c = atx_content_start(l);
    back_ws(l, back_char(l, back_ws(l, l.len() as int, c), c, '#'), c)
}

pub open spec fn atx_heading(l: Seq<char>, num: nat) -> Option<BlockTokenModel> {
    if is_atx(l) {
        let c = atx_content_start(l);
        Some(
            heading_at(
                num,
                atx_level(l) as nat,
                l.subrange(c, atx_content_end(l)),
                utf8_len(l.take(c)),
                HeadingStyle::Atx,
            ),
        )
    } else {
        None
    }
}

/// Two or more `c` and nothing else but surrounding whitespace.
pub open spec fn is_underline(l: Seq<char>, c: char) -> bool {
    let t = trim(l);
    t.len() >= 2 && forall|k: int| 0 <= k < t.len() ==> #[trigger] t[k] == c
}

pub open spec fn setext_heading(l: Seq<char>, next: Seq<char>, num: nat) -> Option<
    BlockTokenModel,
> {
    if is_underline(next, '=') {
        Some(heading_at(num, 1, trim(l), 0, HeadingStyle::Setex))
    } else if is_underline(next, '-') {
        Some(heading_at(num, 2, trim(l), 0, HeadingStyle::Setex))
    } else {
        None
    }
}

/// Exactly three backticks once surrounding whitespace is trimmed.
pub open spec fn is_fence(l: Seq<char>) -> bool {
    trim(l) == seq!['`', '`', '`']
}

/// First fence line at or after `j` (or the number of lines).
pub open spec fn closing_fence(ls: Seq<Seq<char>>, j: int) -> int
    decreases ls.len() - j,
{
    if 0 <= j < ls.len() && !is_fence(ls[j]) {
        closing_fence(ls, j + 1)
    } else {
        j
    }
}

/// A fenced code block opened at line `i`, with the number of lines it takes.
pub open spec fn code_block_at(ls: Seq<Seq<char>>, i: int) -> Option<(BlockTokenModel, nat)> {
    let k = closing_fence(ls, i + 1);
    if 0 <= i < ls.len() && is_fence(ls[i]) && k < ls.len() {
        Some(
            (
                BlockTokenModel {
                    line_start: i as nat,
                    token: BlockModel::BlockCode {
                        tag: None,
                        content: join_lines(ls.subrange(i + 1, k)),
                    },
                },
                (k - i + 1) as nat,
            ),
        )
    } else {
        None
    }
}

/// Length of the quote marker that opens `l`: up to three spaces, `>`, and
/// one optional space; 0 where there is none.
pub open spec fn quote_marker_len(l: Seq<char>) -> nat {
    let m = skip_char(l, 0, ' ');
    if m <= 3 && m < l.len() && l[m] == '>' {
        if m + 1 < l.len() && l[m + 1] == ' ' {
            (m + 2) as nat
        } else {
            (m + 1) as nat
        }
    } else {
        0
    }
}

/// First empty line at or after `j` (or the number of lines).
pub open spec fn quote_run_end(ls: Seq<Seq<char>>, j: int) -> int
    decreases ls.len() - j,
{
    if 0 <= j < ls.len() && ls[j].len() > 0 {
        quote_run_end(ls, j + 1)
    } else {
        j
    }
}

pub open spec fn dequote(l: Seq<char>) -> Seq<char> {
    l.subrange(quote_marker_len(l) as int, l.len() as int)
}

/// The lines `i..e` with their quote markers stripped.
pub open spec fn quote_interior(ls: Seq<Seq<char>>, i: int, e: int) -> Seq<Seq<char>> {
    Seq::new((e - i) as nat, |k: int| dequote(ls[i + k]))
}

/// How many characters were stripped from each of the lines `i..e`; the
/// marker is ASCII, so that is also its length in bytes.
pub open spec fn quote_indents(ls: Seq<Seq<char>>, i: int, e: int) -> Seq<nat> {
    Seq::new((e - i) as nat, |k: int| quote_marker_len(ls[i + k]))
}

/// The lines that the quote opened at `i` hands to the nested scan: its
/// stripped lines, joined with `\n` and split again.
pub open spec fn quote_lines(ls: Seq<Seq<char>>, i: int) -> Seq<Seq<char>> {
    split_lines(join_lines(quote_interior(ls, i, quote_run_end(ls, i + 1))))
}

pub open spec fn shift_text(t: Seq<InlineTokenModel>, off: nat, ind: Seq<nat>) -> Seq<
    InlineTokenModel,
> {
    t.map_values(
        |x: InlineTokenModel|
            InlineTokenModel {
                line_start: x.line_start + off,
                position: x.position + ind[x.line_start as int],
                token: x.token,
            },
    )
}

/// Moves a document from a quote's stripped coordinates to the enclosing
/// ones: every line moves down by `off`, and every inline column moves right
/// by the indent recorded for its line, in nested quotes too.
pub open spec fn shift_doc(d: Seq<BlockTokenModel>, off: nat, ind: Seq<nat>) -> Seq<
    BlockTokenModel,
>
    decreases d,
{
    Seq::new(
        d.len(),
        |k: int|
            if 0 <= k < d.len() {
                BlockTokenModel {
                    line_start: d[k].line_start + off,
                    token: match d[k].token {
                        BlockModel::Heading { level, content, style } => BlockModel::Heading {
                            level,
                            content: shift_text(content, off, ind),
                            style,
                        },
                        BlockModel::BlockQuote(inner) => BlockModel::BlockQuote(
                            shift_doc(inner, off, ind),
                        ),
                        other => other,
                    },
                }
            } else {
                d[0]
            },
    )
}

/// The tokens of lines `i..` of `ls`. At each line not yet consumed the
/// rules are tried in order: ATX heading, fenced code, block quote, Setext
/// heading; a line that none matches yields nothing.
pub open spec fn scan(ls: Seq<Seq<char>>, i: int) -> Seq<BlockTokenModel>
    decreases weight(ls), ls.len() - i,
{
    if i < 0 || i >= ls.len() {
        Seq::empty()
    } else if is_atx(ls[i]) {
        seq![atx_heading(ls[i], i as nat).unwrap()] + scan(ls, i + 1)
    } else if code_block_at(ls, i) is Some {
        let (t, n) = code_block_at(ls, i).unwrap();
        proof {
            lemma_closing_fence_bounds(ls, i + 1);
        }
        seq![t] + scan(ls, i + n)
    } else if quote_marker_len(ls[i]) > 0 {
        let e = quote_run_end(ls, i + 1);
        proof {
            lemma_quote_run_end_bounds(ls, i + 1);
            lemma_quote_weight(ls, i);
        }
        let nested = scan(quote_lines(ls, i), 0);
        seq![
            BlockTokenModel {
                line_start: i as nat,
                token: BlockModel::BlockQuote(shift_doc(nested, i as nat, quote_indents(ls, i, e))),
            },
        ] + scan(ls, e)
    } else if i + 1 < ls.len() && setext_heading(ls[i], ls[i + 1], i as nat) is Some {
        seq![setext_heading(ls[i], ls[i + 1], i as nat).unwrap()] + scan(ls, i + 2)
    } else {
        scan(ls, i + 1)
    }
}

/// The document that a text tokenizes to.
pub open spec fn tokenize(text: Seq<char>) -> Seq<BlockTokenModel> {
    scan(split_lines(text), 0)
}

pub proof fn lemma_closing_fence_bounds(ls: Seq<Seq<char>>, j: int)
    requires
        0 <= j <= ls.len(),
    ensures
        j <= closing_fence(ls, j) <= ls.len(),
        closing_fence(ls, j) < ls.len() ==> is_fence(ls[closing_fence(ls, j)]),
        forall|k: int| j <= k < closing_fence(ls, j) ==> !is_fence(#[trigger] ls[k]),
    decreases ls.len() - j,
{
    if j < ls.len() && !is_fence(ls[j]) {
        lemma_closing_fence_bounds(ls, j + 1);
    }
}

pub proof fn lemma_quote_run_end_bounds(ls: Seq<Seq<char>>, j: int)
    requires
        0 <= j <= ls.len(),
    ensures
        j <= quote_run_end(ls, j) <= ls.len(),
        forall|k: int| j <= k < quote_run_end(ls, j) ==> (#[trigger] ls[k]).len() > 0,
    decreases ls.len() - j,
{
    if j < ls.len() && ls[j].len() > 0 {
        lemma_quote_run_end_bounds(ls, j + 1);
    }
}

pub proof fn lemma_quote_marker_len_bound(l: Seq<char>)
    ensures
        quote_marker_len(l) <= l.len(),
        quote_marker_len(l) <= 5,
{
    lemma_skip_char_bounds(l, 0, ' ');
}

/// The lines handed to a nested scan weigh less than the lines they came from.
pub proof fn lemma_quote_weight(ls: Seq<Seq<char>>, i: int)
    requires
        0 <= i < ls.len(),
        quote_marker_len(ls[i]) > 0,
    ensures
        weight(quote_lines(ls, i)) < weight(ls),
{
    lemma_quote_run_end_bounds(ls, i + 1);
    let e = quote_run_end(ls, i + 1);
    let f = quote_interior(ls, i, e);
    assert forall|k: int| 0 <= k < f.len() implies (#[trigger] f[k]).len() <= ls[k + i].len() by {
        lemma_quote_marker_len_bound(ls[i + k]);
    }
    lemma_quote_marker_len_bound(ls[i]);
    lemma_weight_le(f, ls, i);
    lemma_split_join_weight(f);
}

// ---------------------------------------------------------------------------
// Where positions point: every line index names a line, and every offset
// lies within its line.
// ---------------------------------------------------------------------------

pub open spec fn inline_within(x: InlineTokenModel, ls: Seq<Seq<char>>) -> bool {
    x.line_start < ls.len() && x.position <= utf8_len(ls[x.line_start as int])
}

pub open spec fn within(d: Seq<BlockTokenModel>, ls: Seq<Seq<char>>) -> bool
    decreases d,
{
    if d.len() == 0 {
        true
    } else {
        &&& d[0].line_start < ls.len()
        &&& match d[0].token {
            BlockModel::Heading { content, .. } => forall|j: int|
                0 <= j < content.len() ==> inline_within(#[trigger] content[j], ls),
            BlockModel::BlockQuote(inner) => within(inner, ls),
            _ => true,
        }
        &&& within(d.subrange(1, d.len() as int), ls)
    }
}

pub open spec fn nat_seq(s: Seq<usize>) -> Seq<nat> {
    s.map_values(|x: usize| x as nat)
}

pub open spec fn opt_block_view(r: Option<BlockToken>) -> Option<BlockTokenModel> {
    match r {
        Some(t) => Some(block_token_view(t)),
        None => None,
    }
}

pub open spec fn opt_sized_view(r: Option<(BlockToken, usize)>) -> Option<(BlockTokenModel, nat)> {
    match r {
        Some((t, n)) => Some((block_token_view(t), n as nat)),
        None => None,
    }
}

pub open spec fn token_within(t: BlockTokenModel, ls: Seq<Seq<char>>) -> bool {
    &&& t.line_start < ls.len()
    &&& match t.token {
        BlockModel::Heading { content, .. } => forall|j: int|
            0 <= j < content.len() ==> inline_within(#[trigger] content[j], ls),
        BlockModel::BlockQuote(inner) => within(inner, ls),
        _ => true,
    }
}

proof fn lemma_within_single(t: BlockTokenModel, ls: Seq<Seq<char>>)
    ensures
        within(seq![t], ls) == token_within(t, ls),
{
    let d = seq![t];
    assert(d[0] == t);
    assert(d.subrange(1, 1) =~= Seq::<BlockTokenModel>::empty());
    assert(within(d.subrange(1, 1), ls));
}

proof fn lemma_within_concat(a: Seq<BlockTokenModel>, b: Seq<BlockTokenModel>, ls: Seq<Seq<char>>)
    ensures
        within(a + b, ls) == (within(a, ls) && within(b, ls)),
    decreases a.len(),
{
    if a.len() == 0 {
        assert(a + b =~= b);
    } else {
        let ab = a + b;
        assert(ab[0] == a[0]);
        assert(ab.subrange(1, ab.len() as int) =~= a.subrange(1, a.len() as int) + b);
        lemma_within_concat(a.subrange(1, a.len() as int), b, ls);
    }
}

proof fn lemma_within_index(d: Seq<BlockTokenModel>, ls: Seq<Seq<char>>, k: int)
    requires
        within(d, ls),
        0 <= k < d.len(),
    ensures
        token_within(d[k], ls),
    decreases k,
{
    if k > 0 {
        let rest = d.subrange(1, d.len() as int);
        lemma_within_index(rest, ls, k - 1);
        assert(rest[k - 1] == d[k]);
    }
}

proof fn lemma_shift_doc_front(d: Seq<BlockTokenModel>, off: nat, ind: Seq<nat>)
    requires
        d.len() > 0,
    ensures
        shift_doc(d, off, ind).subrange(1, d.len() as int) == shift_doc(
            d.subrange(1, d.len() as int),
            off,
            ind,
        ),
{
    let r = d.subrange(1, d.len() as int);
    assert forall|k: int| 0 <= k < r.len() implies #[trigger] shift_doc(d, off, ind)[k + 1]
        == shift_doc(r, off, ind)[k] by {
        assert(r[k] == d[k + 1]);
    }
    assert(shift_doc(d, off, ind).subrange(1, d.len() as int) =~= shift_doc(r, off, ind));
}

/// Each stripped line, put back at its place with its indent, fits in the
/// line it came from.
pub open spec fn shift_fits(inner: Seq<Seq<char>>, ls: Seq<Seq<char>>, off: nat, ind: Seq<nat>) -> bool {
    &&& inner.len() <= ind.len()
    &&& forall|k: int|
        0 <= k < inner.len() ==> off + k < ls.len() && utf8_len(#[trigger] inner[k]) + ind[k]
            <= utf8_len(ls[off + k])
}

/// Shifting a document whose positions lie within the stripped lines gives
/// one whose positions lie within the unstripped lines.
proof fn lemma_within_shift(
    d: Seq<BlockTokenModel>,
    inner: Seq<Seq<char>>,
    ls: Seq<Seq<char>>,
    off: nat,
    ind: Seq<nat>,
)
    requires
        within(d, inner),
        shift_fits(inner, ls, off, ind),
    ensures
        within(shift_doc(d, off, ind), ls),
    decreases d,
{
    let sd = shift_doc(d, off, ind);
    if d.len() > 0 {
        let rest = d.subrange(1, d.len() as int);
        lemma_within_shift(rest, inner, ls, off, ind);
        lemma_shift_doc_front(d, off, ind);
        assert(d[0].line_start < inner.len());
        assert(sd[0].line_start == d[0].line_start + off);
        let k0 = d[0].line_start as int;
        assert(utf8_len(inner[k0]) + ind[k0] <= utf8_len(ls[off + k0]));
        match d[0].token {
            BlockModel::Heading { level, content, style } => {
                let sc = shift_text(content, off, ind);
                assert(sd[0].token == BlockModel::Heading { level, content: sc, style });
                assert forall|j: int| 0 <= j < sc.len() implies inline_within(#[trigger] sc[j], ls) by {
                    assert(inline_within(content[j], inner));
                    let k = content[j].line_start as int;
                    assert(utf8_len(inner[k]) + ind[k] <= utf8_len(ls[off + k]));
                }
            },
            BlockModel::BlockQuote(q) => {
                lemma_within_shift(q, inner, ls, off, ind);
                assert(sd[0].token == BlockModel::BlockQuote(shift_doc(q, off, ind)));
            },
            _ => {
                assert(sd[0].token == d[0].token);
            },
        }
        assert(token_within(sd[0], ls));
    } else {
        assert(sd.len() == 0);
    }
}

proof fn lemma_dequote_no_newlines(ls: Seq<Seq<char>>, i: int, e: int)
    requires
        no_newlines(ls),
        0 <= i <= e <= ls.len(),
    ensures
        no_newlines(quote_interior(ls, i, e)),
{
    let f = quote_interior(ls, i, e);
    assert forall|k: int| 0 <= k < f.len() implies super::lines::no_newline(#[trigger] f[k]) by {
        assert(super::lines::no_newline(ls[i + k]));
        lemma_quote_marker_len_bound(ls[i + k]);
    }
}

/// A quote marker is ASCII: it takes one byte per character.
proof fn lemma_marker_bytes(l: Seq<char>)
    ensures
        utf8_len(l) == quote_marker_len(l) + utf8_len(dequote(l)),
{
    let m = quote_marker_len(l) as int;
    lemma_quote_marker_len_bound(l);
    let s = skip_char(l, 0, ' ');
    lemma_skip_char_bounds(l, 0, ' ');
    assert forall|k: int| 0 <= k < m implies (#[trigger] l.take(m)[k]) as u32 <= 0x7f by {
        assert(l.take(m)[k] == l[k]);
        if k < s {
            assert(l[k] == ' ');
        }
    }
    lemma_utf8_len_ascii(l.take(m));
    lemma_utf8_len_concat(l.take(m), dequote(l));
    assert(l.take(m) + dequote(l) =~= l);
}

/// A line handed to a nested scan, put back with its indent, takes no more
/// bytes than the line it came from.
proof fn lemma_stripped_bytes(
    f: Seq<Seq<char>>,
    inner: Seq<Seq<char>>,
    ls: Seq<Seq<char>>,
    i: int,
    e: int,
    k: int,
)
    requires
        0 <= i < e <= ls.len(),
        f == quote_interior(ls, i, e),
        inner == split_lines(join_lines(f)),
        no_newlines(f),
        0 <= k < inner.len(),
    ensures
        i + k < ls.len(),
        utf8_len(inner[k]) + quote_indents(ls, i, e)[k] <= utf8_len(ls[i + k]),
{
    lemma_split_join(f);
    assert(inner[k] == f[k].take(inner[k].len() as int));
    lemma_utf8_len_prefix(f[k], inner[k].len() as int);
    lemma_marker_bytes(ls[i + k]);
}

/// Every position in the tokens of `ls` lies within `ls`.
proof fn lemma_scan_within(ls: Seq<Seq<char>>, i: int)
    requires
        no_newlines(ls),
        0 <= i,
    ensures
        within(scan(ls, i), ls),
    decreases weight(ls), ls.len() - i,
{
    if i < ls.len() {
        let l = ls[i];
        if is_atx(l) {
            lemma_scan_within(ls, i + 1);
            let t = atx_heading(l, i as nat).unwrap();
            lemma_skip_ws_bounds(l, 0);
            lemma_skip_char_bounds(l, skip_ws(l, 0), '#');
            lemma_skip_ws_bounds(l, atx_marker_end(l));
            lemma_utf8_len_prefix(l, atx_content_start(l));
            lemma_within_single(t, ls);
            lemma_within_concat(seq![t], scan(ls, i + 1), ls);
        } else if code_block_at(ls, i) is Some {
            lemma_closing_fence_bounds(ls, i + 1);
            let (t, n) = code_block_at(ls, i).unwrap();
            lemma_scan_within(ls, i + n);
            lemma_within_single(t, ls);
            lemma_within_concat(seq![t], scan(ls, i + n), ls);
        } else if quote_marker_len(l) > 0 {
            lemma_quote_run_end_bounds(ls, i + 1);
            lemma_quote_weight(ls, i);
            let e = quote_run_end(ls, i + 1);
            let f = quote_interior(ls, i, e);
            let inner = quote_lines(ls, i);
            let ind = quote_indents(ls, i, e);
            lemma_dequote_no_newlines(ls, i, e);
            lemma_split_join(f);
            lemma_split_no_newlines(join_lines(f));
            lemma_scan_within(inner, 0);
            assert forall|k: int| 0 <= k < inner.len() implies i + k < ls.len() && utf8_len(
                #[trigger] inner[k],
            ) + ind[k] <= utf8_len(ls[i + k]) by {
                lemma_stripped_bytes(f, inner, ls, i, e, k);
            }
            lemma_within_shift(scan(inner, 0), inner, ls, i as nat, ind);
            lemma_scan_within(ls, e);
            let t = BlockTokenModel {
                line_start: i as nat,
                token: BlockModel::BlockQuote(shift_doc(scan(inner, 0), i as nat, ind)),
            };
            lemma_within_single(t, ls);
            lemma_within_concat(seq![t], scan(ls, e), ls);
        } else if i + 1 < ls.len() && setext_heading(l, ls[i + 1], i as nat) is Some {
            lemma_scan_within(ls, i + 2);
            let t = setext_heading(l, ls[i + 1], i as nat).unwrap();
            lemma_within_single(t, ls);
            lemma_within_concat(seq![t], scan(ls, i + 2), ls);
        } else {
            lemma_scan_within(ls, i + 1);
        }
    }
}

/// An inline token that can be shifted by `off` lines and by the indent of
/// its line without leaving `usize`: its line has an indent.
pub open spec fn inline_shiftable(x: InlineTokenModel, off: nat, ind: Seq<nat>) -> bool {
    &&& x.line_start < ind.len()
    &&& x.line_start + off <= usize::MAX
    &&& x.position + ind[x.line_start as int] <= usize::MAX
}

/// A document that `shift_doc` moves without leaving `usize`, nested quotes
/// included.
pub open spec fn shiftable(d: Seq<BlockTokenModel>, off: nat, ind: Seq<nat>) -> bool
    decreases d,
{
    if d.len() == 0 {
        true
    } else {
        &&& d[0].line_start + off <= usize::MAX
        &&& match d[0].token {
            BlockModel::Heading { content, .. } => forall|j: int|
                0 <= j < content.len() ==> inline_shiftable(#[trigger] content[j], off, ind),
            BlockModel::BlockQuote(inner) => shiftable(inner, off, ind),
            _ => true,
        }
        &&& shiftable(d.subrange(1, d.len() as int), off, ind)
    }
}

pub open spec fn token_shiftable(t: BlockTokenModel, off: nat, ind: Seq<nat>) -> bool {
    &&& t.line_start + off <= usize::MAX
    &&& match t.token {
        BlockModel::Heading { content, .. } => forall|j: int|
            0 <= j < content.len() ==> inline_shiftable(#[trigger] content[j], off, ind),
        BlockModel::BlockQuote(inner) => shiftable(inner, off, ind),
        _ => true,
    }
}

proof fn lemma_shiftable_index(d: Seq<BlockTokenModel>, off: nat, ind: Seq<nat>, k: int)
    requires
        shiftable(d, off, ind),
        0 <= k < d.len(),
    ensures
        token_shiftable(d[k], off, ind),
    decreases k,
{
    if k > 0 {
        let rest = d.subrange(1, d.len() as int);
        lemma_shiftable_index(rest, off, ind, k - 1);
        assert(rest[k - 1] == d[k]);
    }
}

/// Positions within the stripped lines, whose lengths plus indents fit in
/// `usize`, can be shifted.
proof fn lemma_within_shiftable(d: Seq<BlockTokenModel>, inner: Seq<Seq<char>>, off: nat, ind: Seq<nat>)
    requires
        within(d, inner),
        inner.len() <= ind.len(),
        off + inner.len() <= usize::MAX,
        forall|k: int| 0 <= k < inner.len() ==> utf8_len(#[trigger] inner[k]) + ind[k] <= usize::MAX,
    ensures
        shiftable(d, off, ind),
    decreases d,
{
    if d.len() > 0 {
        lemma_within_shiftable(d.subrange(1, d.len() as int), inner, off, ind);
        match d[0].token {
            BlockModel::Heading { content, .. } => {
                assert forall|j: int| 0 <= j < content.len() implies inline_shiftable(
                    #[trigger] content[j],
                    off,
                    ind,
                ) by {
                    assert(inline_within(content[j], inner));
                    let l = content[j].line_start as int;
                    assert(utf8_len(inner[l]) + ind[l] <= usize::MAX);
                }
            },
            BlockModel::BlockQuote(q) => {
                lemma_within_shiftable(q, inner, off, ind);
            },
            _ => {},
        }
    }
}

// ---------------------------------------------------------------------------
// The tokenizer.
// ---------------------------------------------------------------------------

/// Tokenizes a text into its block structure. Lines that no rule matches
/// yield no token; the result never fails.
pub fn lex_analysis(input: &str) -> (document: Document)
    ensures
        doc_view(document@) == tokenize(input@),
{
    let chars = chars_of(input);
    let lines = split_text(&chars);
    proof {
        lemma_split_no_newlines(chars@);
    }
    scan_lines(&lines)
}

/// The block scanner: at each line not yet consumed the rules are tried in
/// order, and the lines a match takes are skipped.
fn scan_lines(lines: &Vec<Vec<char>>) -> (document: Document)
    requires
        no_newlines(lines_view(lines@)),
    ensures
        doc_view(document@) == scan(lines_view(lines@), 0),
    decreases weight(lines_view(lines@)), 1nat,
{
    let ghost ls = lines_view(lines@);
    let mut document: Document = Vec::new();
    let mut num: usize = 0;
    while num < lines.len()
        invariant
            ls == lines_view(lines@),
            no_newlines(ls),
            num <= lines.len(),
            doc_view(document@) + scan(ls, num as int) == scan(ls, 0),
        decreases lines.len() - num,
    {
        let line = &lines[num];
        assert(ls[num as int] == line@);
        let ghost before = doc_view(document@);
        let mut step: usize = 1;
        let mut found: Option<BlockToken> = None;
        match atx_header_from_line(line, num) {
            Some(t) => {
                found = Some(t);
            },
            None => {
                match code_block(lines, num) {
                    Some((t, n)) => {
                        found = Some(t);
                        step = n;
                    },
                    None => {
                        match quote_block(lines, num) {
                            Some((t, n)) => {
                                found = Some(t);
                                step = n;
                            },
                            None => {
                                if num + 1 < lines.len() {
                                    assert(ls[num + 1] == lines@[num + 1]@);
                                    match setex_header_from_line(line, &lines[num + 1], num) {
                                        Some(t) => {
                                            found = Some(t);
                                            step = 2;
                                        },
                                        None => {},
                                    }
                                }
                            },
                        }
                    },
                }
            },
        }
        proof {
            lemma_closing_fence_bounds(ls, num + 1);
            lemma_quote_run_end_bounds(ls, num + 1);
        }
        match found {
            Some(t) => {
                assert(scan(ls, num as int) == seq![block_token_view(t)] + scan(ls, num + step));
                document.push(t);
                assert(doc_view(document@) =~= before.push(block_token_view(t)));
                assert(doc_view(document@) + scan(ls, num + step) =~= before + (seq![
                    block_token_view(t),
                ] + scan(ls, num + step)));
            },
            None => {
                assert(scan(ls, num as int) == scan(ls, num + 1));
            },
        }
        num = num + step;
    }
    assert(doc_view(document@) + scan(ls, num as int) =~= doc_view(document@));
    document
}

/// A heading written as `#` markers before its text.
fn atx_header_from_line(line: &Vec<char>, num: usize) -> (r: Option<BlockToken>)
    ensures
        opt_block_view(r) == atx_heading(line@, num as nat),
{
    let a = skip_whitespace(line, 0);
    let h = skip_chars(line, a, '#');
    let depth = h - a;
    if depth < 1 || depth > 6 || (h < line.len() && !is_whitespace(line[h])) {
        return None;
    }
    let c = skip_whitespace(line, h);
    let j = back_whitespace(line, line.len(), c);
    let j = back_chars(line, j, c, '#');
    let e = back_whitespace(line, j, c);
    let text = slice_chars(line, c, e);
    let head = slice_chars(line, 0, c);
    assert(head@ =~= line@.take(c as int));
    let position = byte_len(&head);
    Some(
        BlockToken {
            line_start: num,
            token: Block::Heading {
                level: depth,
                content: get_content(&text, num, position),
                style: HeadingStyle::Atx,
            },
        },
    )
}

/// Whether `line` is two or more `c` with only whitespace around them.
fn is_underline_of(line: &Vec<char>, c: char) -> (r: bool)
    ensures
        r == is_underline(line@, c),
{
    let t = trim_chars(line);
    if t.len() < 2 {
        return false;
    }
    let mut k: usize = 0;
    while k < t.len()
        invariant
            k <= t.len(),
            t@ == trim(line@),
            forall|j: int| 0 <= j < k ==> t@[j] == c,
        decreases t.len() - k,
    {
        if t[k] != c {
            assert(trim(line@)[k as int] != c);
            return false;
        }
        k += 1;
    }
    true
}

/// A heading whose text line is followed by a line of `=` (level 1) or `-`
/// (level 2).
fn setex_header_from_line(line: &Vec<char>, next: &Vec<char>, num: usize) -> (r: Option<
    BlockToken,
>)
    ensures
        opt_block_view(r) == setext_heading(line@, next@, num as nat),
{
    let level: usize = if is_underline_of(next, '=') {
        1
    } else if is_underline_of(next, '-') {
        2
    } else {
        return None;
    };
    let text = trim_chars(line);
    Some(
        BlockToken {
            line_start: num,
            token: Block::Heading {
                level,
                content: get_content(&text, num, 0),
                style: HeadingStyle::Setex,
            },
        },
    )
}

fn is_fence_line(line: &Vec<char>) -> (r: bool)
    ensures
        r == is_fence(line@),
{
    let t = trim_chars(line);
    let r = t.len() == 3 && t[0] == '`' && t[1] == '`' && t[2] == '`';
    if r {
        assert(t@ =~= seq!['`', '`', '`']);
    }
    r
}

/// A fenced code block opened at line `num`, with the number of lines it
/// takes; there is none without a closing fence.
fn code_block(lines: &Vec<Vec<char>>, num: usize) -> (r: Option<(BlockToken, usize)>)
    requires
        num < lines.len(),
    ensures
        opt_sized_view(r) == code_block_at(lines_view(lines@), num as int),
{
    let ghost ls = lines_view(lines@);
    assert(ls[num as int] == lines@[num as int]@);
    if !is_fence_line(&lines[num]) {
        return None;
    }
    let mut k: usize = num + 1;
    while k < lines.len() && !is_fence_line(&lines[k])
        invariant
            ls == lines_view(lines@),
            num + 1 <= k <= lines.len(),
            closing_fence(ls, k as int) == closing_fence(ls, num + 1),
        decreases lines.len() - k,
    {
        assert(ls[k as int] == lines@[k as int]@);
        k += 1;
    }
    if k < lines.len() {
        assert(ls[k as int] == lines@[k as int]@);
    }
    if k >= lines.len() {
        return None;
    }
    let mut body: Vec<Vec<char>> = Vec::new();
    let mut j: usize = num + 1;
    while j < k
        invariant
            ls == lines_view(lines@),
            num + 1 <= j <= k < lines.len(),
            lines_view(body@) == ls.subrange(num + 1, j as int),
        decreases k - j,
    {
        let copy = slice_chars(&lines[j], 0, lines[j].len());
        assert(copy@ =~= ls[j as int]);
        let ghost before = lines_view(body@);
        body.push(copy);
        assert(lines_view(body@) =~= before.push(copy@));
        assert(lines_view(body@) =~= ls.subrange(num + 1, j + 1));
        j += 1;
    }
    let joined = join_text(&body);
    let content = string_of(&joined);
    Some((BlockToken { line_start: num, token: Block::BlockCode { tag: None, content } }, k - num + 1))
}

/// Length of the quote marker that opens `line`, 0 where there is none.
fn quote_marker_length(line: &Vec<char>) -> (r: usize)
    ensures
        r == quote_marker_len(line@),
{
    let m = skip_chars(line, 0, ' ');
    if m <= 3 && m < line.len() && line[m] == '>' {
        if m + 1 < line.len() && line[m + 1] == ' ' {
            m + 2
        } else {
            m + 1
        }
    } else {
        0
    }
}

/// A block quote opened at line `num`: its lines up to the first empty one,
/// markers stripped, tokenized again and moved back to the coordinates of
/// `lines`; with the number of lines it takes.
fn quote_block(lines: &Vec<Vec<char>>, num: usize) -> (r: Option<(BlockToken, usize)>)
    requires
        num < lines.len(),
        no_newlines(lines_view(lines@)),
    ensures
        match r {
            Some((t, n)) => {
                let ls = lines_view(lines@);
                let e = quote_run_end(ls, num + 1);
                &&& quote_marker_len(ls[num as int]) > 0
                &&& n == e - num
                &&& block_token_view(t) == BlockTokenModel {
                    line_start: num as nat,
                    token: BlockModel::BlockQuote(
                        shift_doc(scan(quote_lines(ls, num as int), 0), num as nat, quote_indents(ls, num as int, e)),
                    ),
                }
            },
            None => quote_marker_len(lines_view(lines@)[num as int]) == 0,
        },
    decreases weight(lines_view(lines@)), 0nat,
{
    let ghost ls = lines_view(lines@);
    assert(ls[num as int] == lines@[num as int]@);
    let marker = quote_marker_length(&lines[num]);
    if marker == 0 {
        return None;
    }
    let mut e: usize = num + 1;
    while e < lines.len() && lines[e].len() > 0
        invariant
            ls == lines_view(lines@),
            num + 1 <= e <= lines.len(),
            quote_run_end(ls, e as int) == quote_run_end(ls, num + 1),
        decreases lines.len() - e,
    {
        assert(ls[e as int] == lines@[e as int]@);
        e += 1;
    }
    if e < lines.len() {
        assert(ls[e as int] == lines@[e as int]@);
    }
    let mut fixed: Vec<Vec<char>> = Vec::new();
    let mut indents: Vec<usize> = Vec::new();
    let mut j: usize = num;
    while j < e
        invariant
            ls == lines_view(lines@),
            num <= j <= e <= lines.len(),
            lines_view(fixed@) == quote_interior(ls, num as int, e as int).take(j - num),
            nat_seq(indents@) == quote_indents(ls, num as int, e as int).take(j - num),
            forall|k: int| num <= k < j ==> utf8_len(#[trigger] ls[k]) <= usize::MAX,
        decreases e - j,
    {
        let line = &lines[j];
        assert(ls[j as int] == line@);
        // The line's UTF-8 length fits in `usize`: it bounds the shifted columns.
        let _bytes = byte_len(line);
        let m = quote_marker_length(line);
        proof {
            lemma_quote_marker_len_bound(line@);
        }
        let stripped = slice_chars(line, m, line.len());
        let ghost fixed_before = lines_view(fixed@);
        let ghost indents_before = nat_seq(indents@);
        fixed.push(stripped);
        indents.push(m);
        assert(lines_view(fixed@) =~= fixed_before.push(stripped@));
        assert(nat_seq(indents@) =~= indents_before.push(m as nat));
        assert(lines_view(fixed@) =~= quote_interior(ls, num as int, e as int).take(j + 1 - num));
        assert(nat_seq(indents@) =~= quote_indents(ls, num as int, e as int).take(j + 1 - num));
        j += 1;
    }
    let ghost f = quote_interior(ls, num as int, e as int);
    let ghost ind = quote_indents(ls, num as int, e as int);
    assert(lines_view(fixed@) =~= f);
    assert(nat_seq(indents@) =~= ind);
    let joined = join_text(&fixed);
    let inner_lines = split_text(&joined);
    let ghost inner = lines_view(inner_lines@);
    proof {
        lemma_quote_weight(ls, num as int);
        lemma_dequote_no_newlines(ls, num as int, e as int);
        lemma_split_join(f);
        lemma_split_no_newlines(joined@);
        lemma_scan_within(inner, 0);
        assert forall|k: int| 0 <= k < inner.len() implies utf8_len(#[trigger] inner[k])
            + nat_seq(indents@)[k] <= usize::MAX by {
            lemma_stripped_bytes(f, inner, ls, num as int, e as int, k);
        }
    }
    let nested = scan_lines(&inner_lines);
    proof {
        lemma_within_shiftable(doc_view(nested@), inner, num as nat, nat_seq(indents@));
    }
    let document = fix_indent(nested, num, &indents);
    proof {
        lemma_quote_view(document);
    }
    Some((BlockToken { line_start: num, token: Block::BlockQuote(document) }, e - num))
}

/// Moves a document from a quote's stripped coordinates back to those of the
/// enclosing lines: lines by `line_num`, columns by the indent of their line.
fn fix_indent(doc: Document, line_num: usize, indents: &Vec<usize>) -> (r: Document)
    requires
        shiftable(doc_view(doc@), line_num as nat, nat_seq(indents@)),
    ensures
        doc_view(r@) == shift_doc(doc_view(doc@), line_num as nat, nat_seq(indents@)),
    decreases doc_view(doc@),
{
    let ghost d = doc_view(doc@);
    let ghost ind = nat_seq(indents@);
    let mut r: Document = Vec::new();
    for t in it: doc.into_iter()
        invariant
            it.seq() == doc@,
            d == doc_view(doc@),
            ind == nat_seq(indents@),
            shiftable(d, line_num as nat, ind),
            doc_view(r@) == shift_doc(d, line_num as nat, ind).take(it.index() as int),
    {
        let ghost k = it.index() as int;
        proof {
            lemma_shiftable_index(d, line_num as nat, ind, k);
            assert(d[k] == block_token_view(t));
        }
        let line_start = t.line_start + line_num;
        let token = match t.token {
            Block::Heading { level, content, style } => {
                assert(d[k].token == BlockModel::Heading {
                    level: level as nat,
                    content: text_view(content@),
                    style,
                });
                proof {
                    let cm = text_view(content@);
                    assert(cm.len() == content@.len());
                    assert(token_shiftable(d[k], line_num as nat, ind));
                    assert(d[k].token->Heading_content == cm);
                    assert forall|j: int| 0 <= j < content@.len() implies inline_shiftable(
                        #[trigger] text_view(content@)[j],
                        line_num as nat,
                        ind,
                    ) by {
                        assert(inline_shiftable(cm[j], line_num as nat, ind));
                    }
                }
                let content = fix_text(content, line_num, indents);
                Block::Heading { level, content, style }
            },
            Block::BlockQuote(q) => {
                proof {
                    lemma_quote_view(q);
                }
                let q = fix_indent(q, line_num, indents);
                proof {
                    lemma_quote_view(q);
                }
                Block::BlockQuote(q)
            },
            other => other,
        };
        let ghost before = doc_view(r@);
        let nt = BlockToken { line_start, token };
        r.push(nt);
        assert(doc_view(r@) =~= before.push(block_token_view(nt)));
        assert(doc_view(r@) =~= shift_doc(d, line_num as nat, ind).take(k + 1));
    }
    assert(shift_doc(d, line_num as nat, ind).take(d.len() as int) =~= shift_doc(d, line_num as nat, ind));
    r
}

fn fix_text(content: Text, line_num: usize, indents: &Vec<usize>) -> (r: Text)
    requires
        forall|j: int|
            0 <= j < content@.len() ==> inline_shiftable(
                #[trigger] text_view(content@)[j],
                line_num as nat,
                nat_seq(indents@),
            ),
    ensures
        text_view(r@) == shift_text(text_view(content@), line_num as nat, nat_seq(indents@)),
{
    let ghost c = text_view(content@);
    let ghost ind = nat_seq(indents@);
    let mut r: Text = Vec::new();
    for x in it: content.into_iter()
        invariant
            it.seq() == content@,
            c == text_view(content@),
            ind == nat_seq(indents@),
            forall|j: int| 0 <= j < c.len() ==> inline_shiftable(#[trigger] c[j], line_num as nat, ind),
            text_view(r@) == shift_text(c, line_num as nat, ind).take(it.index() as int),
    {
        let ghost k = it.index() as int;
        assert(c[k] == inline_token_view(x));
        assert(inline_shiftable(c[k], line_num as nat, ind));
        let ls = x.line_start;
        let nx = InlineToken {
            line_start: ls + line_num,
            position: x.position + indents[ls],
            token: x.token,
        };
        let ghost before = text_view(r@);
        r.push(nx);
        assert(text_view(r@) =~= before.push(inline_token_view(nx)));
        assert(text_view(r@) =~= shift_text(c, line_num as nat, ind).take(k + 1));
    }
    assert(shift_text(c, line_num as nat, ind).take(c.len() as int) =~= shift_text(c, line_num as nat, ind));
    r
}

/// The inline content of a heading: one plain-text chunk.
fn get_content(s: &Vec<char>, line: usize, position: usize) -> (r: Text)
    ensures
        text_view(r@) == chunk_at(line as nat, position as nat, s@),
{
    let mut r: Text = Vec::new();
    r.push(InlineToken { line_start: line, position, token: Inline::Chunk(string_of(s)) });
    assert(text_view(r@) =~= chunk_at(line as nat, position as nat, s@));
    r
}

// ---------------------------------------------------------------------------
// Laws of the tokenizer.
// ---------------------------------------------------------------------------

/// Every heading in a document, nested ones included, has a level from 1 to 6.
pub open spec fn levels_in_range(d: Seq<BlockTokenModel>) -> bool
    decreases d,
{
    if d.len() == 0 {
        true
    } else {
        &&& match d[0].token {
            BlockModel::Heading { level, .. } => 1 <= level <= 6,
            BlockModel::BlockQuote(inner) => levels_in_range(inner),
            _ => true,
        }
        &&& levels_in_range(d.subrange(1, d.len() as int))
    }
}

proof fn lemma_levels_concat(a: Seq<BlockTokenModel>, b: Seq<BlockTokenModel>)
    ensures
        levels_in_range(a + b) == (levels_in_range(a) && levels_in_range(b)),
    decreases a.len(),
{
    if a.len() == 0 {
        assert(a + b =~= b);
    } else {
        let ab = a + b;
        assert(ab[0] == a[0]);
        assert(ab.subrange(1, ab.len() as int) =~= a.subrange(1, a.len() as int) + b);
        lemma_levels_concat(a.subrange(1, a.len() as int), b);
    }
}

proof fn lemma_levels_single(t: BlockTokenModel)
    ensures
        levels_in_range(seq![t]) == match t.token {
            BlockModel::Heading { level, .. } => 1 <= level <= 6,
            BlockModel::BlockQuote(inner) => levels_in_range(inner),
            _ => true,
        },
{
    let d = seq![t];
    assert(d[0] == t);
    assert(d.subrange(1, 1) =~= Seq::<BlockTokenModel>::empty());
    assert(levels_in_range(d.subrange(1, 1)));
}

proof fn lemma_levels_shift(d: Seq<BlockTokenModel>, off: nat, ind: Seq<nat>)
    requires
        levels_in_range(d),
    ensures
        levels_in_range(shift_doc(d, off, ind)),
    decreases d,
{
    let sd = shift_doc(d, off, ind);
    if d.len() > 0 {
        lemma_levels_shift(d.subrange(1, d.len() as int), off, ind);
        lemma_shift_doc_front(d, off, ind);
        match d[0].token {
            BlockModel::Heading { level, content, style } => {
                assert(sd[0].token == BlockModel::Heading {
                    level,
                    content: shift_text(content, off, ind),
                    style,
                });
            },
            BlockModel::BlockQuote(q) => {
                lemma_levels_shift(q, off, ind);
                assert(sd[0].token == BlockModel::BlockQuote(shift_doc(q, off, ind)));
            },
            _ => {
                assert(sd[0].token == d[0].token);
            },
        }
    } else {
        assert(sd.len() == 0);
    }
}

proof fn lemma_scan_levels(ls: Seq<Seq<char>>, i: int)
    ensures
        levels_in_range(scan(ls, i)),
    decreases weight(ls), ls.len() - i,
{
    if 0 <= i < ls.len() {
        let l = ls[i];
        if is_atx(l) {
            lemma_scan_levels(ls, i + 1);
            lemma_levels_single(atx_heading(l, i as nat).unwrap());
            lemma_levels_concat(seq![atx_heading(l, i as nat).unwrap()], scan(ls, i + 1));
        } else if code_block_at(ls, i) is Some {
            lemma_closing_fence_bounds(ls, i + 1);
            let (t, n) = code_block_at(ls, i).unwrap();
            lemma_scan_levels(ls, i + n);
            lemma_levels_single(t);
            lemma_levels_concat(seq![t], scan(ls, i + n));
        } else if quote_marker_len(l) > 0 {
            lemma_quote_run_end_bounds(ls, i + 1);
            lemma_quote_weight(ls, i);
            let e = quote_run_end(ls, i + 1);
            let inner = quote_lines(ls, i);
            lemma_scan_levels(inner, 0);
            lemma_levels_shift(scan(inner, 0), i as nat, quote_indents(ls, i, e));
            lemma_scan_levels(ls, e);
            let t = BlockTokenModel {
                line_start: i as nat,
                token: BlockModel::BlockQuote(
                    shift_doc(scan(inner, 0), i as nat, quote_indents(ls, i, e)),
                ),
            };
            lemma_levels_single(t);
            lemma_levels_concat(seq![t], scan(ls, e));
        } else if i + 1 < ls.len() && setext_heading(l, ls[i + 1], i as nat) is Some {
            let t = setext_heading(l, ls[i + 1], i as nat).unwrap();
            lemma_scan_levels(ls, i + 2);
            lemma_levels_single(t);
            lemma_levels_concat(seq![t], scan(ls, i + 2));
        } else {
            lemma_scan_levels(ls, i + 1);
        }
    }
}

/// Every heading that tokenizing yields, at any depth of quoting, has a level
/// from 1 to 6.
pub proof fn heading_levels_in_range(text: Seq<char>)
    ensures
        levels_in_range(tokenize(text)),
{
    lemma_scan_levels(split_lines(text), 0);
}

/// A line that opens with seven or more `#` (after optional whitespace) is
/// never an ATX heading.
pub proof fn seven_markers_not_atx(line: Seq<char>, num: nat)
    requires
        atx_marker_end(line) - skip_ws(line, 0) >= 7,
    ensures
        atx_heading(line, num) is None,
{
}

proof fn lemma_quote_line_not_atx_or_fence(l: Seq<char>)
    requires
        quote_marker_len(l) > 0,
    ensures
        !is_atx(l),
        !is_fence(l),
        trim(l).len() > 0 && trim(l)[0] == '>',
{
    let m = skip_char(l, 0, ' ');
    lemma_skip_char_bounds(l, 0, ' ');
    assert(skip_ws(l, 0) == m) by {
        assert forall|k: int| 0 <= k <= m implies skip_ws(l, k) == m by {
            lemma_skip_ws_steps(l, k, m);
        }
    }
    lemma_skip_char_bounds(l, m, '#');
    assert(skip_char(l, m, '#') == m);
    lemma_trim_bounds(l);
    lemma_back_ws_bounds(l, l.len() as int, m);
    let t = trim(l);
    assert(l[m] == '>');
    assert(t.len() > 0 && t[0] == '>');
    if is_fence(l) {
        assert(t[0] == '`');
    }
}

proof fn lemma_skip_ws_steps(l: Seq<char>, k: int, m: int)
    requires
        0 <= k <= m < l.len(),
        forall|j: int| 0 <= j < m ==> #[trigger] l[j] == ' ',
        !is_ws(l[m]),
    ensures
        skip_ws(l, k) == m,
    decreases m - k,
{
    if k < m {
        lemma_skip_ws_steps(l, k + 1, m);
    }
}

/// The round trip of the quote rule: for a text that is one block quote
/// after `n` empty lines (the quote's first line opens with a quote marker
/// and none of its lines is empty), tokenizing it gives one quote at line
/// `n`, whose content is the tokenizing of the text rebuilt from its stripped
/// lines, joined with `\n`, shifted back to the unstripped coordinates.
pub proof fn quote_round_trip(text: Seq<char>, n: int)
    requires
        0 <= n < split_lines(text).len(),
        forall|k: int| 0 <= k < n ==> (#[trigger] split_lines(text)[k]).len() == 0,
        quote_marker_len(split_lines(text)[n]) > 0,
        forall|k: int| n <= k < split_lines(text).len() ==> (#[trigger] split_lines(text)[k]).len() > 0,
    ensures
        ({
            let ls = split_lines(text);
            tokenize(text) == seq![
                BlockTokenModel {
                    line_start: n as nat,
                    token: BlockModel::BlockQuote(
                        shift_doc(
                            tokenize(join_lines(quote_interior(ls, n, ls.len() as int))),
                            n as nat,
                            quote_indents(ls, n, ls.len() as int),
                        ),
                    ),
                },
            ]
        }),
{
    let ls = split_lines(text);
    lemma_quote_line_not_atx_or_fence(ls[n]);
    lemma_run_to_end(ls, n + 1, n);
    assert(scan(ls, ls.len() as int) == Seq::<BlockTokenModel>::empty());
    let t = seq![
        BlockTokenModel {
            line_start: n as nat,
            token: BlockModel::BlockQuote(
                shift_doc(
                    tokenize(join_lines(quote_interior(ls, n, ls.len() as int))),
                    n as nat,
                    quote_indents(ls, n, ls.len() as int),
                ),
            ),
        },
    ];
    assert(scan(ls, n) == t + scan(ls, ls.len() as int));
    assert(t + Seq::<BlockTokenModel>::empty() =~= t);
    lemma_empty_lines_skipped(ls, 0, n);
}

/// Empty lines before line `n` yield nothing, when line `n` opens a quote.
proof fn lemma_empty_lines_skipped(ls: Seq<Seq<char>>, j: int, n: int)
    requires
        0 <= j <= n < ls.len(),
        forall|k: int| 0 <= k < n ==> (#[trigger] ls[k]).len() == 0,
        quote_marker_len(ls[n]) > 0,
    ensures
        scan(ls, j) == scan(ls, n),
    decreases n - j,
{
    if j < n {
        lemma_empty_lines_skipped(ls, j + 1, n);
        let l = ls[j];
        assert(l.len() == 0);
        assert(skip_ws(l, 0) == 0);
        assert(skip_char(l, 0, '#') == 0);
        assert(trim(l).len() == 0);
        lemma_closing_fence_bounds(ls, j + 1);
        let next = ls[j + 1];
        if j + 1 < n {
            assert(next.len() == 0);
            assert(trim(next).len() == 0);
        } else {
            lemma_quote_line_not_atx_or_fence(next);
            assert(trim(next)[0] == '>');
        }
        assert(!is_underline(next, '='));
        assert(!is_underline(next, '-'));
    }
}

proof fn lemma_run_to_end(ls: Seq<Seq<char>>, j: int, n: int)
    requires
        0 <= n <= j <= ls.len(),
        forall|k: int| n <= k < ls.len() ==> (#[trigger] ls[k]).len() > 0,
    ensures
        quote_run_end(ls, j) == ls.len(),
    decreases ls.len() - j,
{
    if j < ls.len() {
        lemma_run_to_end(ls, j + 1, n);
    }
}

/// Tokens in strictly increasing order of their first lines, none before
/// line `lo`.
pub open spec fn ordered_from(d: Seq<BlockTokenModel>, lo: int) -> bool {
    &&& forall|k: int| 0 <= k < d.len() ==> lo <= #[trigger] d[k].line_start
    &&& forall|j: int, k: int| 0 <= j < k < d.len() ==> d[j].line_start < d[k].line_start
}

proof fn lemma_ordered_cons(t: BlockTokenModel, rest: Seq<BlockTokenModel>, lo: int, next: int)
    requires
        t.line_start == lo,
        lo < next,
        ordered_from(rest, next),
    ensures
        ordered_from(seq![t] + rest, lo),
{
    let d = seq![t] + rest;
    assert forall|k: int| 0 <= k < d.len() implies lo <= #[trigger] d[k].line_start by {
        if k > 0 {
            assert(d[k] == rest[k - 1]);
        }
    }
    assert forall|j: int, k: int| 0 <= j < k < d.len() implies d[j].line_start < d[k].line_start by {
        assert(d[k] == rest[k - 1]);
        if j > 0 {
            assert(d[j] == rest[j - 1]);
        }
    }
}

proof fn lemma_scan_ordered(ls: Seq<Seq<char>>, i: int)
    requires
        0 <= i,
    ensures
        ordered_from(scan(ls, i), i),
    decreases weight(ls), ls.len() - i,
{
    if i < ls.len() {
        let l = ls[i];
        if is_atx(l) {
            lemma_scan_ordered(ls, i + 1);
            lemma_ordered_cons(atx_heading(l, i as nat).unwrap(), scan(ls, i + 1), i, i + 1);
        } else if code_block_at(ls, i) is Some {
            lemma_closing_fence_bounds(ls, i + 1);
            let (t, n) = code_block_at(ls, i).unwrap();
            lemma_scan_ordered(ls, i + n);
            lemma_ordered_cons(t, scan(ls, i + n), i, i + n);
        } else if quote_marker_len(l) > 0 {
            lemma_quote_run_end_bounds(ls, i + 1);
            lemma_quote_weight(ls, i);
            let e = quote_run_end(ls, i + 1);
            lemma_scan_ordered(ls, e);
            let t = BlockTokenModel {
                line_start: i as nat,
                token: BlockModel::BlockQuote(
                    shift_doc(scan(quote_lines(ls, i), 0), i as nat, quote_indents(ls, i, e)),
                ),
            };
            lemma_ordered_cons(t, scan(ls, e), i, e);
        } else if i + 1 < ls.len() && setext_heading(l, ls[i + 1], i as nat) is Some {
            lemma_scan_ordered(ls, i + 2);
            lemma_ordered_cons(setext_heading(l, ls[i + 1], i as nat).unwrap(), scan(ls, i + 2), i, i + 2);
        } else {
            lemma_scan_ordered(ls, i + 1);
        }
    }
}

/// The top-level tokens of a document start on strictly increasing lines:
/// no two of them claim the same line.
pub proof fn top_level_lines_increase(text: Seq<char>)
    ensures
        ordered_from(tokenize(text), 0),
{
    lemma_scan_ordered(split_lines(text), 0);
}

/// Seven or more `#` open the line, after optional whitespace.
pub open spec fn has_seven_markers(l: Seq<char>) -> bool {
    atx_marker_end(l) - skip_ws(l, 0) >= 7
}

pub open spec fn is_setext_heading(t: BlockTokenModel) -> bool {
    t.token matches BlockModel::Heading { style: HeadingStyle::Setex, .. }
}

proof fn lemma_seven_markers_open_nothing_else(l: Seq<char>)
    requires
        has_seven_markers(l),
    ensures
        !is_atx(l),
        !is_fence(l),
        quote_marker_len(l) == 0,
{
    let a = skip_ws(l, 0);
    lemma_skip_ws_bounds(l, 0);
    lemma_skip_char_bounds(l, a, '#');
    assert(l[a] == '#');
    let m = skip_char(l, 0, ' ');
    lemma_skip_char_bounds(l, 0, ' ');
    if m > a {
        assert(l[a] == ' ');
    }
    lemma_trim_bounds(l);
    lemma_back_ws_bounds(l, l.len() as int, a);
    if is_fence(l) {
        assert(trim(l)[0] == l[a]);
    }
}

proof fn lemma_scan_seven_markers(ls: Seq<Seq<char>>, j: int, i: int)
    requires
        0 <= j,
        0 <= i < ls.len(),
        has_seven_markers(ls[i]),
    ensures
        forall|k: int|
            0 <= k < scan(ls, j).len() && (#[trigger] scan(ls, j)[k]).line_start == i
                ==> is_setext_heading(scan(ls, j)[k]),
    decreases weight(ls), ls.len() - j,
{
    lemma_scan_ordered(ls, j);
    if j < ls.len() && j <= i {
        let l = ls[j];
        let d = scan(ls, j);
        if j == i {
            lemma_seven_markers_open_nothing_else(l);
        }
        if is_atx(l) {
            lemma_scan_seven_markers(ls, j + 1, i);
            lemma_scan_ordered(ls, j + 1);
            assert forall|k: int| 0 <= k < d.len() && (#[trigger] d[k]).line_start == i
                implies is_setext_heading(d[k]) by {
                if k > 0 {
                    assert(d[k] == scan(ls, j + 1)[k - 1]);
                }
            }
        } else if code_block_at(ls, j) is Some {
            lemma_closing_fence_bounds(ls, j + 1);
            let (t, n) = code_block_at(ls, j).unwrap();
            lemma_scan_seven_markers(ls, j + n, i);
            assert forall|k: int| 0 <= k < d.len() && (#[trigger] d[k]).line_start == i
                implies is_setext_heading(d[k]) by {
                if k > 0 {
                    assert(d[k] == scan(ls, j + n)[k - 1]);
                }
            }
        } else if quote_marker_len(l) > 0 {
            lemma_quote_run_end_bounds(ls, j + 1);
            lemma_quote_weight(ls, j);
            let e = quote_run_end(ls, j + 1);
            lemma_scan_seven_markers(ls, e, i);
            assert forall|k: int| 0 <= k < d.len() && (#[trigger] d[k]).line_start == i
                implies is_setext_heading(d[k]) by {
                if k > 0 {
                    assert(d[k] == scan(ls, e)[k - 1]);
                }
            }
        } else if j + 1 < ls.len() && setext_heading(l, ls[j + 1], j as nat) is Some {
            lemma_scan_seven_markers(ls, j + 2, i);
            assert forall|k: int| 0 <= k < d.len() && (#[trigger] d[k]).line_start == i
                implies is_setext_heading(d[k]) by {
                if k > 0 {
                    assert(d[k] == scan(ls, j + 2)[k - 1]);
                }
            }
        } else {
            lemma_scan_seven_markers(ls, j + 1, i);
        }
    }
}

/// A line opened by seven or more `#` yields no heading of its own: the only
/// token that can start on it is a Setext heading, which takes it as its
/// text when the next line underlines it.
pub proof fn seven_markers_no_atx_heading(text: Seq<char>, i: int)
    requires
        0 <= i < split_lines(text).len(),
        has_seven_markers(split_lines(text)[i]),
    ensures
        forall|k: int|
            0 <= k < tokenize(text).len() && (#[trigger] tokenize(text)[k]).line_start == i
                ==> is_setext_heading(tokenize(text)[k]),
{
    lemma_scan_seven_markers(split_lines(text), 0, i);
}

/// Every position in a tokenized document, nested quotes included, points
/// into the input itself: each line index names one of its lines, and each
/// byte offset lies within that line's UTF-8 text.
pub proof fn positions_within_input(text: Seq<char>)
    ensures
        within(tokenize(text), split_lines(text)),
{
    lemma_split_no_newlines(text);
    lemma_scan_within(split_lines(text), 0);
}

} // verus!
