use vstd::prelude::*;

verus! {

/// A block-level construct together with the 0-based index of its first line
/// in the input that was tokenized.
#[derive(PartialEq, Eq, Debug)]
pub struct BlockToken {
    pub line_start: usize,
    pub token: Block,
}

/// A document: block tokens in source order.
pub type Document = Vec<BlockToken>;

/// A run of inline tokens.
pub type Text = Vec<InlineToken>;

/// An inline construct, placed by line and by byte offset within the line
/// (of its UTF-8 text).
#[derive(PartialEq, Eq, Debug)]
pub struct InlineToken {
    pub line_start: usize,
    pub position: usize,
    pub token: Inline,
}

#[derive(PartialEq, Eq, Debug)]
pub enum Block {
    Heading { level: usize, content: Text, style: HeadingStyle },
    BlockQuote(Document),
    BlockCode { tag: Option<String>, content: String },
    OrderedList { start_index: usize, items: Vec<Document> },
    UnorderedList { items: Vec<Document> },
    Paragraph(Text),
    HorizontalRule,
}

#[derive(PartialEq, Eq, Debug)]
pub enum Inline {
    LineBreak,
    Chunk(String),
    Emphasis(Text),
    MoreEmphasis(Text),
    Code(String),
    Link { text: Option<Text>, link: Option<String>, title: Option<String>, id: Option<String> },
    Image { alt: Text, link: Option<String>, title: Option<String>, id: Option<String> },
}

#[derive(PartialEq, Eq, Debug, Clone, Copy, Structural)]
pub enum HeadingStyle {
    Atx,
    Setex,
}

/// Mathematical model of an inline token. Only plain-text chunks are produced
/// by the tokenizer; every other variant is carried as the value it is.
pub enum InlineModel {
    Chunk(Seq<char>),
    Other(Inline),
}

pub struct InlineTokenModel {
    pub line_start: nat,
    pub position: nat,
    pub token: InlineModel,
}

/// Mathematical model of a block. Headings, quotes and code blocks are the
/// constructs the tokenizer produces; the reserved variants are carried as
/// the values they are.
pub enum BlockModel {
    Heading { level: nat, content: Seq<InlineTokenModel>, style: HeadingStyle },
    BlockQuote(Seq<BlockTokenModel>),
    BlockCode { tag: Option<Seq<char>>, content: Seq<char> },
    Other(Block),
}

pub struct BlockTokenModel {
    pub line_start: nat,
    pub token: BlockModel,
}

pub open spec fn inline_view(t: Inline) -> InlineModel {
    match t {
        Inline::Chunk(s) => InlineModel::Chunk(s@),
        _ => InlineModel::Other(t),
    }
}

pub open spec fn inline_token_view(t: InlineToken) -> InlineTokenModel {
    InlineTokenModel {
        line_start: t.line_start as nat,
        position: t.position as nat,
        token: inline_view(t.token),
    }
}

pub open spec fn text_view(t: Seq<InlineToken>) -> Seq<InlineTokenModel> {
    t.map_values(|x: InlineToken| inline_token_view(x))
}

pub open spec fn opt_string_view(s: Option<String>) -> Option<Seq<char>> {
    match s {
        Some(x) => Some(x@),
        None => None,
    }
}

pub open spec fn block_view(b: Block) -> BlockModel
    decreases b,
{
    match b {
        Block::Heading { level, content, style } => BlockModel::Heading {
            level: level as nat,
            content: text_view(content@),
            style,
        },
        Block::BlockQuote(d) => BlockModel::BlockQuote(
            Seq::new(
                d.len() as nat,
                |i: int|
                    if 0 <= i < d.len() {
                        BlockTokenModel {
                            line_start: d[i].line_start as nat,
                            token: block_view(d[i].token),
                        }
                    } else {
                        BlockTokenModel { line_start: 0, token: BlockModel::Other(Block::HorizontalRule) }
                    },
            ),
        ),
        Block::BlockCode { tag, content } => BlockModel::BlockCode {
            tag: opt_string_view(tag),
            content: content@,
        },
        _ => BlockModel::Other(b),
    }
}

pub open spec fn block_token_view(t: BlockToken) -> BlockTokenModel {
    BlockTokenModel { line_start: t.line_start as nat, token: block_view(t.token) }
}

/// The model of a document.
pub open spec fn doc_view(d: Seq<BlockToken>) -> Seq<BlockTokenModel> {
    d.map_values(|t: BlockToken| block_token_view(t))
}

pub proof fn lemma_quote_view(d: Vec<BlockToken>)
    ensures
        block_view(Block::BlockQuote(d)) == BlockModel::BlockQuote(doc_view(d@)),
{
    let b = Block::BlockQuote(d);
    let m = block_view(b);
    assert(m is BlockQuote);
    let inner = m->BlockQuote_0;
    assert(inner.len() == d@.len());
    assert forall|i: int| 0 <= i < d@.len() implies #[trigger] inner[i] == doc_view(d@)[i] by {
        assert(inner[i] == BlockTokenModel { line_start: d[i].line_start as nat, token: block_view(d[i].token) });
    }
    assert(inner =~= doc_view(d@));
}

} // verus!
