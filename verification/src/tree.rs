//! The rich text of a text box: blocks made of inline chunks.

use vstd::prelude::*;

verus! {

/// One inline run of styled text.
#[derive(Debug, PartialEq, Eq)]
pub enum TextChunk {
    Link { title: Vec<TextChunk>, url: String },
    Code { text: String },
    Math { text: String },
    Bold { chunks: Vec<TextChunk> },
    Italic { chunks: Vec<TextChunk> },
    Underline { chunks: Vec<TextChunk> },
    Strikethrough { chunks: Vec<TextChunk> },
    Text(String),
    NewLine,
}

/// One structural unit of rich text.
#[derive(Debug, PartialEq, Eq)]
pub enum TextBlock {
    Paragraph { chunks: Vec<TextChunk> },
    Header { level: u8, chunks: Vec<TextChunk> },
    CodeBlock { text: String },
    MathBlock { text: String },
    UnorderedList { items: Vec<TextBlock> },
    OrderedList { items: Vec<TextBlock> },
    BlockQuote { inner: Vec<TextBlock> },
    Image { url: String, alt: String },
    VerticalSpace,
    HorizontalRule,
}

/// The four inline styles.
#[derive(Debug, Clone, Copy, PartialEq, Eq)]
pub enum Style {
    Bold,
    Underline,
    Strikethrough,
    Italic,
}

/// What a `TextChunk` stands for.
pub enum Chunk {
    Link { title: Seq<Chunk>, url: Seq<char> },
    Code { text: Seq<char> },
    Math { text: Seq<char> },
    Styled { style: Style, chunks: Seq<Chunk> },
    Text(Seq<char>),
    NewLine,
}

/// What a `TextBlock` stands for.
pub enum Block {
    Paragraph { chunks: Seq<Chunk> },
    Header { level: int, chunks: Seq<Chunk> },
    CodeBlock { text: Seq<char> },
    MathBlock { text: Seq<char> },
    UnorderedList { items: Seq<Block> },
    OrderedList { items: Seq<Block> },
    BlockQuote { inner: Seq<Block> },
    Image { url: Seq<char>, alt: Seq<char> },
    VerticalSpace,
    HorizontalRule,
}

/// The chunk that `chunk` stands for.
pub open spec fn chunk_view(chunk: TextChunk) -> Chunk
    decreases chunk,
{
    match chunk {
        TextChunk::Link { title, url } => Chunk::Link { title: chunks_view(title@), url: url@ },
        TextChunk::Code { text } => Chunk::Code { text: text@ },
        TextChunk::Math { text } => Chunk::Math { text: text@ },
        TextChunk::Bold { chunks } => Chunk::Styled {
            style: Style::Bold,
            chunks: chunks_view(chunks@),
        },
        TextChunk::Italic { chunks } => Chunk::Styled {
            style: Style::Italic,
            chunks: chunks_view(chunks@),
        },
        TextChunk::Underline { chunks } => Chunk::Styled {
            style: Style::Underline,
            chunks: chunks_view(chunks@),
        },
        TextChunk::Strikethrough { chunks } => Chunk::Styled {
            style: Style::Strikethrough,
            chunks: chunks_view(chunks@),
        },
        TextChunk::Text(text) => Chunk::Text(text@),
        TextChunk::NewLine => Chunk::NewLine,
    }
}

/// The chunks that `chunks` stand for, in order.
pub open spec fn chunks_view(chunks: Seq<TextChunk>) -> Seq<Chunk>
    decreases chunks,
{
    Seq::new(
        chunks.len(),
        |i: int|
            if 0 <= i < chunks.len() {
                chunk_view(chunks[i])
            } else {
                Chunk::NewLine
            },
    )
}

/// The block that `block` stands for.
pub open spec fn block_view(block: TextBlock) -> Block
    decreases block,
{
    match block {
        TextBlock::Paragraph { chunks } => Block::Paragraph { chunks: chunks_view(chunks@) },
        TextBlock::Header { level, chunks } => Block::Header {
            level: level as int,
            chunks: chunks_view(chunks@),
        },
        TextBlock::CodeBlock { text } => Block::CodeBlock { text: text@ },
        TextBlock::MathBlock { text } => Block::MathBlock { text: text@ },
        TextBlock::UnorderedList { items } => Block::UnorderedList { items: blocks_view(items@) },
        TextBlock::OrderedList { items } => Block::OrderedList { items: blocks_view(items@) },
        TextBlock::BlockQuote { inner } => Block::BlockQuote { inner: blocks_view(inner@) },
        TextBlock::Image { url, alt } => Block::Image { url: url@, alt: alt@ },
        TextBlock::VerticalSpace => Block::VerticalSpace,
        TextBlock::HorizontalRule => Block::HorizontalRule,
    }
}

/// The blocks that `blocks` stand for, in order.
pub open spec fn blocks_view(blocks: Seq<TextBlock>) -> Seq<Block>
    decreases blocks,
{
    Seq::new(
        blocks.len(),
        |i: int|
            if 0 <= i < blocks.len() {
                block_view(blocks[i])
            } else {
                Block::VerticalSpace
            },
    )
}

impl View for TextChunk {
    type V = Chunk;

    open spec fn view(&self) -> Chunk {
        chunk_view(*self)
    }
}

impl View for TextBlock {
    type V = Block;

    open spec fn view(&self) -> Block {
        block_view(*self)
    }
}

/// Appending chunk lists appends what they stand for.
pub proof fn lemma_chunks_view_add(left: Seq<TextChunk>, right: Seq<TextChunk>)
    ensures
        chunks_view(left + right) == chunks_view(left) + chunks_view(right),
{
    assert(chunks_view(left + right) =~= chunks_view(left) + chunks_view(right));
}

/// Appending one chunk appends what it stands for.
pub proof fn lemma_chunks_view_push(chunks: Seq<TextChunk>, last: TextChunk)
    ensures
        chunks_view(chunks.push(last)) == chunks_view(chunks).push(chunk_view(last)),
{
    assert(chunks_view(chunks.push(last)) =~= chunks_view(chunks).push(chunk_view(last)));
}

/// Appending one block appends what it stands for.
pub proof fn lemma_blocks_view_push(blocks: Seq<TextBlock>, last: TextBlock)
    ensures
        blocks_view(blocks.push(last)) == blocks_view(blocks).push(block_view(last)),
{
    assert(blocks_view(blocks.push(last)) =~= blocks_view(blocks).push(block_view(last)));
}

} // verus!
