//! The document tree that the parser builds and the renderer prints, and its
//! mathematical view.
use vstd::prelude::*;
use crate::lexer::Flavor;

verus! {

/// Inline content of a line.
#[derive(PartialEq, Debug)]
pub enum InlineNode {
    Text(String),
    Formatted { flavor: Flavor, content: Vec<InlineNode> },
    InlineMath(String),
    Link { url: String, text: Vec<InlineNode> },
}

/// One entry of a list, at its nesting level.
#[derive(PartialEq, Debug)]
pub struct ListItem {
    pub level: usize,
    pub content: Vec<InlineNode>,
}

#[derive(PartialEq, Eq, Structural, Clone, Copy, Debug)]
pub enum RowType {
    Header,
    Body,
    Footer,
    Section,
}

#[derive(PartialEq, Eq, Structural, Clone, Copy, Debug)]
pub enum CellAlign {
    Left,
    Center,
    Right,
}

#[derive(PartialEq, Debug)]
pub struct LatticeCell {
    pub content: Vec<InlineNode>,
    pub colspan: usize,
    pub rowspan: usize,
    pub is_merged: bool,
    pub is_colspan_marker: bool,
    pub is_rowspan_marker: bool,
    pub align: CellAlign,
}

#[derive(PartialEq, Debug)]
pub struct LatticeRow {
    pub row_type: RowType,
    pub cells: Vec<LatticeCell>,
}

#[derive(PartialEq, Debug)]
pub enum BlockNode {
    Heading { level: usize, content: Vec<InlineNode> },
    Paragraph(Vec<InlineNode>),
    Metadata { key: String, value: String },
    Image { path: String, caption: Option<String> },
    CodeBlock { language: Option<String>, code: String },
    MathBlock(String),
    List { ordered: bool, items: Vec<ListItem> },
    Lattice(Vec<LatticeRow>),
    Conditional(Vec<BlockNode>),
}

#[derive(PartialEq, Debug)]
pub struct Document {
    pub blocks: Vec<BlockNode>,
}

/// Inline content as a mathematical value.
pub enum Inline {
    Text(Seq<char>),
    Formatted(Flavor, Seq<Inline>),
    Math(Seq<char>),
    Link(Seq<char>, Seq<Inline>),
}

pub struct Item {
    pub level: nat,
    pub content: Seq<Inline>,
}

pub struct Cell {
    pub content: Seq<Inline>,
    pub colspan: nat,
    pub rowspan: nat,
    pub is_merged: bool,
    pub is_colspan_marker: bool,
    pub is_rowspan_marker: bool,
    pub align: CellAlign,
}

pub struct Row {
    pub row_type: RowType,
    pub cells: Seq<Cell>,
}

/// A block as a mathematical value.
pub enum Block {
    Heading(nat, Seq<Inline>),
    Paragraph(Seq<Inline>),
    Metadata(Seq<char>, Seq<char>),
    Image(Seq<char>, Option<Seq<char>>),
    CodeBlock(Option<Seq<char>>, Seq<char>),
    MathBlock(Seq<char>),
    List(bool, Seq<Item>),
    Lattice(Seq<Row>),
    Conditional(Seq<Block>),
}

pub open spec fn inline_view(n: InlineNode) -> Inline
    decreases n,
{
    match n {
        InlineNode::Text(t) => Inline::Text(t@),
        InlineNode::Formatted { flavor, content } => Inline::Formatted(
            flavor,
            inlines_view(content@),
        ),
        InlineNode::InlineMath(m) => Inline::Math(m@),
        InlineNode::Link { url, text } => Inline::Link(url@, inlines_view(text@)),
    }
}

pub open spec fn inlines_view(s: Seq<InlineNode>) -> Seq<Inline>
    decreases s,
{
    if s.len() == 0 {
        seq![]
    } else {
        inlines_view(s.drop_last()).push(inline_view(s.last()))
    }
}

impl View for InlineNode {
    type V = Inline;

    open spec fn view(&self) -> Inline {
        inline_view(*self)
    }
}

pub open spec fn opt_str(o: Option<String>) -> Option<Seq<char>> {
    match o {
        Some(s) => Some(s@),
        None => None,
    }
}

pub open spec fn item_view(i: ListItem) -> Item {
    Item { level: i.level as nat, content: inlines_view(i.content@) }
}

pub open spec fn items_view(s: Seq<ListItem>) -> Seq<Item> {
    s.map_values(|i: ListItem| item_view(i))
}

pub open spec fn cell_view(c: LatticeCell) -> Cell {
    Cell {
        content: inlines_view(c.content@),
        colspan: c.colspan as nat,
        rowspan: c.rowspan as nat,
        is_merged: c.is_merged,
        is_colspan_marker: c.is_colspan_marker,
        is_rowspan_marker: c.is_rowspan_marker,
        align: c.align,
    }
}

pub open spec fn row_view(r: LatticeRow) -> Row {
    Row { row_type: r.row_type, cells: r.cells@.map_values(|c: LatticeCell| cell_view(c)) }
}

pub open spec fn rows_view(s: Seq<LatticeRow>) -> Seq<Row> {
    s.map_values(|r: LatticeRow| row_view(r))
}

pub open spec fn block_view(b: BlockNode) -> Block
    decreases b,
{
    match b {
        BlockNode::Heading { level, content } => Block::Heading(
            level as nat,
            inlines_view(content@),
        ),
        BlockNode::Paragraph(content) => Block::Paragraph(inlines_view(content@)),
        BlockNode::Metadata { key, value } => Block::Metadata(key@, value@),
        BlockNode::Image { path, caption } => Block::Image(path@, opt_str(caption)),
        BlockNode::CodeBlock { language, code } => Block::CodeBlock(opt_str(language), code@),
        BlockNode::MathBlock(m) => Block::MathBlock(m@),
        BlockNode::List { ordered, items } => Block::List(ordered, items_view(items@)),
        BlockNode::Lattice(rows) => Block::Lattice(rows_view(rows@)),
        BlockNode::Conditional(blocks) => Block::Conditional(blocks_view(blocks@)),
    }
}

pub open spec fn blocks_view(s: Seq<BlockNode>) -> Seq<Block>
    decreases s,
{
    if s.len() == 0 {
        seq![]
    } else {
        blocks_view(s.drop_last()).push(block_view(s.last()))
    }
}

impl View for BlockNode {
    type V = Block;

    open spec fn view(&self) -> Block {
        block_view(*self)
    }
}

impl View for Document {
    type V = Seq<Block>;

    open spec fn view(&self) -> Seq<Block> {
        blocks_view(self.blocks@)
    }
}

pub proof fn lemma_inlines_view(s: Seq<InlineNode>)
    ensures
        inlines_view(s).len() == s.len(),
        forall|i: int| 0 <= i < s.len() ==> #[trigger] inlines_view(s)[i] == inline_view(s[i]),
    decreases s.len(),
{
    if s.len() > 0 {
        lemma_inlines_view(s.drop_last());
    }
}

pub proof fn lemma_inlines_view_concat(a: Seq<InlineNode>, b: Seq<InlineNode>)
    ensures
        inlines_view(a + b) == inlines_view(a) + inlines_view(b),
    decreases b.len(),
{
    if b.len() == 0 {
        assert(a + b =~= a);
        assert(inlines_view(a) + inlines_view(b) =~= inlines_view(a));
    } else {
        lemma_inlines_view_concat(a, b.drop_last());
        assert((a + b).drop_last() =~= a + b.drop_last());
        assert((a + b).last() == b.last());
        assert(inlines_view(a) + inlines_view(b) =~= (inlines_view(a) + inlines_view(
            b.drop_last(),
        )).push(inline_view(b.last())));
    }
}

pub proof fn lemma_inlines_view_push(a: Seq<InlineNode>, n: InlineNode)
    ensures
        inlines_view(a.push(n)) == inlines_view(a).push(inline_view(n)),
{
    assert(a.push(n).drop_last() =~= a);
    assert(a.push(n).last() == n);
}

pub proof fn lemma_blocks_view_push(a: Seq<BlockNode>, n: BlockNode)
    ensures
        blocks_view(a.push(n)) == blocks_view(a).push(block_view(n)),
{
    assert(a.push(n).drop_last() =~= a);
    assert(a.push(n).last() == n);
}

pub proof fn lemma_blocks_view(s: Seq<BlockNode>)
    ensures
        blocks_view(s).len() == s.len(),
        forall|i: int| 0 <= i < s.len() ==> #[trigger] blocks_view(s)[i] == block_view(s[i]),
    decreases s.len(),
{
    if s.len() > 0 {
        lemma_blocks_view(s.drop_last());
    }
}

/// A deep copy of an inline node.
pub fn copy_inline(n: &InlineNode) -> (r: InlineNode)
    ensures
        r@ == n@,
    decreases n,
{
    match n {
        InlineNode::Text(t) => InlineNode::Text(t.clone()),
        InlineNode::Formatted { flavor, content } => InlineNode::Formatted {
            flavor: *flavor,
            content: copy_inlines(content),
        },
        InlineNode::InlineMath(m) => InlineNode::InlineMath(m.clone()),
        InlineNode::Link { url, text } => InlineNode::Link {
            url: url.clone(),
            text: copy_inlines(text),
        },
    }
}

/// A deep copy of inline content.
pub fn copy_inlines(ns: &Vec<InlineNode>) -> (r: Vec<InlineNode>)
    ensures
        inlines_view(r@) == inlines_view(ns@),
    decreases ns,
{
    let mut r: Vec<InlineNode> = Vec::new();
    let mut i: usize = 0;
    while i < ns.len()
        invariant
            i <= ns.len(),
            inlines_view(r@) == inlines_view(ns@.take(i as int)),
        decreases ns.len() - i,
    {
        let c = copy_inline(&ns[i]);
        let ghost r0 = r@;
        r.push(c);
        proof {
            assert(r@.drop_last() =~= r0);
            assert(ns@.take(i + 1).drop_last() =~= ns@.take(i as int));
        }
        i = i + 1;
    }
    proof {
        assert(ns@.take(ns@.len() as int) =~= ns@);
    }
    r
}

/// A deep copy of a lattice cell.
pub fn copy_cell(c: &LatticeCell) -> (r: LatticeCell)
    ensures
        cell_view(r) == cell_view(*c),
{
    LatticeCell {
        content: copy_inlines(&c.content),
        colspan: c.colspan,
        rowspan: c.rowspan,
        is_merged: c.is_merged,
        is_colspan_marker: c.is_colspan_marker,
        is_rowspan_marker: c.is_rowspan_marker,
        align: c.align,
    }
}

/// A deep copy of a lattice row.
pub fn copy_row(row: &LatticeRow) -> (r: LatticeRow)
    ensures
        row_view(r) == row_view(*row),
{
    let mut cells: Vec<LatticeCell> = Vec::new();
    let mut i: usize = 0;
    while i < row.cells.len()
        invariant
            i <= row.cells.len(),
            cells@.len() == i,
            forall|j: int| 0 <= j < i ==> #[trigger] cell_view(cells@[j]) == cell_view(row.cells@[j]),
        decreases row.cells.len() - i,
    {
        let c = copy_cell(&row.cells[i]);
        cells.push(c);
        i = i + 1;
    }
    let r = LatticeRow { row_type: row.row_type, cells };
    proof {
        assert(row_view(r).cells =~= row_view(*row).cells);
    }
    r
}

/// Every cell of the lattices of a block spans one column and one row.
pub open spec fn block_unit(b: Block) -> bool
    decreases b,
{
    match b {
        Block::Lattice(rows) => forall|r: int, c: int|
            0 <= r < rows.len() && 0 <= c < rows[r].cells.len() ==> #[trigger] rows[r].cells[c].colspan
                == 1 && rows[r].cells[c].rowspan == 1,
        Block::Conditional(bs) => blocks_unit(bs),
        _ => true,
    }
}

pub open spec fn blocks_unit(bs: Seq<Block>) -> bool
    decreases bs,
{
    if bs.len() == 0 {
        true
    } else {
        blocks_unit(bs.drop_last()) && block_unit(bs.last())
    }
}

pub proof fn lemma_blocks_unit(bs: Seq<Block>)
    ensures
        blocks_unit(bs) <==> forall|i: int| 0 <= i < bs.len() ==> #[trigger] block_unit(bs[i]),
    decreases bs.len(),
{
    if bs.len() > 0 {
        lemma_blocks_unit(bs.drop_last());
        if forall|i: int| 0 <= i < bs.len() ==> #[trigger] block_unit(bs[i]) {
            assert forall|i: int| 0 <= i < bs.drop_last().len() implies #[trigger] block_unit(
                bs.drop_last()[i],
            ) by {
                assert(bs.drop_last()[i] == bs[i]);
            }
            assert(block_unit(bs[bs.len() - 1]));
        }
        if blocks_unit(bs) {
            assert forall|i: int| 0 <= i < bs.len() implies #[trigger] block_unit(bs[i]) by {
                if i < bs.len() - 1 {
                    assert(bs.drop_last()[i] == bs[i]);
                    assert(block_unit(bs.drop_last()[i]));
                } else {
                    assert(bs[i] == bs.last());
                }
            }
        }
    }
}

/// The spans of a lattice's cells can grow by what the markers of the
/// lattice add without leaving `usize`.
pub open spec fn lattice_fits(rows: Seq<LatticeRow>) -> bool {
    &&& forall|r: int, c: int|
        0 <= r < rows.len() && 0 <= c < rows[r].cells@.len() ==> (#[trigger] rows[r].cells@[c]).colspan
            + rows[r].cells@.len() <= usize::MAX + 1
    &&& forall|r: int, c: int|
        0 <= r < rows.len() && 0 <= c < rows[r].cells@.len() ==> (#[trigger] rows[r].cells@[c]).rowspan
            + rows.len() <= usize::MAX + 1
}

/// The lattices of a block, nested ones included, fit (`lattice_fits`).
pub open spec fn block_fits(b: BlockNode) -> bool
    decreases b,
{
    match b {
        BlockNode::Lattice(rows) => lattice_fits(rows@),
        BlockNode::Conditional(bs) => blocks_fit(bs@),
        _ => true,
    }
}

pub open spec fn blocks_fit(bs: Seq<BlockNode>) -> bool
    decreases bs,
{
    if bs.len() == 0 {
        true
    } else {
        blocks_fit(bs.drop_last()) && block_fits(bs.last())
    }
}

pub proof fn lemma_blocks_fit(bs: Seq<BlockNode>)
    ensures
        blocks_fit(bs) <==> forall|i: int| 0 <= i < bs.len() ==> #[trigger] block_fits(bs[i]),
    decreases bs.len(),
{
    if bs.len() > 0 {
        lemma_blocks_fit(bs.drop_last());
        if forall|i: int| 0 <= i < bs.len() ==> #[trigger] block_fits(bs[i]) {
            assert forall|i: int| 0 <= i < bs.drop_last().len() implies #[trigger] block_fits(
                bs.drop_last()[i],
            ) by {
                assert(bs.drop_last()[i] == bs[i]);
            }
            assert(block_fits(bs[bs.len() - 1]));
        }
        if blocks_fit(bs) {
            assert forall|i: int| 0 <= i < bs.len() implies #[trigger] block_fits(bs[i]) by {
                if i < bs.len() - 1 {
                    assert(bs.drop_last()[i] == bs[i]);
                    assert(block_fits(bs.drop_last()[i]));
                } else {
                    assert(bs[i] == bs.last());
                }
            }
        }
    }
}

/// Cells that span one column and one row fit.
pub proof fn lemma_unit_fits(b: BlockNode)
    requires
        block_unit(block_view(b)),
    ensures
        block_fits(b),
    decreases b,
{
    match b {
        BlockNode::Lattice(rows) => {
            assert(block_view(b) == Block::Lattice(rows_view(rows@)));
            assert forall|r: int, c: int|
                0 <= r < rows@.len() && 0 <= c < rows@[r].cells@.len() implies (#[trigger] rows@[r].cells@[c]).colspan
                + rows@[r].cells@.len() <= usize::MAX + 1 && rows@[r].cells@[c].rowspan + rows@.len()
                <= usize::MAX + 1 by {
                broadcast use vstd::std_specs::vec::axiom_spec_len;

                let rv = rows_view(rows@);
                assert(rv[r] == row_view(rows@[r]));
                assert(rv[r].cells[c] == cell_view(rows@[r].cells@[c]));
                assert(rows@[r].cells.len() == rows@[r].cells@.len());
                assert(rows.len() == rows@.len());
                assert(rv[r].cells[c].colspan == 1);
                assert(rows@[r].cells@[c].colspan == 1);
                assert(rows@[r].cells@.len() <= usize::MAX);
                assert(rows@.len() <= usize::MAX);
            }
        },
        BlockNode::Conditional(bs) => {
            assert(block_view(b) == Block::Conditional(blocks_view(bs@)));
            lemma_blocks_view(bs@);
            lemma_blocks_unit(blocks_view(bs@));
            assert forall|i: int| 0 <= i < bs@.len() implies #[trigger] block_fits(bs@[i]) by {
                assert(blocks_view(bs@)[i] == block_view(bs@[i]));
                assert(block_unit(blocks_view(bs@)[i]));
                lemma_unit_fits(bs@[i]);
            }
            lemma_blocks_fit(bs@);
        },
        _ => {},
    }
}

pub proof fn lemma_units_fit(bs: Seq<BlockNode>)
    requires
        blocks_unit(blocks_view(bs)),
    ensures
        blocks_fit(bs),
{
    lemma_blocks_view(bs);
    lemma_blocks_unit(blocks_view(bs));
    assert forall|i: int| 0 <= i < bs.len() implies #[trigger] block_fits(bs[i]) by {
        assert(blocks_view(bs)[i] == block_view(bs[i]));
        assert(block_unit(blocks_view(bs)[i]));
        lemma_unit_fits(bs[i]);
    }
    lemma_blocks_fit(bs);
}

} // verus!
