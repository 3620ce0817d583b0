//! What the parser builds, stated over cursors into the source: the inline
//! grammar, raw lines, lists, lattices, code blocks, conditionals and the
//! whole document.
use vstd::prelude::*;
use crate::ast::{Inline, Item, Cell, Row, Block, CellAlign, RowType, block_unit, blocks_unit, lemma_blocks_unit};
use crate::defines::eval_cond;
use crate::lexer::{Cursor, Flavor, Tok, lex, lemma_lex, start, tok_raw, src_line, lemma_src_line, skip_comments, lemma_skip_comments};
use crate::parser::{lemma_nodes_text_concat, lemma_nodes_text_one};
use crate::text::{trim, ltrim, word_end, starts_with, find_char, split_ws, join, byte_len, drop_bytes, replace_first};

verus! {

pub type Defs = Map<Seq<char>, Seq<char>>;

/// The next token at a cursor.
pub open spec fn peek(c: Cursor) -> Option<Tok> {
    lex(c).0
}

/// The cursor after the next token.
pub open spec fn adv(c: Cursor) -> Cursor {
    lex(c).1
}

/// A cursor that lies in the same source as `c`, not before `lo` (`nodes_to_string`'s
/// counterpart `nodes_text` is below).
pub open spec fn follows(r: Cursor, c: Cursor, lo: int) -> bool {
    r.src == c.src && lo <= r.pos <= c.src.len()
}

/// The plain text of inline content, as `nodes_to_string` builds it.
pub open spec fn nodes_text(ns: Seq<Inline>) -> Seq<char>
    decreases ns,
{
    if ns.len() == 0 {
        seq![]
    } else {
        nodes_text(ns.drop_last()) + node_text(ns.last())
    }
}

pub open spec fn node_text(n: Inline) -> Seq<char>
    decreases n,
{
    match n {
        Inline::Text(t) => t,
        Inline::Formatted(_, c) => nodes_text(c),
        Inline::Math(m) => "math "@ + m,
        Inline::Link(_, t) => nodes_text(t),
    }
}

/// The node that a text-like token stands for in inline content.
pub open spec fn plain_node(t: Tok) -> Inline {
    match t {
        Tok::Text(s) => Inline::Text(s),
        Tok::Space => Inline::Text(" "@),
        _ => Inline::Text(".."@),
    }
}

/// The line that the tokens up to the next line break spell out again
/// (`collect_raw_line_content`); the line break is consumed.
pub open spec fn raw_line(c: Cursor) -> (Seq<char>, Cursor)
    decreases c.left(),
{
    if !c.wf() {
        (seq![], c)
    } else {
        proof {
            lemma_lex(c);
        }
        match peek(c) {
            None => (seq![], c),
            Some(Tok::LineBreak) => (seq![], adv(c)),
            Some(t) => {
                let r = raw_line(adv(c));
                (tok_raw(t) + r.0, r.1)
            },
        }
    }
}

/// Inline content up to the end of the line (`parse_inline_until_line_end`);
/// inline content left open ends with the line too.
pub open spec fn inl_line(c: Cursor, d: Defs) -> (Seq<Inline>, Cursor)
    decreases c.left(), 0nat,
{
    if !c.wf() {
        (seq![], c)
    } else {
        proof {
            lemma_lex(c);
        }
        match peek(c) {
            None => (seq![], c),
            Some(Tok::LineBreak) => (seq![], adv(c)),
            Some(Tok::Quark { flavor, count: _ }) => {
                let q = inl_quark(adv(c), flavor, d);
                if follows(q.1, c, adv(c).pos) && !q.2 {
                    let r = inl_line(q.1, d);
                    (q.0 + r.0, r.1)
                } else {
                    (q.0, q.1)
                }
            },
            Some(t) => {
                let r = inl_line(adv(c), d);
                (seq![plain_node(t)] + r.0, r.1)
            },
        }
    }
}

/// Inline content up to the next annihilator or line break, either of which
/// is consumed (`parse_inline_until_annihilator`); the flag says whether a
/// line break ended it, here or in nested content, which ends the line too.
pub open spec fn inl_ann(c: Cursor, d: Defs) -> (Seq<Inline>, Cursor, bool)
    decreases c.left(), 1nat,
{
    if !c.wf() {
        (seq![], c, false)
    } else {
        proof {
            lemma_lex(c);
        }
        match peek(c) {
            None => (seq![], c, false),
            Some(Tok::LineBreak) => (seq![], adv(c), true),
            Some(Tok::Annihilator) => (seq![], adv(c), false),
            Some(Tok::Quark { flavor, count: _ }) => {
                let q = inl_quark(adv(c), flavor, d);
                if follows(q.1, c, adv(c).pos) && !q.2 {
                    let r = inl_ann(q.1, d);
                    (q.0 + r.0, r.1, r.2)
                } else {
                    q
                }
            },
            Some(t) => {
                let r = inl_ann(adv(c), d);
                (seq![plain_node(t)] + r.0, r.1, r.2)
            },
        }
    }
}

/// Text nodes without the first `k` bytes of their text (the condition of an
/// inline conditional and its `|`); other nodes are kept once the prefix is gone.
pub open spec fn strip_cond(ns: Seq<Inline>, k: int) -> Seq<Inline>
    decreases ns.len(),
{
    if ns.len() == 0 {
        seq![]
    } else {
        match ns[0] {
            Inline::Text(t) => if k > 0 {
                if byte_len(t) >= k {
                    let rest = drop_bytes(t, k);
                    (if rest.len() > 0 {
                        seq![Inline::Text(rest)]
                    } else {
                        seq![]
                    }) + strip_cond(ns.drop_first(), 0)
                } else {
                    strip_cond(ns.drop_first(), k - byte_len(t))
                }
            } else {
                seq![ns[0]] + strip_cond(ns.drop_first(), 0)
            },
            _ => (if k == 0 {
                seq![ns[0]]
            } else {
                seq![]
            }) + strip_cond(ns.drop_first(), k),
        }
    }
}

/// The nodes that an inline quark of `flavor` yields; `c` is just after the
/// quark. The flag says whether its content ran to the end of the line.
pub open spec fn inl_quark(c: Cursor, flavor: Flavor, d: Defs) -> (Seq<Inline>, Cursor, bool)
    decreases c.left(), 2nat,
{
    let a = inl_ann(c, d);
    let inner = a.0;
    let raw = nodes_text(inner);
    let nodes = if flavor == Flavor::Strange {
        if starts_with(raw, "math "@) {
            seq![Inline::Math(raw.skip(5))]
        } else {
            seq![Inline::Formatted(flavor, inner)]
        }
    } else if flavor == Flavor::Bottom {
        match find_char(raw, '|') {
            Some(p) => if eval_cond(d, raw.take(p)) {
                strip_cond(inner, (byte_len(raw.take(p)) + 1) as int)
            } else {
                seq![]
            },
            None => seq![],
        }
    } else if flavor == Flavor::Lattice {
        match find_char(raw, '|') {
            Some(p) => {
                let tc = raw.skip(p + 1);
                let text = if tc.len() <= c.left() {
                    inl_line(start(tc), d).0
                } else {
                    seq![]
                };
                seq![Inline::Link(trim(raw.take(p)), text)]
            },
            None => seq![Inline::Link(trim(raw), seq![Inline::Text(raw)])],
        }
    } else {
        seq![Inline::Formatted(flavor, inner)]
    };
    (nodes, a.1, a.2)
}

/// `s` cut at every `sep` (`str::split`).
pub open spec fn split_on(s: Seq<char>, sep: char) -> Seq<Seq<char>>
    decreases s.len(),
{
    match find_char(s, sep) {
        Some(i) => if 0 <= i < s.len() {
            seq![s.take(i)] + split_on(s.skip(i + 1), sep)
        } else {
            seq![s]
        },
        None => seq![s],
    }
}

/// One cell of a lattice row: span markers, alignment prefix, inline content.
pub open spec fn cell_of(p: Seq<char>) -> Cell {
    let ct = trim(p);
    let align = if starts_with(ct, ".^ "@) {
        CellAlign::Center
    } else if starts_with(ct, ".> "@) {
        CellAlign::Right
    } else {
        CellAlign::Left
    };
    let src = if align == CellAlign::Left {
        p
    } else {
        ct.skip(3)
    };
    Cell {
        content: inl_line(start(src), Map::empty()).0,
        colspan: 1,
        rowspan: 1,
        is_merged: false,
        is_colspan_marker: ct == ">"@,
        is_rowspan_marker: ct == "_"@,
        align,
    }
}

/// A lattice row from its raw line; blank lines give no row.
pub open spec fn lattice_row(raw: Seq<char>) -> Option<Row> {
    let t = trim(raw);
    if t.len() == 0 {
        None
    } else {
        let row_type = if starts_with(t, "h:"@) {
            RowType::Header
        } else if starts_with(t, "f:"@) {
            RowType::Footer
        } else if starts_with(t, "s:"@) {
            RowType::Section
        } else {
            RowType::Body
        };
        let content = if row_type == RowType::Body {
            t
        } else {
            t.skip(2)
        };
        Some(Row { row_type, cells: split_on(content, ';').map_values(|p: Seq<char>| cell_of(p)) })
    }
}

pub open spec fn opt_seq<A>(o: Option<A>) -> Seq<A> {
    match o {
        Some(a) => seq![a],
        None => seq![],
    }
}

pub proof fn lemma_raw_line(c: Cursor)
    requires
        c.wf(),
    ensures
        follows(raw_line(c).1, c, c.pos),
        peek(c) is Some ==> raw_line(c).1.pos > c.pos,
        raw_line(c).1.wf(),
    decreases c.left(),
{
    lemma_lex(c);
    match peek(c) {
        None => {},
        Some(Tok::LineBreak) => {},
        Some(t) => {
            lemma_raw_line(adv(c));
        },
    }
}

/// The rows of a lattice, up to the annihilator line that closes it.
pub open spec fn lattice_rows(c: Cursor) -> (Seq<Row>, Cursor)
    decreases c.left(),
{
    if !c.wf() {
        (seq![], c)
    } else {
        proof {
            lemma_lex(c);
            lemma_raw_line(c);
        }
        match peek(c) {
            None => (seq![], c),
            Some(Tok::Annihilator) => (seq![], adv(c)),
            Some(_) => {
                let r = raw_line(c);
                let rest = lattice_rows(r.1);
                (opt_seq(lattice_row(r.0)) + rest.0, rest.1)
            },
        }
    }
}

/// The lines of a code block as written in the source, up to the line that
/// starts with an annihilator; a leading `\..` stands for `..`. Inside a
/// code block nothing is lexed: blanks stay as they are and no line is a
/// comment.
pub open spec fn code_lines(c: Cursor) -> (Seq<Seq<char>>, Cursor)
    decreases c.left(),
{
    if !c.wf() || c.pos >= c.src.len() {
        (seq![], c)
    } else {
        proof {
            lemma_src_line(c);
        }
        let r = src_line(c);
        let t = trim(r.0);
        if starts_with(t, ".."@) {
            (seq![], r.1)
        } else {
            let line = if starts_with(t, "\\.."@) {
                replace_first(r.0, "\\.."@, ".."@)
            } else {
                r.0
            };
            let rest = code_lines(r.1);
            (seq![line] + rest.0, rest.1)
        }
    }
}

/// A false conditional skipped up to its closing annihilator, nested
/// lattices, code blocks and conditionals opening further levels.
pub open spec fn skip_cond(c: Cursor, depth: nat) -> Cursor
    decreases c.left(),
{
    if !c.wf() || depth == 0 {
        c
    } else {
        proof {
            lemma_lex(c);
            lemma_raw_line(c);
        }
        match peek(c) {
            None => c,
            Some(Tok::Annihilator) => skip_cond(adv(c), (depth - 1) as nat),
            Some(Tok::Quark { flavor, count }) => if count == 1 && (flavor == Flavor::Lattice
                || flavor == Flavor::Strange || flavor == Flavor::Bottom) {
                skip_cond(raw_line(c).1, depth + 1)
            } else {
                skip_cond(raw_line(c).1, depth)
            },
            Some(_) => skip_cond(raw_line(c).1, depth),
        }
    }
}

/// Line breaks skipped.
pub open spec fn skip_breaks(c: Cursor) -> Cursor
    decreases c.left(),
{
    if !c.wf() {
        c
    } else {
        proof {
            lemma_lex(c);
        }
        match peek(c) {
            Some(Tok::LineBreak) => skip_breaks(adv(c)),
            _ => c,
        }
    }
}

/// The items of a list: consecutive lepton lines of the same kind.
pub open spec fn list_items(c: Cursor, ordered: bool, d: Defs) -> (Seq<Item>, Cursor)
    decreases c.left(),
{
    if !c.wf() {
        (seq![], c)
    } else {
        proof {
            lemma_lex(c);
        }
        match peek(c) {
            Some(Tok::Quark { flavor, count }) => if (flavor == Flavor::Electron || flavor
                == Flavor::Neutrino) && (flavor == Flavor::Electron) == ordered {
                let r = inl_line(adv(c), d);
                let c2 = skip_breaks(r.1);
                let item = Item { level: count, content: r.0 };
                if follows(c2, c, adv(c).pos) {
                    let rest = list_items(c2, ordered, d);
                    (seq![item] + rest.0, rest.1)
                } else {
                    (seq![item], c2)
                }
            } else {
                (seq![], c)
            },
            _ => (seq![], c),
        }
    }
}

/// A paragraph: the inline content of the line, if any.
pub open spec fn paragraph(c: Cursor, d: Defs) -> (Option<Block>, Cursor, Defs) {
    let r = inl_line(c, d);
    (
        if r.0.len() == 0 {
            None
        } else {
            Some(Block::Paragraph(r.0))
        },
        r.1,
        d,
    )
}

/// The block at a cursor (`parse_block`), with the defines after it.
pub open spec fn block(c: Cursor, d: Defs) -> (Option<Block>, Cursor, Defs)
    decreases c.left(), 1nat,
{
    if !c.wf() {
        (None, c, d)
    } else {
        proof {
            lemma_lex(c);
            lemma_raw_line(adv(c));
        }
        match peek(c) {
            Some(Tok::Quark { flavor, count }) => {
                let c1 = adv(c);
                if flavor == Flavor::Up {
                    let r = inl_line(c1, d);
                    (Some(Block::Heading(count, r.0)), r.1, d)
                } else if flavor == Flavor::Top {
                    let r = raw_line(c1);
                    let ws = split_ws(r.0);
                    if ws.len() == 0 {
                        (None, r.1, d)
                    } else {
                        let v = join(ws.skip(1), " "@);
                        (Some(Block::Metadata(ws[0], v)), r.1, d.insert(ws[0], v))
                    }
                } else if flavor == Flavor::Graphic {
                    let r = raw_line(c1);
                    let ws = split_ws(r.0);
                    if ws.len() == 0 {
                        (None, r.1, d)
                    } else {
                        let caption = if ws.len() > 1 {
                            Some(join(ws.skip(1), " "@))
                        } else {
                            None
                        };
                        (Some(Block::Image(ws[0], caption)), r.1, d)
                    }
                } else if flavor == Flavor::Lattice && count == 1 {
                    let r = raw_line(c1);
                    let rows = lattice_rows(r.1);
                    (Some(Block::Lattice(rows.0)), rows.1, d)
                } else if flavor == Flavor::Strange {
                    let r = raw_line(c1);
                    let m = trim(r.0);
                    let lines = code_lines(r.1);
                    let body = join(lines.0, "\n"@);
                    (
                        Some(
                            if m == "math"@ {
                                Block::MathBlock(body)
                            } else {
                                Block::CodeBlock(
                                    if m.len() == 0 {
                                        None
                                    } else {
                                        Some(m)
                                    },
                                    body,
                                )
                            },
                        ),
                        lines.1,
                        d,
                    )
                } else if flavor == Flavor::Bottom && count == 1 {
                    let r = raw_line(c1);
                    if eval_cond(d, r.0) {
                        let inner = cond_blocks(r.1, d);
                        (Some(Block::Conditional(inner.0)), inner.1, inner.2)
                    } else {
                        (None, skip_cond(r.1, 1), d)
                    }
                } else {
                    paragraph(c, d)
                }
            },
            _ => paragraph(c, d),
        }
    }
}

/// The blocks of a true conditional, up to its closing annihilator; lepton
/// lines make lists, as at the top of the document.
pub open spec fn cond_blocks(c: Cursor, d: Defs) -> (Seq<Block>, Cursor, Defs)
    decreases c.left(), 2nat,
{
    if !c.wf() {
        (seq![], c, d)
    } else {
        proof {
            lemma_lex(c);
        }
        match peek(c) {
            None => (seq![], c, d),
            Some(Tok::Annihilator) => (seq![], adv(c), d),
            Some(Tok::Quark { flavor, count: _ }) if flavor == Flavor::Neutrino || flavor
                == Flavor::Electron => {
                let ordered = flavor == Flavor::Electron;
                let l = list_items(c, ordered, d);
                let b = Block::List(ordered, l.0);
                if follows(l.1, c, c.pos + 1) {
                    let r = cond_blocks(l.1, d);
                    (seq![b] + r.0, r.1, r.2)
                } else {
                    (seq![b], l.1, d)
                }
            },
            Some(_) => {
                let b = block(c, d);
                if follows(b.1, c, c.pos + 1) {
                    let r = cond_blocks(b.1, b.2);
                    (opt_seq(b.0) + r.0, r.1, r.2)
                } else {
                    (opt_seq(b.0), b.1, b.2)
                }
            },
        }
    }
}

/// The blocks of the document from a cursor on (`parse`).
pub open spec fn doc_blocks(c: Cursor, d: Defs) -> Seq<Block>
    decreases c.left(),
{
    if !c.wf() {
        seq![]
    } else {
        proof {
            lemma_lex(c);
        }
        match peek(c) {
            None => seq![],
            Some(Tok::LineBreak) => doc_blocks(adv(c), d),
            Some(Tok::Space) => doc_blocks(adv(c), d),
            Some(Tok::Quark { flavor, count: _ }) => if flavor == Flavor::Neutrino || flavor
                == Flavor::Electron {
                let ordered = flavor == Flavor::Electron;
                let l = list_items(c, ordered, d);
                let b = Block::List(ordered, l.0);
                if follows(l.1, c, c.pos + 1) {
                    seq![b] + doc_blocks(l.1, d)
                } else {
                    seq![b]
                }
            } else {
                let b = block(c, d);
                if follows(b.1, c, c.pos + 1) {
                    opt_seq(b.0) + doc_blocks(b.1, b.2)
                } else {
                    opt_seq(b.0)
                }
            },
            Some(_) => {
                let b = block(c, d);
                if follows(b.1, c, c.pos + 1) {
                    opt_seq(b.0) + doc_blocks(b.1, b.2)
                } else {
                    opt_seq(b.0)
                }
            },
        }
    }
}

/// The document that a source parses to under the defines `d`.
pub open spec fn parse_doc(src: Seq<char>, d: Defs) -> Seq<Block> {
    doc_blocks(start(src), d)
}

proof fn lemma_units_concat(a: Seq<Block>, b: Seq<Block>)
    requires
        blocks_unit(a),
        blocks_unit(b),
    ensures
        blocks_unit(a + b),
{
    lemma_blocks_unit(a);
    lemma_blocks_unit(b);
    lemma_blocks_unit(a + b);
    assert forall|i: int| 0 <= i < (a + b).len() implies #[trigger] block_unit((a + b)[i]) by {
        if i < a.len() {
            assert((a + b)[i] == a[i]);
        } else {
            assert((a + b)[i] == b[i - a.len()]);
        }
    }
}

proof fn lemma_opt_unit(o: Option<Block>)
    requires
        o matches Some(b) ==> block_unit(b),
    ensures
        blocks_unit(opt_seq(o)),
{
    lemma_blocks_unit(opt_seq(o));
    if o is Some {
        assert(opt_seq(o)[0] == o->0);
    }
}

/// The cells of the rows of a lattice span one column and one row.
proof fn lemma_lattice_rows_unit(c: Cursor)
    ensures
        block_unit(Block::Lattice(lattice_rows(c).0)),
    decreases c.left(),
{
    if c.wf() {
        lemma_lex(c);
        lemma_raw_line(c);
        match peek(c) {
            None => {},
            Some(Tok::Annihilator) => {},
            Some(_) => {
                let r = raw_line(c);
                lemma_lattice_rows_unit(r.1);
                let head = opt_seq(lattice_row(r.0));
                let rest = lattice_rows(r.1).0;
                let all = head + rest;
                assert(lattice_rows(c).0 == all);
                assert forall|i: int, k: int|
                    0 <= i < all.len() && 0 <= k < all[i].cells.len() implies #[trigger] all[i].cells[k].colspan
                    == 1 && all[i].cells[k].rowspan == 1 by {
                    if i < head.len() {
                        assert(all[i] == head[i]);
                    } else {
                        assert(all[i] == rest[i - head.len()]);
                    }
                }
            },
        }
    }
}

/// The cells of every lattice that `block` builds span one column and one row.
proof fn lemma_block_unit(c: Cursor, d: Defs)
    ensures
        block(c, d).0 matches Some(b) ==> block_unit(b),
    decreases c.left(), 1nat,
{
    if c.wf() {
        lemma_lex(c);
        lemma_raw_line(adv(c));
        match peek(c) {
            Some(Tok::Quark { flavor, count }) => {
                let c1 = adv(c);
                if flavor == Flavor::Lattice && count == 1 {
                    lemma_lattice_rows_unit(raw_line(c1).1);
                } else if flavor == Flavor::Bottom && count == 1 {
                    let r = raw_line(c1);
                    if eval_cond(d, r.0) {
                        lemma_cond_blocks_unit(r.1, d);
                    }
                }
            },
            _ => {},
        }
    }
}

/// The blocks of a true conditional hold only lattices of single cells.
proof fn lemma_cond_blocks_unit(c: Cursor, d: Defs)
    ensures
        blocks_unit(cond_blocks(c, d).0),
    decreases c.left(), 2nat,
{
    lemma_blocks_unit(seq![]);
    if c.wf() {
        lemma_lex(c);
        match peek(c) {
            None => {},
            Some(Tok::Annihilator) => {},
            Some(Tok::Quark { flavor, count: _ }) if flavor == Flavor::Neutrino || flavor
                == Flavor::Electron => {
                let ordered = flavor == Flavor::Electron;
                let l = list_items(c, ordered, d);
                let b = Block::List(ordered, l.0);
                lemma_opt_unit(Some(b));
                assert(opt_seq(Some(b)) == seq![b]);
                if follows(l.1, c, c.pos + 1) {
                    lemma_cond_blocks_unit(l.1, d);
                    lemma_units_concat(seq![b], cond_blocks(l.1, d).0);
                }
            },
            Some(_) => {
                let b = block(c, d);
                lemma_block_unit(c, d);
                lemma_opt_unit(b.0);
                if follows(b.1, c, c.pos + 1) {
                    lemma_cond_blocks_unit(b.1, b.2);
                    lemma_units_concat(opt_seq(b.0), cond_blocks(b.1, b.2).0);
                }
            },
        }
    }
}

/// Every cell of every lattice of a parsed document spans one column and one row.
pub proof fn lemma_doc_unit(c: Cursor, d: Defs)
    ensures
        blocks_unit(doc_blocks(c, d)),
    decreases c.left(),
{
    lemma_blocks_unit(seq![]);
    if c.wf() {
        lemma_lex(c);
        match peek(c) {
            None => {},
            Some(Tok::LineBreak) => {
                lemma_doc_unit(adv(c), d);
            },
            Some(Tok::Space) => {
                lemma_doc_unit(adv(c), d);
            },
            Some(Tok::Quark { flavor, count: _ }) => {
                if flavor == Flavor::Neutrino || flavor == Flavor::Electron {
                    let ordered = flavor == Flavor::Electron;
                    let l = list_items(c, ordered, d);
                    let b = Block::List(ordered, l.0);
                    lemma_opt_unit(Some(b));
                    assert(opt_seq(Some(b)) == seq![b]);
                    if follows(l.1, c, c.pos + 1) {
                        lemma_doc_unit(l.1, d);
                        lemma_units_concat(seq![b], doc_blocks(l.1, d));
                    }
                } else {
                    let b = block(c, d);
                    lemma_block_unit(c, d);
                    lemma_opt_unit(b.0);
                    if follows(b.1, c, c.pos + 1) {
                        lemma_doc_unit(b.1, b.2);
                        lemma_units_concat(opt_seq(b.0), doc_blocks(b.1, b.2));
                    }
                }
            },
            Some(_) => {
                let b = block(c, d);
                lemma_block_unit(c, d);
                lemma_opt_unit(b.0);
                if follows(b.1, c, c.pos + 1) {
                    lemma_doc_unit(b.1, b.2);
                    lemma_units_concat(opt_seq(b.0), doc_blocks(b.1, b.2));
                }
            },
        }
    }
}

/// Inline parsing moves forward in the same source.
pub proof fn lemma_inl_line(c: Cursor, d: Defs)
    requires
        c.wf(),
    ensures
        follows(inl_line(c, d).1, c, c.pos),
    decreases c.left(), 0nat,
{
    lemma_lex(c);
    match peek(c) {
        None => {},
        Some(Tok::LineBreak) => {},
        Some(Tok::Quark { flavor, count: _ }) => {
            lemma_inl_quark(adv(c), flavor, d);
            let q = inl_quark(adv(c), flavor, d);
            lemma_inl_line(q.1, d);
        },
        Some(_) => {
            lemma_inl_line(adv(c), d);
        },
    }
}

/// Inline parsing up to an annihilator moves forward in the same source.
pub proof fn lemma_inl_ann(c: Cursor, d: Defs)
    requires
        c.wf(),
    ensures
        follows(inl_ann(c, d).1, c, c.pos),
    decreases c.left(), 1nat,
{
    lemma_lex(c);
    match peek(c) {
        None => {},
        Some(Tok::LineBreak) => {},
        Some(Tok::Annihilator) => {},
        Some(Tok::Quark { flavor, count: _ }) => {
            lemma_inl_quark(adv(c), flavor, d);
            let q = inl_quark(adv(c), flavor, d);
            lemma_inl_ann(q.1, d);
        },
        Some(_) => {
            lemma_inl_ann(adv(c), d);
        },
    }
}

/// An inline quark's content moves forward in the same source.
pub proof fn lemma_inl_quark(c: Cursor, flavor: Flavor, d: Defs)
    requires
        c.wf(),
    ensures
        follows(inl_quark(c, flavor, d).1, c, c.pos),
    decreases c.left(), 2nat,
{
    lemma_inl_ann(c, d);
}

proof fn lemma_skip_breaks(c: Cursor)
    requires
        c.wf(),
    ensures
        follows(skip_breaks(c), c, c.pos),
    decreases c.left(),
{
    lemma_lex(c);
    if peek(c) == Some(Tok::LineBreak) {
        lemma_skip_breaks(adv(c));
    }
}

/// Lepton lines of one kind in a row, blank lines between them allowed,
/// make one list: after the items of a list no line of the same kind follows.
pub proof fn law_lists_group(c: Cursor, ordered: bool, d: Defs)
    requires
        c.wf(),
    ensures
        !(peek(list_items(c, ordered, d).1) matches Some(Tok::Quark { flavor, count: _ }) && (
        flavor == Flavor::Electron || flavor == Flavor::Neutrino) && (flavor == Flavor::Electron)
            == ordered),
    decreases c.left(),
{
    lemma_lex(c);
    match peek(c) {
        Some(Tok::Quark { flavor, count }) => {
            if (flavor == Flavor::Electron || flavor == Flavor::Neutrino) && (flavor
                == Flavor::Electron) == ordered {
                lemma_lex(adv(c));
                lemma_inl_line(adv(c), d);
                let r = inl_line(adv(c), d);
                lemma_skip_breaks(r.1);
                let c2 = skip_breaks(r.1);
                assert(follows(c2, c, adv(c).pos));
                law_lists_group(c2, ordered, d);
            }
        },
        _ => {},
    }
}

proof fn lemma_skip_breaks_peek(c: Cursor)
    requires
        c.wf(),
    ensures
        peek(skip_breaks(c)) != Some(Tok::LineBreak),
    decreases c.left(),
{
    lemma_lex(c);
    if peek(c) == Some(Tok::LineBreak) {
        lemma_skip_breaks_peek(adv(c));
    }
}

/// A lepton line opens a list of its kind: it has items, the first at the
/// level that the stacked letters give, each at level 1 or deeper; after the
/// list comes no line break and no lepton line of the same kind.
pub proof fn law_list_block(c: Cursor, ordered: bool, d: Defs)
    requires
        c.wf(),
        peek(c) matches Some(Tok::Quark { flavor, count: _ }) && (flavor == Flavor::Electron
            || flavor == Flavor::Neutrino) && (flavor == Flavor::Electron) == ordered,
    ensures
        list_items(c, ordered, d).0.len() > 0,
        list_items(c, ordered, d).0[0].level == peek(c)->0->count,
        forall|i: int|
            0 <= i < list_items(c, ordered, d).0.len() ==> (#[trigger] list_items(
                c,
                ordered,
                d,
            ).0[i]).level >= 1,
        peek(list_items(c, ordered, d).1) != Some(Tok::LineBreak),
        !(peek(list_items(c, ordered, d).1) matches Some(Tok::Quark { flavor, count: _ }) && (
        flavor == Flavor::Electron || flavor == Flavor::Neutrino) && (flavor == Flavor::Electron)
            == ordered),
    decreases c.left(),
{
    law_lists_group(c, ordered, d);
    lemma_lex(c);
    crate::lexer::law_token_shape(c);
    lemma_lex(adv(c));
    lemma_inl_line(adv(c), d);
    let r = inl_line(adv(c), d);
    lemma_skip_breaks(r.1);
    lemma_skip_breaks_peek(r.1);
    let c2 = skip_breaks(r.1);
    assert(follows(c2, c, adv(c).pos));
    let l = list_items(c, ordered, d);
    let rest = list_items(c2, ordered, d);
    assert(l.0 == seq![Item { level: peek(c)->0->count, content: r.0 }] + rest.0);
    assert(l.1 == rest.1);
    if peek(c2) matches Some(Tok::Quark { flavor, count: _ }) && (flavor == Flavor::Electron
        || flavor == Flavor::Neutrino) && (flavor == Flavor::Electron) == ordered {
        law_list_block(c2, ordered, d);
    } else {
        lemma_lex(c2);
        assert(rest.0.len() == 0);
        assert(rest.1 == c2);
    }
    assert forall|i: int| 0 <= i < l.0.len() implies (#[trigger] l.0[i]).level >= 1 by {
        if i > 0 {
            assert(l.0[i] == rest.0[i - 1]);
        }
    }
}

/// A block conditional whose condition holds brings in the blocks up to its
/// closing annihilator; one whose condition fails leaves no block behind,
/// and the defines as they were.
pub proof fn law_block_conditional(c: Cursor, d: Defs)
    requires
        c.wf(),
        peek(c) == Some(Tok::Quark { flavor: Flavor::Bottom, count: 1 }),
    ensures
        eval_cond(d, raw_line(adv(c)).0) ==> block(c, d).0 == Some(
            Block::Conditional(cond_blocks(raw_line(adv(c)).1, d).0),
        ),
        !eval_cond(d, raw_line(adv(c)).0) ==> block(c, d).0 is None && block(c, d).2 == d,
{
}

/// An inline conditional keeps its text when its condition holds and drops
/// it otherwise.
pub proof fn law_inline_conditional(c: Cursor, d: Defs)
    requires
        find_char(nodes_text(inl_ann(c, d).0), '|') is Some,
    ensures
        ({
            let raw = nodes_text(inl_ann(c, d).0);
            let p = find_char(raw, '|')->0;
            inl_quark(c, Flavor::Bottom, d).0 == if eval_cond(d, raw.take(p)) {
                strip_cond(inl_ann(c, d).0, (byte_len(raw.take(p)) + 1) as int)
            } else {
                seq![]
            }
        }),
{
}

/// The shape of a block that the parser builds: a heading at level 1 or
/// deeper, a paragraph with content, a key and an image path that are not
/// empty, a list with items at level 1 or deeper, lattice cells that span one
/// column and one row and are not merged, and conditionals of such blocks.
pub open spec fn block_shape(b: Block) -> bool
    decreases b,
{
    match b {
        Block::Heading(level, _) => level >= 1,
        Block::Paragraph(content) => content.len() > 0,
        Block::Metadata(key, _) => key.len() > 0,
        Block::Image(path, _) => path.len() > 0,
        Block::List(_, items) => items.len() > 0 && forall|i: int|
            0 <= i < items.len() ==> (#[trigger] items[i]).level >= 1,
        Block::Lattice(rows) => forall|r: int, c: int|
            0 <= r < rows.len() && 0 <= c < rows[r].cells.len() ==> (#[trigger] rows[r].cells[c]).colspan
                == 1 && rows[r].cells[c].rowspan == 1 && !rows[r].cells[c].is_merged,
        Block::Conditional(bs) => blocks_shape(bs),
        _ => true,
    }
}

pub open spec fn blocks_shape(bs: Seq<Block>) -> bool
    decreases bs,
{
    if bs.len() == 0 {
        true
    } else {
        blocks_shape(bs.drop_last()) && block_shape(bs.last())
    }
}

proof fn lemma_blocks_shape(bs: Seq<Block>)
    ensures
        blocks_shape(bs) <==> forall|i: int| 0 <= i < bs.len() ==> #[trigger] block_shape(bs[i]),
    decreases bs.len(),
{
    if bs.len() > 0 {
        lemma_blocks_shape(bs.drop_last());
        if forall|i: int| 0 <= i < bs.len() ==> #[trigger] block_shape(bs[i]) {
            assert forall|i: int| 0 <= i < bs.drop_last().len() implies #[trigger] block_shape(
                bs.drop_last()[i],
            ) by {
                assert(bs.drop_last()[i] == bs[i]);
            }
            assert(block_shape(bs[bs.len() - 1]));
        }
        if blocks_shape(bs) {
            assert forall|i: int| 0 <= i < bs.len() implies #[trigger] block_shape(bs[i]) by {
                if i < bs.len() - 1 {
                    assert(bs.drop_last()[i] == bs[i]);
                    assert(block_shape(bs.drop_last()[i]));
                } else {
                    assert(bs[i] == bs.last());
                }
            }
        }
    }
}

proof fn lemma_shapes_concat(a: Seq<Block>, b: Seq<Block>)
    requires
        blocks_shape(a),
        blocks_shape(b),
    ensures
        blocks_shape(a + b),
{
    lemma_blocks_shape(a);
    lemma_blocks_shape(b);
    lemma_blocks_shape(a + b);
    assert forall|i: int| 0 <= i < (a + b).len() implies #[trigger] block_shape((a + b)[i]) by {
        if i < a.len() {
            assert((a + b)[i] == a[i]);
        } else {
            assert((a + b)[i] == b[i - a.len()]);
        }
    }
}

proof fn lemma_opt_shape(o: Option<Block>)
    requires
        o matches Some(b) ==> block_shape(b),
    ensures
        blocks_shape(opt_seq(o)),
{
    lemma_blocks_shape(opt_seq(o));
    if o is Some {
        assert(opt_seq(o)[0] == o->0);
    }
}

proof fn lemma_lattice_rows_shape(c: Cursor)
    ensures
        block_shape(Block::Lattice(lattice_rows(c).0)),
    decreases c.left(),
{
    if c.wf() {
        lemma_lex(c);
        lemma_raw_line(c);
        match peek(c) {
            None => {},
            Some(Tok::Annihilator) => {},
            Some(_) => {
                let r = raw_line(c);
                lemma_lattice_rows_shape(r.1);
                let head = opt_seq(lattice_row(r.0));
                let rest = lattice_rows(r.1).0;
                let all = head + rest;
                assert(lattice_rows(c).0 == all);
                assert forall|i: int, k: int|
                    0 <= i < all.len() && 0 <= k < all[i].cells.len() implies (
                    #[trigger] all[i].cells[k]).colspan == 1 && all[i].cells[k].rowspan == 1
                    && !all[i].cells[k].is_merged by {
                    if i < head.len() {
                        assert(all[i] == head[i]);
                    } else {
                        assert(all[i] == rest[i - head.len()]);
                    }
                }
            },
        }
    }
}

proof fn lemma_first_word(s: Seq<char>)
    requires
        split_ws(s).len() > 0,
    ensures
        split_ws(s)[0].len() > 0,
{
    let t = ltrim(s);
    let w = word_end(t, 0);
    assert(split_ws(s)[0] == t.take(w));
}

proof fn lemma_block_shape(c: Cursor, d: Defs)
    ensures
        block(c, d).0 matches Some(b) ==> block_shape(b),
    decreases c.left(), 1nat,
{
    if c.wf() {
        lemma_lex(c);
        lemma_raw_line(adv(c));
        crate::lexer::law_token_shape(c);
        match peek(c) {
            Some(Tok::Quark { flavor, count }) => {
                let c1 = adv(c);
                let r = raw_line(c1);
                if flavor == Flavor::Top || flavor == Flavor::Graphic {
                    if split_ws(r.0).len() > 0 {
                        lemma_first_word(r.0);
                    }
                } else if flavor == Flavor::Lattice && count == 1 {
                    lemma_lattice_rows_shape(r.1);
                } else if flavor == Flavor::Bottom && count == 1 {
                    if eval_cond(d, r.0) {
                        lemma_cond_blocks_shape(r.1, d);
                    }
                }
            },
            _ => {},
        }
    }
}

proof fn lemma_cond_blocks_shape(c: Cursor, d: Defs)
    ensures
        blocks_shape(cond_blocks(c, d).0),
    decreases c.left(), 2nat,
{
    if c.wf() {
        lemma_lex(c);
        match peek(c) {
            None => {},
            Some(Tok::Annihilator) => {},
            Some(Tok::Quark { flavor, count: _ }) if flavor == Flavor::Neutrino || flavor
                == Flavor::Electron => {
                let ordered = flavor == Flavor::Electron;
                let l = list_items(c, ordered, d);
                let b = Block::List(ordered, l.0);
                law_list_block(c, ordered, d);
                lemma_opt_shape(Some(b));
                assert(opt_seq(Some(b)) == seq![b]);
                if follows(l.1, c, c.pos + 1) {
                    lemma_cond_blocks_shape(l.1, d);
                    lemma_shapes_concat(seq![b], cond_blocks(l.1, d).0);
                }
            },
            Some(_) => {
                let b = block(c, d);
                lemma_block_shape(c, d);
                lemma_opt_shape(b.0);
                if follows(b.1, c, c.pos + 1) {
                    lemma_cond_blocks_shape(b.1, b.2);
                    lemma_shapes_concat(opt_seq(b.0), cond_blocks(b.1, b.2).0);
                }
            },
        }
    }
}

/// The blocks of every parsed document have the shape `block_shape` states,
/// nested ones included.
pub proof fn law_doc_shape(c: Cursor, d: Defs)
    ensures
        blocks_shape(doc_blocks(c, d)),
    decreases c.left(),
{
    if c.wf() {
        lemma_lex(c);
        match peek(c) {
            None => {},
            Some(Tok::LineBreak) => {
                law_doc_shape(adv(c), d);
            },
            Some(Tok::Space) => {
                law_doc_shape(adv(c), d);
            },
            Some(Tok::Quark { flavor, count: _ }) => {
                if flavor == Flavor::Neutrino || flavor == Flavor::Electron {
                    let ordered = flavor == Flavor::Electron;
                    let l = list_items(c, ordered, d);
                    let b = Block::List(ordered, l.0);
                    law_list_block(c, ordered, d);
                    lemma_opt_shape(Some(b));
                    assert(opt_seq(Some(b)) == seq![b]);
                    if follows(l.1, c, c.pos + 1) {
                        law_doc_shape(l.1, d);
                        lemma_shapes_concat(seq![b], doc_blocks(l.1, d));
                    }
                } else {
                    let b = block(c, d);
                    lemma_block_shape(c, d);
                    lemma_opt_shape(b.0);
                    if follows(b.1, c, c.pos + 1) {
                        law_doc_shape(b.1, b.2);
                        lemma_shapes_concat(opt_seq(b.0), doc_blocks(b.1, b.2));
                    }
                }
            },
            Some(_) => {
                let b = block(c, d);
                lemma_block_shape(c, d);
                lemma_opt_shape(b.0);
                if follows(b.1, c, c.pos + 1) {
                    law_doc_shape(b.1, b.2);
                    lemma_shapes_concat(opt_seq(b.0), doc_blocks(b.1, b.2));
                }
            },
        }
    }
}

/// `s` holds no `b`.
pub open spec fn no_b(s: Seq<char>) -> bool {
    forall|i: int| 0 <= i < s.len() ==> s[i] != 'b'
}

proof fn lemma_no_b_concat(a: Seq<char>, b: Seq<char>)
    requires
        no_b(a),
        no_b(b),
    ensures
        no_b(a + b),
{
    assert forall|i: int| 0 <= i < (a + b).len() implies (a + b)[i] != 'b' by {
        if i < a.len() {
            assert((a + b)[i] == a[i]);
        } else {
            assert((a + b)[i] == b[i - a.len()]);
        }
    }
}

proof fn lemma_no_b_cat(a: Seq<Inline>, b: Seq<Inline>)
    requires
        no_b(nodes_text(a)),
        no_b(nodes_text(b)),
    ensures
        no_b(nodes_text(a + b)),
{
    lemma_nodes_text_concat(a, b);
    lemma_no_b_concat(nodes_text(a), nodes_text(b));
}

/// In a source without `b` no token is a Bottom quark, and every text is
/// without `b`.
proof fn lemma_no_b_token(c: Cursor)
    requires
        c.wf(),
        no_b(c.src),
    ensures
        !(peek(c) matches Some(Tok::Quark { flavor, count: _ }) && flavor == Flavor::Bottom),
        peek(c) matches Some(t) ==> no_b(node_text(plain_node(t))),
{
    lemma_skip_comments(c);
    let k = skip_comments(c);
    let s = k.src;
    let p = k.pos;
    reveal_strlit(" ");
    reveal_strlit("..");
    if p < s.len() {
        crate::lexer::lemma_scan_bounds(s, p + 1);
        if !(s[p] == '\n' || crate::lexer::is_gap(s[p]) || s[p] == '.') {
            let q = crate::lexer::text_end(s, p + 1);
            assert forall|i: int| 0 <= i < s.subrange(p, q).len() implies s.subrange(p, q)[i]
                != 'b' by {
                assert(s.subrange(p, q)[i] == s[p + i]);
            }
        }
        if s[p] == '.' && p + 1 < s.len() {
            assert(s[p + 1] != 'b');
        }
    }
}

proof fn lemma_no_b_inl_line(c: Cursor, d1: Defs, d2: Defs)
    requires
        c.wf(),
        no_b(c.src),
    ensures
        inl_line(c, d1) == inl_line(c, d2),
        no_b(nodes_text(inl_line(c, d1).0)),
    decreases c.left(), 0nat,
{
    lemma_lex(c);
    lemma_no_b_token(c);
    match peek(c) {
        None => {},
        Some(Tok::LineBreak) => {},
        Some(Tok::Quark { flavor, count: _ }) => {
            lemma_no_b_inl_quark(adv(c), flavor, d1, d2);
            let q = inl_quark(adv(c), flavor, d1);
            if follows(q.1, c, adv(c).pos) && !q.2 {
                lemma_no_b_inl_line(q.1, d1, d2);
                lemma_no_b_cat(q.0, inl_line(q.1, d1).0);
            }
        },
        Some(t) => {
            lemma_no_b_inl_line(adv(c), d1, d2);
            lemma_nodes_text_one(plain_node(t));
            lemma_no_b_cat(seq![plain_node(t)], inl_line(adv(c), d1).0);
        },
    }
}

proof fn lemma_no_b_inl_ann(c: Cursor, d1: Defs, d2: Defs)
    requires
        c.wf(),
        no_b(c.src),
    ensures
        inl_ann(c, d1) == inl_ann(c, d2),
        no_b(nodes_text(inl_ann(c, d1).0)),
    decreases c.left(), 1nat,
{
    lemma_lex(c);
    lemma_no_b_token(c);
    match peek(c) {
        None => {},
        Some(Tok::LineBreak) => {},
        Some(Tok::Annihilator) => {},
        Some(Tok::Quark { flavor, count: _ }) => {
            lemma_no_b_inl_quark(adv(c), flavor, d1, d2);
            let q = inl_quark(adv(c), flavor, d1);
            if follows(q.1, c, adv(c).pos) && !q.2 {
                lemma_no_b_inl_ann(q.1, d1, d2);
                lemma_no_b_cat(q.0, inl_ann(q.1, d1).0);
            }
        },
        Some(t) => {
            lemma_no_b_inl_ann(adv(c), d1, d2);
            lemma_nodes_text_one(plain_node(t));
            lemma_no_b_cat(seq![plain_node(t)], inl_ann(adv(c), d1).0);
        },
    }
}

proof fn lemma_no_b_inl_quark(c: Cursor, flavor: Flavor, d1: Defs, d2: Defs)
    requires
        c.wf(),
        no_b(c.src),
        flavor != Flavor::Bottom,
    ensures
        inl_quark(c, flavor, d1) == inl_quark(c, flavor, d2),
        no_b(nodes_text(inl_quark(c, flavor, d1).0)),
    decreases c.left(), 2nat,
{
    lemma_no_b_inl_ann(c, d1, d2);
    let inner = inl_ann(c, d1).0;
    let raw = nodes_text(inner);
    reveal_strlit("math ");
    if flavor == Flavor::Strange {
        if starts_with(raw, "math "@) {
            let n = Inline::Math(raw.skip(5));
            lemma_nodes_text_one(n);
            assert("math "@ + raw.skip(5) =~= raw);
        } else {
            lemma_nodes_text_one(Inline::Formatted(flavor, inner));
        }
    } else if flavor == Flavor::Lattice {
        match find_char(raw, '|') {
            Some(p) => {
                crate::text::lemma_find_from(raw, '|', 0);
                let tc = raw.skip(p + 1);
                assert forall|i: int| 0 <= i < tc.len() implies tc[i] != 'b' by {
                    assert(tc[i] == raw[p + 1 + i]);
                }
                let text = if tc.len() <= c.left() {
                    lemma_no_b_inl_line(start(tc), d1, d2);
                    inl_line(start(tc), d1).0
                } else {
                    seq![]
                };
                lemma_nodes_text_one(Inline::Link(trim(raw.take(p)), text));
            },
            None => {
                lemma_nodes_text_one(Inline::Text(raw));
                lemma_nodes_text_one(Inline::Link(trim(raw), seq![Inline::Text(raw)]));
            },
        }
    } else {
        lemma_nodes_text_one(Inline::Formatted(flavor, inner));
    }
}

proof fn lemma_no_b_list_items(c: Cursor, ordered: bool, d1: Defs, d2: Defs)
    requires
        c.wf(),
        no_b(c.src),
    ensures
        list_items(c, ordered, d1) == list_items(c, ordered, d2),
    decreases c.left(),
{
    lemma_lex(c);
    match peek(c) {
        Some(Tok::Quark { flavor, count }) => {
            if (flavor == Flavor::Electron || flavor == Flavor::Neutrino) && (flavor
                == Flavor::Electron) == ordered {
                lemma_lex(adv(c));
                lemma_no_b_inl_line(adv(c), d1, d2);
                lemma_inl_line(adv(c), d1);
                let r = inl_line(adv(c), d1);
                lemma_skip_breaks(r.1);
                let c2 = skip_breaks(r.1);
                if follows(c2, c, adv(c).pos) {
                    lemma_no_b_list_items(c2, ordered, d1, d2);
                }
            }
        },
        _ => {},
    }
}

proof fn lemma_no_b_block(c: Cursor, d1: Defs, d2: Defs)
    requires
        c.wf(),
        no_b(c.src),
    ensures
        block(c, d1).0 == block(c, d2).0,
        block(c, d1).1 == block(c, d2).1,
{
    lemma_lex(c);
    lemma_no_b_token(c);
    lemma_raw_line(adv(c));
    lemma_no_b_inl_line(c, d1, d2);
    match peek(c) {
        Some(Tok::Quark { flavor, count: _ }) => {
            lemma_no_b_inl_line(adv(c), d1, d2);
        },
        _ => {},
    }
}

proof fn lemma_no_b_doc(c: Cursor, d1: Defs, d2: Defs)
    requires
        c.wf(),
        no_b(c.src),
    ensures
        doc_blocks(c, d1) == doc_blocks(c, d2),
    decreases c.left(),
{
    lemma_lex(c);
    match peek(c) {
        None => {},
        Some(Tok::LineBreak) => {
            lemma_no_b_doc(adv(c), d1, d2);
        },
        Some(Tok::Space) => {
            lemma_no_b_doc(adv(c), d1, d2);
        },
        Some(Tok::Quark { flavor, count: _ }) => {
            if flavor == Flavor::Neutrino || flavor == Flavor::Electron {
                let ordered = flavor == Flavor::Electron;
                lemma_no_b_list_items(c, ordered, d1, d2);
                let l = list_items(c, ordered, d1);
                if follows(l.1, c, c.pos + 1) {
                    lemma_no_b_doc(l.1, d1, d2);
                }
            } else {
                lemma_no_b_block(c, d1, d2);
                let b1 = block(c, d1);
                let b2 = block(c, d2);
                if follows(b1.1, c, c.pos + 1) {
                    lemma_no_b_doc(b1.1, b1.2, b2.2);
                }
            }
        },
        Some(_) => {
            lemma_no_b_block(c, d1, d2);
            let b1 = block(c, d1);
            let b2 = block(c, d2);
            if follows(b1.1, c, c.pos + 1) {
                lemma_no_b_doc(b1.1, b1.2, b2.2);
            }
        },
    }
}

/// Defines reach a document only through conditionals: a source without
/// `b` (so without any `.b` quark) parses to the same document under any
/// defines.
pub proof fn law_defines_only_through_conditions(src: Seq<char>, d1: Defs, d2: Defs)
    requires
        no_b(src),
    ensures
        parse_doc(src, d1) == parse_doc(src, d2),
{
    lemma_no_b_doc(start(src), d1, d2);
}

pub proof fn lemma_byte_len_concat(a: Seq<char>, b: Seq<char>)
    ensures
        byte_len(a + b) == byte_len(a) + byte_len(b),
    decreases a.len(),
{
    if a.len() > 0 {
        lemma_byte_len_concat(a.drop_first(), b);
        assert((a + b).drop_first() =~= a.drop_first() + b);
        assert((a + b)[0] == a[0]);
    } else {
        assert(a + b =~= b);
    }
}

pub proof fn lemma_byte_len_at_least_len(s: Seq<char>)
    ensures
        byte_len(s) >= s.len(),
    decreases s.len(),
{
    if s.len() > 0 {
        lemma_byte_len_at_least_len(s.drop_first());
    }
}

/// Dropping the bytes of the first `m` characters leaves the characters from `m` on.
pub proof fn lemma_drop_bytes_take(t: Seq<char>, m: int)
    requires
        0 <= m <= t.len(),
    ensures
        drop_bytes(t, byte_len(t.take(m)) as int) == t.skip(m),
    decreases m,
{
    if m == 0 {
        assert(t.take(0) =~= Seq::<char>::empty());
        assert(t.skip(0) =~= t);
    } else {
        let tm = t.take(m);
        assert(tm[0] == t[0]);
        assert(tm.drop_first() =~= t.drop_first().take(m - 1));
        lemma_drop_bytes_take(t.drop_first(), m - 1);
        assert(t.drop_first().skip(m - 1) =~= t.skip(m));
    }
}

/// A zero-byte prefix strips nothing.
pub proof fn lemma_strip_cond_zero(ns: Seq<Inline>)
    ensures
        strip_cond(ns, 0) == ns,
    decreases ns.len(),
{
    if ns.len() > 0 {
        lemma_strip_cond_zero(ns.drop_first());
        assert(seq![ns[0]] + ns.drop_first() =~= ns);
    }
}

pub proof fn lemma_nodes_text_first(ns: Seq<Inline>)
    requires
        ns.len() > 0,
    ensures
        nodes_text(ns) == node_text(ns[0]) + nodes_text(ns.drop_first()),
{
    assert(seq![ns[0]] + ns.drop_first() =~= ns);
    lemma_nodes_text_concat(seq![ns[0]], ns.drop_first());
    lemma_nodes_text_one(ns[0]);
}

/// Stripping the bytes of the first `m` characters of inline content whose
/// first `m` characters lie in text nodes leaves exactly the rest of its text:
/// nothing after the prefix is lost, nothing of the prefix is kept.
pub proof fn law_strip_cond_drops_exactly_the_prefix(ns: Seq<Inline>, m: int)
    requires
        0 <= m <= nodes_text(ns).len(),
        forall|i: int|
            0 <= i < ns.len() && nodes_text(ns.take(i)).len() < m ==> (#[trigger] ns[i]) is Text,
    ensures
        nodes_text(strip_cond(ns, byte_len(nodes_text(ns).take(m)) as int)) == nodes_text(ns).skip(
            m,
        ),
    decreases ns.len(),
{
    let tx = nodes_text(ns);
    if m == 0 {
        assert(tx.take(0) =~= Seq::<char>::empty());
        lemma_strip_cond_zero(ns);
        assert(tx.skip(0) =~= tx);
    } else {
        lemma_nodes_text_first(ns);
        let rest = ns.drop_first();
        assert(ns.take(0) =~= Seq::<Inline>::empty());
        assert(nodes_text(ns.take(0)).len() == 0);
        assert(ns[0] is Text);
        let t = ns[0]->Text_0;
        let rt = nodes_text(rest);
        assert(tx == t + rt);
        let k = byte_len(tx.take(m)) as int;
        if m <= t.len() {
            assert(tx.take(m) =~= t.take(m));
            assert(t =~= t.take(m) + t.skip(m));
            lemma_byte_len_concat(t.take(m), t.skip(m));
            lemma_drop_bytes_take(t, m);
            lemma_strip_cond_zero(rest);
            let r = drop_bytes(t, k);
            if r.len() > 0 {
                assert(strip_cond(ns, k) == seq![Inline::Text(r)] + rest);
                lemma_nodes_text_concat(seq![Inline::Text(r)], rest);
                lemma_nodes_text_one(Inline::Text(r));
            } else {
                assert(strip_cond(ns, k) =~= rest);
            }
            assert(tx.skip(m) =~= t.skip(m) + rt);
        } else {
            let m2 = m - t.len();
            assert(tx.take(m) =~= t + rt.take(m2));
            lemma_byte_len_concat(t, rt.take(m2));
            lemma_byte_len_at_least_len(rt.take(m2));
            assert forall|i: int|
                0 <= i < rest.len() && nodes_text(rest.take(i)).len() < m2 implies (
                #[trigger] rest[i]) is Text by {
                assert(ns.take(i + 1) =~= seq![ns[0]] + rest.take(i));
                lemma_nodes_text_concat(seq![ns[0]], rest.take(i));
                lemma_nodes_text_one(ns[0]);
                assert(ns[i + 1] == rest[i]);
            }
            law_strip_cond_drops_exactly_the_prefix(rest, m2);
            assert(strip_cond(ns, k) == strip_cond(rest, k - byte_len(t)));
            assert(tx.skip(m) =~= rt.skip(m2));
        }
    }
}

/// An inline conditional whose condition holds yields content that reads
/// exactly as what follows its first `|`, as long as the condition lies in
/// plain text: the `|` and the condition are gone, and all the rest is kept.
pub proof fn law_true_inline_conditional_keeps_the_rest(c: Cursor, d: Defs)
    requires
        find_char(nodes_text(inl_ann(c, d).0), '|') is Some,
        eval_cond(
            d,
            nodes_text(inl_ann(c, d).0).take(find_char(nodes_text(inl_ann(c, d).0), '|')->0),
        ),
        forall|i: int|
            0 <= i < inl_ann(c, d).0.len() && nodes_text(inl_ann(c, d).0.take(i)).len() <= find_char(
                nodes_text(inl_ann(c, d).0),
                '|',
            )->0 ==> (#[trigger] inl_ann(c, d).0[i]) is Text,
    ensures
        nodes_text(inl_quark(c, Flavor::Bottom, d).0) == nodes_text(inl_ann(c, d).0).skip(
            find_char(nodes_text(inl_ann(c, d).0), '|')->0 + 1,
        ),
{
    let inner = inl_ann(c, d).0;
    let raw = nodes_text(inner);
    let p = find_char(raw, '|')->0;
    crate::text::lemma_find_from(raw, '|', 0);
    assert(raw.take(p + 1) =~= raw.take(p).push('|'));
    crate::parser::lemma_byte_len_push(raw.take(p), '|');
    law_strip_cond_drops_exactly_the_prefix(inner, p + 1);
}

/// The lines, each followed by a line feed.
pub open spec fn lines_with_breaks(ls: Seq<Seq<char>>) -> Seq<char>
    decreases ls.len(),
{
    if ls.len() == 0 {
        seq![]
    } else {
        ls[0] + seq!['\n'] + lines_with_breaks(ls.drop_first())
    }
}

/// A code line as a listing holds it: a `\..` after the line's leading blanks
/// stands for `..`; any other line is kept as written.
pub open spec fn code_line_of(l: Seq<char>) -> Seq<char> {
    let k = l.len() - ltrim(l).len();
    if starts_with(ltrim(l), "\\.."@) {
        l.take(k) + ".."@ + l.skip(k + 3)
    } else {
        l
    }
}

pub proof fn lemma_find_seq_at(s: Seq<char>, p: Seq<char>, j: int, k: int)
    requires
        0 <= j <= k,
        k + p.len() <= s.len(),
        s.subrange(k, k + p.len()) == p,
        forall|i: int| j <= i < k ==> #[trigger] s.subrange(i, i + p.len()) != p,
    ensures
        crate::text::find_seq_from(s, p, j) == Some(k),
    decreases k - j,
{
    if j < k {
        assert(s.subrange(j, j + p.len()) != p);
        lemma_find_seq_at(s, p, j + 1, k);
    }
}

/// What `code_lines` makes of a line that does not close the listing.
proof fn lemma_code_line_of(l: Seq<char>)
    ensures
        (if starts_with(trim(l), "\\.."@) {
            replace_first(l, "\\.."@, ".."@)
        } else {
            l
        }) == code_line_of(l),
{
    reveal_strlit("\\..");
    reveal_strlit("..");
    let lt = ltrim(l);
    let k = l.len() - lt.len();
    crate::text::lemma_ltrim_suffix(l);
    crate::text::lemma_rtrim_prefix(lt);
    let t = trim(l);
    let esc = "\\.."@;
    assert(esc.len() == 3 && esc[0] == '\\' && esc[1] == '.' && esc[2] == '.');
    if starts_with(lt, esc) {
        assert(lt[0] == '\\' && lt[1] == '.' && lt[2] == '.');
        assert(t.len() >= 3) by {
            if t.len() < 3 {
                assert(crate::text::is_ws(lt[2]));
            }
        }
        assert(t.take(3) =~= esc) by {
            assert(t[0] == lt[0] && t[1] == lt[1] && t[2] == lt[2]);
        }
        assert(l.subrange(k, k + 3) =~= esc) by {
            assert(lt == l.skip(k));
            assert(l[k] == lt[0] && l[k + 1] == lt[1] && l[k + 2] == lt[2]);
        }
        assert forall|i: int| 0 <= i < k implies #[trigger] l.subrange(i, i + 3) != esc by {
            assert(crate::text::is_ws(l[i]));
            assert(l.subrange(i, i + 3)[0] == l[i]);
        }
        lemma_find_seq_at(l, esc, 0, k);
    } else {
        if starts_with(t, esc) {
            assert(t == lt.take(t.len() as int));
            assert(lt.take(3) =~= t.take(3));
        }
    }
}

/// The code of a listing is the source lines between its opening line and
/// the line that starts, after `ind` blanks, with `..`, in order, blank lines
/// included: as many code lines as there are lines in between, each as
/// written but for a leading `\..`, which stands for `..`.
pub proof fn law_code_lines_as_written(
    c: Cursor,
    ls: Seq<Seq<char>>,
    tail: Seq<char>,
    ind: int,
)
    requires
        c.wf(),
        c.src.skip(c.pos) == lines_with_breaks(ls) + tail,
        forall|i: int, k: int|
            0 <= i < ls.len() && 0 <= k < ls[i].len() ==> !crate::lexer::is_brk(
                #[trigger] ls[i][k],
            ),
        forall|i: int| 0 <= i < ls.len() ==> !starts_with(trim(#[trigger] ls[i]), ".."@),
        0 <= ind,
        ind + 2 <= tail.len(),
        forall|k: int| 0 <= k < ind ==> #[trigger] tail[k] == ' ' || tail[k] == '\t',
        tail[ind] == '.',
        tail[ind + 1] == '.',
    ensures
        code_lines(c).0 == ls.map_values(|l: Seq<char>| code_line_of(l)),
    decreases ls.len(),
{
    let s = c.src;
    let e = crate::lexer::line_end(s, c.pos);
    crate::lexer::lemma_scan_bounds(s, c.pos);
    lemma_src_line(c);
    if ls.len() == 0 {
        assert(lines_with_breaks(ls) + tail =~= tail);
        assert forall|k: int| 0 <= k < ind + 2 implies #[trigger] s[c.pos + k] == tail[k] by {
            assert(s.skip(c.pos)[k] == s[c.pos + k]);
        }
        assert forall|k: int| c.pos <= k < c.pos + ind + 2 implies !crate::lexer::is_brk(
            #[trigger] s[k],
        ) by {
            assert(s[c.pos + (k - c.pos)] == tail[k - c.pos]);
        }
        crate::lexer::lemma_line_end_from(s, c.pos, c.pos + ind + 2);
        crate::lexer::lemma_scan_bounds(s, c.pos + ind + 2);
        let l = src_line(c).0;
        assert forall|k: int| 0 <= k < ind implies crate::text::is_ws(#[trigger] l[k]) by {
            assert(l[k] == s[c.pos + k]);
            assert(tail[k] == ' ' || tail[k] == '\t');
        }
        assert(l[ind] == s[c.pos + ind]);
        assert(l[ind + 1] == s[c.pos + ind + 1]);
        crate::text::lemma_ltrim_at(l, ind);
        let lt = l.skip(ind);
        crate::text::lemma_rtrim_prefix(lt);
        let t = trim(l);
        assert(lt[0] == '.' && lt[1] == '.');
        assert(t.len() >= 2) by {
            if t.len() < 2 {
                assert(crate::text::is_ws(lt[1]));
            }
        }
        assert(t[0] == '.' && t[1] == '.');
        reveal_strlit("..");
        assert(t.take(2) =~= ".."@);
    } else {
        let l = ls[0];
        let more = ls.drop_first();
        assert(lines_with_breaks(ls) + tail =~= l + (seq!['\n'] + (lines_with_breaks(more)
            + tail)));
        let n = l.len() as int;
        assert forall|k: int| c.pos <= k < c.pos + n implies !crate::lexer::is_brk(
            #[trigger] s[k],
        ) by {
            assert(s[k] == s.skip(c.pos)[k - c.pos]);
            assert(ls[0][k - c.pos] == l[k - c.pos]);
        }
        assert(s[c.pos + n] == s.skip(c.pos)[n]);
        assert(s[c.pos + n] == '\n');
        crate::lexer::lemma_line_end_from(s, c.pos, c.pos + n);
        assert(e == c.pos + n);
        assert(src_line(c).0 =~= l);
        let c2 = src_line(c).1;
        assert(c2.pos == c.pos + n + 1);
        let w = s.skip(c.pos);
        let x = lines_with_breaks(more) + tail;
        assert(w == l + (seq!['\n'] + x));
        assert forall|k: int| 0 <= k < x.len() implies #[trigger] w.skip(n + 1)[k] == x[k] by {
            assert(w.skip(n + 1)[k] == w[n + 1 + k]);
            assert((l + (seq!['\n'] + x))[n + 1 + k] == (seq!['\n'] + x)[1 + k]);
        }
        assert(w.skip(n + 1) =~= x);
        assert(c2.src.skip(c2.pos) =~= w.skip(n + 1));
        assert forall|i: int, k: int|
            0 <= i < more.len() && 0 <= k < more[i].len() implies !crate::lexer::is_brk(
            #[trigger] more[i][k],
        ) by {
            assert(more[i] == ls[i + 1]);
        }
        assert forall|i: int| 0 <= i < more.len() implies !starts_with(
            trim(#[trigger] more[i]),
            ".."@,
        ) by {
            assert(more[i] == ls[i + 1]);
        }
        law_code_lines_as_written(c2, more, tail, ind);
        lemma_code_line_of(l);
        assert(ls.map_values(|l: Seq<char>| code_line_of(l)) =~= seq![code_line_of(l)]
            + more.map_values(|l: Seq<char>| code_line_of(l)));
    }
}

/// Inline content reads no more text than the characters it consumes.
pub proof fn lemma_inl_line_len(c: Cursor, d: Defs)
    requires
        c.wf(),
    ensures
        nodes_text(inl_line(c, d).0).len() <= inl_line(c, d).1.pos - c.pos,
    decreases c.left(), 0nat,
{
    lemma_lex(c);
    lemma_inl_line(c, d);
    match peek(c) {
        None => {},
        Some(Tok::LineBreak) => {},
        Some(Tok::Quark { flavor, count: _ }) => {
            let c1 = adv(c);
            lemma_inl_quark(c1, flavor, d);
            lemma_inl_quark_len(c1, flavor, d);
            let q = inl_quark(c1, flavor, d);
            if follows(q.1, c, c1.pos) && !q.2 {
                lemma_inl_line_len(q.1, d);
                lemma_nodes_text_concat(q.0, inl_line(q.1, d).0);
            }
        },
        Some(t) => {
            lemma_inl_line_len(adv(c), d);
            lemma_nodes_text_concat(seq![plain_node(t)], inl_line(adv(c), d).0);
            lemma_nodes_text_one(plain_node(t));
            reveal_strlit(" ");
            reveal_strlit("..");
        },
    }
}

/// Inline content up to an annihilator reads no more text than it consumes.
pub proof fn lemma_inl_ann_len(c: Cursor, d: Defs)
    requires
        c.wf(),
    ensures
        nodes_text(inl_ann(c, d).0).len() <= inl_ann(c, d).1.pos - c.pos,
    decreases c.left(), 1nat,
{
    lemma_lex(c);
    lemma_inl_ann(c, d);
    match peek(c) {
        None => {},
        Some(Tok::LineBreak) => {},
        Some(Tok::Annihilator) => {},
        Some(Tok::Quark { flavor, count: _ }) => {
            let c1 = adv(c);
            lemma_inl_quark(c1, flavor, d);
            lemma_inl_quark_len(c1, flavor, d);
            let q = inl_quark(c1, flavor, d);
            if follows(q.1, c, c1.pos) && !q.2 {
                lemma_inl_ann_len(q.1, d);
                lemma_nodes_text_concat(q.0, inl_ann(q.1, d).0);
            }
        },
        Some(t) => {
            lemma_inl_ann_len(adv(c), d);
            lemma_nodes_text_concat(seq![plain_node(t)], inl_ann(adv(c), d).0);
            lemma_nodes_text_one(plain_node(t));
            reveal_strlit(" ");
            reveal_strlit("..");
        },
    }
}

/// What an inline quark yields reads no more text than its content consumes.
pub proof fn lemma_inl_quark_len(c: Cursor, flavor: Flavor, d: Defs)
    requires
        c.wf(),
    ensures
        nodes_text(inl_quark(c, flavor, d).0).len() <= inl_quark(c, flavor, d).1.pos - c.pos,
    decreases c.left(), 2nat,
{
    lemma_inl_ann_len(c, d);
    let a = inl_ann(c, d);
    let inner = a.0;
    let raw = nodes_text(inner);
    let nodes = inl_quark(c, flavor, d).0;
    if flavor == Flavor::Strange {
        if starts_with(raw, "math "@) {
            reveal_strlit("math ");
            lemma_nodes_text_one(Inline::Math(raw.skip(5)));
        } else {
            lemma_nodes_text_one(Inline::Formatted(flavor, inner));
        }
    } else if flavor == Flavor::Bottom {
        match find_char(raw, '|') {
            Some(p) => if eval_cond(d, raw.take(p)) {
                crate::parser::lemma_strip_cond_text(inner, (byte_len(raw.take(p)) + 1) as int);
            } else {
            },
            None => {},
        }
    } else if flavor == Flavor::Lattice {
        match find_char(raw, '|') {
            Some(p) => {
                crate::text::lemma_find_from(raw, '|', 0);
                let tc = raw.skip(p + 1);
                if tc.len() <= c.left() {
                    lemma_inl_line_len(start(tc), d);
                    lemma_inl_line(start(tc), d);
                    lemma_nodes_text_one(Inline::Link(trim(raw.take(p)), inl_line(start(tc), d).0));
                } else {
                    lemma_nodes_text_one(Inline::Link(trim(raw.take(p)), seq![]));
                    assert(nodes_text(Seq::<Inline>::empty()).len() == 0);
                }
            },
            None => {
                lemma_nodes_text_one(Inline::Link(trim(raw), seq![Inline::Text(raw)]));
                lemma_nodes_text_one(Inline::Text(raw));
            },
        }
    } else {
        lemma_nodes_text_one(Inline::Formatted(flavor, inner));
    }
}

/// Text that the lexer reads as words and single spaces: no dot, tab or
/// line break, no two spaces in a row, and no comment marker at its start.
pub open spec fn plain_text(t: Seq<char>) -> bool {
    &&& forall|k: int|
        0 <= k < t.len() ==> #[trigger] t[k] != '.' && t[k] != '\n' && t[k] != '\r' && t[k]
            != '\t'
    &&& forall|k: int| 0 <= k < t.len() - 1 ==> !(#[trigger] t[k] == ' ' && t[k + 1] == ' ')
    &&& !crate::lexer::comment_at(t, 0)
}

/// Plain text reads back as itself, from any point on.
pub proof fn lemma_plain_inl_line(c: Cursor, d: Defs)
    requires
        c.wf(),
        plain_text(c.src),
        c.als ==> c.pos == 0,
    ensures
        nodes_text(inl_line(c, d).0) == c.src.skip(c.pos),
    decreases c.left(),
{
    let s = c.src;
    let p = c.pos;
    assert(crate::lexer::skip_comments(c) == c);
    lemma_lex(c);
    if p >= s.len() {
        assert(s.skip(p) =~= Seq::<char>::empty());
    } else {
        let ch = s[p];
        assert(ch != '.' && ch != '\n' && ch != '\r' && ch != '\t');
        let t = peek(c)->0;
        let c2 = adv(c);
        if ch == ' ' {
            if p + 1 < s.len() {
                assert(!(s[p] == ' ' && s[p + 1] == ' '));
                assert(s[p + 1] != '\t' && s[p + 1] != '\r');
            }
            assert(crate::lexer::gap_end(s, p + 1) == p + 1);
            assert(t == Tok::Space);
            assert(c2.pos == p + 1);
            reveal_strlit(" ");
        } else {
            crate::lexer::lemma_scan_bounds(s, p + 1);
            assert(t == Tok::Text(s.subrange(p, c2.pos)));
        }
        assert(!c2.als);
        lemma_plain_inl_line(c2, d);
        lemma_nodes_text_concat(seq![plain_node(t)], inl_line(c2, d).0);
        lemma_nodes_text_one(plain_node(t));
        assert(node_text(plain_node(t)) =~= s.subrange(p, c2.pos));
        assert(s.skip(p) =~= s.subrange(p, c2.pos) + s.skip(c2.pos));
    }
}

/// A link written `url|text` points at the trimmed part before the first `|`,
/// which holds no `|`, and has as its text the inline content of what follows
/// that `|`; where that is plain text, the link reads exactly as it, without
/// the `|`.
pub proof fn law_link_text_follows_the_bar(c: Cursor, d: Defs)
    requires
        c.wf(),
        find_char(nodes_text(inl_ann(c, d).0), '|') is Some,
    ensures
        ({
            let raw = nodes_text(inl_ann(c, d).0);
            let p = find_char(raw, '|')->0;
            &&& inl_quark(c, Flavor::Lattice, d).0 == seq![
                Inline::Link(trim(raw.take(p)), inl_line(start(raw.skip(p + 1)), d).0),
            ]
            &&& forall|k: int|
                0 <= k < trim(raw.take(p)).len() ==> #[trigger] trim(raw.take(p))[k] != '|'
            &&& plain_text(raw.skip(p + 1)) ==> nodes_text(inl_quark(c, Flavor::Lattice, d).0)
                == raw.skip(p + 1)
        }),
{
    let raw = nodes_text(inl_ann(c, d).0);
    let p = find_char(raw, '|')->0;
    crate::text::lemma_find_from(raw, '|', 0);
    lemma_inl_ann_len(c, d);
    lemma_inl_ann(c, d);
    let tc = raw.skip(p + 1);
    assert(tc.len() <= c.left());
    let pre = raw.take(p);
    let lt = ltrim(pre);
    crate::text::lemma_ltrim_suffix(pre);
    crate::text::lemma_rtrim_prefix(lt);
    assert forall|k: int| 0 <= k < trim(pre).len() implies #[trigger] trim(pre)[k] != '|' by {
        let off = pre.len() - lt.len();
        assert(trim(pre)[k] == lt[k]);
        assert(lt[k] == pre[off + k]);
        assert(pre[off + k] == raw[off + k]);
    }
    if plain_text(tc) {
        lemma_plain_inl_line(start(tc), d);
        assert(tc.skip(0) =~= tc);
        lemma_nodes_text_one(Inline::Link(trim(raw.take(p)), inl_line(start(tc), d).0));
    }
}

/// A link written without `|` points at its trimmed content and shows that
/// content as written.
pub proof fn law_link_without_bar(c: Cursor, d: Defs)
    requires
        find_char(nodes_text(inl_ann(c, d).0), '|') is None,
    ensures
        inl_quark(c, Flavor::Lattice, d).0.len() == 1,
        inl_quark(c, Flavor::Lattice, d).0[0] matches Inline::Link(url, _) && url == trim(
            nodes_text(inl_ann(c, d).0),
        ),
        nodes_text(inl_quark(c, Flavor::Lattice, d).0) == nodes_text(inl_ann(c, d).0),
{
    let raw = nodes_text(inl_ann(c, d).0);
    lemma_nodes_text_one(Inline::Link(trim(raw), seq![Inline::Text(raw)]));
    lemma_nodes_text_one(Inline::Text(raw));
}

} // verus!
