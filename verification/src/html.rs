//! Inline content, lists and lattices as HTML.
//!
//! What a formula looks like comes from MathJax; the rendering is stated for
//! whatever replies it gave, taken from the queue in `Pend` in document order.
//! The page around the blocks, and the `HtmlRenderer` that runs MathJax, are
//! in `page`.
use vstd::prelude::*;
use std::collections::VecDeque;
pub use crate::page::HtmlRenderer;
use crate::ast::{
    Inline, Item, Cell, Row, Block, CellAlign, RowType, InlineNode, LatticeCell, LatticeRow,
    inline_view, inlines_view, lemma_inlines_view, cell_view, row_view, rows_view,
};
use crate::lexer::Flavor;
use crate::text::{
    trim, find_seq_from, chars_of, trim_bounds, has_at, push_char,
    string_from_str,
    lemma_find_seq_skip, lemma_find_seq_from,
};

verus! {

broadcast use vstd::std_specs::vecdeque::group_vec_dequeue_axioms;

/// MathJax's replies still to be used, one per formula in document order
/// (`None` where MathJax failed), and the formulas the rendering asked for,
/// in order.
pub struct Pend {
    pub math: Seq<Option<String>>,
    pub asked_math: Seq<(Seq<char>, bool)>,
}

/// No replies, nothing asked.
pub open spec fn no_replies() -> Pend {
    Pend { math: seq![], asked_math: seq![] }
}

/// The reply for a formula (a display formula when `is_block`).
pub open spec fn next_math(p: Pend, latex: Seq<char>, is_block: bool) -> (Option<String>, Pend) {
    let asked = p.asked_math.push((latex, is_block));
    if p.math.len() == 0 {
        (None, Pend { asked_math: asked, ..p })
    } else {
        (p.math[0], Pend { math: p.math.drop_first(), asked_math: asked })
    }
}

/// The HTML entity of a character that markup gives a meaning to.
pub open spec fn esc_char(c: char) -> Seq<char> {
    if c == '&' {
        "&amp;"@
    } else if c == '<' {
        "&lt;"@
    } else if c == '>' {
        "&gt;"@
    } else if c == '"' {
        "&quot;"@
    } else if c == '\'' {
        "&#x27;"@
    } else {
        seq![c]
    }
}

/// `s` with `&`, `<`, `>`, `"` and `'` written as entities.
pub open spec fn escape(s: Seq<char>) -> Seq<char>
    decreases s.len(),
{
    if s.len() == 0 {
        seq![]
    } else {
        escape(s.drop_last()) + esc_char(s.last())
    }
}

/// A character that markup gives a meaning to.
pub open spec fn is_markup(c: char) -> bool {
    c == '&' || c == '<' || c == '>' || c == '"' || c == '\''
}

/// Escaped text holds no `<`, `>`, `"` or `'`: it can open no tag and close
/// no attribute, wherever it is put.
pub proof fn law_escape_is_inert(s: Seq<char>)
    ensures
        forall|i: int|
            0 <= i < escape(s).len() ==> #[trigger] escape(s)[i] != '<' && escape(s)[i] != '>'
                && escape(s)[i] != '"' && escape(s)[i] != '\'',
    decreases s.len(),
{
    if s.len() > 0 {
        law_escape_is_inert(s.drop_last());
        reveal_strlit("&amp;");
        reveal_strlit("&lt;");
        reveal_strlit("&gt;");
        reveal_strlit("&quot;");
        reveal_strlit("&#x27;");
        let a = escape(s.drop_last());
        let b = esc_char(s.last());
        assert forall|i: int| 0 <= i < escape(s).len() implies #[trigger] escape(s)[i] != '<'
            && escape(s)[i] != '>' && escape(s)[i] != '"' && escape(s)[i] != '\'' by {
            if i < a.len() {
                assert(escape(s)[i] == a[i]);
            } else {
                assert(escape(s)[i] == b[i - a.len()]);
            }
        }
    }
}

/// Text without markup characters is left as it is.
pub proof fn law_escape_keeps_plain_text(s: Seq<char>)
    requires
        forall|i: int| 0 <= i < s.len() ==> !is_markup(#[trigger] s[i]),
    ensures
        escape(s) == s,
    decreases s.len(),
{
    if s.len() > 0 {
        law_escape_keeps_plain_text(s.drop_last());
        assert(!is_markup(s[s.len() - 1]));
        assert(s.drop_last().push(s.last()) =~= s);
    }
}

/// Every occurrence of the non-empty `p` in `s`, left to right, replaced by `r`.
pub open spec fn replace_all(s: Seq<char>, p: Seq<char>, r: Seq<char>) -> Seq<char>
    decreases s.len(),
{
    match find_seq_from(s, p, 0) {
        Some(i) => if p.len() > 0 && 0 <= i && i + p.len() <= s.len() {
            s.take(i) + r + replace_all(s.skip(i + p.len()), p, r)
        } else {
            s
        },
        None => s,
    }
}

/// The decimal digits of `n`.
pub open spec fn decimal(n: nat) -> Seq<char>
    decreases n,
{
    if n < 10 {
        seq![digit(n)]
    } else {
        decimal(n / 10) + seq![digit(n % 10)]
    }
}

pub open spec fn digit(n: nat) -> char {
    if n == 0 {
        '0'
    } else if n == 1 {
        '1'
    } else if n == 2 {
        '2'
    } else if n == 3 {
        '3'
    } else if n == 4 {
        '4'
    } else if n == 5 {
        '5'
    } else if n == 6 {
        '6'
    } else if n == 7 {
        '7'
    } else if n == 8 {
        '8'
    } else {
        '9'
    }
}

/// The markup of a formula: the SVG MathJax gave (inline ones sized to the
/// line), or an error note with the escaped source.
pub open spec fn math_markup(reply: Option<String>, latex: Seq<char>, is_block: bool) -> Seq<char> {
    match reply {
        Some(svg) => if is_block {
            svg@
        } else {
            replace_all(svg@, "width=\""@, "style=\"height: 1.1em; width: auto;\" width=\""@)
        },
        None => "<span class=\"math-error\">[Math Error: "@ + escape(latex) + "]</span>"@,
    }
}

/// The element that formatted content of a flavor is wrapped in.
pub open spec fn wrap(f: Flavor, h: Seq<char>) -> Seq<char> {
    if f == Flavor::Up {
        "<sup>"@ + h + "</sup>"@
    } else if f == Flavor::Down {
        "<sub>"@ + h + "</sub>"@
    } else if f == Flavor::Charm {
        "<em>"@ + h + "</em>"@
    } else if f == Flavor::Strange {
        "<code>"@ + h + "</code>"@
    } else if f == Flavor::Muon {
        "<strong>"@ + h + "</strong>"@
    } else {
        h
    }
}

/// The HTML of an inline node, and the replies left.
pub open spec fn inline_html(n: Inline, p: Pend) -> (Seq<char>, Pend)
    decreases n,
{
    match n {
        Inline::Text(t) => (escape(t), p),
        Inline::Math(l) => {
            let r = next_math(p, l, false);
            (
                "<span class=\"quarkup-math-inline\" style=\"display: inline-block; vertical-align: -0.15em;\">"@
                    + math_markup(r.0, l, false) + "</span>"@,
                r.1,
            )
        },
        Inline::Formatted(f, c) => {
            let r = inlines_html(c, p);
            (wrap(f, r.0), r.1)
        },
        Inline::Link(url, t) => {
            let r = inlines_html(t, p);
            ("<a href=\""@ + escape(url) + "\">"@ + r.0 + "</a>"@, r.1)
        },
    }
}

/// The HTML of inline content, and the replies left.
pub open spec fn inlines_html(ns: Seq<Inline>, p: Pend) -> (Seq<char>, Pend)
    decreases ns,
{
    if ns.len() == 0 {
        (seq![], p)
    } else {
        let a = inlines_html(ns.drop_last(), p);
        let b = inline_html(ns.last(), a.1);
        (a.0 + b.0, b.1)
    }
}

pub open spec fn open_tag(ordered: bool) -> Seq<char> {
    if ordered {
        "<ol>\n"@
    } else {
        "<ul>\n"@
    }
}

pub open spec fn close_tag(ordered: bool) -> Seq<char> {
    if ordered {
        "</ol>\n"@
    } else {
        "</ul>\n"@
    }
}

/// `n` copies of `s`.
pub open spec fn repeat(s: Seq<char>, n: nat) -> Seq<char>
    decreases n,
{
    if n == 0 {
        seq![]
    } else {
        repeat(s, (n - 1) as nat) + s
    }
}

/// The HTML of list items from nesting level `level` on: each item opens or
/// closes list elements to reach its own level; the list is closed at the end.
pub open spec fn list_html(ordered: bool, items: Seq<Item>, level: nat, p: Pend) -> (
    Seq<char>,
    Pend,
)
    decreases items.len(),
{
    if items.len() == 0 {
        (repeat(close_tag(ordered), level), p)
    } else {
        let it = items[0];
        let moves = if it.level > level {
            repeat(open_tag(ordered), (it.level - level) as nat)
        } else {
            repeat(close_tag(ordered), (level - it.level) as nat)
        };
        let h = inlines_html(it.content, p);
        let rest = list_html(ordered, items.drop_first(), it.level, h.1);
        (moves + "<li>"@ + trim(h.0) + "</li>\n"@ + rest.0, rest.1)
    }
}

/// A piece of a list's HTML: an opening list tag, a closing one, or an item.
pub enum ListPart {
    Open,
    Close,
    Li(Seq<char>),
}

pub open spec fn part_text(ordered: bool, x: ListPart) -> Seq<char> {
    match x {
        ListPart::Open => open_tag(ordered),
        ListPart::Close => close_tag(ordered),
        ListPart::Li(h) => "<li>"@ + h + "</li>\n"@,
    }
}

pub open spec fn parts_text(ordered: bool, ps: Seq<ListPart>) -> Seq<char>
    decreases ps.len(),
{
    if ps.len() == 0 {
        seq![]
    } else {
        parts_text(ordered, ps.drop_last()) + part_text(ordered, ps.last())
    }
}

/// Opening tags minus closing tags.
pub open spec fn depth(ps: Seq<ListPart>) -> int
    decreases ps.len(),
{
    if ps.len() == 0 {
        0
    } else {
        depth(ps.drop_last()) + match ps.last() {
            ListPart::Open => 1int,
            ListPart::Close => -1int,
            ListPart::Li(_) => 0int,
        }
    }
}

pub open spec fn nparts(x: ListPart, n: nat) -> Seq<ListPart> {
    Seq::new(n, |i: int| x)
}

/// The pieces of a list's HTML from nesting level `level` on, in the order
/// `list_html` writes them.
pub open spec fn list_parts(items: Seq<Item>, level: nat, p: Pend) -> Seq<ListPart>
    decreases items.len(),
{
    if items.len() == 0 {
        nparts(ListPart::Close, level)
    } else {
        let it = items[0];
        let moves = if it.level > level {
            nparts(ListPart::Open, (it.level - level) as nat)
        } else {
            nparts(ListPart::Close, (level - it.level) as nat)
        };
        let h = inlines_html(it.content, p);
        moves + seq![ListPart::Li(trim(h.0))] + list_parts(items.drop_first(), it.level, h.1)
    }
}

proof fn lemma_parts_concat(ordered: bool, a: Seq<ListPart>, b: Seq<ListPart>)
    ensures
        parts_text(ordered, a + b) == parts_text(ordered, a) + parts_text(ordered, b),
        depth(a + b) == depth(a) + depth(b),
    decreases b.len(),
{
    if b.len() == 0 {
        assert(a + b =~= a);
    } else {
        lemma_parts_concat(ordered, a, b.drop_last());
        assert((a + b).drop_last() =~= a + b.drop_last());
        assert((a + b).last() == b.last());
    }
}

proof fn lemma_nparts(ordered: bool, x: ListPart, n: nat)
    ensures
        parts_text(ordered, nparts(x, n)) == repeat(part_text(ordered, x), n),
        x == ListPart::Open ==> depth(nparts(x, n)) == n,
        x == ListPart::Close ==> depth(nparts(x, n)) == -n,
        forall|j: int| 0 <= j <= n ==> #[trigger] nparts(x, n).take(j) == nparts(x, j as nat),
    decreases n,
{
    if n > 0 {
        lemma_nparts(ordered, x, (n - 1) as nat);
        assert(nparts(x, n).drop_last() =~= nparts(x, (n - 1) as nat));
        assert(nparts(x, n).last() == x);
    }
    assert forall|j: int| 0 <= j <= n implies #[trigger] nparts(x, n).take(j) == nparts(x, j as nat) by {
        assert(nparts(x, n).take(j) =~= nparts(x, j as nat));
    }
}

proof fn lemma_list_parts(ordered: bool, items: Seq<Item>, level: nat, p: Pend)
    ensures
        parts_text(ordered, list_parts(items, level, p)) == list_html(ordered, items, level, p).0,
        depth(list_parts(items, level, p)) == -level,
        forall|k: int|
            0 <= k <= list_parts(items, level, p).len() ==> depth(
                #[trigger] list_parts(items, level, p).take(k),
            ) >= -level,
    decreases items.len(),
{
    let ps = list_parts(items, level, p);
    if items.len() == 0 {
        lemma_nparts(ordered, ListPart::Close, level);
        assert forall|k: int| 0 <= k <= ps.len() implies depth(#[trigger] ps.take(k)) >= -level by {
            lemma_nparts(ordered, ListPart::Close, k as nat);
        }
    } else {
        let it = items[0];
        let up = it.level > level;
        let x = if up {
            ListPart::Open
        } else {
            ListPart::Close
        };
        let n: nat = if up {
            (it.level - level) as nat
        } else {
            (level - it.level) as nat
        };
        let moves = nparts(x, n);
        let h = inlines_html(it.content, p);
        let li = seq![ListPart::Li(trim(h.0))];
        let rest = list_parts(items.drop_first(), it.level, h.1);
        lemma_list_parts(ordered, items.drop_first(), it.level, h.1);
        lemma_nparts(ordered, x, n);
        assert(ps == moves + li + rest);
        lemma_parts_concat(ordered, moves, li);
        lemma_parts_concat(ordered, moves + li, rest);
        assert(li.drop_last() =~= Seq::<ListPart>::empty());
        assert(li.last() == ListPart::Li(trim(h.0)));
        assert(parts_text(ordered, li.drop_last()) == Seq::<char>::empty());
        assert(depth(li.drop_last()) == 0);
        assert(parts_text(ordered, li) =~= "<li>"@ + trim(h.0) + "</li>\n"@);
        assert(depth(li) == 0);
        assert(parts_text(ordered, ps) =~= list_html(ordered, items, level, p).0);
        assert forall|k: int| 0 <= k <= ps.len() implies depth(#[trigger] ps.take(k)) >= -level by {
            if k <= n {
                assert(ps.take(k) =~= moves.take(k));
                lemma_nparts(ordered, x, k as nat);
            } else if k == n + 1 {
                assert(ps.take(k) =~= moves + li);
            } else {
                let k2 = k - n - 1;
                assert(ps.take(k) =~= (moves + li) + rest.take(k2));
                lemma_parts_concat(ordered, moves + li, rest.take(k2));
                assert(depth(rest.take(k2)) >= -it.level);
            }
        }
    }
}

/// The tags of a list balance: its HTML is a run of opening tags, items and
/// closing tags in which every prefix has opened at least as many lists as
/// it closed, and the whole closes every list it opened.
pub proof fn law_list_tags_balance(ordered: bool, items: Seq<Item>, p: Pend)
    ensures
        parts_text(ordered, list_parts(items, 0, p)) == list_html(ordered, items, 0, p).0,
        depth(list_parts(items, 0, p)) == 0,
        forall|k: int|
            0 <= k <= list_parts(items, 0, p).len() ==> depth(
                #[trigger] list_parts(items, 0, p).take(k),
            ) >= 0,
{
    lemma_list_parts(ordered, items, 0, p);
}

/// The cell that a column-span marker at `j` merges into: the nearest cell
/// to its left that is not itself merged (or the first cell).
pub open spec fn merged_left(cells: Seq<Cell>, j: int) -> int
    decreases j,
{
    if j > 0 && cells[j].is_merged {
        merged_left(cells, j - 1)
    } else {
        j
    }
}

/// The column span of the marker at `col` counted in, if it is one.
pub open spec fn colspan_step(cells: Seq<Cell>, col: int) -> Seq<Cell> {
    if 0 < col < cells.len() && cells[col].is_colspan_marker {
        let l = merged_left(cells, col - 1);
        let left = cells[l];
        let marker = cells[col];
        cells.update(l, Cell { colspan: left.colspan + 1, ..left }).update(
            col,
            Cell { is_merged: true, ..marker },
        )
    } else {
        cells
    }
}

pub proof fn lemma_merged_left(cells: Seq<Cell>, j: int)
    requires
        0 <= j < cells.len(),
    ensures
        0 <= merged_left(cells, j) <= j,
    decreases j,
{
    if j > 0 && cells[j].is_merged {
        lemma_merged_left(cells, j - 1);
    }
}

pub proof fn lemma_colspan_step_len(cells: Seq<Cell>, col: int)
    ensures
        colspan_step(cells, col).len() == cells.len(),
{
    if 0 < col < cells.len() && cells[col].is_colspan_marker {
        lemma_merged_left(cells, col - 1);
    }
}

/// All column-span markers from `col` on counted in, left to right.
pub open spec fn colspans(cells: Seq<Cell>, col: nat) -> Seq<Cell>
    decreases cells.len() - col,
{
    if col >= cells.len() {
        cells
    } else {
        proof {
            lemma_colspan_step_len(cells, col as int);
        }
        colspans(colspan_step(cells, col as int), col + 1)
    }
}

proof fn lemma_colspan_step_keeps(cells: Seq<Cell>, i: int, j: int)
    requires
        0 <= j < cells.len(),
    ensures
        colspan_step(cells, i).len() == cells.len(),
        cells[j].is_merged ==> colspan_step(cells, i)[j].is_merged,
        colspan_step(cells, i)[j].is_colspan_marker == cells[j].is_colspan_marker,
        j == i && 0 < i && cells[j].is_colspan_marker ==> colspan_step(cells, i)[j].is_merged,
{
    lemma_colspan_step_len(cells, i);
    if 0 < i < cells.len() && cells[i].is_colspan_marker {
        lemma_merged_left(cells, i - 1);
    }
}

proof fn lemma_colspans_keep(cells: Seq<Cell>, i: nat, j: int)
    requires
        0 <= j < cells.len(),
    ensures
        colspans(cells, i).len() == cells.len(),
        cells[j].is_merged ==> colspans(cells, i)[j].is_merged,
        i <= j && 0 < j && cells[j].is_colspan_marker ==> colspans(cells, i)[j].is_merged,
    decreases cells.len() - i,
{
    if i < cells.len() {
        lemma_colspan_step_keeps(cells, i as int, j);
        lemma_colspans_keep(colspan_step(cells, i as int), i + 1, j);
    }
}

/// A cell that holds only `>` is merged into the cell on its left: it is
/// left out of the table.
pub proof fn law_colspan_marker_merges(cells: Seq<Cell>, col: int)
    requires
        0 < col < cells.len(),
        cells[col].is_colspan_marker,
    ensures
        colspans(cells, 0).len() == cells.len(),
        colspans(cells, 0)[col].is_merged,
{
    lemma_colspans_keep(cells, 0, col);
}

/// The number of columns that the cells of a row take up: merged cells none,
/// the others their column span.
pub open spec fn row_width(cells: Seq<Cell>) -> int
    decreases cells.len(),
{
    if cells.len() == 0 {
        0
    } else {
        row_width(cells.drop_last()) + (if cells.last().is_merged {
            0
        } else {
            cells.last().colspan as int
        })
    }
}

pub open spec fn width_of(c: Cell) -> int {
    if c.is_merged {
        0
    } else {
        c.colspan as int
    }
}

proof fn lemma_row_width_update(cells: Seq<Cell>, j: int, x: Cell)
    requires
        0 <= j < cells.len(),
    ensures
        row_width(cells.update(j, x)) == row_width(cells) - width_of(cells[j]) + width_of(x),
    decreases cells.len(),
{
    if j < cells.len() - 1 {
        assert(cells.update(j, x).drop_last() =~= cells.drop_last().update(j, x));
        lemma_row_width_update(cells.drop_last(), j, x);
    } else {
        assert(cells.update(j, x).drop_last() =~= cells.drop_last());
    }
}

proof fn lemma_merged_left_unmerged(cells: Seq<Cell>, j: int)
    requires
        0 <= j < cells.len(),
    ensures
        merged_left(cells, j) == 0 || !cells[merged_left(cells, j)].is_merged,
    decreases j,
{
    if j > 0 && cells[j].is_merged {
        lemma_merged_left_unmerged(cells, j - 1);
    }
}

proof fn lemma_unit_width(cells: Seq<Cell>)
    requires
        forall|j: int| 0 <= j < cells.len() ==> !(#[trigger] cells[j]).is_merged && cells[j].colspan == 1,
    ensures
        row_width(cells) == cells.len(),
    decreases cells.len(),
{
    if cells.len() > 0 {
        assert forall|j: int| 0 <= j < cells.drop_last().len() implies !(
        #[trigger] cells.drop_last()[j]).is_merged && cells.drop_last()[j].colspan == 1 by {
            assert(cells.drop_last()[j] == cells[j]);
        }
        lemma_unit_width(cells.drop_last());
        assert(cells.last() == cells[cells.len() - 1]);
    }
}

proof fn lemma_colspans_width(cells: Seq<Cell>, i: nat)
    requires
        forall|j: int| i <= j < cells.len() ==> !(#[trigger] cells[j]).is_merged && cells[j].colspan == 1,
        cells.len() > 0 ==> !cells[0].is_merged,
    ensures
        row_width(colspans(cells, i)) == row_width(cells),
    decreases cells.len() - i,
{
    if i < cells.len() {
        let next = colspan_step(cells, i as int);
        lemma_colspan_step_len(cells, i as int);
        if 0 < i && cells[i as int].is_colspan_marker {
            lemma_merged_left(cells, i - 1);
            lemma_merged_left_unmerged(cells, i - 1);
            let l = merged_left(cells, i - 1);
            let left = cells[l];
            let marker = cells[i as int];
            let s1 = cells.update(l, Cell { colspan: left.colspan + 1, ..left });
            lemma_row_width_update(cells, l, Cell { colspan: left.colspan + 1, ..left });
            lemma_row_width_update(s1, i as int, Cell { is_merged: true, ..marker });
            assert(s1[i as int] == marker);
            assert(next == s1.update(i as int, Cell { is_merged: true, ..marker }));
        }
        assert forall|j: int| i + 1 <= j < next.len() implies !(#[trigger] next[j]).is_merged
            && next[j].colspan == 1 by {
            if 0 < i && cells[i as int].is_colspan_marker {
                lemma_merged_left(cells, i - 1);
            }
        }
        if 0 < i && cells[i as int].is_colspan_marker {
            lemma_merged_left(cells, i - 1);
        }
        lemma_colspans_width(next, i + 1);
    }
}

/// Merging cells never changes how wide a row is: the cells of a row as the
/// parser builds them (none merged, each one column wide) take up, once the
/// column-span markers are counted in, as many columns as the row has cells.
pub proof fn law_colspans_keep_width(cells: Seq<Cell>)
    requires
        forall|j: int| 0 <= j < cells.len() ==> !(#[trigger] cells[j]).is_merged && cells[j].colspan == 1,
    ensures
        row_width(colspans(cells, 0)) == cells.len(),
{
    lemma_unit_width(cells);
    lemma_colspans_width(cells, 0);
}

pub open spec fn row_colspans(r: Row) -> Row {
    if r.row_type == RowType::Section {
        r
    } else {
        Row { row_type: r.row_type, cells: colspans(r.cells, 0) }
    }
}

/// The row a row-span marker under row `t` reaches up to: section rows are passed over.
pub open spec fn section_above(rows: Seq<Row>, t: int) -> int
    decreases t,
{
    if t > 0 && rows[t].row_type == RowType::Section {
        section_above(rows, t - 1)
    } else {
        t
    }
}

/// The row whose cell in column `ci` a row-span marker merges into: cells
/// already merged upwards are passed over.
pub open spec fn merged_above(rows: Seq<Row>, t: int, ci: int) -> int
    decreases t,
{
    if t > 0 && ci < rows[t].cells.len() && rows[t].cells[ci].is_merged
        && !rows[t].cells[ci].is_colspan_marker {
        merged_above(rows, t - 1, ci)
    } else {
        t
    }
}

pub open spec fn set_cell(rows: Seq<Row>, r: int, c: int, cell: Cell) -> Seq<Row> {
    rows.update(r, Row { row_type: rows[r].row_type, cells: rows[r].cells.update(c, cell) })
}

/// The row span of the marker at row `ri`, column `ci` counted in, if it is one.
pub open spec fn rowspan_step(rows: Seq<Row>, ri: int, ci: int) -> Seq<Row> {
    if 0 < ri < rows.len() && 0 <= ci < rows[ri].cells.len()
        && rows[ri].cells[ci].is_rowspan_marker {
        let top = section_above(rows, ri - 1);
        if 0 <= top && ci < rows[top].cells.len() {
            let t = merged_above(rows, top, ci);
            if 0 <= t && ci < rows[t].cells.len() {
                let target = rows[t].cells[ci];
                let rows1 = set_cell(rows, t, ci, Cell { rowspan: target.rowspan + 1, ..target });
                let marker = rows1[ri].cells[ci];
                set_cell(rows1, ri, ci, Cell { is_merged: true, ..marker })
            } else {
                rows
            }
        } else {
            rows
        }
    } else {
        rows
    }
}

/// The row-span markers of row `ri` from column `ci` on counted in.
pub open spec fn rowspans_row(rows: Seq<Row>, ri: int, ci: nat, n: nat) -> Seq<Row>
    decreases n - ci,
{
    if ci >= n {
        rows
    } else {
        rowspans_row(rowspan_step(rows, ri, ci as int), ri, ci + 1, n)
    }
}

pub proof fn lemma_section_above(rows: Seq<Row>, t: int)
    requires
        0 <= t < rows.len(),
    ensures
        0 <= section_above(rows, t) <= t,
    decreases t,
{
    if t > 0 && rows[t].row_type == RowType::Section {
        lemma_section_above(rows, t - 1);
    }
}

pub proof fn lemma_merged_above(rows: Seq<Row>, t: int, ci: int)
    requires
        0 <= t < rows.len(),
    ensures
        0 <= merged_above(rows, t, ci) <= t,
    decreases t,
{
    if t > 0 && ci < rows[t].cells.len() && rows[t].cells[ci].is_merged
        && !rows[t].cells[ci].is_colspan_marker {
        lemma_merged_above(rows, t - 1, ci);
    }
}

pub proof fn lemma_rowspan_step(rows: Seq<Row>, ri: int, ci: int)
    ensures
        rowspan_step(rows, ri, ci).len() == rows.len(),
        forall|r: int|
            0 <= r < rows.len() ==> (#[trigger] rowspan_step(rows, ri, ci)[r]).cells.len()
                == rows[r].cells.len() && rowspan_step(rows, ri, ci)[r].row_type
                == rows[r].row_type,
{
    if 0 < ri < rows.len() && 0 <= ci < rows[ri].cells.len()
        && rows[ri].cells[ci].is_rowspan_marker {
        lemma_section_above(rows, ri - 1);
        let top = section_above(rows, ri - 1);
        if ci < rows[top].cells.len() {
            lemma_merged_above(rows, top, ci);
        }
    }
}

pub proof fn lemma_rowspans_row_len(rows: Seq<Row>, ri: int, ci: nat, n: nat)
    ensures
        rowspans_row(rows, ri, ci, n).len() == rows.len(),
        forall|r: int|
            0 <= r < rows.len() ==> (#[trigger] rowspans_row(rows, ri, ci, n)[r]).cells.len()
                == rows[r].cells.len() && rowspans_row(rows, ri, ci, n)[r].row_type
                == rows[r].row_type,
    decreases n - ci,
{
    if ci < n {
        lemma_rowspan_step(rows, ri, ci as int);
        lemma_rowspans_row_len(rowspan_step(rows, ri, ci as int), ri, ci + 1, n);
    }
}

/// The row-span markers of all rows from `ri` on counted in, top to bottom.
pub open spec fn rowspans(rows: Seq<Row>, ri: nat) -> Seq<Row>
    decreases rows.len() - ri,
{
    if ri >= rows.len() {
        rows
    } else if rows[ri as int].row_type == RowType::Section {
        rowspans(rows, ri + 1)
    } else {
        proof {
            lemma_rowspans_row_len(rows, ri as int, 0, rows[ri as int].cells.len());
        }
        rowspans(rowspans_row(rows, ri as int, 0, rows[ri as int].cells.len()), ri + 1)
    }
}

/// Every row from the first down to the non-section row above row `ri` has
/// a cell in column `ci`: a row-span marker there has a cell to merge into.
pub open spec fn column_above(rows: Seq<Row>, ri: int, ci: int) -> bool {
    forall|r: int| 0 <= r <= section_above(rows, ri - 1) ==> ci < (#[trigger] rows[r]).cells.len()
}

/// The same rows, row types, cell counts and row-span markers.
spec fn same_shape(a: Seq<Row>, b: Seq<Row>) -> bool {
    &&& a.len() == b.len()
    &&& forall|r: int|
        0 <= r < a.len() ==> (#[trigger] b[r]).row_type == a[r].row_type && b[r].cells.len()
            == a[r].cells.len()
    &&& forall|r: int, c: int|
        0 <= r < a.len() && 0 <= c < a[r].cells.len() ==> (#[trigger] b[r].cells[c]).is_rowspan_marker
            == a[r].cells[c].is_rowspan_marker
}

/// Cells merged in `a` are merged in `b`.
spec fn keeps_merged(a: Seq<Row>, b: Seq<Row>) -> bool {
    forall|r: int, c: int|
        0 <= r < a.len() && 0 <= c < a[r].cells.len() && a[r].cells[c].is_merged
            ==> (#[trigger] b[r].cells[c]).is_merged
}

proof fn lemma_section_above_shape(a: Seq<Row>, b: Seq<Row>, t: int)
    requires
        same_shape(a, b),
        0 <= t < a.len(),
    ensures
        section_above(a, t) == section_above(b, t),
    decreases t,
{
    assert(b[t].row_type == a[t].row_type);
    if t > 0 && a[t].row_type == RowType::Section {
        lemma_section_above_shape(a, b, t - 1);
    }
}

proof fn lemma_column_above_shape(a: Seq<Row>, b: Seq<Row>, ri: int, ci: int)
    requires
        same_shape(a, b),
        0 < ri < a.len(),
        column_above(a, ri, ci),
    ensures
        column_above(b, ri, ci),
{
    lemma_section_above_shape(a, b, ri - 1);
    lemma_section_above(a, ri - 1);
    assert forall|r: int| 0 <= r <= section_above(b, ri - 1) implies ci < (#[trigger] b[r]).cells.len() by {
        assert(ci < a[r].cells.len());
    }
}

proof fn lemma_rowspan_step_facts(rows: Seq<Row>, ri: int, ci: int)
    ensures
        same_shape(rows, rowspan_step(rows, ri, ci)),
        keeps_merged(rows, rowspan_step(rows, ri, ci)),
        0 < ri < rows.len() && 0 <= ci < rows[ri].cells.len() && rows[ri].cells[ci].is_rowspan_marker
            && column_above(rows, ri, ci) ==> rowspan_step(rows, ri, ci)[ri].cells[ci].is_merged,
{
    let st = rowspan_step(rows, ri, ci);
    if 0 < ri < rows.len() && 0 <= ci < rows[ri].cells.len() && rows[ri].cells[ci].is_rowspan_marker {
        lemma_section_above(rows, ri - 1);
        let top = section_above(rows, ri - 1);
        if 0 <= top && ci < rows[top].cells.len() {
            lemma_merged_above(rows, top, ci);
            let t = merged_above(rows, top, ci);
            if 0 <= t && ci < rows[t].cells.len() {
                let target = rows[t].cells[ci];
                let rows1 = set_cell(rows, t, ci, Cell { rowspan: target.rowspan + 1, ..target });
                assert forall|r: int| 0 <= r < rows.len() implies (#[trigger] rows1[r]).row_type
                    == rows[r].row_type && rows1[r].cells.len() == rows[r].cells.len() by {}
                assert forall|r: int, c: int|
                    0 <= r < rows.len() && 0 <= c < rows[r].cells.len() implies (
                    #[trigger] rows1[r].cells[c]).is_rowspan_marker == rows[r].cells[c].is_rowspan_marker
                    && (rows[r].cells[c].is_merged ==> rows1[r].cells[c].is_merged) by {
                    if r == t && c == ci {
                    } else if r == t {
                        assert(rows1[r].cells[c] == rows[r].cells[c]);
                    }
                }
                let marker = rows1[ri].cells[ci];
                assert forall|r: int| 0 <= r < rows.len() implies (#[trigger] st[r]).row_type
                    == rows[r].row_type && st[r].cells.len() == rows[r].cells.len() by {}
                assert forall|r: int, c: int|
                    0 <= r < rows.len() && 0 <= c < rows[r].cells.len() implies (
                    #[trigger] st[r].cells[c]).is_rowspan_marker == rows[r].cells[c].is_rowspan_marker
                    && (rows[r].cells[c].is_merged ==> st[r].cells[c].is_merged) by {
                    assert(rows1[r].cells[c].is_rowspan_marker == rows[r].cells[c].is_rowspan_marker);
                    if r == ri && c == ci {
                    } else if r == ri {
                        assert(st[r].cells[c] == rows1[r].cells[c]);
                    }
                }
            } else {
                assert(column_above(rows, ri, ci) ==> ci < rows[t].cells.len());
            }
        }
    }
}

proof fn lemma_rowspans_row_facts(rows: Seq<Row>, ri: int, ci: nat, n: nat, c0: int)
    ensures
        same_shape(rows, rowspans_row(rows, ri, ci, n)),
        keeps_merged(rows, rowspans_row(rows, ri, ci, n)),
        ci <= c0 < n && 0 < ri < rows.len() && c0 < rows[ri].cells.len()
            && rows[ri].cells[c0].is_rowspan_marker && column_above(rows, ri, c0)
            ==> rowspans_row(rows, ri, ci, n)[ri].cells[c0].is_merged,
    decreases n - ci,
{
    if ci < n {
        let st = rowspan_step(rows, ri, ci as int);
        lemma_rowspan_step_facts(rows, ri, ci as int);
        lemma_rowspans_row_facts(st, ri, ci + 1, n, c0);
        let fin = rowspans_row(rows, ri, ci, n);
        assert(fin == rowspans_row(st, ri, ci + 1, n));
        if ci <= c0 < n && 0 < ri < rows.len() && c0 < rows[ri].cells.len()
            && rows[ri].cells[c0].is_rowspan_marker && column_above(rows, ri, c0) {
            if c0 > ci {
                assert(st[ri].cells[c0].is_rowspan_marker);
                lemma_column_above_shape(rows, st, ri, c0);
            } else {
                assert(st[ri].cells[c0].is_merged);
            }
        }
    }
}

proof fn lemma_rowspans_facts(rows: Seq<Row>, i: nat, r0: int, c0: int)
    ensures
        same_shape(rows, rowspans(rows, i)),
        keeps_merged(rows, rowspans(rows, i)),
        i <= r0 && 0 < r0 < rows.len() && rows[r0].row_type != RowType::Section && 0 <= c0
            < rows[r0].cells.len() && rows[r0].cells[c0].is_rowspan_marker && column_above(rows, r0, c0)
            ==> rowspans(rows, i)[r0].cells[c0].is_merged,
    decreases rows.len() - i,
{
    if i < rows.len() {
        if rows[i as int].row_type == RowType::Section {
            lemma_rowspans_facts(rows, i + 1, r0, c0);
        } else {
            let n = rows[i as int].cells.len();
            let st = rowspans_row(rows, i as int, 0, n);
            lemma_rowspans_row_facts(rows, i as int, 0, n, c0);
            lemma_rowspans_facts(st, i + 1, r0, c0);
            if i <= r0 && 0 < r0 < rows.len() && rows[r0].row_type != RowType::Section && 0 <= c0
                < rows[r0].cells.len() && rows[r0].cells[c0].is_rowspan_marker && column_above(rows, r0, c0) {
                if r0 > i {
                    assert(st[r0].row_type == rows[r0].row_type);
                    assert(st[r0].cells[c0].is_rowspan_marker);
                    lemma_column_above_shape(rows, st, r0, c0);
                }
            }
        }
    }
}

/// A cell that holds only `_`, below a non-section row, is merged into the
/// cell above it and left out of the table, wherever every row up to the
/// one above it has a cell in its column.
pub proof fn law_rowspan_marker_merges(rows: Seq<Row>, ri: int, ci: int)
    requires
        0 < ri < rows.len(),
        rows[ri].row_type != RowType::Section,
        0 <= ci < rows[ri].cells.len(),
        rows[ri].cells[ci].is_rowspan_marker,
        column_above(rows, ri, ci),
    ensures
        rowspans(rows, 0).len() == rows.len(),
        rowspans(rows, 0)[ri].cells[ci].is_merged,
{
    lemma_rowspans_facts(rows, 0, ri, ci);
}

/// The same rows, row types and cell counts, and the same cells in column `ci`.
spec fn col_eq(a: Seq<Row>, b: Seq<Row>, ci: int) -> bool {
    &&& a.len() == b.len()
    &&& forall|j: int|
        0 <= j < a.len() ==> (#[trigger] b[j]).row_type == a[j].row_type && b[j].cells.len()
            == a[j].cells.len() && (0 <= ci < a[j].cells.len() ==> b[j].cells[ci]
            == a[j].cells[ci])
}

proof fn lemma_col_eq_section(a: Seq<Row>, b: Seq<Row>, ci: int, t: int)
    requires
        col_eq(a, b, ci),
        0 <= t < a.len(),
    ensures
        section_above(a, t) == section_above(b, t),
    decreases t,
{
    assert(b[t].row_type == a[t].row_type);
    if t > 0 && a[t].row_type == RowType::Section {
        lemma_col_eq_section(a, b, ci, t - 1);
    }
}

proof fn lemma_col_eq_merged(a: Seq<Row>, b: Seq<Row>, ci: int, t: int)
    requires
        col_eq(a, b, ci),
        0 <= t < a.len(),
        0 <= ci,
    ensures
        merged_above(a, t, ci) == merged_above(b, t, ci),
    decreases t,
{
    assert(b[t].cells.len() == a[t].cells.len());
    if ci < a[t].cells.len() {
        assert(b[t].cells[ci] == a[t].cells[ci]);
    }
    if t > 0 && ci < a[t].cells.len() && a[t].cells[ci].is_merged
        && !a[t].cells[ci].is_colspan_marker {
        lemma_col_eq_merged(a, b, ci, t - 1);
    }
}

/// A row-span step in column `ci` sees and changes column `ci` alone.
proof fn lemma_col_eq_step(a: Seq<Row>, b: Seq<Row>, ri: int, ci: int)
    requires
        col_eq(a, b, ci),
        0 <= ci,
    ensures
        col_eq(rowspan_step(a, ri, ci), rowspan_step(b, ri, ci), ci),
{
    lemma_rowspan_step(a, ri, ci);
    lemma_rowspan_step(b, ri, ci);
    let sa = rowspan_step(a, ri, ci);
    let sb = rowspan_step(b, ri, ci);
    if 0 < ri < a.len() && ci < a[ri].cells.len() && a[ri].cells[ci].is_rowspan_marker {
        assert(b[ri].cells[ci] == a[ri].cells[ci]);
        lemma_section_above(a, ri - 1);
        lemma_col_eq_section(a, b, ci, ri - 1);
        let top = section_above(a, ri - 1);
        assert(b[top].cells.len() == a[top].cells.len());
        if ci < a[top].cells.len() {
            lemma_merged_above(a, top, ci);
            lemma_col_eq_merged(a, b, ci, top);
            let t = merged_above(a, top, ci);
            assert(b[t].cells.len() == a[t].cells.len());
            if ci < a[t].cells.len() {
                assert(b[t].cells[ci] == a[t].cells[ci]);
                assert forall|j: int| 0 <= j < sa.len() implies (#[trigger] sb[j]).row_type
                    == sa[j].row_type && sb[j].cells.len() == sa[j].cells.len() && (0 <= ci
                    < sa[j].cells.len() ==> sb[j].cells[ci] == sa[j].cells[ci]) by {
                    assert(b[j].row_type == a[j].row_type);
                    assert(b[j].cells.len() == a[j].cells.len());
                    if j != t && j != ri && ci < a[j].cells.len() {
                        assert(b[j].cells[ci] == a[j].cells[ci]);
                    }
                }
            }
        }
    } else {
        if 0 < ri < a.len() && ci < a[ri].cells.len() {
            assert(b[ri].cells[ci] == a[ri].cells[ci]);
        }
    }
}

proof fn lemma_col_eq_trans(a: Seq<Row>, b: Seq<Row>, c: Seq<Row>, ci: int)
    requires
        col_eq(a, b, ci),
        col_eq(b, c, ci),
    ensures
        col_eq(a, c, ci),
        col_eq(c, a, ci),
{
    assert forall|j: int| 0 <= j < a.len() implies (#[trigger] c[j]).row_type == a[j].row_type
        && c[j].cells.len() == a[j].cells.len() && (0 <= ci < a[j].cells.len() ==> c[j].cells[ci]
        == a[j].cells[ci]) by {
        assert(b[j].row_type == a[j].row_type);
    }
    assert forall|j: int| 0 <= j < c.len() implies (#[trigger] a[j]).row_type == c[j].row_type
        && a[j].cells.len() == c[j].cells.len() && (0 <= ci < c[j].cells.len() ==> a[j].cells[ci]
        == c[j].cells[ci]) by {
        assert(b[j].row_type == a[j].row_type);
    }
}

proof fn lemma_col_eq_sym(a: Seq<Row>, b: Seq<Row>, ci: int)
    requires
        col_eq(a, b, ci),
    ensures
        col_eq(b, a, ci),
{
    assert forall|j: int| 0 <= j < b.len() implies (#[trigger] a[j]).row_type == b[j].row_type
        && a[j].cells.len() == b[j].cells.len() && (0 <= ci < b[j].cells.len() ==> a[j].cells[ci]
        == b[j].cells[ci]) by {
        assert(b[j].row_type == a[j].row_type);
    }
}

proof fn lemma_col_eq_refl(a: Seq<Row>, ci: int)
    ensures
        col_eq(a, a, ci),
{
}

/// A row-span step in another column leaves column `ci` as it was.
proof fn lemma_step_other_col(rows: Seq<Row>, ri: int, c2: int, ci: int)
    requires
        c2 != ci,
        0 <= ci,
    ensures
        col_eq(rows, rowspan_step(rows, ri, c2), ci),
{
    lemma_rowspan_step(rows, ri, c2);
    let st = rowspan_step(rows, ri, c2);
    if 0 < ri < rows.len() && 0 <= c2 < rows[ri].cells.len() && rows[ri].cells[c2].is_rowspan_marker {
        lemma_section_above(rows, ri - 1);
        let top = section_above(rows, ri - 1);
        if 0 <= top && c2 < rows[top].cells.len() {
            lemma_merged_above(rows, top, c2);
            let t = merged_above(rows, top, c2);
            if 0 <= t && c2 < rows[t].cells.len() {
                let target = rows[t].cells[c2];
                let rows1 = set_cell(rows, t, c2, Cell { rowspan: target.rowspan + 1, ..target });
                assert forall|j: int| 0 <= j < rows.len() implies (#[trigger] st[j]).row_type
                    == rows[j].row_type && st[j].cells.len() == rows[j].cells.len() && (0 <= ci
                    < rows[j].cells.len() ==> st[j].cells[ci] == rows[j].cells[ci]) by {
                    if 0 <= ci < rows[j].cells.len() {
                        assert(rows1[j].cells[ci] == rows[j].cells[ci]);
                    }
                }
            }
        }
    }
}

/// A row-span step at row `ri` leaves the rows below it as they were.
proof fn lemma_step_below(rows: Seq<Row>, ri: int, c: int, j: int)
    requires
        ri < j < rows.len(),
    ensures
        rowspan_step(rows, ri, c)[j] == rows[j],
{
    if 0 < ri < rows.len() && 0 <= c < rows[ri].cells.len() && rows[ri].cells[c].is_rowspan_marker {
        lemma_section_above(rows, ri - 1);
        let top = section_above(rows, ri - 1);
        if 0 <= top && c < rows[top].cells.len() {
            lemma_merged_above(rows, top, c);
        }
    }
}

/// Working through a row changes column `ci` as the step in that column does.
proof fn lemma_row_col(rows: Seq<Row>, ri: int, c: nat, n: nat, ci: int)
    requires
        0 <= ci,
    ensures
        col_eq(
            rowspans_row(rows, ri, c, n),
            if c <= ci < n {
                rowspan_step(rows, ri, ci)
            } else {
                rows
            },
            ci,
        ),
    decreases n - c,
{
    lemma_rowspans_row_len(rows, ri, c, n);
    if c < n {
        let s1 = rowspan_step(rows, ri, c as int);
        lemma_row_col(s1, ri, c + 1, n, ci);
        let r = rowspans_row(s1, ri, c + 1, n);
        lemma_rowspan_step(rows, ri, ci);
        if c as int != ci {
            lemma_step_other_col(rows, ri, c as int, ci);
            if c + 1 <= ci < n {
                lemma_col_eq_step(rows, s1, ri, ci);
                lemma_rowspan_step(s1, ri, ci);
                lemma_col_eq_sym(r, rowspan_step(s1, ri, ci), ci);
                lemma_col_eq_trans(rowspan_step(rows, ri, ci), rowspan_step(s1, ri, ci), r, ci);
            } else {
                lemma_col_eq_trans(rows, s1, r, ci);
            }
        }
    } else {
        lemma_col_eq_refl(rows, ci);
    }
}

/// The row a marker below the run merges into is the run's visible top cell.
proof fn lemma_merged_chain(rows: Seq<Row>, r: int, m: int, ci: int)
    requires
        0 <= r <= m < rows.len(),
        0 <= ci,
        forall|j: int| r <= j <= m ==> ci < (#[trigger] rows[j]).cells.len(),
        forall|j: int|
            r < j <= m ==> (#[trigger] rows[j].cells[ci]).is_merged
                && !rows[j].cells[ci].is_colspan_marker,
        !rows[r].cells[ci].is_merged,
    ensures
        merged_above(rows, m, ci) == r,
    decreases m - r,
{
    assert(ci < rows[m].cells.len());
    if m > r {
        assert(rows[m].cells[ci].is_merged);
        lemma_merged_chain(rows, r, m - 1, ci);
    }
}

/// How many markers of the run below row `r` the rows before `i` hold.
spec fn markers_done(i: int, r: int, n: int) -> int {
    if i <= r + 1 {
        0
    } else if i - 1 - r >= n {
        n
    } else {
        i - 1 - r
    }
}

/// Column `ci` once the rows before `i` are worked through: a visible cell at
/// row `r` over `n` markers, those above `i` merged into it.
spec fn run_state(s: Seq<Row>, i: int, r: int, n: int, ci: int, base: nat) -> bool {
    &&& 0 <= r && 1 <= n && r + n < s.len() && 0 <= i <= s.len() && 0 <= ci
    &&& forall|j: int|
        r <= j <= r + n ==> (#[trigger] s[j]).row_type != RowType::Section && ci
            < s[j].cells.len()
    &&& forall|j: int|
        r < j <= r + n ==> (#[trigger] s[j].cells[ci]).is_rowspan_marker
            && !s[j].cells[ci].is_colspan_marker && (s[j].cells[ci].is_merged <==> j < i)
    &&& !s[r].cells[ci].is_merged && !s[r].cells[ci].is_rowspan_marker
    &&& forall|j: int|
        r + n < j < s.len() && ci < s[j].cells.len() ==> !(
        #[trigger] s[j].cells[ci]).is_rowspan_marker
    &&& s[r].cells[ci].rowspan == base + markers_done(i, r, n)
}

proof fn lemma_run(s: Seq<Row>, i: nat, r: int, n: int, ci: int, base: nat)
    requires
        run_state(s, i as int, r, n, ci, base),
    ensures
        rowspans(s, i)[r].cells[ci].rowspan == base + n,
    decreases s.len() - i,
{
    if i < s.len() {
        let ii = i as int;
        if s[ii].row_type == RowType::Section {
            assert(!(r <= ii <= r + n));
            lemma_run(s, i + 1, r, n, ci, base);
        } else {
            let len = s[ii].cells.len();
            let s2 = rowspans_row(s, ii, 0, len);
            lemma_rowspans_row_len(s, ii, 0, len);
            lemma_row_col(s, ii, 0, len, ci);
            let x = if ci < len {
                rowspan_step(s, ii, ci)
            } else {
                s
            };
            lemma_rowspan_step(s, ii, ci);
            assert(col_eq(s2, x, ci));
            if r < ii <= r + n {
                let top = section_above(s, ii - 1);
                assert(s[ii - 1].row_type != RowType::Section);
                assert(top == ii - 1);
                lemma_merged_chain(s, r, ii - 1, ci);
                let target = s[r].cells[ci];
                let rows1 = set_cell(s, r, ci, Cell { rowspan: target.rowspan + 1, ..target });
                assert(x == set_cell(rows1, ii, ci, Cell { is_merged: true, ..rows1[ii].cells[ci] }));
                assert(x[r].cells[ci].rowspan == target.rowspan + 1);
                assert forall|j: int| r <= j <= r + n implies (#[trigger] s2[j]).row_type
                    != RowType::Section && ci < s2[j].cells.len() by {
                    assert(x[j].row_type == s[j].row_type);
                }
                assert forall|j: int| r < j <= r + n implies (
                #[trigger] s2[j].cells[ci]).is_rowspan_marker && !s2[j].cells[ci].is_colspan_marker
                    && (s2[j].cells[ci].is_merged <==> j < ii + 1) by {
                    assert(s2[j].cells[ci] == x[j].cells[ci]);
                    if j != ii {
                        assert(x[j].cells[ci] == s[j].cells[ci]);
                    }
                }
                assert forall|j: int| r + n < j < s2.len() && ci < s2[j].cells.len() implies !(
                #[trigger] s2[j].cells[ci]).is_rowspan_marker by {
                    assert(s2[j].cells[ci] == x[j].cells[ci]);
                    assert(x[j].cells[ci] == s[j].cells[ci]);
                }
                assert(s2[r].cells[ci] == x[r].cells[ci]);
                assert(run_state(s2, ii + 1, r, n, ci, base));
            } else {
                assert forall|j: int| r <= j < s.len() && 0 <= ci < s[j].cells.len() implies #[trigger] x[j].cells[ci]
                    == s[j].cells[ci] by {
                    if ci < len && ii < r {
                        lemma_step_below(s, ii, ci, j);
                    }
                }
                assert forall|j: int| r <= j <= r + n implies (#[trigger] s2[j]).row_type
                    != RowType::Section && ci < s2[j].cells.len() by {
                    assert(x[j].row_type == s[j].row_type);
                }
                assert forall|j: int| r < j <= r + n implies (
                #[trigger] s2[j].cells[ci]).is_rowspan_marker && !s2[j].cells[ci].is_colspan_marker
                    && (s2[j].cells[ci].is_merged <==> j < ii + 1) by {
                    assert(s2[j].cells[ci] == x[j].cells[ci]);
                    assert(x[j].cells[ci] == s[j].cells[ci]);
                }
                assert forall|j: int| r + n < j < s2.len() && ci < s2[j].cells.len() implies !(
                #[trigger] s2[j].cells[ci]).is_rowspan_marker by {
                    assert(s2[j].cells[ci] == x[j].cells[ci]);
                    assert(x[j].cells[ci] == s[j].cells[ci]);
                }
                assert(s2[r].cells[ci] == x[r].cells[ci]);
                assert(x[r].cells[ci] == s[r].cells[ci]);
                assert(run_state(s2, ii + 1, r, n, ci, base));
            }
            lemma_run(s2, i + 1, r, n, ci, base);
        }
    }
}

/// In a column where a visible cell in row `r` is followed by `n` non-section
/// rows whose cells there all hold only `_`, the visible cell spans them all:
/// its row span grows by exactly `n`, each marker counting towards the nearest
/// unmerged cell above it (so, from a span of one, it spans `n + 1` rows).
pub proof fn law_rowspan_run(rows: Seq<Row>, r: int, n: int, ci: int)
    requires
        0 <= r,
        1 <= n,
        r + n < rows.len(),
        0 <= ci,
        forall|j: int|
            r <= j <= r + n ==> (#[trigger] rows[j]).row_type != RowType::Section && ci
                < rows[j].cells.len(),
        !rows[r].cells[ci].is_merged,
        !rows[r].cells[ci].is_rowspan_marker,
        forall|j: int|
            r < j <= r + n ==> (#[trigger] rows[j].cells[ci]).is_rowspan_marker
                && !rows[j].cells[ci].is_merged && !rows[j].cells[ci].is_colspan_marker,
        forall|j: int|
            r + n < j < rows.len() && ci < rows[j].cells.len() ==> !(
            #[trigger] rows[j].cells[ci]).is_rowspan_marker,
    ensures
        rowspans(rows, 0)[r].cells[ci].rowspan == rows[r].cells[ci].rowspan + n,
{
    assert(run_state(rows, 0, r, n, ci, rows[r].cells[ci].rowspan));
    lemma_run(rows, 0, r, n, ci, rows[r].cells[ci].rowspan);
}

proof fn lemma_section_chain(rows: Seq<Row>, r: int, t: int)
    requires
        0 <= r <= t < rows.len(),
        r == 0 || rows[r].row_type != RowType::Section,
        forall|j: int| r < j <= t ==> (#[trigger] rows[j]).row_type == RowType::Section,
    ensures
        section_above(rows, t) == r,
    decreases t - r,
{
    if t > r {
        assert(rows[t].row_type == RowType::Section);
        lemma_section_chain(rows, r, t - 1);
    }
}

/// Column `ci` once the rows before `i` are worked through: a visible cell at
/// row `r`, section rows, then one marker at row `a`.
spec fn gap_state(s: Seq<Row>, i: int, r: int, a: int, ci: int, base: nat) -> bool {
    &&& 0 <= r < a < s.len() && 0 <= i <= s.len() && 0 <= ci
    &&& s[r].row_type != RowType::Section && ci < s[r].cells.len()
    &&& !s[r].cells[ci].is_merged && !s[r].cells[ci].is_rowspan_marker
    &&& forall|j: int| r < j < a ==> (#[trigger] s[j]).row_type == RowType::Section
    &&& s[a].row_type != RowType::Section && ci < s[a].cells.len()
    &&& s[a].cells[ci].is_rowspan_marker && !s[a].cells[ci].is_colspan_marker
    &&& (s[a].cells[ci].is_merged <==> a < i)
    &&& forall|j: int|
        a < j < s.len() && ci < s[j].cells.len() ==> !(#[trigger] s[j].cells[ci]).is_rowspan_marker
    &&& s[r].cells[ci].rowspan == base + (if a < i {
        1int
    } else {
        0int
    })
}

proof fn lemma_gap(s: Seq<Row>, i: nat, r: int, a: int, ci: int, base: nat)
    requires
        gap_state(s, i as int, r, a, ci, base),
    ensures
        rowspans(s, i)[r].cells[ci].rowspan == base + 1,
    decreases s.len() - i,
{
    if i < s.len() {
        let ii = i as int;
        if s[ii].row_type == RowType::Section {
            lemma_gap(s, i + 1, r, a, ci, base);
        } else {
            let len = s[ii].cells.len();
            let s2 = rowspans_row(s, ii, 0, len);
            lemma_rowspans_row_len(s, ii, 0, len);
            lemma_row_col(s, ii, 0, len, ci);
            let x = if ci < len {
                rowspan_step(s, ii, ci)
            } else {
                s
            };
            lemma_rowspan_step(s, ii, ci);
            assert(col_eq(s2, x, ci));
            if ii == a {
                lemma_section_chain(s, r, a - 1);
                assert(merged_above(s, r, ci) == r);
                let target = s[r].cells[ci];
                let rows1 = set_cell(s, r, ci, Cell { rowspan: target.rowspan + 1, ..target });
                assert(x == set_cell(rows1, a, ci, Cell { is_merged: true, ..rows1[a].cells[ci] }));
                assert forall|j: int| r < j < a implies (#[trigger] s2[j]).row_type
                    == RowType::Section by {
                    assert(x[j].row_type == s[j].row_type);
                }
                assert forall|j: int| a < j < s2.len() && ci < s2[j].cells.len() implies !(
                #[trigger] s2[j].cells[ci]).is_rowspan_marker by {
                    assert(s2[j].cells[ci] == x[j].cells[ci]);
                    assert(x[j].cells[ci] == s[j].cells[ci]);
                }
                assert(s2[r].cells[ci] == x[r].cells[ci]);
                assert(s2[a].cells[ci] == x[a].cells[ci]);
                assert(gap_state(s2, ii + 1, r, a, ci, base));
            } else {
                assert(!(r < ii < a));
                assert forall|j: int| r <= j < s.len() && 0 <= ci < s[j].cells.len() implies #[trigger] x[j].cells[ci]
                    == s[j].cells[ci] by {
                    if ci < len && ii < r {
                        lemma_step_below(s, ii, ci, j);
                    }
                }
                assert forall|j: int| r < j < a implies (#[trigger] s2[j]).row_type
                    == RowType::Section by {
                    assert(x[j].row_type == s[j].row_type);
                }
                assert forall|j: int| a < j < s2.len() && ci < s2[j].cells.len() implies !(
                #[trigger] s2[j].cells[ci]).is_rowspan_marker by {
                    assert(s2[j].cells[ci] == x[j].cells[ci]);
                    assert(x[j].cells[ci] == s[j].cells[ci]);
                }
                assert(s2[r].cells[ci] == x[r].cells[ci]);
                assert(s2[a].cells[ci] == x[a].cells[ci]);
                assert(gap_state(s2, ii + 1, r, a, ci, base));
            }
            lemma_gap(s2, i + 1, r, a, ci, base);
        }
    }
}

/// Section rows are passed over: a `_` cell whose nearest non-section row
/// above lies past one or more section rows merges into the visible cell of
/// that row, whose row span grows by one.
pub proof fn law_rowspan_over_sections(rows: Seq<Row>, r: int, a: int, ci: int)
    requires
        0 <= r,
        r + 1 < a < rows.len(),
        0 <= ci,
        rows[r].row_type != RowType::Section,
        ci < rows[r].cells.len(),
        !rows[r].cells[ci].is_merged,
        !rows[r].cells[ci].is_rowspan_marker,
        forall|j: int| r < j < a ==> (#[trigger] rows[j]).row_type == RowType::Section,
        rows[a].row_type != RowType::Section,
        ci < rows[a].cells.len(),
        rows[a].cells[ci].is_rowspan_marker,
        !rows[a].cells[ci].is_merged,
        !rows[a].cells[ci].is_colspan_marker,
        forall|j: int|
            a < j < rows.len() && ci < rows[j].cells.len() ==> !(
            #[trigger] rows[j].cells[ci]).is_rowspan_marker,
    ensures
        rowspans(rows, 0)[r].cells[ci].rowspan == rows[r].cells[ci].rowspan + 1,
{
    assert(gap_state(rows, 0, r, a, ci, rows[r].cells[ci].rowspan));
    lemma_gap(rows, 0, r, a, ci, rows[r].cells[ci].rowspan);
}

/// The rows with column and row spans worked out.
pub open spec fn with_spans(rows: Seq<Row>) -> Seq<Row> {
    rowspans(rows.map_values(|r: Row| row_colspans(r)), 0)
}

/// The widest non-section row.
pub open spec fn max_cols(rows: Seq<Row>) -> nat
    decreases rows.len(),
{
    if rows.len() == 0 {
        0
    } else {
        let m = max_cols(rows.drop_last());
        let r = rows.last();
        if r.row_type != RowType::Section && r.cells.len() > m {
            r.cells.len()
        } else {
            m
        }
    }
}

pub open spec fn align_attr(a: CellAlign) -> Seq<char> {
    match a {
        CellAlign::Left => seq![],
        CellAlign::Center => " style=\"text-align: center;\""@,
        CellAlign::Right => " style=\"text-align: right;\""@,
    }
}

/// The HTML of a cell; merged cells are left out.
pub open spec fn cell_html(c: Cell, header: bool, p: Pend) -> (Seq<char>, Pend) {
    if c.is_merged {
        (seq![], p)
    } else {
        let tag = if header {
            "th"@
        } else {
            "td"@
        };
        let attrs = (if c.colspan > 1 {
            " colspan=\""@ + decimal(c.colspan) + "\""@
        } else {
            seq![]
        }) + (if c.rowspan > 1 {
            " rowspan=\""@ + decimal(c.rowspan) + "\""@
        } else {
            seq![]
        }) + align_attr(c.align);
        let h = inlines_html(c.content, p);
        ("    <"@ + tag + attrs + " >"@ + h.0 + "</"@ + tag + ">\n"@, h.1)
    }
}

pub open spec fn cells_html(cells: Seq<Cell>, header: bool, p: Pend) -> (Seq<char>, Pend)
    decreases cells.len(),
{
    if cells.len() == 0 {
        (seq![], p)
    } else {
        let a = cell_html(cells[0], header, p);
        let b = cells_html(cells.drop_first(), header, a.1);
        (a.0 + b.0, b.1)
    }
}

/// The HTML of a row, given the width of the table.
pub open spec fn row_body(r: Row, width: nat, p: Pend) -> (Seq<char>, Pend) {
    if r.row_type == RowType::Section {
        let h = if r.cells.len() > 0 {
            inlines_html(r.cells[0].content, p)
        } else {
            (seq![], p)
        };
        (
            "  <tr class=\"section-row\">\n"@ + "    <td colspan=\""@ + decimal(width) + "\">"@ + h.0
                + "</td>\n"@ + "  </tr>\n"@,
            h.1,
        )
    } else {
        let h = cells_html(r.cells, r.row_type == RowType::Header, p);
        ("  <tr>\n"@ + h.0 + "  </tr>\n"@, h.1)
    }
}

/// The HTML of rows, opening and closing `thead` and `tfoot` on the way; the
/// flag says whether a `tfoot` is still open at the end.
pub open spec fn rows_html(rows: Seq<Row>, thead: bool, tfoot: bool, width: nat, p: Pend) -> (
    Seq<char>,
    bool,
    Pend,
)
    decreases rows.len(),
{
    if rows.len() == 0 {
        (seq![], tfoot, p)
    } else {
        let r = rows[0];
        let head = if r.row_type == RowType::Header && !thead {
            "  <thead>\n"@
        } else if r.row_type != RowType::Header && thead {
            "  </thead>\n"@
        } else {
            seq![]
        };
        let thead2 = r.row_type == RowType::Header;
        let foot = if r.row_type == RowType::Footer && !tfoot {
            "  <tfoot>\n"@
        } else {
            seq![]
        };
        let tfoot2 = tfoot || r.row_type == RowType::Footer;
        let b = row_body(r, width, p);
        let rest = rows_html(rows.drop_first(), thead2, tfoot2, width, b.1);
        (head + foot + b.0 + rest.0, rest.1, rest.2)
    }
}

/// The table ends in header rows, whose `thead` is still open.
pub open spec fn ends_in_header(rows: Seq<Row>) -> bool {
    rows.len() > 0 && rows.last().row_type == RowType::Header
}

/// The HTML table of a lattice; a `thead` or `tfoot` left open by the last
/// rows is closed before the table ends.
pub open spec fn lattice_html(rows: Seq<Row>, p: Pend) -> (Seq<char>, Pend) {
    let rs = with_spans(rows);
    let body = rows_html(rs, false, false, max_cols(rs), p);
    (
        "<table class=\"quarkup-lattice\">\n"@ + body.0 + (if ends_in_header(rs) {
            "  </thead>\n"@
        } else {
            seq![]
        }) + (if body.1 {
            "  </tfoot>\n"@
        } else {
            seq![]
        }) + "</table>\n"@,
        body.2,
    )
}

/// MathJax's replies still to be used, as a queue, and the formulas asked for.
pub struct Replies {
    pub math: VecDeque<Option<String>>,
    pub asked_math: Vec<(String, bool)>,
}

pub open spec fn asked_math_view(v: Seq<(String, bool)>) -> Seq<(Seq<char>, bool)> {
    v.map_values(|x: (String, bool)| (x.0@, x.1))
}

impl View for Replies {
    type V = Pend;

    open spec fn view(&self) -> Pend {
        Pend { math: self.math@, asked_math: asked_math_view(self.asked_math@) }
    }
}

impl Replies {
    /// Replies to be used in order, nothing asked yet.
    pub fn new(math: VecDeque<Option<String>>) -> (r: Replies)
        ensures
            r@ == (Pend { math: math@, asked_math: seq![] }),
    {
        let r = Replies { math, asked_math: Vec::new() };
        proof {
            assert(r@.asked_math =~= seq![]);
        }
        r
    }

    pub(crate) fn next_math(&mut self, latex: &str, is_block: bool) -> (r: Option<String>)
        ensures
            r == next_math(old(self)@, latex@, is_block).0,
            final(self)@ == next_math(old(self)@, latex@, is_block).1,
    {
        let l = string_from_str(latex);
        self.asked_math.push((l, is_block));
        proof {
            assert(asked_math_view(self.asked_math@) =~= old(self)@.asked_math.push((latex@, is_block)));
        }
        match self.math.pop_front() {
            Some(r) => {
                proof {
                    assert(self.math@ =~= old(self).math@.drop_first());
                }
                r
            },
            None => None,
        }
    }
}

/// `input` with markup characters written as entities.
pub fn html_escape(input: &str) -> (r: String)
    ensures
        r@ == escape(input@),
{
    let v = chars_of(input);
    let mut escaped = String::new();
    let mut i: usize = 0;
    while i < v.len()
        invariant
            i <= v.len(),
            v@ == input@,
            escaped@ == escape(v@.take(i as int)),
        decreases v.len() - i,
    {
        let c = v[i];
        if c == '&' {
            escaped.append("&amp;");
        } else if c == '<' {
            escaped.append("&lt;");
        } else if c == '>' {
            escaped.append("&gt;");
        } else if c == '"' {
            escaped.append("&quot;");
        } else if c == '\'' {
            escaped.append("&#x27;");
        } else {
            push_char(&mut escaped, c);
        }
        proof {
            assert(v@.take(i + 1).drop_last() =~= v@.take(i as int));
            assert(v@.take(i + 1).last() == c);
        }
        i = i + 1;
    }
    proof {
        assert(v@.take(v@.len() as int) =~= v@);
    }
    escaped
}

/// The entity of a character that ends or starts markup in element content.
pub open spec fn esc_text_char(c: char) -> Seq<char> {
    if c == '&' {
        "&amp;"@
    } else if c == '<' {
        "&lt;"@
    } else if c == '>' {
        "&gt;"@
    } else {
        seq![c]
    }
}

/// `s` as element content: `&`, `<` and `>` written as entities, quotes
/// kept as they are.
pub open spec fn escape_text(s: Seq<char>) -> Seq<char>
    decreases s.len(),
{
    if s.len() == 0 {
        seq![]
    } else {
        escape_text(s.drop_last()) + esc_text_char(s.last())
    }
}

/// `input` as element content: `&`, `<` and `>` written as entities.
pub fn html_escape_text(input: &str) -> (r: String)
    ensures
        r@ == escape_text(input@),
{
    let v = chars_of(input);
    let mut escaped = String::new();
    let mut i: usize = 0;
    while i < v.len()
        invariant
            i <= v.len(),
            v@ == input@,
            escaped@ == escape_text(v@.take(i as int)),
        decreases v.len() - i,
    {
        let c = v[i];
        if c == '&' {
            escaped.append("&amp;");
        } else if c == '<' {
            escaped.append("&lt;");
        } else if c == '>' {
            escaped.append("&gt;");
        } else {
            push_char(&mut escaped, c);
        }
        proof {
            assert(v@.take(i + 1).drop_last() =~= v@.take(i as int));
            assert(v@.take(i + 1).last() == c);
        }
        i = i + 1;
    }
    proof {
        assert(v@.take(v@.len() as int) =~= v@);
    }
    escaped
}

/// `s` with every occurrence of `p` replaced by `r`, left to right (`str::replace`).
pub fn replace_all_str(s: &str, p: &str, r: &str) -> (out: String)
    requires
        p@.len() > 0,
    ensures
        out@ == replace_all(s@, p@, r@),
{
    let v = chars_of(s);
    let pv = chars_of(p);
    let mut out = String::new();
    let mut start: usize = 0;
    let mut i: usize = 0;
    proof {
        assert(v@.skip(0) =~= v@);
    }
    loop
        invariant
            start <= i,
            i <= v.len() + 1,
            start <= v.len(),
            v@ == s@,
            pv@ == p@,
            p@.len() > 0,
            out@ + replace_all(v@.skip(start as int), p@, r@) == replace_all(s@, p@, r@),
            find_seq_from(v@, p@, start as int) == find_seq_from(v@, p@, i as int),
        decreases v.len() + 1 - i,
    {
        let ghost rest = v@.skip(start as int);
        proof {
            lemma_find_seq_skip(v@, p@, start as int, start as int);
            lemma_find_seq_from(v@, p@, i as int);
        }
        if i > v.len() || pv.len() > v.len() - i {
            proof {
                lemma_find_seq_skip(v@, p@, start as int, i as int);
                assert(find_seq_from(v@, p@, i as int) is None);
                assert(find_seq_from(rest, p@, 0) is None);
            }
            let tail = crate::text::string_of(&v, start, v.len());
            out.append(tail.as_str());
            proof {
                assert(v@.subrange(start as int, v@.len() as int) =~= rest);
            }
            return out;
        }
        if has_at(&v, i, p) {
            proof {
                assert(find_seq_from(v@, p@, i as int) == Some(i as int));
                assert(find_seq_from(rest, p@, 0) == Some(i - start));
                assert(rest.take(i - start) =~= v@.subrange(start as int, i as int));
                assert(rest.skip(i - start + p@.len()) =~= v@.skip(i + p@.len()));
            }
            let head = crate::text::string_of(&v, start, i);
            out.append(head.as_str());
            out.append(r);
            start = i + pv.len();
            i = start;
        } else {
            if i >= v.len() {
                proof {
                    assert(find_seq_from(v@, p@, i as int) is None);
                }
                i = i + 1;
            } else {
                i = i + 1;
            }
        }
    }
}

/// The decimal digits of `n`.
pub fn decimal_string(n: usize) -> (r: String)
    ensures
        r@ == decimal(n as nat),
    decreases n,
{
    let d = n % 10;
    let c = if d == 0 {
        '0'
    } else if d == 1 {
        '1'
    } else if d == 2 {
        '2'
    } else if d == 3 {
        '3'
    } else if d == 4 {
        '4'
    } else if d == 5 {
        '5'
    } else if d == 6 {
        '6'
    } else if d == 7 {
        '7'
    } else if d == 8 {
        '8'
    } else {
        '9'
    };
    if n < 10 {
        let mut r = String::new();
        push_char(&mut r, c);
        proof {
            assert(r@ =~= seq![digit(n as nat)]);
        }
        r
    } else {
        let mut r = decimal_string(n / 10);
        push_char(&mut r, c);
        r
    }
}

/// The markup of a formula from MathJax's reply.
pub fn compile_latex_to_svg(reply: Option<String>, latex: &str, is_block: bool) -> (r: String)
    ensures
        r@ == math_markup(reply, latex@, is_block),
{
    match reply {
        Some(svg) => {
            proof {
                reveal_strlit("width=\"");
            }
            if !is_block {
                replace_all_str(svg.as_str(), "width=\"", "style=\"height: 1.1em; width: auto;\" width=\"")
            } else {
                svg
            }
        },
        None => {
            let mut r = String::new();
            r.append("<span class=\"math-error\">[Math Error: ");
            let e = html_escape(latex);
            r.append(e.as_str());
            r.append("]</span>");
            r
        },
    }
}

/// The HTML of an inline node.
pub fn render_inline(node: &InlineNode, replies: &mut Replies) -> (r: String)
    ensures
        r@ == inline_html(inline_view(*node), old(replies)@).0,
        final(replies)@ == inline_html(inline_view(*node), old(replies)@).1,
    decreases node,
{
    match node {
        InlineNode::Text(text) => html_escape(text.as_str()),
        InlineNode::InlineMath(latex) => {
            let reply = replies.next_math(latex.as_str(), false);
            let svg = compile_latex_to_svg(reply, latex.as_str(), false);
            let mut r = String::new();
            r.append(
                "<span class=\"quarkup-math-inline\" style=\"display: inline-block; vertical-align: -0.15em;\">",
            );
            r.append(svg.as_str());
            r.append("</span>");
            r
        },
        InlineNode::Formatted { flavor, content } => {
            let inner = render_inline_list(content, replies);
            let mut r = String::new();
            match flavor {
                Flavor::Up => {
                    r.append("<sup>");
                    r.append(inner.as_str());
                    r.append("</sup>");
                },
                Flavor::Down => {
                    r.append("<sub>");
                    r.append(inner.as_str());
                    r.append("</sub>");
                },
                Flavor::Charm => {
                    r.append("<em>");
                    r.append(inner.as_str());
                    r.append("</em>");
                },
                Flavor::Strange => {
                    r.append("<code>");
                    r.append(inner.as_str());
                    r.append("</code>");
                },
                Flavor::Muon => {
                    r.append("<strong>");
                    r.append(inner.as_str());
                    r.append("</strong>");
                },
                _ => {
                    r.append(inner.as_str());
                },
            }
            r
        },
        InlineNode::Link { url, text } => {
            let inner = render_inline_list(text, replies);
            let mut r = String::new();
            r.append("<a href=\"");
            let u = html_escape(url.as_str());
            r.append(u.as_str());
            r.append("\">");
            r.append(inner.as_str());
            r.append("</a>");
            r
        },
    }
}

/// The HTML of inline content.
pub fn render_inline_list(nodes: &Vec<InlineNode>, replies: &mut Replies) -> (r: String)
    ensures
        r@ == inlines_html(inlines_view(nodes@), old(replies)@).0,
        final(replies)@ == inlines_html(inlines_view(nodes@), old(replies)@).1,
    decreases nodes,
{
    let mut r = String::new();
    let mut i: usize = 0;
    let ghost p0 = replies@;
    proof {
        assert(nodes@.take(0) =~= Seq::<InlineNode>::empty());
    }
    while i < nodes.len()
        invariant
            i <= nodes.len(),
            r@ == inlines_html(inlines_view(nodes@.take(i as int)), p0).0,
            replies@ == inlines_html(inlines_view(nodes@.take(i as int)), p0).1,
        decreases nodes.len() - i,
    {
        let h = render_inline(&nodes[i], replies);
        r.append(h.as_str());
        proof {
            let a = nodes@.take(i as int);
            let b = nodes@.take(i + 1);
            assert(b.drop_last() =~= a);
            assert(b.last() == nodes@[i as int]);
            let vb = inlines_view(b);
            assert(vb == inlines_view(a).push(inline_view(nodes@[i as int])));
            assert(vb.drop_last() =~= inlines_view(a));
            assert(vb.last() == inline_view(nodes@[i as int]));
        }
        i = i + 1;
    }
    proof {
        assert(nodes@.take(nodes@.len() as int) =~= nodes@);
    }
    r
}

fn repeat_into(out: &mut String, piece: &str, n: usize)
    ensures
        final(out)@ == old(out)@ + repeat(piece@, n as nat),
{
    let mut k: usize = 0;
    while k < n
        invariant
            k <= n,
            out@ == old(out)@ + repeat(piece@, k as nat),
        decreases n - k,
    {
        out.append(piece);
        k = k + 1;
        proof {
            assert(out@ =~= old(out)@ + repeat(piece@, k as nat));
        }
    }
}

/// The HTML of a list.
pub fn render_list(ordered: bool, items: &Vec<crate::ast::ListItem>, replies: &mut Replies) -> (r: String)
    ensures
        r@ == list_html(ordered, crate::ast::items_view(items@), 0, old(replies)@).0,
        final(replies)@ == list_html(ordered, crate::ast::items_view(items@), 0, old(replies)@).1,
{
    let ghost iv = crate::ast::items_view(items@);
    let ghost p0 = replies@;
    let main_open = if ordered {
        "<ol>\n"
    } else {
        "<ul>\n"
    };
    let main_close = if ordered {
        "</ol>\n"
    } else {
        "</ul>\n"
    };
    let mut html = String::new();
    let mut current_level: usize = 0;
    let mut i: usize = 0;
    proof {
        assert(iv.skip(0) =~= iv);
        assert(html@ + list_html(ordered, iv, 0, p0).0 =~= list_html(ordered, iv, 0, p0).0);
    }
    while i < items.len()
        invariant
            i <= items.len(),
            iv == crate::ast::items_view(items@),
            iv.len() == items@.len(),
            main_open@ == open_tag(ordered),
            main_close@ == close_tag(ordered),
            html@ + list_html(ordered, iv.skip(i as int), current_level as nat, replies@).0
                == list_html(ordered, iv, 0, p0).0,
            list_html(ordered, iv.skip(i as int), current_level as nat, replies@).1 == list_html(
                ordered,
                iv,
                0,
                p0,
            ).1,
        decreases items.len() - i,
    {
        let ghost h0 = html@;
        let ghost cl = current_level;
        let ghost rest = iv.skip(i as int);
        let ghost pr = replies@;
        proof {
            assert(rest[0] == iv[i as int]);
            assert(rest.drop_first() =~= iv.skip(i + 1));
            assert(iv[i as int] == crate::ast::item_view(items@[i as int]));
        }
        let item = &items[i];
        if item.level > current_level {
            repeat_into(&mut html, main_open, item.level - current_level);
            current_level = item.level;
        } else if item.level < current_level {
            repeat_into(&mut html, main_close, current_level - item.level);
            current_level = item.level;
        } else {
            proof {
                assert(repeat(close_tag(ordered), 0) =~= Seq::<char>::empty());
                assert(html@ =~= h0 + repeat(close_tag(ordered), 0));
            }
        }
        let inner = render_inline_list(&item.content, replies);
        let iv_chars = chars_of(inner.as_str());
        let (a, b) = trim_bounds(&iv_chars, 0, iv_chars.len());
        let trimmed = crate::text::string_of(&iv_chars, a, b);
        proof {
            assert(iv_chars@.subrange(0, iv_chars@.len() as int) =~= iv_chars@);
        }
        html.append("<li>");
        html.append(trimmed.as_str());
        html.append("</li>\n");
        i = i + 1;
        proof {
            let it = rest[0];
            let moves = if it.level > cl {
                repeat(open_tag(ordered), (it.level - cl) as nat)
            } else {
                repeat(close_tag(ordered), (cl - it.level) as nat)
            };
            assert(html@ =~= h0 + moves + "<li>"@ + trim(inlines_html(it.content, pr).0) + "</li>\n"@);
        }
    }
    proof {
        assert(iv.skip(items@.len() as int) =~= Seq::<Item>::empty());
    }
    repeat_into(&mut html, main_close, current_level);
    html
}

pub open spec fn cells_view(v: Seq<LatticeCell>) -> Seq<Cell> {
    v.map_values(|c: LatticeCell| cell_view(c))
}

/// Column spans can be counted in without leaving `usize`: a cell gains at
/// most one column per cell to its right.
pub open spec fn colspans_fit(cells: Seq<LatticeCell>) -> bool {
    forall|j: int| 0 <= j < cells.len() ==> #[trigger] cells[j].colspan + cells.len() <= usize::MAX + 1
}

/// Row spans can be counted in without leaving `usize`: a cell gains at
/// most one row per row below it.
pub open spec fn rowspans_fit(rows: Seq<LatticeRow>) -> bool {
    forall|r: int, c: int|
        0 <= r < rows.len() && 0 <= c < rows[r].cells@.len() ==> #[trigger] rows[r].cells@[c].rowspan
            + rows.len() <= usize::MAX + 1
}

/// Works out the column spans of a row's cells.
fn apply_colspans(cells: &mut Vec<LatticeCell>)
    requires
        colspans_fit(old(cells)@),
    ensures
        cells_view(final(cells)@) == colspans(cells_view(old(cells)@), 0),
        final(cells)@.len() == old(cells)@.len(),
        forall|j: int|
            0 <= j < old(cells)@.len() ==> (#[trigger] final(cells)@[j]).rowspan == old(
                cells,
            )@[j].rowspan,
{
    let ghost v0 = cells_view(cells@);
    let mut col: usize = 0;
    while col < cells.len()
        invariant
            col <= cells.len(),
            cells@.len() == old(cells)@.len(),
            v0 == cells_view(old(cells)@),
            colspans_fit(old(cells)@),
            colspans(v0, 0) == colspans(cells_view(cells@), col as nat),
            forall|j: int|
                0 <= j < cells@.len() ==> (#[trigger] cells@[j]).colspan <= old(cells)@[j].colspan
                    + (if j < col { col - 1 - j } else { 0int }),
            forall|j: int|
                0 <= j < old(cells)@.len() ==> (#[trigger] cells@[j]).rowspan == old(
                    cells,
                )@[j].rowspan,
        decreases cells.len() - col,
    {
        let ghost cv = cells_view(cells@);
        proof {
            assert(colspans(cv, col as nat) == colspans(colspan_step(cv, col as int), (col + 1) as nat));
        }
        if col > 0 && cells[col].is_colspan_marker {
            let mut left = col - 1;
            while left > 0 && cells[left].is_merged
                invariant
                    0 <= left < col < cells@.len(),
                    merged_left(cv, col - 1) == merged_left(cv, left as int),
                    cv == cells_view(cells@),
                decreases left,
            {
                left = left - 1;
            }
            assert(merged_left(cv, left as int) == left);
            assert(cells@[left as int].colspan <= old(cells)@[left as int].colspan + col - 1 - left);
            assert(old(cells)@[left as int].colspan + cells@.len() <= usize::MAX + 1);
            cells[left].colspan = cells[left].colspan + 1;
            cells[col].is_merged = true;
            proof {
                assert(cells_view(cells@) =~= colspan_step(cv, col as int));
            }
        } else {
            assert(colspan_step(cv, col as int) == cv);
        }
        col = col + 1;
    }
}

/// Counts in the row-span marker at row `ri`, column `ci`, if it is one.
fn rowspan_at(rows: &mut Vec<LatticeRow>, ri: usize, ci: usize)
    requires
        ri < old(rows)@.len(),
        ci < old(rows)@[ri as int].cells@.len(),
        forall|r: int|
            0 <= r < ri && ci < old(rows)@[r].cells@.len()
                ==> #[trigger] old(rows)@[r].cells@[ci as int].rowspan < usize::MAX,
    ensures
        rows_view(final(rows)@) == rowspan_step(rows_view(old(rows)@), ri as int, ci as int),
        final(rows)@.len() == old(rows)@.len(),
        forall|r: int|
            0 <= r < old(rows)@.len() ==> (#[trigger] final(rows)@[r]).cells@.len()
                == old(rows)@[r].cells@.len() && final(rows)@[r].row_type == old(rows)@[r].row_type,
        forall|r: int, c: int|
            0 <= r < old(rows)@.len() && 0 <= c < old(rows)@[r].cells@.len()
                ==> #[trigger] final(rows)@[r].cells@[c].rowspan <= old(rows)@[r].cells@[c].rowspan
                + (if c == ci && r < ri { 1int } else { 0int }),
{
    let ghost cv = rows_view(rows@);
    proof {
        assert(cv[ri as int] == row_view(rows@[ri as int]));
        assert(cv[ri as int].cells[ci as int] == cell_view(rows@[ri as int].cells@[ci as int]));
    }
    if !(rows[ri].cells[ci].is_rowspan_marker && ri > 0) {
        assert(rowspan_step(cv, ri as int, ci as int) == cv);
        return;
    }
    let mut top = ri - 1;
    while top > 0 && rows[top].row_type == RowType::Section
        invariant
            0 <= top < ri < rows@.len(),
            cv == rows_view(rows@),
            section_above(cv, ri - 1) == section_above(cv, top as int),
        decreases top,
    {
        proof {
            assert(cv[top as int] == row_view(rows@[top as int]));
        }
        top = top - 1;
    }
    proof {
        assert(cv[top as int] == row_view(rows@[top as int]));
        assert(section_above(cv, top as int) == top);
    }
    if ci >= rows[top].cells.len() {
        assert(rowspan_step(cv, ri as int, ci as int) == cv);
        return;
    }
    let mut target = top;
    while target > 0 && ci < rows[target].cells.len() && rows[target].cells[ci].is_merged
        && !rows[target].cells[ci].is_colspan_marker
        invariant
            0 <= target <= top < ri < rows@.len(),
            cv == rows_view(rows@),
            merged_above(cv, top as int, ci as int) == merged_above(cv, target as int, ci as int),
        decreases target,
    {
        proof {
            assert(cv[target as int] == row_view(rows@[target as int]));
            assert(cv[target as int].cells[ci as int] == cell_view(
                rows@[target as int].cells@[ci as int],
            ));
        }
        target = target - 1;
    }
    proof {
        assert(cv[target as int] == row_view(rows@[target as int]));
        if ci < rows@[target as int].cells@.len() {
            assert(cv[target as int].cells[ci as int] == cell_view(
                rows@[target as int].cells@[ci as int],
            ));
        }
        assert(merged_above(cv, target as int, ci as int) == target);
    }
    if ci >= rows[target].cells.len() {
        assert(rowspan_step(cv, ri as int, ci as int) == cv);
        return;
    }
    rows[target].cells[ci].rowspan = rows[target].cells[ci].rowspan + 1;
    rows[ri].cells[ci].is_merged = true;
    proof {
        let st = rowspan_step(cv, ri as int, ci as int);
        assert forall|r: int| 0 <= r < rows@.len() implies #[trigger] rows_view(rows@)[r] == st[r] by {
            assert(rows_view(rows@)[r].cells =~= st[r].cells);
        }
        assert(rows_view(rows@) =~= st);
    }
}

/// Works out the row spans of all rows.
fn apply_rowspans(rows: &mut Vec<LatticeRow>)
    requires
        rowspans_fit(old(rows)@),
    ensures
        rows_view(final(rows)@) == rowspans(rows_view(old(rows)@), 0),
{
    let ghost v0 = rows_view(rows@);
    let ghost o = old(rows)@;
    let n_rows = rows.len();
    let mut ri: usize = 0;
    while ri < n_rows
        invariant
            ri <= n_rows == rows@.len() == o.len(),
            v0 == rows_view(o),
            rowspans_fit(o),
            rowspans(v0, 0) == rowspans(rows_view(rows@), ri as nat),
            forall|r: int| 0 <= r < o.len() ==> (#[trigger] rows@[r]).cells@.len() == o[r].cells@.len(),
            forall|r: int| 0 <= r < o.len() ==> (#[trigger] rows@[r]).row_type == o[r].row_type,
            forall|r: int, c: int|
                0 <= r < o.len() && 0 <= c < o[r].cells@.len() ==> #[trigger] rows@[r].cells@[c].rowspan
                    <= o[r].cells@[c].rowspan + (if r < ri { ri - 1 - r } else { 0int }),
        decreases n_rows - ri,
    {
        let ghost rv = rows_view(rows@);
        proof {
            assert(rv[ri as int] == row_view(rows@[ri as int]));
        }
        if rows[ri].row_type == RowType::Section {
            ri = ri + 1;
            continue;
        }
        let num_cells = rows[ri].cells.len();
        proof {
            assert(rv[ri as int].cells.len() == num_cells);
            lemma_rowspans_row_len(rv, ri as int, 0, num_cells as nat);
        }
        let mut ci: usize = 0;
        while ci < num_cells
            invariant
                ri < n_rows == rows@.len() == o.len(),
                ci <= num_cells == o[ri as int].cells@.len(),
                v0 == rows_view(o),
                rowspans_fit(o),
                rowspans_row(rv, ri as int, 0, num_cells as nat) == rowspans_row(
                    rows_view(rows@),
                    ri as int,
                    ci as nat,
                    num_cells as nat,
                ),
                forall|r: int| 0 <= r < o.len() ==> (#[trigger] rows@[r]).cells@.len() == o[r].cells@.len(),
                forall|r: int| 0 <= r < o.len() ==> (#[trigger] rows@[r]).row_type == o[r].row_type,
                forall|r: int, c: int|
                    0 <= r < o.len() && 0 <= c < o[r].cells@.len() ==> #[trigger] rows@[r].cells@[c].rowspan
                        <= o[r].cells@[c].rowspan + (if r < ri { ri - 1 - r } else { 0int }) + (
                    if r < ri && c < ci { 1int } else { 0int }),
            decreases num_cells - ci,
        {
            proof {
                assert forall|r: int|
                    0 <= r < ri && ci < rows@[r].cells@.len() implies #[trigger] rows@[r].cells@[ci as int].rowspan
                    < usize::MAX by {
                    assert(rows@[r].cells@[ci as int].rowspan <= o[r].cells@[ci as int].rowspan + ri - 1 - r);
                    assert(o[r].cells@[ci as int].rowspan + o.len() <= usize::MAX + 1);
                }
            }
            rowspan_at(rows, ri, ci);
            ci = ci + 1;
        }
        ri = ri + 1;
    }
}

/// The HTML of a lattice cell; merged cells give nothing.
fn render_cell(cell: &LatticeCell, header: bool, replies: &mut Replies) -> (r: String)
    ensures
        r@ == cell_html(cell_view(*cell), header, old(replies)@).0,
        final(replies)@ == cell_html(cell_view(*cell), header, old(replies)@).1,
{
    if cell.is_merged {
        return String::new();
    }
    let tag = if header {
        "th"
    } else {
        "td"
    };
    let mut attrs = String::new();
    if cell.colspan > 1 {
        attrs.append(" colspan=\"");
        let d = decimal_string(cell.colspan);
        attrs.append(d.as_str());
        attrs.append("\"");
    }
    let ghost a1 = attrs@;
    if cell.rowspan > 1 {
        attrs.append(" rowspan=\"");
        let d = decimal_string(cell.rowspan);
        attrs.append(d.as_str());
        attrs.append("\"");
    }
    match cell.align {
        CellAlign::Left => {},
        CellAlign::Center => {
            attrs.append(" style=\"text-align: center;\"");
        },
        CellAlign::Right => {
            attrs.append(" style=\"text-align: right;\"");
        },
    }
    let content = render_inline_list(&cell.content, replies);
    let mut r = String::new();
    r.append("    <");
    r.append(tag);
    r.append(attrs.as_str());
    r.append(" >");
    r.append(content.as_str());
    r.append("</");
    r.append(tag);
    r.append(">\n");
    proof {
        let c = cell_view(*cell);
        assert(a1 == (if c.colspan > 1 {
            " colspan=\""@ + decimal(c.colspan) + "\""@
        } else {
            seq![]
        }));
        assert(attrs@ =~= a1 + (if c.rowspan > 1 {
            " rowspan=\""@ + decimal(c.rowspan) + "\""@
        } else {
            seq![]
        }) + align_attr(c.align));
    }
    r
}

/// The HTML of the cells of a row.
fn render_cells(cells: &Vec<LatticeCell>, header: bool, replies: &mut Replies) -> (r: String)
    ensures
        r@ == cells_html(cells_view(cells@), header, old(replies)@).0,
        final(replies)@ == cells_html(cells_view(cells@), header, old(replies)@).1,
{
    let ghost cv = cells_view(cells@);
    let ghost total = cells_html(cv, header, replies@);
    let mut html = String::new();
    let mut i: usize = 0;
    proof {
        assert(cv.skip(0) =~= cv);
    }
    while i < cells.len()
        invariant
            i <= cells.len(),
            cv == cells_view(cells@),
            html@ + cells_html(cv.skip(i as int), header, replies@).0 == total.0,
            cells_html(cv.skip(i as int), header, replies@).1 == total.1,
        decreases cells.len() - i,
    {
        proof {
            assert(cv.skip(i as int)[0] == cell_view(cells@[i as int]));
            assert(cv.skip(i as int).drop_first() =~= cv.skip(i + 1));
        }
        let h = render_cell(&cells[i], header, replies);
        html.append(h.as_str());
        i = i + 1;
    }
    proof {
        assert(cv.skip(cells@.len() as int) =~= Seq::<Cell>::empty());
        assert(html@ + Seq::<char>::empty() =~= html@);
    }
    html
}

/// The HTML of a lattice row in a table `width` columns wide.
fn render_row(row: &LatticeRow, width: usize, replies: &mut Replies) -> (r: String)
    ensures
        r@ == row_body(row_view(*row), width as nat, old(replies)@).0,
        final(replies)@ == row_body(row_view(*row), width as nat, old(replies)@).1,
{
    proof {
        assert(row_view(*row).cells =~= cells_view(row.cells@));
    }
    let mut html = String::new();
    if row.row_type == RowType::Section {
        html.append("  <tr class=\"section-row\">\n");
        let content = if row.cells.len() > 0 {
            proof {
                assert(row_view(*row).cells[0] == cell_view(row.cells@[0]));
            }
            render_inline_list(&row.cells[0].content, replies)
        } else {
            String::new()
        };
        html.append("    <td colspan=\"");
        let d = decimal_string(width);
        html.append(d.as_str());
        html.append("\">");
        html.append(content.as_str());
        html.append("</td>\n");
        html.append("  </tr>\n");
    } else {
        html.append("  <tr>\n");
        let cells = render_cells(&row.cells, row.row_type == RowType::Header, replies);
        html.append(cells.as_str());
        html.append("  </tr>\n");
    }
    html
}

/// The widest non-section row of a lattice.
fn lattice_width(rows: &Vec<LatticeRow>) -> (w: usize)
    ensures
        w == max_cols(rows_view(rows@)),
{
    let ghost rv = rows_view(rows@);
    let mut m: usize = 0;
    let mut i: usize = 0;
    proof {
        assert(rv.take(0) =~= Seq::<Row>::empty());
    }
    while i < rows.len()
        invariant
            i <= rows.len(),
            rv == rows_view(rows@),
            m == max_cols(rv.take(i as int)),
        decreases rows.len() - i,
    {
        proof {
            assert(rv.take(i + 1).drop_last() =~= rv.take(i as int));
            assert(rv.take(i + 1).last() == row_view(rows@[i as int]));
        }
        if rows[i].row_type != RowType::Section && rows[i].cells.len() > m {
            m = rows[i].cells.len();
        }
        i = i + 1;
    }
    proof {
        assert(rv.take(rows@.len() as int) =~= rv);
    }
    m
}

/// The HTML of the rows of a table, opening and closing `thead` and `tfoot`;
/// the flag says whether a `tfoot` is left open.
fn render_rows(rows: &Vec<LatticeRow>, width: usize, replies: &mut Replies) -> (r: (String, bool))
    ensures
        r.0@ == rows_html(rows_view(rows@), false, false, width as nat, old(replies)@).0,
        r.1 == rows_html(rows_view(rows@), false, false, width as nat, old(replies)@).1,
        final(replies)@ == rows_html(rows_view(rows@), false, false, width as nat, old(replies)@).2,
{
    let ghost rs = rows_view(rows@);
    let ghost total = rows_html(rs, false, false, width as nat, replies@);
    let mut html = String::new();
    let mut in_thead = false;
    let mut in_tfoot = false;
    let mut k: usize = 0;
    proof {
        assert(rs.skip(0) =~= rs);
    }
    while k < rows.len()
        invariant
            k <= rows.len(),
            rs == rows_view(rows@),
            html@ + rows_html(rs.skip(k as int), in_thead, in_tfoot, width as nat, replies@).0
                == total.0,
            rows_html(rs.skip(k as int), in_thead, in_tfoot, width as nat, replies@).1 == total.1,
            rows_html(rs.skip(k as int), in_thead, in_tfoot, width as nat, replies@).2 == total.2,
        decreases rows.len() - k,
    {
        let ghost h0 = html@;
        let ghost p0 = replies@;
        let ghost th0 = in_thead;
        let ghost tf0 = in_tfoot;
        let ghost s = rs.skip(k as int);
        proof {
            assert(s[0] == row_view(rows@[k as int]));
            assert(s.drop_first() =~= rs.skip(k + 1));
        }
        let rt = rows[k].row_type;
        let mut opening = String::new();
        if rt == RowType::Header && !in_thead {
            opening.append("  <thead>\n");
        } else if rt != RowType::Header && in_thead {
            opening.append("  </thead>\n");
        }
        in_thead = rt == RowType::Header;
        if rt == RowType::Footer && !in_tfoot {
            opening.append("  <tfoot>\n");
            in_tfoot = true;
        }
        let b = render_row(&rows[k], width, replies);
        html.append(opening.as_str());
        html.append(b.as_str());
        proof {
            let r = s[0];
            let head = if r.row_type == RowType::Header && !th0 {
                "  <thead>\n"@
            } else if r.row_type != RowType::Header && th0 {
                "  </thead>\n"@
            } else {
                seq![]
            };
            let foot = if r.row_type == RowType::Footer && !tf0 {
                "  <tfoot>\n"@
            } else {
                seq![]
            };
            assert(opening@ =~= head + foot);
            let bb = row_body(r, width as nat, p0);
            assert(b@ == bb.0);
            let rest = rows_html(s.drop_first(), in_thead, in_tfoot, width as nat, bb.1);
            assert(rows_html(s, th0, tf0, width as nat, p0) == (head + foot + bb.0 + rest.0, rest.1, rest.2));
            assert(h0 + (head + foot + bb.0 + rest.0) =~= html@ + rest.0);
        }
        k = k + 1;
    }
    proof {
        assert(rs.skip(rows@.len() as int) =~= Seq::<Row>::empty());
        assert(html@ + Seq::<char>::empty() =~= html@);
    }
    (html, in_tfoot)
}

/// The HTML table of a lattice: spans worked out, header rows in `thead`,
/// footer rows in `tfoot`, section rows across the full width.
pub fn render_lattice(rows: &Vec<LatticeRow>, replies: &mut Replies) -> (r: String)
    requires
        crate::ast::lattice_fits(rows@),
    ensures
        r@ == lattice_html(rows_view(rows@), old(replies)@).0,
        final(replies)@ == lattice_html(rows_view(rows@), old(replies)@).1,
{
    let ghost rv = rows_view(rows@);
    let mut active: Vec<LatticeRow> = Vec::new();
    let mut i: usize = 0;
    while i < rows.len()
        invariant
            i <= rows.len(),
            rv == rows_view(rows@),
            crate::ast::lattice_fits(rows@),
            active@.len() == i,
            forall|j: int| 0 <= j < i ==> #[trigger] row_view(active@[j]) == row_colspans(rv[j]),
            forall|j: int|
                0 <= j < i ==> (#[trigger] active@[j]).cells@.len() == rows@[j].cells@.len(),
            forall|j: int, c: int|
                0 <= j < i && 0 <= c < rows@[j].cells@.len() ==> #[trigger] active@[j].cells@[c].rowspan
                    == rows@[j].cells@[c].rowspan,
        decreases rows.len() - i,
    {
        let mut row = crate::ast::copy_row(&rows[i]);
        proof {
            assert(rv[i as int] == row_view(rows@[i as int]));
            assert(row_view(row).cells =~= cells_view(row.cells@));
            assert(row_view(rows@[i as int]).cells =~= cells_view(rows@[i as int].cells@));
            assert(cells_view(row.cells@).len() == row.cells@.len());
            assert forall|c: int| 0 <= c < row.cells@.len() implies (#[trigger] row.cells@[c]).rowspan
                == rows@[i as int].cells@[c].rowspan && row.cells@[c].colspan == rows@[i as int].cells@[c].colspan by {
                assert(cells_view(row.cells@)[c] == cell_view(row.cells@[c]));
                assert(cells_view(rows@[i as int].cells@)[c] == cell_view(rows@[i as int].cells@[c]));
            }
        }
        if row.row_type != RowType::Section {
            proof {
                assert forall|j: int| 0 <= j < row.cells@.len() implies #[trigger] row.cells@[j].colspan
                    + row.cells@.len() <= usize::MAX + 1 by {
                    assert(row.cells@[j].colspan == rows@[i as int].cells@[j].colspan);
                    assert(rows@[i as int].cells@[j].colspan + rows@[i as int].cells@.len() <= usize::MAX + 1);
                }
            }
            apply_colspans(&mut row.cells);
            proof {
                assert(row_view(row).cells =~= cells_view(row.cells@));
                assert(row_view(row) == row_colspans(rv[i as int]));
            }
        } else {
            proof {
                assert(row_view(row) == row_colspans(rv[i as int]));
            }
        }
        active.push(row);
        i = i + 1;
    }
    proof {
        assert(rows_view(active@) =~= rv.map_values(|r: Row| row_colspans(r)));
        assert forall|r: int, c: int|
            0 <= r < active@.len() && 0 <= c < active@[r].cells@.len() implies #[trigger] active@[r].cells@[c].rowspan
            + active@.len() <= usize::MAX + 1 by {
            assert(active@[r].cells@[c].rowspan == rows@[r].cells@[c].rowspan);
            assert(rows@[r].cells@[c].rowspan + rows@.len() <= usize::MAX + 1);
        }
    }
    apply_rowspans(&mut active);
    let ghost rs = rows_view(active@);
    assert(rs == with_spans(rv));
    let width = lattice_width(&active);
    let mut html = String::new();
    html.append("<table class=\"quarkup-lattice\">\n");
    let (body, in_tfoot) = render_rows(&active, width, replies);
    html.append(body.as_str());
    let n = active.len();
    if n > 0 && active[n - 1].row_type == RowType::Header {
        proof {
            assert(rs.last() == row_view(active@[n - 1]));
        }
        html.append("  </thead>\n");
    } else if n > 0 {
        proof {
            assert(rs.last() == row_view(active@[n - 1]));
        }
    }
    if in_tfoot {
        html.append("  </tfoot>\n");
    }
    html.append("</table>\n");
    proof {
        let total = rows_html(rs, false, false, width as nat, old(replies)@);
        assert(html@ =~= "<table class=\"quarkup-lattice\">\n"@ + total.0 + (if ends_in_header(rs) {
            "  </thead>\n"@
        } else {
            seq![]
        }) + (if total.1 {
            "  </tfoot>\n"@
        } else {
            seq![]
        }) + "</table>\n"@);
    }
    html
}

} // verus!
