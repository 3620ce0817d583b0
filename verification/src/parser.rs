//! The parser: a recursive-descent reader of tokens into a `Document`,
//! proved to build what `grammar` states.
use vstd::prelude::*;
use crate::ast::{
    blocks_fit, lemma_units_fit,
    BlockNode, CellAlign, Document, InlineNode, LatticeCell, LatticeRow, ListItem, RowType,
    Inline, Row, Block, inline_view, inlines_view, cell_view, row_view, rows_view, block_view,
    blocks_view, lemma_blocks_view_push, Item, items_view, item_view, copy_inline, lemma_inlines_view, lemma_inlines_view_push,
    lemma_inlines_view_concat,
};
use crate::defines::{Defines, eval_cond, evaluate_condition};
use crate::grammar::{
    lemma_doc_unit, law_doc_shape, blocks_shape,
    Defs, peek, adv, follows, nodes_text, node_text, plain_node, raw_line, inl_line, inl_ann,
    inl_quark, strip_cond, lemma_raw_line, split_on, cell_of, lattice_row, lattice_rows,
    code_lines, skip_cond, cond_blocks, block, list_items, skip_breaks, doc_blocks,
};
use crate::lexer::{Cursor, Flavor, Lexer, Token, Tok, lex, lemma_lex, opt_tok, tok_raw, letter_of, src_line, lemma_src_line};
use crate::text::{byte_len, drop_bytes, utf8_len, chars_of, string_from, string_from_str, string_of, has_at, find_char_from, trim_bounds, vec_slice, starts_with, find_char, trim, views, lemma_find_skip, words, join_words, same_chars,
    replace_first_chars};

verus! {

/// The shape of the next token.
#[derive(Clone, Copy)]
enum Peek {
    End,
    Break,
    Space,
    Ann,
    Text,
    Quark(Flavor, usize),
}

spec fn peek_of(t: Option<Tok>) -> Peek {
    match t {
        None => Peek::End,
        Some(Tok::LineBreak) => Peek::Break,
        Some(Tok::Space) => Peek::Space,
        Some(Tok::Annihilator) => Peek::Ann,
        Some(Tok::Text(_)) => Peek::Text,
        Some(Tok::Quark { flavor, count }) => Peek::Quark(flavor, count as usize),
    }
}

/// A token reader over a source, one token ahead, with the defines that
/// conditionals are evaluated against.
pub struct Parser {
    lexer: Lexer,
    lookahead: Option<Token>,
    defines: Defines,
    cur: Ghost<Cursor>,
    at: usize,
}

pub proof fn lemma_nodes_text_concat(a: Seq<Inline>, b: Seq<Inline>)
    ensures
        nodes_text(a + b) == nodes_text(a) + nodes_text(b),
    decreases b.len(),
{
    if b.len() == 0 {
        assert(a + b =~= a);
    } else {
        lemma_nodes_text_concat(a, b.drop_last());
        assert((a + b).drop_last() =~= a + b.drop_last());
    }
}

pub proof fn lemma_nodes_text_one(n: Inline)
    ensures
        nodes_text(seq![n]) == node_text(n),
{
    assert(seq![n].drop_last() =~= Seq::<Inline>::empty());
    assert(nodes_text(Seq::<Inline>::empty()) == Seq::<char>::empty());
    assert(seq![n].last() == n);
    assert(Seq::<char>::empty() + node_text(n) =~= node_text(n));
}

pub proof fn lemma_byte_len_push(s: Seq<char>, c: char)
    ensures
        byte_len(s.push(c)) == byte_len(s) + utf8_len(c),
    decreases s.len(),
{
    if s.len() > 0 {
        lemma_byte_len_push(s.drop_first(), c);
        assert(s.push(c).drop_first() =~= s.drop_first().push(c));
        assert(s.push(c)[0] == s[0]);
    } else {
        assert(s.push(c).drop_first() =~= Seq::<char>::empty());
        assert(s.push(c)[0] == c);
        assert(byte_len(Seq::<char>::empty()) == 0);
    }
}

pub proof fn lemma_drop_bytes_len(s: Seq<char>, k: int)
    ensures
        drop_bytes(s, k).len() <= s.len(),
    decreases s.len(),
{
    if k > 0 && s.len() > 0 {
        lemma_drop_bytes_len(s.drop_first(), k - utf8_len(s[0]));
    }
}

/// Stripping a condition prefix never lengthens the text.
pub proof fn lemma_strip_cond_text(ns: Seq<Inline>, k: int)
    ensures
        nodes_text(strip_cond(ns, k)).len() <= nodes_text(ns).len(),
    decreases ns.len(),
{
    if ns.len() > 0 {
        let rest = ns.drop_first();
        lemma_strip_cond_text(rest, 0);
        lemma_strip_cond_text(rest, k);
        assert(seq![ns[0]] + rest =~= ns);
        lemma_nodes_text_concat(seq![ns[0]], rest);
        lemma_nodes_text_one(ns[0]);
        let whole = nodes_text(ns).len();
        assert(whole == node_text(ns[0]).len() + nodes_text(rest).len());
        match ns[0] {
            Inline::Text(t) => {
                if k > 0 {
                    if byte_len(t) >= k {
                        let r = drop_bytes(t, k);
                        lemma_drop_bytes_len(t, k);
                        let tail = strip_cond(rest, 0);
                        if r.len() > 0 {
                            assert(strip_cond(ns, k) == seq![Inline::Text(r)] + tail);
                            lemma_nodes_text_concat(seq![Inline::Text(r)], tail);
                            lemma_nodes_text_one(Inline::Text(r));
                        } else {
                            assert(strip_cond(ns, k) == Seq::<Inline>::empty() + tail);
                            assert(Seq::<Inline>::empty() + tail =~= tail);
                        }
                    } else {
                        lemma_strip_cond_text(rest, k - byte_len(t));
                        assert(strip_cond(ns, k) == strip_cond(rest, k - byte_len(t)));
                    }
                } else {
                    assert(strip_cond(ns, k) == seq![ns[0]] + strip_cond(rest, 0));
                    lemma_nodes_text_concat(seq![ns[0]], strip_cond(rest, 0));
                }
            },
            _ => {
                if k == 0 {
                    assert(strip_cond(ns, k) == seq![ns[0]] + strip_cond(rest, k));
                    lemma_nodes_text_concat(seq![ns[0]], strip_cond(rest, k));
                } else {
                    assert(strip_cond(ns, k) == Seq::<Inline>::empty() + strip_cond(rest, k));
                    assert(Seq::<Inline>::empty() + strip_cond(rest, k) =~= strip_cond(rest, k));
                }
            },
        }
    }
}

fn utf8_width(c: char) -> (r: u128)
    ensures
        r == utf8_len(c),
{
    let v = c as u32;
    if v < 0x80 {
        1
    } else if v < 0x800 {
        2
    } else if v < 0x10000 {
        3
    } else {
        4
    }
}

/// `str::len` of the characters `v`.
fn byte_count(v: &Vec<char>) -> (r: u128)
    ensures
        r == byte_len(v@),
        r <= 4 * v@.len(),
{
    let mut n: u128 = 0;
    let mut i: usize = 0;
    while i < v.len()
        invariant
            i <= v.len(),
            n == byte_len(v@.take(i as int)),
            n <= 4 * i,
        decreases v.len() - i,
    {
        proof {
            lemma_byte_len_push(v@.take(i as int), v@[i as int]);
            assert(v@.take(i as int).push(v@[i as int]) =~= v@.take(i + 1));
        }
        n = n + utf8_width(v[i]);
        i = i + 1;
    }
    proof {
        assert(v@.take(v@.len() as int) =~= v@);
    }
    n
}

/// The characters of `v` after its first `k` bytes.
fn skip_bytes(v: &Vec<char>, k: u128) -> (r: Vec<char>)
    ensures
        r@ == drop_bytes(v@, k as int),
{
    let mut i: usize = 0;
    let mut left: u128 = k;
    assert(v@.skip(0) =~= v@);
    while i < v.len() && left > 0
        invariant
            i <= v.len(),
            left <= k,
            drop_bytes(v@, k as int) == drop_bytes(v@.skip(i as int), left as int),
        decreases v.len() - i,
    {
        let w = utf8_width(v[i]);
        proof {
            assert(v@.skip(i as int).drop_first() =~= v@.skip(i + 1));
            assert(v@.skip(i as int)[0] == v@[i as int]);
            assert(drop_bytes(v@.skip(i as int), left as int) == drop_bytes(
                v@.skip(i + 1),
                left - w,
            ));
        }
        if w >= left {
            left = 0;
            i = i + 1;
            proof {
                assert(drop_bytes(v@.skip(i as int), left - w + 0) == v@.skip(i as int));
                assert(drop_bytes(v@.skip(i as int), 0) == v@.skip(i as int));
            }
        } else {
            left = left - w;
            i = i + 1;
        }
    }
    let r = crate::text::vec_slice(v, i, v.len());
    proof {
        assert(v@.subrange(i as int, v@.len() as int) =~= v@.skip(i as int));
    }
    r
}

/// The plain text of one inline node.
fn node_to_string(n: &InlineNode) -> (r: Vec<char>)
    ensures
        r@ == node_text(inline_view(*n)),
    decreases n,
{
    match n {
        InlineNode::Text(t) => chars_of(t.as_str()),
        InlineNode::Formatted { flavor: _, content } => nodes_to_string(content),
        InlineNode::InlineMath(m) => {
            let mut r = chars_of("math ");
            let mut rest = chars_of(m.as_str());
            r.append(&mut rest);
            r
        },
        InlineNode::Link { url: _, text } => nodes_to_string(text),
    }
}

/// The plain text of inline content: text, code and link text as written,
/// formulas behind `math `.
pub fn nodes_to_string(ns: &Vec<InlineNode>) -> (r: Vec<char>)
    ensures
        r@ == nodes_text(inlines_view(ns@)),
    decreases ns,
{
    let mut r: Vec<char> = Vec::new();
    let mut i: usize = 0;
    proof {
        assert(ns@.take(0) =~= Seq::<InlineNode>::empty());
    }
    while i < ns.len()
        invariant
            i <= ns.len(),
            r@ == nodes_text(inlines_view(ns@.take(i as int))),
        decreases ns.len() - i,
    {
        let mut t = node_to_string(&ns[i]);
        r.append(&mut t);
        proof {
            let a = ns@.take(i as int);
            let b = ns@.take(i + 1);
            assert(b.drop_last() =~= a);
            assert(b.last() == ns@[i as int]);
            let va = inlines_view(a);
            let vb = inlines_view(b);
            assert(vb == va.push(inline_view(ns@[i as int])));
            assert(vb.drop_last() =~= va);
            assert(vb.last() == inline_view(ns@[i as int]));
        }
        i = i + 1;
    }
    proof {
        assert(ns@.take(ns@.len() as int) =~= ns@);
    }
    r
}

/// The inline nodes of a true inline conditional: the first `k` bytes of text
/// (the condition and its `|`) removed, other nodes kept once they are gone.
fn strip_condition(inner: &Vec<InlineNode>, k0: u128) -> (r: Vec<InlineNode>)
    ensures
        inlines_view(r@) == strip_cond(inlines_view(inner@), k0 as int),
{
    let ghost vs = inlines_view(inner@);
    proof {
        lemma_inlines_view(inner@);
        assert(vs.skip(0) =~= vs);
    }
    let mut out: Vec<InlineNode> = Vec::new();
    let mut k: u128 = k0;
    let mut i: usize = 0;
    while i < inner.len()
        invariant
            i <= inner.len(),
            vs == inlines_view(inner@),
            vs.len() == inner@.len(),
            forall|j: int| 0 <= j < inner@.len() ==> #[trigger] vs[j] == inline_view(inner@[j]),
            inlines_view(out@) + strip_cond(vs.skip(i as int), k as int) == strip_cond(
                vs,
                k0 as int,
            ),
        decreases inner.len() - i,
    {
        let ghost sk = vs.skip(i as int);
        let ghost o0 = inlines_view(out@);
        let ghost k_old = k;
        proof {
            assert(sk[0] == vs[i as int]);
            assert(sk.drop_first() =~= vs.skip(i + 1));
        }
        match &inner[i] {
            InlineNode::Text(t) => {
                if k > 0 {
                    let tc = chars_of(t.as_str());
                    let bl = byte_count(&tc);
                    if bl >= k {
                        let rest = skip_bytes(&tc, k);
                        k = 0;
                        if rest.len() > 0 {
                            let node = InlineNode::Text(string_from(&rest));
                            proof {
                                lemma_inlines_view_push(out@, node);
                            }
                            out.push(node);
                            proof {
                                assert(o0 + strip_cond(sk, k_old as int) =~= inlines_view(out@)
                                    + strip_cond(vs.skip(i + 1), 0));
                            }
                        } else {
                            proof {
                                assert(o0 + strip_cond(sk, k_old as int) =~= inlines_view(out@)
                                    + strip_cond(vs.skip(i + 1), 0));
                            }
                        }
                    } else {
                        k = k - bl;
                    }
                } else {
                    let node = InlineNode::Text(t.clone());
                    proof {
                        lemma_inlines_view_push(out@, node);
                    }
                    out.push(node);
                    proof {
                        assert(o0 + strip_cond(sk, k_old as int) =~= inlines_view(out@)
                            + strip_cond(vs.skip(i + 1), 0));
                    }
                }
            },
            other => {
                if k == 0 {
                    let node = copy_inline(other);
                    proof {
                        lemma_inlines_view_push(out@, node);
                    }
                    out.push(node);
                    proof {
                        assert(o0 + strip_cond(sk, k_old as int) =~= inlines_view(out@)
                            + strip_cond(vs.skip(i + 1), 0));
                    }
                } else {
                    proof {
                        assert(o0 + strip_cond(sk, k_old as int) =~= inlines_view(out@)
                            + strip_cond(vs.skip(i + 1), k as int));
                    }
                }
            },
        }
        i = i + 1;
    }
    proof {
        assert(vs.skip(inner@.len() as int) =~= Seq::<Inline>::empty());
        assert(inlines_view(out@) + Seq::<Inline>::empty() =~= inlines_view(out@));
    }
    out
}

/// `content` cut at every `;`.
fn split_cells(content: &Vec<char>) -> (r: Vec<Vec<char>>)
    ensures
        views(r@) == split_on(content@, ';'),
{
    let mut out: Vec<Vec<char>> = Vec::new();
    let mut pos: usize = 0;
    proof {
        assert(content@.skip(0) =~= content@);
        assert(views(out@) + split_on(content@, ';') =~= split_on(content@, ';'));
    }
    loop
        invariant
            pos <= content.len(),
            views(out@) + split_on(content@.skip(pos as int), ';') == split_on(content@, ';'),
        decreases content.len() - pos,
    {
        let ghost rest = content@.skip(pos as int);
        proof {
            lemma_find_skip(content@, ';', pos as int, pos as int);
        }
        let ghost o0 = views(out@);
        match find_char_from(content, ';', pos) {
            Some(i) => {
                let part = vec_slice(content, pos, i);
                out.push(part);
                proof {
                    assert(views(out@) =~= o0.push(part@));
                    assert(rest.take(i - pos) =~= part@);
                    assert(rest.skip(i - pos + 1) =~= content@.skip(i + 1));
                    assert(o0 + split_on(rest, ';') =~= views(out@) + split_on(
                        content@.skip(i + 1),
                        ';',
                    ));
                }
                pos = i + 1;
            },
            None => {
                let part = vec_slice(content, pos, content.len());
                out.push(part);
                proof {
                    assert(views(out@) =~= o0.push(part@));
                    assert(rest =~= part@);
                    assert(o0 + split_on(rest, ';') =~= views(out@));
                }
                return out;
            },
        }
    }
}

/// One lattice cell from its raw text.
fn parse_cell(p: &Vec<char>) -> (r: LatticeCell)
    ensures
        cell_view(r) == cell_of(p@),
{
    let (a, b) = trim_bounds(p, 0, p.len());
    let ct = vec_slice(p, a, b);
    proof {
        assert(p@.subrange(0, p@.len() as int) =~= p@);
        reveal_strlit(">");
        reveal_strlit("_");
        reveal_strlit(".^ ");
        reveal_strlit(".> ");
        assert(ct@ == trim(p@));
    }
    let is_colspan_marker = ct.len() == 1 && ct[0] == '>';
    let is_rowspan_marker = ct.len() == 1 && ct[0] == '_';
    proof {
        if ct@.len() == 1 && ct@[0] == '>' {
            assert(ct@ =~= ">"@);
        }
        if ct@.len() == 1 && ct@[0] == '_' {
            assert(ct@ =~= "_"@);
        }
    }
    let align;
    let src;
    if has_at(&ct, 0, ".^ ") {
        align = CellAlign::Center;
        src = vec_slice(&ct, 3, ct.len());
        proof {
            assert(src@ =~= ct@.skip(3));
        }
    } else if has_at(&ct, 0, ".> ") {
        align = CellAlign::Right;
        src = vec_slice(&ct, 3, ct.len());
        proof {
            assert(src@ =~= ct@.skip(3));
        }
    } else {
        align = CellAlign::Left;
        src = vec_slice(p, 0, p.len());
    }
    let mut cell_parser = Parser::new(Lexer::from_chars(src), Defines::new());
    let content = cell_parser.parse_inline_until_line_end();
    LatticeCell {
        content,
        colspan: 1,
        rowspan: 1,
        is_merged: false,
        is_colspan_marker,
        is_rowspan_marker,
        align,
    }
}

pub open spec fn opt_block(o: Option<BlockNode>) -> Option<Block> {
    match o {
        Some(b) => Some(block_view(b)),
        None => None,
    }
}

/// The next token opens a list.
pub open spec fn starts_list(t: Option<Tok>) -> bool {
    t matches Some(Tok::Quark { flavor, count: _ }) && (flavor == Flavor::Neutrino || flavor
        == Flavor::Electron)
}

/// The next token opens an ordered list.
pub open spec fn is_ordered(t: Option<Tok>) -> bool {
    t matches Some(Tok::Quark { flavor, count: _ }) && flavor == Flavor::Electron
}

pub open spec fn opt_row(o: Option<LatticeRow>) -> Option<Row> {
    match o {
        Some(r) => Some(row_view(r)),
        None => None,
    }
}

/// `r` and `e` are what a parse from `c0` of inline content states, and the
/// text of `r` is no longer than the characters read.
spec fn inline_done(c0: Cursor, e: Cursor, r: Seq<Inline>, st: (Seq<Inline>, Cursor)) -> bool {
    &&& r == st.0
    &&& e == st.1
    &&& follows(e, c0, c0.pos)
    &&& nodes_text(r).len() <= e.pos - c0.pos
    &&& (peek(c0) is Some ==> e.pos > c0.pos)
}

impl Parser {
    /// The cursor of the next token.
    pub closed spec fn cursor(&self) -> Cursor {
        self.cur@
    }

    /// The defines in force.
    pub closed spec fn defs(&self) -> Defs {
        self.defines@
    }

    pub closed spec fn wf(&self) -> bool {
        &&& self.cur@.wf()
        &&& self.cur@.src.len() <= usize::MAX
        &&& self.lexer@.wf()
        &&& lex(self.cur@) == (opt_tok(self.lookahead), self.lexer@)
        &&& self.defines.wf()
        &&& self.at == self.cur@.pos
    }

    pub fn new(lexer: Lexer, defines: Defines) -> (r: Parser)
        requires
            lexer@.wf(),
            defines.wf(),
        ensures
            r.wf(),
            r.cursor() == lexer@,
            r.defs() == defines@,
    {
        let ghost c = lexer@;
        proof {
            lexer.lemma_src_len();
        }
        let mut lexer = lexer;
        let at = lexer.position();
        let lookahead = lexer.next();
        Parser { lexer, lookahead, defines, cur: Ghost(c), at }
    }

    /// The shape of the next token.
    fn peek(&self) -> (r: Peek)
        requires
            self.wf(),
        ensures
            r == peek_of(peek(self.cursor())),
    {
        match &self.lookahead {
            None => Peek::End,
            Some(Token::LineBreak) => Peek::Break,
            Some(Token::Space) => Peek::Space,
            Some(Token::Annihilator) => Peek::Ann,
            Some(Token::Text(_)) => Peek::Text,
            Some(Token::Quark { flavor, count }) => Peek::Quark(*flavor, *count),
        }
    }

    /// Takes the next token and reads the one after it.
    fn consume(&mut self) -> (r: Option<Token>)
        requires
            old(self).wf(),
        ensures
            final(self).wf(),
            final(self).defs() == old(self).defs(),
            opt_tok(r) == peek(old(self).cursor()),
            final(self).cursor() == adv(old(self).cursor()),
    {
        let ghost c = self.lexer@;
        proof {
            lemma_lex(self.cur@);
        }
        let at = self.lexer.position();
        let mut current = self.lexer.next();
        std::mem::swap(&mut self.lookahead, &mut current);
        self.cur = Ghost(c);
        self.at = at;
        current
    }

    /// The raw text of the rest of the line; the line break is consumed.
    fn collect_raw_line_content(&mut self) -> (r: Vec<char>)
        requires
            old(self).wf(),
        ensures
            final(self).wf(),
            final(self).defs() == old(self).defs(),
            r@ == raw_line(old(self).cursor()).0,
            final(self).cursor() == raw_line(old(self).cursor()).1,
    {
        let ghost c0 = self.cursor();
        let mut buffer: Vec<char> = Vec::new();
        loop
            invariant_except_break
                buffer@ + raw_line(self.cursor()).0 == raw_line(c0).0,
                raw_line(self.cursor()).1 == raw_line(c0).1,
            invariant
                self.wf(),
                self.defs() == old(self).defs(),
            ensures
                self.wf(),
                self.defs() == old(self).defs(),
                buffer@ == raw_line(c0).0,
                self.cursor() == raw_line(c0).1,
            decreases self.cursor().left(),
        {
            let ghost c = self.cursor();
            proof {
                lemma_lex(c);
            }
            match self.peek() {
                Peek::End => {
                    assert(buffer@ + Seq::<char>::empty() =~= buffer@);
                    break;
                },
                Peek::Break => {
                    self.consume();
                    assert(buffer@ + Seq::<char>::empty() =~= buffer@);
                    break;
                },
                _ => {},
            }
            let tok = self.consume();
            let ghost b0 = buffer@;
            match tok {
                Some(Token::Text(t)) => {
                    let mut tc = chars_of(t.as_str());
                    buffer.append(&mut tc);
                },
                Some(Token::Space) => {
                    buffer.push(' ');
                },
                Some(Token::Annihilator) => {
                    buffer.push('.');
                    buffer.push('.');
                },
                Some(Token::Quark { flavor, count }) => {
                    let letter = flavor.letter();
                    buffer.push('.');
                    let mut k: usize = 0;
                    while k < count
                        invariant
                            k <= count,
                            letter == letter_of(flavor),
                            buffer@ == b0 + seq!['.'] + Seq::new(
                                k as nat,
                                |i: int| letter_of(flavor),
                            ),
                        decreases count - k,
                    {
                        buffer.push(letter);
                        proof {
                            let s0 = Seq::new(k as nat, |i: int| letter_of(flavor));
                            let s1 = Seq::new((k + 1) as nat, |i: int| letter_of(flavor));
                            assert(s1 =~= s0.push(letter));
                            assert(buffer@ =~= b0 + seq!['.'] + s1);
                        }
                        k = k + 1;
                    }
                    buffer.push(' ');
                },
                _ => {},
            }
            proof {
                let t = peek(c)->0;
                assert(buffer@ =~= b0 + tok_raw(t));
                assert(raw_line(c).0 == tok_raw(t) + raw_line(adv(c)).0);
                assert(b0 + raw_line(c).0 =~= buffer@ + raw_line(adv(c)).0);
            }
        }
        buffer
    }

    /// The nodes of an inline quark of `flavor`, which was just consumed.
    fn parse_inline_quark(&mut self, flavor: Flavor) -> (r: (Vec<InlineNode>, bool))
        requires
            old(self).wf(),
        ensures
            final(self).wf(),
            final(self).defs() == old(self).defs(),
            inline_done(
                old(self).cursor(),
                final(self).cursor(),
                inlines_view(r.0@),
                (
                    inl_quark(old(self).cursor(), flavor, old(self).defs()).0,
                    inl_quark(old(self).cursor(), flavor, old(self).defs()).1,
                ),
            ),
            r.1 == inl_quark(old(self).cursor(), flavor, old(self).defs()).2,
        decreases old(self).cursor().left(), 2nat,
    {
        let ghost c = self.cursor();
        let ghost d = self.defs();
        let (inner, broke) = self.parse_inline_until_annihilator();
        let raw = nodes_to_string(&inner);
        let ghost iv = inlines_view(inner@);
        proof {
            reveal_strlit("math ");
            assert(raw@ == nodes_text(iv));
        }
        let mut nodes: Vec<InlineNode> = Vec::new();
        if flavor == Flavor::Strange {
            if has_at(&raw, 0, "math ") {
                let m = string_of(&raw, 5, raw.len());
                let node = InlineNode::InlineMath(m);
                proof {
                    lemma_inlines_view_push(nodes@, node);
                    assert(raw@.skip(5) =~= raw@.subrange(5, raw@.len() as int));
                    assert("math "@ + raw@.skip(5) =~= raw@);
                    lemma_nodes_text_one(inline_view(node));
                }
                nodes.push(node);
            } else {
                let node = InlineNode::Formatted { flavor, content: inner };
                proof {
                    lemma_inlines_view_push(nodes@, node);
                    lemma_nodes_text_one(inline_view(node));
                }
                nodes.push(node);
            }
        } else if flavor == Flavor::Bottom {
            match find_char_from(&raw, '|', 0) {
                Some(p) => {
                    let cond = vec_slice(&raw, 0, p);
                    proof {
                        assert(cond@ =~= raw@.take(p as int));
                    }
                    if evaluate_condition(&self.defines, &cond) {
                        let k = byte_count(&cond) + 1;
                        nodes = strip_condition(&inner, k);
                        proof {
                            lemma_strip_cond_text(iv, k as int);
                        }
                    }
                },
                None => {},
            }
        } else if flavor == Flavor::Lattice {
            match find_char_from(&raw, '|', 0) {
                Some(p) => {
                    let (a, b) = trim_bounds(&raw, 0, p);
                    let url = string_of(&raw, a, b);
                    let tc = vec_slice(&raw, p + 1, raw.len());
                    proof {
                        assert(raw@.subrange(0, p as int) =~= raw@.take(p as int));
                        assert(tc@ =~= raw@.skip(p + 1));
                    }
                    let mut sub = Parser::new(Lexer::from_chars(tc), self.defines.duplicate());
                    let text = sub.parse_inline_until_line_end();
                    let node = InlineNode::Link { url, text };
                    proof {
                        lemma_inlines_view_push(nodes@, node);
                        lemma_nodes_text_one(inline_view(node));
                    }
                    nodes.push(node);
                },
                None => {
                    let (a, b) = trim_bounds(&raw, 0, raw.len());
                    let url = string_of(&raw, a, b);
                    let mut text: Vec<InlineNode> = Vec::new();
                    let t = InlineNode::Text(string_from(&raw));
                    proof {
                        lemma_inlines_view_push(text@, t);
                        assert(raw@.subrange(0, raw@.len() as int) =~= raw@);
                    }
                    text.push(t);
                    proof {
                        assert(inlines_view(text@) =~= seq![Inline::Text(raw@)]);
                        lemma_nodes_text_one(Inline::Text(raw@));
                    }
                    let node = InlineNode::Link { url, text };
                    proof {
                        lemma_inlines_view_push(nodes@, node);
                        lemma_nodes_text_one(inline_view(node));
                    }
                    nodes.push(node);
                },
            }
        } else {
            let node = InlineNode::Formatted { flavor, content: inner };
            proof {
                lemma_inlines_view_push(nodes@, node);
                lemma_nodes_text_one(inline_view(node));
            }
            nodes.push(node);
        }
        proof {
            assert(inlines_view(Seq::<InlineNode>::empty()) == Seq::<Inline>::empty());
            assert(nodes_text(Seq::<Inline>::empty()) == Seq::<char>::empty());
        }
        (nodes, broke)
    }

    /// Inline content up to the next annihilator or line break, and whether
    /// a line break ended it.
    fn parse_inline_until_annihilator(&mut self) -> (r: (Vec<InlineNode>, bool))
        requires
            old(self).wf(),
        ensures
            final(self).wf(),
            final(self).defs() == old(self).defs(),
            inline_done(
                old(self).cursor(),
                final(self).cursor(),
                inlines_view(r.0@),
                (inl_ann(old(self).cursor(), old(self).defs()).0, inl_ann(old(self).cursor(), old(self).defs()).1),
            ),
            r.1 == inl_ann(old(self).cursor(), old(self).defs()).2,
        decreases old(self).cursor().left(), 1nat,
    {
        let ghost c0 = self.cursor();
        let ghost d = self.defs();
        let mut nodes: Vec<InlineNode> = Vec::new();
        let mut broke = false;
        proof {
            assert(inlines_view(nodes@) == Seq::<Inline>::empty());
            assert(nodes_text(Seq::<Inline>::empty()) == Seq::<char>::empty());
            assert(Seq::<Inline>::empty() + inl_ann(c0, d).0 =~= inl_ann(c0, d).0);
        }
        loop
            invariant_except_break
                inlines_view(nodes@) + inl_ann(self.cursor(), d).0 == inl_ann(c0, d).0,
                inl_ann(self.cursor(), d).1 == inl_ann(c0, d).1,
                inl_ann(self.cursor(), d).2 == inl_ann(c0, d).2,
                !broke,
            invariant
                self.wf(),
                self.defs() == d,
                c0 == old(self).cursor(),
                d == old(self).defs(),
                follows(self.cursor(), c0, c0.pos),
                nodes_text(inlines_view(nodes@)).len() <= self.cursor().pos - c0.pos,
                self.cursor() == c0 || self.cursor().pos > c0.pos,
            ensures
                self.wf(),
                self.defs() == d,
                inline_done(c0, self.cursor(), inlines_view(nodes@), (inl_ann(c0, d).0, inl_ann(c0, d).1)),
                broke == inl_ann(c0, d).2,
            decreases self.cursor().left(),
        {
            let ghost c = self.cursor();
            let ghost n0 = inlines_view(nodes@);
            proof {
                lemma_lex(c);
            }
            match self.peek() {
                Peek::End => {
                    assert(n0 + Seq::<Inline>::empty() =~= n0);
                    break;
                },
                Peek::Break => {
                    self.consume();
                    broke = true;
                    assert(n0 + Seq::<Inline>::empty() =~= n0);
                    break;
                },
                Peek::Ann => {
                    self.consume();
                    assert(n0 + Seq::<Inline>::empty() =~= n0);
                    break;
                },
                Peek::Quark(flavor, _) => {
                    self.consume();
                    let (mut q, q_broke) = self.parse_inline_quark(flavor);
                    let ghost qv = inlines_view(q@);
                    proof {
                        lemma_inlines_view_concat(nodes@, q@);
                        lemma_nodes_text_concat(n0, qv);
                    }
                    nodes.append(&mut q);
                    proof {
                        assert(inlines_view(nodes@) == n0 + qv);
                        assert(nodes_text(inlines_view(nodes@)).len() <= self.cursor().pos - c0.pos);
                    }
                    if q_broke {
                        broke = true;
                        proof {
                            assert(n0 + qv =~= inl_ann(c0, d).0);
                        }
                        break;
                    }
                    proof {
                        assert(n0 + qv + inl_ann(self.cursor(), d).0 =~= n0 + inl_ann(c, d).0);
                    }
                },
                _ => {
                    let tok = self.consume();
                    let node = match tok {
                        Some(Token::Text(t)) => InlineNode::Text(t),
                        _ => InlineNode::Text(string_from_str(" ")),
                    };
                    proof {
                        reveal_strlit(" ");
                        reveal_strlit("..");
                        lemma_inlines_view_push(nodes@, node);
                        assert(inline_view(node) == plain_node(peek(c)->0));
                        assert(node_text(inline_view(node)).len() == crate::lexer::tok_text_len(
                            peek(c)->0,
                        ));
                        lemma_nodes_text_concat(n0, seq![inline_view(node)]);
                        lemma_nodes_text_one(inline_view(node));
                    }
                    nodes.push(node);
                    proof {
                        assert(inlines_view(nodes@) == n0.push(inline_view(node)));
                        assert(n0.push(inline_view(node)) == n0 + seq![inline_view(node)]);
                        assert(nodes_text(inlines_view(nodes@)).len() == nodes_text(n0).len()
                            + node_text(inline_view(node)).len());
                        assert(n0.push(inline_view(node)) + inl_ann(self.cursor(), d).0 =~= n0
                            + inl_ann(c, d).0);
                    }
                },
            }
        }
        (nodes, broke)
    }

    /// Inline content up to the end of the line.
    fn parse_inline_until_line_end(&mut self) -> (r: Vec<InlineNode>)
        requires
            old(self).wf(),
        ensures
            final(self).wf(),
            final(self).defs() == old(self).defs(),
            inline_done(
                old(self).cursor(),
                final(self).cursor(),
                inlines_view(r@),
                inl_line(old(self).cursor(), old(self).defs()),
            ),
        decreases old(self).cursor().left(), 0nat,
    {
        let ghost c0 = self.cursor();
        let ghost d = self.defs();
        let mut nodes: Vec<InlineNode> = Vec::new();
        proof {
            assert(inlines_view(nodes@) == Seq::<Inline>::empty());
            assert(nodes_text(Seq::<Inline>::empty()) == Seq::<char>::empty());
            assert(Seq::<Inline>::empty() + inl_line(c0, d).0 =~= inl_line(c0, d).0);
        }
        loop
            invariant_except_break
                inlines_view(nodes@) + inl_line(self.cursor(), d).0 == inl_line(c0, d).0,
                inl_line(self.cursor(), d).1 == inl_line(c0, d).1,
            invariant
                self.wf(),
                self.defs() == d,
                c0 == old(self).cursor(),
                d == old(self).defs(),
                follows(self.cursor(), c0, c0.pos),
                nodes_text(inlines_view(nodes@)).len() <= self.cursor().pos - c0.pos,
                self.cursor() == c0 || self.cursor().pos > c0.pos,
            ensures
                self.wf(),
                self.defs() == d,
                inline_done(c0, self.cursor(), inlines_view(nodes@), inl_line(c0, d)),
            decreases self.cursor().left(),
        {
            let ghost c = self.cursor();
            let ghost n0 = inlines_view(nodes@);
            proof {
                lemma_lex(c);
            }
            match self.peek() {
                Peek::End => {
                    assert(n0 + Seq::<Inline>::empty() =~= n0);
                    break;
                },
                Peek::Break => {
                    self.consume();
                    assert(n0 + Seq::<Inline>::empty() =~= n0);
                    break;
                },
                Peek::Quark(flavor, _) => {
                    self.consume();
                    let (mut q, q_broke) = self.parse_inline_quark(flavor);
                    let ghost qv = inlines_view(q@);
                    proof {
                        lemma_inlines_view_concat(nodes@, q@);
                        lemma_nodes_text_concat(n0, qv);
                    }
                    nodes.append(&mut q);
                    proof {
                        assert(inlines_view(nodes@) == n0 + qv);
                        assert(nodes_text(inlines_view(nodes@)).len() <= self.cursor().pos - c0.pos);
                    }
                    if q_broke {
                        proof {
                            assert(n0 + qv =~= inl_line(c0, d).0);
                        }
                        break;
                    }
                    proof {
                        assert(n0 + qv + inl_line(self.cursor(), d).0 =~= n0 + inl_line(c, d).0);
                    }
                },
                _ => {
                    let tok = self.consume();
                    let node = match tok {
                        Some(Token::Text(t)) => InlineNode::Text(t),
                        Some(Token::Annihilator) => InlineNode::Text(string_from_str("..")),
                        _ => InlineNode::Text(string_from_str(" ")),
                    };
                    proof {
                        reveal_strlit(" ");
                        reveal_strlit("..");
                        lemma_inlines_view_push(nodes@, node);
                        assert(inline_view(node) == plain_node(peek(c)->0));
                        assert(node_text(inline_view(node)).len() == crate::lexer::tok_text_len(
                            peek(c)->0,
                        ));
                        lemma_nodes_text_concat(n0, seq![inline_view(node)]);
                        lemma_nodes_text_one(inline_view(node));
                    }
                    nodes.push(node);
                    proof {
                        assert(inlines_view(nodes@) == n0.push(inline_view(node)));
                        assert(n0.push(inline_view(node)) == n0 + seq![inline_view(node)]);
                        assert(nodes_text(inlines_view(nodes@)).len() == nodes_text(n0).len()
                            + node_text(inline_view(node)).len());
                        assert(n0.push(inline_view(node)) + inl_line(self.cursor(), d).0 =~= n0
                            + inl_line(c, d).0);
                    }
                },
            }
        }
        nodes
    }

    /// The rows of a lattice up to its closing annihilator line.
    fn collect_lattice_rows(&mut self) -> (r: Vec<LatticeRow>)
        requires
            old(self).wf(),
        ensures
            final(self).wf(),
            final(self).defs() == old(self).defs(),
            rows_view(r@) == lattice_rows(old(self).cursor()).0,
            final(self).cursor() == lattice_rows(old(self).cursor()).1,
            follows(final(self).cursor(), old(self).cursor(), old(self).cursor().pos),
    {
        let ghost c0 = self.cursor();
        let mut rows: Vec<LatticeRow> = Vec::new();
        proof {
            assert(rows_view(rows@) + lattice_rows(c0).0 =~= lattice_rows(c0).0);
        }
        loop
            invariant_except_break
                rows_view(rows@) + lattice_rows(self.cursor()).0 == lattice_rows(c0).0,
                lattice_rows(self.cursor()).1 == lattice_rows(c0).1,
            invariant
                self.wf(),
                self.defs() == old(self).defs(),
                c0 == old(self).cursor(),
                follows(self.cursor(), c0, c0.pos),
            ensures
                self.wf(),
                self.defs() == old(self).defs(),
                follows(self.cursor(), c0, c0.pos),
                rows_view(rows@) == lattice_rows(c0).0,
                self.cursor() == lattice_rows(c0).1,
            decreases self.cursor().left(),
        {
            let ghost c = self.cursor();
            let ghost r0 = rows_view(rows@);
            proof {
                lemma_lex(c);
                lemma_raw_line(c);
            }
            match self.peek() {
                Peek::End => {
                    assert(r0 + Seq::<Row>::empty() =~= r0);
                    break;
                },
                Peek::Ann => {
                    self.consume();
                    assert(r0 + Seq::<Row>::empty() =~= r0);
                    break;
                },
                _ => {},
            }
            let raw_row = self.collect_raw_line_content();
            match self.parse_lattice_row(&raw_row) {
                Some(row) => {
                    rows.push(row);
                    proof {
                        assert(rows_view(rows@) =~= r0.push(row_view(row)));
                        assert(r0 + lattice_rows(c).0 =~= rows_view(rows@) + lattice_rows(
                            self.cursor(),
                        ).0);
                    }
                },
                None => {
                    proof {
                        assert(r0 + lattice_rows(c).0 =~= rows_view(rows@) + lattice_rows(
                            self.cursor(),
                        ).0);
                    }
                },
            }
        }
        rows
    }

    /// The source line at the cursor as written, nothing lexed; the cursor
    /// moves to the start of the next line.
    fn take_source_line(&mut self) -> (r: Vec<char>)
        requires
            old(self).wf(),
        ensures
            final(self).wf(),
            final(self).defs() == old(self).defs(),
            r@ == src_line(old(self).cursor()).0,
            final(self).cursor() == src_line(old(self).cursor()).1,
    {
        let ghost c = self.cursor();
        proof {
            lemma_lex(c);
            lemma_src_line(c);
            assert(self.lexer@.src == c.src);
            assert(self.lexer@.at(c.pos, true) == c.at(c.pos, true));
        }
        let (line, next) = self.lexer.source_line(self.at);
        self.lexer.seek(next, true);
        let ghost c1 = self.lexer@;
        proof {
            assert(c1 == src_line(c).1);
        }
        self.at = next;
        self.lookahead = self.lexer.next();
        self.cur = Ghost(c1);
        line
    }

    /// The lines of a code block up to its closing annihilator line.
    fn collect_code_lines(&mut self) -> (r: Vec<Vec<char>>)
        requires
            old(self).wf(),
        ensures
            final(self).wf(),
            final(self).defs() == old(self).defs(),
            views(r@) == code_lines(old(self).cursor()).0,
            final(self).cursor() == code_lines(old(self).cursor()).1,
            follows(final(self).cursor(), old(self).cursor(), old(self).cursor().pos),
    {
        let ghost c0 = self.cursor();
        let mut lines: Vec<Vec<char>> = Vec::new();
        proof {
            reveal_strlit("..");
            reveal_strlit("\\..");
            assert(views(lines@) + code_lines(c0).0 =~= code_lines(c0).0);
        }
        loop
            invariant_except_break
                views(lines@) + code_lines(self.cursor()).0 == code_lines(c0).0,
                code_lines(self.cursor()).1 == code_lines(c0).1,
            invariant
                self.wf(),
                self.defs() == old(self).defs(),
                c0 == old(self).cursor(),
                follows(self.cursor(), c0, c0.pos),
            ensures
                self.wf(),
                self.defs() == old(self).defs(),
                follows(self.cursor(), c0, c0.pos),
                views(lines@) == code_lines(c0).0,
                self.cursor() == code_lines(c0).1,
            decreases self.cursor().left(),
        {
            let ghost c = self.cursor();
            let ghost l0 = views(lines@);
            proof {
                lemma_lex(c);
                lemma_src_line(c);
                self.lexer.lemma_src_len();
                assert(self.lexer@.src == c.src);
            }
            if self.at >= self.lexer.source_len() {
                assert(l0 + Seq::<Seq<char>>::empty() =~= l0);
                break;
            }
            let next_line = self.take_source_line();
            let (a, b) = trim_bounds(&next_line, 0, next_line.len());
            let trimmed = vec_slice(&next_line, a, b);
            proof {
                assert(next_line@.subrange(0, next_line@.len() as int) =~= next_line@);
            }
            if has_at(&trimmed, 0, "..") {
                assert(l0 + Seq::<Seq<char>>::empty() =~= l0);
                break;
            }
            let line = if has_at(&trimmed, 0, "\\..") {
                replace_first_chars(&next_line, "\\..", "..")
            } else {
                next_line
            };
            lines.push(line);
            proof {
                assert(views(lines@) =~= l0.push(line@));
                assert(l0 + code_lines(c).0 =~= views(lines@) + code_lines(self.cursor()).0);
            }
        }
        lines
    }

    /// Skips a false conditional up to its closing annihilator.
    fn skip_conditional(&mut self)
        requires
            old(self).wf(),
        ensures
            final(self).wf(),
            final(self).defs() == old(self).defs(),
            final(self).cursor() == skip_cond(old(self).cursor(), 1),
            follows(final(self).cursor(), old(self).cursor(), old(self).cursor().pos),
    {
        let ghost c0 = self.cursor();
        let mut depth: usize = 1;
        loop
            invariant
                self.wf(),
                self.defs() == old(self).defs(),
                c0 == old(self).cursor(),
                skip_cond(self.cursor(), depth as nat) == skip_cond(c0, 1),
                c0.wf(),
                follows(self.cursor(), c0, c0.pos),
                depth <= self.cursor().pos - c0.pos + 1,
            ensures
                self.wf(),
                self.defs() == old(self).defs(),
                self.cursor() == skip_cond(c0, 1),
                follows(self.cursor(), c0, c0.pos),
            decreases self.cursor().left(),
        {
            let ghost c = self.cursor();
            proof {
                lemma_lex(c);
                lemma_raw_line(c);
                if peek(c) is Some {
                    lemma_raw_line(adv(c));
                }
            }
            if depth == 0 {
                break;
            }
            match self.peek() {
                Peek::End => {
                    break;
                },
                Peek::Ann => {
                    self.consume();
                    depth = depth - 1;
                },
                Peek::Quark(flavor, count) => {
                    proof {
                        assert(raw_line(c).1 == raw_line(adv(c)).1);
                    }
                    self.collect_raw_line_content();
                    proof {
                        assert(adv(c).pos >= c.pos + 2);
                        assert(self.cursor().pos >= c.pos + 2);
                        assert(self.cursor().pos <= usize::MAX);
                        assert(depth + 1 <= self.cursor().pos - c0.pos);
                    }
                    if count == 1 && (flavor == Flavor::Lattice || flavor == Flavor::Strange
                        || flavor == Flavor::Bottom) {
                        depth = depth + 1;
                    }
                },
                _ => {
                    self.collect_raw_line_content();
                },
            }
        }
    }

    /// The blocks of a true conditional up to its closing annihilator.
    fn parse_conditional_blocks(&mut self) -> (r: Vec<BlockNode>)
        requires
            old(self).wf(),
        ensures
            final(self).wf(),
            blocks_view(r@) == cond_blocks(old(self).cursor(), old(self).defs()).0,
            final(self).cursor() == cond_blocks(old(self).cursor(), old(self).defs()).1,
            final(self).defs() == cond_blocks(old(self).cursor(), old(self).defs()).2,
            follows(final(self).cursor(), old(self).cursor(), old(self).cursor().pos),
        decreases old(self).cursor().left(), 2nat,
    {
        let ghost c0 = self.cursor();
        let ghost d0 = self.defs();
        let mut blocks: Vec<BlockNode> = Vec::new();
        proof {
            assert(blocks_view(blocks@) + cond_blocks(c0, d0).0 =~= cond_blocks(c0, d0).0);
        }
        loop
            invariant_except_break
                blocks_view(blocks@) + cond_blocks(self.cursor(), self.defs()).0 == cond_blocks(
                    c0,
                    d0,
                ).0,
                cond_blocks(self.cursor(), self.defs()).1 == cond_blocks(c0, d0).1,
                cond_blocks(self.cursor(), self.defs()).2 == cond_blocks(c0, d0).2,
            invariant
                self.wf(),
                c0 == old(self).cursor(),
                d0 == old(self).defs(),
                follows(self.cursor(), c0, c0.pos),
            ensures
                self.wf(),
                blocks_view(blocks@) == cond_blocks(c0, d0).0,
                self.cursor() == cond_blocks(c0, d0).1,
                self.defs() == cond_blocks(c0, d0).2,
                follows(self.cursor(), c0, c0.pos),
            decreases self.cursor().left(),
        {
            let ghost c = self.cursor();
            let ghost d = self.defs();
            let ghost b0 = blocks_view(blocks@);
            proof {
                lemma_lex(c);
            }
            match self.peek() {
                Peek::End => {
                    assert(b0 + Seq::<Block>::empty() =~= b0);
                    break;
                },
                Peek::Ann => {
                    self.consume();
                    assert(b0 + Seq::<Block>::empty() =~= b0);
                    break;
                },
                Peek::Quark(flavor, _) if flavor == Flavor::Neutrino || flavor
                    == Flavor::Electron => {
                    let list_block = self.parse_list_block();
                    match list_block {
                        Some(b) => {
                            proof {
                                lemma_blocks_view_push(blocks@, b);
                            }
                            blocks.push(b);
                            proof {
                                assert(b0 + cond_blocks(c, d).0 =~= blocks_view(blocks@)
                                    + cond_blocks(self.cursor(), self.defs()).0);
                            }
                        },
                        None => {},
                    }
                    continue;
                },
                _ => {},
            }
            match self.parse_block() {
                Some(block) => {
                    proof {
                        lemma_blocks_view_push(blocks@, block);
                    }
                    blocks.push(block);
                    proof {
                        assert(b0 + cond_blocks(c, d).0 =~= blocks_view(blocks@) + cond_blocks(
                            self.cursor(),
                            self.defs(),
                        ).0);
                    }
                },
                None => {
                    proof {
                        assert(b0 + cond_blocks(c, d).0 =~= blocks_view(blocks@) + cond_blocks(
                            self.cursor(),
                            self.defs(),
                        ).0);
                    }
                },
            }
        }
        blocks
    }

    /// The block at the cursor.
    fn parse_block(&mut self) -> (r: Option<BlockNode>)
        requires
            old(self).wf(),
        ensures
            final(self).wf(),
            opt_block(r) == block(old(self).cursor(), old(self).defs()).0,
            final(self).cursor() == block(old(self).cursor(), old(self).defs()).1,
            final(self).defs() == block(old(self).cursor(), old(self).defs()).2,
            follows(final(self).cursor(), old(self).cursor(), old(self).cursor().pos),
            peek(old(self).cursor()) is Some ==> final(self).cursor().pos > old(self).cursor().pos,
        decreases old(self).cursor().left(), 1nat,
    {
        let ghost c = self.cursor();
        let ghost d = self.defs();
        proof {
            lemma_lex(c);
            if peek(c) is Some {
                lemma_raw_line(adv(c));
            }
            reveal_strlit(" ");
            reveal_strlit("\n");
            reveal_strlit("math");
        }
        if let Peek::Quark(flavor, count) = self.peek() {
            if flavor == Flavor::Up {
                self.consume();
                let content = self.parse_inline_until_line_end();
                return Some(BlockNode::Heading { level: count, content });
            } else if flavor == Flavor::Top {
                self.consume();
                let raw_line = self.collect_raw_line_content();
                let parts = words(&raw_line);
                if parts.len() == 0 {
                    return None;
                }
                let value = join_words(&parts, 1, " ");
                let key = string_from(&parts[0]);
                self.defines.insert(string_from(&parts[0]), value.clone());
                return Some(BlockNode::Metadata { key, value });
            } else if flavor == Flavor::Graphic {
                self.consume();
                let raw_line = self.collect_raw_line_content();
                let parts = words(&raw_line);
                if parts.len() == 0 {
                    return None;
                }
                let path = string_from(&parts[0]);
                let caption = if parts.len() > 1 {
                    Some(join_words(&parts, 1, " "))
                } else {
                    None
                };
                return Some(BlockNode::Image { path, caption });
            } else if flavor == Flavor::Lattice && count == 1 {
                self.consume();
                self.collect_raw_line_content();
                let rows = self.collect_lattice_rows();
                return Some(BlockNode::Lattice(rows));
            } else if flavor == Flavor::Strange {
                self.consume();
                let raw_line = self.collect_raw_line_content();
                let (a, b) = trim_bounds(&raw_line, 0, raw_line.len());
                let modifier = vec_slice(&raw_line, a, b);
                proof {
                    assert(raw_line@.subrange(0, raw_line@.len() as int) =~= raw_line@);
                }
                let is_math = same_chars(&modifier, "math");
                let lines = self.collect_code_lines();
                let body = join_words(&lines, 0, "\n");
                proof {
                    assert(views(lines@).skip(0) =~= views(lines@));
                }
                if is_math {
                    return Some(BlockNode::MathBlock(body));
                } else {
                    let language = if modifier.len() == 0 {
                        None
                    } else {
                        Some(string_from(&modifier))
                    };
                    return Some(BlockNode::CodeBlock { language, code: body });
                }
            } else if flavor == Flavor::Bottom && count == 1 {
                self.consume();
                let raw_line = self.collect_raw_line_content();
                if evaluate_condition(&self.defines, &raw_line) {
                    let inner_blocks = self.parse_conditional_blocks();
                    return Some(BlockNode::Conditional(inner_blocks));
                } else {
                    self.skip_conditional();
                    return None;
                }
            }
        }
        let content = self.parse_inline_until_line_end();
        if content.len() == 0 {
            proof {
                lemma_inlines_view(content@);
            }
            None
        } else {
            proof {
                lemma_inlines_view(content@);
            }
            Some(BlockNode::Paragraph(content))
        }
    }

    /// A list: the consecutive lepton lines of the kind of the first one.
    fn parse_list_block(&mut self) -> (r: Option<BlockNode>)
        requires
            old(self).wf(),
            starts_list(peek(old(self).cursor())),
        ensures
            final(self).wf(),
            final(self).defs() == old(self).defs(),
            opt_block(r) == Some(
                Block::List(
                    is_ordered(peek(old(self).cursor())),
                    list_items(
                        old(self).cursor(),
                        is_ordered(peek(old(self).cursor())),
                        old(self).defs(),
                    ).0,
                ),
            ),
            final(self).cursor() == list_items(
                old(self).cursor(),
                is_ordered(peek(old(self).cursor())),
                old(self).defs(),
            ).1,
            follows(final(self).cursor(), old(self).cursor(), old(self).cursor().pos + 1),
    {
        let ghost c0 = self.cursor();
        let ghost d = self.defs();
        let ordered = match self.peek() {
            Peek::Quark(Flavor::Electron, _) => true,
            _ => false,
        };
        let mut items: Vec<ListItem> = Vec::new();
        proof {
            assert(items_view(items@) + list_items(c0, ordered, d).0 =~= list_items(
                c0,
                ordered,
                d,
            ).0);
        }
        loop
            invariant_except_break
                items_view(items@) + list_items(self.cursor(), ordered, d).0 == list_items(
                    c0,
                    ordered,
                    d,
                ).0,
                list_items(self.cursor(), ordered, d).1 == list_items(c0, ordered, d).1,
            invariant
                self.wf(),
                self.defs() == d,
                c0 == old(self).cursor(),
                d == old(self).defs(),
                ordered == is_ordered(peek(c0)),
                starts_list(peek(c0)),
                follows(self.cursor(), c0, c0.pos),
                self.cursor() == c0 || self.cursor().pos > c0.pos,
            ensures
                self.wf(),
                self.defs() == d,
                items_view(items@) == list_items(c0, ordered, d).0,
                self.cursor() == list_items(c0, ordered, d).1,
                follows(self.cursor(), c0, c0.pos + 1),
            decreases self.cursor().left(),
        {
            let ghost c = self.cursor();
            let ghost i0 = items_view(items@);
            proof {
                lemma_lex(c);
            }
            let (flavor, count) = match self.peek() {
                Peek::Quark(flavor, count) => (flavor, count),
                _ => {
                    assert(i0 + Seq::<Item>::empty() =~= i0);
                    break;
                },
            };
            let current_ordered = if flavor == Flavor::Electron {
                true
            } else if flavor == Flavor::Neutrino {
                false
            } else {
                assert(i0 + Seq::<Item>::empty() =~= i0);
                break;
            };
            if current_ordered != ordered {
                assert(i0 + Seq::<Item>::empty() =~= i0);
                break;
            }
            self.consume();
            let content = self.parse_inline_until_line_end();
            let item = ListItem { level: count, content };
            items.push(item);
            let ghost c1 = self.cursor();
            loop
                invariant
                    self.wf(),
                    self.defs() == d,
                    skip_breaks(self.cursor()) == skip_breaks(c1),
                    follows(self.cursor(), c1, c1.pos),
                ensures
                    self.wf(),
                    self.defs() == d,
                    self.cursor() == skip_breaks(c1),
                    follows(self.cursor(), c1, c1.pos),
                decreases self.cursor().left(),
            {
                proof {
                    lemma_lex(self.cursor());
                }
                if let Peek::Break = self.peek() {
                    self.consume();
                } else {
                    break;
                }
            }
            proof {
                assert(items_view(items@) =~= i0.push(item_view(item)));
                assert(i0 + list_items(c, ordered, d).0 =~= items_view(items@) + list_items(
                    self.cursor(),
                    ordered,
                    d,
                ).0);
            }
        }
        Some(BlockNode::List { ordered, items })
    }

    /// Reads the whole document.
    pub fn parse(self) -> (doc: Document)
        requires
            self.wf(),
        ensures
            doc@ == doc_blocks(self.cursor(), self.defs()),
            blocks_fit(doc.blocks@),
            blocks_shape(doc@),
    {
        let ghost c0 = self.cursor();
        let ghost d0 = self.defs();
        let mut p = self;
        let mut blocks: Vec<BlockNode> = Vec::new();
        proof {
            assert(blocks_view(blocks@) + doc_blocks(c0, d0) =~= doc_blocks(c0, d0));
        }
        loop
            invariant
                p.wf(),
                blocks_view(blocks@) + doc_blocks(p.cursor(), p.defs()) == doc_blocks(c0, d0),
            ensures
                blocks_view(blocks@) == doc_blocks(c0, d0),
            decreases p.cursor().left(),
        {
            let ghost c = p.cursor();
            let ghost d = p.defs();
            let ghost b0 = blocks_view(blocks@);
            proof {
                lemma_lex(c);
            }
            match p.peek() {
                Peek::End => {
                    assert(b0 + Seq::<Block>::empty() =~= b0);
                    break;
                },
                Peek::Break | Peek::Space => {
                    p.consume();
                },
                Peek::Quark(flavor, _) if flavor == Flavor::Neutrino || flavor
                    == Flavor::Electron => {
                    let list_block = p.parse_list_block();
                    match list_block {
                        Some(b) => {
                            proof {
                                lemma_blocks_view_push(blocks@, b);
                            }
                            blocks.push(b);
                            proof {
                                assert(b0 + doc_blocks(c, d) =~= blocks_view(blocks@) + doc_blocks(
                                    p.cursor(),
                                    p.defs(),
                                ));
                            }
                        },
                        None => {},
                    }
                },
                _ => {
                    match p.parse_block() {
                        Some(b) => {
                            proof {
                                lemma_blocks_view_push(blocks@, b);
                            }
                            blocks.push(b);
                            proof {
                                assert(b0 + doc_blocks(c, d) =~= blocks_view(blocks@) + doc_blocks(
                                    p.cursor(),
                                    p.defs(),
                                ));
                            }
                        },
                        None => {
                            proof {
                                assert(b0 + doc_blocks(c, d) =~= blocks_view(blocks@) + doc_blocks(
                                    p.cursor(),
                                    p.defs(),
                                ));
                            }
                        },
                    }
                },
            }
        }
        proof {
            lemma_doc_unit(c0, d0);
            lemma_units_fit(blocks@);
            law_doc_shape(c0, d0);
        }
        Document { blocks }
    }

    /// A lattice row from its raw line; blank lines give none.
    fn parse_lattice_row(&self, raw_line: &Vec<char>) -> (r: Option<LatticeRow>)
        ensures
            opt_row(r) == lattice_row(raw_line@),
    {
        let (a, b) = trim_bounds(raw_line, 0, raw_line.len());
        let t = vec_slice(raw_line, a, b);
        proof {
            assert(raw_line@.subrange(0, raw_line@.len() as int) =~= raw_line@);
            reveal_strlit("h:");
            reveal_strlit("f:");
            reveal_strlit("s:");
        }
        if t.len() == 0 {
            return None;
        }
        let row_type;
        let content;
        if has_at(&t, 0, "h:") {
            row_type = RowType::Header;
            content = vec_slice(&t, 2, t.len());
        } else if has_at(&t, 0, "f:") {
            row_type = RowType::Footer;
            content = vec_slice(&t, 2, t.len());
        } else if has_at(&t, 0, "s:") {
            row_type = RowType::Section;
            content = vec_slice(&t, 2, t.len());
        } else {
            row_type = RowType::Body;
            content = vec_slice(&t, 0, t.len());
        }
        proof {
            if t@.len() >= 2 {
                assert(t@.subrange(2, t@.len() as int) =~= t@.skip(2));
            }
            assert(t@.subrange(0, t@.len() as int) =~= t@);
        }
        let raw_cells = split_cells(&content);
        let ghost parts = views(raw_cells@);
        let mut cells: Vec<LatticeCell> = Vec::new();
        let mut i: usize = 0;
        while i < raw_cells.len()
            invariant
                i <= raw_cells.len(),
                parts == views(raw_cells@),
                cells@.map_values(|c: LatticeCell| cell_view(c)) == parts.take(i as int).map_values(
                    |p: Seq<char>| cell_of(p),
                ),
            decreases raw_cells.len() - i,
        {
            let cell = parse_cell(&raw_cells[i]);
            let ghost c0 = cells@;
            cells.push(cell);
            proof {
                assert(parts[i as int] == raw_cells@[i as int]@);
                let m0 = c0.map_values(|c: LatticeCell| cell_view(c));
                assert(cells@.map_values(|c: LatticeCell| cell_view(c)) =~= m0.push(
                    cell_view(cell),
                ));
                assert(parts.take(i + 1).map_values(|p: Seq<char>| cell_of(p)) =~= parts.take(
                    i as int,
                ).map_values(|p: Seq<char>| cell_of(p)).push(cell_of(parts[i as int])));
                assert(cells@.map_values(|c: LatticeCell| cell_view(c)) =~= parts.take(i + 1).map_values(
                    |p: Seq<char>| cell_of(p),
                ));
            }
            i = i + 1;
        }
        proof {
            assert(parts.take(raw_cells@.len() as int) =~= parts);
        }
        Some(LatticeRow { row_type, cells })
    }
}

} // verus!
