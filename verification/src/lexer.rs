//! The lexer: cuts a Quarkup source into quarks, annihilators, text runs,
//! spaces and line breaks, dropping comment lines.
use vstd::prelude::*;
use crate::text::{chars_of, string_of};

verus! {

/// The formatting particles, one per command letter.
#[derive(PartialEq, Eq, Structural, Clone, Copy, Debug)]
pub enum Flavor {
    Up,
    Down,
    Charm,
    Strange,
    Top,
    Bottom,
    Graphic,
    Neutrino,
    Electron,
    Lattice,
    Muon,
}

/// The flavor named by a command letter.
pub open spec fn flavor_of(c: char) -> Option<Flavor> {
    if c == 'u' {
        Some(Flavor::Up)
    } else if c == 'd' {
        Some(Flavor::Down)
    } else if c == 'c' {
        Some(Flavor::Charm)
    } else if c == 's' {
        Some(Flavor::Strange)
    } else if c == 't' {
        Some(Flavor::Top)
    } else if c == 'b' {
        Some(Flavor::Bottom)
    } else if c == 'g' {
        Some(Flavor::Graphic)
    } else if c == 'n' {
        Some(Flavor::Neutrino)
    } else if c == 'e' {
        Some(Flavor::Electron)
    } else if c == 'l' {
        Some(Flavor::Lattice)
    } else if c == 'm' {
        Some(Flavor::Muon)
    } else {
        None
    }
}

/// The command letter of a flavor.
pub open spec fn letter_of(f: Flavor) -> char {
    match f {
        Flavor::Up => 'u',
        Flavor::Down => 'd',
        Flavor::Charm => 'c',
        Flavor::Strange => 's',
        Flavor::Top => 't',
        Flavor::Bottom => 'b',
        Flavor::Graphic => 'g',
        Flavor::Neutrino => 'n',
        Flavor::Electron => 'e',
        Flavor::Lattice => 'l',
        Flavor::Muon => 'm',
    }
}

impl Flavor {
    pub fn from_char(c: char) -> (r: Option<Flavor>)
        ensures
            r == flavor_of(c),
    {
        match c {
            'u' => Some(Flavor::Up),
            'd' => Some(Flavor::Down),
            'c' => Some(Flavor::Charm),
            's' => Some(Flavor::Strange),
            't' => Some(Flavor::Top),
            'b' => Some(Flavor::Bottom),
            'g' => Some(Flavor::Graphic),
            'n' => Some(Flavor::Neutrino),
            'e' => Some(Flavor::Electron),
            'l' => Some(Flavor::Lattice),
            'm' => Some(Flavor::Muon),
            _ => None,
        }
    }

    /// The command letter of this flavor.
    pub fn letter(&self) -> (r: char)
        ensures
            r == letter_of(*self),
    {
        match self {
            Flavor::Up => 'u',
            Flavor::Down => 'd',
            Flavor::Charm => 'c',
            Flavor::Strange => 's',
            Flavor::Top => 't',
            Flavor::Bottom => 'b',
            Flavor::Graphic => 'g',
            Flavor::Neutrino => 'n',
            Flavor::Electron => 'e',
            Flavor::Lattice => 'l',
            Flavor::Muon => 'm',
        }
    }
}

pub proof fn lemma_letter_flavor(f: Flavor)
    ensures
        flavor_of(letter_of(f)) == Some(f),
{
}

/// A token of the source.
#[derive(PartialEq, Clone, Debug)]
pub enum Token {
    Quark { flavor: Flavor, count: usize },
    Annihilator,
    Text(String),
    LineBreak,
    Space,
}

/// A token as a mathematical value.
pub enum Tok {
    Quark { flavor: Flavor, count: nat },
    Annihilator,
    Text(Seq<char>),
    LineBreak,
    Space,
}

impl View for Token {
    type V = Tok;

    open spec fn view(&self) -> Tok {
        match self {
            Token::Quark { flavor, count } => Tok::Quark { flavor: *flavor, count: *count as nat },
            Token::Annihilator => Tok::Annihilator,
            Token::Text(t) => Tok::Text(t@),
            Token::LineBreak => Tok::LineBreak,
            Token::Space => Tok::Space,
        }
    }
}

pub open spec fn opt_tok(t: Option<Token>) -> Option<Tok> {
    match t {
        Some(t) => Some(t@),
        None => None,
    }
}

/// A position in a source: the characters, the index of the next one, and
/// whether that index is at the start of a line.
pub struct Cursor {
    pub src: Seq<char>,
    pub pos: int,
    pub als: bool,
}

impl Cursor {
    pub open spec fn wf(self) -> bool {
        0 <= self.pos <= self.src.len()
    }

    /// Characters left to read.
    pub open spec fn left(self) -> int {
        self.src.len() - self.pos
    }

    pub open spec fn at(self, pos: int, als: bool) -> Cursor {
        Cursor { src: self.src, pos, als }
    }
}

/// The start of a source.
pub open spec fn start(src: Seq<char>) -> Cursor {
    Cursor { src, pos: 0, als: true }
}

pub open spec fn is_brk(c: char) -> bool {
    c == '\n' || c == '\r'
}

/// Index of the first line break at or after `i` (or `s.len()`).
pub open spec fn line_end(s: Seq<char>, i: int) -> int
    decreases s.len() - i,
{
    if i < 0 || i >= s.len() || is_brk(s[i]) {
        i
    } else {
        line_end(s, i + 1)
    }
}

/// Index of the first character at or after `i` that is neither a space nor a tab.
pub open spec fn blank_end(s: Seq<char>, i: int) -> int
    decreases s.len() - i,
{
    if i < 0 || i >= s.len() || !(s[i] == ' ' || s[i] == '\t') {
        i
    } else {
        blank_end(s, i + 1)
    }
}

pub open spec fn is_gap(c: char) -> bool {
    c == ' ' || c == '\t' || c == '\r'
}

/// End of the run of spaces, tabs and carriage returns that starts at `i`.
pub open spec fn gap_end(s: Seq<char>, i: int) -> int
    decreases s.len() - i,
{
    if i < 0 || i >= s.len() || !is_gap(s[i]) {
        i
    } else {
        gap_end(s, i + 1)
    }
}

/// Characters that end a run of text.
pub open spec fn ends_text(c: char) -> bool {
    c == '.' || c == '\n' || c == ' ' || c == '\t' || c == '\r'
}

/// End of the text run that continues at `i`.
pub open spec fn text_end(s: Seq<char>, i: int) -> int
    decreases s.len() - i,
{
    if i < 0 || i >= s.len() || ends_text(s[i]) {
        i
    } else {
        text_end(s, i + 1)
    }
}

/// End of the run of copies of `c` that starts at `i`.
pub open spec fn run_end(s: Seq<char>, i: int, c: char) -> int
    decreases s.len() - i,
{
    if i < 0 || i >= s.len() || s[i] != c {
        i
    } else {
        run_end(s, i + 1, c)
    }
}

/// A comment line starts at `i`: after spaces and tabs, `#` or `//`.
pub open spec fn comment_at(s: Seq<char>, i: int) -> bool {
    let j = blank_end(s, i);
    j < s.len() && (s[j] == '#' || (s[j] == '/' && j + 1 < s.len() && s[j + 1] == '/'))
}

/// Index just after the line break (`\n`, `\r` or `\r\n`) at `j`, if any.
pub open spec fn after_break(s: Seq<char>, j: int) -> int {
    if 0 <= j < s.len() && s[j] == '\n' {
        j + 1
    } else if 0 <= j < s.len() && s[j] == '\r' {
        if j + 1 < s.len() && s[j + 1] == '\n' {
            j + 2
        } else {
            j + 1
        }
    } else {
        j
    }
}

pub proof fn lemma_scan_bounds(s: Seq<char>, i: int)
    requires
        0 <= i <= s.len(),
    ensures
        i <= line_end(s, i) <= s.len(),
        i <= blank_end(s, i) <= s.len(),
        i <= gap_end(s, i) <= s.len(),
        i <= text_end(s, i) <= s.len(),
        forall|c: char| i <= #[trigger] run_end(s, i, c) <= s.len(),
        forall|k: int| i <= k < line_end(s, i) ==> !is_brk(#[trigger] s[k]),
        forall|k: int| i <= k < blank_end(s, i) ==> (#[trigger] s[k] == ' ' || s[k] == '\t'),
    decreases s.len() - i,
{
    if i < s.len() {
        lemma_scan_bounds(s, i + 1);
        assert forall|c: char| i <= #[trigger] run_end(s, i, c) <= s.len() by {
            if s[i] == c {
                assert(run_end(s, i + 1, c) <= s.len());
            }
        }
    }
}

/// Lines that are comments, skipped from a line start on.
pub open spec fn skip_comments(c: Cursor) -> Cursor
    decreases c.src.len() - c.pos,
{
    if c.wf() && c.als && comment_at(c.src, c.pos) {
        proof {
            lemma_comment_progress(c.src, c.pos);
        }
        skip_comments(c.at(after_break(c.src, line_end(c.src, c.pos)), true))
    } else {
        c
    }
}

pub proof fn lemma_comment_progress(s: Seq<char>, i: int)
    requires
        0 <= i <= s.len(),
        comment_at(s, i),
    ensures
        i < line_end(s, i) <= after_break(s, line_end(s, i)) <= s.len(),
{
    lemma_scan_bounds(s, i);
    let j = blank_end(s, i);
    lemma_scan_bounds(s, j);
    lemma_scan_bounds(s, j + 1);
    lemma_line_end_from(s, i, j);
}

/// Line ends agree from any point that lies before them.
pub proof fn lemma_line_end_from(s: Seq<char>, i: int, j: int)
    requires
        0 <= i <= j <= s.len(),
        forall|k: int| i <= k < j ==> !is_brk(#[trigger] s[k]),
    ensures
        line_end(s, i) == line_end(s, j),
    decreases j - i,
{
    if i < j {
        lemma_line_end_from(s, i + 1, j);
    }
}

/// The next token at a cursor, and the cursor after it.
pub open spec fn lex(c0: Cursor) -> (Option<Tok>, Cursor) {
    let c = skip_comments(c0);
    let s = c.src;
    let p = c.pos;
    if !c.wf() || p >= s.len() {
        (None, c)
    } else {
        let ch = s[p];
        let als = is_brk(ch);
        if ch == '\n' {
            (Some(Tok::LineBreak), c.at(p + 1, als))
        } else if is_gap(ch) {
            (Some(Tok::Space), c.at(gap_end(s, p + 1), als))
        } else if ch == '.' {
            if p + 1 < s.len() && s[p + 1] == '.' {
                (Some(Tok::Annihilator), c.at(p + 2, als))
            } else if p + 1 < s.len() && flavor_of(s[p + 1]) is Some {
                let q = run_end(s, p + 1, s[p + 1]);
                if q >= s.len() || s[q] == ' ' || is_brk(s[q]) {
                    let next = if q < s.len() && s[q] == ' ' {
                        q + 1
                    } else {
                        q
                    };
                    (
                        Some(
                            Tok::Quark {
                                flavor: flavor_of(s[p + 1])->0,
                                count: (q - (p + 1)) as nat,
                            },
                        ),
                        c.at(next, als),
                    )
                } else {
                    (Some(Tok::Text(seq!['.'])), c.at(p + 1, als))
                }
            } else {
                (Some(Tok::Text(seq!['.'])), c.at(p + 1, als))
            }
        } else {
            let q = text_end(s, p + 1);
            (Some(Tok::Text(s.subrange(p, q))), c.at(q, als))
        }
    }
}

proof fn lemma_run_end(s: Seq<char>, i: int, k: int, c: char)
    requires
        0 <= i,
        0 <= k,
        i + k <= s.len(),
        forall|j: int| i <= j < i + k ==> #[trigger] s[j] == c,
        i + k == s.len() || s[i + k] != c,
    ensures
        run_end(s, i, c) == i + k,
    decreases k,
{
    if k > 0 {
        lemma_run_end(s, i + 1, k - 1, c);
    }
}

/// A line does not start a comment where its next character is a dot.
proof fn lemma_dot_is_no_comment(c: Cursor)
    requires
        c.wf(),
        c.pos < c.src.len(),
        c.src[c.pos] == '.',
    ensures
        skip_comments(c) == c,
{
    assert(blank_end(c.src, c.pos) == c.pos);
}

/// The trigger rule: a dot, a run of one flavor's letter, then a space (or a
/// line break, or the end of the source) is a quark of that flavor counting
/// the letters; a space that ends it goes with it.
pub proof fn law_quark(c: Cursor, f: Flavor, k: nat)
    requires
        c.wf(),
        k >= 1,
        c.pos + k < c.src.len(),
        c.src[c.pos] == '.',
        forall|j: int| c.pos < j <= c.pos + k ==> #[trigger] c.src[j] == letter_of(f),
        c.pos + k + 1 == c.src.len() || c.src[c.pos + k + 1] == ' ' || is_brk(c.src[c.pos + k + 1]),
    ensures
        lex(c).0 == Some(Tok::Quark { flavor: f, count: k }),
        lex(c).1.pos == (if c.pos + k + 1 < c.src.len() && c.src[c.pos + k + 1] == ' ' {
            c.pos + k + 2
        } else {
            c.pos + k + 1
        }),
{
    lemma_dot_is_no_comment(c);
    lemma_letter_flavor(f);
    assert(c.src[c.pos + 1] == letter_of(f));
    lemma_run_end(c.src, c.pos + 1, k as int, letter_of(f));
}

/// A dot that a run of letters follows without a space stays punctuation:
/// the lexer yields the dot alone, as text (`e.g.`, `file.txt`).
pub proof fn law_dormant_dot(c: Cursor, k: nat)
    requires
        c.wf(),
        k >= 1,
        c.pos + k + 1 < c.src.len(),
        c.src[c.pos] == '.',
        c.src[c.pos + 1] != '.',
        forall|j: int| c.pos < j <= c.pos + k ==> #[trigger] c.src[j] == c.src[c.pos + 1],
        c.src[c.pos + k + 1] != c.src[c.pos + 1],
        c.src[c.pos + k + 1] != ' ',
        !is_brk(c.src[c.pos + k + 1]),
    ensures
        lex(c).0 == Some(Tok::Text(seq!['.'])),
        lex(c).1.pos == c.pos + 1,
{
    lemma_dot_is_no_comment(c);
    lemma_run_end(c.src, c.pos + 1, k as int, c.src[c.pos + 1]);
}

/// The source line at a cursor as written, up to the next line break, and
/// the cursor at the start of the next line.
pub open spec fn src_line(c: Cursor) -> (Seq<char>, Cursor) {
    let e = line_end(c.src, c.pos);
    (c.src.subrange(c.pos, e), c.at(after_break(c.src, e), true))
}

/// Reading a source line stays in the source and, short of its end, moves on.
pub proof fn lemma_src_line(c: Cursor)
    requires
        c.wf(),
    ensures
        src_line(c).1.wf(),
        src_line(c).1.src == c.src,
        line_end(c.src, c.pos) <= src_line(c).1.pos,
        c.pos < c.src.len() ==> src_line(c).1.pos > c.pos,
    decreases c.src.len() - c.pos,
{
    lemma_scan_bounds(c.src, c.pos);
    lemma_line_end_brk(c.src, c.pos);
}

proof fn lemma_line_end_brk(s: Seq<char>, i: int)
    requires
        0 <= i <= s.len(),
    ensures
        line_end(s, i) < s.len() ==> is_brk(s[line_end(s, i)]),
    decreases s.len() - i,
{
    if i < s.len() && !is_brk(s[i]) {
        lemma_line_end_brk(s, i + 1);
    }
}

proof fn lemma_text_end(s: Seq<char>, i: int)
    requires
        0 <= i <= s.len(),
    ensures
        forall|k: int| i <= k < text_end(s, i) ==> !ends_text(#[trigger] s[k]),
    decreases s.len() - i,
{
    if i < s.len() && !ends_text(s[i]) {
        lemma_text_end(s, i + 1);
    }
}

/// What every token looks like: a text token is not empty and holds no blank
/// or line break, and a dot only as the whole token; a quark counts at least
/// one letter. Once the source is used up it stays used up.
pub proof fn law_token_shape(c: Cursor)
    requires
        c.wf(),
    ensures
        lex(c).0 matches Some(Tok::Text(t)) ==> t.len() > 0 && (t == seq!['.'] || forall|k: int|
            0 <= k < t.len() ==> !ends_text(#[trigger] t[k])),
        lex(c).0 matches Some(Tok::Quark { flavor, count }) ==> count >= 1,
        lex(c).0 is None ==> lex(lex(c).1).0 is None,
{
    lemma_skip_comments(c);
    let k = skip_comments(c);
    let s = k.src;
    let p = k.pos;
    if p < s.len() {
        lemma_scan_bounds(s, p + 1);
        lemma_text_end(s, p + 1);
        let ch = s[p];
        if ch == '.' && p + 1 < s.len() && s[p + 1] != '.' && flavor_of(s[p + 1]) is Some {
            lemma_scan_bounds(s, p + 2);
            assert(run_end(s, p + 1, s[p + 1]) == run_end(s, p + 2, s[p + 1]));
        }
        if !(ch == '\n' || is_gap(ch) || ch == '.') {
            let q = text_end(s, p + 1);
            let t = s.subrange(p, q);
            assert forall|j: int| 0 <= j < t.len() implies !ends_text(#[trigger] t[j]) by {
                assert(t[j] == s[p + j]);
            }
        }
    } else {
        assert(lex(c).1 == k);
        assert(!k.als || !comment_at(k.src, k.pos));
        assert(skip_comments(k) == k);
    }
}

/// The tokens from a cursor on, in order, up to the end of the source
/// (what repeated `Lexer::next` yields before its first `None`).
pub open spec fn tokens(c: Cursor) -> Seq<Tok>
    decreases c.left(),
{
    if !c.wf() {
        seq![]
    } else {
        proof {
            lemma_lex(c);
        }
        match lex(c).0 {
            None => seq![],
            Some(t) => seq![t] + tokens(lex(c).1),
        }
    }
}

/// `t` stands somewhere in `src`.
pub open spec fn in_source(t: Seq<char>, src: Seq<char>) -> bool {
    exists|i: int| 0 <= i && i + t.len() <= src.len() && #[trigger] src.subrange(i, i + t.len()) == t
}

proof fn lemma_text_in_source(c: Cursor)
    requires
        c.wf(),
    ensures
        lex(c).0 matches Some(Tok::Text(t)) ==> in_source(t, c.src),
{
    lemma_skip_comments(c);
    let k = skip_comments(c);
    let s = k.src;
    let p = k.pos;
    if p < s.len() {
        lemma_scan_bounds(s, p + 1);
        if s[p] == '.' {
            assert(s.subrange(p, p + 1) =~= seq!['.']);
        } else {
            let q = text_end(s, p + 1);
            assert(s.subrange(p, p + s.subrange(p, q).len()) == s.subrange(p, q));
        }
    }
}

/// The token stream of a source: no more tokens than characters, each text
/// a non-empty piece of the source without blanks or line breaks (a dot
/// only alone), each quark counting at least one letter. After the last
/// token the lexer yields nothing more (`law_token_shape`).
pub proof fn law_token_stream(c: Cursor)
    requires
        c.wf(),
    ensures
        tokens(c).len() <= c.left(),
        forall|k: int|
            0 <= k < tokens(c).len() ==> (#[trigger] tokens(c)[k] matches Tok::Text(t) ==> t.len() > 0
                && in_source(t, c.src) && (t == seq!['.'] || forall|j: int|
                0 <= j < t.len() ==> !ends_text(#[trigger] t[j]))),
        forall|k: int|
            0 <= k < tokens(c).len() ==> (#[trigger] tokens(c)[k] matches Tok::Quark {
                flavor,
                count,
            } ==> count >= 1),
    decreases c.left(),
{
    lemma_lex(c);
    law_token_shape(c);
    lemma_text_in_source(c);
    if lex(c).0 is Some {
        let c2 = lex(c).1;
        law_token_stream(c2);
        let ts = tokens(c);
        let rest = tokens(c2);
        assert(ts == seq![lex(c).0->0] + rest);
        assert forall|k: int| 0 <= k < ts.len() implies (#[trigger] ts[k] matches Tok::Text(t)
            ==> t.len() > 0 && in_source(t, c.src) && (t == seq!['.'] || forall|j: int|
            0 <= j < t.len() ==> !ends_text(#[trigger] t[j]))) by {
            if k > 0 {
                assert(ts[k] == rest[k - 1]);
            }
        }
        assert forall|k: int| 0 <= k < ts.len() implies (#[trigger] ts[k] matches Tok::Quark {
            flavor,
            count,
        } ==> count >= 1) by {
            if k > 0 {
                assert(ts[k] == rest[k - 1]);
            }
        }
    }
}

/// The characters a token stands for when it is put back into a raw line.
pub open spec fn tok_raw(t: Tok) -> Seq<char> {
    match t {
        Tok::Text(s) => s,
        Tok::Space => seq![' '],
        Tok::Annihilator => seq!['.', '.'],
        Tok::Quark { flavor, count } => seq!['.'] + Seq::new(count, |i: int| letter_of(flavor))
            + seq![' '],
        Tok::LineBreak => seq!['\n'],
    }
}

/// The length of the text a token contributes to inline content.
pub open spec fn tok_text_len(t: Tok) -> nat {
    match t {
        Tok::Text(s) => s.len(),
        Tok::Space => 1,
        Tok::Annihilator => 2,
        _ => 0,
    }
}

pub proof fn lemma_skip_comments(c: Cursor)
    requires
        c.wf(),
    ensures
        skip_comments(c).wf(),
        skip_comments(c).src == c.src,
        skip_comments(c).pos >= c.pos,
    decreases c.src.len() - c.pos,
{
    if c.als && comment_at(c.src, c.pos) {
        lemma_comment_progress(c.src, c.pos);
        lemma_skip_comments(c.at(after_break(c.src, line_end(c.src, c.pos)), true));
    }
}

/// Every step stays in the source; a step that yields a token moves forward
/// by at least as many characters as the token's inline text.
pub proof fn lemma_lex(c: Cursor)
    requires
        c.wf(),
    ensures
        lex(c).1.wf(),
        lex(c).1.src == c.src,
        lex(c).1.pos >= c.pos,
        lex(c).0 is Some ==> lex(c).1.pos > c.pos,
        lex(c).0 is Some ==> tok_text_len(lex(c).0->0) <= lex(c).1.pos - c.pos,
        lex(c).0 is Some ==> (lex(c).0->0 is Quark ==> lex(c).1.pos >= c.pos + 2),
{
    lemma_skip_comments(c);
    let k = skip_comments(c);
    let s = k.src;
    let p = k.pos;
    if p < s.len() {
        lemma_scan_bounds(s, p + 1);
    }
}

/// The lexer: a source and the cursor of the next token.
pub struct Lexer {
    src: Vec<char>,
    pos: usize,
    at_line_start: bool,
}

impl View for Lexer {
    type V = Cursor;

    closed spec fn view(&self) -> Cursor {
        Cursor { src: self.src@, pos: self.pos as int, als: self.at_line_start }
    }
}

impl Lexer {
    pub fn new(source: &str) -> (r: Lexer)
        ensures
            r@.wf(),
            r@ == start(source@),
    {
        Lexer { src: chars_of(source), pos: 0, at_line_start: true }
    }

    pub proof fn lemma_src_len(&self)
        ensures
            self@.src.len() <= usize::MAX,
    {
        assert(self.src@.len() == self.src.len());
    }

    /// A lexer over characters that are already split out.
    pub(crate) fn from_chars(src: Vec<char>) -> (r: Lexer)
        ensures
            r@.wf(),
            r@ == start(src@),
    {
        Lexer { src, pos: 0, at_line_start: true }
    }

    /// Where the lexer stands.
    pub(crate) fn position(&self) -> (r: usize)
        ensures
            r == self@.pos,
    {
        self.pos
    }

    /// How many characters the source has.
    pub(crate) fn source_len(&self) -> (r: usize)
        ensures
            r == self@.src.len(),
    {
        self.src.len()
    }

    /// Moves the lexer to `pos`, at the start of a line when `als`.
    pub(crate) fn seek(&mut self, pos: usize, als: bool)
        requires
            pos <= old(self)@.src.len(),
        ensures
            final(self)@ == old(self)@.at(pos as int, als),
    {
        self.pos = pos;
        self.at_line_start = als;
    }

    /// The source line from `from` as written, and where the next line starts.
    pub(crate) fn source_line(&self, from: usize) -> (r: (Vec<char>, usize))
        requires
            from <= self@.src.len(),
        ensures
            r.0@ == src_line(self@.at(from as int, true)).0,
            r.1 == src_line(self@.at(from as int, true)).1.pos,
    {
        let ghost c = self@.at(from as int, true);
        proof {
            lemma_src_line(c);
        }
        let mut line: Vec<char> = Vec::new();
        let mut i = from;
        while i < self.src.len() && self.src[i] != '\n' && self.src[i] != '\r'
            invariant
                from <= i <= self.src@.len(),
                line@ == self.src@.subrange(from as int, i as int),
                line_end(self.src@, from as int) == line_end(self.src@, i as int),
            decreases self.src.len() - i,
        {
            line.push(self.src[i]);
            i = i + 1;
            proof {
                assert(line@ =~= self.src@.subrange(from as int, i as int));
            }
        }
        let next = if i < self.src.len() && self.src[i] == '\n' {
            i + 1
        } else if i < self.src.len() {
            if i + 1 < self.src.len() && self.src[i + 1] == '\n' {
                i + 2
            } else {
                i + 1
            }
        } else {
            i
        };
        (line, next)
    }

    fn peek_char(&self) -> (r: Option<char>)
        requires
            self@.wf(),
        ensures
            r == (if self.pos < self.src@.len() {
                Some(self.src@[self.pos as int])
            } else {
                None
            }),
    {
        if self.pos < self.src.len() {
            Some(self.src[self.pos])
        } else {
            None
        }
    }

    fn consume_until_newline(&mut self)
        requires
            old(self)@.wf(),
        ensures
            final(self)@ == old(self)@.at(
                line_end(old(self)@.src, old(self)@.pos),
                old(self)@.als,
            ),
            final(self).src == old(self).src,
            final(self)@.wf(),
    {
        while self.pos < self.src.len() && self.src[self.pos] != '\n' && self.src[self.pos]
            != '\r'
            invariant
                self@.wf(),
                self.src == old(self).src,
                self.at_line_start == old(self).at_line_start,
                old(self).pos <= self.pos,
                line_end(self.src@, old(self).pos as int) == line_end(self.src@, self.pos as int),
            decreases self.src.len() - self.pos,
        {
            self.pos = self.pos + 1;
        }
    }

    fn skip_comment_line(&mut self) -> (r: bool)
        requires
            old(self)@.wf(),
        ensures
            final(self)@.wf(),
            final(self).src == old(self).src,
            final(self).at_line_start == old(self).at_line_start,
            r == (old(self).at_line_start && comment_at(old(self)@.src, old(self)@.pos)),
            r ==> final(self).pos == line_end(old(self)@.src, old(self)@.pos),
            !r ==> final(self).pos == old(self).pos,
    {
        if !self.at_line_start {
            return false;
        }
        let mut j = self.pos;
        while j < self.src.len() && (self.src[j] == ' ' || self.src[j] == '\t')
            invariant
                self.pos <= j <= self.src.len(),
                blank_end(self.src@, self.pos as int) == blank_end(self.src@, j as int),
            decreases self.src.len() - j,
        {
            j = j + 1;
        }
        if j < self.src.len() {
            let first = self.src[j];
            if first == '#' || (first == '/' && j + 1 < self.src.len() && self.src[j + 1] == '/') {
                self.consume_until_newline();
                return true;
            }
        }
        false
    }

    /// The next token, or `None` at the end of the source.
    pub fn next(&mut self) -> (r: Option<Token>)
        requires
            old(self)@.wf(),
        ensures
            final(self)@.wf(),
            opt_tok(r) == lex(old(self)@).0,
            final(self)@ == lex(old(self)@).1,
    {
        proof {
            lemma_skip_comments(self@);
        }
        loop
            invariant
                self@.wf(),
                self.src == old(self).src,
                skip_comments(self@) == skip_comments(old(self)@),
            ensures
                self@.wf(),
                self.src == old(self).src,
                self@ == skip_comments(old(self)@),
            decreases self.src.len() - self.pos,
        {
            let ghost c0 = self@;
            if !self.skip_comment_line() {
                break;
            }
            proof {
                lemma_comment_progress(c0.src, c0.pos);
            }
            if self.pos < self.src.len() && self.src[self.pos] == '\n' {
                self.pos = self.pos + 1;
            } else if self.pos < self.src.len() && self.src[self.pos] == '\r' {
                self.pos = self.pos + 1;
                if self.pos < self.src.len() && self.src[self.pos] == '\n' {
                    self.pos = self.pos + 1;
                }
            }
            self.at_line_start = true;
        }
        let ghost c = self@;
        assert(skip_comments(c) == c);
        let p = self.pos;
        if p >= self.src.len() {
            return None;
        }
        let ch = self.src[p];
        self.pos = p + 1;
        self.at_line_start = ch == '\n' || ch == '\r';
        proof {
            lemma_scan_bounds(self.src@, p + 1);
            if ch == '.' {
                assert(self.src@.subrange(p as int, p + 1) =~= seq!['.']);
            }
        }
        if ch == '\n' {
            Some(Token::LineBreak)
        } else if ch == ' ' || ch == '\t' || ch == '\r' {
            while self.pos < self.src.len() && (self.src[self.pos] == ' ' || self.src[self.pos]
                == '\t' || self.src[self.pos] == '\r')
                invariant
                    self@.wf(),
                    self.src == old(self).src,
                    p + 1 <= self.pos,
                    gap_end(self.src@, p + 1) == gap_end(self.src@, self.pos as int),
                    self.at_line_start == is_brk(ch),
                decreases self.src.len() - self.pos,
            {
                self.pos = self.pos + 1;
            }
            Some(Token::Space)
        } else if ch == '.' {
            match self.peek_char() {
                Some('.') => {
                    self.pos = self.pos + 1;
                    Some(Token::Annihilator)
                },
                Some(next_c) => {
                    match Flavor::from_char(next_c) {
                        Some(flavor) => {
                            let mut q = p + 1;
                            while q < self.src.len() && self.src[q] == next_c
                                invariant
                                    p + 1 <= q <= self.src.len(),
                                    self.src == old(self).src,
                                    run_end(self.src@, p + 1, next_c) == run_end(
                                        self.src@,
                                        q as int,
                                        next_c,
                                    ),
                                decreases self.src.len() - q,
                            {
                                q = q + 1;
                            }
                            if q >= self.src.len() || self.src[q] == ' ' || self.src[q] == '\n'
                                || self.src[q] == '\r' {
                                let count = q - (p + 1);
                                if q < self.src.len() && self.src[q] == ' ' {
                                    self.pos = q + 1;
                                } else {
                                    self.pos = q;
                                }
                                Some(Token::Quark { flavor, count })
                            } else {
                                Some(Token::Text(string_of(&self.src, p, p + 1)))
                            }
                        },
                        None => Some(Token::Text(string_of(&self.src, p, p + 1))),
                    }
                },
                None => Some(Token::Text(string_of(&self.src, p, p + 1))),
            }
        } else {
            while self.pos < self.src.len() && !(self.src[self.pos] == '.' || self.src[self.pos]
                == '\n' || self.src[self.pos] == ' ' || self.src[self.pos] == '\t'
                || self.src[self.pos] == '\r')
                invariant
                    self@.wf(),
                    self.src == old(self).src,
                    p + 1 <= self.pos,
                    text_end(self.src@, p + 1) == text_end(self.src@, self.pos as int),
                    self.at_line_start == is_brk(ch),
                decreases self.src.len() - self.pos,
            {
                self.pos = self.pos + 1;
            }
            Some(Token::Text(string_of(&self.src, p, self.pos)))
        }
    }
}

} // verus!
