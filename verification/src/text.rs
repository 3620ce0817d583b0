//! Character-level helpers shared by the lexer, the parser and the renderer:
//! Unicode whitespace, trimming, searching, splitting and string building.
use vstd::prelude::*;
use vstd::std_specs::iter::IteratorSpec;

verus! {

broadcast use vstd::string::group_string_axioms;

/// Unicode `White_Space`, the property that `char::is_whitespace` tests.
pub open spec fn is_ws(c: char) -> bool {
    ||| ('\u{9}' <= c && c <= '\u{d}')
    ||| c == ' '
    ||| c == '\u{85}'
    ||| c == '\u{a0}'
    ||| c == '\u{1680}'
    ||| ('\u{2000}' <= c && c <= '\u{200a}')
    ||| c == '\u{2028}'
    ||| c == '\u{2029}'
    ||| c == '\u{202f}'
    ||| c == '\u{205f}'
    ||| c == '\u{3000}'
}

/// `s` without its leading whitespace.
pub open spec fn ltrim(s: Seq<char>) -> Seq<char>
    decreases s.len(),
{
    if s.len() > 0 && is_ws(s[0]) {
        ltrim(s.drop_first())
    } else {
        s
    }
}

/// `s` without its trailing whitespace.
pub open spec fn rtrim(s: Seq<char>) -> Seq<char>
    decreases s.len(),
{
    if s.len() > 0 && is_ws(s.last()) {
        rtrim(s.drop_last())
    } else {
        s
    }
}

/// `str::trim`: `s` without leading and trailing whitespace.
pub open spec fn trim(s: Seq<char>) -> Seq<char> {
    rtrim(ltrim(s))
}

pub open spec fn starts_with(s: Seq<char>, p: Seq<char>) -> bool {
    p.len() <= s.len() && s.take(p.len() as int) == p
}

/// Index of the first occurrence of `c` in `s` at or after `i`.
pub open spec fn find_from(s: Seq<char>, c: char, i: int) -> Option<int>
    decreases s.len() - i,
{
    if i < 0 || i >= s.len() {
        None
    } else if s[i] == c {
        Some(i)
    } else {
        find_from(s, c, i + 1)
    }
}

/// Index of the first occurrence of `c` in `s`.
pub open spec fn find_char(s: Seq<char>, c: char) -> Option<int> {
    find_from(s, c, 0)
}

/// Index of the first whitespace character of `s` at or after `i` (or `s.len()`).
pub open spec fn word_end(s: Seq<char>, i: int) -> int
    decreases s.len() - i,
{
    if i < 0 || i >= s.len() || is_ws(s[i]) {
        i
    } else {
        word_end(s, i + 1)
    }
}

/// `str::split_whitespace`: the maximal runs of non-whitespace characters.
pub open spec fn split_ws(s: Seq<char>) -> Seq<Seq<char>>
    decreases s.len(),
{
    let t = ltrim(s);
    if t.len() == 0 {
        seq![]
    } else {
        let w = word_end(t, 0);
        if 0 < w <= t.len() && t.len() <= s.len() {
            seq![t.take(w)] + split_ws(t.skip(w))
        } else {
            seq![]
        }
    }
}

/// The words joined with `sep` between consecutive ones.
pub open spec fn join(ws: Seq<Seq<char>>, sep: Seq<char>) -> Seq<char>
    decreases ws.len(),
{
    if ws.len() == 0 {
        seq![]
    } else if ws.len() == 1 {
        ws[0]
    } else {
        ws[0] + sep + join(ws.drop_first(), sep)
    }
}

/// Number of bytes of `c` in UTF-8.
pub open spec fn utf8_len(c: char) -> nat {
    if (c as u32) < 0x80 {
        1
    } else if (c as u32) < 0x800 {
        2
    } else if (c as u32) < 0x10000 {
        3
    } else {
        4
    }
}

/// Number of bytes of `s` in UTF-8 (`str::len`).
pub open spec fn byte_len(s: Seq<char>) -> nat
    decreases s.len(),
{
    if s.len() == 0 {
        0
    } else {
        utf8_len(s[0]) + byte_len(s.drop_first())
    }
}

/// The suffix of `s` that starts `k` bytes in, a character split by that
/// offset being dropped with the bytes before it.
pub open spec fn drop_bytes(s: Seq<char>, k: int) -> Seq<char>
    decreases s.len(),
{
    if k <= 0 || s.len() == 0 {
        s
    } else {
        drop_bytes(s.drop_first(), k - utf8_len(s[0]))
    }
}

/// Index of the first occurrence of `p` in `s` at or after `i`.
pub open spec fn find_seq_from(s: Seq<char>, p: Seq<char>, i: int) -> Option<int>
    decreases s.len() - i,
{
    if i < 0 || i + p.len() > s.len() {
        None
    } else if s.subrange(i, i + p.len()) == p {
        Some(i)
    } else if i >= s.len() {
        None
    } else {
        find_seq_from(s, p, i + 1)
    }
}

/// `str::replacen(s, p, r, 1)`: the first occurrence of `p` replaced by `r`.
pub open spec fn replace_first(s: Seq<char>, p: Seq<char>, r: Seq<char>) -> Seq<char> {
    match find_seq_from(s, p, 0) {
        Some(i) => s.take(i) + r + s.skip(i + p.len()),
        None => s,
    }
}

pub proof fn lemma_ltrim_suffix(s: Seq<char>)
    ensures
        ltrim(s).len() <= s.len(),
        ltrim(s) == s.skip(s.len() - ltrim(s).len()),
        ltrim(s).len() > 0 ==> !is_ws(ltrim(s)[0]),
        forall|i: int| 0 <= i < s.len() - ltrim(s).len() ==> is_ws(#[trigger] s[i]),
    decreases s.len(),
{
    if s.len() > 0 && is_ws(s[0]) {
        lemma_ltrim_suffix(s.drop_first());
        assert(s.drop_first().skip(s.drop_first().len() - ltrim(s).len()) =~= s.skip(
            s.len() - ltrim(s).len(),
        ));
        assert forall|i: int| 0 <= i < s.len() - ltrim(s).len() implies is_ws(#[trigger] s[i]) by {
            if i > 0 {
                assert(s[i] == s.drop_first()[i - 1]);
            }
        }
    } else {
        assert(s.skip(0) =~= s);
    }
}

pub proof fn lemma_rtrim_prefix(s: Seq<char>)
    ensures
        rtrim(s).len() <= s.len(),
        rtrim(s) == s.take(rtrim(s).len() as int),
        rtrim(s).len() > 0 ==> !is_ws(rtrim(s).last()),
        forall|i: int| rtrim(s).len() <= i < s.len() ==> is_ws(#[trigger] s[i]),
    decreases s.len(),
{
    if s.len() > 0 && is_ws(s.last()) {
        lemma_rtrim_prefix(s.drop_last());
        assert(s.drop_last().take(rtrim(s).len() as int) =~= s.take(rtrim(s).len() as int));
        assert forall|i: int| rtrim(s).len() <= i < s.len() implies is_ws(#[trigger] s[i]) by {
            if i < s.len() - 1 {
                assert(s[i] == s.drop_last()[i]);
            }
        }
    } else {
        assert(s.take(s.len() as int) =~= s);
    }
}

/// `char::is_whitespace`.
pub fn char_is_ws(c: char) -> (r: bool)
    ensures
        r == is_ws(c),
{
    ('\u{9}' <= c && c <= '\u{d}') || c == ' ' || c == '\u{85}' || c == '\u{a0}' || c == '\u{1680}'
        || ('\u{2000}' <= c && c <= '\u{200a}') || c == '\u{2028}' || c == '\u{2029}' || c
        == '\u{202f}' || c == '\u{205f}' || c == '\u{3000}'
}

/// `String::push`: the string with one more character at its end. Trusted:
/// std documents this, and nothing here proves it.
#[verifier::external_body]
pub(crate) fn push_char(s: &mut String, c: char)
    ensures
        final(s)@ == old(s)@.push(c),
{
    s.push(c);
}

/// The characters of a string slice, in order.
pub fn chars_of(s: &str) -> (r: Vec<char>)
    ensures
        r@ == s@,
{
    let mut r: Vec<char> = Vec::new();
    for c in it: s.chars()
        invariant
            r@ == it.seq().take(it.index() as int),
    {
        r.push(c);
    }
    proof {
        assert(r@ =~= s@);
    }
    r
}

/// The characters `v[lo..hi]` as a `String`.
pub fn string_of(v: &Vec<char>, lo: usize, hi: usize) -> (r: String)
    requires
        lo <= hi <= v.len(),
    ensures
        r@ == v@.subrange(lo as int, hi as int),
{
    let mut r = String::new();
    let mut i = lo;
    while i < hi
        invariant
            lo <= i <= hi <= v.len(),
            r@ == v@.subrange(lo as int, i as int),
        decreases hi - i,
    {
        push_char(&mut r, v[i]);
        i = i + 1;
        proof {
            assert(r@ =~= v@.subrange(lo as int, i as int));
        }
    }
    r
}

/// All of `v` as a `String`.
pub fn string_from(v: &Vec<char>) -> (r: String)
    ensures
        r@ == v@,
{
    let r = string_of(v, 0, v.len());
    proof {
        assert(v@.subrange(0, v@.len() as int) =~= v@);
    }
    r
}

/// A `String` made of the characters of `s`.
pub fn string_from_str(s: &str) -> (r: String)
    ensures
        r@ == s@,
{
    let v = chars_of(s);
    string_from(&v)
}

/// Bounds `(lo, hi)` of `trim(v[lo0..hi0])` inside `v`.
pub fn trim_bounds(v: &Vec<char>, lo0: usize, hi0: usize) -> (r: (usize, usize))
    requires
        lo0 <= hi0 <= v.len(),
    ensures
        lo0 <= r.0 <= r.1 <= hi0,
        v@.subrange(r.0 as int, r.1 as int) == trim(v@.subrange(lo0 as int, hi0 as int)),
{
    let ghost s = v@.subrange(lo0 as int, hi0 as int);
    let mut lo = lo0;
    while lo < hi0 && char_is_ws(v[lo])
        invariant
            lo0 <= lo <= hi0 <= v.len(),
            ltrim(s) == ltrim(v@.subrange(lo as int, hi0 as int)),
        decreases hi0 - lo,
    {
        proof {
            assert(v@.subrange(lo as int, hi0 as int).drop_first() =~= v@.subrange(
                lo + 1,
                hi0 as int,
            ));
        }
        lo = lo + 1;
    }
    let ghost l = v@.subrange(lo as int, hi0 as int);
    assert(ltrim(l) == l);
    let mut hi = hi0;
    while hi > lo && char_is_ws(v[hi - 1])
        invariant
            lo0 <= lo <= hi <= hi0 <= v.len(),
            rtrim(l) == rtrim(v@.subrange(lo as int, hi as int)),
        decreases hi - lo,
    {
        proof {
            assert(v@.subrange(lo as int, hi as int).drop_last() =~= v@.subrange(
                lo as int,
                hi - 1,
            ));
        }
        hi = hi - 1;
    }
    (lo, hi)
}

pub proof fn lemma_find_from(s: Seq<char>, c: char, i: int)
    requires
        0 <= i,
    ensures
        match find_from(s, c, i) {
            Some(j) => i <= j < s.len() && s[j] == c && forall|k: int|
                i <= k < j ==> #[trigger] s[k] != c,
            None => forall|k: int| i <= k < s.len() ==> #[trigger] s[k] != c,
        },
    decreases s.len() - i,
{
    if i < s.len() && s[i] != c {
        lemma_find_from(s, c, i + 1);
    }
}

pub proof fn lemma_find_skip(s: Seq<char>, c: char, k: int, i: int)
    requires
        0 <= k <= i,
        k <= s.len(),
    ensures
        find_from(s.skip(k), c, i - k) == match find_from(s, c, i) {
            Some(j) => Some(j - k),
            None => None,
        },
    decreases s.len() - i,
{
    if i < s.len() && s[i] != c {
        lemma_find_skip(s, c, k, i + 1);
    }
}

/// Whether the characters `v` spell out `s`.
pub fn same_chars(v: &Vec<char>, s: &str) -> (r: bool)
    ensures
        r == (v@ == s@),
{
    let w = chars_of(s);
    if v.len() != w.len() {
        return false;
    }
    let r = has_at(v, 0, s);
    proof {
        assert(v@.subrange(0, v@.len() as int) =~= v@);
    }
    r
}

pub proof fn lemma_find_seq_skip(s: Seq<char>, p: Seq<char>, k: int, j: int)
    requires
        0 <= k <= j,
        k <= s.len(),
    ensures
        find_seq_from(s.skip(k), p, j - k) == match find_seq_from(s, p, j) {
            Some(i) => Some(i - k),
            None => None,
        },
    decreases s.len() - j,
{
    if !(j + p.len() > s.len()) {
        assert(s.skip(k).subrange(j - k, j - k + p.len()) =~= s.subrange(j, j + p.len()));
        if s.subrange(j, j + p.len()) != p && j < s.len() {
            lemma_find_seq_skip(s, p, k, j + 1);
        }
    }
}

pub proof fn lemma_find_seq_from(s: Seq<char>, p: Seq<char>, j: int)
    requires
        0 <= j,
    ensures
        find_seq_from(s, p, j) matches Some(i) ==> j <= i && i + p.len() <= s.len()
            && s.subrange(i, i + p.len()) == p,
    decreases s.len() - j,
{
    if !(j + p.len() > s.len()) && s.subrange(j, j + p.len()) != p && j < s.len() {
        lemma_find_seq_from(s, p, j + 1);
    }
}

/// `replace_first` over character vectors.
pub fn replace_first_chars(v: &Vec<char>, p: &str, r: &str) -> (out: Vec<char>)
    ensures
        out@ == replace_first(v@, p@, r@),
{
    let pv = chars_of(p);
    let mut i: usize = 0;
    let mut found: Option<usize> = None;
    loop
        invariant_except_break
            found is None,
            find_seq_from(v@, p@, 0) == find_seq_from(v@, p@, i as int),
        invariant
            i <= v.len() + 1,
            pv@ == p@,
        ensures
            found is None ==> find_seq_from(v@, p@, 0) is None,
            found matches Some(j) ==> find_seq_from(v@, p@, 0) == Some(j as int) && j + pv@.len()
                <= v@.len(),
        decreases v.len() + 1 - i,
    {
        if i > v.len() || pv.len() > v.len() - i {
            break;
        }
        if has_at(v, i, p) {
            assert(find_seq_from(v@, p@, i as int) == Some(i as int));
            found = Some(i);
            break;
        }
        if i >= v.len() {
            break;
        }
        i = i + 1;
    }
    match found {
        Some(j) => {
            let mut out = vec_slice(v, 0, j);
            let mut mid = chars_of(r);
            let mut tail = vec_slice(v, j + pv.len(), v.len());
            out.append(&mut mid);
            out.append(&mut tail);
            proof {
                assert(out@ =~= v@.take(j as int) + r@ + v@.skip(j + p@.len()));
            }
            out
        },
        None => vec_slice(v, 0, v.len()),
    }
}

/// The first index `i >= from` with `v[i] == c`, if any.
pub fn find_char_from(v: &Vec<char>, c: char, from: usize) -> (r: Option<usize>)
    requires
        from <= v.len(),
    ensures
        match r {
            Some(i) => find_from(v@, c, from as int) == Some(i as int) && from <= i < v.len(),
            None => find_from(v@, c, from as int) is None,
        },
{
    proof {
        lemma_find_from(v@, c, from as int);
    }
    let mut i = from;
    while i < v.len()
        invariant
            from <= i <= v.len(),
            find_from(v@, c, from as int) == find_from(v@, c, i as int),
        decreases v.len() - i,
    {
        if v[i] == c {
            return Some(i);
        }
        i = i + 1;
    }
    None
}

/// Whether `v` starts with `p` at index `at`.
pub fn has_at(v: &Vec<char>, at: usize, p: &str) -> (r: bool)
    ensures
        r == (at + p@.len() <= v@.len() && v@.subrange(at as int, at + p@.len()) == p@),
{
    let pv = chars_of(p);
    if at > v.len() || pv.len() > v.len() - at {
        return false;
    }
    let mut i: usize = 0;
    while i < pv.len()
        invariant
            at + pv@.len() <= v@.len(),
            at + pv.len() <= v.len(),
            i <= pv@.len(),
            pv@ == p@,
            forall|j: int| 0 <= j < i ==> v@[at + j] == pv@[j],
        decreases pv.len() - i,
    {
        if v[at + i] != pv[i] {
            assert(v@.subrange(at as int, at + p@.len())[i as int] != p@[i as int]);
            return false;
        }
        i = i + 1;
    }
    assert(v@.subrange(at as int, at + p@.len()) =~= p@);
    true
}

/// Position of the first non-whitespace character at or after `i`.
pub open spec fn ws_end(s: Seq<char>, i: int) -> int
    decreases s.len() - i,
{
    if i < 0 || i >= s.len() || !is_ws(s[i]) {
        i
    } else {
        ws_end(s, i + 1)
    }
}

pub proof fn lemma_ltrim_skip(s: Seq<char>, i: int)
    requires
        0 <= i <= s.len(),
    ensures
        i <= ws_end(s, i) <= s.len(),
        ltrim(s.skip(i)) == s.skip(ws_end(s, i)),
    decreases s.len() - i,
{
    if i < s.len() && is_ws(s[i]) {
        lemma_ltrim_skip(s, i + 1);
        assert(s.skip(i).drop_first() =~= s.skip(i + 1));
    }
}

pub proof fn lemma_word_end_skip(s: Seq<char>, i: int, k: int)
    requires
        0 <= i <= k <= s.len(),
    ensures
        k <= word_end(s, k) <= s.len(),
        word_end(s.skip(i), k - i) == word_end(s, k) - i,
    decreases s.len() - k,
{
    if k < s.len() && !is_ws(s[k]) {
        lemma_word_end_skip(s, i, k + 1);
    }
}

/// `str::split_whitespace`, as a list of words.
pub fn words(v: &Vec<char>) -> (r: Vec<Vec<char>>)
    ensures
        r@.len() == split_ws(v@).len(),
        forall|i: int| 0 <= i < r@.len() ==> #[trigger] r@[i]@ == split_ws(v@)[i],
        views(r@) == split_ws(v@),
{
    let mut r: Vec<Vec<char>> = Vec::new();
    let mut i: usize = 0;
    let ghost acc: Seq<Seq<char>> = seq![];
    assert(v@.skip(0) =~= v@);
    loop
        invariant
            i <= v.len(),
            r@.len() == acc.len(),
            forall|k: int| 0 <= k < r@.len() ==> #[trigger] r@[k]@ == acc[k],
            acc + split_ws(v@.skip(i as int)) == split_ws(v@),
        ensures
            i == v.len(),
            r@.len() == acc.len(),
            forall|k: int| 0 <= k < r@.len() ==> #[trigger] r@[k]@ == acc[k],
            acc + split_ws(v@.skip(i as int)) == split_ws(v@),
        decreases v.len() - i,
    {
        let ghost i0 = i;
        proof {
            lemma_ltrim_skip(v@, i as int);
        }
        while i < v.len() && char_is_ws(v[i])
            invariant
                i0 <= i <= v.len(),
                ltrim(v@.skip(i as int)) == v@.skip(ws_end(v@, i as int)),
                ws_end(v@, i as int) >= i,
                ws_end(v@, i0 as int) == ws_end(v@, i as int),
            decreases v.len() - i,
        {
            i = i + 1;
            proof {
                lemma_ltrim_skip(v@, i as int);
            }
        }
        assert(ws_end(v@, i as int) == i);
        let ghost t = v@.skip(i as int);
        assert(ltrim(v@.skip(i0 as int)) == t);
        if i == v.len() {
            assert(split_ws(v@.skip(i0 as int)) == Seq::<Seq<char>>::empty());
            assert(split_ws(t) == Seq::<Seq<char>>::empty());
            assert(acc + split_ws(v@.skip(i as int)) =~= acc);
            assert(acc + split_ws(v@.skip(i0 as int)) =~= acc);
            break;
        }
        let start = i;
        while i < v.len() && !char_is_ws(v[i])
            invariant
                start <= i <= v.len(),
                word_end(v@, start as int) == word_end(v@, i as int),
            decreases v.len() - i,
        {
            i = i + 1;
        }
        proof {
            lemma_word_end_skip(v@, start as int, start as int);
            assert(t.take(i - start) =~= v@.subrange(start as int, i as int));
            assert(t.skip(i - start) =~= v@.skip(i as int));
        }
        let w = vec_slice(v, start, i);
        r.push(w);
        proof {
            let old_acc = acc;
            acc = acc.push(v@.subrange(start as int, i as int));
            assert(word_end(t, 0) == i - start);
            assert(split_ws(v@.skip(i0 as int)) == seq![t.take(i - start)] + split_ws(
                t.skip(i - start),
            ));
            assert(old_acc + split_ws(v@.skip(i0 as int)) =~= acc + split_ws(v@.skip(i as int)));
        }
    }
    proof {
        assert(v@.skip(i as int) =~= Seq::<char>::empty());
        assert(split_ws(v@.skip(i as int)) == Seq::<Seq<char>>::empty());
        assert(acc =~= split_ws(v@));
        assert(views(r@) =~= split_ws(v@));
    }
    r
}

/// The character sequences of a list of character vectors.
pub open spec fn views(ws: Seq<Vec<char>>) -> Seq<Seq<char>> {
    ws.map_values(|w: Vec<char>| w@)
}

pub proof fn lemma_join_push(ws: Seq<Seq<char>>, x: Seq<char>, sep: Seq<char>)
    ensures
        join(ws.push(x), sep) == if ws.len() == 0 {
            x
        } else {
            join(ws, sep) + sep + x
        },
    decreases ws.len(),
{
    if ws.len() == 0 {
        assert(ws.push(x) =~= seq![x]);
        assert(seq![x][0] == x);
    } else if ws.len() == 1 {
        assert(ws.push(x).drop_first() =~= seq![x]);
        assert(ws.push(x)[0] == ws[0]);
        assert(seq![x][0] == x);
        assert(join(seq![x], sep) == x);
        assert(join(ws, sep) == ws[0]);
    } else {
        lemma_join_push(ws.drop_first(), x, sep);
        assert(ws.push(x).drop_first() =~= ws.drop_first().push(x));
        assert(ws.push(x)[0] == ws[0]);
        assert(ws[0] + sep + (join(ws.drop_first(), sep) + sep + x) =~= ws[0] + sep + join(
            ws.drop_first(),
            sep,
        ) + sep + x);
    }
}

/// The words `ws[from..]` joined with `sep` (`[&str]::join`).
pub fn join_words(ws: &Vec<Vec<char>>, from: usize, sep: &str) -> (r: String)
    requires
        from <= ws.len(),
    ensures
        r@ == join(views(ws@).skip(from as int), sep@),
{
    let mut r = String::new();
    let mut i = from;
    let ghost vw = views(ws@);
    proof {
        assert(vw.subrange(from as int, from as int) =~= Seq::<Seq<char>>::empty());
    }
    while i < ws.len()
        invariant
            from <= i <= ws.len(),
            vw == views(ws@),
            r@ == join(vw.subrange(from as int, i as int), sep@),
        decreases ws.len() - i,
    {
        proof {
            lemma_join_push(vw.subrange(from as int, i as int), ws@[i as int]@, sep@);
            assert(vw.subrange(from as int, i + 1) =~= vw.subrange(from as int, i as int).push(
                ws@[i as int]@,
            ));
        }
        if i > from {
            r.append(sep);
        }
        let w = string_from(&ws[i]);
        r.append(w.as_str());
        i = i + 1;
    }
    proof {
        assert(vw.subrange(from as int, ws@.len() as int) =~= vw.skip(from as int));
    }
    r
}

/// The characters `v[lo..hi]`.
pub fn vec_slice(v: &Vec<char>, lo: usize, hi: usize) -> (r: Vec<char>)
    requires
        lo <= hi <= v.len(),
    ensures
        r@ == v@.subrange(lo as int, hi as int),
{
    let mut r: Vec<char> = Vec::new();
    let mut i = lo;
    while i < hi
        invariant
            lo <= i <= hi <= v.len(),
            r@ == v@.subrange(lo as int, i as int),
        decreases hi - i,
    {
        r.push(v[i]);
        i = i + 1;
        proof {
            assert(r@ =~= v@.subrange(lo as int, i as int));
        }
    }
    r
}

/// Leading whitespace ends at the first character that is not whitespace.
pub proof fn lemma_ltrim_at(s: Seq<char>, k: int)
    requires
        0 <= k <= s.len(),
        forall|i: int| 0 <= i < k ==> is_ws(#[trigger] s[i]),
        k == s.len() || !is_ws(s[k]),
    ensures
        ltrim(s) == s.skip(k),
    decreases k,
{
    if k == 0 {
        assert(s.skip(0) =~= s);
    } else {
        assert forall|i: int| 0 <= i < k - 1 implies is_ws(#[trigger] s.drop_first()[i]) by {
            assert(s.drop_first()[i] == s[i + 1]);
        }
        if k - 1 < s.drop_first().len() {
            assert(s.drop_first()[k - 1] == s[k]);
        }
        lemma_ltrim_at(s.drop_first(), k - 1);
        assert(s.drop_first().skip(k - 1) =~= s.skip(k));
    }
}

/// Trailing whitespace after a first character that is not whitespace.
pub proof fn lemma_rtrim_after(c: char, s: Seq<char>)
    requires
        !is_ws(c),
    ensures
        rtrim(seq![c] + s) == seq![c] + rtrim(s),
    decreases s.len(),
{
    if s.len() > 0 && is_ws(s.last()) {
        assert((seq![c] + s).drop_last() =~= seq![c] + s.drop_last());
        lemma_rtrim_after(c, s.drop_last());
    } else {
        assert((seq![c] + s).last() == (if s.len() > 0 {
            s.last()
        } else {
            c
        }));
    }
}

/// A trailing whitespace character does not change the trimmed text.
pub proof fn lemma_trim_drop_ws(s: Seq<char>)
    requires
        s.len() > 0,
        is_ws(s.last()),
    ensures
        trim(s) == trim(s.drop_last()),
{
    lemma_ltrim_suffix(s);
    let k = s.len() - ltrim(s).len();
    if k == s.len() {
        assert forall|i: int| 0 <= i < s.len() - 1 implies is_ws(#[trigger] s.drop_last()[i]) by {
            assert(s.drop_last()[i] == s[i]);
        }
        lemma_ltrim_at(s.drop_last(), s.len() - 1);
        assert(s.drop_last().skip(s.len() - 1) =~= Seq::<char>::empty());
        assert(ltrim(s) =~= Seq::<char>::empty());
    } else {
        assert(s[k] == ltrim(s)[0]);
        assert(k < s.len() - 1);
        assert forall|i: int| 0 <= i < k implies is_ws(#[trigger] s.drop_last()[i]) by {
            assert(s.drop_last()[i] == s[i]);
        }
        assert(s.drop_last()[k] == s[k]);
        lemma_ltrim_at(s.drop_last(), k);
        assert(ltrim(s.drop_last()) =~= ltrim(s).drop_last());
        assert(ltrim(s).last() == s.last());
    }
}

/// Trimming after dropping trailing whitespace trims the same.
pub proof fn lemma_trim_rtrim(s: Seq<char>)
    ensures
        trim(rtrim(s)) == trim(s),
    decreases s.len(),
{
    if s.len() > 0 && is_ws(s.last()) {
        lemma_trim_rtrim(s.drop_last());
        lemma_trim_drop_ws(s);
    }
}

} // verus!
