//! The table of active defines that conditional blocks are evaluated against,
//! `KEY=VALUE` entry parsing, and condition evaluation.
use vstd::prelude::*;
use crate::text::{
    trim, ltrim, rtrim, is_ws, split_ws, find_char, chars_of, string_from, trim_bounds,
    find_char_from, words, vec_slice, string_of, string_from_str, lemma_rtrim_after,
    lemma_trim_rtrim,
};

verus! {

/// Names mapped to values; a later insertion of a name replaces the earlier value.
pub struct Defines {
    keys: Vec<Vec<char>>,
    values: Vec<String>,
}

/// The map that a list of insertions leaves behind.
pub open spec fn map_of(keys: Seq<Seq<char>>, values: Seq<Seq<char>>) -> Map<Seq<char>, Seq<char>>
    decreases keys.len(),
{
    if keys.len() == 0 || keys.len() != values.len() {
        Map::empty()
    } else {
        map_of(keys.drop_last(), values.drop_last()).insert(keys.last(), values.last())
    }
}

impl View for Defines {
    type V = Map<Seq<char>, Seq<char>>;

    closed spec fn view(&self) -> Map<Seq<char>, Seq<char>> {
        map_of(self.keys@.map_values(|k: Vec<char>| k@), self.values@.map_values(|v: String| v@))
    }
}

/// Insertions after the last one of `k` do not change what `k` maps to.
proof fn lemma_map_of_lookup(keys: Seq<Seq<char>>, values: Seq<Seq<char>>, k: Seq<char>, n: int)
    requires
        keys.len() == values.len(),
        0 <= n <= keys.len(),
        forall|i: int| n <= i < keys.len() ==> keys[i] != k,
    ensures
        map_of(keys, values).contains_key(k) == map_of(keys.take(n), values.take(n)).contains_key(k),
        map_of(keys, values).contains_key(k) ==> map_of(keys, values)[k] == map_of(
            keys.take(n),
            values.take(n),
        )[k],
    decreases keys.len() - n,
{
    if n < keys.len() {
        assert(keys.drop_last().len() == keys.len() - 1);
        lemma_map_of_lookup(keys.drop_last(), values.drop_last(), k, n);
        assert(keys.drop_last().take(n) =~= keys.take(n));
        assert(values.drop_last().take(n) =~= values.take(n));
    } else {
        assert(keys.take(n) =~= keys);
        assert(values.take(n) =~= values);
    }
}

fn chars_eq(a: &Vec<char>, b: &Vec<char>) -> (r: bool)
    ensures
        r == (a@ == b@),
{
    if a.len() != b.len() {
        return false;
    }
    let mut i: usize = 0;
    while i < a.len()
        invariant
            a.len() == b.len(),
            i <= a.len(),
            forall|j: int| 0 <= j < i ==> a@[j] == b@[j],
        decreases a.len() - i,
    {
        if a[i] != b[i] {
            return false;
        }
        i = i + 1;
    }
    assert(a@ =~= b@);
    true
}

impl Defines {
    pub closed spec fn wf(&self) -> bool {
        self.keys.len() == self.values.len()
    }

    pub fn new() -> (r: Defines)
        ensures
            r.wf(),
            r@ == Map::<Seq<char>, Seq<char>>::empty(),
    {
        let r = Defines { keys: Vec::new(), values: Vec::new() };
        assert(r.keys@.map_values(|k: Vec<char>| k@).len() == 0);
        r
    }

    /// A copy of these defines.
    pub fn duplicate(&self) -> (r: Defines)
        requires
            self.wf(),
        ensures
            r.wf(),
            r@ == self@,
    {
        let mut keys: Vec<Vec<char>> = Vec::new();
        let mut values: Vec<String> = Vec::new();
        for i in 0..self.keys.len()
            invariant
                self.wf(),
                keys.len() == i,
                values.len() == i,
                forall|j: int| 0 <= j < i ==> #[trigger] keys@[j]@ == self.keys@[j]@,
                forall|j: int| 0 <= j < i ==> #[trigger] values@[j]@ == self.values@[j]@,
        {
            keys.push(vec_slice(&self.keys[i], 0, self.keys[i].len()));
            values.push(self.values[i].clone());
            proof {
                assert(self.keys@[i as int]@.subrange(0, self.keys@[i as int]@.len() as int)
                    =~= self.keys@[i as int]@);
            }
        }
        let r = Defines { keys, values };
        proof {
            assert(r.keys@.map_values(|k: Vec<char>| k@) =~= self.keys@.map_values(
                |k: Vec<char>| k@,
            ));
            assert(r.values@.map_values(|v: String| v@) =~= self.values@.map_values(
                |v: String| v@,
            ));
        }
        r
    }

    /// Sets `key` to `value`.
    pub fn insert(&mut self, key: String, value: String)
        requires
            old(self).wf(),
        ensures
            final(self).wf(),
            final(self)@ == old(self)@.insert(key@, value@),
    {
        let k = chars_of(key.as_str());
        self.keys.push(k);
        self.values.push(value);
        proof {
            let ks = self.keys@.map_values(|k: Vec<char>| k@);
            let vs = self.values@.map_values(|v: String| v@);
            assert(ks.drop_last() =~= old(self).keys@.map_values(|k: Vec<char>| k@));
            assert(vs.drop_last() =~= old(self).values@.map_values(|v: String| v@));
        }
    }

    /// The value of the name `key`, if it is defined.
    pub fn get(&self, key: &Vec<char>) -> (r: Option<&String>)
        requires
            self.wf(),
        ensures
            match r {
                Some(v) => self@.contains_key(key@) && self@[key@] == v@,
                None => !self@.contains_key(key@),
            },
    {
        let ghost ks = self.keys@.map_values(|k: Vec<char>| k@);
        let ghost vs = self.values@.map_values(|v: String| v@);
        let mut i = self.keys.len();
        while i > 0
            invariant
                i <= self.keys.len(),
                self.keys.len() == self.values.len(),
                ks == self.keys@.map_values(|k: Vec<char>| k@),
                vs == self.values@.map_values(|v: String| v@),
                forall|j: int| i <= j < ks.len() ==> ks[j] != key@,
            decreases i,
        {
            if chars_eq(&self.keys[i - 1], key) {
                proof {
                    lemma_map_of_lookup(ks, vs, key@, i as int);
                    let kt = ks.take(i as int);
                    let vt = vs.take(i as int);
                    assert(kt.drop_last() =~= ks.take(i - 1));
                    assert(vt.drop_last() =~= vs.take(i - 1));
                }
                return Some(&self.values[i - 1]);
            }
            i = i - 1;
        }
        proof {
            lemma_map_of_lookup(ks, vs, key@, 0);
        }
        None
    }
}

/// The name and the expected value that a condition tests; no expected value
/// means that the name must be set to something other than empty or `false`.
pub open spec fn cond_parts(core: Seq<char>) -> (Seq<char>, Option<Seq<char>>) {
    match find_char(core, '=') {
        Some(p) => (trim(core.take(p)), Some(trim(core.skip(p + 1)))),
        None => {
            let ws = split_ws(core);
            (
                if ws.len() > 0 {
                    ws[0]
                } else {
                    seq![]
                },
                if ws.len() > 1 {
                    Some(ws[1])
                } else {
                    None
                },
            )
        },
    }
}

/// A condition (`key=value`, `key value` or bare `key`, optionally negated by a
/// leading `!`) holds under the defines `d`.
pub open spec fn eval_cond(d: Map<Seq<char>, Seq<char>>, cond: Seq<char>) -> bool {
    let t = trim(cond);
    let neg = t.len() > 0 && t[0] == '!';
    let core = if neg {
        trim(t.skip(1))
    } else {
        t
    };
    let key = cond_parts(core).0;
    let expected = cond_parts(core).1;
    let m = d.contains_key(key) && match expected {
        Some(v) => d[key] == v,
        None => d[key] != "false"@ && d[key].len() > 0,
    };
    if neg {
        !m
    } else {
        m
    }
}

/// Evaluates a condition against the defines.
pub fn evaluate_condition(d: &Defines, cond: &Vec<char>) -> (r: bool)
    requires
        d.wf(),
    ensures
        r == eval_cond(d@, cond@),
{
    let (lo, hi) = trim_bounds(cond, 0, cond.len());
    let t = vec_slice(cond, lo, hi);
    proof {
        assert(cond@.subrange(0, cond@.len() as int) =~= cond@);
    }
    let neg = t.len() > 0 && t[0] == '!';
    let core = if neg {
        let (a, b) = trim_bounds(&t, 1, t.len());
        proof {
            assert(t@.subrange(1, t@.len() as int) =~= t@.skip(1));
        }
        vec_slice(&t, a, b)
    } else {
        t
    };
    let key: Vec<char>;
    let expected: Option<Vec<char>>;
    match find_char_from(&core, '=', 0) {
        Some(p) => {
            let (a, b) = trim_bounds(&core, 0, p);
            key = vec_slice(&core, a, b);
            let (c, e) = trim_bounds(&core, p + 1, core.len());
            expected = Some(vec_slice(&core, c, e));
            proof {
                assert(core@.subrange(0, p as int) =~= core@.take(p as int));
                assert(core@.subrange(p + 1, core@.len() as int) =~= core@.skip(p + 1));
            }
        },
        None => {
            let ws = words(&core);
            if ws.len() > 0 {
                key = vec_slice(&ws[0], 0, ws[0].len());
                assert(key@ =~= ws@[0]@);
            } else {
                key = Vec::new();
                assert(key@ =~= seq![]);
            }
            if ws.len() > 1 {
                expected = Some(vec_slice(&ws[1], 0, ws[1].len()));
                assert(ws@[1]@.subrange(0, ws@[1]@.len() as int) =~= ws@[1]@);
            } else {
                expected = None;
            }
        },
    }
    let m = match d.get(&key) {
        Some(v) => {
            let vc = chars_of(v.as_str());
            match expected {
                Some(e) => chars_eq(&vc, &e),
                None => !chars_eq(&vc, &chars_of("false")) && vc.len() > 0,
            }
        },
        None => false,
    };
    if neg {
        !m
    } else {
        m
    }
}

/// What one `KEY=VALUE` (or bare `KEY`) entry defines; blank entries define nothing.
pub open spec fn define_entry(e: Seq<char>) -> Option<(Seq<char>, Seq<char>)> {
    let t = trim(e);
    if t.len() == 0 {
        None
    } else {
        match find_char(t, '=') {
            Some(p) => Some((trim(t.take(p)), trim(t.skip(p + 1)))),
            None => Some((t, "true"@)),
        }
    }
}

/// The defines that a list of entries sets up, later entries overriding earlier ones.
pub open spec fn defines_of(es: Seq<Seq<char>>) -> Map<Seq<char>, Seq<char>>
    decreases es.len(),
{
    if es.len() == 0 {
        Map::empty()
    } else {
        let m = defines_of(es.drop_last());
        match define_entry(es.last()) {
            Some(kv) => m.insert(kv.0, kv.1),
            None => m,
        }
    }
}

/// Parses `KEY=VALUE` (or bare `KEY`, taken as `KEY=true`) entries into defines.
pub fn parse_defines(entries: &Vec<String>) -> (r: Defines)
    ensures
        r.wf(),
        r@ == defines_of(entries@.map_values(|s: String| s@)),
{
    let ghost es = entries@.map_values(|s: String| s@);
    let mut d = Defines::new();
    for i in 0..entries.len()
        invariant
            d.wf(),
            es == entries@.map_values(|s: String| s@),
            d@ == defines_of(es.take(i as int)),
    {
        proof {
            assert(es.take(i + 1).drop_last() =~= es.take(i as int));
            assert(es.take(i + 1).last() == entries@[i as int]@);
        }
        let e = chars_of(entries[i].as_str());
        let (lo, hi) = trim_bounds(&e, 0, e.len());
        proof {
            assert(e@.subrange(0, e@.len() as int) =~= e@);
        }
        if lo < hi {
            let t = vec_slice(&e, lo, hi);
            match find_char_from(&t, '=', 0) {
                Some(p) => {
                    let (a, b) = trim_bounds(&t, 0, p);
                    let (c, f) = trim_bounds(&t, p + 1, t.len());
                    proof {
                        assert(t@.subrange(0, p as int) =~= t@.take(p as int));
                        assert(t@.subrange(p + 1, t@.len() as int) =~= t@.skip(p + 1));
                    }
                    d.insert(string_of(&t, a, b), string_of(&t, c, f));
                },
                None => {
                    d.insert(string_from(&t), string_from_str("true"));
                },
            }
        }
    }
    proof {
        assert(es.take(entries.len() as int) =~= es);
    }
    d
}

/// Where the first entry separator (a line break or `;`) from `i` on stands.
pub open spec fn next_separator(s: Seq<char>, i: int) -> Option<int>
    decreases s.len() - i,
{
    if i < 0 || i >= s.len() {
        None
    } else if s[i] == '\n' || s[i] == ';' {
        Some(i)
    } else {
        next_separator(s, i + 1)
    }
}

/// A define list cut into entries at every line break and `;`.
pub open spec fn define_entries(s: Seq<char>) -> Seq<Seq<char>>
    decreases s.len(),
{
    match next_separator(s, 0) {
        Some(i) => if 0 <= i < s.len() {
            seq![s.take(i)] + define_entries(s.skip(i + 1))
        } else {
            seq![s]
        },
        None => seq![s],
    }
}

proof fn lemma_next_separator(s: Seq<char>, k: int, i: int)
    requires
        0 <= k <= i <= s.len(),
        forall|j: int| k <= j < i ==> s[j] != '\n' && s[j] != ';',
    ensures
        next_separator(s.skip(k), 0) == match next_separator(s, i) {
            Some(j) => Some(j - k),
            None => None::<int>,
        },
    decreases i - k,
{
    if k < i {
        assert(s.skip(k)[0] == s[k]);
        assert(s.skip(k + 1) =~= s.skip(k).skip(1));
        lemma_next_separator(s, k + 1, i);
        lemma_shift(s.skip(k), 0);
    } else {
        lemma_same_from(s, k);
    }
}

proof fn lemma_shift(s: Seq<char>, i: int)
    requires
        0 <= i < s.len(),
        s[i] != '\n' && s[i] != ';',
    ensures
        next_separator(s, i) == match next_separator(s.skip(i + 1), 0) {
            Some(j) => Some(j + i + 1),
            None => None::<int>,
        },
{
    lemma_skip_from(s, i + 1, i + 1);
}

/// Searching from `i` in `s` is searching from 0 in what follows `i`, shifted.
proof fn lemma_skip_from(s: Seq<char>, k: int, i: int)
    requires
        0 <= k <= i <= s.len(),
    ensures
        next_separator(s, i) == match next_separator(s.skip(k), i - k) {
            Some(j) => Some(j + k),
            None => None::<int>,
        },
    decreases s.len() - i,
{
    if i < s.len() {
        assert(s.skip(k)[i - k] == s[i]);
        lemma_skip_from(s, k, i + 1);
    }
}

proof fn lemma_same_from(s: Seq<char>, k: int)
    requires
        0 <= k <= s.len(),
    ensures
        next_separator(s.skip(k), 0) == match next_separator(s, k) {
            Some(j) => Some(j - k),
            None => None::<int>,
        },
{
    lemma_skip_from(s, k, k);
}

/// The entries of a define list (`str::split` at line breaks and `;`).
pub fn split_define_list(s: &str) -> (r: Vec<String>)
    ensures
        r@.map_values(|e: String| e@) == define_entries(s@),
{
    let v = chars_of(s);
    let mut out: Vec<String> = Vec::new();
    let mut start: usize = 0;
    let mut i: usize = 0;
    proof {
        assert(v@.skip(0) =~= v@);
        assert(out@.map_values(|e: String| e@) + define_entries(v@) =~= define_entries(v@));
    }
    while i < v.len()
        invariant
            start <= i <= v.len(),
            v@ == s@,
            forall|j: int| start <= j < i ==> v@[j] != '\n' && v@[j] != ';',
            out@.map_values(|e: String| e@) + define_entries(v@.skip(start as int)) == define_entries(
                s@,
            ),
        decreases v.len() - i,
    {
        if v[i] == '\n' || v[i] == ';' {
            let ghost rest = v@.skip(start as int);
            let ghost o0 = out@.map_values(|e: String| e@);
            proof {
                lemma_next_separator(v@, start as int, i as int);
                assert(next_separator(rest, 0) == Some(i - start));
                assert(rest.take(i - start) =~= v@.subrange(start as int, i as int));
                assert(rest.skip(i - start + 1) =~= v@.skip(i + 1));
            }
            out.push(string_of(&v, start, i));
            proof {
                assert(out@.map_values(|e: String| e@) =~= o0.push(v@.subrange(start as int, i as int)));
                assert(o0 + define_entries(rest) =~= out@.map_values(|e: String| e@)
                    + define_entries(v@.skip(i + 1)));
            }
            start = i + 1;
        }
        i = i + 1;
    }
    let ghost rest = v@.skip(start as int);
    let ghost o0 = out@.map_values(|e: String| e@);
    proof {
        lemma_next_separator(v@, start as int, v@.len() as int);
        assert(next_separator(rest, 0) is None);
        assert(rest =~= v@.subrange(start as int, v@.len() as int));
    }
    out.push(string_of(&v, start, v.len()));
    proof {
        assert(out@.map_values(|e: String| e@) =~= o0.push(rest));
        assert(o0 + define_entries(rest) =~= out@.map_values(|e: String| e@));
    }
    out
}

/// A `!` in front of a condition negates it, for every condition that does
/// not itself start with `!`.
pub proof fn law_negation(d: Map<Seq<char>, Seq<char>>, cond: Seq<char>)
    requires
        !(trim(cond).len() > 0 && trim(cond)[0] == '!'),
    ensures
        eval_cond(d, seq!['!'] + cond) == !eval_cond(d, cond),
{
    let n = seq!['!'] + cond;
    assert(!is_ws('!'));
    assert(ltrim(n) == n);
    lemma_rtrim_after('!', cond);
    let t = trim(n);
    assert(t == seq!['!'] + rtrim(cond));
    assert(t.skip(1) =~= rtrim(cond));
    lemma_trim_rtrim(cond);
}

/// A bare `KEY` entry sets the key to `true`.
pub proof fn law_bare_key_is_true(es: Seq<Seq<char>>, e: Seq<char>)
    requires
        trim(e).len() > 0,
        find_char(trim(e), '=') is None,
    ensures
        defines_of(es.push(e)).contains_key(trim(e)),
        defines_of(es.push(e))[trim(e)] == "true"@,
{
    assert(es.push(e).drop_last() =~= es);
}

/// The last entry that sets a key wins.
pub proof fn law_last_entry_wins(es: Seq<Seq<char>>, e: Seq<char>)
    requires
        define_entry(e) is Some,
    ensures
        defines_of(es.push(e)).contains_key((define_entry(e)->0).0),
        defines_of(es.push(e))[(define_entry(e)->0).0] == (define_entry(e)->0).1,
{
    assert(es.push(e).drop_last() =~= es);
}

/// The entry `e` defines the key `k`.
pub open spec fn defines_key(e: Seq<char>, k: Seq<char>) -> bool {
    define_entry(e) is Some && (define_entry(e)->0).0 == k
}

/// The defines of a list of entries in closed form: a key is defined exactly
/// when some entry defines it, and it holds the value of the last such entry.
pub proof fn law_defines_closed_form(es: Seq<Seq<char>>, k: Seq<char>)
    ensures
        defines_of(es).contains_key(k) <==> exists|i: int|
            0 <= i < es.len() && #[trigger] defines_key(es[i], k),
        forall|i: int|
            0 <= i < es.len() && #[trigger] defines_key(es[i], k) && (forall|j: int|
                i < j < es.len() ==> !#[trigger] defines_key(es[j], k)) ==> defines_of(es)[k]
                == (define_entry(es[i])->0).1,
    decreases es.len(),
{
    if es.len() > 0 {
        let pre = es.drop_last();
        let n = es.len() - 1;
        law_defines_closed_form(pre, k);
        assert forall|i: int| 0 <= i < n implies pre[i] == es[i] by {}
        if defines_key(es[n], k) {
            assert(defines_key(es[n], k));
            assert forall|i: int|
                0 <= i < es.len() && #[trigger] defines_key(es[i], k) && (forall|j: int|
                    i < j < es.len() ==> !#[trigger] defines_key(es[j], k)) implies defines_of(es)[k]
                == (define_entry(es[i])->0).1 by {
                if i < n {
                    assert(defines_key(es[n], k));
                }
            }
        } else {
            if defines_of(es).contains_key(k) {
                let i = choose|i: int| 0 <= i < pre.len() && #[trigger] defines_key(pre[i], k);
                assert(defines_key(es[i], k));
            }
            if exists|i: int| 0 <= i < es.len() && #[trigger] defines_key(es[i], k) {
                let i = choose|i: int| 0 <= i < es.len() && #[trigger] defines_key(es[i], k);
                assert(i < n);
                assert(defines_key(pre[i], k));
            }
            assert forall|i: int|
                0 <= i < es.len() && #[trigger] defines_key(es[i], k) && (forall|j: int|
                    i < j < es.len() ==> !#[trigger] defines_key(es[j], k)) implies defines_of(es)[k]
                == (define_entry(es[i])->0).1 by {
                assert(i < n);
                assert(defines_key(pre[i], k));
                assert forall|j: int| i < j < pre.len() implies !#[trigger] defines_key(pre[j], k) by {
                    assert(pre[j] == es[j]);
                    assert(!defines_key(es[j], k));
                }
            }
        }
    }
}

} // verus!
