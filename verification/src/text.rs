//! Character-level models and helpers for line text.
//!
//! Lines are handled as `Vec<char>` so every step of trimming, whitespace
//! collapsing and comment stripping is verified against a sequence model.
use vstd::prelude::*;
use vstd::string::*;

verus! {

/// The characters `str::split_ascii_whitespace` treats as whitespace.
pub open spec fn is_ascii_ws(c: char) -> bool {
    c == ' ' || c == '\t' || c == '\n' || c == '\u{c}' || c == '\r'
}

/// The characters with the Unicode `White_Space` property, which is what
/// `str::trim` removes at both ends of a string.
pub open spec fn is_unicode_ws(c: char) -> bool {
    ||| is_ascii_ws(c)
    ||| c == '\u{b}'
    ||| c == '\u{85}'
    ||| c == '\u{a0}'
    ||| c == '\u{1680}'
    ||| (0x2000 <= c as u32 && c as u32 <= 0x200a)
    ||| c == '\u{2028}'
    ||| c == '\u{2029}'
    ||| c == '\u{202f}'
    ||| c == '\u{205f}'
    ||| c == '\u{3000}'
}

pub fn ascii_ws(c: char) -> (r: bool)
    ensures
        r == is_ascii_ws(c),
{
    c == ' ' || c == '\t' || c == '\n' || c == '\u{c}' || c == '\r'
}

pub fn unicode_ws(c: char) -> (r: bool)
    ensures
        r == is_unicode_ws(c),
{
    let u = c as u32;
    ascii_ws(c) || u == 0xb || u == 0x85 || u == 0xa0 || u == 0x1680 || (0x2000 <= u && u
        <= 0x200a) || u == 0x2028 || u == 0x2029 || u == 0x202f || u == 0x205f || u == 0x3000
}

/// The characters of a string slice, in order.
pub fn str_chars(s: &str) -> (v: Vec<char>)
    ensures
        v@ == s@,
{
    let n = s.unicode_len();
    let mut v: Vec<char> = Vec::new();
    let mut i: usize = 0;
    while i < n
        invariant
            i <= n,
            n == s@.len(),
            v@ == s@.take(i as int),
        decreases n - i,
    {
        v.push(s.get_char(i));
        proof {
            assert(v@ =~= s@.take(i + 1 as int));
        }
        i += 1;
    }
    proof {
        assert(v@ =~= s@);
    }
    v
}

/// Relies on the standard library's `FromIterator` for `String`: collecting
/// a sequence of `char`s yields the string of exactly those characters.
#[verifier::external_body]
pub fn string_from_chars(v: &Vec<char>) -> (s: String)
    ensures
        s@ == v@,
{
    v.iter().collect()
}

/// What `str::trim` leaves: the string with every leading and trailing
/// Unicode-whitespace character removed.
pub open spec fn trim_spec(s: Seq<char>) -> Seq<char>
    decreases s.len(),
{
    if s.len() == 0 {
        s
    } else if is_unicode_ws(s[0]) {
        trim_spec(s.drop_first())
    } else if is_unicode_ws(s[s.len() - 1]) {
        trim_spec(s.drop_last())
    } else {
        s
    }
}

proof fn lemma_trim_all_ws(s: Seq<char>)
    requires
        forall|i: int| 0 <= i < s.len() ==> is_unicode_ws(#[trigger] s[i]),
    ensures
        trim_spec(s) == Seq::<char>::empty(),
    decreases s.len(),
{
    if s.len() > 0 {
        lemma_trim_all_ws(s.drop_first());
    }
}

proof fn lemma_trim_subrange(s: Seq<char>, a: int, b: int)
    requires
        0 <= a <= b < s.len(),
        !is_unicode_ws(s[a]),
        !is_unicode_ws(s[b]),
        forall|i: int| 0 <= i < a ==> is_unicode_ws(#[trigger] s[i]),
        forall|i: int| b < i < s.len() ==> is_unicode_ws(#[trigger] s[i]),
    ensures
        trim_spec(s) == s.subrange(a, b + 1),
    decreases s.len(),
{
    if a > 0 {
        lemma_trim_subrange(s.drop_first(), a - 1, b - 1);
        assert(s.drop_first().subrange(a - 1, b) =~= s.subrange(a, b + 1));
    } else if b < s.len() - 1 {
        lemma_trim_subrange(s.drop_last(), a, b);
        assert(s.drop_last().subrange(a, b + 1) =~= s.subrange(a, b + 1));
    } else {
        assert(s.subrange(0, s.len() as int) =~= s);
    }
}

/// The trimmed copy of a character vector.
pub fn trim_chars(v: &Vec<char>) -> (r: Vec<char>)
    ensures
        r@ == trim_spec(v@),
{
    let n = v.len();
    let mut a: usize = 0;
    while a < n && unicode_ws(v[a])
        invariant
            a <= n,
            n == v@.len(),
            forall|i: int| 0 <= i < a ==> is_unicode_ws(#[trigger] v@[i]),
        decreases n - a,
    {
        a += 1;
    }
    if a == n {
        let r: Vec<char> = Vec::new();
        proof {
            lemma_trim_all_ws(v@);
        }
        return r;
    }
    let mut b: usize = n - 1;
    while unicode_ws(v[b])
        invariant
            a <= b < n,
            n == v@.len(),
            !is_unicode_ws(v@[a as int]),
            forall|i: int| 0 <= i < a ==> is_unicode_ws(#[trigger] v@[i]),
            forall|i: int| b < i < n ==> is_unicode_ws(#[trigger] v@[i]),
        decreases b,
    {
        b -= 1;
    }
    let mut r: Vec<char> = Vec::new();
    let mut i: usize = a;
    while i <= b
        invariant
            a <= i <= b + 1,
            b < n,
            n == v@.len(),
            r@ == v@.subrange(a as int, i as int),
        decreases b + 1 - i,
    {
        r.push(v[i]);
        proof {
            assert(r@ =~= v@.subrange(a as int, i + 1 as int));
        }
        i += 1;
    }
    proof {
        lemma_trim_subrange(v@, a as int, b as int);
    }
    r
}

/// The maximal whitespace-free runs of a string, under the whitespace
/// predicate `ws`, read off one character at a time from the left.
pub open spec fn tokens_gen(s: Seq<char>, ws: spec_fn(char) -> bool) -> Seq<Seq<char>>
    decreases s.len(),
{
    if s.len() == 0 {
        Seq::empty()
    } else {
        let ts = tokens_gen(s.drop_last(), ws);
        let c = s[s.len() - 1];
        if ws(c) {
            ts
        } else if ts.len() > 0 && s.len() >= 2 && !ws(s[s.len() - 2]) {
            ts.update(ts.len() - 1, ts[ts.len() - 1].push(c))
        } else {
            ts.push(seq![c])
        }
    }
}

/// What `str::split_ascii_whitespace` yields.
pub open spec fn tokens_aws(s: Seq<char>) -> Seq<Seq<char>> {
    tokens_gen(s, |c: char| is_ascii_ws(c))
}

/// What `str::split_whitespace` yields.
pub open spec fn tokens_uws(s: Seq<char>) -> Seq<Seq<char>> {
    tokens_gen(s, |c: char| is_unicode_ws(c))
}

/// A token is nonempty and free of the whitespace it was split on.
pub open spec fn token_ok(t: Seq<char>, ws: spec_fn(char) -> bool) -> bool {
    t.len() > 0 && forall|j: int| 0 <= j < t.len() ==> !ws(#[trigger] t[j])
}

pub open spec fn tokens_ok(ts: Seq<Seq<char>>, ws: spec_fn(char) -> bool) -> bool {
    forall|k: int| 0 <= k < ts.len() ==> token_ok(#[trigger] ts[k], ws)
}

pub proof fn lemma_tokens_gen_ok(s: Seq<char>, ws: spec_fn(char) -> bool)
    ensures
        tokens_ok(tokens_gen(s, ws), ws),
    decreases s.len(),
{
    if s.len() > 0 {
        lemma_tokens_gen_ok(s.drop_last(), ws);
        let ts = tokens_gen(s.drop_last(), ws);
        let c = s[s.len() - 1];
        if !ws(c) {
            if ts.len() > 0 && s.len() >= 2 && !ws(s[s.len() - 2]) {
                assert(token_ok(ts[ts.len() - 1].push(c), ws)) by {
                    assert(forall|j: int|
                        0 <= j < ts[ts.len() - 1].len() ==> !ws(#[trigger] ts[ts.len() - 1][j]));
                }
            }
        }
    }
}

/// The tokens joined back together with single spaces.
pub open spec fn join_sp(ts: Seq<Seq<char>>) -> Seq<char>
    decreases ts.len(),
{
    if ts.len() == 0 {
        Seq::empty()
    } else if ts.len() == 1 {
        ts[0]
    } else {
        join_sp(ts.drop_last()) + seq![' '] + ts[ts.len() - 1]
    }
}

pub proof fn lemma_join_len(ts: Seq<Seq<char>>)
    ensures
        ts.len() > 0 ==> join_sp(ts).len() >= ts[ts.len() - 1].len(),
        (forall|k: int| 0 <= k < ts.len() ==> #[trigger] ts[k].len() > 0) ==> join_sp(ts).len()
            >= ts.len(),
    decreases ts.len(),
{
    if ts.len() > 1 {
        lemma_join_len(ts.drop_last());
    }
}

/// Normalization of a raw line's whitespace: trim both ends, then collapse
/// every internal whitespace run to a single space.
pub open spec fn collapse_spec(s: Seq<char>) -> Seq<char> {
    join_sp(tokens_aws(trim_spec(s)))
}

/// The whitespace-collapsed copy of a character vector.
pub fn collapse_chars(v: &Vec<char>) -> (r: Vec<char>)
    ensures
        r@ == collapse_spec(v@),
{
    let t = trim_chars(v);
    let n = t.len();
    let mut out: Vec<char> = Vec::new();
    let mut i: usize = 0;
    while i < n
        invariant
            i <= n,
            n == t@.len(),
            out@ == join_sp(tokens_aws(t@.take(i as int))),
            tokens_ok(tokens_aws(t@.take(i as int)), |c: char| is_ascii_ws(c)),
            out@.len() == 0 <==> tokens_aws(t@.take(i as int)).len() == 0,
        decreases n - i,
    {
        let c = t[i];
        proof {
            let ws = |x: char| is_ascii_ws(x);
            let p = t@.take(i as int);
            let q = t@.take(i + 1 as int);
            assert(q.drop_last() =~= p);
            assert(q[q.len() - 1] == t@[i as int]);
            lemma_tokens_gen_ok(q, ws);
            let ts = tokens_gen(p, ws);
            if !ws(t@[i as int]) {
                if ts.len() > 0 && i >= 1 && !ws(t@[i - 1 as int]) {
                    // the new character extends the last token
                    assert(q.len() >= 2 && q[q.len() - 2] == t@[i - 1 as int]);
                    let ts2 = ts.update(ts.len() - 1, ts[ts.len() - 1].push(t@[i as int]));
                    assert(tokens_gen(q, ws) == ts2);
                    if ts.len() == 1 {
                        assert(join_sp(ts2) =~= join_sp(ts) + seq![t@[i as int]]);
                    } else {
                        assert(ts2.drop_last() =~= ts.drop_last());
                        assert(join_sp(ts2) =~= join_sp(ts) + seq![t@[i as int]]);
                    }
                } else if ts.len() > 0 {
                    // a fresh token after whitespace
                    let ts2 = ts.push(seq![t@[i as int]]);
                    assert(tokens_gen(q, ws) == ts2);
                    assert(ts2.drop_last() =~= ts);
                    assert(join_sp(ts2) =~= join_sp(ts) + seq![' '] + seq![t@[i as int]]);
                } else {
                    let ts2 = ts.push(seq![t@[i as int]]);
                    assert(tokens_gen(q, ws) == ts2);
                    assert(join_sp(ts2) =~= seq![t@[i as int]]);
                }
                lemma_join_len(tokens_gen(q, ws));
            } else {
                assert(tokens_gen(q, ws) == ts);
            }
        }
        if !ascii_ws(c) {
            let prev_ws = if i == 0 {
                true
            } else {
                ascii_ws(t[i - 1])
            };
            if out.len() > 0 && prev_ws {
                out.push(' ');
            }
            out.push(c);
        }
        i += 1;
    }
    proof {
        assert(t@.take(n as int) =~= t@);
    }
    out
}

// --- lexicographic order on character sequences ------------------------------

/// Strict lexicographic order by code point, the order `str`'s `Ord` gives.
pub open spec fn lex_lt(a: Seq<char>, b: Seq<char>) -> bool
    decreases a.len(),
{
    if b.len() == 0 {
        false
    } else if a.len() == 0 {
        true
    } else if (a[0] as u32) < (b[0] as u32) {
        true
    } else if a[0] == b[0] {
        lex_lt(a.drop_first(), b.drop_first())
    } else {
        false
    }
}

/// Weak lexicographic order.
pub open spec fn lex_le(a: Seq<char>, b: Seq<char>) -> bool {
    !lex_lt(b, a)
}

/// Two characters with the same code point are the same character.
proof fn lemma_char_eq(c1: char, c2: char)
    requires
        c1 as u32 == c2 as u32,
    ensures
        c1 == c2,
{
}

pub proof fn lemma_lex_conn(a: Seq<char>, b: Seq<char>)
    ensures
        !(lex_lt(a, b) && lex_lt(b, a)),
        !lex_lt(a, b) && !lex_lt(b, a) ==> a == b,
    decreases a.len(),
{
    if a.len() > 0 && b.len() > 0 {
        if a[0] == b[0] {
            lemma_lex_conn(a.drop_first(), b.drop_first());
            if !lex_lt(a, b) && !lex_lt(b, a) {
                assert(a =~= seq![a[0]] + a.drop_first());
                assert(b =~= seq![b[0]] + b.drop_first());
            }
        } else {
            if (a[0] as u32) == (b[0] as u32) {
                lemma_char_eq(a[0], b[0]);
            }
        }
    }
}

pub proof fn lemma_lex_trans(a: Seq<char>, b: Seq<char>, c: Seq<char>)
    requires
        lex_lt(a, b),
        lex_lt(b, c),
    ensures
        lex_lt(a, c),
    decreases a.len(),
{
    if a.len() > 0 && b.len() > 0 && c.len() > 0 {
        if a[0] == b[0] && b[0] == c[0] {
            lemma_lex_trans(a.drop_first(), b.drop_first(), c.drop_first());
        }
    }
}

pub proof fn lemma_lex_le_trans(a: Seq<char>, b: Seq<char>, c: Seq<char>)
    requires
        lex_le(a, b),
        lex_le(b, c),
    ensures
        lex_le(a, c),
{
    if lex_lt(c, a) {
        lemma_lex_conn(a, b);
        if lex_lt(a, b) {
            lemma_lex_trans(c, a, b);
        }
    }
}

proof fn lemma_lex_skip(a: Seq<char>, b: Seq<char>, i: int)
    requires
        0 <= i <= a.len(),
        i <= b.len(),
        forall|k: int| 0 <= k < i ==> a[k] == b[k],
    ensures
        lex_lt(a, b) == lex_lt(a.skip(i), b.skip(i)),
    decreases i,
{
    if i > 0 {
        if a.len() > 0 && b.len() > 0 && a[0] == b[0] {
            lemma_lex_skip(a.drop_first(), b.drop_first(), i - 1);
            assert(a.drop_first().skip(i - 1) =~= a.skip(i));
            assert(b.drop_first().skip(i - 1) =~= b.skip(i));
        }
    } else {
        assert(a.skip(0) =~= a);
        assert(b.skip(0) =~= b);
    }
}

/// Whether `a` comes strictly before `b` in code-point order.
pub fn str_lex_lt(a: &str, b: &str) -> (r: bool)
    ensures
        r == lex_lt(a@, b@),
{
    let na = a.unicode_len();
    let nb = b.unicode_len();
    let mut i: usize = 0;
    loop
        invariant
            i <= na,
            i <= nb,
            na == a@.len(),
            nb == b@.len(),
            forall|k: int| 0 <= k < i ==> a@[k] == b@[k],
        decreases na - i,
    {
        proof {
            lemma_lex_skip(a@, b@, i as int);
        }
        if i == na {
            return i < nb;
        }
        if i == nb {
            return false;
        }
        let ca = a.get_char(i);
        let cb = b.get_char(i);
        if (ca as u32) < (cb as u32) {
            proof {
                assert(a@.skip(i as int)[0] == ca);
                assert(b@.skip(i as int)[0] == cb);
            }
            return true;
        }
        if (cb as u32) < (ca as u32) {
            proof {
                assert(a@.skip(i as int)[0] == ca);
                assert(b@.skip(i as int)[0] == cb);
            }
            return false;
        }
        proof {
            assert(ca as u32 == cb as u32);
            assert(ca == cb);
        }
        i += 1;
    }
}

/// The views of a sequence of strings.
pub open spec fn str_views(v: Seq<String>) -> Seq<Seq<char>> {
    v.map_values(|x: String| x@)
}

/// The whitespace-separated tokens of a line, as owned strings.
pub fn split_uws(s: &str) -> (v: Vec<String>)
    ensures
        str_views(v@) == tokens_uws(s@),
{
    let n = s.unicode_len();
    let mut out: Vec<String> = Vec::new();
    let mut cur: Vec<char> = Vec::new();
    let mut i: usize = 0;
    while i < n
        invariant
            i <= n,
            n == s@.len(),
            tokens_ok(tokens_uws(s@.take(i as int)), |c: char| is_unicode_ws(c)),
            cur@.len() == 0 ==> str_views(out@) == tokens_uws(s@.take(i as int)),
            cur@.len() == 0 ==> i == 0 || is_unicode_ws(s@[i as int - 1]),
            cur@.len() > 0 ==> tokens_uws(s@.take(i as int)) == str_views(out@).push(cur@)
                && i > 0 && !is_unicode_ws(s@[i as int - 1]),
        decreases n - i,
    {
        let c = s.get_char(i);
        proof {
            let ws = |x: char| is_unicode_ws(x);
            let q = s@.take(i as int + 1);
            assert(q.drop_last() =~= s@.take(i as int));
            assert(q[q.len() - 1] == s@[i as int]);
            lemma_tokens_gen_ok(q, ws);
        }
        if unicode_ws(c) {
            if cur.len() > 0 {
                let ghost out0 = out@;
                let tok = string_from_chars(&cur);
                out.push(tok);
                proof {
                    assert(str_views(out@) =~= str_views(out0).push(cur@));
                }
                cur = Vec::new();
            }
        } else {
            let ghost cur0 = cur@;
            cur.push(c);
            proof {
                let ws = |x: char| is_unicode_ws(x);
                let p = s@.take(i as int);
                let q = s@.take(i as int + 1);
                let ts = tokens_gen(p, ws);
                if cur0.len() == 0 {
                    assert(tokens_gen(q, ws) == ts.push(seq![s@[i as int]])) by {
                        if ts.len() > 0 && i >= 1 && !ws(s@[i as int - 1]) {
                            assert(false);
                        }
                    }
                    assert(str_views(out@).push(cur@) =~~= ts.push(seq![s@[i as int]]));
                } else {
                    assert(ts == str_views(out@).push(cur0));
                    assert(ts.len() > 0);
                    assert(q.len() >= 2 && !ws(q[q.len() - 2]));
                    let ts2 = ts.update(ts.len() - 1, ts[ts.len() - 1].push(s@[i as int]));
                    assert(tokens_gen(q, ws) == ts2);
                    assert(ts2.drop_last() =~= str_views(out@));
                    assert(ts2[ts2.len() - 1] == cur@);
                    assert(ts2 =~= str_views(out@).push(cur@));
                }
            }
        }
        i += 1;
    }
    proof {
        assert(s@.take(n as int) =~= s@);
    }
    if cur.len() > 0 {
        let ghost out0 = out@;
        let tok = string_from_chars(&cur);
        out.push(tok);
        proof {
            assert(str_views(out@) =~= str_views(out0).push(cur@));
        }
    }
    out
}

/// Whether the string holds the character.
pub fn contains_char(s: &str, c: char) -> (r: bool)
    ensures
        r == s@.contains(c),
{
    let n = s.unicode_len();
    let mut i: usize = 0;
    while i < n
        invariant
            i <= n,
            n == s@.len(),
            forall|k: int| 0 <= k < i ==> #[trigger] s@[k] != c,
        decreases n - i,
    {
        if s.get_char(i) == c {
            return true;
        }
        i += 1;
    }
    proof {
        if s@.contains(c) {
            let k = choose|k: int| 0 <= k < s@.len() && s@[k] == c;
        }
    }
    false
}

/// The characters before the first `#`, the whole string if there is none.
pub open spec fn hash_prefix(s: Seq<char>) -> Seq<char>
    decreases s.len(),
{
    if s.len() == 0 {
        s
    } else if s[0] == '#' {
        Seq::empty()
    } else {
        seq![s[0]] + hash_prefix(s.drop_first())
    }
}

pub open spec fn has_hash(s: Seq<char>) -> bool {
    exists|i: int| 0 <= i < s.len() && s[i] == '#'
}

/// Inline-comment stripping: everything from the first `#` on is cut and the
/// rest trimmed; a line without `#` is left untouched.
pub open spec fn strip_comment_spec(s: Seq<char>) -> Seq<char> {
    if has_hash(s) {
        trim_spec(hash_prefix(s))
    } else {
        s
    }
}

/// One line of a hosts list, normalized: whitespace collapsed, then the
/// inline comment stripped.
pub open spec fn normalize_spec(l: Seq<char>) -> Seq<char> {
    strip_comment_spec(collapse_spec(l))
}

#[verifier::rlimit(30)]
proof fn lemma_hash_prefix(s: Seq<char>)
    ensures
        hash_prefix(s).len() <= s.len(),
        hash_prefix(s) == s.take(hash_prefix(s).len() as int),
        forall|j: int| 0 <= j < hash_prefix(s).len() ==> #[trigger] s[j] != '#',
        has_hash(s) ==> hash_prefix(s).len() < s.len() && s[hash_prefix(s).len() as int] == '#',
        !has_hash(s) ==> hash_prefix(s) == s,
    decreases s.len(),
{
    if s.len() == 0 {
        assert(s.take(0) =~= s);
    } else if s[0] == '#' {
        assert(Seq::<char>::empty() =~= s.take(0));
    } else {
        lemma_hash_prefix(s.drop_first());
        let d = s.drop_first();
        let p = hash_prefix(s);
        assert(p =~= s.take(p.len() as int)) by {
            assert(hash_prefix(d) == d.take(hash_prefix(d).len() as int));
        }
        assert forall|j: int| 0 <= j < p.len() implies #[trigger] s[j] != '#' by {
            if j > 0 {
                assert(d[j - 1] != '#');
            }
        }
        if has_hash(s) {
            let i = choose|i: int| 0 <= i < s.len() && s[i] == '#';
            assert(d[i - 1] == '#');
            assert(has_hash(d));
        }
        if has_hash(d) {
            assert(s[p.len() as int] == d[hash_prefix(d).len() as int]);
            assert(has_hash(s)) by {
                assert(s[p.len() as int] == '#');
            }
        }
        if !has_hash(s) {
            assert(!has_hash(d)) by {
                if has_hash(d) {
                    let i = choose|i: int| 0 <= i < d.len() && d[i] == '#';
                    assert(s[i + 1] == '#');
                }
            }
            assert(p =~= s);
        }
    }
}

/// The comment-stripped copy of a character vector.
pub fn strip_comment_chars(v: &Vec<char>) -> (r: Vec<char>)
    ensures
        r@ == strip_comment_spec(v@),
{
    let n = v.len();
    let mut h: usize = 0;
    while h < n && v[h] != '#'
        invariant
            h <= n,
            n == v@.len(),
            forall|j: int| 0 <= j < h ==> #[trigger] v@[j] != '#',
        decreases n - h,
    {
        h += 1;
    }
    proof {
        lemma_hash_prefix(v@);
    }
    if h == n {
        // no comment marker: the line is returned as it is
        let mut r: Vec<char> = Vec::new();
        let mut i: usize = 0;
        while i < n
            invariant
                i <= n,
                n == v@.len(),
                r@ == v@.take(i as int),
            decreases n - i,
        {
            r.push(v[i]);
            proof {
                assert(r@ =~= v@.take(i as int + 1));
            }
            i += 1;
        }
        proof {
            assert(!has_hash(v@));
            assert(r@ =~= v@);
        }
        r
    } else {
        let mut p: Vec<char> = Vec::new();
        let mut i: usize = 0;
        while i < h
            invariant
                i <= h <= n,
                n == v@.len(),
                p@ == v@.take(i as int),
            decreases h - i,
        {
            p.push(v[i]);
            proof {
                assert(p@ =~= v@.take(i as int + 1));
            }
            i += 1;
        }
        proof {
            assert(has_hash(v@)) by {
                assert(v@[h as int] == '#');
            }
            assert(hash_prefix(v@).len() == h) by {
                let pl = hash_prefix(v@).len() as int;
                if pl < h {
                    assert(v@[pl] == '#');
                } else if h < pl {
                    assert(v@[h as int] != '#');
                }
            }
            assert(p@ =~= hash_prefix(v@));
        }
        trim_chars(&p)
    }
}

// --- the normal form of a normalized line -----------------------------------
//
// A normalized line starts and ends with visible characters, contains only
// single spaces as ASCII whitespace, and carries no `#`.  The lemmas below
// show every normalized line has this shape and that normalization leaves
// such lines untouched, which gives idempotence.

/// Internal whitespace is collapsed and the first character is visible.
pub open spec fn canon_core(x: Seq<char>) -> bool {
    &&& x.len() > 0 ==> !is_unicode_ws(x[0])
    &&& forall|i: int| 0 <= i < x.len() && is_ascii_ws(#[trigger] x[i]) ==> x[i] == ' '
    &&& forall|i: int|
        0 <= i < x.len() - 1 && is_ascii_ws(#[trigger] x[i]) ==> !is_ascii_ws(x[i + 1])
}

/// The shape of a whitespace-normalized line.
pub open spec fn canon(x: Seq<char>) -> bool {
    &&& canon_core(x)
    &&& x.len() > 0 ==> !is_unicode_ws(x[x.len() - 1])
}

proof fn lemma_trim_edges(s: Seq<char>)
    ensures
        trim_spec(s).len() > 0 ==> !is_unicode_ws(trim_spec(s)[0]) && !is_unicode_ws(
            trim_spec(s)[trim_spec(s).len() - 1],
        ),
        trim_spec(s).len() <= s.len(),
    decreases s.len(),
{
    if s.len() > 0 {
        if is_unicode_ws(s[0]) {
            lemma_trim_edges(s.drop_first());
        } else if is_unicode_ws(s[s.len() - 1]) {
            lemma_trim_edges(s.drop_last());
        }
    }
}

proof fn lemma_tokens_first(s: Seq<char>, ws: spec_fn(char) -> bool)
    requires
        s.len() > 0,
        !ws(s[0]),
    ensures
        tokens_gen(s, ws).len() > 0,
        tokens_gen(s, ws)[0].len() > 0,
        tokens_gen(s, ws)[0][0] == s[0],
    decreases s.len(),
{
    lemma_tokens_gen_ok(s, ws);
    if s.len() == 1 {
        assert(s.drop_last().len() == 0);
        assert(tokens_gen(s.drop_last(), ws) == Seq::<Seq<char>>::empty());
        assert(tokens_gen(s, ws) == Seq::<Seq<char>>::empty().push(seq![s[0]]));
    }
    if s.len() > 1 {
        lemma_tokens_first(s.drop_last(), ws);
        lemma_tokens_gen_ok(s.drop_last(), ws);
        let ts0 = tokens_gen(s.drop_last(), ws);
        let ts = tokens_gen(s, ws);
        let c = s[s.len() - 1];
        assert(s.drop_last()[0] == s[0]);
        if !ws(c) {
            assert(token_ok(ts0[0], ws));
            if ts0.len() > 0 && !ws(s[s.len() - 2]) {
                if ts0.len() == 1 {
                    assert(ts[0] == ts0[0].push(c));
                    assert(ts[0][0] == ts0[0][0]);
                } else {
                    assert(ts[0] == ts0[0]);
                }
            } else {
                assert(ts == ts0.push(seq![c]));
                assert(ts[0] == ts0[0]);
            }
        } else {
            assert(ts == ts0);
        }
    }
}

proof fn lemma_tokens_last(s: Seq<char>, ws: spec_fn(char) -> bool)
    requires
        s.len() > 0,
        !ws(s[s.len() - 1]),
    ensures
        tokens_gen(s, ws).len() > 0,
        ({
            let ts = tokens_gen(s, ws);
            ts[ts.len() - 1].len() > 0 && ts[ts.len() - 1][ts[ts.len() - 1].len() - 1] == s[s.len()
                - 1]
        }),
{
    lemma_tokens_gen_ok(s.drop_last(), ws);
}

proof fn lemma_join_core(ts: Seq<Seq<char>>)
    requires
        tokens_ok(ts, |c: char| is_ascii_ws(c)),
        ts.len() > 0 ==> !is_unicode_ws(ts[0][0]),
    ensures
        canon_core(join_sp(ts)),
        ts.len() > 0 ==> join_sp(ts).len() > 0 && join_sp(ts)[0] == ts[0][0] && join_sp(
            ts,
        )[join_sp(ts).len() - 1] == ts[ts.len() - 1][ts[ts.len() - 1].len() - 1],
    decreases ts.len(),
{
    if ts.len() > 1 {
        lemma_join_core(ts.drop_last());
        let a = join_sp(ts.drop_last());
        let t = ts[ts.len() - 1];
        let j = join_sp(ts);
        assert(j == a + seq![' '] + t);
        assert(forall|k: int| 0 <= k < a.len() ==> j[k] == a[k]);
        assert(j[a.len() as int] == ' ');
        assert(forall|k: int| 0 <= k < t.len() ==> j[a.len() + 1 + k] == t[k]);
        assert(!is_ascii_ws(a[a.len() - 1])) by {
            assert(token_ok(ts.drop_last()[ts.len() - 2], |c: char| is_ascii_ws(c)));
        }
        assert(token_ok(t, |c: char| is_ascii_ws(c)));
        assert(j[j.len() - 1] == t[t.len() - 1]);
    }
}

proof fn lemma_collapse_canon(s: Seq<char>)
    ensures
        canon(collapse_spec(s)),
        !has_hash(s) ==> !has_hash(collapse_spec(s)),
{
    let aws = |c: char| is_ascii_ws(c);
    let t = trim_spec(s);
    let ts = tokens_gen(t, aws);
    lemma_trim_edges(s);
    lemma_tokens_gen_ok(t, aws);
    if t.len() > 0 {
        lemma_tokens_first(t, aws);
        lemma_tokens_last(t, aws);
    }
    lemma_join_core(ts);
    if ts.len() > 0 {
        assert(!is_unicode_ws(join_sp(ts)[join_sp(ts).len() - 1]));
    }
    if !has_hash(s) {
        lemma_no_hash_trim(s);
        lemma_no_hash_join(ts, t);
    }
}

proof fn lemma_no_hash_trim(s: Seq<char>)
    requires
        !has_hash(s),
    ensures
        !has_hash(trim_spec(s)),
        forall|k: int| 0 <= k < trim_spec(s).len() ==> #[trigger] trim_spec(s)[k] != '#',
    decreases s.len(),
{
    assert(forall|k: int| 0 <= k < s.len() ==> #[trigger] s[k] != '#');
    if s.len() > 0 {
        if is_unicode_ws(s[0]) {
            assert(!has_hash(s.drop_first())) by {
                if has_hash(s.drop_first()) {
                    let i = choose|i: int|
                        0 <= i < s.drop_first().len() && s.drop_first()[i] == '#';
                    assert(s[i + 1] == '#');
                }
            }
            lemma_no_hash_trim(s.drop_first());
        } else if is_unicode_ws(s[s.len() - 1]) {
            assert(!has_hash(s.drop_last())) by {
                if has_hash(s.drop_last()) {
                    let i = choose|i: int| 0 <= i < s.drop_last().len() && s.drop_last()[i] == '#';
                    assert(s[i] == '#');
                }
            }
            lemma_no_hash_trim(s.drop_last());
        }
    }
}

proof fn lemma_no_hash_join(ts: Seq<Seq<char>>, t: Seq<char>)
    requires
        ts == tokens_gen(t, |c: char| is_ascii_ws(c)),
        forall|k: int| 0 <= k < t.len() ==> #[trigger] t[k] != '#',
    ensures
        !has_hash(join_sp(ts)),
    decreases t.len(),
{
    lemma_tokens_hashfree(t, |c: char| is_ascii_ws(c));
    lemma_join_hashfree(ts);
}

proof fn lemma_tokens_hashfree(t: Seq<char>, ws: spec_fn(char) -> bool)
    requires
        forall|k: int| 0 <= k < t.len() ==> #[trigger] t[k] != '#',
    ensures
        forall|k: int, j: int|
            0 <= k < tokens_gen(t, ws).len() && 0 <= j < tokens_gen(t, ws)[k].len()
                ==> #[trigger] tokens_gen(t, ws)[k][j] != '#',
    decreases t.len(),
{
    if t.len() > 0 {
        lemma_tokens_hashfree(t.drop_last(), ws);
        let ts0 = tokens_gen(t.drop_last(), ws);
        let ts = tokens_gen(t, ws);
        let c = t[t.len() - 1];
        assert forall|k: int, j: int|
            0 <= k < ts.len() && 0 <= j < ts[k].len() implies #[trigger] ts[k][j] != '#' by {
            if !ws(c) {
                if ts0.len() > 0 && t.len() >= 2 && !ws(t[t.len() - 2]) {
                    if k == ts.len() - 1 {
                        if j < ts0[k].len() {
                            assert(ts0[k][j] != '#');
                        } else {
                            assert(ts[k][j] == c);
                        }
                    } else {
                        assert(ts0[k][j] != '#');
                    }
                } else {
                    if k == ts.len() - 1 {
                        assert(ts[k][j] == c);
                    } else {
                        assert(ts0[k][j] != '#');
                    }
                }
            } else {
                assert(ts0[k][j] != '#');
            }
        }
    }
}

proof fn lemma_join_hashfree(ts: Seq<Seq<char>>)
    requires
        forall|k: int, j: int|
            0 <= k < ts.len() && 0 <= j < ts[k].len() ==> #[trigger] ts[k][j] != '#',
    ensures
        !has_hash(join_sp(ts)),
    decreases ts.len(),
{
    if ts.len() > 1 {
        assert(forall|k: int, j: int|
            0 <= k < ts.drop_last().len() && 0 <= j < ts.drop_last()[k].len()
                ==> #[trigger] ts.drop_last()[k][j] != '#');
        lemma_join_hashfree(ts.drop_last());
        let a = join_sp(ts.drop_last());
        let t = ts[ts.len() - 1];
        let j = join_sp(ts);
        assert(j == a + seq![' '] + t);
        if has_hash(j) {
            let i = choose|i: int| 0 <= i < j.len() && j[i] == '#';
            if i < a.len() {
                assert(a[i] == '#');
            } else if i > a.len() {
                assert(t[i - a.len() - 1] == '#');
            }
        }
    } else if ts.len() == 1 {
        if has_hash(join_sp(ts)) {
            let i = choose|i: int| 0 <= i < ts[0].len() && ts[0][i] == '#';
        }
    }
}

proof fn lemma_canon_join(x: Seq<char>)
    requires
        canon_core(x),
    ensures
        ({
            let ts = tokens_aws(x);
            if x.len() == 0 {
                ts.len() == 0
            } else if is_ascii_ws(x[x.len() - 1]) {
                ts.len() > 0 && join_sp(ts) == x.drop_last()
            } else {
                ts.len() > 0 && join_sp(ts) == x
            }
        }),
    decreases x.len(),
{
    let aws = |c: char| is_ascii_ws(c);
    let ts = tokens_gen(x, aws);
    if x.len() == 0 {
    } else {
        let y = x.drop_last();
        let c = x[x.len() - 1];
        assert(canon_core(y)) by {
            assert(forall|i: int| 0 <= i < y.len() ==> y[i] == x[i]);
        }
        lemma_canon_join(y);
        lemma_tokens_gen_ok(y, aws);
        let ts0 = tokens_gen(y, aws);
        if y.len() == 0 {
            // a single character; it is visible since canon_core holds
            assert(!is_ascii_ws(c));
            assert(ts == ts0.push(seq![c]));
            assert(join_sp(ts) =~= x);
        } else if aws(c) {
            // the line ends in a single space after a visible character
            assert(!is_ascii_ws(y[y.len() - 1]));
            assert(ts == ts0);
            assert(join_sp(ts) == x.drop_last());
        } else if is_ascii_ws(y[y.len() - 1]) {
            // a fresh token after a space
            assert(y[y.len() - 1] == ' ');
            assert(ts == ts0.push(seq![c]));
            assert(ts0.len() > 0 && join_sp(ts0) == y.drop_last());
            assert(ts.drop_last() =~= ts0);
            assert(join_sp(ts) == join_sp(ts0) + seq![' '] + seq![c]);
            assert(join_sp(ts) =~= x);
        } else {
            // the last token grows by one character
            assert(ts0.len() > 0 && join_sp(ts0) == y);
            assert(ts == ts0.update(ts0.len() - 1, ts0[ts0.len() - 1].push(c)));
            if ts0.len() == 1 {
                assert(join_sp(ts) =~= join_sp(ts0) + seq![c]);
            } else {
                assert(ts.drop_last() =~= ts0.drop_last());
                assert(join_sp(ts) =~= join_sp(ts0) + seq![c]);
            }
            assert(join_sp(ts) =~= x);
        }
    }
}

proof fn lemma_canon_collapse_fixed(x: Seq<char>)
    requires
        canon(x),
    ensures
        collapse_spec(x) == x,
{
    assert(trim_spec(x) == x);
    lemma_canon_join(x);
    if x.len() > 0 {
        assert(!is_ascii_ws(x[x.len() - 1]));
    }
}

proof fn lemma_take_core(x: Seq<char>, h: int)
    requires
        canon_core(x),
        0 <= h <= x.len(),
    ensures
        canon_core(x.take(h)),
{
    assert(forall|i: int| 0 <= i < h ==> x.take(h)[i] == x[i]);
}

proof fn lemma_trim_core(p: Seq<char>)
    requires
        forall|i: int| 0 <= i < p.len() && is_ascii_ws(#[trigger] p[i]) ==> p[i] == ' ',
        forall|i: int|
            0 <= i < p.len() - 1 && is_ascii_ws(#[trigger] p[i]) ==> !is_ascii_ws(p[i + 1]),
    ensures
        canon(trim_spec(p)),
    decreases p.len(),
{
    lemma_trim_edges(p);
    if p.len() == 0 {
    } else if is_unicode_ws(p[0]) {
        let d = p.drop_first();
        assert(forall|i: int| 0 <= i < d.len() ==> d[i] == p[i + 1]);
        lemma_trim_core(d);
    } else if is_unicode_ws(p[p.len() - 1]) {
        let d = p.drop_last();
        assert(forall|i: int| 0 <= i < d.len() ==> d[i] == p[i]);
        lemma_trim_core(d);
    } else {
        assert(trim_spec(p) == p);
    }
}

/// Normalizing a line twice gives the same result as normalizing it once.
pub proof fn lemma_normalize_idempotent(l: Seq<char>)
    ensures
        normalize_spec(normalize_spec(l)) == normalize_spec(l),
{
    let c = collapse_spec(l);
    lemma_collapse_canon(l);
    let r = normalize_spec(l);
    if !has_hash(c) {
        // nothing was stripped; the line is already in normal form
        assert(r == c);
        lemma_canon_collapse_fixed(r);
        lemma_collapse_canon(r);
        assert(normalize_spec(r) == strip_comment_spec(r));
        assert(normalize_spec(r) == r);
    } else {
        lemma_hash_prefix(c);
        let p = hash_prefix(c);
        let h = p.len() as int;
        assert(p == c.take(h));
        lemma_take_core(c, h);
        assert(r == trim_spec(p));
        lemma_trim_core(p);
        assert(canon(r));
        assert(!has_hash(p)) by {
            if has_hash(p) {
                let i = choose|i: int| 0 <= i < p.len() && p[i] == '#';
                assert(c[i] == '#');
            }
        }
        lemma_no_hash_trim(p);
        assert(!has_hash(r));
        lemma_canon_collapse_fixed(r);
        assert(normalize_spec(r) == strip_comment_spec(r));
        assert(normalize_spec(r) == r);
    }
}

} // verus!
