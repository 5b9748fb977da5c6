//! Utilities: domain validation, line normalization, hashing and
//! combinatorics over ordered items.
use vstd::prelude::*;
use vstd::string::*;
use vstd::utf8::encode_utf8;
use crate::text::{
    collapse_chars, collapse_spec, lemma_lex_conn, lemma_lex_le_trans, lex_le, str_chars,
    str_lex_lt, string_from_chars, strip_comment_chars, strip_comment_spec,
};
use addr::parser::DnsName;
use std::collections::hash_map::DefaultHasher;
use std::hash::Hasher;
use vstd::std_specs::hash::DefaultHasherAdditionalSpecFns;

verus! {

// --- domain validation -------------------------------------------------------

/// A maximal dot-free run of `d`, described by its bounds.
pub open spec fn is_label_range(d: Seq<char>, i: int, j: int) -> bool {
    &&& 0 <= i <= j <= d.len()
    &&& (i == 0 || d[i - 1] == '.')
    &&& (j == d.len() || d[j] == '.')
    &&& forall|k: int| i <= k < j ==> #[trigger] d[k] != '.'
}

/// The names `addr`'s DNS-name parser accepts: nonempty, no adjacent dots,
/// and — after dropping one trailing dot — at most 253 bytes in all with each
/// dot-separated label at most 63 bytes.
pub open spec fn dns_name_ok(s: Seq<char>) -> bool {
    &&& s.len() > 0
    &&& !(exists|i: int| 0 <= i < s.len() - 1 && #[trigger] s[i] == '.' && s[i + 1] == '.')
    &&& ({
        let d = if s[s.len() - 1] == '.' {
            s.drop_last()
        } else {
            s
        };
        &&& encode_utf8(d).len() <= 253
        &&& forall|i: int, j: int|
            #[trigger] is_label_range(d, i, j) ==> encode_utf8(d.subrange(i, j)).len() <= 63
    })
}

/// Relies on `addr::parser::DnsName::parse_dns_name` over the `psl` suffix
/// list.  Its source accepts exactly the names described by [`dns_name_ok`]:
/// the syntax check is `matcher::is_dns_name`, and the suffix lookup that
/// follows it cannot fail.
#[verifier::external_body]
fn parse_dns_name_ok(s: &str) -> (r: bool)
    ensures
        r == dns_name_ok(s@),
{
    psl::List.parse_dns_name(s).is_ok()
}

/// Tests if a string is a valid domain: it must contain a dot and pass
/// public-suffix-aware DNS name parsing.  Total: no input makes it panic.
pub fn is_domain(s: &str) -> (r: bool)
    ensures
        r == (s@.contains('.') && dns_name_ok(s@)),
{
    let n = s.unicode_len();
    let mut i: usize = 0;
    let mut has_dot = false;
    while i < n && !has_dot
        invariant
            i <= n,
            n == s@.len(),
            !has_dot ==> forall|k: int| 0 <= k < i ==> #[trigger] s@[k] != '.',
            has_dot ==> s@.contains('.'),
        decreases n - i,
    {
        if s.get_char(i) == '.' {
            has_dot = true;
        }
        i += 1;
    }
    if !has_dot {
        proof {
            assert(!s@.contains('.')) by {
                if s@.contains('.') {
                    let k = choose|k: int| 0 <= k < s@.len() && s@[k] == '.';
                }
            }
        }
        return false;
    }
    parse_dns_name_ok(s)
}

// --- line normalization ------------------------------------------------------

/// Keeps what stands before the first `#`, trimmed; a line without `#` is
/// returned unchanged.
pub fn trim_inline_comments(s: String) -> (r: String)
    ensures
        r@ == strip_comment_spec(s@),
{
    let v = str_chars(s.as_str());
    let stripped = strip_comment_chars(&v);
    string_from_chars(&stripped)
}

/// Trims a line and collapses every internal whitespace run to one space.
pub fn norm_string(passed: &str) -> (r: String)
    ensures
        r@ == collapse_spec(passed@),
{
    let v = str_chars(passed);
    let collapsed = collapse_chars(&v);
    string_from_chars(&collapsed)
}

// --- hashing -----------------------------------------------------------------

/// The lowercase hex digit for a value below 16.
pub open spec fn hex_digit(d: u64) -> char {
    if d == 0 {
        '0'
    } else if d == 1 {
        '1'
    } else if d == 2 {
        '2'
    } else if d == 3 {
        '3'
    } else if d == 4 {
        '4'
    } else if d == 5 {
        '5'
    } else if d == 6 {
        '6'
    } else if d == 7 {
        '7'
    } else if d == 8 {
        '8'
    } else if d == 9 {
        '9'
    } else if d == 10 {
        'a'
    } else if d == 11 {
        'b'
    } else if d == 12 {
        'c'
    } else if d == 13 {
        'd'
    } else if d == 14 {
        'e'
    } else {
        'f'
    }
}

/// What `{:x}` prints for a `u64`: lowercase hex without leading zeros.
pub open spec fn u64_hex(x: u64) -> Seq<char>
    decreases x,
{
    if x < 16 {
        seq![hex_digit(x)]
    } else {
        u64_hex(x / 16).push(hex_digit(x % 16))
    }
}

fn hex_digit_exec(d: u64) -> (c: char)
    requires
        d < 16,
    ensures
        c == hex_digit(d),
{
    if d == 0 {
        '0'
    } else if d == 1 {
        '1'
    } else if d == 2 {
        '2'
    } else if d == 3 {
        '3'
    } else if d == 4 {
        '4'
    } else if d == 5 {
        '5'
    } else if d == 6 {
        '6'
    } else if d == 7 {
        '7'
    } else if d == 8 {
        '8'
    } else if d == 9 {
        '9'
    } else if d == 10 {
        'a'
    } else if d == 11 {
        'b'
    } else if d == 12 {
        'c'
    } else if d == 13 {
        'd'
    } else if d == 14 {
        'e'
    } else {
        'f'
    }
}

fn push_hex_digits(x: u64, out: &mut Vec<char>)
    ensures
        final(out)@ == old(out)@ + u64_hex(x),
    decreases x,
{
    if x < 16 {
        out.push(hex_digit_exec(x));
        proof {
            assert(out@ =~= old(out)@ + u64_hex(x));
        }
    } else {
        push_hex_digits(x / 16, out);
        out.push(hex_digit_exec(x % 16));
        proof {
            assert(out@ =~= old(out)@ + u64_hex(x));
        }
    }
}

/// The digest the cache keys are derived from: the string's UTF-8 bytes and
/// the `0xff` marker byte, run through std's `DefaultHasher`.
pub open spec fn digest_of(s: Seq<char>) -> u64 {
    DefaultHasher::spec_finish(seq![encode_utf8(s), seq![0xffu8]])
}

/// The hex form of the hash a `String` gets from std's `DefaultHasher`.
pub fn hash(obj: String) -> (r: String)
    ensures
        r@ == u64_hex(digest_of(obj@)),
{
    let s: &str = obj.as_str();
    let mut h = DefaultHasher::new();
    h.write(s.as_bytes());
    let mut marker: Vec<u8> = Vec::new();
    marker.push(0xff);
    h.write(marker.as_slice());
    proof {
        assert(marker@ =~= seq![0xffu8]);
        assert(h@ =~= seq![encode_utf8(obj@), seq![0xffu8]]);
    }
    let d = h.finish();
    let mut out: Vec<char> = Vec::new();
    push_hex_digits(d, &mut out);
    string_from_chars(&out)
}

// --- flattening --------------------------------------------------------------

/// The views of a sequence of vectors.
pub open spec fn seq_views<T>(s: Seq<Vec<T>>) -> Seq<Seq<T>> {
    s.map_values(|v: Vec<T>| v@)
}

/// One vector holding the elements of the nested vectors, in order.
pub fn flatten<T>(nested: Vec<Vec<T>>) -> (r: Vec<T>)
    ensures
        r@ == seq_views(nested@).flatten(),
{
    let ghost orig = nested@;
    let mut rest = nested;
    let mut r: Vec<T> = Vec::new();
    while rest.len() > 0
        invariant
            seq_views(orig).flatten() == r@ + seq_views(rest@).flatten(),
        decreases rest@.len(),
    {
        let ghost prev = rest@;
        let mut v = rest.remove(0);
        let ghost vv = v@;
        r.append(&mut v);
        proof {
            assert(seq_views(prev).len() > 0);
            assert(seq_views(prev).first() == vv);
            assert(seq_views(prev).drop_first() =~= seq_views(rest@));
            assert(seq_views(prev).flatten() == vv + seq_views(rest@).flatten());
        }
    }
    proof {
        assert(seq_views(rest@).flatten() =~= Seq::<T>::empty());
        assert(r@ =~= seq_views(orig).flatten());
    }
    r
}

// --- ordered items -----------------------------------------------------------

/// A total order with an executable comparison, for the item types the
/// combination walker draws from.
pub trait OrderedItem: Sized {
    /// The order the items are arranged by.
    spec fn le_spec(&self, other: &Self) -> bool;

    proof fn le_total(a: &Self, b: &Self)
        ensures
            a.le_spec(b) || b.le_spec(a),
    ;

    proof fn le_trans(a: &Self, b: &Self, c: &Self)
        requires
            a.le_spec(b),
            b.le_spec(c),
        ensures
            a.le_spec(c),
    ;

    /// Whether `self` comes no later than `other`.
    fn le(&self, other: &Self) -> (r: bool)
        ensures
            r == self.le_spec(other),
    ;

    /// An owned copy of the item.
    fn duplicate(&self) -> (r: Self)
        ensures
            r == *self,
    ;
}

impl OrderedItem for i32 {
    open spec fn le_spec(&self, other: &Self) -> bool {
        *self <= *other
    }

    proof fn le_total(a: &Self, b: &Self) {
    }

    proof fn le_trans(a: &Self, b: &Self, c: &Self) {
    }

    fn le(&self, other: &Self) -> (r: bool) {
        *self <= *other
    }

    fn duplicate(&self) -> (r: Self) {
        *self
    }
}

impl<'s> OrderedItem for &'s str {
    open spec fn le_spec(&self, other: &Self) -> bool {
        lex_le((*self)@, (*other)@)
    }

    proof fn le_total(a: &Self, b: &Self) {
        lemma_lex_conn((*a)@, (*b)@);
    }

    proof fn le_trans(a: &Self, b: &Self, c: &Self) {
        lemma_lex_le_trans((*a)@, (*b)@, (*c)@);
    }

    fn le(&self, other: &Self) -> (r: bool) {
        !str_lex_lt(*other, *self)
    }

    fn duplicate(&self) -> (r: Self) {
        *self
    }
}

impl OrderedItem for String {
    open spec fn le_spec(&self, other: &Self) -> bool {
        lex_le(self@, other@)
    }

    proof fn le_total(a: &Self, b: &Self) {
        lemma_lex_conn(a@, b@);
    }

    proof fn le_trans(a: &Self, b: &Self, c: &Self) {
        lemma_lex_le_trans(a@, b@, c@);
    }

    fn le(&self, other: &Self) -> (r: bool) {
        !str_lex_lt(other.as_str(), self.as_str())
    }

    fn duplicate(&self) -> (r: Self) {
        self.clone()
    }
}

impl OrderedItem for (String, u32) {
    /// Tally order: larger counts first, ties by ascending key.
    open spec fn le_spec(&self, other: &Self) -> bool {
        self.1 > other.1 || (self.1 == other.1 && lex_le(self.0@, other.0@))
    }

    proof fn le_total(a: &Self, b: &Self) {
        lemma_lex_conn(a.0@, b.0@);
    }

    proof fn le_trans(a: &Self, b: &Self, c: &Self) {
        if a.1 == b.1 && b.1 == c.1 {
            lemma_lex_le_trans(a.0@, b.0@, c.0@);
        }
    }

    fn le(&self, other: &Self) -> (r: bool) {
        if self.1 != other.1 {
            self.1 > other.1
        } else {
            !str_lex_lt(other.0.as_str(), self.0.as_str())
        }
    }

    fn duplicate(&self) -> (r: Self) {
        (self.0.clone(), self.1)
    }
}

/// What a tallied token maps to in the reports, the case folding done by
/// the standard library.
pub uninterp spec fn lower_of(s: Seq<char>) -> Seq<char>;

/// Relies on `str::to_lowercase`: the result depends on the characters
/// alone.
#[verifier::external_body]
pub(crate) fn lowercase(s: &str) -> (r: String)
    ensures
        r@ == lower_of(s@),
{
    s.to_lowercase()
}

/// The items stand in nondecreasing order.
pub open spec fn sorted_by_le<T: OrderedItem>(s: Seq<T>) -> bool {
    forall|i: int, j: int| 0 <= i < j < s.len() ==> #[trigger] s[i].le_spec(&s[j])
}

pub(crate) proof fn lemma_multiset_insert<A>(s: Seq<A>, j: int, x: A)
    requires
        0 <= j <= s.len(),
    ensures
        s.insert(j, x).to_multiset() == s.to_multiset().insert(x),
{
    broadcast use vstd::seq_lib::group_seq_properties;

    let t = s.insert(j, x);
    t.to_multiset_ensures();
    assert(t.remove(j) =~= s);
    assert(t[j] == x);
    assert(s.to_multiset() == t.to_multiset().remove(x));
    assert(t.to_multiset().count(x) > 0) by {
        assert(t.contains(x));
    }
    assert(t.to_multiset() =~= s.to_multiset().insert(x));
}

/// Sorts in place by `le`.
pub(crate) fn sort_items<T: OrderedItem>(v: &mut Vec<T>)
    ensures
        sorted_by_le(final(v)@),
        final(v)@.to_multiset() == old(v)@.to_multiset(),
        final(v)@.len() == old(v)@.len(),
{
    let ghost ms0 = old(v)@.to_multiset();
    proof {
        old(v)@.to_multiset_ensures();
    }
    if v.len() < 2 {
        return ;
    }
    let n = v.len();
    let mut i: usize = 1;
    while i < n
        invariant
            1 <= i <= n,
            v@.len() == n,
            v@.to_multiset() == ms0,
            sorted_by_le(v@.take(i as int)),
        decreases n - i,
    {
        let ghost before = v@;
        let x = v.remove(i);
        proof {
            before.to_multiset_ensures();
            assert(v@.to_multiset() == ms0.remove(x));
            assert(v@.take(i as int) =~= before.take(i as int));
        }
        let mut j: usize = i;
        while j > 0 && !(v[j - 1].le(&x))
            invariant
                j <= i < n,
                v@.len() == n - 1,
                v@ == before.remove(i as int),
                sorted_by_le(v@.take(i as int)),
                forall|k: int| j <= k < i ==> #[trigger] x.le_spec(&v@[k]),
            decreases j,
        {
            proof {
                let ghost a = v@[j - 1];
                T::le_total(&a, &x);
            }
            j -= 1;
        }
        let ghost mid = v@;
        // everything before `j` is at most `x`: the element right before it
        // is, and the prefix is sorted
        proof {
            assert forall|p: int| 0 <= p < j implies #[trigger] mid[p].le_spec(&x) by {
                assert(mid[j - 1].le_spec(&x));
                if p < j - 1 {
                    assert(mid[p].le_spec(&mid[j - 1]));
                    T::le_trans(&mid[p], &mid[j - 1], &x);
                }
            }
        }
        v.insert(j, x);
        proof {
            lemma_multiset_insert(mid, j as int, x);
            assert(v@.to_multiset() =~= ms0) by {
                assert(ms0.count(x) > 0) by {
                    before.to_multiset_ensures();
                    assert(before.contains(x)) by {
                        assert(before[i as int] == x);
                    }
                }
            }
            assert forall|p: int, q: int|
                0 <= p < q < i + 1 implies #[trigger] v@[p].le_spec(&v@[q]) by {
                let a = v@[p];
                let b = v@[q];
                if q < j {
                    assert(a == mid[p] && b == mid[q]);
                    assert(mid[p].le_spec(&mid[q]));
                } else if q == j {
                    assert(b == x && a == mid[p]);
                    assert(mid[p].le_spec(&x));
                } else if p == j {
                    assert(a == x && b == mid[q - 1]);
                    assert(x.le_spec(&mid[q - 1]));
                } else if p < j {
                    assert(a == mid[p] && b == mid[q - 1]);
                    assert(mid[p].le_spec(&x));
                    assert(x.le_spec(&mid[q - 1]));
                    T::le_trans(&mid[p], &x, &mid[q - 1]);
                } else {
                    assert(a == mid[p - 1] && b == mid[q - 1]);
                    assert(mid[p - 1].le_spec(&mid[q - 1]));
                }
            }
            assert(sorted_by_le(v@.take(i as int + 1)));
        }
        i += 1;
    }
    proof {
        assert(v@.take(n as int) =~= v@);
    }
}

// --- combinations ------------------------------------------------------------

/// Walks the sorted combinations of a fixed draw size over a pool of items.
pub struct Combinations<T: OrderedItem> {
    original: Vec<T>,
    possition: Vec<usize>,
    len: usize,
    started: bool,
}

/// The cursor vector `b` stands strictly later than `a` in lexicographic
/// order: the first place they differ grew.
pub open spec fn cursors_advance(a: Seq<usize>, b: Seq<usize>) -> bool {
    exists|k: int|
        0 <= k < a.len() && k < b.len() && a[k] < b[k] && (forall|m: int|
            0 <= m < k ==> a[m] == b[m])
}

/// `a` comes strictly before `b`.
pub open spec fn lt_spec<T: OrderedItem>(a: T, b: T) -> bool {
    a.le_spec(&b) && !b.le_spec(&a)
}

/// `a` and `b` hold the same rank.
pub open spec fn eq_rank<T: OrderedItem>(a: T, b: T) -> bool {
    a.le_spec(&b) && b.le_spec(&a)
}

fn lt_item<T: OrderedItem>(a: &T, b: &T) -> (r: bool)
    ensures
        r == lt_spec(*a, *b),
{
    a.le(b) && !b.le(a)
}

fn eq_item<T: OrderedItem>(a: &T, b: &T) -> (r: bool)
    ensures
        r == eq_rank(*a, *b),
{
    a.le(b) && b.le(a)
}

impl<T: OrderedItem> Combinations<T> {
    /// The cursors select a strictly increasing set of pool indices and the
    /// pool is sorted.
    pub closed spec fn wf(&self) -> bool {
        &&& self.possition@.len() == self.len
        &&& 1 <= self.len <= self.original@.len()
        &&& forall|i: int| 0 <= i < self.len ==> #[trigger] self.possition@[i] < self.original@.len()
        &&& forall|i: int, j: int|
            0 <= i < j < self.len ==> #[trigger] self.possition@[i] < #[trigger] self.possition@[j]
        &&& sorted_by_le(self.original@)
    }

    /// The pool the combinations are drawn from, sorted.
    pub closed spec fn pool(&self) -> Seq<T> {
        self.original@
    }

    /// The draw size.
    pub closed spec fn draw_len(&self) -> nat {
        self.len as nat
    }

    /// The pool indices the cursors stand on.
    pub closed spec fn cursors(&self) -> Seq<usize> {
        self.possition@
    }

    /// Whether the walk has yielded its first combination.
    pub closed spec fn has_started(&self) -> bool {
        self.started
    }

    /// Sets up the walk: the pool is sorted, the draw size fixed, and the
    /// cursors sit on the first combination.
    pub fn new(original: Vec<T>, len: usize) -> (r: Self)
        requires
            1 <= len <= original@.len(),
        ensures
            r.wf(),
            !r.has_started(),
            r.draw_len() == len,
            r.pool().to_multiset() == original@.to_multiset(),
            forall|k: int| 0 <= k < len ==> #[trigger] r.cursors()[k] == k,
    {
        let mut original = original;
        sort_items(&mut original);
        let mut possition: Vec<usize> = Vec::new();
        let mut k: usize = 0;
        while k < len
            invariant
                k <= len,
                possition@.len() == k,
                forall|m: int| 0 <= m < k ==> #[trigger] possition@[m] == m,
            decreases len - k,
        {
            possition.push(k);
            k += 1;
        }
        Combinations { original, possition, len, started: false }
    }

    /// Copies the items under the cursors into `col`.
    fn insert(&self, col: &mut Vec<T>)
        requires
            self.wf(),
        ensures
            final(col)@.len() == self.len,
            forall|k: int|
                0 <= k < self.len ==> #[trigger] final(col)@[k] == self.original@[self.possition@[k] as int],
    {
        col.clear();
        let mut p: usize = 0;
        while p < self.len
            invariant
                p <= self.len,
                self.wf(),
                col@.len() == p,
                forall|k: int|
                    0 <= k < p ==> #[trigger] col@[k] == self.original@[self.possition@[k] as int],
        decreases self.len - p,
        {
            let idx = self.possition[p];
            let item = self.original[idx].duplicate();
            let ghost before = col@;
            col.insert(p, item);
            proof {
                assert(col@ =~= before.push(self.original@[self.possition@[p as int] as int]));
            }
            p += 1;
        }
    }

    /// Clears `comb` and writes the next combination into it; `false` when
    /// the walk is done, with nothing changed.
    pub fn next_combination(&mut self, comb: &mut Vec<T>) -> (r: bool)
        requires
            old(self).wf(),
        ensures
            final(self).wf(),
            final(self).pool() == old(self).pool(),
            final(self).draw_len() == old(self).draw_len(),
            r ==> final(comb)@.len() == old(self).draw_len() && (forall|k: int|
                0 <= k < old(self).draw_len() ==> #[trigger] final(comb)@[k] == final(self).pool()[final(self).cursors()[k] as int]) && sorted_by_le(final(comb)@),
            r && old(self).has_started() ==> cursors_advance(old(self).cursors(), final(self).cursors()),
            !r ==> final(self).cursors() == old(self).cursors() && final(comb)@ == old(
                comb,
            )@,
    {
        if !self.started {
            self.started = true;
            self.insert(comb);
            proof {
                self.lemma_selection_sorted();
            }
            return true;
        }
        let org_len = self.original.len();
        let lastpos0 = self.possition[self.len - 1];
        if eq_item(&self.original[lastpos0], &self.original[org_len - 1]) {
            // the last cursor is blocked: find the rightmost cursor that can
            // still move, and restart the tail right behind it
            let mut t: usize = 0;
            while self.len >= 2 && t <= self.len - 2
                invariant
                    t <= self.len,
                    self.wf(),
                    self == old(self),
                    comb@ == old(comb)@,
                    org_len == self.original@.len(),
                decreases self.len - t,
            {
                let i = t + 2;
                let pi = self.possition[self.len - i];
                if lt_item(&self.original[pi], &self.original[org_len - i]) {
                    let lastpos = pi;
                    proof {
                        // the pool index `org_len - i` lies beyond `lastpos`
                        if org_len - i <= lastpos {
                            if org_len - i < lastpos {
                                assert(self.original@[org_len - i].le_spec(
                                    &self.original@[lastpos as int],
                                ));
                            } else {
                                let ghost a = self.original@[lastpos as int];
                                T::le_total(&a, &a);
                            }
                            assert(false);
                        }
                    }
                    let mut j: usize = lastpos + 1;
                    while j < org_len
                        invariant
                            lastpos + 1 <= j <= org_len,
                            self.wf(),
                            self == old(self),
                            org_len == self.original@.len(),
                            lastpos == self.possition@[self.len - i],
                            2 <= i <= self.len,
                            lt_spec(
                                self.original@[lastpos as int],
                                self.original@[org_len - i],
                            ),
                            lastpos < org_len - i,
                            forall|m: int|
                                lastpos < m < j ==> !lt_spec(
                                    self.original@[lastpos as int],
                                    #[trigger] self.original@[m],
                                ),
                        decreases org_len - j,
                    {
                        if lt_item(&self.original[lastpos], &self.original[j]) {
                            proof {
                                // the scan stopped at the first larger item,
                                // so the tail of `i` cursors fits
                                assert(j <= org_len - i) by {
                                    if org_len - i < j {
                                        assert(!lt_spec(
                                            self.original@[lastpos as int],
                                            self.original@[org_len - i],
                                        ));
                                    }
                                }
                            }
                            let ghost posb = self.possition@;
                            let mut k: usize = 0;
                            while k < i
                                invariant
                                    k <= i <= self.len,
                                    j + i <= org_len,
                                    self.possition@.len() == self.len,
                                    self.original@ == old(self).original@,
                                    self.len == old(self).len,
                                    self.started == old(self).started,
                                    forall|m: int|
                                        0 <= m < self.len - i ==> #[trigger] self.possition@[m]
                                            == posb[m],
                                    forall|m: int|
                                        0 <= m < k ==> #[trigger] self.possition@[self.len - i + m]
                                            == j + m,
                                    forall|m: int|
                                        0 <= m < self.len ==> #[trigger] self.possition@[m]
                                            < org_len || m >= self.len - i,
                                    org_len == self.original@.len(),
                                    sorted_by_le(self.original@),
                                    forall|p: int, q: int|
                                        0 <= p < q < self.len - i ==> #[trigger] self.possition@[p]
                                            < #[trigger] self.possition@[q],
                                    self.len - i > 0 ==> posb[self.len - i - 1] < j,
                                decreases i - k,
                            {
                                self.possition[self.len - i + k] = j + k;
                                k += 1;
                            }
                            proof {
                                assert forall|p: int, q: int|
                                    0 <= p < q < self.len implies #[trigger] self.possition@[p]
                                    < #[trigger] self.possition@[q] by {
                                    if q < self.len - i {
                                    } else if p < self.len - i {
                                        assert(self.possition@[p] == posb[p]);
                                        if p < self.len - i - 1 {
                                            assert(posb[p] < posb[self.len - i - 1]);
                                        }
                                        let mq = q - (self.len - i);
                                        assert(self.possition@[self.len - i + mq] == j + mq);
                                    } else {
                                        let mp = p - (self.len - i);
                                        let mq = q - (self.len - i);
                                        assert(self.possition@[self.len - i + mp] == j + mp);
                                        assert(self.possition@[self.len - i + mq] == j + mq);
                                    }
                                }
                                assert forall|m: int|
                                    0 <= m < self.len implies #[trigger] self.possition@[m]
                                    < self.original@.len() by {
                                    if m >= self.len - i {
                                        let mm = m - (self.len - i);
                                        assert(self.possition@[self.len - i + mm] == j + mm);
                                    }
                                }
                                assert(1 <= self.len <= self.original@.len());
                                assert(self.wf());
                                // the cursor at the restart point moved forward
                                // while everything before it stayed put
                                assert(posb[self.len - i] == lastpos && lastpos < j);
                                assert(cursors_advance(posb, self.possition@)) by {
                                    let k = self.len - i;
                                    let mm = 0int;
                                    assert(self.possition@[self.len - i + mm] == j + mm);
                                    assert(posb[k] < self.possition@[k]);
                                    assert(forall|m: int|
                                        0 <= m < k ==> posb[m] == #[trigger] self.possition@[m]);
                                }
                            }
                            self.insert(comb);
                            proof {
                                self.lemma_selection_sorted();
                            }
                            return true;
                        }
                        j += 1;
                    }
                    // with a sorted pool the scan above always finds a larger
                    // item; nothing to do if it ever fell through
                }
                t += 1;
            }
            false
        } else {
            // advance the last cursor past every item of equal rank
            let start = self.possition[self.len - 1];
            proof {
                // `start` is not the last pool index, whose item ranks higher
                if start == org_len - 1 {
                    let ghost a = self.original@[start as int];
                    T::le_total(&a, &a);
                    assert(false);
                }
            }
            let mut i: usize = start + 1;
            while eq_item(&self.original[start], &self.original[i])
                invariant
                    start + 1 <= i < org_len,
                    self.wf(),
                    self == old(self),
                    org_len == self.original@.len(),
                    start == self.possition@[self.len - 1],
                    !eq_rank(self.original@[start as int], self.original@[org_len - 1]),
                decreases org_len - i,
            {
                proof {
                    if i == org_len - 1 {
                        assert(eq_rank(
                            self.original@[start as int],
                            self.original@[org_len - 1],
                        ));
                        assert(false);
                    }
                }
                i += 1;
            }
            let ghost posb = self.possition@;
            self.possition[self.len - 1] = i;
            proof {
                assert forall|p: int, q: int|
                    0 <= p < q < self.len implies #[trigger] self.possition@[p]
                    < #[trigger] self.possition@[q] by {
                    if q == self.len - 1 {
                        assert(self.possition@[p] == posb[p]);
                        if p < self.len - 1 {
                            assert(posb[p] <= posb[self.len - 1]);
                        }
                    }
                }
                assert(self.wf());
                // only the last cursor moved, and it moved forward
                assert(cursors_advance(posb, self.possition@)) by {
                    let k = self.len - 1;
                    assert(posb[k] == start && start < i);
                    assert(forall|m: int|
                        0 <= m < k ==> posb[m] == #[trigger] self.possition@[m]);
                }
            }
            self.insert(comb);
            proof {
                self.lemma_selection_sorted();
            }
            true
        }
    }

    /// The cursors always stay inside the pool.
    pub proof fn lemma_cursor_bounds(&self)
        requires
            self.wf(),
        ensures
            self.cursors().len() == self.draw_len(),
            forall|k: int|
                0 <= k < self.cursors().len() ==> (#[trigger] self.cursors()[k]) < self.pool().len(),
    {
    }

    /// Items drawn along strictly increasing cursors of a sorted pool stand
    /// in nondecreasing order.
    proof fn lemma_selection_sorted(&self)
        requires
            self.wf(),
        ensures
            forall|s: Seq<T>|
                (s.len() == self.len && (forall|k: int|
                    0 <= k < self.len ==> #[trigger] s[k] == self.original@[self.possition@[k] as int]))
                    ==> sorted_by_le(s),
    {
        assert forall|s: Seq<T>|
            (s.len() == self.len && (forall|k: int|
                0 <= k < self.len ==> #[trigger] s[k] == self.original@[self.possition@[k] as int]))
                implies sorted_by_le(s) by {
            assert forall|p: int, q: int| 0 <= p < q < s.len() implies #[trigger] s[p].le_spec(
                &s[q],
            ) by {
                assert(self.possition@[p] < self.possition@[q]);
                assert(self.original@[self.possition@[p] as int].le_spec(
                    &self.original@[self.possition@[q] as int],
                ));
            }
        }
    }
}

/// Elements of a flattened nested sequence all come from its groups.
pub proof fn lemma_flatten_elements<T>(s: Seq<Seq<T>>, pred: spec_fn(T) -> bool)
    requires
        forall|b: int, g: int| 0 <= b < s.len() && 0 <= g < s[b].len() ==> pred(#[trigger] s[b][g]),
    ensures
        forall|k: int| 0 <= k < s.flatten().len() ==> pred(#[trigger] s.flatten()[k]),
    decreases s.len(),
{
    if s.len() > 0 {
        let d = s.drop_last();
        assert(forall|b: int, g: int|
            0 <= b < d.len() && 0 <= g < d[b].len() ==> pred(#[trigger] d[b][g]));
        lemma_flatten_elements(d, pred);
        assert(s =~= d.push(s.last()));
        d.lemma_flatten_push(s.last());
        assert forall|k: int| 0 <= k < s.flatten().len() implies pred(#[trigger] s.flatten()[k]) by {
            assert(s.flatten() == d.flatten() + s.last());
            if k < d.flatten().len() {
                assert(s.flatten()[k] == d.flatten()[k]);
            } else {
                assert(s.flatten()[k] == s[s.len() - 1][k - d.flatten().len()]);
            }
        }
    }
}

} // verus!
