//! Sources, amalgams and the domain-extraction pipeline.
use vstd::prelude::*;
use vstd::string::*;
use crate::Arguments;
use crate::text::{
    lemma_lex_conn, lemma_lex_le_trans, lemma_lex_trans, lex_le, lex_lt, normalize_spec, split_uws,
    str_chars, str_views, string_from_chars, tokens_uws,
};
use crate::utils::{dns_name_ok, is_domain, lower_of, lowercase, OrderedItem};
use indexmap::IndexSet;
use std::collections::hash_map::RandomState;

verus! {

/// A validated domain name.
pub type Domain = String;

/// A label attached to sources and products.
pub type Tag = String;

pub type Tags = Vec<Tag>;

/// An insertion-ordered set of unique domains.
pub type Domains = IndexSet<Domain, RandomState>;

/// Declares indexmap's `IndexSet` so domain sets can stand in fields and
/// signatures; its contents are reached through [`domain_elems`].
#[verifier::external_type_specification]
#[verifier::external_body]
#[verifier::reject_recursive_types(T)]
#[verifier::reject_recursive_types(S)]
pub struct ExIndexSet<T, S>(IndexSet<T, S>);

/// What a domain set holds, in insertion order.
pub uninterp spec fn domain_elems(s: Domains) -> Seq<Seq<char>>;

/// No element occurs twice.
pub open spec fn distinct_seq(s: Seq<Seq<char>>) -> bool {
    forall|i: int, j: int| #![trigger s[i], s[j]] 0 <= i < j < s.len() ==> s[i] != s[j]
}

/// Relies on indexmap's `IndexSet::new`: a new set is empty.
#[verifier::external_body]
fn domains_new() -> (s: Domains)
    ensures
        domain_elems(s) == Seq::<Seq<char>>::empty(),
{
    IndexSet::new()
}

/// Relies on indexmap's `IndexSet::insert`: a value that is already present
/// leaves the set unchanged and yields `false`; a new value goes to the end
/// and yields `true`.
#[verifier::external_body]
fn domains_insert(s: &mut Domains, v: String) -> (r: bool)
    ensures
        domain_elems(*old(s)).contains(v@) ==> !r && domain_elems(*final(s)) == domain_elems(
            *old(s),
        ),
        !domain_elems(*old(s)).contains(v@) ==> r && domain_elems(*final(s)) == domain_elems(
            *old(s),
        ).push(v@),
{
    s.insert(v)
}

/// Relies on indexmap's `IndexSet::len`.
#[verifier::external_body]
fn domains_len(s: &Domains) -> (n: usize)
    ensures
        n == domain_elems(*s).len(),
{
    s.len()
}

/// Relies on indexmap's `IndexSet::iter`: it yields the elements in
/// insertion order.
#[verifier::external_body]
fn domains_vec(s: &Domains) -> (v: Vec<String>)
    ensures
        str_views(v@) == domain_elems(*s),
{
    s.iter().cloned().collect()
}

/// An entry of a hosts file.
pub struct Host {
}

/// One ingested hosts list: its origin, raw lines, leading comment block,
/// and the extracted domain, duplicate and invalid sets.
pub struct Hostssource {
    pub _name: String,
    pub location: String,
    pub raw_list: Vec<Domain>,
    pub front_matter: Vec<String>,
    pub domains: Domains,
    pub duplicates: Domains,
    pub invalids: Domains,
    pub args: Arguments,
}

impl Default for Hostssource {
    /// An empty source with no options set.
    fn default() -> (r: Self)
        ensures
            r._name@ == Seq::<char>::empty(),
            r.location@ == Seq::<char>::empty(),
            r.raw_list@ == Seq::<String>::empty(),
            r.front_matter@ == Seq::<String>::empty(),
            domain_elems(r.domains) == Seq::<Seq<char>>::empty(),
            domain_elems(r.duplicates) == Seq::<Seq<char>>::empty(),
            domain_elems(r.invalids) == Seq::<Seq<char>>::empty(),
            r.args.is_default(),
    {
        Hostssource {
            _name: String::new(),
            location: String::new(),
            raw_list: Vec::new(),
            front_matter: Vec::new(),
            domains: domains_new(),
            duplicates: domains_new(),
            invalids: domains_new(),
            args: Arguments::default(),
        }
    }
}

// --- the normalization pipeline, modeled over line views ---------------------

/// The distinct nonempty normalized forms of the raw lines, in first-seen
/// order: the "lines seen" set after trimming.
pub open spec fn seen_lines(raws: Seq<Seq<char>>) -> Seq<Seq<char>>
    decreases raws.len(),
{
    if raws.len() == 0 {
        Seq::empty()
    } else {
        let p = seen_lines(raws.drop_last());
        let l = normalize_spec(raws.last());
        if l.len() == 0 || p.contains(l) {
            p
        } else {
            p.push(l)
        }
    }
}

/// The normalized lines that were seen more than once, in the order their
/// first repetition appeared.
pub open spec fn line_dups(raws: Seq<Seq<char>>) -> Seq<Seq<char>>
    decreases raws.len(),
{
    if raws.len() == 0 {
        Seq::empty()
    } else {
        let d = line_dups(raws.drop_last());
        let l = normalize_spec(raws.last());
        if l.len() > 0 && seen_lines(raws.drop_last()).contains(l) && !d.contains(l) {
            d.push(l)
        } else {
            d
        }
    }
}

/// Whether a line opens a comment.
pub open spec fn is_comment_line(l: Seq<char>) -> bool {
    l.len() > 0 && l[0] == '#'
}

/// The leading run of comment lines.
pub open spec fn front_matter_of(raws: Seq<Seq<char>>) -> Seq<Seq<char>>
    decreases raws.len(),
{
    if raws.len() == 0 {
        Seq::empty()
    } else if is_comment_line(raws[0]) {
        seq![raws[0]] + front_matter_of(raws.drop_first())
    } else {
        Seq::empty()
    }
}

/// The lines left after dropping blanks.
pub open spec fn drop_blanks(ls: Seq<Seq<char>>) -> Seq<Seq<char>>
    decreases ls.len(),
{
    if ls.len() == 0 {
        ls
    } else {
        let p = drop_blanks(ls.drop_last());
        if ls.last().len() == 0 {
            p
        } else {
            p.push(ls.last())
        }
    }
}

/// The lines left after dropping comment lines.
pub open spec fn drop_comments(ls: Seq<Seq<char>>) -> Seq<Seq<char>>
    decreases ls.len(),
{
    if ls.len() == 0 {
        ls
    } else {
        let p = drop_comments(ls.drop_last());
        if is_comment_line(ls.last()) {
            p
        } else {
            p.push(ls.last())
        }
    }
}

impl Hostssource {
    /// Normalizes every raw line and collects the distinct nonempty results
    /// into `domains` — at this stage a set of lines — recording repeats in
    /// `duplicates`.
    pub fn trimlines(&mut self)
        requires
            domain_elems(old(self).domains) == Seq::<Seq<char>>::empty(),
            domain_elems(old(self).duplicates) == Seq::<Seq<char>>::empty(),
        ensures
            domain_elems(final(self).domains) == seen_lines(str_views(old(self).raw_list@)),
            domain_elems(final(self).duplicates) == line_dups(str_views(old(self).raw_list@)),
            final(self).raw_list == old(self).raw_list,
            final(self)._name == old(self)._name,
            final(self).location == old(self).location,
            final(self).front_matter == old(self).front_matter,
            final(self).invalids == old(self).invalids,
            final(self).args == old(self).args,
    {
        let n = self.raw_list.len();
        let mut i: usize = 0;
        while i < n
            invariant
                i <= n,
                n == self.raw_list@.len(),
                self.raw_list == old(self).raw_list,
                self._name == old(self)._name,
                self.location == old(self).location,
                self.front_matter == old(self).front_matter,
                self.invalids == old(self).invalids,
                self.args == old(self).args,
                domain_elems(self.domains) == seen_lines(str_views(self.raw_list@).take(i as int)),
                domain_elems(self.duplicates) == line_dups(str_views(self.raw_list@).take(i as int)),
            decreases n - i,
        {
            let line = crate::utils::norm_string(self.raw_list[i].as_str());
            let line = crate::utils::trim_inline_comments(line);
            proof {
                assert(line@ == normalize_spec(self.raw_list@[i as int]@));
            }
            if line.unicode_len() > 0 {
                let fresh = domains_insert(&mut self.domains, line.clone());
                if !fresh {
                    domains_insert(&mut self.duplicates, line);
                }
            }
            proof {
                let rv = str_views(self.raw_list@);
                assert(rv.take(i + 1 as int).drop_last() =~= rv.take(i as int));
                assert(rv.take(i + 1 as int).last() == self.raw_list@[i as int]@);
            }
            i += 1;
        }
        proof {
            assert(str_views(self.raw_list@).take(n as int) =~= str_views(self.raw_list@));
        }
    }

    /// Drops empty lines from the working set; trimming never stores one, so
    /// this keeps the set as it stands.
    pub fn removeblanklines(&mut self)
        requires
            distinct_seq(domain_elems(old(self).domains)),
        ensures
            domain_elems(final(self).domains) == drop_blanks(domain_elems(old(self).domains)),
            final(self).raw_list == old(self).raw_list,
            final(self)._name == old(self)._name,
            final(self).location == old(self).location,
            final(self).front_matter == old(self).front_matter,
            final(self).duplicates == old(self).duplicates,
            final(self).invalids == old(self).invalids,
            final(self).args == old(self).args,
    {
        let lines = domains_vec(&self.domains);
        let mut kept: Domains = domains_new();
        let n = lines.len();
        let mut i: usize = 0;
        while i < n
            invariant
                i <= n,
                n == lines@.len(),
                str_views(lines@) == domain_elems(self.domains),
                domain_elems(kept) == dedup(drop_blanks(str_views(lines@).take(i as int))),
            decreases n - i,
        {
            proof {
                let lv = str_views(lines@);
                assert(lv.take(i + 1 as int).drop_last() =~= lv.take(i as int));
                assert(lv.take(i + 1 as int).last() == lines@[i as int]@);
            }
            let line = &lines[i];
            if line.unicode_len() > 0 {
                domains_insert(&mut kept, line.clone());
                proof {
                    lemma_dedup_push(drop_blanks(str_views(lines@).take(i as int)), lines@[i as int]@);
                }
            }
            i += 1;
        }
        proof {
            let lv = str_views(lines@);
            assert(lv.take(n as int) =~= lv);
        }
        self.domains = kept;
        proof {
            lemma_drop_blanks_distinct(domain_elems(old(self).domains));
            lemma_dedup_distinct(drop_blanks(domain_elems(old(self).domains)));
        }
    }

    /// Records the contiguous leading comment block of the raw lines.
    pub fn frontmatter(&mut self)
        requires
            old(self).front_matter@ == Seq::<String>::empty(),
        ensures
            str_views(final(self).front_matter@) == front_matter_of(str_views(old(self).raw_list@)),
            final(self).raw_list == old(self).raw_list,
            final(self)._name == old(self)._name,
            final(self).location == old(self).location,
            final(self).domains == old(self).domains,
            final(self).duplicates == old(self).duplicates,
            final(self).invalids == old(self).invalids,
            final(self).args == old(self).args,
    {
        let n = self.raw_list.len();
        let mut i: usize = 0;
        let mut stopped = false;
        while i < n && !stopped
            invariant
                i <= n,
                n == self.raw_list@.len(),
                self.raw_list == old(self).raw_list,
                self._name == old(self)._name,
                self.location == old(self).location,
                self.domains == old(self).domains,
                self.duplicates == old(self).duplicates,
                self.invalids == old(self).invalids,
                self.args == old(self).args,
                forall|k: int|
                    0 <= k < i ==> is_comment_line(#[trigger] str_views(self.raw_list@)[k]),
                stopped ==> i < n && !is_comment_line(str_views(self.raw_list@)[i as int]),
                str_views(self.front_matter@) == str_views(self.raw_list@).take(i as int),
            decreases n - i, if stopped { 0int } else { 1int },
        {
            let line = &self.raw_list[i];
            let starts_hash = line.unicode_len() > 0 && line.as_str().get_char(0) == '#';
            if starts_hash {
                let cl = line.clone();
                proof {
                    assert(cl@ == self.raw_list@[i as int]@);
                }
                let ghost fm0 = self.front_matter@;
                self.front_matter.push(cl);
                proof {
                    let rv = str_views(self.raw_list@);
                    assert(str_views(fm0).len() == fm0.len());
                    assert(fm0.len() == i as int);
                    assert(self.front_matter@ == fm0.push(cl));
                    assert forall|k: int|
                        0 <= k <= i implies str_views(self.front_matter@)[k] == rv.take(
                        i + 1 as int,
                    )[k] by {
                        if k < i {
                            assert(str_views(fm0)[k] == rv.take(i as int)[k]);
                            assert(self.front_matter@[k] == fm0[k]);
                        } else {
                            assert(self.front_matter@[k]@ == rv[k]);
                        }
                    }
                    assert(str_views(self.front_matter@) =~= rv.take(i + 1 as int));
                }
                i += 1;
            } else {
                stopped = true;
            }
        }
        proof {
            lemma_front_matter_prefix(str_views(self.raw_list@), i as int);
        }
    }

    /// Drops comment lines from the working set.
    pub fn removecommentlines(&mut self)
        requires
            distinct_seq(domain_elems(old(self).domains)),
        ensures
            domain_elems(final(self).domains) == drop_comments(domain_elems(old(self).domains)),
            final(self).raw_list == old(self).raw_list,
            final(self)._name == old(self)._name,
            final(self).location == old(self).location,
            final(self).front_matter == old(self).front_matter,
            final(self).duplicates == old(self).duplicates,
            final(self).invalids == old(self).invalids,
            final(self).args == old(self).args,
    {
        let lines = domains_vec(&self.domains);
        let mut kept: Domains = domains_new();
        let n = lines.len();
        let mut i: usize = 0;
        while i < n
            invariant
                i <= n,
                n == lines@.len(),
                str_views(lines@) == domain_elems(self.domains),
                domain_elems(kept) == dedup(drop_comments(str_views(lines@).take(i as int))),
            decreases n - i,
        {
            proof {
                let lv = str_views(lines@);
                assert(lv.take(i + 1 as int).drop_last() =~= lv.take(i as int));
                assert(lv.take(i + 1 as int).last() == lines@[i as int]@);
            }
            let line = &lines[i];
            let starts_hash = line.unicode_len() > 0 && line.as_str().get_char(0) == '#';
            if !starts_hash {
                domains_insert(&mut kept, line.clone());
                proof {
                    lemma_dedup_push(
                        drop_comments(str_views(lines@).take(i as int)),
                        lines@[i as int]@,
                    );
                }
            }
            i += 1;
        }
        proof {
            let lv = str_views(lines@);
            assert(lv.take(n as int) =~= lv);
        }
        self.domains = kept;
        proof {
            lemma_drop_comments_distinct(domain_elems(old(self).domains));
            lemma_dedup_distinct(drop_comments(domain_elems(old(self).domains)));
        }
    }
}

// --- domain extraction --------------------------------------------------------

/// The running extraction state: domains, duplicates and invalids seen so far.
pub type ExtractState = (Seq<Seq<char>>, Seq<Seq<char>>, Seq<Seq<char>>);

/// Set-style insertion: already-present values change nothing.
pub open spec fn push_unique(s: Seq<Seq<char>>, t: Seq<char>) -> Seq<Seq<char>> {
    if s.contains(t) {
        s
    } else {
        s.push(t)
    }
}

/// The sink addresses and hosts-file aliases that are skipped without being
/// flagged invalid.
pub open spec fn is_sink_token(t: Seq<char>) -> bool {
    ||| t == "0.0.0.0"@
    ||| t == "127.0.0.1"@
    ||| t == "255.255.255.255"@
    ||| t == "::1"@
    ||| t == "broadcasthost"@
    ||| t == "fe80::1%lo0"@
    ||| t == "ff00::0"@
    ||| t == "ff02::1"@
    ||| t == "ff02::2"@
    ||| t == "ff02::3"@
    ||| t == "ip6-allhosts"@
    ||| t == "ip6-allnodes"@
    ||| t == "ip6-allrouters"@
    ||| t == "ip6-localhost"@
    ||| t == "ip6-localnet"@
    ||| t == "ip6-loopback"@
    ||| t == "ip6-mcastprefix"@
    ||| t == "local"@
    ||| t == "localhost"@
    ||| t == "localhost.localdomain"@
}

/// How one token moves the extraction state: sinks are skipped, valid
/// domains collected (repeats into duplicates), the rest into invalids.
pub open spec fn extract_token(st: ExtractState, t: Seq<char>) -> ExtractState {
    if is_sink_token(t) {
        st
    } else if t.contains('.') && dns_name_ok(t) {
        if st.0.contains(t) {
            (st.0, push_unique(st.1, t), st.2)
        } else {
            (st.0.push(t), st.1, st.2)
        }
    } else {
        (st.0, st.1, push_unique(st.2, t))
    }
}

pub open spec fn extract_tokens(st: ExtractState, ts: Seq<Seq<char>>) -> ExtractState
    decreases ts.len(),
{
    if ts.len() == 0 {
        st
    } else {
        extract_token(extract_tokens(st, ts.drop_last()), ts.last())
    }
}

pub open spec fn extract_lines(st: ExtractState, ls: Seq<Seq<char>>) -> ExtractState
    decreases ls.len(),
{
    if ls.len() == 0 {
        st
    } else {
        extract_tokens(extract_lines(st, ls.drop_last()), tokens_uws(ls.last()))
    }
}

/// Whether a string equals a given slice, character for character.
pub(crate) fn string_eq(a: &String, lit: &str) -> (r: bool)
    ensures
        r == (a@ == lit@),
{
    let b = String::from_str(lit);
    a.eq(&b)
}

fn is_sink(tok: &String) -> (r: bool)
    ensures
        r == is_sink_token(tok@),
{
    string_eq(tok, "0.0.0.0") || string_eq(tok, "127.0.0.1") || string_eq(
        tok,
        "255.255.255.255",
    ) || string_eq(tok, "::1") || string_eq(tok, "broadcasthost") || string_eq(
        tok,
        "fe80::1%lo0",
    ) || string_eq(tok, "ff00::0") || string_eq(tok, "ff02::1") || string_eq(tok, "ff02::2")
        || string_eq(tok, "ff02::3") || string_eq(tok, "ip6-allhosts") || string_eq(
        tok,
        "ip6-allnodes",
    ) || string_eq(tok, "ip6-allrouters") || string_eq(tok, "ip6-localhost") || string_eq(
        tok,
        "ip6-localnet",
    ) || string_eq(tok, "ip6-loopback") || string_eq(tok, "ip6-mcastprefix") || string_eq(
        tok,
        "local",
    ) || string_eq(tok, "localhost") || string_eq(tok, "localhost.localdomain")
}

impl Hostssource {
    /// Splits every working line into tokens and extracts the valid domains,
    /// skipping sink addresses and aliases; repeats land in `duplicates` and
    /// failed tokens in `invalids`.
    pub fn extract_domains(&mut self)
        ensures
            ({
                let st = extract_lines(
                    (
                        Seq::<Seq<char>>::empty(),
                        domain_elems(old(self).duplicates),
                        domain_elems(old(self).invalids),
                    ),
                    domain_elems(old(self).domains),
                );
                &&& domain_elems(final(self).domains) == st.0
                &&& domain_elems(final(self).duplicates) == st.1
                &&& domain_elems(final(self).invalids) == st.2
            }),
            final(self).raw_list == old(self).raw_list,
            final(self)._name == old(self)._name,
            final(self).location == old(self).location,
            final(self).front_matter == old(self).front_matter,
            final(self).args == old(self).args,
    {
        let lines = domains_vec(&self.domains);
        let mut result: Domains = domains_new();
        let ghost st0 = (
            Seq::<Seq<char>>::empty(),
            domain_elems(self.duplicates),
            domain_elems(self.invalids),
        );
        let n = lines.len();
        let mut i: usize = 0;
        while i < n
            invariant
                i <= n,
                n == lines@.len(),
                self.raw_list == old(self).raw_list,
                self._name == old(self)._name,
                self.location == old(self).location,
                self.front_matter == old(self).front_matter,
                self.args == old(self).args,
                self.domains == old(self).domains,
                st0 == (
                    Seq::<Seq<char>>::empty(),
                    domain_elems(old(self).duplicates),
                    domain_elems(old(self).invalids),
                ),
                (
                    domain_elems(result),
                    domain_elems(self.duplicates),
                    domain_elems(self.invalids),
                ) == extract_lines(st0, str_views(lines@).take(i as int)),
            decreases n - i,
        {
            proof {
                let lv = str_views(lines@);
                assert(lv.take(i + 1 as int).drop_last() =~= lv.take(i as int));
                assert(lv.take(i + 1 as int).last() == lines@[i as int]@);
            }
            let toks = split_uws(lines[i].as_str());
            let ghost line_st = extract_lines(st0, str_views(lines@).take(i as int));
            let m = toks.len();
            let mut j: usize = 0;
            while j < m
                invariant
                    j <= m,
                    m == toks@.len(),
                    str_views(toks@) == tokens_uws(lines@[i as int]@),
                    self.raw_list == old(self).raw_list,
                    self._name == old(self)._name,
                    self.location == old(self).location,
                    self.front_matter == old(self).front_matter,
                    self.args == old(self).args,
                    self.domains == old(self).domains,
                    (
                        domain_elems(result),
                        domain_elems(self.duplicates),
                        domain_elems(self.invalids),
                    ) == extract_tokens(line_st, str_views(toks@).take(j as int)),
                decreases m - j,
            {
                proof {
                    let tv = str_views(toks@);
                    assert(tv.take(j + 1 as int).drop_last() =~= tv.take(j as int));
                    assert(tv.take(j + 1 as int).last() == toks@[j as int]@);
                }
                let tok = &toks[j];
                if !is_sink(tok) {
                    if is_domain(tok.as_str()) {
                        let fresh = domains_insert(&mut result, tok.clone());
                        if !fresh {
                            domains_insert(&mut self.duplicates, tok.clone());
                        }
                    } else {
                        domains_insert(&mut self.invalids, tok.clone());
                    }
                }
                j += 1;
            }
            proof {
                assert(str_views(toks@).take(m as int) =~= str_views(toks@));
            }
            i += 1;
        }
        proof {
            assert(str_views(lines@).take(n as int) =~= str_views(lines@));
        }
        self.domains = result;
    }
}

// --- hierarchical domain order ------------------------------------------------

/// The segments of `s` between occurrences of `sep`, empties kept.
pub open spec fn split_char(s: Seq<char>, sep: char) -> Seq<Seq<char>>
    decreases s.len(),
{
    if s.len() == 0 {
        seq![Seq::<char>::empty()]
    } else {
        let p = split_char(s.drop_last(), sep);
        if s.last() == sep {
            p.push(Seq::empty())
        } else {
            p.update(p.len() - 1, p[p.len() - 1].push(s.last()))
        }
    }
}

/// The segments joined back with `sep`.
pub open spec fn join_char(ps: Seq<Seq<char>>, sep: char) -> Seq<char>
    decreases ps.len(),
{
    if ps.len() == 0 {
        Seq::empty()
    } else if ps.len() == 1 {
        ps[0]
    } else {
        join_char(ps.drop_last(), sep) + seq![sep] + ps[ps.len() - 1]
    }
}

/// The final label of a domain.
pub open spec fn tld_part(d: Seq<char>) -> Seq<char> {
    let p = split_char(d, '.');
    p[p.len() - 1]
}

/// The second-to-last label, or nothing if there is only one.
pub open spec fn root_part(d: Seq<char>) -> Seq<char> {
    let p = split_char(d, '.');
    if p.len() >= 2 {
        p[p.len() - 2]
    } else {
        Seq::empty()
    }
}

/// Everything before the root label, dot-joined.
pub open spec fn sub_prefix(d: Seq<char>) -> Seq<char> {
    let p = split_char(d, '.');
    if p.len() >= 2 {
        join_char(p.take(p.len() - 2), '.')
    } else {
        Seq::empty()
    }
}

/// The hierarchical order: by root label, then subdomain prefix, then TLD.
pub open spec fn hier_le(a: Seq<char>, b: Seq<char>) -> bool {
    if root_part(a) != root_part(b) {
        lex_lt(root_part(a), root_part(b))
    } else if sub_prefix(a) != sub_prefix(b) {
        lex_lt(sub_prefix(a), sub_prefix(b))
    } else {
        lex_le(tld_part(a), tld_part(b))
    }
}

/// Every pair stands in hierarchical order.
pub open spec fn hier_ordered(s: Seq<Seq<char>>) -> bool {
    forall|i: int, j: int| 0 <= i < j < s.len() ==> #[trigger] hier_le(s[i], s[j])
}

proof fn lemma_hier_total(a: Seq<char>, b: Seq<char>)
    ensures
        hier_le(a, b) || hier_le(b, a),
{
    lemma_lex_conn(root_part(a), root_part(b));
    lemma_lex_conn(sub_prefix(a), sub_prefix(b));
    lemma_lex_conn(tld_part(a), tld_part(b));
}

proof fn lemma_hier_trans(a: Seq<char>, b: Seq<char>, c: Seq<char>)
    requires
        hier_le(a, b),
        hier_le(b, c),
    ensures
        hier_le(a, c),
{
    lemma_lex_conn(root_part(a), root_part(b));
    lemma_lex_conn(root_part(b), root_part(c));
    lemma_lex_conn(root_part(a), root_part(c));
    lemma_lex_conn(sub_prefix(a), sub_prefix(b));
    lemma_lex_conn(sub_prefix(b), sub_prefix(c));
    lemma_lex_conn(sub_prefix(a), sub_prefix(c));
    if root_part(a) != root_part(b) {
        if root_part(b) != root_part(c) {
            lemma_lex_trans(root_part(a), root_part(b), root_part(c));
        }
    } else if root_part(b) != root_part(c) {
    } else {
        // equal roots throughout: settle on the subdomain prefix
        if sub_prefix(a) != sub_prefix(b) {
            if sub_prefix(b) != sub_prefix(c) {
                lemma_lex_trans(sub_prefix(a), sub_prefix(b), sub_prefix(c));
            }
        } else if sub_prefix(b) != sub_prefix(c) {
        } else {
            lemma_lex_le_trans(tld_part(a), tld_part(b), tld_part(c));
        }
    }
}

/// The segments of a string around a separator, as owned strings.
pub(crate) fn split_on(s: &str, sep: char) -> (v: Vec<String>)
    ensures
        str_views(v@) == split_char(s@, sep),
        v@.len() >= 1,
{
    let n = s.unicode_len();
    let mut out: Vec<String> = Vec::new();
    let mut cur: Vec<char> = Vec::new();
    let mut i: usize = 0;
    while i < n
        invariant
            i <= n,
            n == s@.len(),
            split_char(s@.take(i as int), sep) == str_views(out@).push(cur@),
        decreases n - i,
    {
        let c = s.get_char(i);
        proof {
            let q = s@.take(i as int + 1);
            assert(q.drop_last() =~= s@.take(i as int));
            assert(q[q.len() - 1] == s@[i as int]);
        }
        if c == sep {
            let ghost out0 = out@;
            let ghost cur0 = cur@;
            let seg = string_from_chars(&cur);
            out.push(seg);
            cur = Vec::new();
            proof {
                let p = split_char(s@.take(i as int), sep);
                assert(split_char(s@.take(i as int + 1), sep) == p.push(Seq::<char>::empty()));
                assert(str_views(out@).push(cur@) =~~= p.push(Seq::<char>::empty()));
            }
        } else {
            let ghost cur0 = cur@;
            cur.push(c);
            proof {
                let p = split_char(s@.take(i as int), sep);
                assert(p == str_views(out@).push(cur0));
                assert(p.len() >= 1);
                let p2 = p.update(p.len() - 1, p[p.len() - 1].push(s@[i as int]));
                assert(split_char(s@.take(i as int + 1), sep) == p2);
                assert(p2.drop_last() =~= str_views(out@));
                assert(p2[p2.len() - 1] == cur@);
                assert(p2 =~= str_views(out@).push(cur@));
            }
        }
        i += 1;
    }
    proof {
        assert(s@.take(n as int) =~= s@);
    }
    let seg = string_from_chars(&cur);
    let ghost out0 = out@;
    out.push(seg);
    proof {
        assert(str_views(out@) =~= str_views(out0).push(cur@));
    }
    out
}

/// Dot-joins the first `upto` segments.
fn join_parts(parts: &Vec<String>, upto: usize) -> (r: String)
    requires
        upto <= parts@.len(),
    ensures
        r@ == join_char(str_views(parts@).take(upto as int), '.'),
{
    let mut acc: Vec<char> = Vec::new();
    let mut k: usize = 0;
    while k < upto
        invariant
            k <= upto <= parts@.len(),
            acc@ == join_char(str_views(parts@).take(k as int), '.'),
        decreases upto - k,
    {
        proof {
            let pv = str_views(parts@);
            assert(pv.take(k as int + 1).drop_last() =~= pv.take(k as int));
            assert(pv.take(k as int + 1)[k as int] == parts@[k as int]@);
        }
        if k > 0 {
            acc.push('.');
        }
        let seg = str_chars(parts[k].as_str());
        let mut m: usize = 0;
        let seg_len = seg.len();
        let ghost acc1 = acc@;
        while m < seg_len
            invariant
                m <= seg_len,
                seg_len == seg@.len(),
                acc@ == acc1 + seg@.take(m as int),
            decreases seg_len - m,
        {
            acc.push(seg[m]);
            proof {
                assert(acc@ =~= acc1 + seg@.take(m as int + 1));
            }
            m += 1;
        }
        proof {
            assert(seg@.take(seg_len as int) =~= seg@);
            let pv = str_views(parts@);
            if k == 0 {
                assert(join_char(pv.take(1), '.') == pv.take(1)[0]);
                assert(acc@ =~= pv.take(1)[0]);
            } else {
                assert(join_char(pv.take(k as int + 1), '.') == join_char(
                    pv.take(k as int),
                    '.',
                ) + seq!['.'] + pv.take(k as int + 1)[k as int]);
                assert(acc@ =~= join_char(pv.take(k as int), '.') + seq!['.'] + pv.take(
                    k as int + 1,
                )[k as int]);
            }
        }
        k += 1;
    }
    string_from_chars(&acc)
}

/// Whether `a` comes no later than `b` in the hierarchical domain order.
fn hier_le_exec(a: &String, b: &String) -> (r: bool)
    ensures
        r == hier_le(a@, b@),
{
    let pa = split_on(a.as_str(), '.');
    let pb = split_on(b.as_str(), '.');
    let root_a = if pa.len() >= 2 {
        pa[pa.len() - 2].clone()
    } else {
        String::new()
    };
    let root_b = if pb.len() >= 2 {
        pb[pb.len() - 2].clone()
    } else {
        String::new()
    };
    proof {
        assert(root_a@ == root_part(a@));
        assert(root_b@ == root_part(b@));
    }
    if !root_a.eq(&root_b) {
        return crate::text::str_lex_lt(root_a.as_str(), root_b.as_str());
    }
    let sub_a = if pa.len() >= 2 {
        join_parts(&pa, pa.len() - 2)
    } else {
        String::new()
    };
    let sub_b = if pb.len() >= 2 {
        join_parts(&pb, pb.len() - 2)
    } else {
        String::new()
    };
    proof {
        assert(sub_a@ == sub_prefix(a@));
        assert(sub_b@ == sub_prefix(b@));
    }
    if !sub_a.eq(&sub_b) {
        return crate::text::str_lex_lt(sub_a.as_str(), sub_b.as_str());
    }
    let tld_a = pa[pa.len() - 1].clone();
    let tld_b = pb[pb.len() - 1].clone();
    proof {
        assert(tld_a@ == tld_part(a@));
        assert(tld_b@ == tld_part(b@));
    }
    !crate::text::str_lex_lt(tld_b.as_str(), tld_a.as_str())
}

/// Sorts domains in place into hierarchical order.
fn sort_hier(v: &mut Vec<String>)
    ensures
        hier_ordered(str_views(final(v)@)),
        str_views(final(v)@).to_multiset() == str_views(old(v)@).to_multiset(),
        final(v)@.len() == old(v)@.len(),
{
    let ghost ms0 = str_views(old(v)@).to_multiset();
    proof {
        str_views(old(v)@).to_multiset_ensures();
    }
    if v.len() < 2 {
        return ;
    }
    let n = v.len();
    let mut i: usize = 1;
    while i < n
        invariant
            1 <= i <= n,
            v@.len() == n,
            str_views(v@).to_multiset() == ms0,
            hier_ordered(str_views(v@).take(i as int)),
        decreases n - i,
    {
        let ghost before = str_views(v@);
        let x = v.remove(i);
        proof {
            before.to_multiset_ensures();
            assert(str_views(v@) =~= before.remove(i as int));
            assert(str_views(v@).to_multiset() == ms0.remove(x@));
            assert(str_views(v@).take(i as int) =~= before.take(i as int));
        }
        let mut j: usize = i;
        while j > 0 && !(hier_le_exec(&v[j - 1], &x))
            invariant
                j <= i < n,
                v@.len() == n - 1,
                str_views(v@) == before.remove(i as int),
                hier_ordered(str_views(v@).take(i as int)),
                forall|k: int| j <= k < i ==> #[trigger] hier_le(x@, str_views(v@)[k]),
            decreases j,
        {
            proof {
                lemma_hier_total(str_views(v@)[j - 1], x@);
            }
            j -= 1;
        }
        let ghost mid = str_views(v@);
        proof {
            assert forall|p: int| 0 <= p < j implies #[trigger] hier_le(mid[p], x@) by {
                assert(hier_le(mid[j - 1], x@));
                if p < j - 1 {
                    assert(hier_le(mid[p], mid[j - 1]));
                    lemma_hier_trans(mid[p], mid[j - 1], x@);
                }
            }
        }
        let ghost xv = x@;
        v.insert(j, x);
        proof {
            assert(str_views(v@) =~= mid.insert(j as int, xv));
            crate::utils::lemma_multiset_insert(mid, j as int, xv);
            assert(str_views(v@).to_multiset() =~= ms0) by {
                assert(ms0.count(xv) > 0) by {
                    before.to_multiset_ensures();
                    assert(before.contains(xv)) by {
                        assert(before[i as int] == xv);
                    }
                }
            }
            assert forall|p: int, q: int|
                0 <= p < q < i + 1 implies #[trigger] hier_le(
                str_views(v@)[p],
                str_views(v@)[q],
            ) by {
                let a = str_views(v@)[p];
                let b = str_views(v@)[q];
                if q < j {
                    assert(a == mid[p] && b == mid[q]);
                    assert(hier_le(mid[p], mid[q]));
                } else if q == j {
                    assert(b == xv && a == mid[p]);
                    assert(hier_le(mid[p], xv));
                } else if p == j {
                    assert(a == xv && b == mid[q - 1]);
                    assert(hier_le(xv, mid[q - 1]));
                } else if p < j {
                    assert(a == mid[p] && b == mid[q - 1]);
                    assert(hier_le(mid[p], xv));
                    assert(hier_le(xv, mid[q - 1]));
                    lemma_hier_trans(mid[p], xv, mid[q - 1]);
                } else {
                    assert(a == mid[p - 1] && b == mid[q - 1]);
                    assert(hier_le(mid[p - 1], mid[q - 1]));
                }
            }
            assert(hier_ordered(str_views(v@).take(i as int + 1)));
        }
        i += 1;
    }
    proof {
        assert(str_views(v@).take(n as int) =~= str_views(v@));
    }
}

impl Hostssource {
    /// The domains in hierarchical order: grouped by root label, then by
    /// subdomain prefix, then by TLD.
    pub fn sorteddomains(&self) -> (v: Vec<Domain>)
        ensures
            str_views(v@).to_multiset() == domain_elems(self.domains).to_multiset(),
            hier_ordered(str_views(v@)),
    {
        let mut v = domains_vec(&self.domains);
        sort_hier(&mut v);
        v
    }
}

// --- deduplication helpers ----------------------------------------------------

/// Keeps the first occurrence of each element.
pub open spec fn dedup(s: Seq<Seq<char>>) -> Seq<Seq<char>>
    decreases s.len(),
{
    if s.len() == 0 {
        s
    } else {
        let p = dedup(s.drop_last());
        if p.contains(s.last()) {
            p
        } else {
            p.push(s.last())
        }
    }
}

proof fn lemma_dedup_push(s: Seq<Seq<char>>, x: Seq<char>)
    ensures
        dedup(s.push(x)) == if dedup(s).contains(x) {
            dedup(s)
        } else {
            dedup(s).push(x)
        },
        dedup(s).contains(x) == s.contains(x),
    decreases s.len(),
{
    lemma_dedup_same_elems(s);
    assert(s.push(x).drop_last() =~= s);
}

proof fn lemma_dedup_same_elems(s: Seq<Seq<char>>)
    ensures
        forall|x: Seq<char>| dedup(s).contains(x) == #[trigger] s.contains(x),
    decreases s.len(),
{
    if s.len() > 0 {
        lemma_dedup_same_elems(s.drop_last());
        let p = dedup(s.drop_last());
        let d = dedup(s);
        assert forall|x: Seq<char>| d.contains(x) == #[trigger] s.contains(x) by {
            if s.contains(x) {
                let k = choose|k: int| 0 <= k < s.len() && s[k] == x;
                if k < s.len() - 1 {
                    assert(s.drop_last()[k] == x);
                    assert(s.drop_last().contains(x));
                    assert(p.contains(x));
                    let m = choose|m: int| 0 <= m < p.len() && p[m] == x;
                    assert(d[m] == x);
                    assert(d.contains(x));
                } else {
                    if p.contains(x) {
                        let m = choose|m: int| 0 <= m < p.len() && p[m] == x;
                        assert(d[m] == x);
                        assert(d.contains(x));
                    } else {
                        assert(d == p.push(x));
                        assert(d[d.len() - 1] == x);
                        assert(d.contains(x));
                    }
                }
            }
            if d.contains(x) {
                let k = choose|k: int| 0 <= k < d.len() && d[k] == x;
                if k < p.len() {
                    assert(p[k] == x);
                    assert(p.contains(x));
                    assert(s.drop_last().contains(x));
                    let m = choose|m: int| 0 <= m < s.drop_last().len() && s.drop_last()[m] == x;
                    assert(s[m] == x);
                    assert(s.contains(x));
                } else {
                    assert(s[s.len() - 1] == x);
                    assert(s.contains(x));
                }
            }
        }
    }
}

proof fn lemma_dedup_distinct(s: Seq<Seq<char>>)
    ensures
        distinct_seq(s) ==> dedup(s) == s,
    decreases s.len(),
{
    if s.len() > 0 {
        lemma_dedup_distinct(s.drop_last());
        if distinct_seq(s) {
            assert(distinct_seq(s.drop_last())) by {
                assert(forall|i: int, j: int|
                    #![trigger s.drop_last()[i], s.drop_last()[j]]
                    0 <= i < j < s.len() - 1 ==> s.drop_last()[i] != s.drop_last()[j]);
            }
            lemma_dedup_same_elems(s.drop_last());
            assert(!s.drop_last().contains(s.last())) by {
                if s.drop_last().contains(s.last()) {
                    let k = choose|k: int|
                        0 <= k < s.len() - 1 && s.drop_last()[k] == s.last();
                    assert(s[k] == s[s.len() - 1]);
                }
            }
            assert(dedup(s) =~= s);
        }
    }
}

proof fn lemma_drop_blanks_sub(s: Seq<Seq<char>>)
    ensures
        forall|x: Seq<char>| #[trigger] drop_blanks(s).contains(x) ==> s.contains(x),
    decreases s.len(),
{
    if s.len() > 0 {
        lemma_drop_blanks_sub(s.drop_last());
        assert forall|x: Seq<char>| #[trigger] drop_blanks(s).contains(x) implies s.contains(
            x,
        ) by {
            let p = drop_blanks(s.drop_last());
            let k = choose|k: int| 0 <= k < drop_blanks(s).len() && drop_blanks(s)[k] == x;
            if k < p.len() {
                assert(p[k] == x);
                assert(p.contains(x));
                assert(s.drop_last().contains(x));
                let m = choose|m: int| 0 <= m < s.drop_last().len() && s.drop_last()[m] == x;
                assert(s[m] == x);
            } else {
                assert(s[s.len() - 1] == x);
            }
        }
    }
}

proof fn lemma_drop_blanks_distinct(s: Seq<Seq<char>>)
    ensures
        distinct_seq(s) ==> distinct_seq(drop_blanks(s)),
    decreases s.len(),
{
    if s.len() > 0 {
        lemma_drop_blanks_distinct(s.drop_last());
        if distinct_seq(s) {
            assert(distinct_seq(s.drop_last())) by {
                assert(forall|i: int, j: int|
                    #![trigger s.drop_last()[i], s.drop_last()[j]]
                    0 <= i < j < s.len() - 1 ==> s.drop_last()[i] != s.drop_last()[j]);
            }
            let p = drop_blanks(s.drop_last());
            if s.last().len() != 0 {
                assert(!p.contains(s.last())) by {
                    if p.contains(s.last()) {
                        lemma_drop_blanks_sub(s.drop_last());
                        let m = choose|m: int|
                            0 <= m < s.drop_last().len() && s.drop_last()[m] == s.last();
                        assert(s[m] == s[s.len() - 1]);
                    }
                }
                assert forall|i: int, j: int|
                    #![trigger drop_blanks(s)[i], drop_blanks(s)[j]]
                    0 <= i < j < drop_blanks(s).len() implies drop_blanks(s)[i]
                    != drop_blanks(s)[j] by {
                    if j < p.len() {
                    } else {
                        assert(drop_blanks(s)[j] == s.last());
                        assert(p[i] == drop_blanks(s)[i]);
                        assert(p.contains(p[i]));
                    }
                }
            }
        }
    }
}

proof fn lemma_drop_comments_sub(s: Seq<Seq<char>>)
    ensures
        forall|x: Seq<char>| #[trigger] drop_comments(s).contains(x) ==> s.contains(x),
    decreases s.len(),
{
    if s.len() > 0 {
        lemma_drop_comments_sub(s.drop_last());
        assert forall|x: Seq<char>| #[trigger] drop_comments(s).contains(x) implies s.contains(
            x,
        ) by {
            let p = drop_comments(s.drop_last());
            let k = choose|k: int| 0 <= k < drop_comments(s).len() && drop_comments(s)[k] == x;
            if k < p.len() {
                assert(p[k] == x);
                assert(p.contains(x));
                assert(s.drop_last().contains(x));
                let m = choose|m: int| 0 <= m < s.drop_last().len() && s.drop_last()[m] == x;
                assert(s[m] == x);
            } else {
                assert(s[s.len() - 1] == x);
            }
        }
    }
}

proof fn lemma_drop_comments_distinct(s: Seq<Seq<char>>)
    ensures
        distinct_seq(s) ==> distinct_seq(drop_comments(s)),
    decreases s.len(),
{
    if s.len() > 0 {
        lemma_drop_comments_distinct(s.drop_last());
        if distinct_seq(s) {
            assert(distinct_seq(s.drop_last())) by {
                assert(forall|i: int, j: int|
                    #![trigger s.drop_last()[i], s.drop_last()[j]]
                    0 <= i < j < s.len() - 1 ==> s.drop_last()[i] != s.drop_last()[j]);
            }
            let p = drop_comments(s.drop_last());
            if !is_comment_line(s.last()) {
                assert(!p.contains(s.last())) by {
                    if p.contains(s.last()) {
                        lemma_drop_comments_sub(s.drop_last());
                        let m = choose|m: int|
                            0 <= m < s.drop_last().len() && s.drop_last()[m] == s.last();
                        assert(s[m] == s[s.len() - 1]);
                    }
                }
                assert forall|i: int, j: int|
                    #![trigger drop_comments(s)[i], drop_comments(s)[j]]
                    0 <= i < j < drop_comments(s).len() implies drop_comments(s)[i]
                    != drop_comments(s)[j] by {
                    if j < p.len() {
                    } else {
                        assert(drop_comments(s)[j] == s.last());
                        assert(p[i] == drop_comments(s)[i]);
                        assert(p.contains(p[i]));
                    }
                }
            }
        }
    }
}

proof fn lemma_front_matter_prefix(raws: Seq<Seq<char>>, i: int)
    requires
        0 <= i <= raws.len(),
        forall|k: int| 0 <= k < i ==> is_comment_line(#[trigger] raws[k]),
        i < raws.len() ==> !is_comment_line(raws[i]),
    ensures
        front_matter_of(raws) == raws.take(i),
    decreases raws.len(),
{
    if raws.len() == 0 {
        assert(raws.take(0) =~= raws);
    } else if i == 0 {
        if raws.len() > 0 && !is_comment_line(raws[0]) {
            assert(raws.take(0) =~= Seq::<Seq<char>>::empty());
        }
    } else {
        assert(forall|k: int| 0 <= k < i - 1 ==> raws.drop_first()[k] == raws[k + 1]);
        lemma_front_matter_prefix(raws.drop_first(), i - 1);
        assert(seq![raws[0]] + raws.drop_first().take(i - 1) =~= raws.take(i));
    }
}

// --- the full pipeline --------------------------------------------------------

/// What one load leaves in a source: its domains, duplicates and invalids.
pub open spec fn source_results(raws: Seq<Seq<char>>) -> ExtractState {
    extract_lines(
        (Seq::<Seq<char>>::empty(), line_dups(raws), Seq::<Seq<char>>::empty()),
        drop_comments(drop_blanks(seen_lines(raws))),
    )
}

/// The domains a load of these raw lines extracts.
pub open spec fn source_domains(raws: Seq<Seq<char>>) -> Seq<Seq<char>> {
    source_results(raws).0
}

/// The normalization pipeline has run over `rv`; `sort` tells whether the
/// domains were materialized in hierarchical order.
pub open spec fn pipeline_done(s: Hostssource, rv: Seq<Seq<char>>, sort: bool) -> bool {
    &&& str_views(s.front_matter@) == front_matter_of(rv)
    &&& domain_elems(s.duplicates) == source_results(rv).1
    &&& domain_elems(s.invalids) == source_results(rv).2
    &&& !sort ==> domain_elems(s.domains) == source_domains(rv)
    &&& sort ==> domain_elems(s.domains).to_multiset() == source_domains(rv).to_multiset()
        && hier_ordered(domain_elems(s.domains))
}

proof fn lemma_distinct_push(s: Seq<Seq<char>>, x: Seq<char>)
    requires
        distinct_seq(s),
        !s.contains(x),
    ensures
        distinct_seq(s.push(x)),
{
    assert forall|i: int, j: int|
        #![trigger s.push(x)[i], s.push(x)[j]]
        0 <= i < j < s.push(x).len() implies s.push(x)[i] != s.push(x)[j] by {
        if j == s.len() {
            if s.push(x)[i] == x {
                assert(s[i] == x);
                assert(s.contains(x));
            }
        }
    }
}

proof fn lemma_seen_lines_distinct(raws: Seq<Seq<char>>)
    ensures
        distinct_seq(seen_lines(raws)),
    decreases raws.len(),
{
    if raws.len() > 0 {
        lemma_seen_lines_distinct(raws.drop_last());
        let p = seen_lines(raws.drop_last());
        let l = normalize_spec(raws.last());
        if !(l.len() == 0 || p.contains(l)) {
            lemma_distinct_push(p, l);
        }
    }
}

proof fn lemma_extract_tokens_distinct(st: ExtractState, ts: Seq<Seq<char>>)
    requires
        distinct_seq(st.0),
    ensures
        distinct_seq(extract_tokens(st, ts).0),
    decreases ts.len(),
{
    if ts.len() > 0 {
        lemma_extract_tokens_distinct(st, ts.drop_last());
        let mid = extract_tokens(st, ts.drop_last());
        let t = ts.last();
        if !is_sink_token(t) && t.contains('.') && dns_name_ok(t) && !mid.0.contains(t) {
            lemma_distinct_push(mid.0, t);
        }
    }
}

proof fn lemma_extract_lines_distinct(st: ExtractState, ls: Seq<Seq<char>>)
    requires
        distinct_seq(st.0),
    ensures
        distinct_seq(extract_lines(st, ls).0),
    decreases ls.len(),
{
    if ls.len() > 0 {
        lemma_extract_lines_distinct(st, ls.drop_last());
        lemma_extract_tokens_distinct(
            extract_lines(st, ls.drop_last()),
            tokens_uws(ls.last()),
        );
    }
}

/// A permutation of a duplicate-free sequence is duplicate-free.
proof fn lemma_perm_distinct(a: Seq<Seq<char>>, b: Seq<Seq<char>>)
    requires
        a.to_multiset() == b.to_multiset(),
        distinct_seq(a),
    ensures
        distinct_seq(b),
{
    a.to_multiset_ensures();
    b.to_multiset_ensures();
    assert(a.no_duplicates()) by {
        assert(forall|i: int, j: int|
            #![trigger a[i], a[j]]
            0 <= i < a.len() && 0 <= j < a.len() && i != j ==> a[i] != a[j]);
    }
    a.lemma_multiset_has_no_duplicates();
    assert forall|i: int, j: int|
        #![trigger b[i], b[j]]
        0 <= i < j < b.len() implies b[i] != b[j] by {
        if b[i] == b[j] {
            let sub = b.remove(j);
            assert(sub.to_multiset() == b.to_multiset().remove(b[j]));
            assert(sub[i] == b[i]);
            assert(sub.contains(b[i]));
            sub.to_multiset_ensures();
            assert(sub.to_multiset().count(b[i]) > 0);
            assert(b.to_multiset().count(b[j]) >= 2);
            assert(a.to_multiset().contains(b[j]));
            assert(a.to_multiset().count(b[j]) == 1);
        }
    }
}

impl Hostssource {
    /// Runs the whole pipeline over the raw lines: trim and deduplicate,
    /// capture front matter, drop comments, extract domains, and — when
    /// asked — materialize the domains in hierarchical order.
    pub fn normalize(&mut self)
        requires
            domain_elems(old(self).domains) == Seq::<Seq<char>>::empty(),
            domain_elems(old(self).duplicates) == Seq::<Seq<char>>::empty(),
            domain_elems(old(self).invalids) == Seq::<Seq<char>>::empty(),
            old(self).front_matter@ == Seq::<String>::empty(),
        ensures
            pipeline_done(
                *final(self),
                str_views(old(self).raw_list@),
                old(self).args.domains_sort,
            ),
            final(self).raw_list == old(self).raw_list,
            final(self)._name == old(self)._name,
            final(self).location == old(self).location,
            final(self).args == old(self).args,
    {
        let ghost rv = str_views(old(self).raw_list@);
        proof {
            lemma_seen_lines_distinct(rv);
        }
        self.trimlines();
        proof {
            lemma_drop_blanks_distinct(seen_lines(rv));
        }
        self.removeblanklines();
        self.frontmatter();
        self.removecommentlines();
        self.extract_domains();
        proof {
            lemma_extract_lines_distinct(
                (
                    Seq::<Seq<char>>::empty(),
                    line_dups(rv),
                    Seq::<Seq<char>>::empty(),
                ),
                drop_comments(drop_blanks(seen_lines(rv))),
            );
        }
        if self.args.domains_sort {
            let sorted = self.sorteddomains();
            proof {
                lemma_perm_distinct(
                    domain_elems(self.domains),
                    str_views(sorted@),
                );
            }
            let mut materialized: Domains = domains_new();
            let n = sorted.len();
            let mut i: usize = 0;
            while i < n
                invariant
                    i <= n,
                    n == sorted@.len(),
                    distinct_seq(str_views(sorted@)),
                    domain_elems(materialized) == str_views(sorted@).take(i as int),
                decreases n - i,
            {
                proof {
                    let sv = str_views(sorted@);
                    assert(sv.take(i + 1 as int) =~= sv.take(i as int).push(sv[i as int]));
                    assert(!sv.take(i as int).contains(sv[i as int])) by {
                        if sv.take(i as int).contains(sv[i as int]) {
                            let k = choose|k: int|
                                0 <= k < i && sv.take(i as int)[k] == sv[i as int];
                            assert(sv[k] == sv[i as int]);
                        }
                    }
                    assert(sv[i as int] == sorted@[i as int]@);
                }
                domains_insert(&mut materialized, sorted[i].clone());
                i += 1;
            }
            proof {
                assert(str_views(sorted@).take(n as int) =~= str_views(sorted@));
            }
            self.domains = materialized;
        }
    }
}

// --- loading ------------------------------------------------------------------

/// What the program must still do to finish a load: nothing, fetch a URL, or
/// read a file.
pub enum LoadAction {
    Complete,
    FetchUrl(String),
    ReadFile(String),
}

/// The errors a load can end in.
pub enum LoadError {
    /// The reference is neither a shortcut, inline text, URL nor existing file.
    NotFound,
    /// The remote fetch failed.
    Fetch,
    /// The local file exists but could not be read.
    FileRead,
}

/// A reference with a newline is inline text.
pub open spec fn is_text_ref(s: Seq<char>) -> bool {
    s.contains('\n')
}

/// A reference opening with `http`, in any letter case, is remote.
pub open spec fn is_http_ref(s: Seq<char>) -> bool {
    s.len() >= 4 && (s[0] == 'h' || s[0] == 'H') && (s[1] == 't' || s[1] == 'T') && (s[2] == 't'
        || s[2] == 'T') && (s[3] == 'p' || s[3] == 'P')
}

/// The reference after shortcut substitution.
pub open spec fn resolved_ref(src: Seq<char>) -> Seq<char> {
    match crate::config::shortcut_resolution(src) {
        Some(u) => u,
        None => src,
    }
}

/// Only the location differs; everything else of the source stands as it
/// was.
pub open spec fn untouched_but_location(before: Hostssource, after: Hostssource) -> bool {
    &&& after.raw_list == before.raw_list
    &&& after.front_matter == before.front_matter
    &&& after.domains == before.domains
    &&& after.duplicates == before.duplicates
    &&& after.invalids == before.invalids
}

/// Trimmed copies of each segment.
pub open spec fn map_trim(ls: Seq<Seq<char>>) -> Seq<Seq<char>> {
    ls.map_values(|l: Seq<char>| crate::text::trim_spec(l))
}

/// Inline text as raw lines: trimmed, split on newlines, each line trimmed.
pub open spec fn text_raw_lines(s: Seq<char>) -> Seq<Seq<char>> {
    map_trim(split_char(crate::text::trim_spec(s), '\n'))
}

fn trim_string(s: &str) -> (r: String)
    ensures
        r@ == crate::text::trim_spec(s@),
{
    let v = str_chars(s);
    let t = crate::text::trim_chars(&v);
    string_from_chars(&t)
}

fn http_prefix(s: &str) -> (r: bool)
    ensures
        r == is_http_ref(s@),
{
    if s.unicode_len() < 4 {
        return false;
    }
    let c0 = s.get_char(0);
    let c1 = s.get_char(1);
    let c2 = s.get_char(2);
    let c3 = s.get_char(3);
    (c0 == 'h' || c0 == 'H') && (c1 == 't' || c1 == 'T') && (c2 == 't' || c2 == 'T') && (c3 == 'p'
        || c3 == 'P')
}

fn text_lines(s: &str) -> (v: Vec<String>)
    ensures
        str_views(v@) == text_raw_lines(s@),
{
    let trimmed = trim_string(s);
    let parts = crate::types::split_on(trimmed.as_str(), '\n');
    let mut out: Vec<String> = Vec::new();
    let n = parts.len();
    let mut i: usize = 0;
    while i < n
        invariant
            i <= n,
            n == parts@.len(),
            str_views(parts@) == split_char(crate::text::trim_spec(s@), '\n'),
            str_views(out@) == map_trim(str_views(parts@)).take(i as int),
        decreases n - i,
    {
        let line = trim_string(parts[i].as_str());
        proof {
            let pv = str_views(parts@);
            let mp = map_trim(pv);
            assert(pv.len() == parts@.len());
            assert(mp.len() == pv.len());
            assert(pv[i as int] == parts@[i as int]@);
            assert(mp[i as int] == crate::text::trim_spec(pv[i as int]));
            assert(line@ == mp[i as int]);
        }
        let ghost out0 = out@;
        out.push(line);
        proof {
            assert(str_views(out0) == map_trim(str_views(parts@)).take(i as int));
            assert(str_views(out0).len() == out0.len());
            assert(out0.len() == i as int);
            assert(out@ == out0.push(line));
            assert(str_views(out@).len() == out@.len());
            assert forall|k: int| 0 <= k <= i implies str_views(out@)[k] == map_trim(
                str_views(parts@),
            ).take(i + 1 as int)[k] by {
                if k < i {
                    assert(str_views(out@)[k] == out0[k]@);
                    assert(str_views(out0)[k] == out0[k]@);
                } else {
                    assert(str_views(out@)[k] == line@);
                }
            }
            assert(str_views(out@) =~= map_trim(str_views(parts@)).take(i + 1 as int));
        }
        i += 1;
    }
    proof {
        assert(map_trim(str_views(parts@)).take(n as int) =~= map_trim(str_views(parts@)));
    }
    out
}

impl Hostssource {
    /// Resolves a reference and loads what can be had without leaving the
    /// process: shortcut substitution always, inline text fully; for a URL
    /// or file path the returned action says what remains to be fetched.
    pub fn load(&mut self, src: &str) -> (act: LoadAction)
        requires
            domain_elems(old(self).domains) == Seq::<Seq<char>>::empty(),
            domain_elems(old(self).duplicates) == Seq::<Seq<char>>::empty(),
            domain_elems(old(self).invalids) == Seq::<Seq<char>>::empty(),
            old(self).front_matter@ == Seq::<String>::empty(),
        ensures
            final(self)._name == old(self)._name,
            final(self).args == old(self).args,
            ({
                let res = resolved_ref(src@);
                &&& is_text_ref(res) ==> {
                    &&& act is Complete
                    &&& final(self).location@ == "text input"@
                    &&& str_views(final(self).raw_list@) == text_raw_lines(res)
                    &&& pipeline_done(*final(self), text_raw_lines(res), old(self).args.domains_sort)
                }
                &&& !is_text_ref(res) && is_http_ref(res) ==> (act matches LoadAction::FetchUrl(u)
                    && u@ == res) && final(self).location@ == res && untouched_but_location(
                    *old(self),
                    *final(self),
                )
                &&& !is_text_ref(res) && !is_http_ref(res) ==> (act matches LoadAction::ReadFile(p)
                    && p@ == res) && final(self).location@ == res && untouched_but_location(
                    *old(self),
                    *final(self),
                )
            }),
    {
        let actual: String = match crate::config::shortcut_url(src) {
            Some(u) => u,
            None => src.to_owned(),
        };
        proof {
            assert(actual@ == resolved_ref(src@));
        }
        if crate::text::contains_char(actual.as_str(), '\n') {
            self.raw_list = text_lines(actual.as_str());
            self.location = String::from_str("text input");
            self.normalize();
            LoadAction::Complete
        } else if http_prefix(actual.as_str()) {
            self.location = actual.clone();
            LoadAction::FetchUrl(actual)
        } else {
            self.location = actual.clone();
            LoadAction::ReadFile(actual)
        }
    }

    /// Finishes a load whose content the program fetched elsewhere: records
    /// the origin and raw lines and runs the pipeline over them.
    pub fn load_lines(&mut self, location: String, lines: Vec<String>)
        requires
            domain_elems(old(self).domains) == Seq::<Seq<char>>::empty(),
            domain_elems(old(self).duplicates) == Seq::<Seq<char>>::empty(),
            domain_elems(old(self).invalids) == Seq::<Seq<char>>::empty(),
            old(self).front_matter@ == Seq::<String>::empty(),
        ensures
            final(self)._name == old(self)._name,
            final(self).args == old(self).args,
            final(self).location == location,
            final(self).raw_list == lines,
            pipeline_done(*final(self), str_views(lines@), old(self).args.domains_sort),
    {
        self.location = location;
        self.raw_list = lines;
        self.normalize();
    }

    /// A source built fresh from a reference, as far as the reference can be
    /// loaded without I/O.
    pub fn new(location: String, name: String) -> (r: Hostssource)
        ensures
            r._name == name,
            r.args.is_default(),
            ({
                let res = resolved_ref(location@);
                &&& is_text_ref(res) ==> r.location@ == "text input"@ && str_views(r.raw_list@)
                    == text_raw_lines(res) && pipeline_done(r, text_raw_lines(res), false)
                &&& !is_text_ref(res) ==> r.location@ == res
            }),
    {
        let mut hs = Hostssource::default();
        hs._name = name;
        let _ = hs.load(location.as_str());
        hs
    }
}

// --- amalgamation -------------------------------------------------------------

/// Set-style insertion of every element, left to right.
pub open spec fn push_all(acc: Seq<Seq<char>>, es: Seq<Seq<char>>) -> Seq<Seq<char>>
    decreases es.len(),
{
    if es.len() == 0 {
        acc
    } else {
        push_unique(push_all(acc, es.drop_last()), es.last())
    }
}

/// The union of several domain lists, keeping first occurrences in order.
pub open spec fn union_elems(doms: Seq<Seq<Seq<char>>>) -> Seq<Seq<char>>
    decreases doms.len(),
{
    if doms.len() == 0 {
        Seq::empty()
    } else {
        push_all(union_elems(doms.drop_last()), doms.last())
    }
}

/// The domain lists of a sequence of sources.
pub open spec fn doms_of(ss: Seq<Hostssource>) -> Seq<Seq<Seq<char>>> {
    ss.map_values(|s: Hostssource| domain_elems(s.domains))
}

/// The front-matter blocks of a sequence of sources.
pub open spec fn fms_of(ss: Seq<Hostssource>) -> Seq<Seq<Seq<char>>> {
    ss.map_values(|s: Hostssource| str_views(s.front_matter@))
}

/// Several blocks one after the other.
pub open spec fn concat_all(blocks: Seq<Seq<Seq<char>>>) -> Seq<Seq<char>>
    decreases blocks.len(),
{
    if blocks.len() == 0 {
        Seq::empty()
    } else {
        concat_all(blocks.drop_last()) + blocks.last()
    }
}

/// The union of several sources: their domains merged into one set, their
/// front matter laid end to end, and each source kept for per-source stats.
pub struct Amalgam {
    pub _name: String,
    pub location: String,
    pub raw_list: Vec<Domain>,
    pub front_matter: Vec<String>,
    pub domains: Domains,
    pub duplicates: Domains,
    pub invalids: Domains,
    pub args: Arguments,
    pub sources: Vec<Hostssource>,
}

impl Amalgam {
    /// Unions already-loaded sources: the domain sets merge with duplicates
    /// across sources silently dropped, and front matter concatenates in
    /// source order.
    pub fn new(sources: Vec<Hostssource>) -> (r: Amalgam)
        ensures
            domain_elems(r.domains) == union_elems(doms_of(sources@)),
            str_views(r.front_matter@) == concat_all(fms_of(sources@)),
            r.sources == sources,
            domain_elems(r.duplicates) == Seq::<Seq<char>>::empty(),
            domain_elems(r.invalids) == Seq::<Seq<char>>::empty(),
            r.args.is_default(),
    {
        let mut amalgam = Amalgam {
            _name: String::new(),
            location: String::new(),
            raw_list: Vec::new(),
            front_matter: Vec::new(),
            domains: domains_new(),
            duplicates: domains_new(),
            invalids: domains_new(),
            args: Arguments::default(),
            sources: Vec::new(),
        };
        let n = sources.len();
        let mut i: usize = 0;
        while i < n
            invariant
                i <= n,
                n == sources@.len(),
                domain_elems(amalgam.domains) == union_elems(doms_of(sources@).take(i as int)),
                str_views(amalgam.front_matter@) == concat_all(fms_of(sources@).take(i as int)),
                domain_elems(amalgam.duplicates) == Seq::<Seq<char>>::empty(),
                domain_elems(amalgam.invalids) == Seq::<Seq<char>>::empty(),
                amalgam.args.is_default(),
            decreases n - i,
        {
            proof {
                assert(doms_of(sources@).take(i + 1 as int).drop_last() =~= doms_of(
                    sources@,
                ).take(i as int));
                assert(doms_of(sources@).take(i + 1 as int).last() == domain_elems(
                    sources@[i as int].domains,
                ));
                assert(fms_of(sources@).take(i + 1 as int).drop_last() =~= fms_of(sources@).take(
                    i as int,
                ));
                assert(fms_of(sources@).take(i + 1 as int).last() == str_views(
                    sources@[i as int].front_matter@,
                ));
            }
            // front matter, in source order
            let fm = &sources[i].front_matter;
            let m = fm.len();
            let mut j: usize = 0;
            while j < m
                invariant
                    j <= m,
                    i < n,
                    n == sources@.len(),
                    m == sources@[i as int].front_matter@.len(),
                    domain_elems(amalgam.domains) == union_elems(
                        doms_of(sources@).take(i as int),
                    ),
                    domain_elems(amalgam.duplicates) == Seq::<Seq<char>>::empty(),
                    domain_elems(amalgam.invalids) == Seq::<Seq<char>>::empty(),
                    amalgam.args.is_default(),
                    str_views(amalgam.front_matter@) == concat_all(fms_of(sources@).take(i as int))
                        + str_views(sources@[i as int].front_matter@).take(j as int),
                decreases m - j,
            {
                let line = sources[i].front_matter[j].clone();
                proof {
                    assert(line@ == str_views(sources@[i as int].front_matter@)[j as int]);
                }
                let ghost fm0 = amalgam.front_matter@;
                amalgam.front_matter.push(line);
                proof {
                    assert(str_views(fm0).len() == fm0.len());
                    assert(str_views(amalgam.front_matter@) =~= str_views(fm0).push(
                        str_views(sources@[i as int].front_matter@)[j as int],
                    ));
                    assert(str_views(fm0).push(
                        str_views(sources@[i as int].front_matter@)[j as int],
                    ) =~= concat_all(fms_of(sources@).take(i as int)) + str_views(
                        sources@[i as int].front_matter@,
                    ).take(j + 1 as int));
                }
                j += 1;
            }
            proof {
                assert(str_views(sources@[i as int].front_matter@).take(m as int) =~= str_views(
                    sources@[i as int].front_matter@,
                ));
                assert(concat_all(fms_of(sources@).take(i + 1 as int)) == concat_all(
                    fms_of(sources@).take(i as int),
                ) + str_views(sources@[i as int].front_matter@));
            }
            // domains, first occurrence kept
            let ds = domains_vec(&sources[i].domains);
            let k_len = ds.len();
            let mut k: usize = 0;
            while k < k_len
                invariant
                    k <= k_len,
                    i < n,
                    n == sources@.len(),
                    k_len == ds@.len(),
                    str_views(ds@) == domain_elems(sources@[i as int].domains),
                    domain_elems(amalgam.duplicates) == Seq::<Seq<char>>::empty(),
                    domain_elems(amalgam.invalids) == Seq::<Seq<char>>::empty(),
                    amalgam.args.is_default(),
                    str_views(amalgam.front_matter@) == concat_all(
                        fms_of(sources@).take(i + 1 as int),
                    ),
                    domain_elems(amalgam.domains) == push_all(
                        union_elems(doms_of(sources@).take(i as int)),
                        str_views(ds@).take(k as int),
                    ),
                decreases k_len - k,
            {
                proof {
                    let dv = str_views(ds@);
                    assert(dv.take(k + 1 as int).drop_last() =~= dv.take(k as int));
                    assert(dv.take(k + 1 as int).last() == ds@[k as int]@);
                }
                domains_insert(&mut amalgam.domains, ds[k].clone());
                k += 1;
            }
            proof {
                assert(str_views(ds@).take(k_len as int) =~= str_views(ds@));
            }
            i += 1;
        }
        proof {
            assert(doms_of(sources@).take(n as int) =~= doms_of(sources@));
            assert(fms_of(sources@).take(n as int) =~= fms_of(sources@));
        }
        amalgam.sources = sources;
        amalgam
    }
}

// --- the union laws -----------------------------------------------------------

proof fn lemma_push_all_contains(acc: Seq<Seq<char>>, es: Seq<Seq<char>>)
    ensures
        forall|x: Seq<char>| #[trigger]
            push_all(acc, es).contains(x) == (acc.contains(x) || es.contains(x)),
    decreases es.len(),
{
    if es.len() == 0 {
        assert forall|x: Seq<char>| #[trigger]
            push_all(acc, es).contains(x) == (acc.contains(x) || es.contains(x)) by {
            if es.contains(x) {
                let k = choose|k: int| 0 <= k < es.len() && es[k] == x;
            }
        }
    } else {
        lemma_push_all_contains(acc, es.drop_last());
        let p = push_all(acc, es.drop_last());
        let t = es.last();
        assert forall|x: Seq<char>| #[trigger]
            push_all(acc, es).contains(x) == (acc.contains(x) || es.contains(x)) by {
            if push_unique(p, t).contains(x) {
                if p.contains(x) {
                } else {
                    let k = choose|k: int|
                        0 <= k < push_unique(p, t).len() && push_unique(p, t)[k] == x;
                    if !p.contains(t) {
                        if k < p.len() {
                            assert(p[k] == x);
                            assert(p.contains(x));
                        } else {
                            assert(x == t);
                        }
                    }
                }
                if !acc.contains(x) && !es.drop_last().contains(x) {
                    assert(x == t);
                    assert(es[es.len() - 1] == x);
                }
            }
            if acc.contains(x) || es.contains(x) {
                if acc.contains(x) || es.drop_last().contains(x) {
                    assert(p.contains(x));
                    let k = choose|k: int| 0 <= k < p.len() && p[k] == x;
                    assert(push_unique(p, t)[k] == x);
                    assert(push_unique(p, t).contains(x));
                } else {
                    let k = choose|k: int| 0 <= k < es.len() && es[k] == x;
                    if k < es.len() - 1 {
                        assert(es.drop_last()[k] == x);
                        assert(es.drop_last().contains(x));
                    }
                    assert(k == es.len() - 1);
                    assert(x == t);
                    if p.contains(t) {
                    } else {
                        assert(push_unique(p, t)[p.len() as int] == x);
                        assert(push_unique(p, t).contains(x));
                    }
                }
            }
            if es.contains(x) && !es.drop_last().contains(x) {
                let k = choose|k: int| 0 <= k < es.len() && es[k] == x;
                if k < es.len() - 1 {
                    assert(es.drop_last()[k] == x);
                }
            }
        }
    }
}

proof fn lemma_push_all_subsumed(acc: Seq<Seq<char>>, es: Seq<Seq<char>>)
    requires
        forall|x: Seq<char>| es.contains(x) ==> #[trigger] acc.contains(x),
    ensures
        push_all(acc, es) == acc,
    decreases es.len(),
{
    if es.len() > 0 {
        assert forall|x: Seq<char>| es.drop_last().contains(x) implies #[trigger] acc.contains(
            x,
        ) by {
            let k = choose|k: int| 0 <= k < es.len() - 1 && es.drop_last()[k] == x;
            assert(es[k] == x);
        }
        lemma_push_all_subsumed(acc, es.drop_last());
        assert(es.contains(es.last())) by {
            assert(es[es.len() - 1] == es.last());
        }
    }
}

/// Amalgamating the same domain list twice gives the same union as taking it
/// once: duplicate sources never grow the combined set.
pub proof fn lemma_union_idempotent(doms: Seq<Seq<Seq<char>>>, d: Seq<Seq<char>>)
    ensures
        union_elems(doms.push(d).push(d)) == union_elems(doms.push(d)),
        union_elems(doms.push(d).push(d)).len() == union_elems(doms.push(d)).len(),
{
    let once = union_elems(doms.push(d));
    assert(doms.push(d).drop_last() =~= doms);
    assert(doms.push(d).push(d).drop_last() =~= doms.push(d));
    assert(once == push_all(union_elems(doms), d));
    assert(union_elems(doms.push(d).push(d)) == push_all(once, d));
    lemma_push_all_contains(union_elems(doms), d);
    assert forall|x: Seq<char>| d.contains(x) implies #[trigger] once.contains(x) by {}
    lemma_push_all_subsumed(once, d);
}

// --- comparison ---------------------------------------------------------------

/// What source-like values expose for comparison: their domain set and the
/// options they were loaded under.
pub trait Comparable {
    /// The domains, as a sequence of character strings.
    spec fn domains_view(&self) -> Seq<Seq<char>>;

    /// The domain set.
    fn get_domains(&self) -> (r: &Domains)
        ensures
            domain_elems(*r) == self.domains_view(),
    ;

    /// The options in force.
    fn get_args(&self) -> (r: &Arguments);
}

impl Comparable for Hostssource {
    open spec fn domains_view(&self) -> Seq<Seq<char>> {
        domain_elems(self.domains)
    }

    fn get_domains(&self) -> (r: &Domains) {
        &self.domains
    }

    fn get_args(&self) -> (r: &Arguments) {
        &self.args
    }
}

impl Comparable for Amalgam {
    open spec fn domains_view(&self) -> Seq<Seq<char>> {
        domain_elems(self.domains)
    }

    fn get_domains(&self) -> (r: &Domains) {
        &self.domains
    }

    fn get_args(&self) -> (r: &Arguments) {
        &self.args
    }
}

proof fn lemma_incl_excl(a: Set<Seq<char>>, b: Set<Seq<char>>)
    requires
        a.finite(),
        b.finite(),
    ensures
        a.union(b).len() + a.intersect(b).len() == a.len() + b.len(),
        a.union(b).finite(),
    decreases a.len(),
{
    if a.is_empty() {
        assert(a.union(b) =~= b);
        assert(a.intersect(b) =~= Set::<Seq<char>>::empty());
    } else {
        let x = a.choose();
        let a2 = a.remove(x);
        lemma_incl_excl(a2, b);
        if b.contains(x) {
            assert(a2.union(b) =~= a.union(b));
            assert(a2.intersect(b) =~= a.intersect(b).remove(x));
            assert(a.intersect(b).contains(x));
            assert(a.intersect(b).finite()) by {
                vstd::set_lib::lemma_len_intersect::<Seq<char>>(a, b);
            }
            assert(a.intersect(b).remove(x).len() == a.intersect(b).len() - 1);
        } else {
            assert(a2.union(b) =~= a.union(b).remove(x));
            assert(a2.intersect(b) =~= a.intersect(b));
            assert(a.union(b).contains(x));
            assert(a.union(b).remove(x).len() == a.union(b).len() - 1);
        }
    }
}

proof fn lemma_distinct_len_is_card(s: Seq<Seq<char>>)
    requires
        distinct_seq(s),
    ensures
        s.to_set().len() == s.len(),
        s.to_set().finite(),
{
    assert(s.no_duplicates()) by {
        assert(forall|i: int, j: int|
            #![trigger s[i], s[j]]
            0 <= i < s.len() && 0 <= j < s.len() && i != j ==> s[i] != s[j]);
    }
    s.unique_seq_to_set();
}

proof fn lemma_push_all_distinct(acc: Seq<Seq<char>>, es: Seq<Seq<char>>)
    requires
        distinct_seq(acc),
    ensures
        distinct_seq(push_all(acc, es)),
    decreases es.len(),
{
    if es.len() > 0 {
        lemma_push_all_distinct(acc, es.drop_last());
        let p = push_all(acc, es.drop_last());
        if !p.contains(es.last()) {
            lemma_distinct_push(p, es.last());
        }
    }
}

/// How many domains two sets share, computed as the two sizes less the size
/// of their union.
pub fn intersection_count(a: &Domains, b: &Domains) -> (r: usize)
    requires
        distinct_seq(domain_elems(*a)),
        distinct_seq(domain_elems(*b)),
    ensures
        r == domain_elems(*a).to_set().intersect(domain_elems(*b).to_set()).len(),
{
    let first = domains_len(a);
    let second = domains_len(b);
    let mut combined: Domains = domains_new();
    let av = domains_vec(a);
    let n = av.len();
    let mut i: usize = 0;
    while i < n
        invariant
            i <= n,
            n == av@.len(),
            str_views(av@) == domain_elems(*a),
            domain_elems(combined) == push_all(
                Seq::<Seq<char>>::empty(),
                str_views(av@).take(i as int),
            ),
        decreases n - i,
    {
        proof {
            let dv = str_views(av@);
            assert(dv.take(i + 1 as int).drop_last() =~= dv.take(i as int));
            assert(dv.take(i + 1 as int).last() == av@[i as int]@);
        }
        domains_insert(&mut combined, av[i].clone());
        i += 1;
    }
    let bv = domains_vec(b);
    let m = bv.len();
    let mut j: usize = 0;
    proof {
        assert(str_views(av@).take(n as int) =~= domain_elems(*a));
        assert(str_views(bv@).take(0) =~= Seq::<Seq<char>>::empty());
    }
    while j < m
        invariant
            j <= m,
            m == bv@.len(),
            str_views(av@) == domain_elems(*a),
            str_views(bv@) == domain_elems(*b),
            domain_elems(combined) == push_all(
                push_all(Seq::<Seq<char>>::empty(), domain_elems(*a)),
                str_views(bv@).take(j as int),
            ),
        decreases m - j,
    {
        proof {
            let dv = str_views(bv@);
            assert(dv.take(j + 1 as int).drop_last() =~= dv.take(j as int));
            assert(dv.take(j + 1 as int).last() == bv@[j as int]@);
        }
        domains_insert(&mut combined, bv[j].clone());
        j += 1;
    }
    let u = domains_len(&combined);
    proof {
        let ae = domain_elems(*a);
        let be = domain_elems(*b);
        assert(str_views(av@).take(n as int) =~= ae);
        assert(str_views(bv@).take(m as int) =~= be);
        let base = push_all(Seq::<Seq<char>>::empty(), ae);
        lemma_push_all_subsumed_from_empty(ae);
        assert(base == ae);
        let ue = push_all(ae, be);
        assert(domain_elems(combined) == ue);
        lemma_push_all_distinct(ae, be);
        lemma_push_all_contains(ae, be);
        lemma_distinct_len_is_card(ae);
        lemma_distinct_len_is_card(be);
        lemma_distinct_len_is_card(ue);
        assert(ue.to_set() =~= ae.to_set().union(be.to_set())) by {
            assert(forall|x: Seq<char>| #[trigger]
                ue.contains(x) == (ae.contains(x) || be.contains(x)));
        }
        lemma_incl_excl(ae.to_set(), be.to_set());
        vstd::set_lib::lemma_len_intersect::<Seq<char>>(ae.to_set(), be.to_set());
        assert(first == ae.to_set().len());
        assert(second == be.to_set().len());
        assert(u == ae.to_set().union(be.to_set()).len());
        assert(u + ae.to_set().intersect(be.to_set()).len() == first + second);
        assert(u >= second);
        assert(u - second <= first);
    }
    first - (u - second)
}

proof fn lemma_push_all_subsumed_from_empty(es: Seq<Seq<char>>)
    requires
        distinct_seq(es),
    ensures
        push_all(Seq::<Seq<char>>::empty(), es) == es,
    decreases es.len(),
{
    if es.len() > 0 {
        assert(distinct_seq(es.drop_last())) by {
            assert(forall|i: int, j: int|
                #![trigger es.drop_last()[i], es.drop_last()[j]]
                0 <= i < j < es.len() - 1 ==> es.drop_last()[i] != es.drop_last()[j]);
        }
        lemma_push_all_subsumed_from_empty(es.drop_last());
        assert(!es.drop_last().contains(es.last())) by {
            if es.drop_last().contains(es.last()) {
                let k = choose|k: int| 0 <= k < es.len() - 1 && es.drop_last()[k] == es.last();
                assert(es[k] == es[es.len() - 1]);
            }
        }
        assert(push_all(Seq::<Seq<char>>::empty(), es) =~= es);
    }
}

// --- frequency tallies --------------------------------------------------------

/// How often `k` occurs among `keys`.
pub open spec fn count_of(keys: Seq<Seq<char>>, k: Seq<char>) -> nat
    decreases keys.len(),
{
    if keys.len() == 0 {
        0
    } else {
        count_of(keys.drop_last(), k) + if keys.last() == k {
            1nat
        } else {
            0nat
        }
    }
}

/// The views of counted pairs.
pub open spec fn tally_views(v: Seq<(String, u32)>) -> Seq<(Seq<char>, u32)> {
    v.map_values(|p: (String, u32)| (p.0@, p.1))
}

/// Strictly before in a tally: a larger count, or the same count and an
/// earlier key.
pub open spec fn tally_order(a: (Seq<char>, u32), b: (Seq<char>, u32)) -> bool {
    a.1 > b.1 || (a.1 == b.1 && lex_lt(a.0, b.0))
}

/// `t` is the full tally of `keys`: each distinct key once with its exact
/// count, sorted by count descending then key ascending.
pub open spec fn is_full_tally(t: Seq<(Seq<char>, u32)>, keys: Seq<Seq<char>>) -> bool {
    &&& forall|i: int|
        0 <= i < t.len() ==> keys.contains((#[trigger] t[i]).0) && (t[i].1 as nat) == count_of(
            keys,
            t[i].0,
        )
    &&& forall|i: int, j: int| #![trigger t[i], t[j]] 0 <= i < j < t.len() ==> tally_order(
        t[i],
        t[j],
    )
    &&& forall|x: Seq<char>| #[trigger]
        keys.contains(x) ==> exists|i: int| #![auto] 0 <= i < t.len() && t[i].0 == x
}

/// How long the tally report may get: everything when `limit` is zero.
pub open spec fn tally_cut(full_len: int, limit: usize) -> int {
    if limit == 0 || full_len <= limit {
        full_len
    } else {
        limit as int
    }
}

proof fn lemma_count_le_len(keys: Seq<Seq<char>>, k: Seq<char>)
    ensures
        count_of(keys, k) <= keys.len(),
    decreases keys.len(),
{
    if keys.len() > 0 {
        lemma_count_le_len(keys.drop_last(), k);
    }
}

/// A permutation of pairs with pairwise-different keys still has pairwise-
/// different keys.
proof fn lemma_perm_key_distinct(a: Seq<(String, u32)>, b: Seq<(String, u32)>)
    requires
        a.to_multiset() == b.to_multiset(),
        forall|i: int, j: int| #![trigger a[i], a[j]] 0 <= i < j < a.len() ==> a[i].0@ != a[j].0@,
    ensures
        forall|i: int, j: int| #![trigger b[i], b[j]] 0 <= i < j < b.len() ==> b[i].0@ != b[j].0@,
{
    a.to_multiset_ensures();
    b.to_multiset_ensures();
    assert forall|i: int, j: int|
        #![trigger b[i], b[j]]
        0 <= i < j < b.len() implies b[i].0@ != b[j].0@ by {
        if b[i].0@ == b[j].0@ {
            if b[i] == b[j] {
                // the same pair twice: its count in the multiset is at least two
                let sub = b.remove(j);
                assert(sub.to_multiset() == b.to_multiset().remove(b[j]));
                assert(sub[i] == b[i]);
                assert(sub.contains(b[i]));
                sub.to_multiset_ensures();
                assert(sub.to_multiset().count(b[i]) > 0);
                assert(a.to_multiset().count(b[j]) >= 2);
                // but in `a` any pair occurs at most once, since keys repeat
                let a1 = choose|k: int| 0 <= k < a.len() && a[k] == b[j];
                let asub = a.remove(a1);
                assert(asub.to_multiset() == a.to_multiset().remove(b[j]));
                assert(asub.to_multiset().count(b[j]) > 0);
                asub.to_multiset_ensures();
                assert(asub.contains(b[j]));
                let a2 = choose|k: int| 0 <= k < asub.len() && asub[k] == b[j];
                if a2 < a1 {
                    assert(a[a2] == b[j]);
                    assert(a[a2].0@ == a[a1].0@);
                } else {
                    assert(a[a2 + 1] == b[j]);
                    assert(a[a1].0@ == a[a2 + 1].0@);
                }
            } else {
                // two different pairs with the same key both come from `a`
                assert(b.contains(b[i]));
                assert(b.to_multiset().count(b[i]) > 0);
                assert(a.to_multiset().count(b[i]) > 0);
                assert(a.contains(b[i]));
                assert(b.contains(b[j]));
                assert(b.to_multiset().count(b[j]) > 0);
                assert(a.to_multiset().count(b[j]) > 0);
                assert(a.contains(b[j]));
                let p = choose|k: int| 0 <= k < a.len() && a[k] == b[i];
                let q = choose|k: int| 0 <= k < a.len() && a[k] == b[j];
                assert(p != q);
                if p < q {
                    assert(a[p].0@ != a[q].0@);
                } else {
                    assert(a[q].0@ != a[p].0@);
                }
            }
        }
    }
}

/// Counts each distinct key and reports the pairs sorted by count
/// descending, ties broken by ascending key, cut to `limit` when nonzero.
pub fn tally(keys: Vec<String>, limit: usize) -> (r: Vec<(Domain, u32)>)
    requires
        keys@.len() <= u32::MAX,
    ensures
        exists|full: Seq<(Seq<char>, u32)>|
            #![auto]
            is_full_tally(full, str_views(keys@)) && tally_views(r@) == full.take(
                tally_cut(full.len() as int, limit),
            ),
{
    let kn = keys.len();
    let mut counts: Vec<(String, u32)> = Vec::new();
    let mut i: usize = 0;
    while i < kn
        invariant
            i <= kn,
            kn == keys@.len(),
            kn <= u32::MAX,
            forall|p: int, q: int|
                #![trigger counts@[p], counts@[q]]
                0 <= p < q < counts@.len() ==> counts@[p].0@ != counts@[q].0@,
            forall|p: int|
                0 <= p < counts@.len() ==> str_views(keys@).take(i as int).contains(
                    (#[trigger] counts@[p]).0@,
                ) && (counts@[p].1 as nat) == count_of(
                    str_views(keys@).take(i as int),
                    counts@[p].0@,
                ),
            forall|x: Seq<char>| #[trigger]
                str_views(keys@).take(i as int).contains(x) ==> exists|p: int|
                    #![auto]
                    0 <= p < counts@.len() && counts@[p].0@ == x,
        decreases kn - i,
    {
        proof {
            let kv = str_views(keys@);
            assert(kv.take(i + 1 as int).drop_last() =~= kv.take(i as int));
            assert(kv.take(i + 1 as int).last() == keys@[i as int]@);
            lemma_count_le_len(kv.take(i as int), keys@[i as int]@);
        }
        let key = &keys[i];
        let cn = counts.len();
        let mut p: usize = 0;
        let mut found = false;
        while p < cn && !found
            invariant
                p <= cn,
                cn == counts@.len(),
                !found ==> forall|q: int| 0 <= q < p ==> (#[trigger] counts@[q]).0@ != key@,
                found ==> p >= 1 && counts@[p - 1].0@ == key@,
            decreases cn - p,
        {
            if counts[p].0.eq(key) {
                found = true;
            }
            p += 1;
        }
        if found {
            let idx = p - 1;
            let c = counts[idx].1;
            proof {
                let kv = str_views(keys@);
                assert((c as nat) == count_of(kv.take(i as int), key@));
                lemma_count_le_len(kv.take(i as int), key@);
            }
            let ghost cpre = counts@;
            counts[idx].1 = c + 1;
            proof {
                let kv = str_views(keys@);
                assert(counts@.len() == cpre.len());
                assert(counts@[idx as int].0 == cpre[idx as int].0);
                assert(counts@[idx as int].1 == c + 1);
                assert(forall|q: int|
                    0 <= q < counts@.len() && q != idx ==> #[trigger] counts@[q] == cpre[q]);
                assert forall|x: Seq<char>| #[trigger]
                    kv.take(i + 1 as int).contains(x) implies exists|q: int|
                    #![auto]
                    0 <= q < counts@.len() && counts@[q].0@ == x by {
                    let t1 = kv.take(i + 1 as int);
                    let k = choose|k: int| 0 <= k < t1.len() && t1[k] == x;
                    if k < i {
                        assert(kv.take(i as int)[k] == x);
                        assert(kv.take(i as int).contains(x));
                        let q = choose|q: int| #![auto] 0 <= q < cpre.len() && cpre[q].0@ == x;
                        assert(counts@[q].0@ == x);
                    } else {
                        assert(x == key@);
                        assert(counts@[idx as int].0@ == x);
                    }
                }
                assert forall|q: int|
                    0 <= q < counts@.len() implies kv.take(i + 1 as int).contains(
                    (#[trigger] counts@[q]).0@,
                ) && (counts@[q].1 as nat) == count_of(kv.take(i + 1 as int), counts@[q].0@) by {
                    assert(kv.take(i as int).contains(counts@[q].0@) || q == idx);
                    if kv.take(i as int).contains(counts@[q].0@) {
                        let k = choose|k: int|
                            0 <= k < i && kv.take(i as int)[k] == counts@[q].0@;
                        assert(kv.take(i + 1 as int)[k] == counts@[q].0@);
                        assert(kv.take(i + 1 as int).contains(counts@[q].0@));
                    } else {
                        assert(kv.take(i + 1 as int)[i as int] == counts@[q].0@);
                        assert(kv.take(i + 1 as int).contains(counts@[q].0@));
                    }
                }
            }
        } else {
            proof {
                let kv = str_views(keys@);
                assert(count_of(kv.take(i as int), key@) == 0) by {
                    lemma_count_zero(kv.take(i as int), key@, counts@);
                }
            }
            let ghost cpre = counts@;
            counts.push((key.clone(), 1));
            proof {
                let kv = str_views(keys@);
                let ghost cc = counts@;
                assert(cc.drop_last() =~= cpre);
                assert forall|x: Seq<char>| #[trigger]
                    kv.take(i + 1 as int).contains(x) implies exists|q: int|
                    #![auto]
                    0 <= q < cc.len() && cc[q].0@ == x by {
                    let t1 = kv.take(i + 1 as int);
                    let k = choose|k: int| 0 <= k < t1.len() && t1[k] == x;
                    if k < i {
                        assert(kv.take(i as int)[k] == x);
                        assert(kv.take(i as int).contains(x));
                        let q = choose|q: int| #![auto] 0 <= q < cpre.len() && cpre[q].0@ == x;
                        assert(cc[q] == cpre[q]);
                        assert(cc[q].0@ == x);
                    } else {
                        assert(x == key@);
                        assert(cc[cc.len() - 1].0@ == x);
                    }
                }
                assert forall|q: int|
                    0 <= q < counts@.len() implies kv.take(i + 1 as int).contains(
                    (#[trigger] counts@[q]).0@,
                ) && (counts@[q].1 as nat) == count_of(kv.take(i + 1 as int), counts@[q].0@) by {
                    if q < counts@.len() - 1 {
                        assert(kv.take(i as int).contains(counts@[q].0@));
                        let k = choose|k: int|
                            0 <= k < i && kv.take(i as int)[k] == counts@[q].0@;
                        assert(kv.take(i + 1 as int)[k] == counts@[q].0@);
                        assert(kv.take(i + 1 as int).contains(counts@[q].0@));
                        assert(counts@[q].0@ != key@);
                    } else {
                        assert(counts@[q].0@ == key@);
                        assert(kv.take(i + 1 as int)[i as int] == key@);
                        assert(kv.take(i + 1 as int).contains(key@));
                    }
                }
            }
        }
        i += 1;
    }
    proof {
        assert(str_views(keys@).take(kn as int) =~= str_views(keys@));
    }
    let ghost pre_sort = counts@;
    crate::utils::sort_items(&mut counts);
    proof {
        lemma_perm_key_distinct(pre_sort, counts@);
        counts@.to_multiset_ensures();
        pre_sort.to_multiset_ensures();
        let kv = str_views(keys@);
        assert forall|q: int|
            0 <= q < counts@.len() implies kv.contains((#[trigger] counts@[q]).0@) && (
        counts@[q].1 as nat) == count_of(kv, counts@[q].0@) by {
            assert(counts@.contains(counts@[q]));
            assert(counts@.to_multiset().count(counts@[q]) > 0);
            assert(pre_sort.to_multiset().count(counts@[q]) > 0);
            assert(pre_sort.contains(counts@[q]));
            let w = choose|w: int| 0 <= w < pre_sort.len() && pre_sort[w] == counts@[q];
            assert(kv.contains(pre_sort[w].0@));
        }
        assert forall|x: Seq<char>| #[trigger] kv.contains(x) implies exists|q: int|
            #![auto]
            0 <= q < counts@.len() && counts@[q].0@ == x by {
            let w = choose|w: int| #![auto] 0 <= w < pre_sort.len() && pre_sort[w].0@ == x;
            assert(pre_sort.contains(pre_sort[w]));
            assert(pre_sort.to_multiset().count(pre_sort[w]) > 0);
            assert(counts@.to_multiset().count(pre_sort[w]) > 0);
            assert(counts@.contains(pre_sort[w]));
            let q = choose|q: int| 0 <= q < counts@.len() && counts@[q] == pre_sort[w];
            assert(counts@[q].0@ == x);
        }
        assert forall|p: int, q: int|
            #![trigger tally_views(counts@)[p], tally_views(counts@)[q]]
            0 <= p < q < counts@.len() implies tally_order(
            tally_views(counts@)[p],
            tally_views(counts@)[q],
        ) by {
            let a = counts@[p];
            let b = counts@[q];
            assert(a.le_spec(&b));
            assert(a.0@ != b.0@);
            if a.1 == b.1 {
                crate::text::lemma_lex_conn(a.0@, b.0@);
            }
            assert(tally_views(counts@)[p] == (a.0@, a.1));
            assert(tally_views(counts@)[q] == (b.0@, b.1));
        }
        assert(tally_views(counts@).len() == counts@.len());
        assert(forall|q: int|
            0 <= q < counts@.len() ==> #[trigger] tally_views(counts@)[q] == (
            counts@[q].0@,
            counts@[q].1,
        ));
        assert forall|x: Seq<char>| #[trigger] kv.contains(x) implies exists|q: int|
            #![auto]
            0 <= q < tally_views(counts@).len() && tally_views(counts@)[q].0 == x by {
            let q = choose|q: int| #![auto] 0 <= q < counts@.len() && counts@[q].0@ == x;
            assert(tally_views(counts@)[q].0 == x);
        }
        assert(is_full_tally(tally_views(counts@), kv));
    }
    let ghost full = tally_views(counts@);
    if limit > 0 && counts.len() > limit {
        counts.truncate(limit);
        proof {
            assert(tally_views(counts@) =~= full.take(limit as int));
        }
    }
    proof {
        assert(tally_views(counts@) =~= full.take(tally_cut(full.len() as int, limit)));
    }
    counts
}

proof fn lemma_count_zero(kv: Seq<Seq<char>>, k: Seq<char>, cc: Seq<(String, u32)>)
    requires
        forall|x: Seq<char>| #[trigger]
            kv.contains(x) ==> exists|p: int| #![auto] 0 <= p < cc.len() && cc[p].0@ == x,
        forall|p: int| 0 <= p < cc.len() ==> (#[trigger] cc[p]).0@ != k,
    ensures
        count_of(kv, k) == 0,
    decreases kv.len(),
{
    if kv.len() > 0 {
        assert forall|x: Seq<char>| #[trigger] kv.drop_last().contains(x) implies exists|p: int|
            #![auto]
            0 <= p < cc.len() && cc[p].0@ == x by {
            let w = choose|w: int| 0 <= w < kv.len() - 1 && kv.drop_last()[w] == x;
            assert(kv[w] == x);
            assert(kv.contains(x));
        }
        lemma_count_zero(kv.drop_last(), k, cc);
        if kv.last() == k {
            assert(kv[kv.len() - 1] == k);
            assert(kv.contains(k));
        }
    }
}

// --- report keys --------------------------------------------------------------

/// The tally key of a domain's TLD.
pub open spec fn tld_key(d: Seq<char>) -> Seq<char> {
    lower_of(tld_part(d))
}

pub open spec fn tld_keys(ds: Seq<Seq<char>>) -> Seq<Seq<char>> {
    ds.map_values(|d: Seq<char>| tld_key(d))
}

/// The tally key of a domain's registrable part: its last two labels.
pub open spec fn root_key(d: Seq<char>) -> Seq<char> {
    lower_of(root_part(d) + seq!['.'] + tld_part(d))
}

/// One root key for every domain with at least two labels.
pub open spec fn root_keys(ds: Seq<Seq<char>>) -> Seq<Seq<char>>
    decreases ds.len(),
{
    if ds.len() == 0 {
        Seq::empty()
    } else {
        let p = root_keys(ds.drop_last());
        if split_char(ds.last(), '.').len() >= 2 {
            p.push(root_key(ds.last()))
        } else {
            p
        }
    }
}

/// The subdomain labels worth counting: longer than three characters.
pub open spec fn subs_from(parts: Seq<Seq<char>>) -> Seq<Seq<char>>
    decreases parts.len(),
{
    if parts.len() == 0 {
        Seq::empty()
    } else {
        let p = subs_from(parts.drop_last());
        if parts.last().len() > 3 {
            p.push(lower_of(parts.last()))
        } else {
            p
        }
    }
}

/// The counted subdomain labels of one domain: everything but the last two.
pub open spec fn sub_keys_of(d: Seq<char>) -> Seq<Seq<char>> {
    let p = split_char(d, '.');
    if p.len() > 2 {
        subs_from(p.take(p.len() - 2))
    } else {
        Seq::empty()
    }
}

pub open spec fn sub_keys(ds: Seq<Seq<char>>) -> Seq<Seq<char>>
    decreases ds.len(),
{
    if ds.len() == 0 {
        Seq::empty()
    } else {
        sub_keys(ds.drop_last()) + sub_keys_of(ds.last())
    }
}

/// Every window of width `w` over `t`, stride one.
pub open spec fn windows(t: Seq<char>, w: int) -> Seq<Seq<char>>
    decreases t.len(),
{
    if w <= 0 || t.len() < w {
        Seq::empty()
    } else if t.len() == w {
        seq![t]
    } else {
        windows(t.drop_last(), w).push(t.subrange(t.len() - w, t.len() as int))
    }
}

pub open spec fn map_lower(ts: Seq<Seq<char>>) -> Seq<Seq<char>> {
    ts.map_values(|t: Seq<char>| lower_of(t))
}

/// The chunk keys of one domain: windows over each counted subdomain label
/// longer than the window.
pub open spec fn chunks_from(parts: Seq<Seq<char>>, w: int) -> Seq<Seq<char>>
    decreases parts.len(),
{
    if parts.len() == 0 {
        Seq::empty()
    } else {
        let p = chunks_from(parts.drop_last(), w);
        if parts.last().len() > 3 && parts.last().len() > w {
            p + map_lower(windows(parts.last(), w))
        } else {
            p
        }
    }
}

pub open spec fn chunk_keys_of(d: Seq<char>, w: int) -> Seq<Seq<char>> {
    let p = split_char(d, '.');
    if p.len() > 2 {
        chunks_from(p.take(p.len() - 2), w)
    } else {
        Seq::empty()
    }
}

pub open spec fn chunk_keys(ds: Seq<Seq<char>>, w: int) -> Seq<Seq<char>>
    decreases ds.len(),
{
    if ds.len() == 0 {
        Seq::empty()
    } else {
        chunk_keys(ds.drop_last(), w) + chunk_keys_of(ds.last(), w)
    }
}

fn tld_key_list(d: &Domains) -> (r: Vec<String>)
    ensures
        str_views(r@) == tld_keys(domain_elems(*d)),
        r@.len() == domain_elems(*d).len(),
{
    let ds = domains_vec(d);
    let n = ds.len();
    let mut out: Vec<String> = Vec::new();
    let mut i: usize = 0;
    while i < n
        invariant
            i <= n,
            n == ds@.len(),
            str_views(ds@) == domain_elems(*d),
            str_views(out@) == tld_keys(domain_elems(*d).take(i as int)),
            out@.len() == i,
        decreases n - i,
    {
        let parts = split_on(ds[i].as_str(), '.');
        let key = lowercase(parts[parts.len() - 1].as_str());
        proof {
            let dv = domain_elems(*d);
            assert(str_views(parts@) == split_char(ds@[i as int]@, '.'));
            assert(str_views(parts@)[parts@.len() - 1] == parts@[parts@.len() - 1]@);
            assert(key@ == tld_key(dv[i as int]));
        }
        let ghost out0 = out@;
        out.push(key);
        proof {
            let dv = domain_elems(*d);
            let tk = tld_keys(dv.take(i + 1 as int));
            assert(tld_keys(dv.take(i as int)).len() == i);
            assert(tk.len() == i + 1);
            assert forall|k: int| 0 <= k <= i implies str_views(out@)[k] == tk[k] by {
                if k < i {
                    assert(str_views(out0)[k] == tld_keys(dv.take(i as int))[k]);
                    assert(tld_keys(dv.take(i as int))[k] == tld_key(dv.take(i as int)[k]));
                    assert(tk[k] == tld_key(dv.take(i + 1 as int)[k]));
                    assert(str_views(out@)[k] == out0[k]@);
                    assert(str_views(out0)[k] == out0[k]@);
                } else {
                    assert(tk[k] == tld_key(dv.take(i + 1 as int)[k]));
                }
            }
            assert(str_views(out@) =~= tk);
        }
        i += 1;
    }
    proof {
        assert(domain_elems(*d).take(n as int) =~= domain_elems(*d));
    }
    out
}

fn root_key_list(d: &Domains) -> (r: Vec<String>)
    ensures
        str_views(r@) == root_keys(domain_elems(*d)),
        r@.len() <= domain_elems(*d).len(),
{
    let ds = domains_vec(d);
    let n = ds.len();
    let mut out: Vec<String> = Vec::new();
    let mut i: usize = 0;
    while i < n
        invariant
            i <= n,
            n == ds@.len(),
            str_views(ds@) == domain_elems(*d),
            str_views(out@) == root_keys(domain_elems(*d).take(i as int)),
            out@.len() <= i,
        decreases n - i,
    {
        proof {
            let dv = domain_elems(*d);
            assert(dv.take(i + 1 as int).drop_last() =~= dv.take(i as int));
            assert(dv.take(i + 1 as int).last() == ds@[i as int]@);
        }
        let parts = split_on(ds[i].as_str(), '.');
        if parts.len() >= 2 {
            let mut joined = parts[parts.len() - 2].clone();
            joined.append(".");
            joined.append(parts[parts.len() - 1].as_str());
            let key = lowercase(joined.as_str());
            proof {
                reveal_strlit(".");
                assert("."@ =~= seq!['.']);
                let pv = str_views(parts@);
                assert(pv[pv.len() - 2] == parts@[parts@.len() - 2]@);
                assert(pv[pv.len() - 1] == parts@[parts@.len() - 1]@);
                assert(joined@ == root_part(ds@[i as int]@) + seq!['.'] + tld_part(
                    ds@[i as int]@,
                ));
                assert(key@ == root_key(ds@[i as int]@));
            }
            let ghost out0 = out@;
            out.push(key);
            proof {
                assert(str_views(out@) =~= str_views(out0).push(root_key(ds@[i as int]@)));
            }
        }
        i += 1;
    }
    proof {
        assert(domain_elems(*d).take(n as int) =~= domain_elems(*d));
    }
    out
}

fn sub_key_list(d: &Domains) -> (r: Vec<String>)
    ensures
        str_views(r@) == sub_keys(domain_elems(*d)),
{
    let ds = domains_vec(d);
    let n = ds.len();
    let mut out: Vec<String> = Vec::new();
    let mut i: usize = 0;
    while i < n
        invariant
            i <= n,
            n == ds@.len(),
            str_views(ds@) == domain_elems(*d),
            str_views(out@) == sub_keys(domain_elems(*d).take(i as int)),
        decreases n - i,
    {
        proof {
            let dv = domain_elems(*d);
            assert(dv.take(i + 1 as int).drop_last() =~= dv.take(i as int));
            assert(dv.take(i + 1 as int).last() == ds@[i as int]@);
        }
        let parts = split_on(ds[i].as_str(), '.');
        if parts.len() > 2 {
            let upto = parts.len() - 2;
            let mut j: usize = 0;
            while j < upto
                invariant
                    j <= upto,
                    upto == parts@.len() - 2,
                    parts@.len() > 2,
                    str_views(parts@) == split_char(ds@[i as int]@, '.'),
                    n == ds@.len(),
                    i < n,
                    str_views(ds@) == domain_elems(*d),
                    str_views(out@) == sub_keys(domain_elems(*d).take(i as int)) + subs_from(
                        str_views(parts@).take(upto as int).take(j as int),
                    ),
                decreases upto - j,
            {
                proof {
                    let pv = str_views(parts@).take(upto as int);
                    assert(pv.take(j + 1 as int).drop_last() =~= pv.take(j as int));
                    assert(pv.take(j + 1 as int).last() == parts@[j as int]@);
                }
                let seg = &parts[j];
                if seg.unicode_len() > 3 {
                    let key = lowercase(seg.as_str());
                    let ghost out0 = out@;
                    out.push(key);
                    proof {
                        assert(str_views(out@) =~= str_views(out0).push(
                            lower_of(parts@[j as int]@),
                        ));
                    }
                }
                j += 1;
            }
            proof {
                let pv = str_views(parts@);
                assert(pv.take(upto as int).take(upto as int) =~= pv.take(upto as int));
                assert(sub_keys_of(ds@[i as int]@) == subs_from(pv.take(upto as int)));
            }
        } else {
            proof {
                assert(sub_keys_of(ds@[i as int]@) =~= Seq::<Seq<char>>::empty());
                assert(str_views(out@) =~= sub_keys(domain_elems(*d).take(i as int))
                    + sub_keys_of(ds@[i as int]@));
            }
        }
        i += 1;
    }
    proof {
        assert(domain_elems(*d).take(n as int) =~= domain_elems(*d));
    }
    out
}

fn chunk_key_list(d: &Domains, w: usize) -> (r: Vec<String>)
    requires
        w >= 1,
    ensures
        str_views(r@) == chunk_keys(domain_elems(*d), w as int),
{
    let ds = domains_vec(d);
    let n = ds.len();
    let mut out: Vec<String> = Vec::new();
    let mut i: usize = 0;
    while i < n
        invariant
            i <= n,
            w >= 1,
            n == ds@.len(),
            str_views(ds@) == domain_elems(*d),
            str_views(out@) == chunk_keys(domain_elems(*d).take(i as int), w as int),
        decreases n - i,
    {
        proof {
            let dv = domain_elems(*d);
            assert(dv.take(i + 1 as int).drop_last() =~= dv.take(i as int));
            assert(dv.take(i + 1 as int).last() == ds@[i as int]@);
        }
        let parts = split_on(ds[i].as_str(), '.');
        if parts.len() > 2 {
            let upto = parts.len() - 2;
            let mut j: usize = 0;
            while j < upto
                invariant
                    j <= upto,
                    w >= 1,
                    upto == parts@.len() - 2,
                    parts@.len() > 2,
                    str_views(parts@) == split_char(ds@[i as int]@, '.'),
                    n == ds@.len(),
                    i < n,
                    str_views(ds@) == domain_elems(*d),
                    str_views(out@) == chunk_keys(domain_elems(*d).take(i as int), w as int)
                        + chunks_from(str_views(parts@).take(upto as int).take(j as int), w as int),
                decreases upto - j,
            {
                proof {
                    let pv = str_views(parts@).take(upto as int);
                    assert(pv.take(j + 1 as int).drop_last() =~= pv.take(j as int));
                    assert(pv.take(j + 1 as int).last() == parts@[j as int]@);
                }
                let seg = str_chars(parts[j].as_str());
                let seg_len = seg.len();
                if seg_len > 3 && seg_len > w {
                    let ghost tv = parts@[j as int]@;
                    let count = seg_len - w;
                    let mut st: usize = 0;
                    while st <= count
                        invariant
                            st <= count + 1,
                            w >= 1,
                            count == seg_len - w,
                            seg_len == seg@.len(),
                            seg@ == parts@[j as int]@,
                            str_views(out@) == chunk_keys(
                                domain_elems(*d).take(i as int),
                                w as int,
                            ) + chunks_from(
                                str_views(parts@).take(upto as int).take(j as int),
                                w as int,
                            ) + map_lower(windows(seg@.take(st + w - 1 as int), w as int)),
                            n == ds@.len(),
                            i < n,
                            j < upto,
                            upto == parts@.len() - 2,
                            parts@.len() > 2,
                            str_views(ds@) == domain_elems(*d),
                            str_views(parts@) == split_char(ds@[i as int]@, '.'),
                        decreases count + 1 - st,
                    {
                        let mut wchars: Vec<char> = Vec::new();
                        let mut m: usize = st;
                        while m < st + w
                            invariant
                                st <= m <= st + w,
                                st + w <= seg_len,
                                seg_len == seg@.len(),
                                wchars@ == seg@.subrange(st as int, m as int),
                            decreases st + w - m,
                        {
                            wchars.push(seg[m]);
                            proof {
                                assert(wchars@ =~= seg@.subrange(st as int, m + 1 as int));
                            }
                            m += 1;
                        }
                        let window = string_from_chars(&wchars);
                        let key = lowercase(window.as_str());
                        let ghost out0 = out@;
                        out.push(key);
                        proof {
                            let t0 = seg@.take(st + w - 1 as int);
                            let t1 = seg@.take(st + w as int);
                            assert(t1.drop_last() =~= t0);
                            if st == 0 {
                                assert(t1.len() == w);
                                assert(windows(t1, w as int) == seq![t1]);
                                assert(t1 =~= seg@.subrange(0, w as int));
                                assert(windows(t0, w as int) =~= Seq::<Seq<char>>::empty());
                            } else {
                                assert(t1.len() > w);
                                assert(windows(t1, w as int) == windows(t0, w as int).push(
                                    t1.subrange(t1.len() - w, t1.len() as int),
                                ));
                                assert(t1.subrange(t1.len() - w, t1.len() as int) =~= seg@.subrange(
                                    st as int,
                                    st + w as int,
                                ));
                            }
                            assert(wchars@ =~= seg@.subrange(st as int, st + w as int));
                            assert(str_views(out@) =~~= str_views(out0).push(
                                lower_of(seg@.subrange(st as int, st + w as int)),
                            ));
                            assert(map_lower(windows(t1, w as int)) =~~= map_lower(
                                windows(t0, w as int),
                            ).push(lower_of(seg@.subrange(st as int, st + w as int))));
                        }
                        st += 1;
                    }
                    proof {
                        assert(seg@.take(count + w as int) =~= seg@);
                        assert(chunks_from(
                            str_views(parts@).take(upto as int).take(j + 1 as int),
                            w as int,
                        ) =~~= chunks_from(
                            str_views(parts@).take(upto as int).take(j as int),
                            w as int,
                        ) + map_lower(windows(seg@, w as int)));
                    }
                } else {
                    proof {
                        let pv = str_views(parts@).take(upto as int);
                        assert(chunks_from(pv.take(j + 1 as int), w as int) =~~= chunks_from(
                            pv.take(j as int),
                            w as int,
                        ));
                    }
                }
                j += 1;
            }
            proof {
                let pv = str_views(parts@);
                assert(pv.take(upto as int).take(upto as int) =~= pv.take(upto as int));
                assert(chunk_keys_of(ds@[i as int]@, w as int) == chunks_from(
                    pv.take(upto as int),
                    w as int,
                ));
            }
        } else {
            proof {
                assert(chunk_keys_of(ds@[i as int]@, w as int) =~= Seq::<Seq<char>>::empty());
                assert(str_views(out@) =~= chunk_keys(domain_elems(*d).take(i as int), w as int)
                    + chunk_keys_of(ds@[i as int]@, w as int));
            }
        }
        i += 1;
    }
    proof {
        assert(domain_elems(*d).take(n as int) =~= domain_elems(*d));
    }
    out
}

impl Hostssource {
    /// The TLD tally: counts per final label, case folded, most frequent
    /// first, cut to the configured limit.
    pub fn tld(&self) -> (r: Vec<(Domain, u32)>)
        requires
            domain_elems(self.domains).len() <= u32::MAX,
        ensures
            exists|full: Seq<(Seq<char>, u32)>|
                #![auto]
                is_full_tally(full, tld_keys(domain_elems(self.domains))) && tally_views(r@)
                    == full.take(tally_cut(full.len() as int, self.args.limit)),
    {
        let keys = tld_key_list(&self.domains);
        tally(keys, self.args.limit)
    }

    /// The root-domain tally: counts per last two labels, case folded.
    pub fn rootdomains(&self) -> (r: Vec<(Domain, u32)>)
        requires
            domain_elems(self.domains).len() <= u32::MAX,
        ensures
            exists|full: Seq<(Seq<char>, u32)>|
                #![auto]
                is_full_tally(full, root_keys(domain_elems(self.domains))) && tally_views(r@)
                    == full.take(tally_cut(full.len() as int, self.args.limit)),
    {
        let keys = root_key_list(&self.domains);
        proof {
            lemma_root_keys_len(domain_elems(self.domains));
        }
        tally(keys, self.args.limit)
    }

    /// The subdomain tally: counts per label before the last two, for labels
    /// longer than three characters, case folded.
    pub fn subdomains(&self) -> (r: Vec<(Domain, u32)>)
        requires
            sub_keys(domain_elems(self.domains)).len() <= u32::MAX,
        ensures
            exists|full: Seq<(Seq<char>, u32)>|
                #![auto]
                is_full_tally(full, sub_keys(domain_elems(self.domains))) && tally_views(r@)
                    == full.take(tally_cut(full.len() as int, self.args.limit)),
    {
        let keys = sub_key_list(&self.domains);
        proof {
            assert(str_views(keys@).len() == keys@.len());
        }
        tally(keys, self.args.limit)
    }

    /// The chunked-subdomain tally: windows of the configured width over
    /// each counted subdomain label, or nothing when chunking is off.
    pub fn chunked_subdomains(&self) -> (r: Option<Vec<(Domain, u32)>>)
        requires
            self.args.chunking matches Some(w) ==> w >= 1 && chunk_keys(
                domain_elems(self.domains),
                w as int,
            ).len() <= u32::MAX,
        ensures
            r is Some <==> self.args.chunking is Some,
            self.args.chunking matches Some(w) ==> (r matches Some(v) ==> exists|
                full: Seq<(Seq<char>, u32)>,
            |
                #![auto]
                is_full_tally(full, chunk_keys(domain_elems(self.domains), w as int))
                    && tally_views(v@) == full.take(
                    tally_cut(full.len() as int, self.args.limit),
                )),
    {
        match self.args.chunking {
            None => None,
            Some(w) => {
                let keys = chunk_key_list(&self.domains, w);
                proof {
                    assert(str_views(keys@).len() == keys@.len());
                }
                Some(tally(keys, self.args.limit))
            },
        }
    }
}

proof fn lemma_root_keys_len(ds: Seq<Seq<char>>)
    ensures
        root_keys(ds).len() <= ds.len(),
    decreases ds.len(),
{
    if ds.len() > 0 {
        lemma_root_keys_len(ds.drop_last());
    }
}

impl Amalgam {
    /// The amalgamated domains in hierarchical order.
    pub fn sorteddomains(&self) -> (v: Vec<Domain>)
        ensures
            str_views(v@).to_multiset() == domain_elems(self.domains).to_multiset(),
            hier_ordered(str_views(v@)),
    {
        let mut v = domains_vec(&self.domains);
        sort_hier(&mut v);
        v
    }

    /// The TLD tally over the amalgamated domains.
    pub fn tld(&self) -> (r: Vec<(Domain, u32)>)
        requires
            domain_elems(self.domains).len() <= u32::MAX,
        ensures
            exists|full: Seq<(Seq<char>, u32)>|
                #![auto]
                is_full_tally(full, tld_keys(domain_elems(self.domains))) && tally_views(r@)
                    == full.take(tally_cut(full.len() as int, self.args.limit)),
    {
        let keys = tld_key_list(&self.domains);
        tally(keys, self.args.limit)
    }

    /// The root-domain tally over the amalgamated domains.
    pub fn rootdomains(&self) -> (r: Vec<(Domain, u32)>)
        requires
            domain_elems(self.domains).len() <= u32::MAX,
        ensures
            exists|full: Seq<(Seq<char>, u32)>|
                #![auto]
                is_full_tally(full, root_keys(domain_elems(self.domains))) && tally_views(r@)
                    == full.take(tally_cut(full.len() as int, self.args.limit)),
    {
        let keys = root_key_list(&self.domains);
        proof {
            lemma_root_keys_len(domain_elems(self.domains));
        }
        tally(keys, self.args.limit)
    }

    /// The subdomain tally over the amalgamated domains.
    pub fn subdomains(&self) -> (r: Vec<(Domain, u32)>)
        requires
            sub_keys(domain_elems(self.domains)).len() <= u32::MAX,
        ensures
            exists|full: Seq<(Seq<char>, u32)>|
                #![auto]
                is_full_tally(full, sub_keys(domain_elems(self.domains))) && tally_views(r@)
                    == full.take(tally_cut(full.len() as int, self.args.limit)),
    {
        let keys = sub_key_list(&self.domains);
        proof {
            assert(str_views(keys@).len() == keys@.len());
        }
        tally(keys, self.args.limit)
    }

    /// The chunked-subdomain tally over the amalgamated domains.
    pub fn chunked_subdomains(&self) -> (r: Option<Vec<(Domain, u32)>>)
        requires
            self.args.chunking matches Some(w) ==> w >= 1 && chunk_keys(
                domain_elems(self.domains),
                w as int,
            ).len() <= u32::MAX,
        ensures
            r is Some <==> self.args.chunking is Some,
            self.args.chunking matches Some(w) ==> (r matches Some(v) ==> exists|
                full: Seq<(Seq<char>, u32)>,
            |
                #![auto]
                is_full_tally(full, chunk_keys(domain_elems(self.domains), w as int))
                    && tally_views(v@) == full.take(
                    tally_cut(full.len() as int, self.args.limit),
                )),
    {
        match self.args.chunking {
            None => None,
            Some(w) => {
                let keys = chunk_key_list(&self.domains, w);
                proof {
                    assert(str_views(keys@).len() == keys@.len());
                }
                Some(tally(keys, self.args.limit))
            },
        }
    }
}

} // verus!
