//! Cache keying for fetched list bodies.
//!
//! Remote bodies are cached under a key derived from the normalized source
//! reference; only the key derivation lives here, the on-disk store is the
//! program's concern.
use vstd::prelude::*;
use vstd::string::*;
use crate::text::{str_chars, string_from_chars};
use crate::utils::{digest_of, hash, sort_items, sorted_by_le, u64_hex};

verus! {

/// The views of the strings laid end to end.
pub open spec fn cat_views(vs: Seq<Seq<char>>) -> Seq<char>
    decreases vs.len(),
{
    if vs.len() == 0 {
        Seq::empty()
    } else {
        cat_views(vs.drop_last()) + vs.last()
    }
}

/// The values a cache key can be derived from.
pub enum Cacheable {
    Vec(Vec<String>),
    String(String),
}

/// The errors a cache write can end in; a failed write is not fatal to a
/// load, it only skips caching for that run.
pub enum CacheError {
    WriteFailed,
}

/// The actions of the `cache` subcommand.
pub enum CacheCommands {
    /// Clear the cache.
    Clear,
    /// Prime the cache.
    Prime,
    /// Report on the cache.
    Report,
    /// Information about the cache.
    Info,
}

/// The cache key for a value: its digest in hex.  A list is keyed by the
/// digest of its sorted entries laid end to end.
pub fn get_cache_key(s: Cacheable) -> (r: String)
    ensures
        s matches Cacheable::String(st) ==> r@ == u64_hex(digest_of(st@)),
        s matches Cacheable::Vec(v) ==> exists|ss: Seq<String>|
            #![auto]
            ss.to_multiset() == v@.to_multiset() && sorted_by_le(ss) && r@ == u64_hex(
                digest_of(cat_views(crate::text::str_views(ss))),
            ),
{
    match s {
        Cacheable::Vec(v) => {
            let mut mv = v;
            sort_items(&mut mv);
            let mut acc: Vec<char> = Vec::new();
            let n = mv.len();
            let mut i: usize = 0;
            while i < n
                invariant
                    i <= n,
                    n == mv@.len(),
                    acc@ == cat_views(crate::text::str_views(mv@).take(i as int)),
                decreases n - i,
            {
                proof {
                    let sv = crate::text::str_views(mv@);
                    assert(sv.take(i + 1 as int).drop_last() =~= sv.take(i as int));
                    assert(sv.take(i + 1 as int).last() == mv@[i as int]@);
                }
                let seg = str_chars(mv[i].as_str());
                let seg_len = seg.len();
                let ghost acc0 = acc@;
                let mut k: usize = 0;
                while k < seg_len
                    invariant
                        k <= seg_len,
                        seg_len == seg@.len(),
                        acc@ == acc0 + seg@.take(k as int),
                    decreases seg_len - k,
                {
                    acc.push(seg[k]);
                    proof {
                        assert(acc@ =~= acc0 + seg@.take(k as int + 1));
                    }
                    k += 1;
                }
                proof {
                    assert(seg@.take(seg_len as int) =~= seg@);
                }
                i += 1;
            }
            proof {
                assert(crate::text::str_views(mv@).take(n as int) =~= crate::text::str_views(
                    mv@,
                ));
            }
            hash(string_from_chars(&acc))
        },
        Cacheable::String(st) => hash(st),
    }
}

} // verus!
