//! Ingestion, normalization and analytics for DNS "hosts" blocklists.
//!
//! A hosts list maps a sink IP address to one or more domain names, one line
//! at a time, with `#` comments.  This library normalizes such lines, extracts
//! and validates the domain names they carry, tracks duplicates and invalid
//! tokens, tallies TLDs, root domains and subdomains, sorts domains
//! hierarchically, and amalgamates several sources into one combined set.
//!
//! Everything here is verified; the surrounding command-line program supplies
//! the raw lines (from files, URLs or a cache) and renders the reports.
use vstd::prelude::*;
use vstd::string::StringExecFns;

pub mod cache;
pub mod config;
pub mod text;
pub mod types;
pub mod utils;

verus! {

/// The options that drive loading and reporting, mirroring the command line.
pub struct Arguments {
    pub mainhosts: String,
    pub comparehosts: Option<String>,
    pub isolate: Option<String>,
    pub iplocalhost: String,
    pub adddefaults: bool,
    pub domains_sort: bool,
    pub output: Option<String>,
    pub plain_output: bool,
    pub quiet: bool,
    pub stats: Option<bool>,
    pub intersection_list: bool,
    pub rootdomains: bool,
    pub subdomains: bool,
    pub chunking: Option<usize>,
    pub tld: bool,
    pub limit: usize,
    pub skipheaders: bool,
    pub showduplicates: bool,
    pub showinvalids: bool,
    pub sysclipboard: bool,
    pub uniquelist: bool,
    pub verbose: bool,
    pub command: Option<Commands>,
    pub skipcache: bool,
}

/// The subcommands of the application.
pub enum Commands {
    /// Build hosts files from a formula.
    Build { formula: Option<String> },
    /// Act on the application cache.
    Cache { cacheaction: Option<crate::cache::CacheCommands> },
    /// Initialize cache and templates.
    Init,
    /// Display additional information about the application.
    Info,
}

impl Arguments {
    /// Every flag off, every field empty.
    pub open spec fn is_default(self) -> bool {
        &&& self.mainhosts@ == Seq::<char>::empty()
        &&& self.comparehosts is None
        &&& self.isolate is None
        &&& self.iplocalhost@ == Seq::<char>::empty()
        &&& !self.adddefaults
        &&& !self.domains_sort
        &&& self.output is None
        &&& !self.plain_output
        &&& !self.quiet
        &&& self.stats is None
        &&& !self.intersection_list
        &&& !self.rootdomains
        &&& !self.subdomains
        &&& self.chunking is None
        &&& !self.tld
        &&& self.limit == 0
        &&& !self.skipheaders
        &&& !self.showduplicates
        &&& !self.showinvalids
        &&& !self.sysclipboard
        &&& !self.uniquelist
        &&& !self.verbose
        &&& self.command is None
        &&& !self.skipcache
    }
}

impl Arguments {
    /// The defaults the program starts from: the `base` list as main hosts,
    /// the null-route sink address, and statistics on.
    pub fn new() -> (r: Arguments)
        ensures
            r.mainhosts@ == "https://raw.githubusercontent.com/StevenBlack/hosts/master/hosts"@,
            r.iplocalhost@ == "0.0.0.0"@,
            r.stats == Some(true),
            !r.skipcache,
            r.comparehosts is None,
            !r.tld,
            !r.domains_sort,
            r.limit == 0,
            !r.quiet,
            r.command is None,
    {
        proof {
            let ps = crate::config::spec_shortcuts();
            reveal_strlit("b");
            reveal_strlit("base");
            assert("b"@.len() == 1);
            assert("base"@.len() == 4);
            assert(ps[0].0 == "b"@);
            assert(ps[1].0 == "base"@);
            assert(crate::config::lookup_pairs(ps, "base"@) == crate::config::lookup_pairs(
                ps.drop_first(),
                "base"@,
            ));
            assert(ps.drop_first()[0] == ps[1]);
            assert(crate::config::lookup_pairs(ps.drop_first(), "base"@) == Some(ps[1].1));
        }
        let main = match crate::config::shortcut_url("base") {
            Some(u) => u,
            None => vstd::pervasive::unreached(),
        };
        let mut d = Arguments::default();
        d.mainhosts = main;
        d.iplocalhost = String::from_str("0.0.0.0");
        d.stats = Some(true);
        d.skipcache = false;
        d
    }
}

impl Default for Arguments {
    /// An `Arguments` value with every flag off and nothing requested.
    fn default() -> (r: Arguments)
        ensures
            r.is_default(),
    {
        Arguments {
            mainhosts: String::new(),
            comparehosts: None,
            isolate: None,
            iplocalhost: String::new(),
            adddefaults: false,
            domains_sort: false,
            output: None,
            plain_output: false,
            quiet: false,
            stats: None,
            intersection_list: false,
            rootdomains: false,
            subdomains: false,
            chunking: None,
            tld: false,
            limit: 0,
            skipheaders: false,
            showduplicates: false,
            showinvalids: false,
            sysclipboard: false,
            uniquelist: false,
            verbose: false,
            command: None,
            skipcache: false,
        }
    }
}

} // verus!
