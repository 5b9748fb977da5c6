//! The shortcut table, source recipes and configuration surface.
use vstd::prelude::*;
use vstd::string::*;
use crate::Arguments;
use crate::text::str_views;
use crate::types::Tags;
use crate::utils::Combinations;

verus! {

// --- shortcuts ---------------------------------------------------------------

/// The shortcut table: short code to canonical source URL.
pub open spec fn spec_shortcuts() -> Seq<(Seq<char>, Seq<char>)> {
    seq![
        ("b"@, "https://raw.githubusercontent.com/StevenBlack/hosts/master/hosts"@),
        ("base"@, "https://raw.githubusercontent.com/StevenBlack/hosts/master/hosts"@),
        ("f"@, "https://raw.githubusercontent.com/StevenBlack/hosts/master/alternates/fakenews/hosts"@),
        ("f-only"@, "https://raw.githubusercontent.com/StevenBlack/hosts/master/alternates/fakenews-only/hosts"@),
        ("fg"@, "https://raw.githubusercontent.com/StevenBlack/hosts/master/alternates/fakenews-gambling/hosts"@),
        ("fgp"@, "https://raw.githubusercontent.com/StevenBlack/hosts/master/alternates/fakenews-gambling-porn/hosts"@),
        ("fgps"@, "https://raw.githubusercontent.com/StevenBlack/hosts/master/alternates/fakenews-gambling-porn-social/hosts"@),
        ("fgs"@, "https://raw.githubusercontent.com/StevenBlack/hosts/master/alternates/fakenews-gambling-social/hosts"@),
        ("fp"@, "https://raw.githubusercontent.com/StevenBlack/hosts/master/alternates/fakenews-porn/hosts"@),
        ("fps"@, "https://raw.githubusercontent.com/StevenBlack/hosts/master/alternates/fakenews-porn-social/hosts"@),
        ("fs"@, "https://raw.githubusercontent.com/StevenBlack/hosts/master/alternates/fakenews-social/hosts"@),
        ("g"@, "https://raw.githubusercontent.com/StevenBlack/hosts/master/alternates/gambling/hosts"@),
        ("g-only"@, "https://raw.githubusercontent.com/StevenBlack/hosts/master/alternates/gambling-only/hosts"@),
        ("gp"@, "https://raw.githubusercontent.com/StevenBlack/hosts/master/alternates/gambling-porn/hosts"@),
        ("gps"@, "https://raw.githubusercontent.com/StevenBlack/hosts/master/alternates/gambling-porn-social/hosts"@),
        ("gs"@, "https://raw.githubusercontent.com/StevenBlack/hosts/master/alternates/gambling-social/hosts"@),
        ("p"@, "https://raw.githubusercontent.com/StevenBlack/hosts/master/alternates/porn/hosts"@),
        ("p-only"@, "https://raw.githubusercontent.com/StevenBlack/hosts/master/alternates/porn-only/hosts"@),
        ("ps"@, "https://raw.githubusercontent.com/StevenBlack/hosts/master/alternates/porn-social/hosts"@),
        ("s"@, "https://raw.githubusercontent.com/StevenBlack/hosts/master/alternates/social/hosts"@),
        ("s-only"@, "https://raw.githubusercontent.com/StevenBlack/hosts/master/alternates/social-only/hosts"@),
        ("adaway"@, "https://raw.githubusercontent.com/StevenBlack/hosts/refs/heads/master/data/adaway.org/hosts"@),
        ("add2o7net"@, "https://raw.githubusercontent.com/FadeMind/hosts.extras/master/add.2o7Net/hosts"@),
        ("adddead"@, "https://raw.githubusercontent.com/FadeMind/hosts.extras/master/add.Dead/hosts"@),
        ("addrisk"@, "https://raw.githubusercontent.com/FadeMind/hosts.extras/master/add.Risk/hosts"@),
        ("addspam"@, "https://raw.githubusercontent.com/FadeMind/hosts.extras/master/add.Spam/hosts"@),
        ("baddboyz"@, "https://raw.githubusercontent.com/mitchellkrogza/Badd-Boyz-Hosts/master/hosts"@),
        ("clefspear"@, "https://raw.githubusercontent.com/StevenBlack/hosts/master/extensions/porn/clefspeare13/hosts"@),
        ("fakenews"@, "https://raw.githubusercontent.com/marktron/fakenews/master/fakenews"@),
        ("hostsvn"@, "https://raw.githubusercontent.com/bigdargon/hostsVN/master/option/hosts-VN"@),
        ("kadhosts"@, "https://raw.githubusercontent.com/FiltersHeroes/KADhosts/master/KADhosts.txt"@),
        ("mvps"@, "https://raw.githubusercontent.com/StevenBlack/hosts/refs/heads/master/data/mvps.org/hosts"@),
        ("sinfonietta-gambling"@, "https://raw.githubusercontent.com/Sinfonietta/hostfiles/master/gambling-hosts"@),
        ("sinfonietta-porn"@, "https://raw.githubusercontent.com/Sinfonietta/hostfiles/master/pornography-hosts"@),
        ("sinfonietta-snuff"@, "https://raw.githubusercontent.com/Sinfonietta/hostfiles/master/snuff-hosts"@),
        ("sinfonietta-social"@, "https://raw.githubusercontent.com/Sinfonietta/hostfiles/master/social-hosts"@),
        ("someonewhocares"@, "https://someonewhocares.org/hosts/zero/hosts"@),
        ("stevenblack"@, "https://raw.githubusercontent.com/StevenBlack/hosts/master/data/StevenBlack/hosts"@),
        ("tiuxo-porn"@, "https://raw.githubusercontent.com/tiuxo/hosts/master/porn"@),
        ("tiuxo"@, "https://raw.githubusercontent.com/tiuxo/hosts/master/ads"@),
        ("uncheckyads"@, "https://raw.githubusercontent.com/FadeMind/hosts.extras/master/UncheckyAds/hosts"@),
        ("urlhaus"@, "https://urlhaus.abuse.ch/downloads/hostfile/"@),
        ("yoyo"@, "https://pgl.yoyo.org/adservers/serverlist.php?hostformat=hosts&mimetype=plaintext&useip=0.0.0.0"@),
    ]
}

/// The pairs of views of a code/URL table.
pub open spec fn pair_views(v: Seq<(String, String)>) -> Seq<(Seq<char>, Seq<char>)> {
    v.map_values(|p: (String, String)| (p.0@, p.1@))
}

/// The full shortcut table, code to canonical URL.
#[verifier::rlimit(60)]
pub fn get_shortcuts() -> (r: Vec<(String, String)>)
    ensures
        pair_views(r@) == spec_shortcuts(),
{
    let mut ret: Vec<(String, String)> = Vec::new();
    ret.push((String::from_str("b"), String::from_str("https://raw.githubusercontent.com/StevenBlack/hosts/master/hosts")));
    ret.push((String::from_str("base"), String::from_str("https://raw.githubusercontent.com/StevenBlack/hosts/master/hosts")));
    ret.push((String::from_str("f"), String::from_str("https://raw.githubusercontent.com/StevenBlack/hosts/master/alternates/fakenews/hosts")));
    ret.push((String::from_str("f-only"), String::from_str("https://raw.githubusercontent.com/StevenBlack/hosts/master/alternates/fakenews-only/hosts")));
    ret.push((String::from_str("fg"), String::from_str("https://raw.githubusercontent.com/StevenBlack/hosts/master/alternates/fakenews-gambling/hosts")));
    ret.push((String::from_str("fgp"), String::from_str("https://raw.githubusercontent.com/StevenBlack/hosts/master/alternates/fakenews-gambling-porn/hosts")));
    ret.push((String::from_str("fgps"), String::from_str("https://raw.githubusercontent.com/StevenBlack/hosts/master/alternates/fakenews-gambling-porn-social/hosts")));
    ret.push((String::from_str("fgs"), String::from_str("https://raw.githubusercontent.com/StevenBlack/hosts/master/alternates/fakenews-gambling-social/hosts")));
    ret.push((String::from_str("fp"), String::from_str("https://raw.githubusercontent.com/StevenBlack/hosts/master/alternates/fakenews-porn/hosts")));
    ret.push((String::from_str("fps"), String::from_str("https://raw.githubusercontent.com/StevenBlack/hosts/master/alternates/fakenews-porn-social/hosts")));
    ret.push((String::from_str("fs"), String::from_str("https://raw.githubusercontent.com/StevenBlack/hosts/master/alternates/fakenews-social/hosts")));
    ret.push((String::from_str("g"), String::from_str("https://raw.githubusercontent.com/StevenBlack/hosts/master/alternates/gambling/hosts")));
    ret.push((String::from_str("g-only"), String::from_str("https://raw.githubusercontent.com/StevenBlack/hosts/master/alternates/gambling-only/hosts")));
    ret.push((String::from_str("gp"), String::from_str("https://raw.githubusercontent.com/StevenBlack/hosts/master/alternates/gambling-porn/hosts")));
    ret.push((String::from_str("gps"), String::from_str("https://raw.githubusercontent.com/StevenBlack/hosts/master/alternates/gambling-porn-social/hosts")));
    ret.push((String::from_str("gs"), String::from_str("https://raw.githubusercontent.com/StevenBlack/hosts/master/alternates/gambling-social/hosts")));
    ret.push((String::from_str("p"), String::from_str("https://raw.githubusercontent.com/StevenBlack/hosts/master/alternates/porn/hosts")));
    ret.push((String::from_str("p-only"), String::from_str("https://raw.githubusercontent.com/StevenBlack/hosts/master/alternates/porn-only/hosts")));
    ret.push((String::from_str("ps"), String::from_str("https://raw.githubusercontent.com/StevenBlack/hosts/master/alternates/porn-social/hosts")));
    ret.push((String::from_str("s"), String::from_str("https://raw.githubusercontent.com/StevenBlack/hosts/master/alternates/social/hosts")));
    ret.push((String::from_str("s-only"), String::from_str("https://raw.githubusercontent.com/StevenBlack/hosts/master/alternates/social-only/hosts")));
    ret.push((String::from_str("adaway"), String::from_str("https://raw.githubusercontent.com/StevenBlack/hosts/refs/heads/master/data/adaway.org/hosts")));
    ret.push((String::from_str("add2o7net"), String::from_str("https://raw.githubusercontent.com/FadeMind/hosts.extras/master/add.2o7Net/hosts")));
    ret.push((String::from_str("adddead"), String::from_str("https://raw.githubusercontent.com/FadeMind/hosts.extras/master/add.Dead/hosts")));
    ret.push((String::from_str("addrisk"), String::from_str("https://raw.githubusercontent.com/FadeMind/hosts.extras/master/add.Risk/hosts")));
    ret.push((String::from_str("addspam"), String::from_str("https://raw.githubusercontent.com/FadeMind/hosts.extras/master/add.Spam/hosts")));
    ret.push((String::from_str("baddboyz"), String::from_str("https://raw.githubusercontent.com/mitchellkrogza/Badd-Boyz-Hosts/master/hosts")));
    ret.push((String::from_str("clefspear"), String::from_str("https://raw.githubusercontent.com/StevenBlack/hosts/master/extensions/porn/clefspeare13/hosts")));
    ret.push((String::from_str("fakenews"), String::from_str("https://raw.githubusercontent.com/marktron/fakenews/master/fakenews")));
    ret.push((String::from_str("hostsvn"), String::from_str("https://raw.githubusercontent.com/bigdargon/hostsVN/master/option/hosts-VN")));
    ret.push((String::from_str("kadhosts"), String::from_str("https://raw.githubusercontent.com/FiltersHeroes/KADhosts/master/KADhosts.txt")));
    ret.push((String::from_str("mvps"), String::from_str("https://raw.githubusercontent.com/StevenBlack/hosts/refs/heads/master/data/mvps.org/hosts")));
    ret.push((String::from_str("sinfonietta-gambling"), String::from_str("https://raw.githubusercontent.com/Sinfonietta/hostfiles/master/gambling-hosts")));
    ret.push((String::from_str("sinfonietta-porn"), String::from_str("https://raw.githubusercontent.com/Sinfonietta/hostfiles/master/pornography-hosts")));
    ret.push((String::from_str("sinfonietta-snuff"), String::from_str("https://raw.githubusercontent.com/Sinfonietta/hostfiles/master/snuff-hosts")));
    ret.push((String::from_str("sinfonietta-social"), String::from_str("https://raw.githubusercontent.com/Sinfonietta/hostfiles/master/social-hosts")));
    ret.push((String::from_str("someonewhocares"), String::from_str("https://someonewhocares.org/hosts/zero/hosts")));
    ret.push((String::from_str("stevenblack"), String::from_str("https://raw.githubusercontent.com/StevenBlack/hosts/master/data/StevenBlack/hosts")));
    ret.push((String::from_str("tiuxo-porn"), String::from_str("https://raw.githubusercontent.com/tiuxo/hosts/master/porn")));
    ret.push((String::from_str("tiuxo"), String::from_str("https://raw.githubusercontent.com/tiuxo/hosts/master/ads")));
    ret.push((String::from_str("uncheckyads"), String::from_str("https://raw.githubusercontent.com/FadeMind/hosts.extras/master/UncheckyAds/hosts")));
    ret.push((String::from_str("urlhaus"), String::from_str("https://urlhaus.abuse.ch/downloads/hostfile/")));
    ret.push((String::from_str("yoyo"), String::from_str("https://pgl.yoyo.org/adservers/serverlist.php?hostformat=hosts&mimetype=plaintext&useip=0.0.0.0")));
    proof {
        assert(pair_views(ret@) =~~= spec_shortcuts());
    }
    ret
}

/// The URL a code resolves to: the first matching pair wins.
pub open spec fn lookup_pairs(ps: Seq<(Seq<char>, Seq<char>)>, code: Seq<char>) -> Option<
    Seq<char>,
>
    decreases ps.len(),
{
    if ps.len() == 0 {
        None
    } else if ps[0].0 == code {
        Some(ps[0].1)
    } else {
        lookup_pairs(ps.drop_first(), code)
    }
}

/// What a reference resolves to through the shortcut table.
pub open spec fn shortcut_resolution(code: Seq<char>) -> Option<Seq<char>> {
    lookup_pairs(spec_shortcuts(), code)
}

proof fn lemma_lookup_skip(ps: Seq<(Seq<char>, Seq<char>)>, code: Seq<char>, i: int)
    requires
        0 <= i <= ps.len(),
        forall|k: int| 0 <= k < i ==> (#[trigger] ps[k]).0 != code,
    ensures
        lookup_pairs(ps, code) == lookup_pairs(ps.skip(i), code),
    decreases i,
{
    if i > 0 {
        lemma_lookup_skip(ps.drop_first(), code, i - 1);
        assert(ps.drop_first().skip(i - 1) =~= ps.skip(i));
    } else {
        assert(ps.skip(0) =~= ps);
    }
}

/// Looks a reference up in the shortcut table.
pub fn shortcut_url(src: &str) -> (r: Option<String>)
    ensures
        r is Some <==> shortcut_resolution(src@) is Some,
        r matches Some(u) ==> shortcut_resolution(src@) == Some(u@),
{
    let table = get_shortcuts();
    let n = table.len();
    let mut i: usize = 0;
    while i < n
        invariant
            i <= n,
            n == table@.len(),
            pair_views(table@) == spec_shortcuts(),
            forall|k: int| 0 <= k < i ==> (#[trigger] spec_shortcuts()[k]).0 != src@,
        decreases n - i,
    {
        proof {
            assert(spec_shortcuts()[i as int] == (table@[i as int].0@, table@[i as int].1@));
        }
        if crate::types::string_eq(&table[i].0, src) {
            let u = table[i].1.clone();
            proof {
                lemma_lookup_skip(spec_shortcuts(), src@, i as int);
                assert(spec_shortcuts().skip(i as int)[0] == spec_shortcuts()[i as int]);
            }
            return Some(u);
        }
        i += 1;
    }
    proof {
        lemma_lookup_skip(spec_shortcuts(), src@, n as int);
        assert(spec_shortcuts().skip(n as int) =~= Seq::<(Seq<char>, Seq<char>)>::empty());
    }
    None
}

// --- configuration plumbing ---------------------------------------------------

/// Errors the configuration layer can report.
pub enum CfgError {
    Unavailable,
}

/// Prepares the configuration; nothing is needed beyond the built-in tables.
pub fn init(_args: Arguments) -> (r: Result<(), CfgError>)
    ensures
        r is Ok,
{
    Ok(())
}

// --- the source and product tables -------------------------------------------

/// A named output product and the tags that feed it.
pub struct Component {
    pub name: String,
    pub destination: String,
    pub tags: Tags,
}

pub type Components = Vec<Component>;

/// One upstream hosts list: its name, URL, destination folder and tags.
pub struct SourceSpec {
    pub name: String,
    pub url: String,
    pub destination: String,
    pub tags: Tags,
}

pub type SourcesSpecs = Vec<SourceSpec>;

/// The configured sources.
pub struct Config {
    pub sources: SourcesSpecs,
}

/// The source table: name, url, destination and tags of each upstream list.
pub open spec fn spec_sources() -> Seq<(Seq<char>, Seq<char>, Seq<char>, Seq<Seq<char>>)> {
    seq![
        ("adaway"@, "https://raw.githubusercontent.com/AdAway/adaway.github.io/master/hosts.txt"@, "./data/adaway.org"@, seq!["base"@]),
        ("add2o7net"@, "https://raw.githubusercontent.com/FadeMind/hosts.extras/master/add.2o7Net/hosts"@, "./data/add.2o7net"@, seq!["base"@]),
        ("adddead"@, "https://raw.githubusercontent.com/FadeMind/hosts.extras/master/add.Dead/hosts"@, "./data/add.dead"@, seq!["base"@]),
        ("addrisk"@, "https://raw.githubusercontent.com/FadeMind/hosts.extras/master/add.Risk/hosts"@, "./data/add.risk"@, seq!["base"@]),
        ("addspam"@, "https://raw.githubusercontent.com/FadeMind/hosts.extras/master/add.Spam/hosts"@, "./data/add.spam"@, seq!["base"@]),
        ("baddboyz"@, "https://raw.githubusercontent.com/mitchellkrogza/Badd-Boyz-Hosts/master/hosts"@, "./data/Badd-Boyz-Hosts"@, seq!["base"@]),
        ("bigdargon-gambling"@, "https://raw.githubusercontent.com/bigdargon/hostsVN/master/extensions/gambling/hosts"@, "./extensions/gambling/bigdargon/"@, seq!["gambling"@]),
        ("bigdargon-porn"@, "https://raw.githubusercontent.com/bigdargon/hostsVN/master/extensions/adult/hosts"@, "./extensions/porn/bigdargon/"@, seq!["porn"@]),
        ("clefspear"@, "https://raw.githubusercontent.com/StevenBlack/hosts/master/extensions/porn/clefspeare13/hosts"@, "./extensions/porn/clefspeare13/"@, seq!["porn"@]),
        ("marktron-fakenews"@, "https://raw.githubusercontent.com/marktron/fakenews/master/fakenews"@, "./extensions/fakenews"@, seq!["fakenews"@]),
        ("hostsvn"@, "https://raw.githubusercontent.com/bigdargon/hostsVN/master/option/hosts-VN"@, "./data/hostsVN"@, seq!["base"@]),
        ("kadhosts"@, "https://raw.githubusercontent.com/FiltersHeroes/KADhosts/master/KADhosts.txt"@, "./data/KADhosts"@, seq!["base"@]),
        ("mvps"@, "https://winhelp2002.mvps.org/hosts.txt"@, "./data/mvps.org"@, seq!["base"@]),
        ("sinfonietta-gambling"@, "https://raw.githubusercontent.com/Sinfonietta/hostfiles/master/gambling-hosts"@, "./extensions/gambling"@, seq!["gambling"@]),
        ("sinfonietta-porn"@, "https://raw.githubusercontent.com/Sinfonietta/hostfiles/master/pornography-hosts"@, "./extensions/porn/sinfonietta"@, seq!["porn"@]),
        ("sinfonietta-snuff"@, "https://raw.githubusercontent.com/Sinfonietta/hostfiles/master/snuff-hosts"@, "./extensions/porn/sinfonietta-snuff"@, seq!["porn"@]),
        ("sinfonietta-social"@, "https://raw.githubusercontent.com/Sinfonietta/hostfiles/master/social-hosts"@, "./extensions/social/sinfonietta"@, seq!["social"@]),
        ("someonewhocares"@, "https://someonewhocares.org/hosts/zero/hosts"@, "./data/someonewhocares.org"@, seq!["base"@]),
        ("stevenblack"@, "https://raw.githubusercontent.com/StevenBlack/hosts/master/data/StevenBlack/hosts"@, "./data/StevenBlack"@, seq!["base"@]),
        ("tiuxo-porn"@, "https://raw.githubusercontent.com/tiuxo/hosts/master/porn"@, "./extensions/porn/tiuxo"@, seq!["porn"@]),
        ("tiuxo"@, "https://raw.githubusercontent.com/tiuxo/hosts/master/ads"@, "./data/tiuxo"@, seq!["base"@]),
        ("uncheckyads"@, "https://raw.githubusercontent.com/FadeMind/hosts.extras/master/UncheckyAds/hosts"@, "./data/UncheckyAds"@, seq!["base"@]),
        ("urlhaus"@, "https://urlhaus.abuse.ch/downloads/hostfile/"@, "./data/URLhaus"@, seq!["base"@]),
        ("yoyo"@, "https://pgl.yoyo.org/adservers/serverlist.php?hostformat=hosts&mimetype=plaintext&useip=0.0.0.0"@, "./data/yoyo.org"@, seq!["base"@]),
    ]
}

/// The view of one source table row.
pub open spec fn source_spec_view(s: SourceSpec) -> (Seq<char>, Seq<char>, Seq<char>, Seq<
    Seq<char>,
>) {
    (s.name@, s.url@, s.destination@, str_views(s.tags@))
}

/// The views of a source table.
pub open spec fn source_spec_views(v: Seq<SourceSpec>) -> Seq<
    (Seq<char>, Seq<char>, Seq<char>, Seq<Seq<char>>),
> {
    v.map_values(|s: SourceSpec| source_spec_view(s))
}

/// The built-in source table.
#[verifier::rlimit(100)]
pub fn source_specs() -> (r: Vec<SourceSpec>)
    ensures
        source_spec_views(r@) == spec_sources(),
{
    let mut ret: Vec<SourceSpec> = Vec::new();
    ret.push(SourceSpec {
        name: String::from_str("adaway"),
        url: String::from_str("https://raw.githubusercontent.com/AdAway/adaway.github.io/master/hosts.txt"),
        destination: String::from_str("./data/adaway.org"),
        tags: vec![String::from_str("base")],
    });
    ret.push(SourceSpec {
        name: String::from_str("add2o7net"),
        url: String::from_str("https://raw.githubusercontent.com/FadeMind/hosts.extras/master/add.2o7Net/hosts"),
        destination: String::from_str("./data/add.2o7net"),
        tags: vec![String::from_str("base")],
    });
    ret.push(SourceSpec {
        name: String::from_str("adddead"),
        url: String::from_str("https://raw.githubusercontent.com/FadeMind/hosts.extras/master/add.Dead/hosts"),
        destination: String::from_str("./data/add.dead"),
        tags: vec![String::from_str("base")],
    });
    ret.push(SourceSpec {
        name: String::from_str("addrisk"),
        url: String::from_str("https://raw.githubusercontent.com/FadeMind/hosts.extras/master/add.Risk/hosts"),
        destination: String::from_str("./data/add.risk"),
        tags: vec![String::from_str("base")],
    });
    ret.push(SourceSpec {
        name: String::from_str("addspam"),
        url: String::from_str("https://raw.githubusercontent.com/FadeMind/hosts.extras/master/add.Spam/hosts"),
        destination: String::from_str("./data/add.spam"),
        tags: vec![String::from_str("base")],
    });
    ret.push(SourceSpec {
        name: String::from_str("baddboyz"),
        url: String::from_str("https://raw.githubusercontent.com/mitchellkrogza/Badd-Boyz-Hosts/master/hosts"),
        destination: String::from_str("./data/Badd-Boyz-Hosts"),
        tags: vec![String::from_str("base")],
    });
    ret.push(SourceSpec {
        name: String::from_str("bigdargon-gambling"),
        url: String::from_str("https://raw.githubusercontent.com/bigdargon/hostsVN/master/extensions/gambling/hosts"),
        destination: String::from_str("./extensions/gambling/bigdargon/"),
        tags: vec![String::from_str("gambling")],
    });
    ret.push(SourceSpec {
        name: String::from_str("bigdargon-porn"),
        url: String::from_str("https://raw.githubusercontent.com/bigdargon/hostsVN/master/extensions/adult/hosts"),
        destination: String::from_str("./extensions/porn/bigdargon/"),
        tags: vec![String::from_str("porn")],
    });
    ret.push(SourceSpec {
        name: String::from_str("clefspear"),
        url: String::from_str("https://raw.githubusercontent.com/StevenBlack/hosts/master/extensions/porn/clefspeare13/hosts"),
        destination: String::from_str("./extensions/porn/clefspeare13/"),
        tags: vec![String::from_str("porn")],
    });
    ret.push(SourceSpec {
        name: String::from_str("marktron-fakenews"),
        url: String::from_str("https://raw.githubusercontent.com/marktron/fakenews/master/fakenews"),
        destination: String::from_str("./extensions/fakenews"),
        tags: vec![String::from_str("fakenews")],
    });
    ret.push(SourceSpec {
        name: String::from_str("hostsvn"),
        url: String::from_str("https://raw.githubusercontent.com/bigdargon/hostsVN/master/option/hosts-VN"),
        destination: String::from_str("./data/hostsVN"),
        tags: vec![String::from_str("base")],
    });
    ret.push(SourceSpec {
        name: String::from_str("kadhosts"),
        url: String::from_str("https://raw.githubusercontent.com/FiltersHeroes/KADhosts/master/KADhosts.txt"),
        destination: String::from_str("./data/KADhosts"),
        tags: vec![String::from_str("base")],
    });
    ret.push(SourceSpec {
        name: String::from_str("mvps"),
        url: String::from_str("https://winhelp2002.mvps.org/hosts.txt"),
        destination: String::from_str("./data/mvps.org"),
        tags: vec![String::from_str("base")],
    });
    ret.push(SourceSpec {
        name: String::from_str("sinfonietta-gambling"),
        url: String::from_str("https://raw.githubusercontent.com/Sinfonietta/hostfiles/master/gambling-hosts"),
        destination: String::from_str("./extensions/gambling"),
        tags: vec![String::from_str("gambling")],
    });
    ret.push(SourceSpec {
        name: String::from_str("sinfonietta-porn"),
        url: String::from_str("https://raw.githubusercontent.com/Sinfonietta/hostfiles/master/pornography-hosts"),
        destination: String::from_str("./extensions/porn/sinfonietta"),
        tags: vec![String::from_str("porn")],
    });
    ret.push(SourceSpec {
        name: String::from_str("sinfonietta-snuff"),
        url: String::from_str("https://raw.githubusercontent.com/Sinfonietta/hostfiles/master/snuff-hosts"),
        destination: String::from_str("./extensions/porn/sinfonietta-snuff"),
        tags: vec![String::from_str("porn")],
    });
    ret.push(SourceSpec {
        name: String::from_str("sinfonietta-social"),
        url: String::from_str("https://raw.githubusercontent.com/Sinfonietta/hostfiles/master/social-hosts"),
        destination: String::from_str("./extensions/social/sinfonietta"),
        tags: vec![String::from_str("social")],
    });
    ret.push(SourceSpec {
        name: String::from_str("someonewhocares"),
        url: String::from_str("https://someonewhocares.org/hosts/zero/hosts"),
        destination: String::from_str("./data/someonewhocares.org"),
        tags: vec![String::from_str("base")],
    });
    ret.push(SourceSpec {
        name: String::from_str("stevenblack"),
        url: String::from_str("https://raw.githubusercontent.com/StevenBlack/hosts/master/data/StevenBlack/hosts"),
        destination: String::from_str("./data/StevenBlack"),
        tags: vec![String::from_str("base")],
    });
    ret.push(SourceSpec {
        name: String::from_str("tiuxo-porn"),
        url: String::from_str("https://raw.githubusercontent.com/tiuxo/hosts/master/porn"),
        destination: String::from_str("./extensions/porn/tiuxo"),
        tags: vec![String::from_str("porn")],
    });
    ret.push(SourceSpec {
        name: String::from_str("tiuxo"),
        url: String::from_str("https://raw.githubusercontent.com/tiuxo/hosts/master/ads"),
        destination: String::from_str("./data/tiuxo"),
        tags: vec![String::from_str("base")],
    });
    ret.push(SourceSpec {
        name: String::from_str("uncheckyads"),
        url: String::from_str("https://raw.githubusercontent.com/FadeMind/hosts.extras/master/UncheckyAds/hosts"),
        destination: String::from_str("./data/UncheckyAds"),
        tags: vec![String::from_str("base")],
    });
    ret.push(SourceSpec {
        name: String::from_str("urlhaus"),
        url: String::from_str("https://urlhaus.abuse.ch/downloads/hostfile/"),
        destination: String::from_str("./data/URLhaus"),
        tags: vec![String::from_str("base")],
    });
    ret.push(SourceSpec {
        name: String::from_str("yoyo"),
        url: String::from_str("https://pgl.yoyo.org/adservers/serverlist.php?hostformat=hosts&mimetype=plaintext&useip=0.0.0.0"),
        destination: String::from_str("./data/yoyo.org"),
        tags: vec![String::from_str("base")],
    });
    proof {
        assert(source_spec_views(ret@) =~~= spec_sources());
    }
    ret
}

/// Every tag the source table mentions, with repetition.
pub open spec fn spec_all_tags() -> Seq<Seq<char>> {
    all_tags_of(spec_sources())
}

pub open spec fn all_tags_of(
    rows: Seq<(Seq<char>, Seq<char>, Seq<char>, Seq<Seq<char>>)>,
) -> Seq<Seq<char>>
    decreases rows.len(),
{
    if rows.len() == 0 {
        Seq::empty()
    } else {
        all_tags_of(rows.drop_last()) + rows.last().3
    }
}

/// The product recipes as JSON text.
pub open spec fn spec_products_json() -> Seq<char> {
    r#"[
        {
            "name": "base",
            "destination": "./",
            "tags": ["base"]
        },
        {
            "name": "f-only",
            "destination": "./alternates/fakenews/only",
            "tags": ["fakenews"]
        },
        {
            "name": "f",
            "destination": "./alternates/fakenews",
            "tags": ["base", "fakenews"]
        },
        {
            "name": "fg",
            "destination": "./alternates/fakenews-gamnbling",
            "tags": ["base", "fakenews", "gambling"]
        },
        {
            "name": "fgp",
            "destination": "./alternates/fakenews-gambling-porn",
            "tags": ["base", "fakenews", "gambling", "porn"]
        },
        {
            "name": "fgps",
            "destination": "./alternates/fakenews-gambling-porn-social",
            "tags": ["base", "fakenews", "gambling", "porn", "social"]
        },
        {
            "name": "fgs",
            "destination": "./alternates/fakenews-gambling-social",
            "tags": ["base", "fakenews", "gambling", "social"]
        },
        {
            "name": "fp",
            "destination": "./alternates/fakenews-porn",
            "tags": ["base", "fakenews", "porn"]
        },
        {
            "name": "fps",
            "destination": "./alternates/fakenews-porn-social",
            "tags": ["base", "fakenews", "porn", "social"]
        },
        {
            "name": "fs",
            "destination": "./alternates/fakenews-social",
            "tags": ["base", "fakenews", "social"]
        },
        {
            "name": "g-only",
            "destination": "./alternates/gambling/only",
            "tags": ["gambling"]
        },
        {
            "name": "g",
            "destination": "./alternates/gambling",
            "tags": ["base", "gambling"]
        },
        {
            "name": "gp",
            "destination": "./alternates/gambling-porn",
            "tags": ["base", "gambling", "porn"]
        },
        {
            "name": "gps",
            "destination": "./alternates/gambling-porn-social",
            "tags": ["base", "gambling", "porn", "social"]
        },
        {
            "name": "gs",
            "destination": "./alternates/gambling-social",
            "tags": ["base", "gambling", "social"]
        },
        {
            "name": "p-only",
            "destination": "./alternates/porn/only",
            "tags": ["porn"]
        },
        {
            "name": "p",
            "destination": "./alternates/porn",
            "tags": ["base", "porn"]
        },
        {
            "name": "ps",
            "destination": "./alternates/porn-social",
            "tags": ["base", "porn", "social"]
        },
        {
            "name": "s-only",
            "destination": "./alternates/social/only",
            "tags": ["social"]
        },
        {
            "name": "s",
            "destination": "./alternates/social",
            "tags": ["base", "social"]
        }
    ]"#@
}

/// The JSON recipe list of buildable products.
pub fn get_products_json() -> (r: String)
    ensures
        r@ == spec_products_json(),
{
    String::from_str(
        r#"[
        {
            "name": "base",
            "destination": "./",
            "tags": ["base"]
        },
        {
            "name": "f-only",
            "destination": "./alternates/fakenews/only",
            "tags": ["fakenews"]
        },
        {
            "name": "f",
            "destination": "./alternates/fakenews",
            "tags": ["base", "fakenews"]
        },
        {
            "name": "fg",
            "destination": "./alternates/fakenews-gamnbling",
            "tags": ["base", "fakenews", "gambling"]
        },
        {
            "name": "fgp",
            "destination": "./alternates/fakenews-gambling-porn",
            "tags": ["base", "fakenews", "gambling", "porn"]
        },
        {
            "name": "fgps",
            "destination": "./alternates/fakenews-gambling-porn-social",
            "tags": ["base", "fakenews", "gambling", "porn", "social"]
        },
        {
            "name": "fgs",
            "destination": "./alternates/fakenews-gambling-social",
            "tags": ["base", "fakenews", "gambling", "social"]
        },
        {
            "name": "fp",
            "destination": "./alternates/fakenews-porn",
            "tags": ["base", "fakenews", "porn"]
        },
        {
            "name": "fps",
            "destination": "./alternates/fakenews-porn-social",
            "tags": ["base", "fakenews", "porn", "social"]
        },
        {
            "name": "fs",
            "destination": "./alternates/fakenews-social",
            "tags": ["base", "fakenews", "social"]
        },
        {
            "name": "g-only",
            "destination": "./alternates/gambling/only",
            "tags": ["gambling"]
        },
        {
            "name": "g",
            "destination": "./alternates/gambling",
            "tags": ["base", "gambling"]
        },
        {
            "name": "gp",
            "destination": "./alternates/gambling-porn",
            "tags": ["base", "gambling", "porn"]
        },
        {
            "name": "gps",
            "destination": "./alternates/gambling-porn-social",
            "tags": ["base", "gambling", "porn", "social"]
        },
        {
            "name": "gs",
            "destination": "./alternates/gambling-social",
            "tags": ["base", "gambling", "social"]
        },
        {
            "name": "p-only",
            "destination": "./alternates/porn/only",
            "tags": ["porn"]
        },
        {
            "name": "p",
            "destination": "./alternates/porn",
            "tags": ["base", "porn"]
        },
        {
            "name": "ps",
            "destination": "./alternates/porn-social",
            "tags": ["base", "porn", "social"]
        },
        {
            "name": "s-only",
            "destination": "./alternates/social/only",
            "tags": ["social"]
        },
        {
            "name": "s",
            "destination": "./alternates/social",
            "tags": ["base", "social"]
        }
    ]"#,
    )
}

/// The source table as JSON text.
pub open spec fn spec_sources_json() -> Seq<char> {
    r#"[
        {
            "name": "adaway",
            "url": "https://raw.githubusercontent.com/AdAway/adaway.github.io/master/hosts.txt",
            "destination": "./data/adaway.org",
            "tags": ["base"]
        },
        {
            "name": "add2o7net",
            "url": "https://raw.githubusercontent.com/FadeMind/hosts.extras/master/add.2o7Net/hosts",
            "destination": "./data/add.2o7net",
            "tags": ["base"]
        },
        {
            "name": "adddead",
            "url": "https://raw.githubusercontent.com/FadeMind/hosts.extras/master/add.Dead/hosts",
            "destination": "./data/add.dead",
            "tags": ["base"]
        },
        {
            "name": "addrisk",
            "url": "https://raw.githubusercontent.com/FadeMind/hosts.extras/master/add.Risk/hosts",
            "destination": "./data/add.risk",
            "tags": ["base"]
        },
        {
            "name": "addspam",
            "url": "https://raw.githubusercontent.com/FadeMind/hosts.extras/master/add.Spam/hosts",
            "destination": "./data/add.spam",
            "tags": ["base"]
        },
        {
            "name": "baddboyz",
            "url": "https://raw.githubusercontent.com/mitchellkrogza/Badd-Boyz-Hosts/master/hosts",
            "destination": "./data/Badd-Boyz-Hosts",
            "tags": ["base"]
        },
        {
            "name": "bigdargon-gambling",
            "url": "https://raw.githubusercontent.com/bigdargon/hostsVN/master/extensions/gambling/hosts",
            "destination": "./extensions/gambling/bigdargon/",
            "tags": ["gambling"]
        },
        {
            "name": "bigdargon-porn",
            "url": "https://raw.githubusercontent.com/bigdargon/hostsVN/master/extensions/adult/hosts",
            "destination": "./extensions/porn/bigdargon/",
            "tags": ["porn"]
        },
        {
            "name": "clefspear",
            "url": "https://raw.githubusercontent.com/StevenBlack/hosts/master/extensions/porn/clefspeare13/hosts",
            "destination": "./extensions/porn/clefspeare13/",
            "tags": ["porn"]
        },
        {
            "name": "marktron-fakenews",
            "url": "https://raw.githubusercontent.com/marktron/fakenews/master/fakenews",
            "destination": "./extensions/fakenews",
            "tags": ["fakenews"]
        },
        {
            "name": "hostsvn",
            "url": "https://raw.githubusercontent.com/bigdargon/hostsVN/master/option/hosts-VN",
            "destination": "./data/hostsVN",
            "tags": ["base"]
        },
        {
            "name": "kadhosts",
            "url": "https://raw.githubusercontent.com/FiltersHeroes/KADhosts/master/KADhosts.txt",
            "destination": "./data/KADhosts",
            "tags": ["base"]
        },
        {
            "name": "mvps",
            "url": "https://winhelp2002.mvps.org/hosts.txt",
            "destination": "./data/mvps.org",
            "tags": ["base"]
        },
        {
            "name": "sinfonietta-gambling",
            "url": "https://raw.githubusercontent.com/Sinfonietta/hostfiles/master/gambling-hosts",
            "destination": "./extensions/gambling",
            "tags": ["gambling"]
        },
        {
            "name": "sinfonietta-porn",
            "url": "https://raw.githubusercontent.com/Sinfonietta/hostfiles/master/pornography-hosts",
            "destination": "./extensions/porn/sinfonietta",
            "tags": ["porn"]
        },
        {
            "name": "sinfonietta-snuff",
            "url": "https://raw.githubusercontent.com/Sinfonietta/hostfiles/master/snuff-hosts",
            "destination": "./extensions/porn/sinfonietta-snuff",
            "tags": ["porn"]
        },
        {
            "name": "sinfonietta-social",
            "url": "https://raw.githubusercontent.com/Sinfonietta/hostfiles/master/social-hosts",
            "destination": "./extensions/social/sinfonietta",
            "tags": ["social"]
        },
        {
            "name": "someonewhocares",
            "url": "https://someonewhocares.org/hosts/zero/hosts",
            "destination": "./data/someonewhocares.org",
            "tags": ["base"]
        },
        {
            "name": "stevenblack",
            "url": "https://raw.githubusercontent.com/StevenBlack/hosts/master/data/StevenBlack/hosts",
            "destination": "./data/StevenBlack",
            "tags": ["base"]
        },
        {
            "name": "tiuxo-porn",
            "url": "https://raw.githubusercontent.com/tiuxo/hosts/master/porn",
            "destination": "./extensions/porn/tiuxo",
            "tags": ["porn"]
        },
        {
            "name": "tiuxo",
            "url": "https://raw.githubusercontent.com/tiuxo/hosts/master/ads",
            "destination": "./data/tiuxo",
            "tags": ["base"]
        },
        {
            "name": "uncheckyads",
            "url": "https://raw.githubusercontent.com/FadeMind/hosts.extras/master/UncheckyAds/hosts",
            "destination": "./data/UncheckyAds",
            "tags": ["base"]
        },
        {
            "name": "urlhaus",
            "url": "https://urlhaus.abuse.ch/downloads/hostfile/",
            "destination": "./data/URLhaus",
            "tags": ["base"]
        },
        {
            "name": "yoyo",
            "url": "https://pgl.yoyo.org/adservers/serverlist.php?hostformat=hosts&mimetype=plaintext&useip=0.0.0.0",
            "destination": "./data/yoyo.org",
            "tags": ["base"]
        }
    ]"#@
}

/// The JSON list of upstream sources.
pub fn get_sources_json() -> (r: String)
    ensures
        r@ == spec_sources_json(),
{
    String::from_str(
        r#"[
        {
            "name": "adaway",
            "url": "https://raw.githubusercontent.com/AdAway/adaway.github.io/master/hosts.txt",
            "destination": "./data/adaway.org",
            "tags": ["base"]
        },
        {
            "name": "add2o7net",
            "url": "https://raw.githubusercontent.com/FadeMind/hosts.extras/master/add.2o7Net/hosts",
            "destination": "./data/add.2o7net",
            "tags": ["base"]
        },
        {
            "name": "adddead",
            "url": "https://raw.githubusercontent.com/FadeMind/hosts.extras/master/add.Dead/hosts",
            "destination": "./data/add.dead",
            "tags": ["base"]
        },
        {
            "name": "addrisk",
            "url": "https://raw.githubusercontent.com/FadeMind/hosts.extras/master/add.Risk/hosts",
            "destination": "./data/add.risk",
            "tags": ["base"]
        },
        {
            "name": "addspam",
            "url": "https://raw.githubusercontent.com/FadeMind/hosts.extras/master/add.Spam/hosts",
            "destination": "./data/add.spam",
            "tags": ["base"]
        },
        {
            "name": "baddboyz",
            "url": "https://raw.githubusercontent.com/mitchellkrogza/Badd-Boyz-Hosts/master/hosts",
            "destination": "./data/Badd-Boyz-Hosts",
            "tags": ["base"]
        },
        {
            "name": "bigdargon-gambling",
            "url": "https://raw.githubusercontent.com/bigdargon/hostsVN/master/extensions/gambling/hosts",
            "destination": "./extensions/gambling/bigdargon/",
            "tags": ["gambling"]
        },
        {
            "name": "bigdargon-porn",
            "url": "https://raw.githubusercontent.com/bigdargon/hostsVN/master/extensions/adult/hosts",
            "destination": "./extensions/porn/bigdargon/",
            "tags": ["porn"]
        },
        {
            "name": "clefspear",
            "url": "https://raw.githubusercontent.com/StevenBlack/hosts/master/extensions/porn/clefspeare13/hosts",
            "destination": "./extensions/porn/clefspeare13/",
            "tags": ["porn"]
        },
        {
            "name": "marktron-fakenews",
            "url": "https://raw.githubusercontent.com/marktron/fakenews/master/fakenews",
            "destination": "./extensions/fakenews",
            "tags": ["fakenews"]
        },
        {
            "name": "hostsvn",
            "url": "https://raw.githubusercontent.com/bigdargon/hostsVN/master/option/hosts-VN",
            "destination": "./data/hostsVN",
            "tags": ["base"]
        },
        {
            "name": "kadhosts",
            "url": "https://raw.githubusercontent.com/FiltersHeroes/KADhosts/master/KADhosts.txt",
            "destination": "./data/KADhosts",
            "tags": ["base"]
        },
        {
            "name": "mvps",
            "url": "https://winhelp2002.mvps.org/hosts.txt",
            "destination": "./data/mvps.org",
            "tags": ["base"]
        },
        {
            "name": "sinfonietta-gambling",
            "url": "https://raw.githubusercontent.com/Sinfonietta/hostfiles/master/gambling-hosts",
            "destination": "./extensions/gambling",
            "tags": ["gambling"]
        },
        {
            "name": "sinfonietta-porn",
            "url": "https://raw.githubusercontent.com/Sinfonietta/hostfiles/master/pornography-hosts",
            "destination": "./extensions/porn/sinfonietta",
            "tags": ["porn"]
        },
        {
            "name": "sinfonietta-snuff",
            "url": "https://raw.githubusercontent.com/Sinfonietta/hostfiles/master/snuff-hosts",
            "destination": "./extensions/porn/sinfonietta-snuff",
            "tags": ["porn"]
        },
        {
            "name": "sinfonietta-social",
            "url": "https://raw.githubusercontent.com/Sinfonietta/hostfiles/master/social-hosts",
            "destination": "./extensions/social/sinfonietta",
            "tags": ["social"]
        },
        {
            "name": "someonewhocares",
            "url": "https://someonewhocares.org/hosts/zero/hosts",
            "destination": "./data/someonewhocares.org",
            "tags": ["base"]
        },
        {
            "name": "stevenblack",
            "url": "https://raw.githubusercontent.com/StevenBlack/hosts/master/data/StevenBlack/hosts",
            "destination": "./data/StevenBlack",
            "tags": ["base"]
        },
        {
            "name": "tiuxo-porn",
            "url": "https://raw.githubusercontent.com/tiuxo/hosts/master/porn",
            "destination": "./extensions/porn/tiuxo",
            "tags": ["porn"]
        },
        {
            "name": "tiuxo",
            "url": "https://raw.githubusercontent.com/tiuxo/hosts/master/ads",
            "destination": "./data/tiuxo",
            "tags": ["base"]
        },
        {
            "name": "uncheckyads",
            "url": "https://raw.githubusercontent.com/FadeMind/hosts.extras/master/UncheckyAds/hosts",
            "destination": "./data/UncheckyAds",
            "tags": ["base"]
        },
        {
            "name": "urlhaus",
            "url": "https://urlhaus.abuse.ch/downloads/hostfile/",
            "destination": "./data/URLhaus",
            "tags": ["base"]
        },
        {
            "name": "yoyo",
            "url": "https://pgl.yoyo.org/adservers/serverlist.php?hostformat=hosts&mimetype=plaintext&useip=0.0.0.0",
            "destination": "./data/yoyo.org",
            "tags": ["base"]
        }
    ]"#,
    )
}

// --- tags --------------------------------------------------------------------

proof fn lemma_push_contains(s: Seq<Seq<char>>, t: Seq<char>, x: Seq<char>)
    ensures
        s.push(t).contains(x) == (s.contains(x) || x == t),
{
    if s.push(t).contains(x) {
        let k = choose|k: int| 0 <= k < s.push(t).len() && s.push(t)[k] == x;
        if k < s.len() {
            assert(s[k] == x);
            assert(s.contains(x));
        }
    }
    if s.contains(x) {
        let k = choose|k: int| 0 <= k < s.len() && s[k] == x;
        assert(s.push(t)[k] == x);
        assert(s.push(t).contains(x));
    }
    if x == t {
        assert(s.push(t)[s.len() as int] == x);
        assert(s.push(t).contains(x));
    }
}

/// Whether some string in `v` has the view `x`.
fn views_contain(v: &Vec<String>, x: &String) -> (r: bool)
    ensures
        r == str_views(v@).contains(x@),
{
    let n = v.len();
    let mut i: usize = 0;
    while i < n
        invariant
            i <= n,
            n == v@.len(),
            forall|k: int| 0 <= k < i ==> #[trigger] str_views(v@)[k] != x@,
        decreases n - i,
    {
        if v[i].eq(x) {
            proof {
                assert(str_views(v@)[i as int] == x@);
            }
            return true;
        }
        proof {
            assert(str_views(v@)[i as int] == v@[i as int]@);
        }
        i += 1;
    }
    proof {
        if str_views(v@).contains(x@) {
            let k = choose|k: int| 0 <= k < str_views(v@).len() && str_views(v@)[k] == x@;
        }
    }
    false
}

/// Every distinct tag of the source table, in ascending order.
pub fn get_unique_tags() -> (r: Tags)
    ensures
        forall|x: Seq<char>| #[trigger] str_views(r@).contains(x) == spec_all_tags().contains(x),
        forall|i: int, j: int|
            #![trigger r@[i], r@[j]]
            0 <= i < j < r@.len() ==> crate::text::lex_lt(r@[i]@, r@[j]@),
{
    let table = source_specs();
    let mut out: Vec<String> = Vec::new();
    let n = table.len();
    let mut i: usize = 0;
    while i < n
        invariant
            i <= n,
            n == table@.len(),
            source_spec_views(table@) == spec_sources(),
            forall|x: Seq<char>| #[trigger] str_views(out@).contains(x) == all_tags_of(
                spec_sources().take(i as int),
            ).contains(x),
            forall|p: int, q: int|
                #![trigger out@[p], out@[q]]
                0 <= p < q < out@.len() ==> crate::text::lex_lt(out@[p]@, out@[q]@),
        decreases n - i,
    {
        let row_len = table[i].tags.len();
        let mut j: usize = 0;
        while j < row_len
            invariant
                j <= row_len,
                i < n,
                n == table@.len(),
                row_len == table@[i as int].tags@.len(),
                source_spec_views(table@) == spec_sources(),
                forall|x: Seq<char>| #[trigger] str_views(out@).contains(x) == (all_tags_of(
                    spec_sources().take(i as int),
                ) + spec_sources()[i as int].3.take(j as int)).contains(x),
                forall|p: int, q: int|
                    #![trigger out@[p], out@[q]]
                    0 <= p < q < out@.len() ==> crate::text::lex_lt(out@[p]@, out@[q]@),
            decreases row_len - j,
        {
            proof {
                assert(spec_sources()[i as int] == source_spec_view(table@[i as int]));
                assert(spec_sources()[i as int].3[j as int] == table@[i as int].tags@[j as int]@);
            }
            let tag = &table[i].tags[j];
            let ghost out_prev = out@;
            insert_sorted_unique(&mut out, tag);
            proof {
                let base = all_tags_of(spec_sources().take(i as int));
                let row = spec_sources()[i as int].3;
                let w = base + row.take(j + 1 as int);
                let v = base + row.take(j as int);
                assert(w =~= v.push(row[j as int]));
                assert forall|x: Seq<char>| #[trigger]
                    str_views(out@).contains(x) == w.contains(x) by {
                    lemma_push_contains(v, row[j as int], x);
                    lemma_push_contains(str_views(out_prev), tag@, x);
                }
            }
            j += 1;
        }
        proof {
            let rows = spec_sources();
            assert(rows.take(i + 1 as int).drop_last() =~= rows.take(i as int));
            assert(all_tags_of(rows.take(i + 1 as int)) == all_tags_of(rows.take(i as int))
                + rows[i as int].3);
            assert(rows[i as int].3.take(row_len as int) =~= rows[i as int].3);
        }
        i += 1;
    }
    proof {
        assert(spec_sources().take(n as int) =~= spec_sources());
    }
    out
}

/// Inserts a tag into an ascending list, keeping it ascending and distinct.
fn insert_sorted_unique(out: &mut Vec<String>, tag: &String)
    requires
        forall|p: int, q: int|
            #![trigger old(out)@[p], old(out)@[q]]
            0 <= p < q < old(out)@.len() ==> crate::text::lex_lt(old(out)@[p]@, old(out)@[q]@),
    ensures
        forall|p: int, q: int|
            #![trigger final(out)@[p], final(out)@[q]]
            0 <= p < q < final(out)@.len() ==> crate::text::lex_lt(final(out)@[p]@, final(out)@[q]@),
        forall|x: Seq<char>| #[trigger]
            str_views(final(out)@).contains(x) == (str_views(old(out)@).push(tag@)).contains(x),
{
    let n = out.len();
    let mut p: usize = 0;
    while p < n && str_lex_lt_strings(&out[p], tag)
        invariant
            p <= n,
            n == out@.len(),
            out == old(out),
            forall|k: int| 0 <= k < p ==> crate::text::lex_lt(#[trigger] out@[k]@, tag@),
        decreases n - p,
    {
        p += 1;
    }
    if p < n && out[p].eq(tag) {
        // already present: ascending order is untouched
        proof {
            assert forall|x: Seq<char>| #[trigger]
                str_views(out@).contains(x) == (str_views(old(out)@).push(tag@)).contains(x) by {
                let w = str_views(old(out)@).push(tag@);
                if w.contains(x) {
                    let k = choose|k: int| 0 <= k < w.len() && w[k] == x;
                    if k < out@.len() {
                        assert(str_views(out@)[k] == x);
                    } else {
                        assert(x == tag@);
                        assert(str_views(out@)[p as int] == x);
                    }
                    assert(str_views(out@).contains(x));
                }
                if str_views(out@).contains(x) {
                    let k = choose|k: int|
                        0 <= k < str_views(out@).len() && str_views(out@)[k] == x;
                    assert(w[k] == x);
                    assert(w.contains(x));
                }
            }
        }
        return ;
    }
    let ghost before = out@;
    out.insert(p, tag.clone());
    proof {
        crate::text::lemma_lex_conn(before[p as int]@, tag@);
        assert forall|a: int, b: int|
            #![trigger out@[a], out@[b]]
            0 <= a < b < out@.len() implies crate::text::lex_lt(out@[a]@, out@[b]@) by {
            if b < p {
            } else if b == p {
                assert(out@[a] == before[a]);
                assert(crate::text::lex_lt(before[a]@, tag@));
            } else if a == p {
                assert(out@[b] == before[b - 1]);
                if p < before.len() {
                    assert(!crate::text::lex_lt(before[p as int]@, tag@));
                    if b - 1 == p {
                        assert(before[p as int]@ != tag@);
                        assert(crate::text::lex_lt(tag@, before[p as int]@));
                    } else {
                        assert(crate::text::lex_lt(tag@, before[p as int]@)) by {
                            assert(before[p as int]@ != tag@);
                        }
                        crate::text::lemma_lex_trans(
                            tag@,
                            before[p as int]@,
                            before[b - 1]@,
                        );
                    }
                }
            } else if a < p {
                assert(out@[a] == before[a]);
                assert(out@[b] == before[b - 1]);
                assert(crate::text::lex_lt(before[a]@, before[b - 1]@));
            } else {
                assert(out@[a] == before[a - 1]);
                assert(out@[b] == before[b - 1]);
            }
        }
        assert forall|x: Seq<char>| #[trigger]
            str_views(out@).contains(x) == (str_views(before).push(tag@)).contains(x) by {
            let w = str_views(before).push(tag@);
            if w.contains(x) {
                let k = choose|k: int| 0 <= k < w.len() && w[k] == x;
                if k < before.len() {
                    if k < p {
                        assert(str_views(out@)[k] == x);
                    } else {
                        assert(str_views(out@)[k + 1] == x);
                    }
                } else {
                    assert(str_views(out@)[p as int] == x);
                }
                assert(str_views(out@).contains(x));
            }
            if str_views(out@).contains(x) {
                let k = choose|k: int| 0 <= k < str_views(out@).len() && str_views(out@)[k] == x;
                if k < p {
                    assert(w[k] == x);
                } else if k == p {
                    assert(w[w.len() - 1] == x);
                } else {
                    assert(w[k - 1] == x);
                }
                assert(w.contains(x));
            }
        }
    }
}

/// Whether `a` comes strictly before `b` in code-point order.
fn str_lex_lt_strings(a: &String, b: &String) -> (r: bool)
    ensures
        r == crate::text::lex_lt(a@, b@),
{
    crate::text::str_lex_lt(a.as_str(), b.as_str())
}

/// An owned copy of a string list.
pub fn clone_strings(v: &Vec<String>) -> (r: Vec<String>)
    ensures
        r@ == v@,
{
    let n = v.len();
    let mut r: Vec<String> = Vec::new();
    let mut i: usize = 0;
    while i < n
        invariant
            i <= n,
            n == v@.len(),
            r@ == v@.take(i as int),
        decreases n - i,
    {
        r.push(v[i].clone());
        proof {
            assert(r@ =~= v@.take(i + 1 as int));
        }
        i += 1;
    }
    proof {
        assert(r@ =~= v@);
    }
    r
}

/// An owned copy of one source row.
fn clone_source_spec(s: &SourceSpec) -> (r: SourceSpec)
    ensures
        source_spec_view(r) == source_spec_view(*s),
{
    SourceSpec {
        name: s.name.clone(),
        url: s.url.clone(),
        destination: s.destination.clone(),
        tags: clone_strings(&s.tags),
    }
}

/// The rows whose tag list holds `tag`.
pub open spec fn rows_with_tag(
    rows: Seq<(Seq<char>, Seq<char>, Seq<char>, Seq<Seq<char>>)>,
    tag: Seq<char>,
) -> Seq<(Seq<char>, Seq<char>, Seq<char>, Seq<Seq<char>>)>
    decreases rows.len(),
{
    if rows.len() == 0 {
        Seq::empty()
    } else {
        let p = rows_with_tag(rows.drop_last(), tag);
        if rows.last().3.contains(tag) {
            p.push(rows.last())
        } else {
            p
        }
    }
}

/// The sources carrying a tag.
pub fn get_sources_by_tag(tag: String) -> (r: Vec<SourceSpec>)
    ensures
        source_spec_views(r@) == rows_with_tag(spec_sources(), tag@),
{
    let table = source_specs();
    let n = table.len();
    let mut out: Vec<SourceSpec> = Vec::new();
    let mut i: usize = 0;
    while i < n
        invariant
            i <= n,
            n == table@.len(),
            source_spec_views(table@) == spec_sources(),
            source_spec_views(out@) == rows_with_tag(spec_sources().take(i as int), tag@),
        decreases n - i,
    {
        proof {
            let rows = spec_sources();
            assert(rows.take(i + 1 as int).drop_last() =~= rows.take(i as int));
            assert(rows.take(i + 1 as int).last() == source_spec_view(table@[i as int]));
        }
        if views_contain(&table[i].tags, &tag) {
            proof {
                assert(str_views(table@[i as int].tags@) == spec_sources()[i as int].3);
            }
            let ghost out0 = out@;
            let row = clone_source_spec(&table[i]);
            out.push(row);
            proof {
                assert(source_spec_views(out@) =~~= source_spec_views(out0).push(
                    source_spec_view(table@[i as int]),
                ));
            }
        } else {
            proof {
                assert(str_views(table@[i as int].tags@) == spec_sources()[i as int].3);
            }
        }
        i += 1;
    }
    proof {
        assert(spec_sources().take(n as int) =~= spec_sources());
    }
    out
}

/// The names of the sources carrying a tag.
pub fn get_source_names_by_tag(tag: String) -> (r: Vec<String>)
    ensures
        str_views(r@) == rows_with_tag(spec_sources(), tag@).map_values(
            |row: (Seq<char>, Seq<char>, Seq<char>, Seq<Seq<char>>)| row.0,
        ),
{
    let rows = get_sources_by_tag(tag);
    let n = rows.len();
    let mut out: Vec<String> = Vec::new();
    let mut i: usize = 0;
    while i < n
        invariant
            i <= n,
            n == rows@.len(),
            source_spec_views(rows@) == rows_with_tag(spec_sources(), tag@),
            str_views(out@) == rows_with_tag(spec_sources(), tag@).map_values(
                |row: (Seq<char>, Seq<char>, Seq<char>, Seq<Seq<char>>)| row.0,
            ).take(i as int),
        decreases n - i,
    {
        let ghost out0 = out@;
        let name = rows[i].name.clone();
        proof {
            assert(source_spec_views(rows@)[i as int] == source_spec_view(rows@[i as int]));
            assert(name@ == rows_with_tag(spec_sources(), tag@)[i as int].0);
        }
        out.push(name);
        proof {
            let mapped = rows_with_tag(spec_sources(), tag@).map_values(
                |row: (Seq<char>, Seq<char>, Seq<char>, Seq<Seq<char>>)| row.0,
            );
            assert(mapped.len() == rows_with_tag(spec_sources(), tag@).len());
            assert(source_spec_views(rows@).len() == rows@.len());
            assert(str_views(out0).len() == out0.len());
            assert(str_views(out@) =~= mapped.take(i + 1 as int));
        }
        i += 1;
    }
    proof {
        let mapped = rows_with_tag(spec_sources(), tag@).map_values(
            |row: (Seq<char>, Seq<char>, Seq<char>, Seq<Seq<char>>)| row.0,
        );
        assert(mapped.len() == rows_with_tag(spec_sources(), tag@).len());
        assert(source_spec_views(rows@).len() == rows@.len());
        assert(mapped.take(n as int) =~= mapped);
    }
    out
}

/// Every nonempty group of distinct tags, grouped by draw size.
pub fn gettaggroups() -> (r: Vec<Vec<String>>)
    ensures
        forall|g: int, k: int|
            0 <= g < r@.len() && 0 <= k < r@[g]@.len() ==> spec_all_tags().contains(
                #[trigger] r@[g]@[k]@,
            ),
{
    let tags = get_unique_tags();
    let mut taggroups: Vec<Vec<Vec<String>>> = Vec::new();
    let total = tags.len();
    let mut idx: usize = 0;
    while idx < total
        invariant
            idx <= total,
            total == tags@.len(),
            forall|x: Seq<char>| #[trigger] str_views(tags@).contains(x) == spec_all_tags()
                .contains(x),
            forall|b: int, g: int, k: int|
                0 <= b < taggroups@.len() && 0 <= g < taggroups@[b]@.len() && 0 <= k
                    < taggroups@[b]@[g]@.len() ==> spec_all_tags().contains(
                    #[trigger] taggroups@[b]@[g]@[k]@,
                ),
        decreases total - idx,
    {
        let n = idx + 1;
        let pool = clone_strings(&tags);
        let mut c = Combinations::new(pool, n);
        let mut groupsvec: Vec<Vec<String>> = Vec::new();
        let mut comb: Vec<String> = Vec::new();
        let mut fuel: usize = usize::MAX;
        loop
            invariant
                c.wf(),
                c.pool().to_multiset() == tags@.to_multiset(),
                forall|x: Seq<char>| #[trigger] str_views(tags@).contains(x) == spec_all_tags()
                    .contains(x),
                forall|g: int, k: int|
                    0 <= g < groupsvec@.len() && 0 <= k < groupsvec@[g]@.len() ==> spec_all_tags()
                        .contains(#[trigger] groupsvec@[g]@[k]@),
            decreases fuel,
        {
            if fuel == 0 {
                break ;
            }
            fuel -= 1;
            if c.next_combination(&mut comb) {
                proof {
                    c.lemma_cursor_bounds();
                    c.pool().to_multiset_ensures();
                    tags@.to_multiset_ensures();
                    assert forall|k: int| 0 <= k < comb@.len() implies spec_all_tags().contains(
                        comb@[k]@,
                    ) by {
                        let item = comb@[k];
                        assert(item == c.pool()[c.cursors()[k] as int]);
                        assert(c.cursors()[k] < c.pool().len());
                        assert(c.pool().contains(item));
                        assert(c.pool().to_multiset().count(item) > 0);
                        assert(tags@.to_multiset().count(item) > 0);
                        assert(tags@.contains(item));
                        let m = choose|m: int| 0 <= m < tags@.len() && tags@[m] == item;
                        assert(str_views(tags@)[m] == item@);
                        assert(str_views(tags@).contains(item@));
                    }
                }
                groupsvec.push(clone_strings(&comb));
            } else {
                break ;
            }
        }
        taggroups.push(groupsvec);
        idx += 1;
    }
    let flat = crate::utils::flatten(taggroups);
    proof {
        crate::utils::lemma_flatten_elements(
            crate::utils::seq_views(taggroups@),
            |v: Vec<String>|
                forall|k: int|
                    0 <= k < v@.len() ==> spec_all_tags().contains(#[trigger] v@[k]@),
        );
    }
    flat
}

} // verus!
