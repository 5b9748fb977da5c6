use indexmap::IndexSet;
use rhosts::types::{intersection_count, Amalgam, Domains, Hostssource};

#[test]
fn test_hostssource_load_from_multi_line_text_has_domains() {
    let mut s = Hostssource {
        ..Default::default()
    };
    // ignore the result of this load for now
    let _ = s.load(
        r##"
            # test
            # test 2
            0.0.0.0 example.com
            # this is a comment
            0.0.0.0 www.example.com
            "##,
    );
    assert!(
        s.front_matter.len() == 2,
        "Expected front matter length to be 2, but got: {}",
        s.front_matter.len()
    );
    assert!(
        s.raw_list.len() == 5,
        "Expected raw list length to be 5, but got: {}",
        s.raw_list.len()
    );
    assert!(
        s.domains.len() == 2,
        "Expected the number of domains to be 2, but got: {}",
        s.domains.len()
    );
    assert!(
        s.duplicates.len() == 0,
        "Expected the number of duplicates to be 0, but got: {}",
        s.duplicates.len()
    );
    assert!(
        s.invalids.len() == 0,
        "Expected the number of invalids to be 0, but got: {}",
        s.invalids.len()
    );
}

#[test]
fn test_hostssource_load_from_single_line_text_has_domains() {
    let mut s = Hostssource {
        ..Default::default()
    };
    // ignore the result of this load for now
    let _ = s.load(
        r##"
            0.0.0.0 example.com
            "##,
    );
    assert!(
        s.front_matter.len() == 0,
        "Expected front matter to be 0, but got: {}",
        s.front_matter.len()
    );
    assert!(
        s.raw_list.len() == 1,
        "Expected raw list length to be 1, but got: {}",
        s.raw_list.len()
    );
    assert!(
        s.domains.len() == 1,
        "Expected the number of domains to be 1, but got: {}",
        s.domains.len()
    );
    assert!(
        s.duplicates.len() == 0,
        "Expected the number of duplicates to be 0, but got: {}",
        s.duplicates.len()
    );
    assert!(
        s.invalids.len() == 0,
        "Expected the number of invalids to be 0, but got: {}",
        s.invalids.len()
    );
}

#[test]
fn test_hostssource_load_from_multi_line_text_with_duplicates_has_no_duplicate_domains() {
    let mut s = Hostssource {
        ..Default::default()
    };
    // ignore the result of this load for now
    let _ = s.load(
        r##"
            # test
            # test 2
            0.0.0.0 example.com
            0.0.0.0 www.example.com
            0.0.0.0 example.com
            "##,
    );
    assert!(
        s.front_matter.len() == 2,
        "Expected front matter to be 2, but got: {}",
        s.front_matter.len()
    );
    assert!(
        s.raw_list.len() == 5,
        "Expected raw list length to be 5, but got: {}",
        s.raw_list.len()
    );
    assert!(
        s.domains.len() == 2,
        "Expected the number of domains to be 2, but got: {}",
        s.domains.len()
    );
    assert!(
        s.duplicates.len() == 1,
        "Expected the number of duplicates to be 1, but got: {}",
        s.duplicates.len()
    );
}

#[test]
fn test_hostssource_load_from_multi_line_text_with_multiple_domains_per_line_produces_normalized_list_of_domains(
) {
    let mut s = Hostssource {
        ..Default::default()
    };
    // ignore the result of this load for now
    let _ = s.load(
        r##"
            # comment line
            # comment line 2
            0.0.0.0 example.com
            0.0.0.0 www.example.com
            127.0.0.1 example.org www.example.org
            127.0.0.1 something.org
            # some other comment
            127.0.0.1 something.else.org
            "##,
    );
    assert!(
        s.domains.len() == 6,
        "Expected domains to be 6, but got: {}",
        s.domains.len()
    );

    let expected_domains: IndexSet<String> = IndexSet::from([
        "example.com".to_string(),
        "www.example.com".to_string(),
        "example.org".to_string(),
        "www.example.org".to_string(),
        "something.org".to_string(),
        "something.else.org".to_string(),
    ]);
    assert!(
        s.domains == expected_domains,
        "Expected domains to be identical, but got: {:?} expected: {:?}",
        s.domains,
        expected_domains
    );
}

#[test]
fn test_hostssource_load_from_multi_line_text_with_three_domains_per_line_produces_normalized_list_of_domains(
) {
    let mut s = Hostssource {
        ..Default::default()
    };
    // ignore the result of this load for now
    let _ = s.load(
        r##"
            # comment line
            # comment line 2
            0.0.0.0 example.com www.example.com example.org
            # some other comment
            "##,
    );
    assert!(s.domains.len() == 3);

    let expected_domains: IndexSet<String> = IndexSet::from([
        "example.com".to_string(),
        "www.example.com".to_string(),
        "example.org".to_string(),
    ]);
    assert!(
        s.domains == expected_domains,
        "Expected domains to be identical, but got: {:?} expected: {:?}",
        s.domains,
        expected_domains
    );
}

#[test]
fn test_domains_type_inserting_duplicates_does_not_produce_duplicate_domains() {
    let mut d = Domains::new();
    d.insert("foo.com".to_string());
    d.insert("foo.com".to_string());
    d.insert("bar.com".to_string());
    assert!(d.len() == 2);
    let mut d2 = Domains::new();
    d2.insert("foo.com".to_string());
    d2.insert("foo.com".to_string());
    d2.insert("bar.com".to_string());
    for domain in d2 {
        d.insert(domain);
    }
    assert!(
        d.len() == 2,
        "Expected domain set to be 2, but got {}",
        d.len()
    );
}

#[test]
fn test_shortcut_reference_resolves_location() {
    let mut s = Hostssource {
        ..Default::default()
    };
    let _ = s.load("base");
    assert_eq!(
        s.location,
        "https://raw.githubusercontent.com/StevenBlack/hosts/master/hosts"
    );
}

#[test]
fn test_front_matter_stops_at_first_noncomment_line() {
    let mut s = Hostssource {
        ..Default::default()
    };
    let _ = s.load("# a\n# b\n0.0.0.0 x.com\n# c");
    let fm: Vec<String> = s.front_matter.clone();
    assert_eq!(fm, vec!["# a".to_string(), "# b".to_string()]);
}

#[test]
fn test_dedup_keeps_one_domain_and_records_the_duplicate() {
    let mut s = Hostssource {
        ..Default::default()
    };
    let _ = s.load("0.0.0.0 a.com\n0.0.0.0 a.com\n0.0.0.0 b.com");
    let domains: Vec<&String> = s.domains.iter().collect();
    assert_eq!(domains, vec!["a.com", "b.com"]);
    assert_eq!(s.duplicates.len(), 1);
}

#[test]
fn test_multi_domain_line_yields_each_domain_without_invalids() {
    let mut s = Hostssource {
        ..Default::default()
    };
    let _ = s.load("0.0.0.0 a.com b.com c.org\n");
    let domains: Vec<&String> = s.domains.iter().collect();
    assert_eq!(domains, vec!["a.com", "b.com", "c.org"]);
    assert_eq!(s.invalids.len(), 0);
}

#[test]
fn test_invalid_tokens_are_recorded() {
    let mut s = Hostssource {
        ..Default::default()
    };
    let _ = s.load("0.0.0.0 nodots\n0.0.0.0 a..b\n");
    assert_eq!(s.domains.len(), 0);
    let invalids: Vec<&String> = s.invalids.iter().collect();
    assert_eq!(invalids, vec!["nodots", "a..b"]);
}

#[test]
fn test_sink_aliases_are_never_flagged_invalid() {
    let mut s = Hostssource {
        ..Default::default()
    };
    let _ = s.load("127.0.0.1 localhost localhost.localdomain broadcasthost\n::1 ip6-localhost ip6-loopback\n");
    assert_eq!(s.domains.len(), 0);
    assert_eq!(s.invalids.len(), 0);
}

#[test]
fn test_sorteddomains_groups_by_root_label() {
    let mut s = Hostssource {
        ..Default::default()
    };
    let _ = s.load("0.0.0.0 z.example.com\n0.0.0.0 a.example.com\n0.0.0.0 b.other.com\n");
    let sorted = s.sorteddomains();
    assert_eq!(
        sorted,
        vec![
            "a.example.com".to_string(),
            "z.example.com".to_string(),
            "b.other.com".to_string(),
        ]
    );
}

#[test]
fn test_domains_sort_option_materializes_hierarchical_order() {
    let mut s = Hostssource {
        ..Default::default()
    };
    s.args.domains_sort = true;
    let _ = s.load("0.0.0.0 z.example.com\n0.0.0.0 a.example.com\n0.0.0.0 b.other.com\n");
    let domains: Vec<&String> = s.domains.iter().collect();
    assert_eq!(domains, vec!["a.example.com", "z.example.com", "b.other.com"]);
}

#[test]
fn test_amalgam_unions_sources_and_concatenates_front_matter() {
    let a = Hostssource::new(
        "# one\n0.0.0.0 a.com\n0.0.0.0 b.com".to_string(),
        "first".to_string(),
    );
    let b = Hostssource::new(
        "# two\n0.0.0.0 b.com\n0.0.0.0 c.com".to_string(),
        "second".to_string(),
    );
    let amalgam = Amalgam::new(vec![a, b]);
    let domains: Vec<&String> = amalgam.domains.iter().collect();
    assert_eq!(domains, vec!["a.com", "b.com", "c.com"]);
    assert_eq!(
        amalgam.front_matter,
        vec!["# one".to_string(), "# two".to_string()]
    );
    assert_eq!(amalgam.sources.len(), 2);
}

#[test]
fn test_amalgam_of_duplicate_sources_does_not_grow_the_domain_set() {
    let text = "0.0.0.0 a.com\n0.0.0.0 b.com";
    let once = Amalgam::new(vec![Hostssource::new(text.to_string(), "one".to_string())]);
    let twice = Amalgam::new(vec![
        Hostssource::new(text.to_string(), "one".to_string()),
        Hostssource::new(text.to_string(), "two".to_string()),
    ]);
    assert_eq!(once.domains.len(), twice.domains.len());
}

#[test]
fn test_intersection_count_of_overlapping_sets() {
    let a = Hostssource::new("0.0.0.0 x.com\n0.0.0.0 y.com".to_string(), "a".to_string());
    let b = Hostssource::new("0.0.0.0 y.com\n0.0.0.0 z.com".to_string(), "b".to_string());
    assert_eq!(intersection_count(&a.domains, &b.domains), 1);
}

#[test]
fn test_tld_tally_counts_and_orders() {
    let mut s = Hostssource {
        ..Default::default()
    };
    let _ = s.load("0.0.0.0 a.com b.com c.org\n0.0.0.0 d.NET e.net f.com\n");
    let tally = s.tld();
    assert_eq!(
        tally,
        vec![
            ("com".to_string(), 3u32),
            ("net".to_string(), 2u32),
            ("org".to_string(), 1u32),
        ]
    );
}

#[test]
fn test_tld_tally_respects_limit() {
    let mut s = Hostssource {
        ..Default::default()
    };
    s.args.limit = 1;
    let _ = s.load("0.0.0.0 a.com b.com c.org\n");
    assert_eq!(s.tld(), vec![("com".to_string(), 2u32)]);
}

#[test]
fn test_rootdomains_tally() {
    let mut s = Hostssource {
        ..Default::default()
    };
    let _ = s.load("0.0.0.0 a.example.com b.example.com c.other.org\n");
    assert_eq!(
        s.rootdomains(),
        vec![("example.com".to_string(), 2u32), ("other.org".to_string(), 1u32)]
    );
}

#[test]
fn test_subdomains_tally_skips_short_labels() {
    let mut s = Hostssource {
        ..Default::default()
    };
    let _ = s.load("0.0.0.0 mail.example.com tracker.example.com www.example.com mail.other.org\n");
    assert_eq!(
        s.subdomains(),
        vec![("mail".to_string(), 2u32), ("tracker".to_string(), 1u32)]
    );
}

#[test]
fn test_chunked_subdomains_slides_windows() {
    let mut s = Hostssource {
        ..Default::default()
    };
    let _ = s.load("0.0.0.0 track.example.com\n");
    assert_eq!(s.chunked_subdomains(), None);
    s.args.chunking = Some(4);
    assert_eq!(
        s.chunked_subdomains(),
        Some(vec![("rack".to_string(), 1u32), ("trac".to_string(), 1u32)])
    );
}

#[test]
fn test_load_lines_runs_the_pipeline() {
    let mut s = Hostssource {
        ..Default::default()
    };
    s.load_lines(
        "somewhere".to_string(),
        vec![
            "# head".to_string(),
            "0.0.0.0 a.com".to_string(),
            "0.0.0.0 a.com b.com".to_string(),
        ],
    );
    assert_eq!(s.location, "somewhere");
    assert_eq!(s.front_matter, vec!["# head".to_string()]);
    let domains: Vec<&String> = s.domains.iter().collect();
    assert_eq!(domains, vec!["a.com", "b.com"]);
    assert_eq!(s.duplicates.len(), 1);
}

#[test]
fn test_loading_blank_text_extracts_nothing() {
    let s = Hostssource::new("\n\n".to_string(), "blank".to_string());
    assert_eq!(s.location, "text input");
    assert_eq!(s.domains.len(), 0);
    assert_eq!(s.duplicates.len(), 0);
    assert_eq!(s.invalids.len(), 0);
    assert_eq!(s.front_matter.len(), 0);
}
