use rhosts::utils::{flatten, hash, is_domain, norm_string, trim_inline_comments, Combinations};

#[test]
fn test_is_domaain_function_handles_good_and_bad_domains() {
    assert_eq!(is_domain("localhost"), false);
    assert_eq!(is_domain("com"), false);
    assert_eq!(is_domain("github"), false);
    assert_eq!(is_domain("github.com"), true);
    assert_eq!(is_domain("www.github.com"), true);
    assert_eq!(is_domain("123.com"), true);
}

#[test]
fn test_is_domaain_function_handles_labels_that_are_too_long() {
    // this label is max length (63)
    assert_eq!(is_domain(("a".repeat(63) + ".com").as_str()), true);
    // this label is too long (>= 64)
    assert_eq!(is_domain(("a".repeat(64) + ".com").as_str()), false);
}

#[test]
fn test_is_domaain_function_handles_domains_that_are_too_long() {
    // this domain is max length (253)
    assert_eq!(
        is_domain((("a".repeat(60) + ".").repeat(4) + "56789.com").as_str()),
        true
    );
    // this domain too long (length > 253)
    assert_eq!(
        is_domain((("a".repeat(60) + ".").repeat(4) + "56789x.com").as_str()),
        false
    );
}

#[test]
fn test_is_domain_is_total_on_odd_input() {
    // the validator must answer, never panic, whatever the bytes
    assert_eq!(is_domain(""), false);
    assert_eq!(is_domain("."), true);
    assert_eq!(is_domain("a..b"), false);
    assert_eq!(is_domain("\u{0}.\u{1}"), true);
    assert_eq!(is_domain("\u{0}"), false);
    assert_eq!(is_domain("..."), false);
    assert_eq!(is_domain("x\u{7f}y.com"), true);
}

#[test]
fn test_string_with_excessive_spaces_is_trimmed_and_normalized() {
    assert_eq!(
        norm_string("   Hello           World  "),
        "Hello World".to_string()
    );
}

#[test]
fn test_line_feeds_are_properly_handled() {
    assert!("xx\nxx".contains("\n"));
    assert_eq!(
        "xx\nxx"
            .to_string()
            .split("\n")
            .map(|l| l.to_string())
            .collect::<Vec<String>>()
            .len(),
        2
    );
}

#[test]
fn test_normalization_is_idempotent_on_samples() {
    let samples = [
        "   0.0.0.0   example.com   # trailing words  ",
        "\t a \u{a0}b # c",
        "# only a comment",
        "",
        "   ",
        "plain",
    ];
    for s in samples {
        let once = trim_inline_comments(norm_string(s));
        let twice = trim_inline_comments(norm_string(once.as_str()));
        assert_eq!(once, twice);
    }
}

#[test]
fn test_hashing_strings_returns_expected_values() {
    assert_eq!(hash("hosts".to_string()), "b6e6d131fe41b528".to_string());
    assert_eq!(hash("domains".to_string()), "5ae5d5636edd71d4".to_string());
}

#[test]
fn test_flatten_keeps_order() {
    let nested = vec![vec![1, 2], vec![], vec![3]];
    assert_eq!(flatten(nested), vec![1, 2, 3]);
}

fn collect_combinations<T: rhosts::utils::OrderedItem>(mut c: Combinations<T>) -> Vec<Vec<T>> {
    let mut all = Vec::new();
    let mut comb: Vec<T> = Vec::new();
    while c.next_combination(&mut comb) {
        let mut copy = Vec::new();
        for item in &comb {
            copy.push(item.duplicate());
        }
        all.push(copy);
    }
    all
}

#[test]
fn equals() {
    let mut c = Combinations::new(vec![2, 2, 2], 2);
    let mut vals: Vec<i32> = Vec::new();
    assert!(c.next_combination(&mut vals) && vals == vec![2, 2]);
}

#[test]
fn t_123() {
    assert!(
        collect_combinations(Combinations::new(vec![1, 2, 3], 2))
            == vec![vec![1, 2], vec![1, 3], vec![2, 3]]
    )
}

#[test]
fn test_complicated() {
    let actual = collect_combinations(Combinations::new(vec![1, 2, 2, 3, 4], 3));
    let expected = vec![
        vec![1, 2, 2],
        vec![1, 2, 3],
        vec![1, 2, 4],
        vec![1, 3, 4],
        vec![2, 2, 3],
        vec![2, 2, 4],
        vec![2, 3, 4],
    ];
    assert!(actual == expected)
}

#[test]
fn test_str() {
    let actual = collect_combinations(Combinations::new(vec!["1", "2", "2", "3", "4"], 3));
    let expected = vec![
        vec!["1", "2", "2"],
        vec!["1", "2", "3"],
        vec!["1", "2", "4"],
        vec!["1", "3", "4"],
        vec!["2", "2", "3"],
        vec!["2", "2", "4"],
        vec!["2", "3", "4"],
    ];
    assert!(actual == expected)
}
