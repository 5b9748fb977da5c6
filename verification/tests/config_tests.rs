use rhosts::cache::{get_cache_key, Cacheable};
use rhosts::config::{
    get_products_json, get_shortcuts, get_sources_by_tag, get_sources_json, get_unique_tags,
    gettaggroups, shortcut_url,
};
use rhosts::Arguments;
use std::collections::BTreeMap;
use std::collections::HashSet;

fn shortcut_map() -> BTreeMap<String, String> {
    get_shortcuts().into_iter().collect()
}

#[test]
fn test_shortcuts() {
    let hm = shortcut_map();
    assert_eq!(hm.get(&"yoyo".to_string()), Some(&"https://pgl.yoyo.org/adservers/serverlist.php?hostformat=hosts&mimetype=plaintext&useip=0.0.0.0".to_string()));
    assert_eq!(hm.get(&"zzz".to_string()), None);
}

#[test]
fn test_mut_shortcuts() {
    let mut hm = shortcut_map();
    hm.insert("yoyo".to_string(), "foo.bar".to_string());
    assert_eq!(hm.get(&"yoyo".to_string()), Some(&"foo.bar".to_string()));
}

#[test]
fn test_shortcut_url_finds_known_codes() {
    assert_eq!(
        shortcut_url("base"),
        Some("https://raw.githubusercontent.com/StevenBlack/hosts/master/hosts".to_string())
    );
    assert_eq!(shortcut_url("no-such-code"), None);
}

#[test]
fn test_get_products_json() {
    let json = get_products_json();
    let products: serde_json::Value =
        serde_json::from_str(json.as_str()).expect("Invalid JSON in recipe.");
    let products = products.as_array().expect("Invalid JSON in recipe.");
    println!("{:?}", products);
    assert!(products.len() > 5);
}

#[test]
fn test_taging_products_json() {
    // this test just lists all the products a tag belongs to.
    let json = get_products_json();
    let config: serde_json::Value =
        serde_json::from_str(json.as_str()).expect("Invalid JSON recepe tag specification.");
    let config = config.as_array().expect("Invalid JSON recepe tag specification.");

    let tags = get_unique_tags();
    for tag in tags {
        println!("\n# {}", &tag);
        for x in config {
            let has = x["tags"]
                .as_array()
                .map(|ts| ts.iter().any(|t| t.as_str() == Some(tag.as_str())))
                .unwrap_or(false);
            if has {
                println!("{:?}", x["name"]);
            }
        }
    }
    assert_eq!(Some(2), Some(1 + 1));
}

#[test]
fn test_get_sources_by_tag() {
    let tests = ["base", "fakenews", "gambling", "porn", "social"];
    for test in tests {
        println!();
        println!("== {} ==", test.to_string());
        let sources = get_sources_by_tag(test.to_string());
        for s in &sources {
            println!("{:?}", s.name);
        }
        assert!(sources.len() > 0);
    }
}

#[test]
fn test_get_sources_by_tag_fakenews() {
    let sources = get_sources_by_tag("fakenews".to_string());
    for s in &sources {
        println!("{:?}", s.name);
    }
    assert!(sources.len() == 1);
}

#[test]
fn test_get_config_json() {
    let json = get_sources_json();
    let config: serde_json::Value =
        serde_json::from_str(json.as_str()).expect("Invalid JSON configuration.");
    let config = config.as_array().expect("Invalid JSON configuration.");
    for o in config {
        println!("{:?} ⬅️ {:?}", o["tags"], o["url"]);
    }
    assert!(config.len() > 5);
}

#[test]
fn test_taging_config_json() {
    // this test lists all the sources of a tag.
    let json = get_sources_json();
    let config: serde_json::Value =
        serde_json::from_str(json.as_str()).expect("Invalid JSON for taging.");
    let config = config.as_array().expect("Invalid JSON for taging.");

    let tags = get_unique_tags();
    for tag in tags {
        println!("\n# {}", &tag);
        for x in config {
            let has = x["tags"]
                .as_array()
                .map(|ts| ts.iter().any(|t| t.as_str() == Some(tag.as_str())))
                .unwrap_or(false);
            if has {
                println!("{:?}", x["name"]);
            }
        }
    }
    assert_eq!(Some(2), Some(1 + 1));
}

#[test]
fn test_gettaggroups() {
    println!("{:?}", gettaggroups());
    assert!(1 == 1)
}

#[test]
fn test_taggroups_cover_every_size() {
    let tags = get_unique_tags();
    let groups = gettaggroups();
    assert!(groups.iter().all(|g| !g.is_empty() && g.len() <= tags.len()));
    assert!(groups.iter().any(|g| g.len() == tags.len()));
}

#[test]
fn test_get_unique_tags() {
    // this test ensures we get a vec of unique tags.
    let tags = get_unique_tags();
    assert!(tags.contains(&"base".to_string()));
    assert!(tags.contains(&"porn".to_string()));
    println!("{:?}", tags);
}

#[test]
fn test_config_name_collisions() {
    // this test ensures we have no name collisions between sources and recipies.
    let json = get_sources_json();
    let config: serde_json::Value =
        serde_json::from_str(json.as_str()).expect("Invalid JSON for sources.");
    let json = get_products_json();
    let recipies: serde_json::Value =
        serde_json::from_str(json.as_str()).expect("Invalid JSON for recipies.");
    let mut check = HashSet::new();

    for source in config.as_array().expect("Invalid JSON for sources.") {
        let name = source["name"].as_str().unwrap_or("").to_string();
        if !check.insert(name.clone()) {
            println!("{} ❌ is a duplicate source", name);
        }
    }
    for recipe in recipies.as_array().expect("Invalid JSON for recipies.") {
        let name = recipe["name"].as_str().unwrap_or("").to_string();
        if !check.insert(name.clone()) {
            println!("{} ❌ is a duplicate recipe", name);
        }
    }
    assert_eq!(Some(2), Some(1 + 1));
}

#[test]
fn test_default_command_line_arguments() {
    let arguments = Arguments::new();
    assert_eq!(
        arguments.mainhosts,
        shortcut_map()
            .get("base")
            .expect("The base key does not exist")
            .to_owned(),
        "Expected mainhosts to be fetched by the base key"
    );
    assert_eq!(
        arguments.comparehosts, None,
        "Expected the comparehosts argument to be None"
    );
    assert_eq!(
        arguments.iplocalhost,
        "0.0.0.0".to_string(),
        "Expected the iplocalhost argument to be 0.0.0.0"
    );
    assert_eq!(arguments.tld, false, "Expected the tld argument to be false");
    assert_eq!(
        arguments.stats,
        Some(true),
        "Expected the stats argument to be Some(true)"
    );
}

#[test]
fn test_cache_keys_are_stable() {
    let k1 = get_cache_key(Cacheable::String("hosts".to_string()));
    assert_eq!(k1, "b6e6d131fe41b528".to_string());
    let k2 = get_cache_key(Cacheable::Vec(vec!["b".to_string(), "a".to_string()]));
    let k3 = get_cache_key(Cacheable::Vec(vec!["a".to_string(), "b".to_string()]));
    assert_eq!(k2, k3);
}
