//! The caching and renewal engine, exercised end to end on concrete data.

use md_aggregator::cache::{
    insert, renew, renew_ignoring_errors, CacheEntry, Listing, Published, RetrieveStep, TreeCache,
};
use md_aggregator::config::Config;
use md_aggregator::content::{content_new, lookup, store_fetched, ContentMap};
use md_aggregator::repo::{Repo, TreeEntry};

fn entry(path: &str, is_dir: bool, sha: &str) -> TreeEntry {
    TreeEntry { path: path.to_string(), is_dir, sha: sha.to_string() }
}

fn gh_repo() -> md_aggregator::github::Repo {
    md_aggregator::github::Repo {
        token: "SECRET-REDACTED".to_string(),
        owner: "acme".to_string(),
        repo: "docs".to_string(),
        branch: "main".to_string(),
    }
}

fn config_ab() -> Config {
    Config {
        entries: vec![
            ("A".to_string(), Repo::Github(gh_repo())),
            (
                "B".to_string(),
                Repo::Gitlab(md_aggregator::gitlab::Repo {
                    token: None,
                    id: 42,
                    branch: None,
                }),
            ),
        ],
    }
}

fn paths_with_source(t: &TreeCache, source: &str) -> Vec<(String, String)> {
    t.entries
        .iter()
        .filter(|e| e.config_entry == source)
        .map(|e| (e.tree.path.clone(), e.tree.sha.clone()))
        .collect()
}

#[test]
fn insert_replaces_one_source_only() {
    let mut cache = TreeCache::new();
    insert(
        &mut cache,
        &"A".to_string(),
        vec![entry("docs/", true, "d1"), entry("docs/a.md", false, "s1")],
    );
    insert(&mut cache, &"B".to_string(), vec![entry("docs/", true, "d2")]);
    insert(&mut cache, &"A".to_string(), vec![entry("docs/b.md", false, "s2")]);
    assert_eq!(paths_with_source(&cache, "A"), vec![("docs/b.md".to_string(), "s2".to_string())]);
    assert_eq!(paths_with_source(&cache, "B"), vec![("docs/".to_string(), "d2".to_string())]);
    assert_eq!(cache.entries.len(), 2);
}

#[test]
fn two_sources_share_a_directory_path() {
    let mut cache = TreeCache::new();
    insert(&mut cache, &"A".to_string(), vec![entry("docs/", true, "da")]);
    insert(&mut cache, &"B".to_string(), vec![entry("docs/", true, "db")]);
    let on_path: Vec<&CacheEntry> =
        cache.entries.iter().filter(|e| e.tree.path == "docs/").collect();
    assert_eq!(on_path.len(), 2);
    assert_eq!(on_path[0].config_entry, "A");
    assert_eq!(on_path[1].config_entry, "B");
}

#[test]
fn retrieval_does_not_cross_sources() {
    let mut cache = TreeCache::new();
    insert(&mut cache, &"A".to_string(), vec![entry("docs/x.md", false, "sha-a")]);
    insert(&mut cache, &"B".to_string(), vec![entry("docs/x.md", false, "sha-b")]);
    let config = config_ab();
    let mut content: ContentMap = content_new();
    match retrieve_step(&cache, &config, &mut content, "docs/x.md", "A", 10) {
        RetrieveStep::Fetch(sha) => assert_eq!(sha, "sha-a"),
        _ => panic!("expected a fetch of A's content hash"),
    }
    match retrieve_step(&cache, &config, &mut content, "docs/x.md", "B", 10) {
        RetrieveStep::Fetch(sha) => assert_eq!(sha, "sha-b"),
        _ => panic!("expected a fetch of B's content hash"),
    }
}

fn retrieve_step(
    tree: &TreeCache,
    config: &Config,
    content: &mut ContentMap,
    path: &str,
    owner: &str,
    now: u64,
) -> RetrieveStep {
    md_aggregator::cache::retrieve(tree, config, content, path, owner, now)
}

#[test]
fn startup_renewal_fails_whole_when_any_listing_fails() {
    let prev = TreeCache::new();
    let listings = vec![
        Listing { source: "A".to_string(), result: Ok(vec![entry("a.md", false, "s1")]) },
        Listing { source: "B".to_string(), result: Err(()) },
    ];
    assert!(renew(&prev, &listings).is_err());
}

#[test]
fn recurring_renewal_carries_failed_source_forward() {
    let mut prev = TreeCache::new();
    insert(&mut prev, &"A".to_string(), vec![entry("old-a.md", false, "oa")]);
    insert(&mut prev, &"B".to_string(), vec![entry("keep-b.md", false, "kb")]);
    let listings = vec![
        Listing { source: "A".to_string(), result: Ok(vec![entry("new-a.md", false, "na")]) },
        Listing { source: "B".to_string(), result: Err(()) },
    ];
    let merged = renew_ignoring_errors(&prev, &listings);
    assert_eq!(paths_with_source(&merged, "A"), vec![("new-a.md".to_string(), "na".to_string())]);
    assert_eq!(paths_with_source(&merged, "B"), vec![("keep-b.md".to_string(), "kb".to_string())]);
    assert_eq!(merged.entries.len(), 2);
}

#[test]
fn renewal_on_identical_listings_is_idempotent() {
    let prev = TreeCache::new();
    let listings = vec![
        Listing {
            source: "A".to_string(),
            result: Ok(vec![entry("docs/", true, "d"), entry("docs/a.md", false, "s")]),
        },
        Listing { source: "B".to_string(), result: Ok(vec![entry("b.md", false, "t")]) },
    ];
    let once = renew(&prev, &listings).expect("all listings succeeded");
    let twice = renew(&once, &listings).expect("all listings succeeded");
    let shape = |t: &TreeCache| {
        t.entries
            .iter()
            .map(|e| (e.config_entry.clone(), e.tree.path.clone(), e.tree.sha.clone()))
            .collect::<Vec<_>>()
    };
    assert_eq!(shape(&once), shape(&twice));

    let mut first = Published::new();
    assert!(first.finalize(once).is_ok());
    let mut second = Published::new();
    assert!(second.finalize(twice).is_ok());
    assert_eq!(first.get(), second.get());
}

#[test]
fn content_cache_serves_within_ttl_without_second_fetch() {
    let mut cache = TreeCache::new();
    insert(&mut cache, &"A".to_string(), vec![entry("a.md", false, "h1")]);
    let config = config_ab();
    let mut content = content_new();
    let t = 1000;
    match retrieve_step(&cache, &config, &mut content, "a.md", "A", t) {
        RetrieveStep::Fetch(sha) => {
            let body = store_fetched(&mut content, &sha, Some(b"hello".to_vec()), t);
            assert_eq!(body, Some(b"hello".to_vec()));
        },
        _ => panic!("first read must ask for a fetch"),
    }
    match retrieve_step(&cache, &config, &mut content, "a.md", "A", t + 3599) {
        RetrieveStep::Served(b) => assert_eq!(b, b"hello".to_vec()),
        _ => panic!("second read within the lifetime must be served from the cache"),
    }
}

#[test]
fn content_cache_refetches_after_ttl() {
    let mut content = content_new();
    let t = 1000;
    let sha = "h1".to_string();
    store_fetched(&mut content, &sha, Some(b"old".to_vec()), t);
    assert_eq!(lookup(&mut content, &sha, t + 3599), Some(b"old".to_vec()));
    assert_eq!(lookup(&mut content, &sha, t + 3600), None);
    assert_eq!(lookup(&mut content, &sha, t + 3599), None);
}

#[test]
fn failed_fetch_caches_no_negative_result() {
    let mut content = content_new();
    let sha = "h1".to_string();
    assert_eq!(store_fetched(&mut content, &sha, None, 5), None);
    assert_eq!(lookup(&mut content, &sha, 5), None);
}

#[test]
fn missing_path_is_not_found_without_any_fetch() {
    let mut cache = TreeCache::new();
    insert(&mut cache, &"A".to_string(), vec![entry("present.md", false, "p")]);
    let config = config_ab();
    let mut content = content_new();
    match retrieve_step(&cache, &config, &mut content, "missing/path.md", "A", 7) {
        RetrieveStep::NotFound => {},
        _ => panic!("a missing path must be not-found and invoke no provider"),
    }
}

#[test]
fn unknown_source_is_not_found() {
    let mut cache = TreeCache::new();
    insert(&mut cache, &"C".to_string(), vec![entry("a.md", false, "s")]);
    let config = config_ab();
    let mut content = content_new();
    match retrieve_step(&cache, &config, &mut content, "a.md", "C", 7) {
        RetrieveStep::NotFound => {},
        _ => panic!("an unconfigured source must be not-found"),
    }
}

#[test]
fn publish_renders_sorted_filtered_listing() {
    let mut cache = TreeCache::new();
    insert(
        &mut cache,
        &"docs-source".to_string(),
        vec![
            entry("z.md", false, "s3"),
            entry("guide", true, "d1"),
            entry("guide/Guide.md", false, "s1"),
            entry("notes.txt", false, "s2"),
        ],
    );
    let mut p = Published::new();
    assert!(p.finalize(cache).is_ok());
    let rendered = p.get().as_str();
    let head = "<!DOCTYPE html><html><head><meta charset=\"utf-8\"><title>Documentation</title>\
<link rel=\"stylesheet\" href=\"/style.css\"></head><body><ul>";
    let rows = "<li>guide</li>\
<li><a href=\"/guide/Guide.md?owner=docs-source\">Guide (docs-source)</a></li>\
<li><a href=\"/z.md?owner=docs-source\">z (docs-source)</a></li>";
    let tail = "</ul></body></html>";
    assert_eq!(rendered, format!("{head}{rows}{tail}"));
}

#[test]
fn publish_replaces_both_artifacts_together() {
    let mut p = Published::new();
    let mut first = TreeCache::new();
    insert(&mut first, &"A".to_string(), vec![entry("a.md", false, "s1")]);
    assert!(p.finalize(first).is_ok());
    let rendered_before = p.get().clone();
    assert!(rendered_before.contains("/a.md?owner=A"));

    let mut second = TreeCache::new();
    insert(&mut second, &"A".to_string(), vec![entry("b.md", false, "s2")]);
    assert!(p.finalize(second).is_ok());
    assert_ne!(p.get(), &rendered_before);
    assert!(p.get().contains("/b.md?owner=A"));
    assert_eq!(p.tree.entries[0].tree.path, "b.md");
}

#[test]
fn config_resolves_only_configured_sources() {
    let config = config_ab();
    assert!(config.retrieve("A").is_some());
    assert!(config.retrieve("B").is_some());
    assert!(config.retrieve("C").is_none());
    assert_eq!(config.get().len(), 2);
}

#[test]
fn display_labels() {
    let dir = CacheEntry {
        config_entry: "src".to_string(),
        tree: entry("guide/chapters", true, "d"),
    };
    assert_eq!(dir.display(), "chapters".to_string());
    let doc = CacheEntry {
        config_entry: "docs-source".to_string(),
        tree: entry("guide/Guide.md", false, "s"),
    };
    assert_eq!(doc.display(), "Guide (docs-source)");
}

#[test]
fn cloned_content_cache_serves_the_same_records() {
    let mut content = content_new();
    let sha = "h9".to_string();
    store_fetched(&mut content, &sha, Some(b"body".to_vec()), 50);
    let mut copy = md_aggregator::content::content_clone(&content);
    assert_eq!(lookup(&mut copy, &sha, 60), Some(b"body".to_vec()));
    assert_eq!(lookup(&mut content, &sha, 60), Some(b"body".to_vec()));
}
