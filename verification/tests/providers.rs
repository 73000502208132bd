//! The provider-side pieces: payload decoding, pagination, addresses.

use md_aggregator::github;
use md_aggregator::gitlab;
use md_aggregator::order::lex_le_exec;
use md_aggregator::strutil::{strip_spaces, trim_spaces, u64_to_string};

#[test]
fn github_payload_decodes_through_embedded_whitespace() {
    let decoded = github::decode_blob_content("aGVs\nbG8g\nd29y\nbGQ=\n");
    assert_eq!(decoded, Some(b"hello world".to_vec()));
}

#[test]
fn github_payload_rejects_invalid_base64() {
    assert_eq!(github::decode_blob_content("!!!not base64!!!"), None);
}

#[test]
fn gitlab_payload_decodes_after_trimming() {
    let decoded = gitlab::decode_blob_content("  aGVsbG8=\n");
    assert_eq!(decoded, Some(b"hello".to_vec()));
}

#[test]
fn strip_and_trim_touch_only_whitespace() {
    assert_eq!(strip_spaces(" a b\tc\nd "), "abcd".to_string());
    assert_eq!(trim_spaces("  abc  "), "abc".to_string());
    assert_eq!(trim_spaces("abc"), "abc".to_string());
    assert_eq!(trim_spaces(" \t\n "), "".to_string());
}

#[test]
fn next_page_url_takes_the_next_relation() {
    let header = "<https://gitlab.com/api/v4/projects/1/repository/tree?page=2>; rel=\"next\", <https://gitlab.com/api/v4/projects/1/repository/tree?page=1>; rel=\"first\", <https://gitlab.com/api/v4/projects/1/repository/tree?page=9>; rel=\"last\"";
    assert_eq!(
        gitlab::next_page_url(header),
        Some("https://gitlab.com/api/v4/projects/1/repository/tree?page=2".to_string())
    );
}

#[test]
fn next_page_url_is_none_without_a_next_relation() {
    let header = "<https://gitlab.com/x>; rel=\"first\", <https://gitlab.com/y>; rel=\"last\"";
    assert_eq!(gitlab::next_page_url(header), None);
    assert_eq!(gitlab::next_page_url(""), None);
}

#[test]
fn github_addresses() {
    let repo = github::Repo {
        token: "SECRET-REDACTED".to_string(),
        owner: "acme".to_string(),
        repo: "docs".to_string(),
        branch: "main".to_string(),
    };
    assert_eq!(
        repo.tree_url(),
        "https://api.github.com/repos/acme/docs/git/trees/main?recursive=1"
    );
    assert_eq!(repo.blob_url("abc123"), "https://api.github.com/repos/acme/docs/git/blobs/abc123");
}

#[test]
fn gitlab_addresses() {
    let with_branch =
        gitlab::Repo { token: None, id: 4017, branch: Some("stable".to_string()) };
    assert_eq!(
        with_branch.tree_url(),
        "https://gitlab.com/api/v4/projects/4017/repository/tree?recursive=1&per_page=100&pagination=keyset&ref=stable"
    );
    let bare = gitlab::Repo { token: None, id: 7, branch: None };
    assert_eq!(
        bare.tree_url(),
        "https://gitlab.com/api/v4/projects/7/repository/tree?recursive=1&per_page=100&pagination=keyset"
    );
    assert_eq!(bare.blob_url("deadbeef"), "https://gitlab.com/api/v4/projects/7/repository/blobs/deadbeef");
}

#[test]
fn decimal_writing() {
    assert_eq!(u64_to_string(0), "0".to_string());
    assert_eq!(u64_to_string(9), "9".to_string());
    assert_eq!(u64_to_string(41070), "41070".to_string());
    assert_eq!(u64_to_string(u64::MAX), "18446744073709551615".to_string());
}

#[test]
fn path_order_is_lexicographic_by_codepoint() {
    assert!(lex_le_exec("a", "b"));
    assert!(!lex_le_exec("b", "a"));
    assert!(lex_le_exec("abc", "abc"));
    assert!(lex_le_exec("ab", "abc"));
    assert!(!lex_le_exec("abc", "ab"));
    assert!(lex_le_exec("A", "a"));
    assert!(lex_le_exec("", "x"));
}

#[test]
fn listing_conversion_keeps_order_and_kind() {
    let raw = vec![
        github::TreeEntry {
            path: "docs".to_string(),
            mode: "040000".to_string(),
            _type: github::EntryType::Tree,
            sha: "t1".to_string(),
            size: None,
            url: "u1".to_string(),
        },
        github::TreeEntry {
            path: "docs/a.md".to_string(),
            mode: "100644".to_string(),
            _type: github::EntryType::Blob,
            sha: "b1".to_string(),
            size: Some(12),
            url: "u2".to_string(),
        },
    ];
    let converted = github::convert_entries(&raw);
    assert_eq!(converted.len(), 2);
    assert!(converted[0].is_dir);
    assert_eq!(converted[0].path, "docs");
    assert_eq!(converted[0].sha, "t1");
    assert!(!converted[1].is_dir);
    assert_eq!(converted[1].sha, "b1");
}
