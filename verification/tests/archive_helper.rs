use anttp::archive::{Archive, ArchiveAction, ArchiveEntry, ArchiveError, ArchiveHelper, ArchiveInfo, DataState};
use xor_name::XorName;

fn name(b: u8) -> XorName {
    XorName([b; 32])
}

fn entry(path: Option<&str>, b: u8, modified: u64, size: u64) -> ArchiveEntry {
    ArchiveEntry { path: path.map(|s| s.to_string()), data_address: name(b), modified, size }
}

fn helper() -> ArchiveHelper {
    ArchiveHelper::new(Archive {
        entries: vec![
            entry(Some("./css/site.css"), 1, 1700000000, 42),
            entry(None, 2, 0, 0),
            entry(Some("./index.html"), 3, 0, 7),
            entry(Some("blog/index.html"), 4, 1, 1234567890),
        ],
    })
}

fn part_strs(v: &[&str]) -> Vec<String> {
    v.iter().map(|s| s.to_string()).collect()
}

#[test]
fn html_listing_links_every_utf8_path() {
    let html = helper().list_files_html();
    assert_eq!(
        html,
        "<html><body><h1>Archive Contents</h1><ul>\
<li><a href=\"css/site.css\">css/site.css</a></li>\n\
<li><a href=\"index.html\">index.html</a></li>\n\
<li><a href=\"blog/index.html\">blog/index.html</a></li>\n\
</ul></body></html>"
    );
}

#[test]
fn json_listing_describes_every_utf8_path() {
    let json = helper().list_files_json();
    assert_eq!(
        json,
        "[\n\
{\"name\": \"css/site.css\", \"type\": \"file\", \"mtime\": \"2023-11-14T22:13:20+00:00\", \"size\": \"42\"},\n\
{\"name\": \"index.html\", \"type\": \"file\", \"mtime\": \"1970-01-01T00:00:00+00:00\", \"size\": \"7\"},\n\
{\"name\": \"blog/index.html\", \"type\": \"file\", \"mtime\": \"1970-01-01T00:00:01+00:00\", \"size\": \"1234567890\"}\n\
]"
    );
}

#[test]
fn json_listing_of_all_listed_files_has_no_trailing_comma() {
    let h = ArchiveHelper::new(Archive { entries: vec![entry(Some("a"), 1, 0, 0), entry(Some("b"), 2, 0, 10)] });
    assert_eq!(
        h.list_files_json(),
        "[\n{\"name\": \"a\", \"type\": \"file\", \"mtime\": \"1970-01-01T00:00:00+00:00\", \"size\": \"0\"},\n\
{\"name\": \"b\", \"type\": \"file\", \"mtime\": \"1970-01-01T00:00:00+00:00\", \"size\": \"10\"}\n]"
    );
}

#[test]
fn json_listing_leaves_out_times_out_of_range() {
    let h = ArchiveHelper::new(Archive { entries: vec![entry(Some("a"), 1, 9_000_000_000_000, 0)] });
    assert_eq!(h.list_files_json(), "[\n]");
}

#[test]
fn empty_archive_listings() {
    let h = ArchiveHelper::new(Archive::new());
    assert_eq!(h.list_files_json(), "[\n]");
    assert_eq!(h.list_files_html(), "<html><body><h1>Archive Contents</h1><ul></ul></body></html>");
}

#[test]
fn list_files_follows_accept_header() {
    let h = helper();
    assert_eq!(h.list_files(Some("application/json".to_string())), h.list_files_json());
    assert_eq!(h.list_files(Some("text/html".to_string())), h.list_files_html());
    assert_eq!(h.list_files(None), h.list_files_html());
}

#[test]
fn resolve_data_addr_finds_first_suffix_match() {
    let h = helper();
    assert_eq!(h.resolve_data_addr(part_strs(&["addr", "index.html"])).ok(), Some(name(3)));
    assert_eq!(h.resolve_data_addr(part_strs(&["addr", "blog", "index.html"])).ok(), Some(name(4)));
    assert_eq!(h.resolve_data_addr(part_strs(&["addr", "site.css"])).ok(), Some(name(1)));
    // nothing after the address: every path ends with the empty text
    assert_eq!(h.resolve_data_addr(part_strs(&["addr"])).ok(), Some(name(1)));
}

#[test]
fn resolve_data_addr_reports_missing_item() {
    let h = helper();
    match h.resolve_data_addr(part_strs(&["addr", "missing", "file.txt"])) {
        Err(e) => {
            assert!(matches!(&e, ArchiveError::ItemNotFound(p) if p == "missing/file.txt"));
            assert_eq!(e.message(), "Failed to find item [missing/file.txt] in archive");
        },
        Ok(_) => panic!("expected an error"),
    }
}

#[test]
fn get_index_matches_whole_components() {
    let h = helper();
    let (path, x) = h.get_index("/site/".to_string(), "index.html".to_string());
    assert_eq!(path, "/site/./index.html");
    assert_eq!(x, name(3));
    let (path, x) = h.get_index("/".to_string(), "dex.html".to_string());
    assert_eq!(path, "");
    assert_eq!(x, XorName::default());
}

#[test]
fn has_moved_permanently_cases() {
    let h = helper();
    assert!(h.has_moved_permanently("/addr", &String::new()));
    assert!(!h.has_moved_permanently("/addr/", &String::new()));
    assert!(!h.has_moved_permanently("/addr", &"index.html".to_string()));
    assert!(h.has_moved_permanently("", &String::new()));
}

fn info_parts(i: &ArchiveInfo) -> (String, XorName, ArchiveAction, DataState) {
    (i.path_string.clone(), i.resolved_xor_addr, i.action, i.state)
}

#[test]
fn resolve_archive_info_redirects_directory_without_slash() {
    let i = helper().resolve_archive_info(part_strs(&["addr"]), "/addr".to_string(), None, String::new(), false);
    assert_eq!(info_parts(&i), (String::new(), XorName::default(), ArchiveAction::Redirect, DataState::Modified));
}

#[test]
fn resolve_archive_info_lists_directory_with_slash() {
    let i = helper().resolve_archive_info(part_strs(&["addr"]), "/addr/".to_string(), None, String::new(), false);
    assert_eq!(info_parts(&i), (String::new(), XorName::default(), ArchiveAction::Listing, DataState::Modified));
}

#[test]
fn resolve_archive_info_serves_named_file() {
    let hex3 = format!("{:x}", name(3));
    let i = helper().resolve_archive_info(
        part_strs(&["addr", "index.html"]),
        "/addr/index.html".to_string(),
        Some(format!("\"{}\"", hex3)),
        "index.html".to_string(),
        false,
    );
    assert_eq!(info_parts(&i), ("index.html".to_string(), name(3), ArchiveAction::Data, DataState::NotModified));
    let i = helper().resolve_archive_info(
        part_strs(&["addr", "index.html"]),
        "/addr/index.html".to_string(),
        None,
        "index.html".to_string(),
        false,
    );
    assert_eq!(i.state, DataState::Modified);
}

#[test]
fn resolve_archive_info_reports_missing_file() {
    let i = helper().resolve_archive_info(
        part_strs(&["addr", "nope.txt"]),
        "/addr/nope.txt".to_string(),
        None,
        "nope.txt".to_string(),
        false,
    );
    assert_eq!(info_parts(&i), ("nope.txt".to_string(), XorName::default(), ArchiveAction::NotFound, DataState::Modified));
}

#[test]
fn resolve_archive_info_uses_index_with_route_map() {
    let i = helper().resolve_archive_info(
        part_strs(&["addr", "blog", "post"]),
        "/addr/blog/post".to_string(),
        None,
        "index.html".to_string(),
        true,
    );
    assert_eq!(info_parts(&i), ("/addr/blog/post./index.html".to_string(), name(3), ArchiveAction::Data, DataState::Modified));
}

#[test]
fn archive_info_new_keeps_fields() {
    let i = ArchiveInfo::new("p".to_string(), name(9), ArchiveAction::Listing, DataState::NotModified);
    assert_eq!(info_parts(&i), ("p".to_string(), name(9), ArchiveAction::Listing, DataState::NotModified));
}

#[test]
fn json_listing_after_skipped_file_has_no_trailing_comma() {
    // the second file has no UTF-8 path; no comma follows the only object
    let h = ArchiveHelper::new(Archive { entries: vec![entry(Some("a"), 1, 0, 3), entry(None, 2, 0, 0)] });
    let json = h.list_files_json();
    assert_eq!(json, "[\n{\"name\": \"a\", \"type\": \"file\", \"mtime\": \"1970-01-01T00:00:00+00:00\", \"size\": \"3\"}\n]");
    let v: serde_json::Value = serde_json::from_str(&json).unwrap();
    assert_eq!(v.as_array().unwrap().len(), 1);
}

#[test]
fn json_listing_parses_as_json() {
    let v: serde_json::Value = serde_json::from_str(&helper().list_files_json()).unwrap();
    let items = v.as_array().unwrap();
    assert_eq!(items.len(), 3);
    assert_eq!(items[1]["name"], "index.html");
    assert_eq!(items[2]["size"], "1234567890");
}

#[test]
fn json_listing_with_given_times() {
    let h = ArchiveHelper::new(Archive { entries: vec![entry(Some("a"), 1, 0, 1), entry(Some("b"), 2, 0, 2), entry(Some("c"), 3, 0, 3)] });
    let times = vec![Some("T1".to_string()), None, Some("T3".to_string())];
    assert_eq!(
        h.list_files_json_with_times(&times),
        "[\n{\"name\": \"a\", \"type\": \"file\", \"mtime\": \"T1\", \"size\": \"1\"},\n\
{\"name\": \"c\", \"type\": \"file\", \"mtime\": \"T3\", \"size\": \"3\"}\n]"
    );
    assert_eq!(h.list_files_json_with_times(&vec![None, None, None]), "[\n]");
}

#[test]
fn html_listing_does_not_need_times_in_range() {
    let h = ArchiveHelper::new(Archive { entries: vec![entry(Some("a"), 1, u64::MAX, 0)] });
    assert_eq!(
        h.list_files(Some("text/html".to_string())),
        "<html><body><h1>Archive Contents</h1><ul><li><a href=\"a\">a</a></li>\n</ul></body></html>"
    );
}

#[test]
fn missing_item_is_an_internal_server_error() {
    match helper().resolve_data_addr(part_strs(&["addr", "nope"])) {
        Err(e) => assert_eq!(e.status_code(), 500),
        Ok(_) => panic!("expected an error"),
    }
}
