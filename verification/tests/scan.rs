use remarkable_library::digest::to_hex_upper;
use remarkable_library::document::RemarkableObj;
use remarkable_library::files::{FileWithHash, ScannedFile};
use remarkable_library::library::scan_files;
use remarkable_library::report::ScanIssue;

fn file(path: &str, name: &str, data: Option<&[u8]>) -> ScannedFile {
    ScannedFile {
        path: path.to_string(),
        name: name.to_string(),
        data: data.map(|d| d.to_vec()),
    }
}

fn meta_json(parent: &str) -> Vec<u8> {
    format!(
        "{{\"createdTime\":\"1\",\"lastModified\":\"2\",\"lastOpened\":\"3\",\
         \"lastOpenedPage\":4,\"visibleName\":\"note\",\"parent\":\"{}\",\"pinned\":true}}",
        parent
    )
    .into_bytes()
}

const EMPTY_SHA256: &str = "E3B0C44298FC1C149AFBF4C8996FB92427AE41E4649B934CA495991B7852B855";

#[test]
fn empty_scan_yields_empty_library_and_report() {
    let (lib, issues) = scan_files(Vec::new());
    assert_eq!(lib.documents.len(), 0);
    assert_eq!(lib.parent_of.len(), 0);
    assert_eq!(issues.len(), 0);
}

#[test]
fn metadata_only_document_gets_empty_set_sentinel_hash() {
    let files = vec![file("r/a.metadata", "a.metadata", Some(&meta_json("")))];
    let (lib, _issues) = scan_files(files);
    assert_eq!(lib.documents.len(), 1);
    assert_eq!(to_hex_upper(&lib.documents[0].content_hash), EMPTY_SHA256);
}

#[test]
fn aggregate_hash_ignores_listing_order() {
    let m = meta_json("");
    let one = vec![
        file("r/a.metadata", "a.metadata", Some(&m)),
        file("r/a.rm", "a.rm", Some(b"page one")),
        file("r/a.pagedata", "a.pagedata", Some(b"page two")),
    ];
    let other = vec![
        file("r/a.pagedata", "a.pagedata", Some(b"page two")),
        file("r/a.rm", "a.rm", Some(b"page one")),
        file("r/a.metadata", "a.metadata", Some(&m)),
    ];
    let (lib1, _) = scan_files(one);
    let (lib2, _) = scan_files(other);
    assert_eq!(lib1.documents[0].content_hash, lib2.documents[0].content_hash);
}

#[test]
fn empty_parent_sits_at_library_root() {
    let files = vec![file("r/a.metadata", "a.metadata", Some(&meta_json("")))];
    let (lib, _) = scan_files(files);
    assert_eq!(lib.parent_of[0], None);
}

#[test]
fn two_document_cycle_lands_both_at_root_and_names_both() {
    let files = vec![
        file("r/a.metadata", "a.metadata", Some(&meta_json("b"))),
        file("r/b.metadata", "b.metadata", Some(&meta_json("a"))),
    ];
    let (lib, issues) = scan_files(files);
    assert_eq!(lib.documents.len(), 2);
    assert_eq!(lib.parent_of[0], None);
    assert_eq!(lib.parent_of[1], None);
    let mut named = Vec::new();
    for issue in &issues {
        if let ScanIssue::ParentCycle { uuid } = issue {
            named.push(uuid.clone());
        }
    }
    named.sort();
    assert_eq!(named, vec!["a".to_string(), "b".to_string()]);
}

#[test]
fn string_page_index_is_malformed_and_only_that_document_drops() {
    let bad = b"{\"createdTime\":\"1\",\"lastModified\":\"2\",\"lastOpened\":\"3\",\
        \"lastOpenedPage\":\"4\",\"visibleName\":\"n\",\"parent\":\"\",\"pinned\":true}";
    let files = vec![
        file("r/bad.metadata", "bad.metadata", Some(bad)),
        file("r/ok.metadata", "ok.metadata", Some(&meta_json(""))),
    ];
    let (lib, issues) = scan_files(files);
    assert_eq!(lib.documents.len(), 1);
    assert_eq!(lib.documents[0].uuid, "ok");
    assert!(issues.iter().any(|i| matches!(i,
        ScanIssue::MetadataMalformed { uuid } if uuid == "bad")));
}

#[test]
fn parent_resolves_and_hash_is_sorted_digest_combination() {
    let files = vec![
        file("r/x.metadata", "x.metadata", Some(&meta_json(""))),
        file("r/x.rm", "x.rm", Some(b"first page")),
        file("r/x.pagedata", "x.pagedata", Some(b"second page")),
        file("r/y.metadata", "y.metadata", Some(&meta_json("x"))),
    ];
    let (lib, _) = scan_files(files);
    assert_eq!(lib.documents.len(), 2);
    let xi = lib.documents.iter().position(|d| d.uuid == "x").unwrap();
    let yi = lib.documents.iter().position(|d| d.uuid == "y").unwrap();
    assert_eq!(lib.parent_of[yi], Some(xi));
    assert_eq!(lib.parent_of[xi], None);

    let d1 = FileWithHash::from(file("t", "t.a", Some(b"first page"))).hash.unwrap();
    let d2 = FileWithHash::from(file("t", "t.a", Some(b"second page"))).hash.unwrap();
    let mut sorted = vec![d1, d2];
    sorted.sort();
    let mut joined = Vec::new();
    joined.extend_from_slice(&sorted[0]);
    joined.extend_from_slice(&sorted[1]);
    let expected = FileWithHash::from(file("t", "t.a", Some(&joined))).hash.unwrap();
    assert_eq!(lib.documents[xi].content_hash, expected);
}

#[test]
fn group_without_metadata_is_reported_missing() {
    let files = vec![file("r/a.rm", "a.rm", Some(b"bytes"))];
    let (lib, issues) = scan_files(files);
    assert_eq!(lib.documents.len(), 0);
    assert!(issues.iter().any(|i| matches!(i,
        ScanIssue::MetadataMissing { uuid } if uuid == "a")));
}

#[test]
fn duplicate_metadata_reported_and_later_path_wins() {
    let files = vec![
        file("r/one/a.metadata", "a.metadata", Some(&meta_json(""))),
        file("r/two/a.metadata", "a.metadata", Some(&meta_json("x"))),
    ];
    let (lib, issues) = scan_files(files);
    assert_eq!(lib.documents.len(), 1);
    assert_eq!(lib.documents[0].metadata_path, "r/two/a.metadata");
    assert_eq!(lib.documents[0].metadata.parent, "x");
    assert!(issues.iter().any(|i| matches!(i,
        ScanIssue::DuplicateIdentifier { uuid } if uuid == "a")));
}

#[test]
fn unreadable_file_is_kept_without_digest_and_reported() {
    let files = vec![
        file("r/a.metadata", "a.metadata", Some(&meta_json(""))),
        file("r/a.rm", "a.rm", None),
    ];
    let (lib, issues) = scan_files(files);
    assert_eq!(lib.documents.len(), 1);
    assert_eq!(lib.documents[0].file_paths.len(), 1);
    assert!(lib.documents[0].file_paths[0].hash.is_none());
    assert!(issues.iter().any(|i| matches!(i,
        ScanIssue::FileUnreadable { path } if path == "r/a.rm")));
    assert_eq!(to_hex_upper(&lib.documents[0].content_hash), EMPTY_SHA256);
}

#[test]
fn file_without_identifier_is_skipped_and_reported() {
    let files = vec![
        file("r/noext", "noext", Some(b"x")),
        file("r/.hidden", ".hidden", Some(b"y")),
    ];
    let (lib, issues) = scan_files(files);
    assert_eq!(lib.documents.len(), 0);
    assert!(issues.iter().any(|i| matches!(i,
        ScanIssue::FileSkipped { path } if path == "r/noext")));
    assert!(issues.iter().any(|i| matches!(i,
        ScanIssue::FileSkipped { path } if path == "r/.hidden")));
}

#[test]
fn dangling_parent_reference_attaches_at_root() {
    let files = vec![file("r/a.metadata", "a.metadata", Some(&meta_json("gone")))];
    let (lib, issues) = scan_files(files);
    assert_eq!(lib.documents.len(), 1);
    assert_eq!(lib.parent_of[0], None);
    assert!(!issues.iter().any(|i| matches!(i, ScanIssue::ParentCycle { .. })));
}

#[test]
fn hex_rendering_is_uppercase_two_digits_per_byte() {
    assert_eq!(to_hex_upper(&vec![0x0F, 0xA0, 0x00]), "0FA000");
}

#[test]
fn set_file_extension_replaces_or_strips() {
    let name = "a.metadata".to_string();
    assert_eq!(RemarkableObj::set_file_extension(&name, ""), "a");
    assert_eq!(RemarkableObj::set_file_extension(&name, "pdf"), "a.pdf");
    let bare = "bare".to_string();
    assert_eq!(RemarkableObj::set_file_extension(&bare, "pdf"), "bare.pdf");
}

#[test]
fn group_order_is_sorted_by_identifier() {
    let files = vec![
        file("r/b.metadata", "b.metadata", Some(&meta_json(""))),
        file("r/a.metadata", "a.metadata", Some(&meta_json(""))),
    ];
    let (lib, _) = scan_files(files);
    assert_eq!(lib.documents[0].uuid, "a");
    assert_eq!(lib.documents[1].uuid, "b");
}

#[test]
fn metadata_fields_are_decoded_exactly() {
    let files = vec![file("r/a.metadata", "a.metadata", Some(&meta_json("p")))];
    let (lib, _) = scan_files(files);
    let m = &lib.documents[0].metadata;
    assert_eq!(m.created_time, "1");
    assert_eq!(m.last_modified, "2");
    assert_eq!(m.last_opened, "3");
    assert_eq!(m.last_opened_page, 4);
    assert_eq!(m.visible_name, "note");
    assert_eq!(m.parent, "p");
    assert!(m.pinned);
}

#[test]
fn unknown_metadata_fields_are_tolerated() {
    let m = b"{\"createdTime\":\"1\",\"lastModified\":\"2\",\"lastOpened\":\"3\",\
        \"lastOpenedPage\":4,\"visibleName\":\"n\",\"parent\":\"\",\"pinned\":false,\
        \"extraField\":[1,2,3]}";
    let files = vec![file("r/a.metadata", "a.metadata", Some(m))];
    let (lib, _) = scan_files(files);
    assert_eq!(lib.documents.len(), 1);
    assert!(!lib.documents[0].metadata.pinned);
}

#[test]
fn missing_required_field_is_malformed() {
    let m = b"{\"createdTime\":\"1\",\"lastModified\":\"2\",\"lastOpened\":\"3\",\
        \"lastOpenedPage\":4,\"visibleName\":\"n\",\"pinned\":false}";
    let files = vec![file("r/a.metadata", "a.metadata", Some(m))];
    let (lib, issues) = scan_files(files);
    assert_eq!(lib.documents.len(), 0);
    assert!(issues.iter().any(|i| matches!(i,
        ScanIssue::MetadataMalformed { uuid } if uuid == "a")));
}

#[test]
fn page_index_beyond_u32_is_malformed() {
    let m = b"{\"createdTime\":\"1\",\"lastModified\":\"2\",\"lastOpened\":\"3\",\
        \"lastOpenedPage\":4294967296,\"visibleName\":\"n\",\"parent\":\"\",\"pinned\":false}";
    let files = vec![file("r/a.metadata", "a.metadata", Some(m))];
    let (lib, issues) = scan_files(files);
    assert_eq!(lib.documents.len(), 0);
    assert!(issues.iter().any(|i| matches!(i,
        ScanIssue::MetadataMalformed { uuid } if uuid == "a")));
}

#[test]
fn file_digest_renders_as_sixty_four_hex_chars() {
    let fw = FileWithHash::from(file("t", "t.a", Some(b"some page bytes")));
    let digest = fw.hash.unwrap();
    assert_eq!(digest.len(), 32);
    let hex = to_hex_upper(&digest);
    assert_eq!(hex.len(), 64);
    assert!(hex.chars().all(|c| c.is_ascii_hexdigit()));
}
