use anttp::archive::{Archive, ArchiveEntry, DataState};
use anttp::xor::{ArchiveOrFile, XorHelper, XorNameError};
use xor_name::XorName;

const HEX_A: &str = "0a1b2c3d4e5f60718293a4b5c6d7e8f90a1b2c3d4e5f60718293a4b5c6d7e8f9";

fn name_a() -> XorName {
    let bytes = hex::decode(HEX_A).unwrap();
    let mut a = [0u8; 32];
    a.copy_from_slice(&bytes);
    XorName(a)
}

#[test]
fn is_xor_accepts_64_hex_digits() {
    let h = XorHelper::new();
    assert!(h.is_xor(&HEX_A.to_string()));
    assert!(h.is_xor(&HEX_A.to_uppercase()));
}

#[test]
fn is_xor_rejects_wrong_length_and_non_hex() {
    let h = XorHelper::new();
    assert!(!h.is_xor(&HEX_A[..62].to_string()));
    assert!(!h.is_xor(&format!("{}00", HEX_A)));
    let mut bad = HEX_A.to_string();
    bad.replace_range(0..1, "g");
    assert!(!h.is_xor(&bad));
    assert!(!h.is_xor(&String::new()));
    // 64 bytes but 32 characters: not hexadecimal
    assert!(!h.is_xor(&"é".repeat(32)));
}

#[test]
fn is_xor_len_counts_bytes() {
    let h = XorHelper::new();
    assert!(h.is_xor_len(&"é".repeat(32)));
    assert!(h.is_xor_len(&HEX_A.to_string()));
    assert!(!h.is_xor_len(&"abc".to_string()));
}

#[test]
fn str_to_xor_name_parses_and_reports_errors() {
    let h = XorHelper::new();
    assert_eq!(h.str_to_xor_name(&HEX_A.to_string()), Ok(name_a()));
    assert_eq!(h.str_to_xor_name(&"abc".to_string()), Err(XorNameError::NotHex));
    assert_eq!(h.str_to_xor_name(&"zz".to_string()), Err(XorNameError::NotHex));
    assert_eq!(h.str_to_xor_name(&"abcd".to_string()), Err(XorNameError::WrongLength));
}

#[test]
fn hex_form_of_a_name_parses_back() {
    let h = XorHelper::new();
    let name = XorName([0xab; 32]);
    let text = format!("{:x}", name);
    assert!(h.is_xor(&text));
    assert_eq!(h.str_to_xor_name(&text), Ok(name));
}

#[test]
fn data_state_compares_unquoted_e_tag() {
    let h = XorHelper::new();
    let name = name_a();
    assert_eq!(h.get_data_state(None, &name), DataState::Modified);
    assert_eq!(h.get_data_state(Some(HEX_A.to_string()), &name), DataState::NotModified);
    assert_eq!(h.get_data_state(Some(format!("\"{}\"", HEX_A)), &name), DataState::NotModified);
    assert_eq!(h.get_data_state(Some(HEX_A.to_uppercase()), &name), DataState::Modified);
    assert_eq!(h.get_data_state(Some("\"other\"".to_string()), &name), DataState::Modified);
    assert_eq!(h.get_data_state(Some(format!("{:x}", XorName::default())), &name), DataState::Modified);
}

#[test]
fn assign_path_parts_takes_first_two() {
    let h = XorHelper::new();
    let parts = |v: &[&str]| v.iter().map(|s| s.to_string()).collect::<Vec<String>>();
    assert_eq!(h.assign_path_parts(parts(&["a", "b", "c"])), ("a".to_string(), "b".to_string()));
    assert_eq!(h.assign_path_parts(parts(&["a"])), ("a".to_string(), "".to_string()));
    assert_eq!(h.assign_path_parts(parts(&[])), ("".to_string(), "".to_string()));
}

#[test]
fn archive_or_file_target_prefers_the_archive_address() {
    let h = XorHelper::new();
    match h.archive_or_file_target(&HEX_A.to_string(), &"index.html".to_string()) {
        ArchiveOrFile::FetchArchive(x) => assert_eq!(x, name_a()),
        _ => panic!("expected an archive to fetch"),
    }
    match h.archive_or_file_target(&"site".to_string(), &HEX_A.to_string()) {
        ArchiveOrFile::File(x) => assert_eq!(x, name_a()),
        _ => panic!("expected a file"),
    }
    assert!(matches!(
        h.archive_or_file_target(&"site".to_string(), &"index.html".to_string()),
        ArchiveOrFile::NotFound
    ));
}

#[test]
fn resolve_archive_or_file_outcomes() {
    let h = XorHelper::new();
    let archive = Archive {
        entries: vec![ArchiveEntry { path: Some("a.txt".to_string()), data_address: name_a(), modified: 0, size: 1 }],
    };
    let (found, a, is_archive, x) = h.resolve_archive_or_file(ArchiveOrFile::FetchArchive(name_a()), Some(archive));
    assert!(found && is_archive);
    assert_eq!(a.entries.len(), 1);
    assert_eq!(x, name_a());

    let (found, a, is_archive, x) = h.resolve_archive_or_file(ArchiveOrFile::FetchArchive(name_a()), None);
    assert!(found && !is_archive);
    assert_eq!(a.entries.len(), 0);
    assert_eq!(x, name_a());

    let (found, a, is_archive, x) = h.resolve_archive_or_file(ArchiveOrFile::File(name_a()), None);
    assert!(found && !is_archive && a.entries.is_empty());
    assert_eq!(x, name_a());

    let (found, a, is_archive, x) = h.resolve_archive_or_file(ArchiveOrFile::NotFound, None);
    assert!(!found && !is_archive && a.entries.is_empty());
    assert_eq!(x, XorName::default());
}

#[test]
fn any_name_formats_and_parses_back() {
    let h = XorHelper::new();
    for name in [XorName::default(), name_a(), XorName([0xff; 32])] {
        let text = format!("{:x}", name);
        assert_eq!(text.len(), 64);
        assert_eq!(h.str_to_xor_name(&text), Ok(name));
    }
}
