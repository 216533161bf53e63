use winres_edit::header::DataType as HeaderDataType;
use winres_edit::{Data, Error, FileInfo, Header, StringEntry, StringTable, Var, Version, VersionInfo, VersionInfoChild};

fn utf16z(s: &str) -> Vec<u8> {
    let mut v = Vec::new();
    for u in s.encode_utf16() {
        v.extend_from_slice(&u.to_le_bytes());
    }
    v.extend_from_slice(&[0, 0]);
    v
}

fn block(key: &str, ty: u16, vlen: u16, payload: &[u8]) -> Vec<u8> {
    let mut v = vec![0u8, 0u8];
    v.extend_from_slice(&vlen.to_le_bytes());
    v.extend_from_slice(&ty.to_le_bytes());
    v.extend_from_slice(&utf16z(key));
    while v.len() % 4 != 0 {
        v.push(0);
    }
    v.extend_from_slice(payload);
    let n = v.len() as u16;
    v[0..2].copy_from_slice(&n.to_le_bytes());
    v
}

fn join(parts: &[Vec<u8>]) -> Vec<u8> {
    let mut v = Vec::new();
    for p in parts {
        while v.len() % 4 != 0 {
            v.push(0);
        }
        v.extend_from_slice(p);
    }
    v
}

fn fixed(signature: u32, file_version: [u16; 4]) -> Vec<u8> {
    let words: [u32; 13] = [
        signature,
        0x0001_0000,
        (file_version[0] as u32) << 16 | file_version[1] as u32,
        (file_version[2] as u32) << 16 | file_version[3] as u32,
        0x0001_0000,
        0,
        0x3f,
        0,
        0x0004_0004,
        1,
        0,
        0x0000_0001,
        0x0000_0002,
    ];
    let mut v = Vec::new();
    for w in words {
        v.extend_from_slice(&w.to_le_bytes());
    }
    v
}

fn text_entry(key: &str, text: &str) -> Vec<u8> {
    block(key, 1, (text.encode_utf16().count() + 1) as u16, &utf16z(text))
}

fn resource(signature: u32, tables: &[(&str, &[(&str, &str)])], translation: Option<&[u32]>) -> Vec<u8> {
    let mut table_blocks = Vec::new();
    for (lang, entries) in tables {
        let records: Vec<Vec<u8>> = entries.iter().map(|(k, t)| text_entry(k, t)).collect();
        table_blocks.push(block(lang, 0, 0, &join(&records)));
    }
    let mut children = vec![block("StringFileInfo", 0, 0, &join(&table_blocks))];
    if let Some(words) = translation {
        let mut payload = Vec::new();
        for w in words {
            payload.extend_from_slice(&w.to_le_bytes());
        }
        let var = block("Translation", 0, words.len() as u16, &payload);
        children.push(block("VarFileInfo", 0, 0, &var));
    }
    let mut data = fixed(signature, [1, 0, 0, 0]);
    data.extend_from_slice(&join(&children));
    block("VS_VERSION_INFO", 0, 52, &data)
}

fn minimal() -> Vec<u8> {
    resource(0xFEEF04BD, &[("040904B0", &[("ProductName", "Test")])], None)
}

fn text_in(vi: &VersionInfo, lang: &str, key: &str) -> Option<String> {
    for c in &vi.children {
        if let VersionInfoChild::StringFileInfo { tables } = c {
            for t in tables {
                if t.lang == lang {
                    for e in &t.entries {
                        if e.key == key {
                            if let Data::Text(s) = &e.value {
                                return Some(s.clone());
                            }
                        }
                    }
                }
            }
        }
    }
    None
}

fn tables(vi: &VersionInfo) -> Vec<StringTable> {
    let mut out = Vec::new();
    for c in &vi.children {
        if let VersionInfoChild::StringFileInfo { tables } = c {
            out.extend(tables.iter().cloned());
        }
    }
    out
}

fn same(a: &VersionInfo, b: &VersionInfo) -> bool {
    format!("{:?}", a) == format!("{:?}", b)
}

#[test]
fn decodes_minimal_resource() {
    let vi = VersionInfo::decode(&minimal()).unwrap();
    assert_eq!(vi.key, "VS_VERSION_INFO");
    assert_eq!(vi.info.signature, 0xFEEF04BD);
    assert_eq!(vi.info.struc_version, 0x0001_0000);
    assert_eq!(vi.info.file_version.0, [1, 0, 0, 0]);
    assert_eq!(vi.info.product_version.0, [1, 0, 0, 0]);
    assert_eq!(vi.info.file_flags_mask, 0x3f);
    assert_eq!(vi.info.file_os, 0x0004_0004);
    assert_eq!(vi.info.file_type, 1);
    assert_eq!(vi.info.file_date.0, 0x0000_0001_0000_0002);
    assert_eq!(vi.children.len(), 1);
    assert_eq!(text_in(&vi, "040904B0", "ProductName").as_deref(), Some("Test"));
}

#[test]
fn end_to_end_set_file_version() {
    let mut vi = VersionInfo::decode(&minimal()).unwrap();
    vi.set_file_version(&[2, 0, 0, 1]);
    let bytes = vi.try_to_vec().unwrap();
    let again = VersionInfo::decode(&bytes).unwrap();
    assert_eq!(again.info.file_version.0, [2, 0, 0, 1]);
    assert_eq!(text_in(&again, "040904B0", "FileVersion").as_deref(), Some("2.0.0.1"));
    assert_eq!(text_in(&again, "040904B0", "ProductName").as_deref(), Some("Test"));
}

#[test]
fn bad_signature_is_format_error() {
    let data = resource(0x12345678, &[("040904B0", &[("ProductName", "Test")])], None);
    match VersionInfo::decode(&data) {
        Err(e) => {
            assert!(matches!(e, Error::InvalidSignature(0x12345678)));
            assert!(e.is_format_error());
        }
        Ok(_) => panic!("a bad signature must not decode"),
    }
    let mut raw = fixed(0xFEEF04BE, [1, 0, 0, 0]);
    raw.extend_from_slice(&[0; 4]);
    assert!(matches!(FileInfo::decode(&raw, 0), Err(Error::InvalidSignature(0xFEEF04BE))));
}

#[test]
fn header_type_two_is_format_error() {
    let mut data = block("Key", 0, 0, &[]);
    data[4..6].copy_from_slice(&2u16.to_le_bytes());
    match Header::decode(&data, 0) {
        Err(e) => {
            assert!(matches!(e, Error::InvalidDataType(2)));
            assert!(e.is_format_error());
        }
        Ok(_) => panic!("type 2 must not decode"),
    }
    let mut whole = minimal();
    whole[4..6].copy_from_slice(&7u16.to_le_bytes());
    assert!(matches!(VersionInfo::decode(&whole), Err(Error::InvalidDataType(7))));
}

#[test]
fn set_file_version_updates_every_table() {
    let data = resource(
        0xFEEF04BD,
        &[("040904B0", &[("ProductName", "Test")]), ("040704B0", &[("FileVersion", "1.0.0")])],
        None,
    );
    let mut vi = VersionInfo::decode(&data).unwrap();
    vi.set_file_version(&[2, 0, 0, 1]);
    assert_eq!(vi.info.file_version.0, [2, 0, 0, 1]);
    assert_eq!(text_in(&vi, "040904B0", "FileVersion").as_deref(), Some("2.0.0.1"));
    assert_eq!(text_in(&vi, "040704B0", "FileVersion").as_deref(), Some("2.0.0.1"));
    assert_eq!(vi.info.product_version.0, [1, 0, 0, 0]);
}

#[test]
fn set_version_writes_three_parts_without_revision() {
    let mut vi = VersionInfo::decode(&minimal()).unwrap();
    vi.set_version(&[3, 14, 159, 0]);
    assert_eq!(vi.info.file_version.0, [3, 14, 159, 0]);
    assert_eq!(vi.info.product_version.0, [3, 14, 159, 0]);
    assert_eq!(text_in(&vi, "040904B0", "FileVersion").as_deref(), Some("3.14.159"));
    assert_eq!(text_in(&vi, "040904B0", "ProductVersion").as_deref(), Some("3.14.159"));
}

#[test]
fn version_to_string() {
    assert_eq!(Version([1, 2, 3, 0]).to_string(), "1.2.3");
    assert_eq!(Version([1, 2, 3, 4]).to_string(), "1.2.3.4");
    assert_eq!(Version([65535, 0, 10, 65535]).to_string(), "65535.0.10.65535");
}

#[test]
fn replace_missing_key_changes_nothing() {
    let mut vi = VersionInfo::decode(&minimal()).unwrap();
    let before = tables(&vi);
    vi.replace_string("Missing", "x");
    assert_eq!(format!("{:?}", tables(&vi)), format!("{:?}", before));
}

#[test]
fn replace_present_key() {
    let data = resource(
        0xFEEF04BD,
        &[("040904B0", &[("ProductName", "Test")]), ("040704B0", &[("Comments", "c")])],
        None,
    );
    let mut vi = VersionInfo::decode(&data).unwrap();
    vi.replace_string("ProductName", "Other");
    assert_eq!(text_in(&vi, "040904B0", "ProductName").as_deref(), Some("Other"));
    assert_eq!(text_in(&vi, "040704B0", "ProductName"), None);
}

#[test]
fn remove_then_insert_restores() {
    let data = resource(
        0xFEEF04BD,
        &[("040904B0", &[("ProductName", "Test"), ("Comments", "c")]), ("040704B0", &[("ProductName", "P")])],
        None,
    );
    let mut vi = VersionInfo::decode(&data).unwrap();
    vi.remove_string("ProductName");
    assert_eq!(text_in(&vi, "040904B0", "ProductName"), None);
    assert_eq!(text_in(&vi, "040704B0", "ProductName"), None);
    assert_eq!(text_in(&vi, "040904B0", "Comments").as_deref(), Some("c"));
    vi.insert_string("ProductName", "Back");
    assert_eq!(text_in(&vi, "040904B0", "ProductName").as_deref(), Some("Back"));
    assert_eq!(text_in(&vi, "040704B0", "ProductName").as_deref(), Some("Back"));
}

#[test]
fn remove_absent_key_is_no_op() {
    let mut vi = VersionInfo::decode(&minimal()).unwrap();
    let before = tables(&vi);
    vi.remove_string("Absent");
    assert_eq!(format!("{:?}", tables(&vi)), format!("{:?}", before));
}

#[test]
fn ensure_language_is_idempotent() {
    let mut vi = VersionInfo::decode(&minimal()).unwrap();
    vi.ensure_language("040904B0");
    vi.ensure_language("040904B0");
    let ts = tables(&vi);
    assert_eq!(ts.iter().filter(|t| t.lang == "040904B0").count(), 1);
    vi.ensure_language("041104B0").ensure_language("041104B0");
    let ts = tables(&vi);
    assert_eq!(ts.len(), 2);
    assert_eq!(ts.iter().filter(|t| t.lang == "041104B0").count(), 1);
    assert!(ts[1].entries.is_empty());
}

#[test]
fn insert_strings_in_order() {
    let mut vi = VersionInfo::decode(&minimal()).unwrap();
    vi.insert_strings(&[("ProductName", "My Product"), ("FileDescription", "My File"), ("ProductName", "Last")]);
    assert_eq!(text_in(&vi, "040904B0", "ProductName").as_deref(), Some("Last"));
    assert_eq!(text_in(&vi, "040904B0", "FileDescription").as_deref(), Some("My File"));
    let ts = tables(&vi);
    assert_eq!(ts[0].entries.len(), 2);
    assert_eq!(ts[0].entries[0].key, "ProductName");
}

#[test]
fn chained_edits() {
    let mut vi = VersionInfo::decode(&minimal()).unwrap();
    vi.set_file_version(&[0, 1, 0, 0])
        .set_product_version(&[0, 1, 0, 0])
        .insert_string("FileDescription", "My File")
        .remove_string("ProductName");
    assert_eq!(text_in(&vi, "040904B0", "ProductVersion").as_deref(), Some("0.1.0"));
    assert_eq!(text_in(&vi, "040904B0", "ProductName"), None);
}

#[test]
fn round_trip_keeps_structure() {
    let data = resource(
        0xFEEF04BD,
        &[("040904B0", &[("ProductName", "Test"), ("Ünïcode 😀", "Välue 𝄞")]), ("040704B0", &[])],
        Some(&[0x04B0_0409, 0x04B0_0407]),
    );
    let vi = VersionInfo::decode(&data).unwrap();
    let bytes = vi.try_to_vec().unwrap();
    let again = VersionInfo::decode(&bytes).unwrap();
    assert!(same(&vi, &again));
    assert_eq!(bytes, data);
    assert_eq!(text_in(&again, "040904B0", "Ünïcode 😀").as_deref(), Some("Välue 𝄞"));
}

#[test]
fn var_file_info_words() {
    let data = resource(0xFEEF04BD, &[], Some(&[0x04B0_0409]));
    let vi = VersionInfo::decode(&data).unwrap();
    match &vi.children[1] {
        VersionInfoChild::VarFileInfo { vars } => {
            assert_eq!(vars.len(), 1);
            assert_eq!(vars[0].key, "Translation");
            assert_eq!(vars[0].values, vec![0x04B0_0409]);
        }
        _ => panic!("second child must be a var file info"),
    }
}

#[test]
fn binary_value_round_trip() {
    let mut vi = VersionInfo::decode(&minimal()).unwrap();
    if let VersionInfoChild::StringFileInfo { tables } = &mut vi.children[0] {
        tables[0].entries.push(StringEntry { key: "Blob".to_string(), value: Data::Binary(vec![1, 2, 3, 4]) });
    }
    vi.children.push(VersionInfoChild::VarFileInfo {
        vars: vec![Var { key: "Translation".to_string(), values: vec![7, 8] }],
    });
    let bytes = vi.try_to_vec().unwrap();
    let again = VersionInfo::decode(&bytes).unwrap();
    assert!(same(&vi, &again));
}

#[test]
fn unknown_child_is_named() {
    let mut data = fixed(0xFEEF04BD, [1, 0, 0, 0]);
    data.extend_from_slice(&block("Bogus", 0, 0, &[]));
    let whole = block("VS_VERSION_INFO", 0, 52, &data);
    match VersionInfo::decode(&whole) {
        Err(Error::UnknownChild(k)) => assert_eq!(k, "Bogus"),
        other => panic!("unexpected: {:?}", other.map(|_| ())),
    }
}

#[test]
fn truncated_data_underruns() {
    let data = minimal();
    for cut in [0usize, 3, 10, 60, data.len() - 2] {
        let r = VersionInfo::decode(&data[..cut]);
        assert!(matches!(r, Err(Error::Underrun)), "cut at {}", cut);
    }
}

#[test]
fn lone_surrogate_is_encoding_error() {
    let mut data = block("Ke", 0, 0, &[]);
    data[8..10].copy_from_slice(&0xD800u16.to_le_bytes());
    match Header::decode(&data, 0) {
        Err(e) => {
            assert!(matches!(e, Error::InvalidUtf16));
            assert!(e.is_encoding_error());
            assert!(!e.is_format_error());
        }
        Ok(_) => panic!("a lone surrogate must not decode"),
    }
}

#[test]
fn oversized_block_is_refused() {
    let mut vi = VersionInfo::decode(&minimal()).unwrap();
    let long = "x".repeat(40000);
    vi.insert_string("Comments", &long);
    assert!(matches!(vi.try_to_vec(), Err(Error::TooLarge)));
}

#[test]
fn header_fields_and_end() {
    let data = block("Translation", 0, 2, &[9, 0, 0, 0, 8, 0, 0, 0]);
    let (h, next) = Header::decode(&data, 0).unwrap();
    assert_eq!(h.length, data.len());
    assert_eq!(h.value_length, 2);
    assert_eq!(h.data_type, HeaderDataType::Binary);
    assert_eq!(h.key, "Translation");
    assert_eq!(h.last, data.len());
    assert_eq!(next, 32);
    let fresh = Header::new(10, 2, HeaderDataType::Text, "Key");
    assert_eq!(fresh.last, 0);
    assert_eq!(fresh.key, "Key");
}

#[test]
fn fixed_info_writes_valid_signature() {
    let mut info = FileInfo::default();
    assert_eq!(info.signature, 0xFEEF04BD);
    info.signature = 0;
    info.file_version = Version([1, 2, 3, 4]);
    let mut out = Vec::new();
    info.encode(&mut out);
    assert_eq!(out.len(), 52);
    assert_eq!(&out[0..4], &0xFEEF04BDu32.to_le_bytes());
    assert_eq!(&out[8..12], &0x0001_0002u32.to_le_bytes());
    assert_eq!(&out[12..16], &0x0003_0004u32.to_le_bytes());
    let back = FileInfo::decode(&out, 0).unwrap();
    assert_eq!(back.file_version.0, [1, 2, 3, 4]);
}

#[test]
fn id_from_integer() {
    let id: winres_edit::Id = 16u16.into();
    assert_eq!(id, winres_edit::Id::Integer(16));
    assert!(id.is_integer(16));
    assert!(!winres_edit::Id::Text("X".to_string()).is_integer(16));
}

#[test]
fn duplicate_keys_keep_first_place_and_last_value() {
    let data = resource(
        0xFEEF04BD,
        &[("040904B0", &[("A", "1"), ("B", "2"), ("A", "3")]), ("040904B0", &[("C", "4")])],
        None,
    );
    let vi = VersionInfo::decode(&data).unwrap();
    let ts = tables(&vi);
    assert_eq!(ts.len(), 1);
    assert_eq!(ts[0].entries.len(), 1);
    assert_eq!(ts[0].entries[0].key, "C");
}

#[test]
fn duplicate_entry_keys_in_one_table() {
    let data = resource(0xFEEF04BD, &[("040904B0", &[("A", "1"), ("B", "2"), ("A", "3")])], None);
    let vi = VersionInfo::decode(&data).unwrap();
    let ts = tables(&vi);
    assert_eq!(ts[0].entries.len(), 2);
    assert_eq!(ts[0].entries[0].key, "A");
    assert_eq!(text_in(&vi, "040904B0", "A").as_deref(), Some("3"));
    assert_eq!(ts[0].entries[1].key, "B");
}

#[test]
fn empty_tables_round_trip() {
    let data = resource(0xFEEF04BD, &[], None);
    let vi = VersionInfo::decode(&data).unwrap();
    match &vi.children[0] {
        VersionInfoChild::StringFileInfo { tables } => assert!(tables.is_empty()),
        _ => panic!("first child must be a string file info"),
    }
    let again = VersionInfo::decode(&vi.try_to_vec().unwrap()).unwrap();
    assert!(same(&vi, &again));
    let mut vi = vi;
    vi.insert_string("ProductName", "nowhere");
    assert!(tables(&vi).is_empty());
    vi.ensure_language("040904B0");
    assert_eq!(tables(&vi).len(), 1);
}

#[test]
fn no_children_round_trip() {
    let whole = block("VS_VERSION_INFO", 0, 52, &fixed(0xFEEF04BD, [4, 3, 2, 1]));
    let vi = VersionInfo::decode(&whole).unwrap();
    assert!(vi.children.is_empty());
    assert_eq!(vi.info.file_version.0, [4, 3, 2, 1]);
    assert_eq!(vi.try_to_vec().unwrap(), whole);
}
