use texpack::{hex_id, plan_assembly, DirEntry, TexError};

fn entry(stem: &str, ext: &str, is_dir: bool) -> DirEntry {
    DirEntry {
        stem: stem.as_bytes().to_vec(),
        ext: ext.as_bytes().to_vec(),
        is_dir,
    }
}

#[test]
fn hex_id_is_eight_lowercase_digits() {
    assert_eq!(hex_id(0xdeadbeef), b"deadbeef".to_vec());
    assert_eq!(hex_id(0x2a), b"0000002a".to_vec());
    assert_eq!(hex_id(0), b"00000000".to_vec());
    assert_eq!(hex_id(u32::MAX), b"ffffffff".to_vec());
}

#[test]
fn assembly_collects_paired_stems_in_order() {
    let entries = vec![
        entry("0000002a", "png", false),
        entry("0000002a", "json", false),
        entry("notes", "txt", false),
        entry("nested", "png", true),
        entry("000000ff", "json", false),
        entry("000000ff", "png", false),
    ];
    let stems = match plan_assembly(&entries) {
        Ok(s) => s,
        Err(_) => panic!("expected a plan"),
    };
    assert_eq!(stems, vec![b"0000002a".to_vec(), b"000000ff".to_vec()]);
}

#[test]
fn image_without_sidecar_is_missing_metadata() {
    let entries = vec![
        entry("0000002a", "png", false),
        entry("0000002a", "json", false),
        entry("000000ff", "png", false),
    ];
    match plan_assembly(&entries) {
        Err(e) => assert_eq!(e, TexError::MissingMetadata),
        Ok(_) => panic!("expected an error"),
    }
}
