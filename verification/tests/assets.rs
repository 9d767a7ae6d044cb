use rocom_pets::assets::{
    is_pack_entry, is_pack_name, join_path_str, manifest_path, read_manifest, split_archive, AssetError, MemoryFiles,
    MANIFEST, PACK_EXT,
};

fn strings(parts: &[&str]) -> Vec<String> {
    parts.iter().map(|p| p.to_string()).collect()
}

#[test]
fn paths_join_with_one_separator() {
    assert_eq!(join_path_str("/packs/喵喵", "forms/a"), "/packs/喵喵/forms/a");
    assert_eq!(join_path_str("/packs/", "x"), "/packs/x");
    assert_eq!(join_path_str("", "x"), "x");
    assert_eq!(manifest_path("/packs/喵喵.rkpet"), format!("/packs/喵喵.rkpet/{MANIFEST}"));
}

#[test]
fn pack_names_end_in_the_extension_whatever_the_case() {
    assert!(is_pack_name("喵喵.rkpet"));
    assert!(is_pack_name("喵喵.RKPET"));
    assert!(!is_pack_name("喵喵"));
    assert!(!is_pack_name(".rkpet"));
    assert_eq!(PACK_EXT, "rkpet");
}

#[test]
fn a_path_through_an_archive_splits_at_the_archive() {
    let comps = strings(&["", "packs", "喵喵.rkpet", "forms", "a", "model.glb"]);
    let is_file = vec![false, false, true, false, false, false];
    assert_eq!(split_archive(&comps, &is_file), Some((2, "forms/a/model.glb".to_string())));
    // a directory named like an archive is just a directory
    let is_dir = vec![false, false, false, false, false, false];
    assert_eq!(split_archive(&comps, &is_dir), None);
    // the archive itself is no read inside it
    let whole = strings(&["", "packs", "喵喵.rkpet"]);
    assert_eq!(split_archive(&whole, &vec![false, false, true]), None);
}

#[test]
fn fed_files_are_read_back_and_missing_ones_reported() {
    let mut files = MemoryFiles::new();
    files.insert("/p/喵喵.rkpet/manifest.toml".to_string(), b"schema = 1".to_vec());
    files.insert("/p/喵喵.rkpet/forms/a/model.glb".to_string(), b"glTF-not-really".to_vec());
    assert_eq!(files.read("/p/喵喵.rkpet/forms/a/model.glb"), Ok(b"glTF-not-really".to_vec()));
    assert_eq!(read_manifest(&files, "/p/喵喵.rkpet"), Ok("schema = 1".to_string()));
    assert_eq!(
        files.read("/p/喵喵.rkpet/forms/a/tex/none.png"),
        Err(AssetError::Missing("/p/喵喵.rkpet/forms/a/tex/none.png".to_string()))
    );
    // a later insert replaces
    files.insert("/p/喵喵.rkpet/manifest.toml".to_string(), b"schema = 2".to_vec());
    assert_eq!(read_manifest(&files, "/p/喵喵.rkpet"), Ok("schema = 2".to_string()));
    files.clear();
    assert!(files.read("/p/喵喵.rkpet/manifest.toml").is_err());
}

#[test]
fn a_manifest_that_is_not_text_is_refused() {
    let mut files = MemoryFiles::new();
    files.insert("/p/x/manifest.toml".to_string(), vec![0xff, 0xfe, 0x00]);
    assert_eq!(read_manifest(&files, "/p/x"), Err(AssetError::NotUtf8("/p/x".to_string())));
    assert_eq!(
        read_manifest(&files, "/p/y"),
        Err(AssetError::Missing("/p/y/manifest.toml".to_string()))
    );
}

#[test]
fn a_pack_is_a_directory_with_a_manifest_or_an_archive_file() {
    use_is_pack_entry();
}

fn use_is_pack_entry() {
    assert!(is_pack_entry(true, true, "喵喵", false));
    assert!(!is_pack_entry(true, false, "喵喵", false));
    // a directory named like an archive is judged as a directory
    assert!(!is_pack_entry(true, false, "喵喵.rkpet", false));
    assert!(is_pack_entry(false, false, "喵喵.RkPet", true));
    assert!(!is_pack_entry(false, false, "喵喵.rkpet", false));
    assert!(!is_pack_entry(false, false, "notes.txt", true));
}
