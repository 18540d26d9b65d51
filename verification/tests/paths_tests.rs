use bake_codepoints::paths::make_output_path;

#[test]
fn path_for_small_codepoint() {
    // four hex digits, zero padded: 0x41 -> "0041"
    let (dir, file) = make_output_path(0x41);
    assert_eq!(dir, "/tmp/fonts/00/");
    assert_eq!(file, "41.png");
}

#[test]
fn path_for_zero() {
    let (dir, file) = make_output_path(0);
    assert_eq!(dir, "/tmp/fonts/00/");
    assert_eq!(file, "00.png");
}

#[test]
fn path_pads_odd_width_to_even() {
    // 0x12486 needs five digits, padded to "012486"
    let (dir, file) = make_output_path(0x12486);
    assert_eq!(dir, "/tmp/fonts/01/24/");
    assert_eq!(file, "86.png");
}

#[test]
fn path_for_supplementary_plane() {
    let (dir, file) = make_output_path(0x1F600);
    assert_eq!(dir, "/tmp/fonts/01/F6/");
    assert_eq!(file, "00.png");
}

#[test]
fn path_boundaries() {
    let (dir, file) = make_output_path(0xFFFF);
    assert_eq!(dir, "/tmp/fonts/FF/");
    assert_eq!(file, "FF.png");
    let (dir, file) = make_output_path(0x10000);
    assert_eq!(dir, "/tmp/fonts/01/00/");
    assert_eq!(file, "00.png");
    let (dir, file) = make_output_path(0xFFFFFF);
    assert_eq!(dir, "/tmp/fonts/FF/FF/");
    assert_eq!(file, "FF.png");
    let (dir, file) = make_output_path(0x1000000);
    assert_eq!(dir, "/tmp/fonts/01/00/00/");
    assert_eq!(file, "00.png");
    let (dir, file) = make_output_path(u32::MAX);
    assert_eq!(dir, "/tmp/fonts/FF/FF/FF/");
    assert_eq!(file, "FF.png");
}

#[test]
fn dir_and_file_concatenate_to_full_path() {
    for cp in [0u32, 0x41, 0x7FF, 0xFFFF, 0x10000, 0x12486, 0x10FFFF, 0xABCDEF01] {
        let (dir, file) = make_output_path(cp);
        let full = format!("{dir}{file}");
        assert!(full.starts_with("/tmp/fonts/"));
        assert!(full.ends_with(".png"));
        assert!(dir.ends_with('/'));
        assert_eq!(file.len(), 6);
    }
}
