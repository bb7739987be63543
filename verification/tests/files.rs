use yancy::io::{has_raw_file_extension, is_raw_extension};

#[test]
fn raw_extensions_are_recognised() {
    for ext in [
        "3fr", "ari", "arw", "bay", "braw", "cap", "cr2", "cr3", "cri", "crw", "dcr", "dcs", "dng",
        "drf", "eip", "erf", "fff", "gpr", "iiq", "jxs", "k25", "kdc", "mdc", "mef", "mos", "mrw",
        "nef", "nrw", "orf", "pef", "ptx", "pxn", "r3d", "raf", "raw", "rw2", "rwl", "rwz", "sr2",
        "srf", "srw", "tco", "x3f",
    ] {
        assert!(is_raw_extension(ext), "{}", ext);
        assert!(is_raw_extension(&ext.to_uppercase()), "{}", ext);
    }
    assert!(is_raw_extension("DnG"));
}

#[test]
fn other_extensions_are_not_raw() {
    for ext in ["", "jpg", "tiff", "dngx", "dn", "cr", "cr22", "r\u{e4}w", "ra w"] {
        assert!(!is_raw_extension(ext), "{}", ext);
    }
}

#[test]
fn paths_are_judged_by_their_extension() {
    assert!(has_raw_file_extension("photo.CR2"));
    assert!(has_raw_file_extension("/scans/roll 7/frame.01.nef"));
    assert!(has_raw_file_extension("a.b.NEF"));
    assert!(!has_raw_file_extension("photo.jpg"));
    assert!(!has_raw_file_extension("photo"));
    assert!(!has_raw_file_extension(".raw"));
    assert!(!has_raw_file_extension("scans.raw/photo"));
    assert!(!has_raw_file_extension("photo.cr2.txt"));
    assert!(!has_raw_file_extension("cr2"));
    assert!(!has_raw_file_extension(""));
}

#[test]
fn bare_names_are_judged_by_the_text_behind_the_last_dot() {
    assert!(has_raw_file_extension("a.cr2"));
    assert!(has_raw_file_extension("frame 12.RAF"));
    assert!(has_raw_file_extension("roll.7.x3f"));
    assert!(!has_raw_file_extension("photo."));
    assert!(!has_raw_file_extension("a.cr2."));
    assert!(!has_raw_file_extension("a.cr2.bak"));
    assert!(!has_raw_file_extension("nodot"));
}
