use archive_manifest::canonical::{canonicalize, effective_label, is_sidecar_name, should_archive};

#[test]
fn key_is_label_then_relative_path() {
    assert_eq!(canonicalize("/data/arc", "arc", "/data/arc/a"), "arc/a");
    assert_eq!(canonicalize("/data/arc", "arc", "/data/arc/x/y.txt"), "arc/x/y.txt");
    assert_eq!(canonicalize("/data/arc", "backup", "/data/arc/x/y.txt"), "backup/x/y.txt");
}

#[test]
fn root_itself_is_the_label() {
    assert_eq!(canonicalize("/data/arc", "arc", "/data/arc"), "arc");
    assert_eq!(canonicalize("/data/arc/", "arc", "/data/arc/"), "arc");
}

#[test]
fn trailing_separator_on_root() {
    assert_eq!(canonicalize("/data/arc/", "arc", "/data/arc/a"), "arc/a");
    assert_eq!(canonicalize("/data/arc", "arc", "/data/arc//a"), "arc/a");
}

#[test]
fn path_outside_root_is_used_verbatim() {
    assert_eq!(canonicalize("/data/arc", "arc", "/other/f"), "arc//other/f");
    assert_eq!(canonicalize("/data/arc", "arc", "/data/archive/f"), "arc//data/archive/f");
    assert_eq!(canonicalize("", "arc", "rel/f"), "arc/rel/f");
}

#[test]
fn canonicalize_is_deterministic() {
    let a = canonicalize("/r", "lbl", "/r/d/e");
    let b = canonicalize("/r", "lbl", "/r/d/e");
    assert_eq!(a, b);
    assert_eq!(canonicalize("/x/y", "lbl", "/x/y/d/e"), a);
}

#[test]
fn sidecar_files_are_not_archived() {
    assert!(is_sidecar_name("._foo"));
    assert!(is_sidecar_name("._"));
    assert!(!is_sidecar_name(".foo"));
    assert!(!is_sidecar_name("_.foo"));
    assert!(!is_sidecar_name("."));
    assert!(should_archive(true, "a.txt"));
    assert!(!should_archive(true, "._a.txt"));
    assert!(!should_archive(false, "a.txt"));
}

#[test]
fn label_defaults_to_directory_name() {
    assert_eq!(effective_label(None, "arc".to_string()), "arc");
    assert_eq!(effective_label(Some("mine".to_string()), "arc".to_string()), "mine");
}
