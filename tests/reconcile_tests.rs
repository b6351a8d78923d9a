use archive_manifest::digest::digest_chunked;
use archive_manifest::manifest::Manifest;
use archive_manifest::reconcile::{generate, update, validate, FileStatus, LiveFile, UpdateStatus};

const HELLO: &str = "2cf24dba5fb0a30e26e83b2ac5b9e29e1b161e5c1fa7425e73043362938b9824";
const WORLD: &str = "486ea46224d1bb4fb680f34f7c9ad96a8f24ec88be73ea8e5a6c65260e9cb8a7";

fn live(key: &str, contents: &[u8]) -> LiveFile {
    LiveFile { key: key.to_string(), digest: digest_chunked(contents, 4) }
}

fn tree() -> Vec<LiveFile> {
    vec![live("arc/a", b"hello"), live("arc/b", b"world")]
}

fn generated(files: Vec<LiveFile>) -> Manifest {
    let report = generate(&files.into_iter().map(Some).collect());
    Manifest::from_lines(&report.lines)
}

#[test]
fn generate_writes_one_line_per_file_in_order() {
    let report = generate(&tree().into_iter().map(Some).collect());
    assert_eq!(report.lines, vec![format!("{} arc/a", HELLO), format!("{} arc/b", WORLD)]);
    assert_eq!(report.succeeded, 2);
    assert_eq!(report.failed, 0);
}

#[test]
fn generate_counts_failures_and_leaves_them_out() {
    let results = vec![Some(live("arc/a", b"hello")), None, Some(live("arc/b", b"world")), None];
    let report = generate(&results);
    assert_eq!(report.lines, vec![format!("{} arc/a", HELLO), format!("{} arc/b", WORLD)]);
    assert_eq!(report.succeeded, 2);
    assert_eq!(report.failed, 2);
}

#[test]
fn validate_unchanged_tree_passes() {
    let m = generated(tree());
    let r = validate(&m, &tree());
    assert_eq!(r.statuses, vec![FileStatus::Valid, FileStatus::Valid]);
    assert_eq!((r.valid_count, r.invalid_count, r.new_count, r.missing_count), (2, 0, 0, 0));
    assert!(r.passed());
}

#[test]
fn validate_changed_file_is_invalid() {
    let m = generated(tree());
    let now = vec![live("arc/a", b"hello"), live("arc/b", b"w0rld")];
    let r = validate(&m, &now);
    assert_eq!(r.statuses, vec![FileStatus::Valid, FileStatus::Invalid]);
    assert_eq!((r.valid_count, r.invalid_count, r.new_count, r.missing_count), (1, 1, 0, 0));
    assert!(!r.passed());
}

#[test]
fn validate_deleted_file_is_missing() {
    let m = generated(tree());
    let now = vec![live("arc/b", b"world")];
    let r = validate(&m, &now);
    assert_eq!(r.missing, vec!["arc/a".to_string()]);
    assert_eq!((r.valid_count, r.invalid_count, r.new_count, r.missing_count), (1, 0, 0, 1));
    assert!(!r.passed());
}

#[test]
fn validate_new_file_alone_passes() {
    let m = generated(tree());
    let mut now = tree();
    now.push(live("arc/c", b"new"));
    let r = validate(&m, &now);
    assert_eq!(r.statuses[2], FileStatus::New);
    assert_eq!((r.valid_count, r.invalid_count, r.new_count, r.missing_count), (2, 0, 1, 0));
    assert!(r.passed());
}

#[test]
fn validate_against_empty_manifest_finds_only_new_files() {
    let m = Manifest::new();
    let r = validate(&m, &tree());
    assert_eq!((r.valid_count, r.invalid_count, r.new_count, r.missing_count), (0, 0, 2, 0));
    assert!(r.passed());
}

#[test]
fn update_removes_deleted_file() {
    let mut m = generated(tree());
    let now = vec![live("arc/b", b"world")];
    let r = update(&mut m, &now);
    assert_eq!(r.removed, vec!["arc/a".to_string()]);
    assert_eq!(r.removed_count, 1);
    assert_eq!((r.unchanged_count, r.updated_count, r.new_count), (1, 0, 0));
    assert!(m.get("arc/a").is_none());
    assert_eq!(m.to_lines(), vec![format!("{} arc/b", WORLD)]);
}

#[test]
fn update_adds_new_file() {
    let mut m = generated(tree());
    let mut now = tree();
    now.push(live("arc/c", b"new"));
    let r = update(&mut m, &now);
    assert_eq!(r.statuses, vec![UpdateStatus::Unchanged, UpdateStatus::Unchanged, UpdateStatus::New]);
    assert_eq!((r.unchanged_count, r.updated_count, r.new_count, r.removed_count), (2, 0, 1, 0));
    assert_eq!(m.len(), 3);
    assert_eq!(m.get("arc/c").unwrap(), &digest_chunked(b"new", 1));
}

#[test]
fn update_overwrites_changed_digest() {
    let mut m = generated(tree());
    let now = vec![live("arc/a", b"HELLO"), live("arc/b", b"world")];
    let r = update(&mut m, &now);
    assert_eq!(r.statuses, vec![UpdateStatus::Updated, UpdateStatus::Unchanged]);
    assert_eq!((r.unchanged_count, r.updated_count, r.new_count, r.removed_count), (1, 1, 0, 0));
    assert_eq!(m.get("arc/a").unwrap(), &digest_chunked(b"HELLO", 2));
    let again = validate(&m, &now);
    assert!(again.passed());
}

#[test]
fn generate_on_archive_with_two_files() {
    let root = "/srv/data/arc";
    let files: Vec<(&str, &[u8])> = vec![("/srv/data/arc/a", b"hello"), ("/srv/data/arc/b", b"world")];
    let results: Vec<Option<LiveFile>> = files
        .iter()
        .map(|(p, c)| {
            Some(LiveFile {
                key: archive_manifest::canonical::canonicalize(root, "arc", p),
                digest: digest_chunked(c, 1 << 20),
            })
        })
        .collect();
    let report = generate(&results);
    assert_eq!(report.lines.len(), 2);
    assert_eq!(report.lines[0], format!("{} arc/a", HELLO));
    assert_eq!(report.lines[1], format!("{} arc/b", WORLD));
}
