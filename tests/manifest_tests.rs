use archive_manifest::manifest::{parse_line, render_line, Manifest};

fn lines(v: &[&str]) -> Vec<String> {
    v.iter().map(|s| s.to_string()).collect()
}

#[test]
fn line_splits_at_first_space() {
    let e = parse_line("abc arc/a b").unwrap();
    assert_eq!(e.digest, "abc");
    assert_eq!(e.path, "arc/a b");
    let e = parse_line("  abc  x  \r").unwrap();
    assert_eq!(e.digest, "abc");
    assert_eq!(e.path, " x");
}

#[test]
fn malformed_and_blank_lines_are_rejected() {
    assert!(parse_line("nospace").is_none());
    assert!(parse_line("").is_none());
    assert!(parse_line("   \t ").is_none());
    assert!(parse_line("abc ").is_none());
}

#[test]
fn line_without_space_is_skipped_and_loading_goes_on() {
    let m = Manifest::from_lines(&lines(&["h1 arc/a", "garbage", "", "h2 arc/b"]));
    assert_eq!(m.len(), 2);
    assert_eq!(m.get("arc/a").unwrap(), "h1");
    assert_eq!(m.get("arc/b").unwrap(), "h2");
    assert!(m.get("garbage").is_none());
}

#[test]
fn last_line_for_a_path_wins() {
    let m = Manifest::from_lines(&lines(&["h1 arc/a", "h2 arc/b", "h3 arc/a"]));
    assert_eq!(m.len(), 2);
    assert_eq!(m.get("arc/a").unwrap(), "h3");
    assert_eq!(m.to_lines(), lines(&["h3 arc/a", "h2 arc/b"]));
}

#[test]
fn save_then_load_gives_the_same_manifest() {
    let d1 = "2cf24dba5fb0a30e26e83b2ac5b9e29e1b161e5c1fa7425e73043362938b9824";
    let d2 = "486ea46224d1bb4fb680f34f7c9ad96a8f24ec88be73ea8e5a6c65260e9cb8a7";
    let mut m = Manifest::new();
    m.insert("arc/a".to_string(), d1.to_string());
    m.insert("arc/sub dir/b".to_string(), d2.to_string());
    let saved = m.to_lines();
    assert_eq!(saved, lines(&[&format!("{} arc/a", d1), &format!("{} arc/sub dir/b", d2)]));
    let back = Manifest::from_lines(&saved);
    assert_eq!(back.len(), 2);
    assert_eq!(back.get("arc/a").unwrap(), d1);
    assert_eq!(back.get("arc/sub dir/b").unwrap(), d2);
}

#[test]
fn insert_overwrites_in_place() {
    let mut m = Manifest::new();
    m.insert("k1".to_string(), "a".to_string());
    m.insert("k2".to_string(), "b".to_string());
    m.insert("k1".to_string(), "c".to_string());
    assert_eq!(m.len(), 2);
    assert_eq!(m.entry(0), (&"k1".to_string(), &"c".to_string()));
    assert_eq!(m.find("k2"), Some(1));
    assert_eq!(m.find("k3"), None);
}

#[test]
fn render_line_format() {
    assert_eq!(render_line("arc/a", "ff00"), "ff00 arc/a");
}
