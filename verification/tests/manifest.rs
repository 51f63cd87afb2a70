use vex::manifest::{Manifest, ManifestEntry};

fn entries(m: &Manifest) -> Vec<(bool, String)> {
    m.entries
        .iter()
        .map(|e| match e {
            ManifestEntry::File(p) => (false, p.clone()),
            ManifestEntry::Dir(p) => (true, p.clone()),
        })
        .collect()
}

#[test]
fn save_format() {
    let mut m = Manifest::new("0.1.0".to_string());
    m.record_dir("/h/.vex/lib/x".to_string());
    m.record_file("/h/.vex/bin/x".to_string());
    assert_eq!(m.save(), "V 0.1.0\nD /h/.vex/lib/x\nF /h/.vex/bin/x");
}

#[test]
fn load_after_save_round_trips() {
    let mut m = Manifest::new("1.2".to_string());
    m.record_file("/a/b".to_string());
    m.record_dir("/a".to_string());
    let back = Manifest::load(&m.save());
    assert_eq!(back.version, "1.2");
    assert_eq!(entries(&back), vec![(false, "/a/b".to_string()), (true, "/a".to_string())]);
}

#[test]
fn empty_version_loses_first_entry() {
    let mut m = Manifest::new(String::new());
    m.record_file("/a".to_string());
    m.record_file("/b".to_string());
    let back = Manifest::load(&m.save());
    assert_eq!(back.version, "");
    assert_eq!(entries(&back), vec![(false, "/b".to_string())]);
}

#[test]
fn load_skips_short_lines_and_reads_other_tags_as_files() {
    let back = Manifest::load("V 3\nF\n\nX /x\nD /d");
    assert_eq!(back.version, "3");
    assert_eq!(entries(&back), vec![(false, "/x".to_string()), (true, "/d".to_string())]);
}

#[test]
fn load_without_version_line() {
    let back = Manifest::load("F /first\nF /second");
    assert_eq!(back.version, "");
    assert_eq!(entries(&back), vec![(false, "/second".to_string())]);
}

#[test]
fn load_two_byte_first_character() {
    let back = Manifest::load("V 1\n\u{e9}abc");
    assert_eq!(entries(&back), vec![(false, "abc".to_string())]);
}

#[test]
fn load_empty_text() {
    let back = Manifest::load("");
    assert_eq!(back.version, "");
    assert!(back.entries.is_empty());
}
