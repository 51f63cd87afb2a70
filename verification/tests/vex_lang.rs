use vex::vex_lang::{get_values, parse_vex};

fn strs(v: &[&str]) -> Vec<String> {
    v.iter().map(|s| s.to_string()).collect()
}

#[test]
fn parses_readme_build_example() {
    let text = "\nname {\n  \"sample\"\n}\n\nversion {\n  \"0.1.0\"\n}\n\ndependencies {\n  \"xenon\"\n  \"neovim\"\n}\n\ncommands {\n  \"echo installing\"\n  \"cargo build\"\n  \"./install.sh\"\n}\n// where do you install to? (for parellel builds)\ninstall-to {\n  \"/vex/bin\"\n  \"/vex/lib\"\n\n}\n";
    let m = parse_vex(text);
    assert_eq!(get_values(&m, "name"), strs(&["sample"]));
    assert_eq!(get_values(&m, "version"), strs(&["0.1.0"]));
    assert_eq!(get_values(&m, "dependencies"), strs(&["xenon", "neovim"]));
    assert_eq!(get_values(&m, "commands"), strs(&["echo installing", "cargo build", "./install.sh"]));
    assert_eq!(get_values(&m, "install-to"), strs(&["/vex/bin", "/vex/lib"]));
}

#[test]
fn missing_key_gives_nothing() {
    let m = parse_vex("packages {\n  \"a\"\n}\n");
    assert_eq!(get_values(&m, "repositories"), Vec::<String>::new());
}

#[test]
fn brace_alone_opens_an_empty_key() {
    let m = parse_vex("repos\n{\n\"http://localhost:45311\"\n}");
    assert_eq!(get_values(&m, "repos"), Vec::<String>::new());
    assert_eq!(get_values(&m, ""), strs(&["http://localhost:45311"]));
}

#[test]
fn comments_and_blank_lines_are_skipped() {
    let m = parse_vex("// header\n\nk {\n  // note\n  \"v\"\n\n}\n");
    assert_eq!(get_values(&m, "k"), strs(&["v"]));
}

#[test]
fn quotes_are_trimmed_repeatedly() {
    let m = parse_vex("k {\n  \"\"quoted\"\"\n}\n");
    assert_eq!(get_values(&m, "k"), strs(&["quoted"]));
}

#[test]
fn later_block_replaces_earlier() {
    let m = parse_vex("k {\n\"a\"\n}\nk {\n\"b\"\n}\n");
    assert_eq!(get_values(&m, "k"), strs(&["b"]));
}

#[test]
fn unclosed_block_is_dropped() {
    let m = parse_vex("k {\n\"a\"\n");
    assert_eq!(get_values(&m, "k"), Vec::<String>::new());
}

#[test]
fn entries_before_a_key_join_the_next_closed_key() {
    let m = parse_vex("\"x\"\nk {\n\"y\"\n}\n");
    assert_eq!(get_values(&m, "k"), strs(&["x", "y"]));
}

#[test]
fn crlf_lines_are_read() {
    let m = parse_vex("k {\r\n  \"a\"\r\n}\r\n");
    assert_eq!(get_values(&m, "k"), strs(&["a"]));
}

#[test]
fn key_surrounding_whitespace_removed() {
    let m = parse_vex("   refresh-time   {{  \n \"24\" \n}");
    assert_eq!(get_values(&m, "refresh-time"), strs(&["24"]));
}

#[test]
fn documented_form_with_final_newline() {
    let m = parse_vex("a {\n  \"x\"\n  \" y \"\n}\nb {\n}\n");
    assert_eq!(get_values(&m, "a"), strs(&["x", " y "]));
    assert!(get_values(&m, "b").is_empty());
}
