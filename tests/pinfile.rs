use rtx::pinfile::{parse_pin_file, serialize_pin_file, PinEntry};

fn entry(tool: &str, versions: &[&str]) -> PinEntry {
    PinEntry {
        tool: tool.as_bytes().to_vec(),
        versions: versions.iter().map(|v| v.as_bytes().to_vec()).collect(),
    }
}

fn show(entries: &[PinEntry]) -> Vec<(String, Vec<String>)> {
    entries
        .iter()
        .map(|e| {
            (
                String::from_utf8(e.tool.clone()).unwrap(),
                e.versions.iter().map(|v| String::from_utf8(v.clone()).unwrap()).collect(),
            )
        })
        .collect()
}

#[test]
fn parse_reads_each_line() {
    let parsed = parse_pin_file(b"nodejs 18.0.0 20.1.0\npython 3.11.2\n");
    assert_eq!(parsed.malformed, 0);
    assert_eq!(
        show(&parsed.entries),
        vec![
            ("nodejs".to_string(), vec!["18.0.0".to_string(), "20.1.0".to_string()]),
            ("python".to_string(), vec!["3.11.2".to_string()]),
        ]
    );
}

#[test]
fn parse_skips_blank_comment_and_malformed_lines() {
    let text = b"# tools\n\n  ruby   3.2.0\t system \r\nlonely\nnodejs 20\n#go 1.21";
    let parsed = parse_pin_file(text);
    assert_eq!(parsed.malformed, 1);
    assert_eq!(
        show(&parsed.entries),
        vec![
            ("ruby".to_string(), vec!["3.2.0".to_string(), "system".to_string()]),
            ("nodejs".to_string(), vec!["20".to_string()]),
        ]
    );
}

#[test]
fn parse_empty_file() {
    let parsed = parse_pin_file(b"");
    assert!(parsed.entries.is_empty());
    assert_eq!(parsed.malformed, 0);
}

#[test]
fn parse_last_line_without_newline() {
    let parsed = parse_pin_file(b"go 1.21.0");
    assert_eq!(show(&parsed.entries), vec![("go".to_string(), vec!["1.21.0".to_string()])]);
}

#[test]
fn serialize_writes_one_line_per_entry() {
    let text = serialize_pin_file(&vec![entry("nodejs", &["18", "20"]), entry("python", &["system"])]);
    assert_eq!(text, b"nodejs 18 20\npython system\n".to_vec());
    assert_eq!(serialize_pin_file(&vec![]), Vec::<u8>::new());
}

#[test]
fn pin_file_round_trip() {
    let entries = vec![
        entry("nodejs", &["18.0.0", "latest"]),
        entry("python", &["3.11.2"]),
        entry("nodejs", &["16"]),
    ];
    let parsed = parse_pin_file(&serialize_pin_file(&entries));
    assert_eq!(parsed.malformed, 0);
    assert_eq!(show(&parsed.entries), show(&entries));
}
