use rtx::pinfile::{parse_pin_file, serialize_pin_file, PinEntry};
use rtx::resolve::{resolve, resolve_tool, PinSource, ResolvedPin};

fn entry(tool: &str, versions: &[&str]) -> PinEntry {
    PinEntry {
        tool: tool.as_bytes().to_vec(),
        versions: versions.iter().map(|v| v.as_bytes().to_vec()).collect(),
    }
}

fn versions(p: &ResolvedPin) -> Vec<String> {
    p.versions.iter().map(|v| String::from_utf8(v.clone()).unwrap()).collect()
}

#[test]
fn descendant_pin_overrides_ancestor() {
    // working directory (distance 0) pins lang@2, the root (distance 2) lang@1
    let dirs = vec![vec![entry("lang", &["2"])], vec![], vec![entry("lang", &["1"])]];
    let p = resolve_tool(&dirs, &vec![], &b"lang".to_vec()).unwrap();
    assert_eq!(versions(&p), vec!["2"]);
    assert_eq!(p.source, PinSource::Directory(0));
}

#[test]
fn ancestor_pin_applies_below() {
    let dirs = vec![vec![], vec![entry("other", &["9"])], vec![entry("lang", &["1"])]];
    let p = resolve_tool(&dirs, &vec![entry("lang", &["0"])], &b"lang".to_vec()).unwrap();
    assert_eq!(versions(&p), vec!["1"]);
    assert_eq!(p.source, PinSource::Directory(2));
}

#[test]
fn global_pin_is_the_fallback() {
    let dirs = vec![vec![entry("python", &["3.11"])]];
    let global = vec![entry("nodejs", &["20"]), entry("python", &["3.9"])];
    let p = resolve_tool(&dirs, &global, &b"nodejs".to_vec()).unwrap();
    assert_eq!(versions(&p), vec!["20"]);
    assert_eq!(p.source, PinSource::Global);
    let q = resolve_tool(&dirs, &global, &b"python".to_vec()).unwrap();
    assert_eq!(versions(&q), vec!["3.11"]);
}

#[test]
fn unpinned_tool_is_unresolved() {
    let dirs = vec![vec![entry("python", &["3.11"])], vec![]];
    assert!(resolve_tool(&dirs, &vec![], &b"ruby".to_vec()).is_none());
    assert!(resolve_tool(&vec![], &vec![], &b"ruby".to_vec()).is_none());
}

#[test]
fn first_line_of_a_file_wins() {
    let dirs = vec![vec![entry("lang", &["2"]), entry("lang", &["3"])]];
    let p = resolve_tool(&dirs, &vec![], &b"lang".to_vec()).unwrap();
    assert_eq!(versions(&p), vec!["2"]);
}

#[test]
fn effective_map_has_one_pin_per_tool() {
    let dirs = vec![
        vec![entry("nodejs", &["20", "18"])],
        vec![entry("python", &["3.11"]), entry("nodejs", &["16"])],
    ];
    let global = vec![entry("ruby", &["3.2"]), entry("python", &["3.9"])];
    let map = resolve(&dirs, &global);
    let shown: Vec<(String, Vec<String>, PinSource)> = map
        .iter()
        .map(|p| (String::from_utf8(p.tool.clone()).unwrap(), versions(p), p.source))
        .collect();
    assert_eq!(
        shown,
        vec![
            ("nodejs".to_string(), vec!["20".to_string(), "18".to_string()], PinSource::Directory(0)),
            ("python".to_string(), vec!["3.11".to_string()], PinSource::Directory(1)),
            ("ruby".to_string(), vec!["3.2".to_string()], PinSource::Global),
        ]
    );
}

#[test]
fn reread_pin_files_resolve_alike() {
    let dirs = vec![vec![entry("nodejs", &["20"])], vec![entry("python", &["3.11", "system"])]];
    let global = vec![entry("ruby", &["3.2"])];
    let reread: Vec<Vec<PinEntry>> =
        dirs.iter().map(|f| parse_pin_file(&serialize_pin_file(f)).entries).collect();
    let reread_global = parse_pin_file(&serialize_pin_file(&global)).entries;
    let a = resolve(&dirs, &global);
    let b = resolve(&reread, &reread_global);
    assert_eq!(a.len(), b.len());
    for (x, y) in a.iter().zip(b.iter()) {
        assert_eq!(x.tool, y.tool);
        assert_eq!(x.versions, y.versions);
        assert_eq!(x.source, y.source);
    }
}
