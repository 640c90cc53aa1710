use minigrep::directory::{search_directory, DirEntry, DirectoryResult, FileMatches};
use minigrep::index::{index_lines, LineMatches, MatchIndex};
use minigrep::render::{render_directory, render_entry, render_file, render_numbers};

#[test]
fn numbers_render_as_list() {
    assert_eq!(render_numbers(&vec![1, 2]), "[1, 2]");
    assert_eq!(render_numbers(&vec![]), "[]");
    assert_eq!(render_numbers(&vec![7]), "[7]");
    assert_eq!(render_numbers(&vec![10, 205, 18446744073709551615]), "[10, 205, 18446744073709551615]");
    assert_eq!(render_numbers(&vec![0]), "[0]");
}

#[test]
fn entry_renders_line_and_numbers() {
    let e = LineMatches { line: "x".to_string(), numbers: vec![1, 2] };
    assert_eq!(render_entry(&e), "x: [1, 2]");
}

#[test]
fn file_renders_one_line_per_entry() {
    let idx = index_lines(&b"safe, fast, productive.\nPick three.\n".to_vec(), "fast");
    assert_eq!(render_file(&idx), vec!["safe, fast, productive.: [1]".to_string()]);
    let empty = MatchIndex { entries: vec![] };
    assert!(render_file(&empty).is_empty());
}

#[test]
fn directory_renders_header_then_entries() {
    let d = DirectoryResult {
        files: vec![
            FileMatches {
                path: "d/a.txt".to_string(),
                matches: MatchIndex {
                    entries: vec![LineMatches { line: "needle one".to_string(), numbers: vec![3] }],
                },
            },
            FileMatches {
                path: "d/b.txt".to_string(),
                matches: MatchIndex {
                    entries: vec![LineMatches { line: "a needle".to_string(), numbers: vec![1, 4] }],
                },
            },
        ],
    };
    assert_eq!(
        render_directory(&d),
        vec![
            "d/a.txt:".to_string(),
            "needle one: [3]".to_string(),
            "d/b.txt:".to_string(),
            "a needle: [1, 4]".to_string(),
        ]
    );
}

#[test]
fn directory_search_renders_end_to_end() {
    let listing = vec![
        DirEntry::File { path: "d/a.txt".to_string(), contents: Ok(b"x\nx\n".to_vec()) },
        DirEntry::Other { path: "d/sub".to_string() },
    ];
    let result = search_directory(Ok(listing), "x").ok().unwrap();
    assert_eq!(render_directory(&result), vec!["d/a.txt:".to_string(), "x: [1, 2]".to_string()]);
}
