use minigrep::directory::{search_directory, search_entries, DirEntry, DirectoryResult};
use minigrep::error::IoError;
use minigrep::index::{index_lines, search_file, MatchIndex};

fn pairs(idx: &MatchIndex) -> Vec<(String, Vec<usize>)> {
    let mut v: Vec<(String, Vec<usize>)> = idx
        .entries
        .iter()
        .map(|e| (e.line.clone(), e.numbers.clone()))
        .collect();
    v.sort();
    v
}

fn expect(items: &[(&str, &[usize])]) -> Vec<(String, Vec<usize>)> {
    let mut v: Vec<(String, Vec<usize>)> =
        items.iter().map(|(l, n)| (l.to_string(), n.to_vec())).collect();
    v.sort();
    v
}

fn file(path: &str, text: &str) -> DirEntry {
    DirEntry::File { path: path.to_string(), contents: Ok(text.as_bytes().to_vec()) }
}

fn io_error(message: &str) -> IoError {
    IoError { message: message.to_string() }
}

fn paths(d: &DirectoryResult) -> Vec<String> {
    d.files.iter().map(|f| f.path.clone()).collect()
}

#[test]
fn test_search_file() {
    let bytes = b"safe, fast, productive.\nPick three.\n".to_vec();
    let result = search_file(Ok(bytes), "fast").ok().unwrap();
    assert_eq!(pairs(&result), expect(&[("safe, fast, productive.", &[1])]));
}

#[test]
fn test_search_directory() {
    let listing = vec![
        file("dir/testfile1.txt", "safe, fast, productive.\nPick three.\n"),
        file("dir/testfile2.txt", "Rust: safe, fast, productive.\nPick three.\n"),
    ];
    let result = search_directory(Ok(listing), "productive").ok().unwrap();
    assert_eq!(paths(&result), vec!["dir/testfile1.txt".to_string(), "dir/testfile2.txt".to_string()]);
    assert_eq!(pairs(&result.files[0].matches), expect(&[("safe, fast, productive.", &[1])]));
    assert_eq!(pairs(&result.files[1].matches), expect(&[("Rust: safe, fast, productive.", &[1])]));
}

#[test]
fn repeated_line_collects_every_number() {
    let result = search_file(Ok(b"x\nx\n".to_vec()), "x").ok().unwrap();
    assert_eq!(pairs(&result), expect(&[("x", &[1, 2])]));
}

#[test]
fn directory_drops_files_without_match() {
    let listing = vec![
        file("d/a.txt", "safe, fast, productive.\n"),
        file("d/b.txt", "Pick three.\n"),
    ];
    let result = search_directory(Ok(listing), "productive").ok().unwrap();
    assert_eq!(paths(&result), vec!["d/a.txt".to_string()]);
    assert_eq!(pairs(&result.files[0].matches), expect(&[("safe, fast, productive.", &[1])]));
}

#[test]
fn no_matching_line_gives_empty_index() {
    let result = search_file(Ok(b"alpha\nbeta\n".to_vec()), "gamma").ok().unwrap();
    assert!(result.is_empty());
    assert_eq!(result.len(), 0);
}

#[test]
fn unreadable_file_gives_io_error() {
    let result = search_file(Err(io_error("No such file or directory")), "x");
    match result {
        Err(e) => assert_eq!(e.message, "No such file or directory"),
        Ok(_) => panic!("expected an error"),
    }
}

#[test]
fn unlistable_directory_gives_io_error() {
    let result = search_directory(Err(io_error("not found")), "x");
    match result {
        Err(e) => assert_eq!(e.message, "not found"),
        Ok(_) => panic!("expected an error"),
    }
}

#[test]
fn subdirectory_is_not_searched() {
    let listing = vec![
        DirEntry::Other { path: "d/nested".to_string() },
        file("d/top.txt", "needle here\n"),
    ];
    let result = search_directory(Ok(listing), "needle").ok().unwrap();
    assert_eq!(paths(&result), vec!["d/top.txt".to_string()]);
}

#[test]
fn only_subdirectories_give_empty_result() {
    let listing = vec![DirEntry::Other { path: "d/nested".to_string() }];
    let result = search_directory(Ok(listing), "needle").ok().unwrap();
    assert!(result.files.is_empty());
}

#[test]
fn first_unreadable_file_aborts_directory() {
    let listing = vec![
        file("d/a.txt", "needle\n"),
        DirEntry::File { path: "d/b.txt".to_string(), contents: Err(io_error("denied")) },
        DirEntry::File { path: "d/c.txt".to_string(), contents: Err(io_error("later")) },
    ];
    match search_entries(&listing, "needle") {
        Err(e) => assert_eq!(e.message, "denied"),
        Ok(_) => panic!("expected an error"),
    }
}

#[test]
fn keys_hold_needle_and_numbers_increase() {
    let text = "one fish\ntwo fish\nred\none fish\nblue fish\none fish\n";
    let result = index_lines(&text.as_bytes().to_vec(), "fish");
    for e in &result.entries {
        assert!(e.line.contains("fish"));
        assert!(e.numbers.windows(2).all(|w| w[0] < w[1]));
        assert!(e.numbers.iter().all(|n| *n >= 1));
    }
    assert_eq!(
        pairs(&result),
        expect(&[("one fish", &[1, 4, 6]), ("two fish", &[2]), ("blue fish", &[5])])
    );
}

#[test]
fn match_is_case_sensitive() {
    let result = index_lines(&b"Fast\nfast\n".to_vec(), "fast");
    assert_eq!(pairs(&result), expect(&[("fast", &[2])]));
}

#[test]
fn carriage_return_is_stripped() {
    let result = index_lines(&b"a line\r\nanother\r\n".to_vec(), "line");
    assert_eq!(pairs(&result), expect(&[("a line", &[1])]));
}

#[test]
fn last_line_without_newline_counts() {
    let result = index_lines(&b"first\nlast needle".to_vec(), "needle");
    assert_eq!(pairs(&result), expect(&[("last needle", &[2])]));
}

#[test]
fn empty_lines_are_counted() {
    let result = index_lines(&b"\n\nneedle\n".to_vec(), "needle");
    assert_eq!(pairs(&result), expect(&[("needle", &[3])]));
}

#[test]
fn empty_contents_give_empty_index() {
    let result = index_lines(&Vec::new(), "x");
    assert!(result.is_empty());
}

#[test]
fn invalid_utf8_line_is_decoded_lossily() {
    let bytes = vec![b'f', 0xff, b'\n', b'f', b'\n'];
    let result = index_lines(&bytes, "f");
    assert_eq!(pairs(&result), expect(&[("f\u{FFFD}", &[1]), ("f", &[2])]));
}

#[test]
fn empty_needle_matches_every_line() {
    let result = index_lines(&b"a\n\nb\n".to_vec(), "");
    assert_eq!(pairs(&result), expect(&[("a", &[1]), ("", &[2]), ("b", &[3])]));
}

#[test]
fn index_texts_groups_equal_lines() {
    let lines = vec!["x".to_string(), "y".to_string(), "x".to_string()];
    let result = minigrep::index::index_texts(&lines, "x");
    assert_eq!(pairs(&result), expect(&[("x", &[1, 3])]));
}

#[test]
fn split_lines_strips_line_ends() {
    let lines = minigrep::index::split_lines(&b"a\r\nb\n\nc".to_vec());
    assert_eq!(lines, vec!["a".to_string(), "b".to_string(), String::new(), "c".to_string()]);
    let lossy = minigrep::index::split_lines(&vec![0xc3, 0x28]);
    assert_eq!(lossy, vec!["\u{FFFD}(".to_string()]);
}
