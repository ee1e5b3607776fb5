use tagd::taggers::text::{analyze, encoding, oversize_tags, shebang, LineStats};

fn get<'a>(tags: &'a [(String, String)], key: &str) -> &'a str {
    tags.iter().find(|(k, _)| k == key).map(|(_, v)| v.as_str()).expect("tag present")
}

#[test]
fn text_empty_file_has_final_newline() {
    let s = LineStats::of(b"");
    assert_eq!(s.lines, 0);
    assert!(s.final_newline);
    assert_eq!(s.line_ending(), "none");
    assert_eq!(s.indent(), "none");
}

#[test]
fn text_mixed_endings_are_split_line_by_line() {
    let s = LineStats::of(b"a\nbb\r\nccc\rdddd");
    assert_eq!(s.lines, 4);
    assert_eq!((s.lf, s.crlf, s.cr), (1, 1, 1));
    assert_eq!(s.longest_line, 4);
    assert!(!s.final_newline);
    assert_eq!(s.line_ending(), "mixed");
}

#[test]
fn text_crlf_only_and_final_newline() {
    let s = LineStats::of(b"one\r\ntwo\r\n");
    assert_eq!(s.lines, 2);
    assert_eq!(s.line_ending(), "crlf");
    assert!(s.final_newline);
    let cr = LineStats::of(b"x\ry\r");
    assert_eq!(cr.line_ending(), "cr");
    assert!(cr.final_newline);
}

#[test]
fn text_indentation_ignores_blank_lines() {
    let s = LineStats::of(b"\tfn main() {}\n    \n  x\n\t\n");
    assert_eq!(s.tab_indented, 1);
    assert_eq!(s.space_indented, 1);
    assert_eq!(s.indent(), "mixed");
    assert!(s.trailing_whitespace);
    let tabs = LineStats::of(b"\ta\n\tb\n");
    assert_eq!(tabs.indent(), "tabs");
    assert!(!tabs.trailing_whitespace);
}

#[test]
fn text_record_line_counts_one_line() {
    let mut s = LineStats::of(b"");
    s.final_newline = false;
    s.record_line(b"  hello ");
    assert_eq!(s.lines, 1);
    assert_eq!(s.space_indented, 1);
    assert_eq!(s.longest_line, 8);
    assert!(s.trailing_whitespace);
}

#[test]
fn text_encoding_names() {
    assert_eq!(encoding(b"plain"), "ascii");
    assert_eq!(encoding("héllo".as_bytes()), "utf-8");
    assert_eq!(encoding(&[0x66, 0xff, 0x66]), "non-utf8");
    assert_eq!(encoding(b""), "ascii");
}

#[test]
fn text_shebang_interpreters() {
    assert_eq!(shebang(b"#!/bin/sh\necho"), "sh");
    assert_eq!(shebang(b"#!/usr/bin/env python3\n"), "python3");
    assert_eq!(shebang(b"#!/usr/bin/env -S deno run\n"), "deno");
    assert_eq!(shebang(b"#!/usr/bin/env\n"), "env");
    assert_eq!(shebang(b"#!/usr/bin/env -i\n"), "env");
    assert_eq!(shebang(b"#!  \n"), "none");
    assert_eq!(shebang(b"no shebang"), "none");
    assert_eq!(shebang(b"#!"), "none");
    assert_eq!(shebang(&[b'#', b'!', 0xff, b'\n']), "none");
    assert_eq!(shebang(b"#!/opt/tools/\r\n"), "tools");
}

#[test]
fn text_analyze_reports_sorted_tags() {
    let tags = analyze(b"\xEF\xBB\xBF#!/bin/bash\r\n\techo hi \r\n");
    let keys: Vec<&str> = tags.iter().map(|(k, _)| k.as_str()).collect();
    let mut sorted = keys.clone();
    sorted.sort();
    assert_eq!(keys, sorted);
    assert_eq!(keys.len(), 10);
    assert_eq!(get(&tags, "text-bom"), "true");
    assert_eq!(get(&tags, "text-encoding"), "ascii");
    assert_eq!(get(&tags, "text-final-newline"), "true");
    assert_eq!(get(&tags, "text-indent"), "tabs");
    assert_eq!(get(&tags, "text-line-ending"), "crlf");
    assert_eq!(get(&tags, "text-lines"), "2");
    assert_eq!(get(&tags, "text-longest-line"), "11");
    assert_eq!(get(&tags, "text-shebang"), "bash");
    assert_eq!(get(&tags, "text-trailing-whitespace"), "true");
    assert_eq!(get(&tags, "text-truncated"), "false");
}

#[test]
fn text_analyze_without_bom_or_newline() {
    let tags = analyze("naïve".as_bytes());
    assert_eq!(get(&tags, "text-bom"), "false");
    assert_eq!(get(&tags, "text-encoding"), "utf-8");
    assert_eq!(get(&tags, "text-final-newline"), "false");
    assert_eq!(get(&tags, "text-lines"), "1");
    assert_eq!(get(&tags, "text-longest-line"), "6");
    assert_eq!(get(&tags, "text-line-ending"), "none");
    assert_eq!(get(&tags, "text-shebang"), "none");
}

#[test]
fn text_oversize_files_are_truncated() {
    assert_eq!(
        oversize_tags(16 * 1024 * 1024 + 1),
        Some(vec![("text-truncated".to_string(), "yes".to_string())])
    );
    assert_eq!(oversize_tags(16 * 1024 * 1024), None);
}
