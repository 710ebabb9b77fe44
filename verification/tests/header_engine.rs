use licensesnip::config::FileTypeConfig;
use licensesnip::license::{
    AddToFileResult, License, MatchingHeaderResult, RemoveFromFileResult, file_has_matching_header,
    plan_file,
};

fn b(s: &str) -> Vec<u8> {
    s.as_bytes().to_vec()
}

fn rule(before_block: &str, after_block: &str, before_line: &str, after_line: &str) -> FileTypeConfig {
    FileTypeConfig {
        before_block: b(before_block),
        after_block: b(after_block),
        before_line: b(before_line),
        after_line: b(after_line),
        enable: true,
        skip_shebang_line: true,
    }
}

#[test]
fn formats_year_and_filename() {
    let out = License::get_formatted(&b("Copyright %YEAR% — %FILENAME%"), &b("foo.ts"), 2024);
    assert_eq!(out, b("Copyright 2024 — foo.ts"));
}

#[test]
fn formats_every_occurrence() {
    let out = License::get_formatted(&b("%YEAR%/%YEAR% %FILENAME% %FILENAME%"), &b("a.c"), 7);
    assert_eq!(out, b("7/7 a.c a.c"));
}

#[test]
fn formats_each_line_independently() {
    let lines = vec![b("a %YEAR%"), b("b %FILENAME%")];
    let out = License::get_formatted_lines(&lines, &b("f.rs"), 1999);
    assert_eq!(out, vec![b("a 1999"), b("b f.rs")]);
}

#[test]
fn example_scenario_renders_line_and_adds_separator() {
    let cfg = rule("", "", "// ", "");
    let lines = License::get_formatted_lines(
        &vec![b("Copyright %YEAR% — %FILENAME%")],
        &b("foo.ts"),
        2024,
    );
    let header = License::get_header_text(&lines, &cfg);
    assert_eq!(header, b("// Copyright 2024 — foo.ts"));

    let (res, content) = License::add_to_file(&b(""), &cfg, &header);
    assert_eq!(res, AddToFileResult::Added);
    assert_eq!(content, b("// Copyright 2024 — foo.ts\n\n"));
}

#[test]
fn header_wraps_block_markers_and_collapses_blank_lines() {
    let cfg = rule("/*", "*/", " * ", "");
    let lines = vec![b("Alpha"), b("   "), b("Beta")];
    let header = License::get_header_text(&lines, &cfg);
    assert_eq!(header, b("/*\n * Alpha\n *\n * Beta\n*/"));
}

#[test]
fn header_trims_trailing_whitespace_per_line() {
    let cfg = rule("", "", "# ", "");
    let header = License::get_header_text(&vec![b("x  "), b("")], &cfg);
    assert_eq!(header, b("# x\n#"));
}

#[test]
fn license_lines_split_on_line_feed() {
    let lic = License { raw_text: b("a\nb\n\nc") };
    let lines = lic.get_lines();
    assert_eq!(lines, vec![b("a"), b("b"), b(""), b("c")]);
}

#[test]
fn license_new_trims_surrounding_whitespace() {
    let lic = License::new(&b("\n  body text \n\n"));
    assert_eq!(lic.raw_text, b("body text"));
}

#[test]
fn add_is_idempotent() {
    let cfg = rule("", "", "// ", "");
    let header = b("// hi");
    let original = b("fn main() {}\n");
    let (r1, c1) = License::add_to_file(&original, &cfg, &header);
    assert_eq!(r1, AddToFileResult::Added);
    let (r2, c2) = License::add_to_file(&c1, &cfg, &header);
    assert_eq!(r2, AddToFileResult::NoChange);
    assert_eq!(c2, c1);
}

#[test]
fn add_then_remove_round_trips() {
    let cfg = rule("", "", "// ", "");
    let header = b("// hi");
    let original = b("fn main() {}\r\nmore\r\n");
    let (_, with_header) = License::add_to_file(&original, &cfg, &header);
    assert_eq!(with_header, b("// hi\n\nfn main() {}\r\nmore\r\n"));
    let (r, restored) = License::remove_from_file(&with_header, &cfg, &header);
    assert_eq!(r, RemoveFromFileResult::Removed);
    assert_eq!(restored, original);
}

#[test]
fn shebang_line_stays_first() {
    let cfg = rule("", "", "# ", "");
    let header = b("# hi");
    let original = b("#!/usr/bin/env sh\necho ok\n");
    let (r, added) = License::add_to_file(&original, &cfg, &header);
    assert_eq!(r, AddToFileResult::Added);
    assert_eq!(added, b("#!/usr/bin/env sh\n# hi\n\necho ok\n"));
    let (r2, restored) = License::remove_from_file(&added, &cfg, &header);
    assert_eq!(r2, RemoveFromFileResult::Removed);
    assert_eq!(restored, original);
}

#[test]
fn shebang_without_rule_skip_gets_header_on_top() {
    let mut cfg = rule("", "", "# ", "");
    cfg.skip_shebang_line = false;
    let header = b("# hi");
    let original = b("#!/usr/bin/env sh\necho ok\n");
    let (_, added) = License::add_to_file(&original, &cfg, &header);
    assert_eq!(added, b("# hi\n\n#!/usr/bin/env sh\necho ok\n"));
}

#[test]
fn matcher_tolerates_crlf_for_lf() {
    let header = b("// a\n// b");
    let file = b("// a\r\n// b\r\nrest");
    let m = file_has_matching_header(&header, &file, false);
    // The matched range runs through the CRLF pair that follows the header.
    assert_eq!(m, MatchingHeaderResult::MatchingHeaderAt(0, 12));
}

#[test]
fn matcher_tolerates_lf_for_crlf() {
    let header = b("// a\r\n// b");
    let file = b("// a\n// b\nrest");
    let m = file_has_matching_header(&header, &file, false);
    assert_eq!(m, MatchingHeaderResult::MatchingHeaderAt(0, 10));
}

#[test]
fn matcher_rejects_different_text() {
    let m = file_has_matching_header(&b("// a"), &b("// b"), false);
    assert_eq!(m, MatchingHeaderResult::NotMatching);
}

#[test]
fn matcher_rejects_short_file() {
    let m = file_has_matching_header(&b("// header"), &b("// h"), false);
    assert_eq!(m, MatchingHeaderResult::NotMatching);
}

#[test]
fn matcher_skips_shebang_and_consumes_trailing_newlines() {
    let header = b("# h");
    let file = b("#!/bin/sh\n# h\n\n\nbody");
    let m = file_has_matching_header(&header, &file, true);
    assert_eq!(m, MatchingHeaderResult::MatchingHeaderAt(10, 16));
}

#[test]
fn matcher_without_skip_sees_shebang_as_content() {
    let header = b("# h");
    let file = b("#!/bin/sh\n# h\n");
    let m = file_has_matching_header(&header, &file, false);
    assert_eq!(m, MatchingHeaderResult::NotMatching);
}

#[test]
fn check_file_reports_presence() {
    let cfg = rule("", "", "// ", "");
    let header = b("// hi");
    assert!(License::check_file(&b("// hi\n\nbody"), &cfg, &header));
    assert!(!License::check_file(&b("body"), &cfg, &header));
}

#[test]
fn remove_without_header_is_no_change() {
    let cfg = rule("", "", "// ", "");
    let original = b("plain content\n");
    let (r, content) = License::remove_from_file(&original, &cfg, &b("// hi"));
    assert_eq!(r, RemoveFromFileResult::NoChange);
    assert_eq!(content, original);
}

#[test]
fn plan_file_skips_disabled_rule() {
    let mut cfg = rule("", "", "# ", "");
    cfg.enable = false;
    let map = vec![(b("py"), cfg)];
    let lic = License { raw_text: b("hi") };
    assert!(plan_file(&b("tool.py"), &lic, 2024, &map).is_none());
}

#[test]
fn plan_file_skips_unknown_extension() {
    let map = vec![(b("py"), rule("", "", "# ", ""))];
    let lic = License { raw_text: b("hi") };
    assert!(plan_file(&b("tool.rs"), &lic, 2024, &map).is_none());
}

#[test]
fn plan_file_renders_header_for_known_extension() {
    let map = vec![(b("py"), rule("", "", "# ", ""))];
    let lic = License { raw_text: b("hey %FILENAME%") };
    let data = plan_file(&b("tool.py"), &lic, 2024, &map).expect("rule applies");
    assert_eq!(data.header_text, b("# hey tool.py"));
    assert_eq!(data.formatted_license_lines, vec![b("hey tool.py")]);
    assert!(data.file_type_config.enable);
}

#[test]
fn formats_round_years_without_truncation() {
    assert_eq!(License::get_formatted(&b("%YEAR%"), &b("x"), 2000), b("2000"));
    assert_eq!(License::get_formatted(&b("%YEAR%"), &b("x"), 0), b("0"));
}

#[test]
fn shebang_line_without_terminator_gains_one() {
    let cfg = rule("", "", "# ", "");
    let header = b("# hi");
    let (_, added) = License::add_to_file(&b("#!/bin/sh"), &cfg, &header);
    assert_eq!(added, b("#!/bin/sh\n# hi\n\n"));
}

#[test]
fn remove_consumes_blank_lines_after_header() {
    // The matched range includes the run of blank-line bytes after the
    // header, so content that began with its own blank line loses it.
    let cfg = rule("", "", "// ", "");
    let header = b("// hi");
    let original = b("\nbody");
    let (_, added) = License::add_to_file(&original, &cfg, &header);
    assert_eq!(added, b("// hi\n\n\nbody"));
    let (r, removed) = License::remove_from_file(&added, &cfg, &header);
    assert_eq!(r, RemoveFromFileResult::Removed);
    assert_eq!(removed, b("body"));
}

#[test]
fn matcher_tolerates_bare_carriage_return() {
    let m = file_has_matching_header(&b("a\nb"), &b("a\rb"), false);
    assert_eq!(m, MatchingHeaderResult::MatchingHeaderAt(0, 3));
}

#[test]
fn empty_header_matches_leading_newline_run() {
    let m = file_has_matching_header(&b(""), &b("\n\nx"), false);
    assert_eq!(m, MatchingHeaderResult::MatchingHeaderAt(0, 2));
}

#[test]
fn plan_file_uses_whole_name_when_no_dot() {
    let map = vec![(b("Makefile"), rule("", "", "# ", ""))];
    let lic = License { raw_text: b("hi") };
    assert!(plan_file(&b("Makefile"), &lic, 2024, &map).is_some());
}
