use docula::markdown::commands::{FmtCmd, LintArgs};
use docula::markdown::fmt::{find_closest_space, fix_line_length};
use docula::markdown::hlevels::{heading_count, HeadingLevels, Issue};

#[test]
fn fmt_test_find_closest_space() {
    let line = "foo bar boo baz who am i to blame for thislonglong sentence";

    let res = find_closest_space(line, 45);

    assert_eq!(res, Some(37));
}

#[test]
fn fmt_test_find_closest_space_longer_line() {
    let line = "supercalifragilisticexpialidocious is a real word";

    let res = find_closest_space(line, 20);

    assert_eq!(res, Some(34));
}

#[test]
fn find_closest_space_none() {
    assert_eq!(find_closest_space("nospaceshere", 4), None);
}

#[test]
fn short_lines_are_trimmed() {
    assert_eq!(fix_line_length("  hello  \nworld"), "hello\nworld\n");
}

#[test]
fn long_line_is_wrapped() {
    let long = "aaaa ".repeat(20);
    let out = fix_line_length(&long);
    let expected = format!("{}\n{}\n", "aaaa ".repeat(16).trim(), "aaaa ".repeat(4).trim());
    assert_eq!(out, expected);
}

#[test]
fn code_blocks_and_tables_are_kept() {
    let long = "b ".repeat(50);
    let input = format!("```\n{}\n```\n|{}", long, long);
    let out = fix_line_length(&input);
    assert_eq!(out, format!("```\n{}\n```\n|{}\n", long, long));
}

#[test]
fn heading_count_values() {
    assert_eq!(heading_count("## Foo"), Some(2));
    assert_eq!(heading_count("   ### Foo"), Some(3));
    assert_eq!(heading_count("Foo"), None);
    assert_eq!(heading_count("####### Foo"), None);
}

#[test]
fn happy_path() {
    let linter = HeadingLevels {};
    let input = "# Heading 1\n\nHello, world\n## Heading 2\n ### Heading 3";
    assert_eq!(Vec::<Issue>::new(), linter.lint(input));
}

#[test]
fn bad_second_heading() {
    let linter = HeadingLevels {};
    let expected = vec![Issue {
        line_start: 3,
        line_end: 3,
        col_start: 0,
        col_end: 13,
        content: "### Heading 2".to_owned(),
        msg: "Skipped 2nd level header".to_owned(),
    }];
    assert_eq!(expected, linter.lint("# Heading 1\n\nFoo bar\n### Heading 2"));
}

#[test]
fn bad_first_heading() {
    let linter = HeadingLevels {};
    let expected = vec![Issue {
        line_start: 0,
        line_end: 0,
        col_start: 0,
        col_end: 6,
        content: "## Foo".to_string(),
        msg: "Skipped 1st level header".to_owned(),
    }];
    assert_eq!(expected, linter.lint("## Foo"));
}

#[test]
fn space_before_happy() {
    let linter = HeadingLevels {};
    let input = " # Foo\n     ## Bar\n\nHello, world\n    ### Zoom";
    assert_eq!(Vec::<Issue>::new(), linter.lint(input));
}

#[test]
fn hashes_per_line() {
    let linter = HeadingLevels {};
    assert_eq!(Vec::<Issue>::new(), linter.lint("# Foo ##### Foo\n## Bar ######Bar"));
}

#[test]
fn non_normal_header() {
    let linter = HeadingLevels {};
    assert_eq!(Vec::<Issue>::new(), linter.lint("# Intro\n####### Not a header\n## Foo"));
}

#[test]
fn going_back_up_is_fine_and_third_is_reported() {
    let linter = HeadingLevels {};
    let issues = linter.lint("# A\n## B\n# C\n#### D");
    assert_eq!(issues.len(), 1);
    assert_eq!(issues[0].message(), "Skipped 2nd level header");
    let issues = linter.lint("# A\n## B\n#### D");
    assert_eq!(issues[0].msg, "Skipped 3rd level header");
    assert_eq!(issues[0].col_start, 0);
    assert_eq!(linter.name(), "Heading Levels");
}

#[test]
fn stub_commands_succeed() {
    let f = FmtCmd { path: "x".to_string(), recursive: false, dry_run: false };
    assert!(f.scan_dir().is_ok());
    let l = LintArgs { path: "x".to_string(), recursive: true };
    assert!(l.handle().is_ok());
}

#[test]
fn lint_columns_are_byte_offsets() {
    let linter = HeadingLevels {};
    let issues = linter.lint("# A\n### Über");
    assert_eq!(issues[0].col_start, 0);
    assert_eq!(issues[0].col_end, 9);
    let issues = linter.lint("# A\n\u{3000}### X");
    assert_eq!(issues[0].col_start, 3);
    assert_eq!(issues[0].col_end, 8);
}
