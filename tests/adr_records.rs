use docula::adr::commands::{register_dir, ListArgs, NewCmd};
use docula::adr::directory::{
    adr_file_name, adr_template, format_date, index_text, next_seq_index, padded_decimal, Directory,
    IndexType,
};
use docula::adr::model::{digits_to_u32, Adr, AdrDate, Status};
use docula::adr::paths::path_is_parent;
use docula::adr::state::{AdrError, State};

fn dir(path: &str, name: &str) -> Directory {
    Directory {
        path: path.to_string(),
        name: name.to_string(),
        index: IndexType::Sequential,
        full_path: format!("/root/{}", path),
    }
}

#[test]
fn init_test_parent_path() {
    assert!(path_is_parent("/tmp", "/tmp/foo/bar"));
    assert!(!path_is_parent("/tmp", "/foo"));
}

#[test]
fn parent_path_is_itself_and_ignores_trailing_slash() {
    assert!(path_is_parent("/tmp", "/tmp"));
    assert!(path_is_parent("/tmp/", "/tmp/a"));
    assert!(!path_is_parent("/tmp/a", "/tmp"));
}

#[test]
fn sequential_index() {
    assert_eq!(index_text(IndexType::Sequential, &vec![], "x"), "00001");
    assert_eq!(index_text(IndexType::Sequential, &vec![1], "x"), "00002");
    assert_eq!(index_text(IndexType::Sequential, &vec![1, 3], "x"), "00004");
    assert_eq!(index_text(IndexType::Timestamp, &vec![1, 3], "20240101120000"), "20240101120000");
    assert_eq!(next_seq_index(&vec![7, 2, 5]), 8);
    assert_eq!(padded_decimal(123456, 5), "123456");
    let d = dir("docs/adr", "main");
    assert_eq!(d.next_index(&vec![41]).unwrap(), "00042");
}

#[test]
fn timestamp_index_has_fourteen_digits() {
    let d = Directory { index: IndexType::Timestamp, ..dir("a", "b") };
    let idx = d.next_index(&vec![]).unwrap();
    assert_eq!(idx.len(), 14);
    assert!(idx.chars().all(|c| c.is_ascii_digit()));
}

#[test]
fn file_name_and_template() {
    assert_eq!(adr_file_name("00001", "  Use Rust Now "), "00001-use-rust-now.md");
    let date = AdrDate { year: 2022, month: 3, day: 7 };
    assert_eq!(format_date(&date), "2022-03-07");
    let t = adr_template("record decisions", &date, Status::Accepted, "ctx", "dec", "cons");
    assert_eq!(
        t,
        "# Record Decisions\n\nDate: 2022-03-07\n\n## Status\n\nAccepted \n\n## Context\n\nctx\n\n## Decision\n\ndec\n\n## Consequences\n\ncons\n"
    );
}

#[test]
fn parse_record() {
    let content = "# Use Rust\n\nDate: 2022-02-29\n\n## Status\n\nProposed \n";
    let adr = Adr::parse("00012-use-rust.md", content).unwrap();
    assert_eq!(adr.index, "00012");
    assert_eq!(adr.title, "Use Rust");
    assert_eq!(adr.date, None);
    assert_eq!(adr.status, Some(Status::Proposed));
    assert_eq!(adr.index_number(), Some(12));

    let content = "no heading\nDate: 2024-02-29\n## Status Accepted";
    let adr = Adr::parse("00003-skipped-index.md", content).unwrap();
    assert_eq!(adr.title, "Skipped Index");
    assert_eq!(adr.date, Some(AdrDate { year: 2024, month: 2, day: 29 }));
    assert_eq!(adr.status, Some(Status::Accepted));
}

#[test]
fn non_record_files() {
    assert!(Adr::parse("README.md", "# ADR Directory").is_none());
    assert!(Adr::parse("0001-short.md", "# T").is_none());
    assert!(Adr::parse("123456789012345-long.md", "# T").is_none());
    assert!(Adr::parse("00001-.md", "no title").is_none());
    assert!(Adr::parse("00001-x.txt", "# T").is_none());
    let big = Adr::parse("99999999999999-big.md", "# T").unwrap();
    assert_eq!(big.index_number(), None);
}

#[test]
fn digits_value() {
    assert_eq!(digits_to_u32(&"4294967295".chars().collect()), Some(4294967295));
    assert_eq!(digits_to_u32(&"4294967296".chars().collect()), None);
}

#[test]
fn status_text() {
    assert_eq!(Status::Accepted.to_text(), "Accepted");
    assert_eq!(Status::Proposed.to_text(), "Proposed");
}

#[test]
fn state_directories() {
    let mut s = State::new("/root".to_string());
    assert_eq!(ListArgs { name: None }.handle(&s, "/root").unwrap_err(), AdrError::NotInitialized);
    assert_eq!(s.add_dir(dir("docs/adr", "main")), Ok(()));
    assert_eq!(s.add_dir(dir("docs/adr", "other")), Err(AdrError::PathExists));
    assert_eq!(s.add_dir(dir("docs/other", "main")), Err(AdrError::NameExists));
    assert_eq!(s.validate_dir(&dir("docs/second", "second")), Ok(()));
    assert_eq!(s.add_dir(dir("docs/second", "second")), Ok(()));
    s.set_path("/home".to_string());
    assert_eq!(s.dirs[1].full_path, "/home/docs/second");

    let named = s.get_dir(&Some("second".to_string()), "/").unwrap();
    assert_eq!(named.path, "docs/second");
    assert!(s.get_dir(&Some("missing".to_string()), "/").is_none());
    let current = s.get_dir(&None, "/home/docs/adr").unwrap();
    assert_eq!(current.name, "main");
    assert!(s.get_dir(&None, "/elsewhere").is_none());

    let cmd = NewCmd::new("title", "second");
    assert_eq!(cmd.handle(&s, "/").unwrap().name, "second");
    let cmd = NewCmd { name: "t".to_string(), dir_name: None };
    assert_eq!(cmd.handle(&s, "/nowhere").unwrap_err(), AdrError::NoDirectory);
    assert_eq!(AdrError::NoDirectory.message(), "no adr directory could be determined");
}

#[test]
fn only_directory_is_current() {
    let mut s = State::new("/root".to_string());
    s.add_dir(dir("a", "only")).unwrap();
    assert_eq!(s.get_current_dir("/x").unwrap().name, "only");
}

#[test]
fn register_checks_root() {
    let mut s = docula::state::State::new("/proj".to_string());
    assert_eq!(
        register_dir(&mut s.adr, "/other/adr", "n", IndexType::Timestamp),
        Err(AdrError::OutsideRoot)
    );
    assert_eq!(register_dir(&mut s.adr, "/proj/doc/adr", "n", IndexType::Timestamp), Ok(()));
    assert_eq!(s.adr.dirs.len(), 1);
    assert_eq!(s.adr.dirs[0].path, "doc/adr");
    assert_eq!(
        register_dir(&mut s.adr, "/proj/doc/adr/", "m", IndexType::Timestamp),
        Err(AdrError::PathExists)
    );
    assert_eq!(s.adr.dirs[0].full_path, "/proj/doc/adr");
}

#[test]
fn unicode_digits_in_records() {
    let adr = Adr::parse("\u{661}\u{662}\u{663}\u{664}\u{665}-x.md", "# T").unwrap();
    assert_eq!(adr.index, "\u{661}\u{662}\u{663}\u{664}\u{665}");
    assert_eq!(adr.index_number(), None);
    let content = "# T\nDate: \u{662}\u{660}\u{662}\u{660}-\u{660}\u{661}-\u{660}\u{661}\nDate: 2020-01-01";
    assert_eq!(Adr::parse("00001-x.md", content).unwrap().date, None);
}

#[test]
fn years_outside_four_digits_carry_a_sign() {
    assert_eq!(format_date(&AdrDate { year: -1, month: 1, day: 2 }), "-0001-01-02");
    assert_eq!(format_date(&AdrDate { year: 12345, month: 11, day: 30 }), "+12345-11-30");
    assert_eq!(format_date(&AdrDate { year: 7, month: 1, day: 2 }), "0007-01-02");
}
