use citenum::text::{chars_of, key_char, space_char, string_of, trim};
use citenum::utils::{
    check_args, check_file, without_first, Args, ArgsError, FileStatus, MoveOption,
};
use std::path::PathBuf;

#[test]
fn without_first_drops_one_character() {
    assert_eq!(without_first("@Author2025"), "Author2025");
    assert_eq!(without_first("ab"), "b");
    assert_eq!(without_first("a"), "");
}

#[test]
fn without_first_of_empty_is_empty() {
    assert_eq!(without_first(""), "");
}

#[test]
fn without_first_drops_a_whole_character() {
    assert_eq!(without_first("\u{e9}t\u{e9}"), "t\u{e9}");
    assert_eq!(without_first("\u{1f600}x"), "x");
}

#[test]
fn trim_takes_white_space_from_both_ends() {
    assert_eq!(trim("  @A \n"), "@A");
    assert_eq!(trim("\t\r\n x y \u{a0}\u{3000}"), "x y");
    assert_eq!(trim("abc"), "abc");
    assert_eq!(trim(" \n\t "), "");
    assert_eq!(trim(""), "");
}

#[test]
fn trim_agrees_with_the_standard_library() {
    let samples = [
        "", " ", "a", " a", "a ", " a ", "\u{2003}a\u{2003}b\u{2003}", "\u{85}x\u{1680}",
        "\u{200b}x\u{200b}", " \u{e9} ", "\n@B ", "\u{2028}\u{2029}\u{202f}\u{205f}k",
    ];
    for s in samples {
        assert_eq!(trim(s), s.trim());
    }
}

#[test]
fn space_char_is_unicode_white_space() {
    let mut n: u32 = 0;
    while n <= 0x10ffff {
        if let Some(c) = char::from_u32(n) {
            assert_eq!(space_char(c), c.is_whitespace());
        }
        n += 1;
    }
}

#[test]
fn key_char_is_ascii_letter_or_digit() {
    let mut n: u32 = 0;
    while n <= 0x10ffff {
        if let Some(c) = char::from_u32(n) {
            assert_eq!(key_char(c), c.is_ascii_alphanumeric());
        }
        n += 1;
    }
}

#[test]
fn chars_and_back() {
    let s = "a\u{e9}[@B]\n\u{1f600}";
    let v = chars_of(s);
    assert_eq!(v, s.chars().collect::<Vec<char>>());
    assert_eq!(string_of(&v), s);
    assert_eq!(chars_of(""), Vec::<char>::new());
    assert_eq!(string_of(&Vec::new()), "");
}

#[test]
fn move_out_takes_the_value() {
    assert_eq!(Some(3).move_out(&7), 3);
    assert_eq!(Some("a".to_string()).move_out(&"b".to_string()), "a");
}

#[test]
fn move_out_falls_back() {
    assert_eq!(None::<i32>.move_out(&7), 7);
    assert_eq!(None::<String>.move_out(&"b".to_string()), "b");
}

fn sample_args(output: Option<PathBuf>) -> Args {
    Args {
        bib: PathBuf::from("refs.bib"),
        csl: PathBuf::from("style.csl"),
        output,
        dryrun: true,
        strict: false,
        term: true,
        nohtml: false,
        markdown: PathBuf::from("text.md"),
    }
}

const FILE: FileStatus = FileStatus { exists: true, is_file: true };
const NOTHING: FileStatus = FileStatus { exists: false, is_file: false };
const DIRECTORY: FileStatus = FileStatus { exists: true, is_file: false };

#[test]
fn check_file_accepts_a_file() {
    assert!(check_file(&PathBuf::from("a"), FILE).is_ok());
}

#[test]
fn check_file_rejects_what_is_missing() {
    match check_file(&PathBuf::from("a"), NOTHING) {
        Err(ArgsError::Missing(p)) => assert_eq!(p, PathBuf::from("a")),
        _ => panic!("expected a missing file"),
    }
    let odd = FileStatus { exists: false, is_file: true };
    assert!(matches!(check_file(&PathBuf::from("a"), odd), Err(ArgsError::Missing(_))));
}

#[test]
fn check_file_rejects_a_directory() {
    match check_file(&PathBuf::from("dir"), DIRECTORY) {
        Err(ArgsError::NotAFile(p)) => assert_eq!(p, PathBuf::from("dir")),
        _ => panic!("expected a path that is no file"),
    }
}

#[test]
fn check_args_keeps_the_values() {
    match check_args(sample_args(Some(PathBuf::from("out.md"))), FILE, FILE, FILE) {
        Ok(c) => {
            assert_eq!(c.bib, PathBuf::from("refs.bib"));
            assert_eq!(c.csl, PathBuf::from("style.csl"));
            assert_eq!(c.output, PathBuf::from("out.md"));
            assert_eq!(c.markdown, PathBuf::from("text.md"));
            assert!(c.dryrun);
            assert!(!c.strict);
            assert!(c.term);
            assert!(!c.nohtml);
        },
        Err(_) => panic!("expected the arguments to be accepted"),
    }
}

#[test]
fn check_args_writes_to_the_text_file_by_default() {
    match check_args(sample_args(None), FILE, FILE, FILE) {
        Ok(c) => {
            assert_eq!(c.output, PathBuf::from("text.md"));
            assert_eq!(c.markdown, PathBuf::from("text.md"));
        },
        Err(_) => panic!("expected the arguments to be accepted"),
    }
}

#[test]
fn check_args_reports_the_text_file_first() {
    match check_args(sample_args(None), NOTHING, DIRECTORY, NOTHING) {
        Err(ArgsError::Missing(p)) => assert_eq!(p, PathBuf::from("text.md")),
        _ => panic!("expected the text file to be missing"),
    }
}

#[test]
fn check_args_reports_the_style_file_second() {
    match check_args(sample_args(None), FILE, DIRECTORY, NOTHING) {
        Err(ArgsError::NotAFile(p)) => assert_eq!(p, PathBuf::from("style.csl")),
        _ => panic!("expected the style file to be no file"),
    }
}

#[test]
fn check_args_reports_the_bibliography_last() {
    match check_args(sample_args(None), FILE, FILE, NOTHING) {
        Err(ArgsError::Missing(p)) => assert_eq!(p, PathBuf::from("refs.bib")),
        _ => panic!("expected the bibliography to be missing"),
    }
}
