use citenum::matcher::{find_all, find_at, utf8_width, Form, Match};
use regex::Regex;

fn shapes(found: &Vec<Match>) -> Vec<(usize, String, Form, Vec<String>)> {
    found.iter().map(|m| (m.start, m.raw.clone(), m.form, m.subkeys.clone())).collect()
}

fn strings(items: &[&str]) -> Vec<String> {
    items.iter().map(|s| s.to_string()).collect()
}

#[test]
fn finds_a_single_citation() {
    let found = find_all("see @Author2025.");
    assert_eq!(shapes(&found), vec![(4, "@Author2025".to_string(), Form::Bare, vec![])]);
}

#[test]
fn finds_a_group() {
    let found = find_all("x [@A, @B]");
    assert_eq!(
        shapes(&found),
        vec![(2, "[@A, @B]".to_string(), Form::List, strings(&["@A", " @B"]))]
    );
}

#[test]
fn a_group_of_one_is_a_group() {
    let found = find_all("[@only]");
    assert_eq!(shapes(&found), vec![(0, "[@only]".to_string(), Form::List, strings(&["@only"]))]);
}

#[test]
fn keys_inside_a_group_are_not_found_alone() {
    let found = find_all("[@A,@B,@C] and @D");
    assert_eq!(found.len(), 2);
    assert_eq!(found[0].form, Form::List);
    assert_eq!(found[0].subkeys, strings(&["@A", "@B", "@C"]));
    assert_eq!(found[1].form, Form::Bare);
    assert_eq!(found[1].raw, "@D");
    assert_eq!(found[1].start, 15);
}

#[test]
fn entries_may_be_padded_with_white_space_and_newlines() {
    let found = find_all("[@A,\n @B ]");
    assert_eq!(found.len(), 1);
    assert_eq!(found[0].raw, "[@A,\n @B ]");
    assert_eq!(found[0].subkeys, strings(&["@A", "\n @B "]));
    let padded = find_all("[ \t@A\u{a0},\r\n@B\u{2003}]");
    assert_eq!(padded.len(), 1);
    assert_eq!(padded[0].subkeys, strings(&[" \t@A\u{a0}", "\r\n@B\u{2003}"]));
}

#[test]
fn matches_come_from_left_to_right() {
    let found = find_all("@b @a [@c] @a");
    let raws: Vec<&str> = found.iter().map(|m| m.raw.as_str()).collect();
    assert_eq!(raws, vec!["@b", "@a", "[@c]", "@a"]);
    let starts: Vec<usize> = found.iter().map(|m| m.start).collect();
    assert_eq!(starts, vec![0, 3, 6, 11]);
}

#[test]
fn empty_text_has_no_citation() {
    assert!(find_all("").is_empty());
    assert!(find_at("", 0).is_none());
}

#[test]
fn text_without_citation() {
    assert!(find_all("no citation here, [see] (above) a @ b").is_empty());
}

#[test]
fn a_key_ends_at_the_first_other_character() {
    let found = find_all("@A-B @c_d @e.f");
    let raws: Vec<&str> = found.iter().map(|m| m.raw.as_str()).collect();
    assert_eq!(raws, vec!["@A", "@c", "@e"]);
}

#[test]
fn a_key_holds_ascii_letters_and_digits_only() {
    assert_eq!(find_all("@\u{e9}t\u{e9}").len(), 0);
    let found = find_all("@caf\u{e9}");
    assert_eq!(found.len(), 1);
    assert_eq!(found[0].raw, "@caf");
}

#[test]
fn an_empty_entry_is_no_citation() {
    let found = find_all("[@A,,@B]");
    let raws: Vec<&str> = found.iter().map(|m| m.raw.as_str()).collect();
    assert_eq!(raws, vec!["@A", "@B"]);
    assert!(found.iter().all(|m| m.form == Form::Bare));
    assert!(find_all("[@]").is_empty());
    assert!(find_all("[]").is_empty());
    assert!(find_all("[ ]").is_empty());
    assert!(find_all("[@, ]").is_empty());
}

#[test]
fn a_trailing_comma_is_no_group() {
    let found = find_all("[@A, ]");
    assert_eq!(found.len(), 1);
    assert_eq!(found[0].form, Form::Bare);
    assert_eq!(found[0].raw, "@A");
    assert_eq!(found[0].start, 1);
}

#[test]
fn entries_without_comma_are_no_group() {
    let found = find_all("[@A @B]");
    let raws: Vec<&str> = found.iter().map(|m| m.raw.as_str()).collect();
    assert_eq!(raws, vec!["@A", "@B"]);
    assert!(found.iter().all(|m| m.form == Form::Bare));
}

#[test]
fn an_entry_without_at_sign_is_no_group() {
    let found = find_all("[@A, B]");
    assert_eq!(found.len(), 1);
    assert_eq!(found[0].raw, "@A");
    let doubled = find_all("[@@A]");
    assert_eq!(doubled.len(), 1);
    assert_eq!(doubled[0].raw, "@A");
    assert_eq!(doubled[0].start, 2);
}

#[test]
fn an_open_bracket_is_no_group() {
    let found = find_all("[@A, @B");
    let raws: Vec<&str> = found.iter().map(|m| m.raw.as_str()).collect();
    assert_eq!(raws, vec!["@A", "@B"]);
}

#[test]
fn the_inner_bracket_starts_the_group() {
    let found = find_all("[[@A]]");
    assert_eq!(found.len(), 1);
    assert_eq!(found[0].start, 1);
    assert_eq!(found[0].raw, "[@A]");
}

#[test]
fn start_counts_bytes() {
    let found = find_all("\u{e9}\u{20ac}\u{1f600} @A [@B]");
    assert_eq!(found.len(), 2);
    assert_eq!(found[0].start, 10);
    assert_eq!(found[1].start, 13);
}

#[test]
fn find_at_looks_at_one_place() {
    let text = "a\u{e9} @A [@B, @C]";
    assert!(find_at(text, 0).is_none());
    assert!(find_at(text, 2).is_none());
    let bare = find_at(text, 3).unwrap();
    assert_eq!((bare.start, bare.raw.as_str(), bare.form), (4, "@A", Form::Bare));
    assert!(find_at(text, 4).is_none());
    let list = find_at(text, 6).unwrap();
    assert_eq!((list.start, list.raw.as_str(), list.form), (7, "[@B, @C]", Form::List));
    assert_eq!(list.subkeys, strings(&["@B", " @C"]));
    let inner = find_at(text, 7).unwrap();
    assert_eq!((inner.start, inner.raw.as_str(), inner.form), (8, "@B", Form::Bare));
    assert!(find_at(text, 14).is_none());
    assert!(find_at(text, 100).is_none());
}

#[test]
fn width_is_the_length_in_utf8() {
    for c in ['\0', 'a', '\u{7f}', '\u{80}', '\u{7ff}', '\u{800}', '\u{d7ff}', '\u{e000}',
        '\u{ffff}', '\u{10000}', '\u{10ffff}']
    {
        assert_eq!(utf8_width(c), c.len_utf8());
    }
    assert_eq!(utf8_width('a'), 1);
    assert_eq!(utf8_width('\u{e9}'), 2);
    assert_eq!(utf8_width('\u{20ac}'), 3);
    assert_eq!(utf8_width('\u{1f600}'), 4);
}

#[test]
fn agrees_with_the_pattern_as_a_regular_expression() {
    let pattern =
        Regex::new(r"\[\s*@[A-Za-z0-9]+\s*(?:,\s*@[A-Za-z0-9]+\s*)*\]|@[A-Za-z0-9]+").unwrap();
    let samples = [
        "",
        "Text @A. More [@B, @A] end.",
        "[@A,\n @B ]",
        "[@A,,@B] [@] [] [@A @B] [@A, B] [@@A] [[@A]] [@A, @B",
        "mail a@b.c and [ @x1 ,\t@y2\u{a0}] \u{e9}@z",
        "@ @@ @@a [@a][@b]@c[@d ,@e,@f ]",
        "[@A]]] [[[@B] [@C, @D, @E, @F]",
        "\u{1f600}[@A\u{2003},\u{3000}@B]\u{e9}\u{e9}@C9",
        "[@A,]\n[,@A]\n[@A , ]\n[@ A]\n[@A;@B]",
    ];
    for text in samples {
        let ours: Vec<(usize, String)> =
            find_all(text).iter().map(|m| (m.start, m.raw.clone())).collect();
        let theirs: Vec<(usize, String)> =
            pattern.find_iter(text).map(|m| (m.start(), m.as_str().to_string())).collect();
        assert_eq!(ours, theirs);
    }
}
