use citenum::citation_replacer::{renumber, CitationReplacer};
use citenum::matcher::{find_all, Form, Match};
use citenum::render::html_citation;
use regex::{Captures, Regex};

fn strings(items: &[&str]) -> Vec<String> {
    items.iter().map(|s| s.to_string()).collect()
}

#[test]
fn new_replacer_has_seen_nothing() {
    let r = CitationReplacer::new(true, false);
    assert!(r.dryrun);
    assert!(!r.nohtml);
    assert!(r.citations.keys.is_empty());
    let r = CitationReplacer::new(false, true);
    assert!(!r.dryrun);
    assert!(r.nohtml);
}

#[test]
fn plain_mode_writes_numbers() {
    let out = renumber("Text @A. More [@B, @A] end.", false, false);
    assert_eq!(out.text, "Text [1]. More [2, 1] end.");
    assert_eq!(out.keys, strings(&["A", "B"]));
    assert!(out.trace.is_empty());
}

#[test]
fn rich_mode_writes_anchors_with_the_same_numbers() {
    let out = renumber("Text @A. More [@B, @A] end.", true, false);
    let expected = format!(
        "Text [{}]. More [{}, {}] end.",
        html_citation(1),
        html_citation(2),
        html_citation(1)
    );
    assert_eq!(out.text, expected);
    assert_eq!(
        out.text,
        "Text [<a href=\"#fn:1\" class=\"footnote-ref\" role=\"doc-noteref\">1</a>]. More \
         [<a href=\"#fn:2\" class=\"footnote-ref\" role=\"doc-noteref\">2</a>, \
         <a href=\"#fn:1\" class=\"footnote-ref\" role=\"doc-noteref\">1</a>] end."
    );
    assert_eq!(out.keys, strings(&["A", "B"]));
}

#[test]
fn empty_input_gives_empty_output() {
    for rich in [false, true] {
        for trace in [false, true] {
            let out = renumber("", rich, trace);
            assert_eq!(out.text, "");
            assert!(out.keys.is_empty());
            assert!(out.trace.is_empty());
        }
    }
}

#[test]
fn padded_group_gives_trimmed_keys_in_order() {
    let out = renumber("[@A,\n @B ]", false, false);
    assert_eq!(out.keys, strings(&["A", "B"]));
    assert_eq!(out.text, "[1, 2]");
}

#[test]
fn text_without_citation_is_unchanged() {
    let text = "Nothing to see [here], a @ b \u{e9}\n";
    let out = renumber(text, true, true);
    assert_eq!(out.text, text);
    assert!(out.keys.is_empty());
    assert!(out.trace.is_empty());
}

#[test]
fn every_occurrence_of_a_key_shows_one_number() {
    let out = renumber("@x [@y, @x] @y [@x] [@z,@y,@x] @z", false, false);
    assert_eq!(out.text, "[1] [2, 1] [2] [1] [3, 2, 1] [3]");
    assert_eq!(out.keys, strings(&["x", "y", "z"]));
}

#[test]
fn numbers_follow_first_appearance_not_the_alphabet() {
    let out = renumber("[@zeta, @alpha] @mid @alpha @Beta", false, false);
    assert_eq!(out.text, "[1, 2] [3] [2] [4]");
    assert_eq!(out.keys, strings(&["zeta", "alpha", "mid", "Beta"]));
}

#[test]
fn a_key_repeated_in_one_group_has_one_number() {
    let out = renumber("[@a, @a, @b, @a]", false, false);
    assert_eq!(out.text, "[1, 1, 2, 1]");
    assert_eq!(out.keys, strings(&["a", "b"]));
}

#[test]
fn a_single_citation_gets_brackets_and_a_group_keeps_one_pair() {
    let out = renumber("@k and [@k]", false, false);
    assert_eq!(out.text, "[1] and [1]");
    let rich = renumber("@k and [@k]", true, false);
    assert_eq!(rich.text, format!("[{}] and [{}]", html_citation(1), html_citation(1)));
}

#[test]
fn malformed_brackets_stay_as_text() {
    let out = renumber("[@A,,@B] [] [@] [see @C]", false, false);
    assert_eq!(out.text, "[[1],,[2]] [] [@] [see [3]]");
    assert_eq!(out.keys, strings(&["A", "B", "C"]));
}

#[test]
fn many_keys_get_numbers_of_several_digits() {
    let mut text = String::new();
    let mut expected = String::new();
    for i in 1..=12 {
        text.push_str(&format!("@k{} ", i));
        expected.push_str(&format!("[{}] ", i));
    }
    text.push_str("[@k12, @k10]");
    expected.push_str("[12, 10]");
    let out = renumber(&text, false, false);
    assert_eq!(out.text, expected);
    assert_eq!(out.keys.len(), 12);
}

#[test]
fn trace_changes_neither_text_nor_keys() {
    let samples = ["Text @A. More [@B, @A] end.", "", "[@A,\n @B ] @C \u{e9} [@C,@A]", "@"];
    for text in samples {
        for rich in [false, true] {
            let silent = renumber(text, rich, false);
            let traced = renumber(text, rich, true);
            assert_eq!(silent.text, traced.text);
            assert_eq!(silent.keys, traced.keys);
            assert!(silent.trace.is_empty());
        }
    }
}

#[test]
fn trace_has_a_line_for_each_citation() {
    let out = renumber("\u{e9} @A. More [@B, @A] end.", false, true);
    let lines: Vec<(usize, &str, &str)> =
        out.trace.iter().map(|l| (l.start, l.raw.as_str(), l.replacement.as_str())).collect();
    assert_eq!(lines, vec![(3, "@A", "[1]"), (12, "[@B, @A]", "[2, 1]")]);
    let rich = renumber("@A", true, true);
    assert_eq!(rich.trace.len(), 1);
    assert_eq!(rich.trace[0].replacement, format!("[{}]", html_citation(1)));
}

#[test]
fn scanning_twice_gives_the_same_numbers() {
    let text = "[@q, @p] @r @p [@s,@q]";
    let first = renumber(text, false, false);
    let second = renumber(text, false, false);
    assert_eq!(first.text, second.text);
    assert_eq!(first.keys, second.keys);
    let mut a = CitationReplacer::new(false, true);
    let mut b = CitationReplacer::new(true, false);
    a.replace_all(text);
    b.replace_all(text);
    assert_eq!(a.citations.keys, b.citations.keys);
    assert_eq!(a.citations.keys, first.keys);
}

#[test]
fn replace_all_goes_on_with_the_keys_it_has() {
    let mut r = CitationReplacer::new(false, true);
    let first = r.replace_all("@a @b");
    assert_eq!(first.text, "[1] [2]");
    let second = r.replace_all("[@c, @a]");
    assert_eq!(second.text, "[3, 1]");
    assert_eq!(r.citations.keys, strings(&["a", "b", "c"]));
    assert!(r.nohtml);
    assert!(!r.dryrun);
}

#[test]
fn replace_append_handles_a_single_citation() {
    let mut r = CitationReplacer::new(false, true);
    let mut dst = String::from("so far ");
    let m = Match { start: 7, raw: "@Key".to_string(), form: Form::Bare, subkeys: vec![] };
    assert!(r.replace_append(&m, &mut dst).is_none());
    assert_eq!(dst, "so far [1]");
    assert!(r.replace_append(&m, &mut dst).is_none());
    assert_eq!(dst, "so far [1][1]");
    assert_eq!(r.citations.keys, strings(&["Key"]));
}

#[test]
fn replace_append_handles_a_group() {
    let mut r = CitationReplacer::new(true, true);
    r.citations.resolve("old");
    let mut dst = String::new();
    let m = Match {
        start: 4,
        raw: "[@new,\n @old ]".to_string(),
        form: Form::List,
        subkeys: strings(&["@new", "\n @old "]),
    };
    let line = r.replace_append(&m, &mut dst).unwrap();
    assert_eq!(dst, "[2, 1]");
    assert_eq!(line.start, 4);
    assert_eq!(line.raw, "[@new,\n @old ]");
    assert_eq!(line.replacement, "[2, 1]");
    assert_eq!(r.citations.keys, strings(&["old", "new"]));
}

#[test]
fn replace_append_in_rich_mode() {
    let mut r = CitationReplacer::new(false, false);
    let mut dst = String::new();
    let found = find_all("[@a, @b]@a");
    for m in &found {
        r.replace_append(m, &mut dst);
    }
    assert_eq!(
        dst,
        format!("[{}, {}][{}]", html_citation(1), html_citation(2), html_citation(1))
    );
}

#[test]
fn text_between_citations_is_copied() {
    let out = renumber("a\u{1f600}@x\u{e9}\n\t[@y]]z", false, false);
    assert_eq!(out.text, "a\u{1f600}[1]\u{e9}\n\t[2]]z");
}

#[test]
fn agrees_with_a_replacement_by_regular_expression() {
    let pattern =
        Regex::new(r"(\[\s*@[A-Za-z0-9]+\s*(?:,\s*@[A-Za-z0-9]+\s*)*\])|@([A-Za-z0-9]+)")
            .unwrap();
    let samples = [
        "",
        "Text @A. More [@B, @A] end.",
        "[@A,\n @B ]",
        "[@A,,@B] [@] [] [@A @B] [@A, B] [@@A] [[@A]] [@A, @B",
        "mail a@b.c and [ @x1 ,\t@y2\u{a0}] \u{e9}@z then @x1, @b and [@z,@y2]",
        "@k1 @k2 @k3 @k4 @k5 @k6 @k7 @k8 @k9 @k10 @k11 [@k11, @k10, @k1]",
        "\u{1f600}[@A\u{2003},\u{3000}@B]\u{e9}\u{e9}@C9[@B]@A",
    ];
    for text in samples {
        let mut keys: Vec<String> = Vec::new();
        let expected = pattern.replace_all(text, |caps: &Captures| {
            let names: Vec<String> = match caps.get(2) {
                Some(key) => vec![key.as_str().to_string()],
                None => {
                    let whole = caps.get(0).unwrap().as_str();
                    whole[1..whole.len() - 1]
                        .split(',')
                        .map(|entry| entry.trim()[1..].to_string())
                        .collect()
                },
            };
            let numbers: Vec<String> = names
                .iter()
                .map(|name| {
                    let number = match keys.iter().position(|key| key == name) {
                        Some(place) => place + 1,
                        None => {
                            keys.push(name.clone());
                            keys.len()
                        },
                    };
                    number.to_string()
                })
                .collect();
            format!("[{}]", numbers.join(", "))
        });
        let out = renumber(text, false, true);
        assert_eq!(out.text, expected);
        assert_eq!(out.keys, keys);
        assert_eq!(out.trace.len(), pattern.find_iter(text).count());
    }
}
