//! The pattern matcher: where in a text a citation stands, in which of the two
//! forms, and what it holds.
//!
//! A single citation is an `@` followed by a key, which is a run of ASCII letters
//! and digits. A group is a `[`, then one or more entries separated by commas, then
//! a `]`; an entry is an `@` and a key, with white space allowed on both sides.

use vstd::prelude::*;
use vstd::utf8::{encode_scalar, encode_utf8};
use crate::text::{
    chars_of, is_key_char, is_space, key_char, lemma_trimmed_bounds, lemma_trimmed_core,
    space_char, tail, trimmed, views,
};

verus! {

/// The two forms of a citation.
#[derive(Clone, Copy, Debug, PartialEq, Eq, Structural)]
pub enum Form {
    /// A single key: `@key`.
    Bare,
    /// A bracketed group: `[@one, @two]`.
    List,
}

/// A citation found in a text.
#[derive(Debug)]
pub struct Match {
    /// Where the citation starts: the number of bytes that the text before it takes
    /// in UTF-8.
    pub start: usize,
    /// The citation as it stands in the text.
    pub raw: String,
    /// The form of the citation.
    pub form: Form,
    /// For a group, its entries as they stand between the commas; empty for a single
    /// citation.
    pub subkeys: Vec<String>,
}

/// What a `Match` holds, as mathematical values.
pub struct MatchView {
    pub start: nat,
    pub raw: Seq<char>,
    pub form: Form,
    pub subkeys: Seq<Seq<char>>,
}

impl View for Match {
    type V = MatchView;

    open spec fn view(&self) -> MatchView {
        MatchView {
            start: self.start as nat,
            raw: self.raw@,
            form: self.form,
            subkeys: views(self.subkeys@),
        }
    }
}

/// The matches of `v` as mathematical values.
pub open spec fn match_views(v: Seq<Match>) -> Seq<MatchView> {
    Seq::new(v.len(), |i: int| v[i]@)
}

/// The keys that a citation names, in order: for a single citation what follows the
/// `@`, for a group each entry without the white space around it and without its `@`.
pub open spec fn keys_of(m: MatchView) -> Seq<Seq<char>> {
    match m.form {
        Form::Bare => seq![tail(m.raw)],
        Form::List => Seq::new(m.subkeys.len(), |i: int| tail(trimmed(m.subkeys[i]))),
    }
}

/// Whether `key` can be a citation key: not empty, letters and digits only.
pub open spec fn is_key(key: Seq<char>) -> bool {
    key.len() > 0 && forall|i: int| 0 <= i < key.len() ==> is_key_char(#[trigger] key[i])
}

/// Where the run of key characters that starts at `i` ends.
pub open spec fn key_end(s: Seq<char>, i: int) -> int
    decreases s.len() - i,
{
    if 0 <= i < s.len() && is_key_char(s[i]) {
        key_end(s, i + 1)
    } else {
        i
    }
}

/// Where the run of white space that starts at `i` ends.
pub open spec fn space_end(s: Seq<char>, i: int) -> int
    decreases s.len() - i,
{
    if 0 <= i < s.len() && is_space(s[i]) {
        space_end(s, i + 1)
    } else {
        i
    }
}

/// Where the single citation that starts at `i` ends, if one starts there.
pub open spec fn bare_end(s: Seq<char>, i: int) -> Option<int> {
    if 0 <= i < s.len() && s[i] == '@' && key_end(s, i + 1) > i + 1 {
        Some(key_end(s, i + 1))
    } else {
        None
    }
}

/// Where the entry that starts at `i` ends, if one starts there: the place after its
/// white space, `@`, key and white space.
pub open spec fn entry_end(s: Seq<char>, i: int) -> Option<int> {
    match bare_end(s, space_end(s, i)) {
        Some(e) => Some(space_end(s, e)),
        None => None,
    }
}

/// The entries of a group from `i` on, where `i` follows the `[` or a comma, and the
/// place after the closing `]`; `None` if what stands there is not the rest of a group.
pub open spec fn entries_from(s: Seq<char>, i: int) -> Option<(Seq<Seq<char>>, int)>
    decreases s.len() - i,
    via entries_from_decreases
{
    match entry_end(s, i) {
        Some(c) => {
            if 0 <= c < s.len() && s[c] == ',' {
                match entries_from(s, c + 1) {
                    Some((rest, end)) => Some((seq![s.subrange(i, c)] + rest, end)),
                    None => None,
                }
            } else if 0 <= c < s.len() && s[c] == ']' {
                Some((seq![s.subrange(i, c)], c + 1))
            } else {
                None
            }
        },
        None => None,
    }
}

#[via_fn]
proof fn entries_from_decreases(s: Seq<char>, i: int) {
    lemma_entry_end(s, i);
}

/// The number of bytes that the first `i` characters of `s` take in UTF-8.
pub open spec fn byte_offset(s: Seq<char>, i: int) -> nat {
    encode_utf8(s.take(i)).len()
}

/// The citation that starts at `i`, if one starts there. A group is looked for
/// first, then a single citation.
pub open spec fn match_at(s: Seq<char>, i: int) -> Option<MatchView> {
    if 0 <= i < s.len() && s[i] == '[' && entries_from(s, i + 1) is Some {
        let (subkeys, end) = entries_from(s, i + 1)->0;
        Some(
            MatchView {
                start: byte_offset(s, i),
                raw: s.subrange(i, end),
                form: Form::List,
                subkeys,
            },
        )
    } else if bare_end(s, i) is Some {
        Some(
            MatchView {
                start: byte_offset(s, i),
                raw: s.subrange(i, bare_end(s, i)->0),
                form: Form::Bare,
                subkeys: Seq::empty(),
            },
        )
    } else {
        None
    }
}

/// The citations of `s` from `i` on, from left to right: none overlaps another, and
/// each starts at the first place after the one before where a citation starts.
pub open spec fn matches_from(s: Seq<char>, i: int) -> Seq<MatchView>
    decreases s.len() - i,
    via matches_from_decreases
{
    if 0 <= i < s.len() {
        match match_at(s, i) {
            Some(m) => seq![m] + matches_from(s, i + m.raw.len()),
            None => matches_from(s, i + 1),
        }
    } else {
        Seq::empty()
    }
}

#[via_fn]
proof fn matches_from_decreases(s: Seq<char>, i: int) {
    lemma_match_at(s, i);
}

/// The citations of `s`, from left to right.
pub open spec fn matches_of(s: Seq<char>) -> Seq<MatchView> {
    matches_from(s, 0)
}

/// A run of key characters lies in the text, holds key characters only, and ends
/// where the text ends or another character stands.
pub proof fn lemma_key_end(s: Seq<char>, i: int)
    requires
        0 <= i <= s.len(),
    ensures
        i <= key_end(s, i) <= s.len(),
        forall|j: int| i <= j < key_end(s, i) ==> is_key_char(#[trigger] s[j]),
        key_end(s, i) < s.len() ==> !is_key_char(s[key_end(s, i)]),
    decreases s.len() - i,
{
    if i < s.len() && is_key_char(s[i]) {
        lemma_key_end(s, i + 1);
    }
}

/// A run of white space lies in the text, holds white space only, and ends where
/// the text ends or another character stands.
pub proof fn lemma_space_end(s: Seq<char>, i: int)
    requires
        0 <= i <= s.len(),
    ensures
        i <= space_end(s, i) <= s.len(),
        forall|j: int| i <= j < space_end(s, i) ==> is_space(#[trigger] s[j]),
        space_end(s, i) < s.len() ==> !is_space(s[space_end(s, i)]),
    decreases s.len() - i,
{
    if i < s.len() && is_space(s[i]) {
        lemma_space_end(s, i + 1);
    }
}

/// An entry lies in the text and is not empty.
pub proof fn lemma_entry_end(s: Seq<char>, i: int)
    ensures
        entry_end(s, i) is Some ==> 0 <= i && i + 2 <= entry_end(s, i)->0 <= s.len(),
{
    if entry_end(s, i) is Some {
        if 0 <= i <= s.len() {
            lemma_space_end(s, i);
            let a = space_end(s, i);
            lemma_key_end(s, a + 1);
            lemma_space_end(s, key_end(s, a + 1));
        }
    }
}

/// The rest of a group lies in the text and holds at least one entry.
pub proof fn lemma_entries_from(s: Seq<char>, i: int)
    ensures
        entries_from(s, i) is Some ==> {
            let (entries, end) = entries_from(s, i)->0;
            0 <= i && i + 3 <= end <= s.len() && entries.len() > 0
        },
    decreases s.len() - i,
{
    lemma_entry_end(s, i);
    if entry_end(s, i) is Some {
        let c = entry_end(s, i)->0;
        if 0 <= c < s.len() && s[c] == ',' {
            lemma_entries_from(s, c + 1);
        }
    }
}

/// A citation lies in the text where it was found and is not empty.
pub proof fn lemma_match_at(s: Seq<char>, i: int)
    ensures
        match_at(s, i) is Some ==> {
            let m = match_at(s, i)->0;
            0 <= i && m.raw.len() >= 2 && i + m.raw.len() <= s.len() && m.raw == s.subrange(
                i,
                i + m.raw.len(),
            )
        },
{
    if match_at(s, i) is Some {
        if s[i] == '[' && entries_from(s, i + 1) is Some {
            lemma_entries_from(s, i + 1);
        } else {
            lemma_key_end(s, i + 1);
        }
    }
}

/// Whether `entry` is an entry of a group: an `@` and a key, with nothing but white
/// space before and after.
pub open spec fn is_entry(entry: Seq<char>) -> bool {
    trimmed(entry).len() >= 2 && trimmed(entry)[0] == '@' && is_key(tail(trimmed(entry)))
}

/// The parts in order, with a comma between neighbours.
pub open spec fn comma_joined(parts: Seq<Seq<char>>) -> Seq<char>
    decreases parts.len(),
{
    if parts.len() == 0 {
        Seq::empty()
    } else if parts.len() == 1 {
        parts[0]
    } else {
        parts[0] + seq![','] + comma_joined(parts.drop_first())
    }
}

/// What stands from `i` up to the end of an entry is an entry.
pub proof fn lemma_entry_shape(s: Seq<char>, i: int)
    requires
        entry_end(s, i) is Some,
    ensures
        is_entry(s.subrange(i, entry_end(s, i)->0)),
{
    lemma_entry_end(s, i);
    lemma_space_end(s, i);
    let a = space_end(s, i);
    lemma_key_end(s, a + 1);
    let b = key_end(s, a + 1);
    lemma_space_end(s, b);
    let c = space_end(s, b);
    let entry = s.subrange(i, c);
    lemma_trimmed_core(entry, a - i, b - i);
}

/// The rest of a group is its entries with commas between them and a `]` at the end,
/// and each of them is an entry.
pub proof fn lemma_entries_shape(s: Seq<char>, i: int)
    requires
        entries_from(s, i) is Some,
    ensures
        ({
            let (found, end) = entries_from(s, i)->0;
            &&& s.subrange(i, end) == comma_joined(found) + seq![']']
            &&& forall|j: int| 0 <= j < found.len() ==> is_entry(#[trigger] found[j])
        }),
    decreases s.len() - i,
{
    lemma_entry_end(s, i);
    lemma_entry_shape(s, i);
    lemma_entries_from(s, i);
    let c = entry_end(s, i)->0;
    let (found, _) = entries_from(s, i)->0;
    let entry = s.subrange(i, c);
    if s[c] == ',' {
        lemma_entries_shape(s, c + 1);
        lemma_entries_from(s, c + 1);
        let (rest, _) = entries_from(s, c + 1)->0;
        assert(found.drop_first() =~= rest);
        assert(entry + seq![','] + (comma_joined(rest) + seq![']']) =~= entry + seq![',']
            + comma_joined(rest) + seq![']']);
    }
}

/// What a citation that was found looks like: a single one is an `@` and a key; a
/// group is a `[`, its entries with commas between them, and a `]`. Every key that it
/// names is a key: not empty, letters and digits only.
pub proof fn lemma_match_shape(s: Seq<char>, i: int)
    requires
        match_at(s, i) is Some,
    ensures
        ({
            let m = match_at(s, i)->0;
            &&& keys_of(m).len() > 0
            &&& forall|k: int| 0 <= k < keys_of(m).len() ==> is_key(#[trigger] keys_of(m)[k])
            &&& match m.form {
                Form::Bare => m.raw == seq!['@'] + keys_of(m)[0],
                Form::List => {
                    &&& m.raw == seq!['['] + comma_joined(m.subkeys) + seq![']']
                    &&& forall|j: int| 0 <= j < m.subkeys.len() ==> is_entry(#[trigger] m.subkeys[j])
                },
            }
        }),
{
    lemma_match_at(s, i);
    if s[i] == '[' && entries_from(s, i + 1) is Some {
        lemma_entries_from(s, i + 1);
        lemma_entries_shape(s, i + 1);
        let (found, _) = entries_from(s, i + 1)->0;
        assert(seq!['['] + (comma_joined(found) + seq![']']) =~= seq!['['] + comma_joined(found)
            + seq![']']);
    } else {
        lemma_key_end(s, i + 1);
    }
}

/// A stretch of key characters that ends where the text ends or another character
/// stands is the run of key characters from its start.
pub proof fn lemma_key_end_is(s: Seq<char>, i: int, end: int)
    requires
        0 <= i <= end <= s.len(),
        forall|j: int| i <= j < end ==> is_key_char(#[trigger] s[j]),
        end < s.len() ==> !is_key_char(s[end]),
    ensures
        key_end(s, i) == end,
    decreases end - i,
{
    if i < end {
        lemma_key_end_is(s, i + 1, end);
    }
}

/// A stretch of white space that ends where the text ends or another character
/// stands is the run of white space from its start.
pub proof fn lemma_space_end_is(s: Seq<char>, i: int, end: int)
    requires
        0 <= i <= end <= s.len(),
        forall|j: int| i <= j < end ==> is_space(#[trigger] s[j]),
        end < s.len() ==> !is_space(s[end]),
    ensures
        space_end(s, i) == end,
    decreases end - i,
{
    if i < end {
        lemma_space_end_is(s, i + 1, end);
    }
}

/// An entry that stands at `i` and is followed by a character that is neither white
/// space nor a key character is read as an entry, to its end.
pub proof fn lemma_entry_found(s: Seq<char>, i: int, entry: Seq<char>)
    requires
        0 <= i,
        i + entry.len() < s.len(),
        s.subrange(i, i + entry.len()) == entry,
        is_entry(entry),
        !is_space(s[i + entry.len()]),
        !is_key_char(s[i + entry.len()]),
    ensures
        entry_end(s, i) == Some(i + entry.len()),
{
    let (a, b) = lemma_trimmed_bounds(entry);
    let core = trimmed(entry);
    assert forall|j: int| i <= j < i + a implies is_space(#[trigger] s[j]) by {
        assert(entry[j - i] == s[j]);
    }
    lemma_space_end_is(s, i, i + a);
    assert forall|j: int| i + a + 1 <= j < i + b implies is_key_char(#[trigger] s[j]) by {
        assert(tail(core)[j - i - a - 1] == entry[j - i]);
    }
    if b < entry.len() {
        assert(entry[b] == s[i + b]);
    }
    lemma_key_end_is(s, i + a + 1, i + b);
    assert forall|j: int| i + b <= j < i + entry.len() implies is_space(#[trigger] s[j]) by {
        assert(entry[j - i] == s[j]);
    }
    lemma_space_end_is(s, i + b, i + entry.len());
}

/// Entries with commas between them and a `]` at the end, standing at `i`, are read
/// as the rest of a group, with these entries.
pub proof fn lemma_entries_found(s: Seq<char>, i: int, found: Seq<Seq<char>>)
    requires
        0 <= i,
        found.len() > 0,
        forall|j: int| 0 <= j < found.len() ==> is_entry(#[trigger] found[j]),
        i + comma_joined(found).len() + 1 <= s.len(),
        s.subrange(i, i + comma_joined(found).len() + 1) == comma_joined(found) + seq![']'],
    ensures
        entries_from(s, i) == Some((found, i + comma_joined(found).len() + 1)),
    decreases found.len(),
{
    let entry = found[0];
    let whole = comma_joined(found) + seq![']'];
    let c = i + entry.len();
    if found.len() == 1 {
        assert(s[c] == whole[entry.len() as int]);
        assert(s.subrange(i, c) =~= entry);
        lemma_entry_found(s, i, entry);
    } else {
        let rest = found.drop_first();
        let tail_text = comma_joined(rest) + seq![']'];
        assert(s[c] == whole[entry.len() as int]);
        assert(s.subrange(i, c) =~= entry);
        lemma_entry_found(s, i, entry);
        assert(s.subrange(c + 1, c + 1 + comma_joined(rest).len() + 1) =~= tail_text) by {
            assert forall|j: int| 0 <= j < tail_text.len() implies s.subrange(
                c + 1,
                c + 1 + comma_joined(rest).len() + 1,
            )[j] == tail_text[j] by {
                assert(whole[entry.len() + 1 + j] == s[i + entry.len() + 1 + j]);
            }
        }
        lemma_entries_found(s, c + 1, rest);
    }
}

/// Wherever a group stands in a text, a citation is found there, and it is that
/// group with its entries.
pub proof fn lemma_group_found(s: Seq<char>, i: int, found: Seq<Seq<char>>)
    requires
        0 <= i,
        found.len() > 0,
        forall|j: int| 0 <= j < found.len() ==> is_entry(#[trigger] found[j]),
        i + comma_joined(found).len() + 2 <= s.len(),
        s.subrange(i, i + comma_joined(found).len() + 2) == seq!['['] + comma_joined(found)
            + seq![']'],
    ensures
        match_at(s, i) == Some(
            MatchView {
                start: byte_offset(s, i),
                raw: seq!['['] + comma_joined(found) + seq![']'],
                form: Form::List,
                subkeys: found,
            },
        ),
{
    let inner = comma_joined(found) + seq![']'];
    let whole = seq!['['] + comma_joined(found) + seq![']'];
    assert(s[i] == whole[0]);
    assert(s.subrange(i + 1, i + 1 + comma_joined(found).len() + 1) =~= inner) by {
        assert forall|j: int| 0 <= j < inner.len() implies s.subrange(
            i + 1,
            i + 1 + comma_joined(found).len() + 1,
        )[j] == inner[j] by {
            assert(whole[j + 1] == s[i + 1 + j]);
        }
    }
    lemma_entries_found(s, i + 1, found);
}

/// Wherever an `@` and a key stand in a text, and no key character follows, a
/// citation is found there, and it is the single citation of that key.
pub proof fn lemma_single_found(s: Seq<char>, i: int, key: Seq<char>)
    requires
        0 <= i,
        is_key(key),
        i + 1 + key.len() <= s.len(),
        s.subrange(i, i + 1 + key.len()) == seq!['@'] + key,
        i + 1 + key.len() < s.len() ==> !is_key_char(s[i + 1 + key.len()]),
    ensures
        match_at(s, i) == Some(
            MatchView {
                start: byte_offset(s, i),
                raw: seq!['@'] + key,
                form: Form::Bare,
                subkeys: Seq::empty(),
            },
        ),
{
    let whole = seq!['@'] + key;
    assert(s[i] == whole[0]);
    assert forall|j: int| i + 1 <= j < i + 1 + key.len() implies is_key_char(#[trigger] s[j]) by {
        assert(key[j - i - 1] == whole[j - i]);
    }
    lemma_key_end_is(s, i + 1, i + 1 + key.len());
}

/// Each citation of a text is the one found at some place of the text, and the
/// citations after it are those of the text from its end on. Gives the place.
pub proof fn lemma_match_place(s: Seq<char>, i: int, k: int) -> (p: int)
    requires
        0 <= k < matches_from(s, i).len(),
    ensures
        0 <= i <= p < s.len(),
        match_at(s, p) == Some(matches_from(s, i)[k]),
        matches_from(s, i).skip(k + 1) == matches_from(s, p + matches_from(s, i)[k].raw.len()),
    decreases s.len() - i,
{
    lemma_match_at(s, i);
    match match_at(s, i) {
        Some(m) => {
            let rest = matches_from(s, i + m.raw.len());
            if k == 0 {
                assert(matches_from(s, i).skip(1) =~= rest);
                i
            } else {
                let p = lemma_match_place(s, i + m.raw.len(), k - 1);
                assert(matches_from(s, i).skip(k + 1) =~= rest.skip(k));
                p
            }
        },
        None => lemma_match_place(s, i + 1, k),
    }
}

/// No citation of a text overlaps the next: the next starts where the one before
/// ends, or later.
pub proof fn law_matches_do_not_overlap(s: Seq<char>, k: int)
    requires
        0 <= k,
        k + 1 < matches_of(s).len(),
    ensures
        matches_of(s)[k].start + encode_utf8(matches_of(s)[k].raw).len() <= matches_of(s)[k
            + 1].start,
{
    let ms = matches_of(s);
    let p = lemma_match_place(s, 0, k);
    lemma_match_at(s, p);
    let end = p + ms[k].raw.len();
    assert(ms.skip(k + 1)[0] == ms[k + 1]);
    let q = lemma_match_place(s, end, 0);
    lemma_byte_offset(s, p, end);
    lemma_byte_offset(s, end, q);
}

/// The end of the run of key characters that starts at `from`.
fn key_run(text: &Vec<char>, from: usize) -> (end: usize)
    requires
        from <= text.len(),
    ensures
        end == key_end(text@, from as int),
        from <= end <= text.len(),
{
    let mut end: usize = from;
    while end < text.len() && key_char(text[end])
        invariant
            from <= end <= text.len(),
            key_end(text@, from as int) == key_end(text@, end as int),
        decreases text.len() - end,
    {
        end += 1;
    }
    end
}

/// The end of the run of white space that starts at `from`.
fn space_run(text: &Vec<char>, from: usize) -> (end: usize)
    requires
        from <= text.len(),
    ensures
        end == space_end(text@, from as int),
        from <= end <= text.len(),
{
    let mut end: usize = from;
    while end < text.len() && space_char(text[end])
        invariant
            from <= end <= text.len(),
            space_end(text@, from as int) == space_end(text@, end as int),
        decreases text.len() - end,
    {
        end += 1;
    }
    end
}

/// The characters of `text` from `from` up to `to`, as a string.
fn slice_string(text: &Vec<char>, from: usize, to: usize) -> (s: String)
    requires
        from <= to <= text.len(),
    ensures
        s@ == text@.subrange(from as int, to as int),
{
    let mut s = String::new();
    let mut i: usize = from;
    while i < to
        invariant
            from <= i <= to <= text.len(),
            s@ == text@.subrange(from as int, i as int),
        decreases to - i,
    {
        s.push(text[i]);
        proof {
            assert(text@.subrange(from as int, i as int).push(text@[i as int]) =~= text@.subrange(
                from as int,
                i + 1,
            ));
        }
        i += 1;
    }
    s
}

/// Reads the entries of a group from `from` on, where `from` follows the `[`: the
/// entries as they stand and the place after the `]`, or `None` if no group stands
/// there.
fn entries(text: &Vec<char>, from: usize) -> (found: Option<(Vec<String>, usize)>)
    requires
        from <= text.len(),
    ensures
        match found {
            Some((subkeys, end)) => entries_from(text@, from as int) == Some(
                (views(subkeys@), end as int),
            ),
            None => entries_from(text@, from as int) is None,
        },
{
    let ghost s = text@;
    let mut subkeys: Vec<String> = Vec::new();
    let mut pos: usize = from;
    loop
        invariant
            s == text@,
            from <= pos <= text.len(),
            entries_from(s, from as int) == (match entries_from(s, pos as int) {
                Some((rest, end)) => Some((views(subkeys@) + rest, end)),
                None => None,
            }),
        decreases text.len() - pos,
    {
        let a = space_run(text, pos);
        if a >= text.len() || text[a] != '@' {
            return None;
        }
        let b = key_run(text, a + 1);
        if b == a + 1 {
            return None;
        }
        let c = space_run(text, b);
        if c >= text.len() {
            return None;
        }
        let ghost before = views(subkeys@);
        if text[c] == ',' {
            subkeys.push(slice_string(text, pos, c));
            proof {
                match entries_from(s, c + 1) {
                    Some((rest, end)) => {
                        assert(before + (seq![s.subrange(pos as int, c as int)] + rest) =~= views(
                            subkeys@,
                        ) + rest);
                    },
                    None => {},
                }
            }
            pos = c + 1;
        } else if text[c] == ']' {
            subkeys.push(slice_string(text, pos, c));
            return Some((subkeys, c + 1));
        } else {
            return None;
        }
    }
}

/// The UTF-8 encoding of a text is the encoding of its first part followed by that
/// of the rest.
pub proof fn lemma_encode_concat(a: Seq<char>, b: Seq<char>)
    ensures
        encode_utf8(a + b) == encode_utf8(a) + encode_utf8(b),
    decreases a.len(),
{
    if a.len() == 0 {
    } else {
        assert((a + b).drop_first() =~= a.drop_first() + b);
        lemma_encode_concat(a.drop_first(), b);
        assert(encode_scalar((a + b)[0] as u32) + (encode_utf8(a.drop_first()) + encode_utf8(b))
            =~= encode_utf8(a) + encode_utf8(b));
    }
}

/// A text of one character takes the bytes of that character.
pub proof fn lemma_encode_one(c: char)
    ensures
        encode_utf8(seq![c]) == encode_scalar(c as u32),
{
    let one = seq![c];
    assert(encode_utf8(one) == encode_scalar(one[0] as u32) + encode_utf8(one.drop_first()));
}

/// The place in bytes after a stretch of text is the place before it plus the bytes
/// that the stretch takes, and no place lies beyond the length of the whole.
pub proof fn lemma_byte_offset(s: Seq<char>, i: int, j: int)
    requires
        0 <= i <= j <= s.len(),
    ensures
        byte_offset(s, j) == byte_offset(s, i) + encode_utf8(s.subrange(i, j)).len(),
        byte_offset(s, j) <= encode_utf8(s).len(),
{
    assert(s.take(j) =~= s.take(i) + s.subrange(i, j));
    lemma_encode_concat(s.take(i), s.subrange(i, j));
    assert(s =~= s.take(j) + s.subrange(j, s.len() as int));
    lemma_encode_concat(s.take(j), s.subrange(j, s.len() as int));
}

/// The number of bytes that `c` takes in UTF-8.
pub fn utf8_width(c: char) -> (n: usize)
    ensures
        n == encode_scalar(c as u32).len(),
        1 <= n <= 4,
{
    if '\u{7f}' >= c {
        1
    } else if '\u{7ff}' >= c {
        2
    } else if '\u{ffff}' >= c {
        3
    } else {
        4
    }
}

/// The number of bytes that `text` takes in UTF-8. That it is a `usize` bounds every
/// place in the text.
pub(crate) fn byte_count(text: &str) -> (n: usize)
    ensures
        n == encode_utf8(text@).len(),
{
    text.as_bytes().len()
}

/// The number of bytes that the first `i` characters of `text` take in UTF-8.
fn offset_of(text: &Vec<char>, i: usize) -> (offset: usize)
    requires
        i <= text.len(),
        encode_utf8(text@).len() <= usize::MAX,
    ensures
        offset == byte_offset(text@, i as int),
{
    let mut offset: usize = 0;
    let mut k: usize = 0;
    while k < i
        invariant
            k <= i <= text.len(),
            offset == byte_offset(text@, k as int),
            encode_utf8(text@).len() <= usize::MAX,
        decreases i - k,
    {
        let w = utf8_width(text[k]);
        proof {
            lemma_byte_offset(text@, k as int, k + 1);
            lemma_encode_one(text@[k as int]);
            assert(text@.subrange(k as int, k + 1) =~= seq![text@[k as int]]);
        }
        offset += w;
        k += 1;
    }
    offset
}

/// Looks for a citation that starts at `i`, given the place of `i` in bytes. With
/// the citation comes the place in characters at which it ends.
pub(crate) fn find_from(text: &Vec<char>, i: usize, offset: usize) -> (found: Option<(Match, usize)>)
    requires
        i <= text.len(),
        offset == byte_offset(text@, i as int),
    ensures
        match found {
            Some((m, next)) => match_at(text@, i as int) == Some(m@) && next == i + m@.raw.len()
                && next <= text.len(),
            None => match_at(text@, i as int) is None,
        },
{
    if i >= text.len() {
        return None;
    }
    proof {
        lemma_match_at(text@, i as int);
    }
    let c = text[i];
    if c == '[' {
        match entries(text, i + 1) {
            Some((subkeys, end)) => {
                proof {
                    lemma_entries_from(text@, i + 1);
                }
                let raw = slice_string(text, i, end);
                Some((Match { start: offset, raw, form: Form::List, subkeys }, end))
            },
            None => None,
        }
    } else if c == '@' {
        let end = key_run(text, i + 1);
        if end > i + 1 {
            let raw = slice_string(text, i, end);
            let m = Match { start: offset, raw, form: Form::Bare, subkeys: Vec::new() };
            proof {
                assert(views(m.subkeys@) =~= Seq::<Seq<char>>::empty());
            }
            Some((m, end))
        } else {
            None
        }
    } else {
        None
    }
}

/// Looks for a citation that starts at the character with index `i`.
pub fn find_at(text: &str, i: usize) -> (found: Option<Match>)
    ensures
        match found {
            Some(m) => match_at(text@, i as int) == Some(m@),
            None => match_at(text@, i as int) is None,
        },
{
    let chars = chars_of(text);
    if i >= chars.len() {
        return None;
    }
    let _total: usize = byte_count(text);
    let offset = offset_of(&chars, i);
    match find_from(&chars, i, offset) {
        Some((m, _)) => Some(m),
        None => None,
    }
}

/// All citations of `text`, from left to right.
pub fn find_all(text: &str) -> (found: Vec<Match>)
    ensures
        match_views(found@) == matches_of(text@),
{
    let chars = chars_of(text);
    let _total: usize = byte_count(text);
    let ghost s = text@;
    let mut found: Vec<Match> = Vec::new();
    let mut i: usize = 0;
    let mut offset: usize = 0;
    while i < chars.len()
        invariant
            s == chars@,
            i <= chars.len(),
            offset == byte_offset(s, i as int),
            encode_utf8(s).len() <= usize::MAX,
            match_views(found@) + matches_from(s, i as int) == matches_of(s),
        decreases chars.len() - i,
    {
        let ghost before = match_views(found@);
        match find_from(&chars, i, offset) {
            Some((m, next)) => {
                proof {
                    lemma_match_at(s, i as int);
                    lemma_byte_offset(s, i as int, next as int);
                }
                offset = offset + m.raw.as_str().len();
                found.push(m);
                proof {
                    assert(before + (seq![m@] + matches_from(s, next as int)) =~= match_views(
                        found@,
                    ) + matches_from(s, next as int));
                }
                i = next;
            },
            None => {
                let w = utf8_width(chars[i]);
                proof {
                    lemma_byte_offset(s, i as int, i + 1);
                    lemma_encode_one(s[i as int]);
                    assert(s.subrange(i as int, i + 1) =~= seq![s[i as int]]);
                }
                offset += w;
                i += 1;
            },
        }
    }
    found
}

} // verus!
