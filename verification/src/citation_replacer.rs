//! The scan over a text: every citation is replaced by a token that holds the
//! footnote numbers of its keys, and the keys are recorded in the order in which
//! they are first seen.

use vstd::prelude::*;
use vstd::string::StringExecFns;
use vstd::utf8::encode_utf8;
use crate::matcher::{
    byte_count, byte_offset, find_from, is_key, keys_of, lemma_byte_offset, lemma_encode_one,
    lemma_match_at, lemma_match_place, lemma_match_shape, match_at, matches_from, matches_of,
    utf8_width, Form, Match, MatchView,
};
use crate::registry::{
    distinct, first_place, law_numbers_follow_first_appearance, lemma_number_of, lemma_register,
    lemma_register_all, lemma_register_all_concat, lemma_register_all_members, number_of,
    numbers_of, register, register_all, Registry,
};
use crate::render::Formatter;
use crate::text::{chars_of, tail, trim, views};
use crate::utils::without_first;

verus! {

/// What is reported of one citation when a scan is traced.
#[derive(Debug)]
pub struct TraceLine {
    /// Where the citation starts, in bytes.
    pub start: usize,
    /// The citation as it stands in the text.
    pub raw: String,
    /// The token that replaces it.
    pub replacement: String,
}

/// What a `TraceLine` holds, as mathematical values.
pub struct TraceView {
    pub start: nat,
    pub raw: Seq<char>,
    pub replacement: Seq<char>,
}

impl View for TraceLine {
    type V = TraceView;

    open spec fn view(&self) -> TraceView {
        TraceView { start: self.start as nat, raw: self.raw@, replacement: self.replacement@ }
    }
}

/// The trace lines of `v` as mathematical values.
pub open spec fn trace_views(v: Seq<TraceLine>) -> Seq<TraceView> {
    Seq::new(v.len(), |i: int| v[i]@)
}

/// The token that replaces the citation `m` when the keys have the numbers that
/// they have in `keys`.
pub open spec fn replacement(keys: Seq<Seq<char>>, m: MatchView, f: Formatter) -> Seq<char> {
    match m.form {
        Form::Bare => f.bare(number_of(keys, tail(m.raw))),
        Form::List => f.list(numbers_of(keys, keys_of(m))),
    }
}

/// The trace line of the citation `m`.
pub open spec fn trace_of(keys: Seq<Seq<char>>, m: MatchView, f: Formatter) -> TraceView {
    TraceView { start: m.start, raw: m.raw, replacement: replacement(keys, m, f) }
}

/// The trace lines of the citations `ms`, in order.
pub open spec fn traces_of(keys: Seq<Seq<char>>, ms: Seq<MatchView>, f: Formatter) -> Seq<
    TraceView,
> {
    Seq::new(ms.len(), |i: int| trace_of(keys, ms[i], f))
}

/// All keys that the citations `ms` name, in the order in which they stand, each as
/// often as it stands.
pub open spec fn occurrences(ms: Seq<MatchView>) -> Seq<Seq<char>>
    decreases ms.len(),
{
    if ms.len() == 0 {
        Seq::empty()
    } else {
        keys_of(ms[0]) + occurrences(ms.drop_first())
    }
}

/// The keys after a scan of `s` that began with the keys `before`: those of `before`,
/// then the new keys of `s` in the order in which they are first seen.
pub open spec fn keys_after(before: Seq<Seq<char>>, s: Seq<char>) -> Seq<Seq<char>> {
    register_all(before, occurrences(matches_of(s)))
}

/// The text `s` from `i` on, with each citation replaced by its token and all else
/// left as it is.
pub open spec fn rewritten_from(s: Seq<char>, i: int, keys: Seq<Seq<char>>, f: Formatter) -> Seq<
    char,
>
    decreases s.len() - i,
    via rewritten_from_decreases
{
    if 0 <= i < s.len() {
        match match_at(s, i) {
            Some(m) => replacement(keys, m, f) + rewritten_from(s, i + m.raw.len(), keys, f),
            None => seq![s[i]] + rewritten_from(s, i + 1, keys, f),
        }
    } else {
        Seq::empty()
    }
}

#[via_fn]
proof fn rewritten_from_decreases(s: Seq<char>, i: int, keys: Seq<Seq<char>>, f: Formatter) {
    lemma_match_at(s, i);
}

/// The text `s` with each citation replaced by its token.
pub open spec fn rewritten(s: Seq<char>, keys: Seq<Seq<char>>, f: Formatter) -> Seq<char> {
    rewritten_from(s, 0, keys, f)
}

/// Looking up one key.
pub proof fn lemma_register_all_one(keys: Seq<Seq<char>>, key: Seq<char>)
    ensures
        register_all(keys, seq![key]) == register(keys, key),
{
    let one = seq![key];
    assert(register_all(keys, one) == register_all(register(keys, one[0]), one.drop_first()));
}

/// The keys of a citation followed by others are its own keys, then those of the
/// others.
pub proof fn lemma_occurrences_first(m: MatchView, rest: Seq<MatchView>)
    ensures
        occurrences(seq![m] + rest) == keys_of(m) + occurrences(rest),
{
    assert((seq![m] + rest).drop_first() =~= rest);
}

/// Keys that have their numbers keep them in whatever is looked up afterwards, and
/// so does the token made of them.
pub proof fn lemma_replacement_stable(
    keys: Seq<Seq<char>>,
    m: MatchView,
    more: Seq<Seq<char>>,
    f: Formatter,
)
    requires
        distinct(keys),
        forall|i: int| 0 <= i < keys_of(m).len() ==> number_of(keys, keys_of(m)[i]) > 0,
    ensures
        replacement(register_all(keys, more), m, f) == replacement(keys, m, f),
{
    lemma_register_all(keys, more);
    let after = register_all(keys, more);
    match m.form {
        Form::Bare => {
            assert(keys_of(m)[0] == tail(m.raw));
        },
        Form::List => {
            assert(numbers_of(after, keys_of(m)) =~= numbers_of(keys, keys_of(m)));
        },
    }
}

/// What a scan gives back: the new text and, when the scan is traced, a line for
/// each citation.
#[derive(Debug)]
pub struct Rewritten {
    /// The text with each citation replaced by its token.
    pub text: String,
    /// One line for each citation, from left to right; empty unless the scan is traced.
    pub trace: Vec<TraceLine>,
}

/// Replaces citations by numbered footnote references and records which keys were
/// cited, in the order in which they were first seen.
pub struct CitationReplacer {
    /// The keys seen so far; the key at place `i` has the number `i + 1`.
    pub citations: Registry,
    /// Whether a trace line is made for each citation.
    pub dryrun: bool,
    /// Whether references are plain numbers, without a link.
    pub nohtml: bool,
}

impl CitationReplacer {
    /// The keys are recorded without repetition.
    pub open spec fn wf(&self) -> bool {
        self.citations.wf()
    }

    /// The style of the references.
    pub open spec fn formatter(&self) -> Formatter {
        if self.nohtml {
            Formatter::Plain
        } else {
            Formatter::Rich
        }
    }

    /// The keys after a scan of `s`.
    pub open spec fn scanned_keys(&self, s: Seq<char>) -> Seq<Seq<char>> {
        keys_after(self.citations@, s)
    }

    /// The text that a scan of `s` gives.
    pub open spec fn scanned_text(&self, s: Seq<char>) -> Seq<char> {
        rewritten(s, self.scanned_keys(s), self.formatter())
    }

    /// The trace lines that a scan of `s` gives: one for each citation if the scan is
    /// traced, none otherwise.
    pub open spec fn scanned_trace(&self, s: Seq<char>) -> Seq<TraceView> {
        if self.dryrun {
            traces_of(self.scanned_keys(s), matches_of(s), self.formatter())
        } else {
            Seq::empty()
        }
    }

    /// A replacer that has seen no key yet.
    pub fn new(dryrun: bool, nohtml: bool) -> (r: Self)
        ensures
            r.wf(),
            r.citations@ == Seq::<Seq<char>>::empty(),
            r.dryrun == dryrun,
            r.nohtml == nohtml,
    {
        CitationReplacer { citations: Registry::new(), dryrun, nohtml }
    }

    /// Handles one citation: looks its keys up from left to right, each new key
    /// getting the next number, and appends the token to `dst`. Gives back the
    /// citation's trace line if the scan is traced.
    pub fn replace_append(&mut self, m: &Match, dst: &mut String) -> (line: Option<TraceLine>)
        requires
            old(self).wf(),
        ensures
            final(self).wf(),
            final(self).dryrun == old(self).dryrun,
            final(self).nohtml == old(self).nohtml,
            final(self).citations@ == register_all(old(self).citations@, keys_of(m@)),
            final(dst)@ == old(dst)@ + replacement(
                final(self).citations@,
                m@,
                old(self).formatter(),
            ),
            match line {
                Some(l) => old(self).dryrun && l@ == trace_of(
                    final(self).citations@,
                    m@,
                    old(self).formatter(),
                ),
                None => !old(self).dryrun,
            },
    {
        let formatter = Formatter::select(self.nohtml);
        let ghost start = self.citations@;
        let ghost ks = keys_of(m@);
        let token = match m.form {
            Form::Bare => {
                let key = without_first(m.raw.as_str());
                proof {
                    lemma_register_all_one(start, key@);
                }
                let index = self.citations.resolve(key);
                formatter.render_bare(index)
            },
            Form::List => {
                let mut indices: Vec<usize> = Vec::new();
                let mut i: usize = 0;
                while i < m.subkeys.len()
                    invariant
                        i <= m.subkeys@.len(),
                        ks == keys_of(m@),
                        m.form == Form::List,
                        self.wf(),
                        self.dryrun == old(self).dryrun,
                        self.nohtml == old(self).nohtml,
                        self.citations@ == register_all(start, ks.take(i as int)),
                        indices@.len() == i,
                        forall|j: int|
                            0 <= j < i ==> indices@[j] > 0 && indices@[j] == number_of(
                                self.citations@,
                                ks[j],
                            ),
                    decreases m.subkeys@.len() - i,
                {
                    let key = without_first(trim(m.subkeys[i].as_str()));
                    let ghost before = self.citations@;
                    proof {
                        assert(ks.take(i + 1) =~= ks.take(i as int) + seq![key@]);
                        lemma_register_all_concat(start, ks.take(i as int), seq![key@]);
                        lemma_register_all_one(before, key@);
                        lemma_register(before, key@);
                    }
                    let index = self.citations.resolve(key);
                    indices.push(index);
                    i += 1;
                }
                proof {
                    assert(ks.take(i as int) =~= ks);
                    assert(indices@.map_values(|i: usize| i as nat) =~= numbers_of(
                        self.citations@,
                        ks,
                    ));
                }
                formatter.render_list(&indices)
            },
        };
        dst.append(token.as_str());
        if self.dryrun {
            Some(TraceLine { start: m.start, raw: m.raw.clone(), replacement: token })
        } else {
            None
        }
    }

    /// Scans `text` from left to right in one pass: each citation is handled in
    /// turn, and what stands between citations is copied.
    pub fn replace_all(&mut self, text: &str) -> (r: Rewritten)
        requires
            old(self).wf(),
        ensures
            final(self).wf(),
            final(self).dryrun == old(self).dryrun,
            final(self).nohtml == old(self).nohtml,
            final(self).citations@ == old(self).scanned_keys(text@),
            r.text@ == old(self).scanned_text(text@),
            trace_views(r.trace@) == old(self).scanned_trace(text@),
    {
        let chars = chars_of(text);
        let _total: usize = byte_count(text);
        let ghost s = text@;
        let ghost f = self.formatter();
        let ghost last = keys_after(self.citations@, s);
        let ghost seen: Seq<MatchView> = Seq::empty();
        let mut out = String::new();
        let mut trace: Vec<TraceLine> = Vec::new();
        let mut i: usize = 0;
        let mut offset: usize = 0;
        while i < chars.len()
            invariant
                s == chars@,
                i <= chars.len(),
                offset == byte_offset(s, i as int),
                encode_utf8(s).len() <= usize::MAX,
                self.wf(),
                self.dryrun == old(self).dryrun,
                self.nohtml == old(self).nohtml,
                f == old(self).formatter(),
                register_all(self.citations@, occurrences(matches_from(s, i as int))) == last,
                seen + matches_from(s, i as int) == matches_of(s),
                out@ + rewritten_from(s, i as int, last, f) == rewritten(s, last, f),
                trace_views(trace@) == (if self.dryrun {
                    traces_of(last, seen, f)
                } else {
                    Seq::empty()
                }),
            decreases chars.len() - i,
        {
            match find_from(&chars, i, offset) {
                Some((m, next)) => {
                    let ghost before = self.citations@;
                    let ghost rest = matches_from(s, next as int);
                    let ghost written = out@;
                    proof {
                        lemma_match_at(s, i as int);
                        lemma_byte_offset(s, i as int, next as int);
                        lemma_occurrences_first(m@, rest);
                        lemma_register_all_concat(before, keys_of(m@), occurrences(rest));
                        lemma_register_all(before, keys_of(m@));
                        lemma_replacement_stable(
                            register_all(before, keys_of(m@)),
                            m@,
                            occurrences(rest),
                            f,
                        );
                    }
                    offset = offset + m.raw.as_str().len();
                    if let Some(line) = self.replace_append(&m, &mut out) {
                        trace.push(line);
                    }
                    proof {
                        assert(traces_of(last, seen.push(m@), f) =~= traces_of(last, seen, f).push(
                            trace_of(last, m@, f),
                        ));
                        assert(out@ + rewritten_from(s, next as int, last, f) =~= written + (
                        replacement(last, m@, f) + rewritten_from(s, next as int, last, f)));
                        seen = seen.push(m@);
                    }
                    i = next;
                },
                None => {
                    let c = chars[i];
                    let w = utf8_width(c);
                    let ghost written = out@;
                    proof {
                        lemma_byte_offset(s, i as int, i + 1);
                        lemma_encode_one(c);
                        assert(s.subrange(i as int, i + 1) =~= seq![c]);
                    }
                    offset += w;
                    out.push(c);
                    proof {
                        assert(out@ + rewritten_from(s, i + 1, last, f) =~= written + (seq![c]
                            + rewritten_from(s, i + 1, last, f)));
                    }
                    i += 1;
                },
            }
        }
        Rewritten { text: out, trace }
    }
}

/// What a scan of a whole text gives: the new text, the keys in the order in which
/// they were first seen, and the trace.
#[derive(Debug)]
pub struct Renumbered {
    /// The text with each citation replaced by its token.
    pub text: String,
    /// The keys that the text cites, each once, in the order in which they are first
    /// seen; the key at place `i` has the number `i + 1`.
    pub keys: Vec<String>,
    /// One line for each citation, from left to right; empty unless the scan is traced.
    pub trace: Vec<TraceLine>,
}

/// The style of the references for the given choice.
pub open spec fn style(rich_mode: bool) -> Formatter {
    if rich_mode {
        Formatter::Rich
    } else {
        Formatter::Plain
    }
}

/// Scans `text` once, beginning without keys. References are anchors if `rich_mode`
/// and plain numbers otherwise; `trace_mode` asks for a trace line for each citation
/// and changes nothing else.
pub fn renumber(text: &str, rich_mode: bool, trace_mode: bool) -> (r: Renumbered)
    ensures
        views(r.keys@) == keys_after(Seq::empty(), text@),
        r.text@ == rewritten(text@, views(r.keys@), style(rich_mode)),
        trace_views(r.trace@) == (if trace_mode {
            traces_of(views(r.keys@), matches_of(text@), style(rich_mode))
        } else {
            Seq::empty()
        }),
{
    let mut replacer = CitationReplacer::new(trace_mode, !rich_mode);
    let done = replacer.replace_all(text);
    Renumbered { text: done.text, keys: replacer.citations.keys, trace: done.trace }
}

/// Every key that a citation names stands among all the keys that the citations
/// name. Gives the place.
pub proof fn lemma_occurrence_place(ms: Seq<MatchView>, a: int, i: int) -> (k: int)
    requires
        0 <= a < ms.len(),
        0 <= i < keys_of(ms[a]).len(),
    ensures
        0 <= k < occurrences(ms).len(),
        occurrences(ms)[k] == keys_of(ms[a])[i],
    decreases ms.len(),
{
    if a == 0 {
        i
    } else {
        let k = lemma_occurrence_place(ms.drop_first(), a - 1, i);
        keys_of(ms[0]).len() + k
    }
}

/// Wherever a key is cited in a text, alone or in a group, the token shows the same
/// number for it: the one that the key was given when it was first looked up.
pub proof fn law_one_number_per_key(
    before: Seq<Seq<char>>,
    s: Seq<char>,
    a: int,
    i: int,
    b: int,
    j: int,
)
    requires
        distinct(before),
        0 <= a < matches_of(s).len(),
        0 <= i < keys_of(matches_of(s)[a]).len(),
        0 <= b < matches_of(s).len(),
        0 <= j < keys_of(matches_of(s)[b]).len(),
        keys_of(matches_of(s)[a])[i] == keys_of(matches_of(s)[b])[j],
    ensures
        ({
            let keys = keys_after(before, s);
            let first = numbers_of(keys, keys_of(matches_of(s)[a]))[i];
            let second = numbers_of(keys, keys_of(matches_of(s)[b]))[j];
            &&& first == second
            &&& 1 <= first <= keys.len()
            &&& keys[first - 1] == keys_of(matches_of(s)[a])[i]
        }),
{
    let ms = matches_of(s);
    lemma_occurrence_place(ms, a, i);
    lemma_register_all(before, occurrences(ms));
    lemma_number_of(keys_after(before, s), keys_of(ms[a])[i]);
}

/// After a scan that began without keys, the keys are those that the text cites,
/// each once; their numbers are 1, 2, 3 and so on without a gap; and a key that is
/// first cited earlier in the text has the smaller number.
pub proof fn law_scan_numbers_by_first_appearance(s: Seq<char>)
    ensures
        ({
            let cited = occurrences(matches_of(s));
            let keys = keys_after(Seq::empty(), s);
            &&& distinct(keys)
            &&& forall|k: Seq<char>| keys.contains(k) <==> cited.contains(k)
            &&& forall|i: int| 0 <= i < keys.len() ==> number_of(keys, #[trigger] keys[i]) == i + 1
            &&& forall|i: int, j: int|
                0 <= i < j < keys.len() ==> first_place(cited, #[trigger] keys[i]) < first_place(
                    cited,
                    #[trigger] keys[j],
                )
        }),
{
    law_numbers_follow_first_appearance(occurrences(matches_of(s)));
}

/// Every key among all the keys that the citations name is named by one of the
/// citations. Gives the citation and the place of the key in it.
pub proof fn lemma_occurrence_source(ms: Seq<MatchView>, k: int) -> (source: (int, int))
    requires
        0 <= k < occurrences(ms).len(),
    ensures
        0 <= source.0 < ms.len(),
        0 <= source.1 < keys_of(ms[source.0]).len(),
        keys_of(ms[source.0])[source.1] == occurrences(ms)[k],
    decreases ms.len(),
{
    if k < keys_of(ms[0]).len() {
        (0, k)
    } else {
        let (a, i) = lemma_occurrence_source(ms.drop_first(), k - keys_of(ms[0]).len());
        (a + 1, i)
    }
}

/// Every key that a scan records, beginning without keys, is a key: not empty,
/// letters and digits only.
pub proof fn law_recorded_keys_are_keys(s: Seq<char>)
    ensures
        forall|i: int|
            0 <= i < keys_after(Seq::empty(), s).len() ==> is_key(
                #[trigger] keys_after(Seq::empty(), s)[i],
            ),
{
    let ms = matches_of(s);
    let keys = keys_after(Seq::empty(), s);
    lemma_register_all_members(Seq::empty(), occurrences(ms));
    assert forall|i: int| 0 <= i < keys.len() implies is_key(#[trigger] keys[i]) by {
        assert(keys.contains(keys[i]));
        assert(occurrences(ms).contains(keys[i]));
        let k = choose|k: int| 0 <= k < occurrences(ms).len() && occurrences(ms)[k] == keys[i];
        let (a, j) = lemma_occurrence_source(ms, k);
        let p = lemma_match_place(s, 0, a);
        lemma_match_shape(s, p);
    }
}

/// Whether a scan is traced changes neither the text that it gives nor the keys and
/// their numbers.
pub proof fn law_trace_changes_nothing(
    traced: CitationReplacer,
    silent: CitationReplacer,
    s: Seq<char>,
)
    requires
        traced.dryrun,
        !silent.dryrun,
        traced.nohtml == silent.nohtml,
        traced.citations@ == silent.citations@,
    ensures
        traced.scanned_text(s) == silent.scanned_text(s),
        traced.scanned_keys(s) == silent.scanned_keys(s),
        forall|key: Seq<char>|
            number_of(traced.scanned_keys(s), key) == number_of(silent.scanned_keys(s), key),
{
}

/// Two scans of one text that both begin without keys give the same keys with the
/// same numbers, and the same text if they write the references in the same style.
pub proof fn law_rescan_gives_same(first: CitationReplacer, second: CitationReplacer, s: Seq<char>)
    requires
        first.citations@.len() == 0,
        second.citations@.len() == 0,
    ensures
        first.scanned_keys(s) == second.scanned_keys(s),
        forall|key: Seq<char>|
            number_of(first.scanned_keys(s), key) == number_of(second.scanned_keys(s), key),
        first.nohtml == second.nohtml ==> first.scanned_text(s) == second.scanned_text(s),
{
    assert(first.citations@ =~= second.citations@);
}

} // verus!
