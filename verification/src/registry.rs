//! The registry of citation keys: each key gets, when it is first seen, the next
//! footnote number, and keeps it.

use vstd::prelude::*;
use vstd::string::StringExecFns;
use crate::text::views;

verus! {

/// No key stands twice in `keys`.
pub open spec fn distinct(keys: Seq<Seq<char>>) -> bool {
    forall|i: int, j: int| 0 <= i < j < keys.len() ==> keys[i] != keys[j]
}

/// The number under which `key` stands in `keys`: its place counted from 1, and 0
/// if it is not there.
pub open spec fn number_of(keys: Seq<Seq<char>>, key: Seq<char>) -> nat
    decreases keys.len(),
{
    if keys.len() == 0 {
        0
    } else if keys.last() == key {
        keys.len()
    } else {
        number_of(keys.drop_last(), key)
    }
}

/// `keys` after `key` was looked up: unchanged if it was there, else with `key` added
/// at the end.
pub open spec fn register(keys: Seq<Seq<char>>, key: Seq<char>) -> Seq<Seq<char>> {
    if number_of(keys, key) > 0 {
        keys
    } else {
        keys.push(key)
    }
}

/// `keys` after each of `more` was looked up, from left to right.
pub open spec fn register_all(keys: Seq<Seq<char>>, more: Seq<Seq<char>>) -> Seq<Seq<char>>
    decreases more.len(),
{
    if more.len() == 0 {
        keys
    } else {
        register_all(register(keys, more[0]), more.drop_first())
    }
}

/// The numbers of `wanted` in `keys`, in the order of `wanted`.
pub open spec fn numbers_of(keys: Seq<Seq<char>>, wanted: Seq<Seq<char>>) -> Seq<nat> {
    Seq::new(wanted.len(), |i: int| number_of(keys, wanted[i]))
}

/// A number other than 0 is the place of the key, and 0 means that it is absent.
pub proof fn lemma_number_of(keys: Seq<Seq<char>>, key: Seq<char>)
    ensures
        number_of(keys, key) <= keys.len(),
        number_of(keys, key) > 0 ==> keys[number_of(keys, key) - 1] == key,
        number_of(keys, key) == 0 <==> !keys.contains(key),
    decreases keys.len(),
{
    if keys.len() > 0 {
        if keys.last() == key {
        } else {
            lemma_number_of(keys.drop_last(), key);
            if keys.contains(key) {
                let i = choose|i: int| 0 <= i < keys.len() && keys[i] == key;
                assert(keys.drop_last()[i] == key);
            }
        }
    }
}

/// Among distinct keys, the key at place `i` has the number `i + 1`.
pub proof fn lemma_number_at(keys: Seq<Seq<char>>, i: int)
    requires
        distinct(keys),
        0 <= i < keys.len(),
    ensures
        number_of(keys, keys[i]) == i + 1,
    decreases keys.len(),
{
    if i < keys.len() - 1 {
        lemma_number_at(keys.drop_last(), i);
    }
}

/// Looking a key up keeps the keys distinct, keeps every number that was given,
/// and gives the key a number.
pub proof fn lemma_register(keys: Seq<Seq<char>>, key: Seq<char>)
    requires
        distinct(keys),
    ensures
        distinct(register(keys, key)),
        number_of(register(keys, key), key) > 0,
        keys.len() <= register(keys, key).len() <= keys.len() + 1,
        register(keys, key).take(keys.len() as int) == keys,
        forall|k: Seq<char>| number_of(keys, k) > 0 ==> number_of(register(keys, key), k)
            == number_of(keys, k),
{
    lemma_number_of(keys, key);
    let after = register(keys, key);
    if number_of(keys, key) == 0 {
        assert(after.drop_last() =~= keys);
        assert forall|k: Seq<char>| number_of(keys, k) > 0 implies number_of(after, k)
            == number_of(keys, k) by {
            lemma_number_of(keys, k);
        }
    }
}

/// Looking several keys up keeps the keys distinct, keeps every number that was
/// given, and only adds at the end.
pub proof fn lemma_register_all(keys: Seq<Seq<char>>, more: Seq<Seq<char>>)
    requires
        distinct(keys),
    ensures
        distinct(register_all(keys, more)),
        keys.len() <= register_all(keys, more).len(),
        register_all(keys, more).take(keys.len() as int) == keys,
        forall|k: Seq<char>| number_of(keys, k) > 0 ==> number_of(register_all(keys, more), k)
            == number_of(keys, k),
        forall|i: int| 0 <= i < more.len() ==> number_of(register_all(keys, more), more[i]) > 0,
    decreases more.len(),
{
    if more.len() > 0 {
        let next = register(keys, more[0]);
        lemma_register(keys, more[0]);
        lemma_register_all(next, more.drop_first());
        let last = register_all(keys, more);
        assert(last.take(keys.len() as int) =~= last.take(next.len() as int).take(
            keys.len() as int,
        ));
        assert forall|i: int| 0 <= i < more.len() implies number_of(last, more[i]) > 0 by {
            if i > 0 {
                assert(more.drop_first()[i - 1] == more[i]);
            }
        }
    }
}

/// Looking up `a` and then `b` is looking up `a + b`.
pub proof fn lemma_register_all_concat(
    keys: Seq<Seq<char>>,
    a: Seq<Seq<char>>,
    b: Seq<Seq<char>>,
)
    ensures
        register_all(keys, a + b) == register_all(register_all(keys, a), b),
    decreases a.len(),
{
    if a.len() > 0 {
        assert((a + b).drop_first() =~= a.drop_first() + b);
        lemma_register_all_concat(register(keys, a[0]), a.drop_first(), b);
    }
}

/// A key is among the keys after a lookup of `more` exactly if it was there before
/// or is one of `more`.
pub proof fn lemma_register_all_members(keys: Seq<Seq<char>>, more: Seq<Seq<char>>)
    ensures
        forall|k: Seq<char>|
            register_all(keys, more).contains(k) <==> keys.contains(k) || more.contains(k),
    decreases more.len(),
{
    let last = register_all(keys, more);
    if more.len() > 0 {
        let next = register(keys, more[0]);
        lemma_register_all_members(next, more.drop_first());
        lemma_number_of(keys, more[0]);
        assert forall|k: Seq<char>| last.contains(k) <==> keys.contains(k) || more.contains(
            k,
        ) by {
            if next.contains(k) {
                let i = choose|i: int| 0 <= i < next.len() && next[i] == k;
                if i < keys.len() {
                    assert(keys[i] == k);
                } else {
                    assert(more[0] == k);
                }
            }
            if keys.contains(k) {
                let i = choose|i: int| 0 <= i < keys.len() && keys[i] == k;
                assert(next[i] == k);
            }
            if more.contains(k) {
                let i = choose|i: int| 0 <= i < more.len() && more[i] == k;
                if i == 0 {
                    if number_of(keys, k) == 0 {
                        assert(next[keys.len() as int] == k);
                    }
                } else {
                    assert(more.drop_first()[i - 1] == k);
                }
            }
            if more.drop_first().contains(k) {
                let i = choose|i: int| 0 <= i < more.drop_first().len() && more.drop_first()[i] == k;
                assert(more[i + 1] == k);
            }
        }
    }
}

/// The place at which `key` first stands in `occurrences`; their length if it does
/// not stand there.
pub open spec fn first_place(occurrences: Seq<Seq<char>>, key: Seq<char>) -> int
    decreases occurrences.len(),
{
    if occurrences.len() == 0 {
        0
    } else if occurrences[0] == key {
        0
    } else {
        1 + first_place(occurrences.drop_first(), key)
    }
}

/// The number that the lookup of the occurrence at place `k` gives when the keys of
/// `occurrences` are looked up from left to right, beginning with the keys `before`.
pub open spec fn number_given(before: Seq<Seq<char>>, occurrences: Seq<Seq<char>>, k: int) -> nat {
    number_of(register_all(before, occurrences.take(k + 1)), occurrences[k])
}

/// The number that a lookup gives is the number that the key has in the end.
pub proof fn lemma_number_given(before: Seq<Seq<char>>, occurrences: Seq<Seq<char>>, k: int)
    requires
        distinct(before),
        0 <= k < occurrences.len(),
    ensures
        number_given(before, occurrences, k) > 0,
        number_given(before, occurrences, k) == number_of(
            register_all(before, occurrences),
            occurrences[k],
        ),
{
    let head = occurrences.take(k + 1);
    let rest = occurrences.skip(k + 1);
    assert(occurrences =~= head + rest);
    lemma_register_all_concat(before, head, rest);
    lemma_register_all(before, head);
    lemma_register_all(register_all(before, head), rest);
}

/// Every occurrence of a key is given the same number, whatever was looked up in
/// between.
pub proof fn law_same_key_same_number(
    before: Seq<Seq<char>>,
    occurrences: Seq<Seq<char>>,
    a: int,
    b: int,
)
    requires
        distinct(before),
        0 <= a < occurrences.len(),
        0 <= b < occurrences.len(),
        occurrences[a] == occurrences[b],
    ensures
        number_given(before, occurrences, a) == number_given(before, occurrences, b),
        number_given(before, occurrences, a) > 0,
{
    lemma_number_given(before, occurrences, a);
    lemma_number_given(before, occurrences, b);
}

/// The keys that a lookup of `occurrences` adds stand in the order in which they
/// first stand in `occurrences`.
pub proof fn lemma_added_in_order(before: Seq<Seq<char>>, occurrences: Seq<Seq<char>>)
    requires
        distinct(before),
    ensures
        ({
            let keys = register_all(before, occurrences);
            &&& forall|j: int|
                before.len() <= j < keys.len() ==> 0 <= first_place(occurrences, #[trigger] keys[j])
                    < occurrences.len()
            &&& forall|i: int, j: int|
                before.len() <= i < j < keys.len() ==> first_place(occurrences, #[trigger] keys[i])
                    < first_place(occurrences, #[trigger] keys[j])
        }),
    decreases occurrences.len(),
{
    let keys = register_all(before, occurrences);
    if occurrences.len() > 0 {
        let first = occurrences[0];
        let rest = occurrences.drop_first();
        let next = register(before, first);
        lemma_register(before, first);
        lemma_register_all(next, rest);
        lemma_added_in_order(next, rest);
        lemma_number_of(before, first);
        lemma_number_of(next, first);
    }
}

/// After a lookup of `occurrences` that began without keys, the keys are those that
/// stand in `occurrences`, each once; their numbers are 1, 2, 3 and so on without a
/// gap; and a key that first stands earlier has the smaller number.
pub proof fn law_numbers_follow_first_appearance(occurrences: Seq<Seq<char>>)
    ensures
        ({
            let keys = register_all(Seq::empty(), occurrences);
            &&& distinct(keys)
            &&& forall|k: Seq<char>| keys.contains(k) <==> occurrences.contains(k)
            &&& forall|i: int| 0 <= i < keys.len() ==> number_of(keys, #[trigger] keys[i]) == i + 1
            &&& forall|i: int, j: int|
                0 <= i < j < keys.len() ==> first_place(occurrences, #[trigger] keys[i])
                    < first_place(occurrences, #[trigger] keys[j])
        }),
{
    let none = Seq::<Seq<char>>::empty();
    let keys = register_all(none, occurrences);
    lemma_register_all(none, occurrences);
    lemma_register_all_members(none, occurrences);
    lemma_added_in_order(none, occurrences);
    assert forall|i: int| 0 <= i < keys.len() implies number_of(keys, #[trigger] keys[i]) == i
        + 1 by {
        lemma_number_at(keys, i);
    }
}

/// The citation keys seen so far, in the order in which they were first seen.
pub struct Registry {
    /// The keys; the key at place `i` has the number `i + 1`.
    pub keys: Vec<String>,
}

impl View for Registry {
    type V = Seq<Seq<char>>;

    open spec fn view(&self) -> Seq<Seq<char>> {
        views(self.keys@)
    }
}

impl Registry {
    /// No key is held twice.
    pub open spec fn wf(&self) -> bool {
        distinct(self@)
    }

    /// A registry without keys.
    pub fn new() -> (r: Registry)
        ensures
            r.wf(),
            r@ == Seq::<Seq<char>>::empty(),
    {
        let r = Registry { keys: Vec::new() };
        r
    }

    /// How many keys are held; this is also the highest number given.
    pub fn len(&self) -> (n: usize)
        ensures
            n == self@.len(),
    {
        self.keys.len()
    }

    /// The number of `key`, if it has one.
    pub fn lookup(&self, key: &str) -> (found: Option<usize>)
        ensures
            match found {
                Some(n) => n > 0 && n == number_of(self@, key@),
                None => number_of(self@, key@) == 0,
            },
    {
        let wanted = String::from_str(key);
        let mut i: usize = self.keys.len();
        proof {
            assert(self@.take(i as int) =~= self@);
        }
        while i > 0
            invariant
                i <= self.keys@.len(),
                wanted@ == key@,
                number_of(self@, key@) == number_of(self@.take(i as int), key@),
            decreases i,
        {
            proof {
                assert(self@.take(i as int).drop_last() =~= self@.take(i - 1));
            }
            if self.keys[i - 1] == wanted {
                return Some(i);
            }
            i -= 1;
        }
        None
    }

    /// The number of `key`: the one it has, or else the next free one, which it
    /// then keeps.
    pub fn resolve(&mut self, key: &str) -> (index: usize)
        requires
            old(self).wf(),
        ensures
            final(self).wf(),
            final(self)@ == register(old(self)@, key@),
            index == number_of(final(self)@, key@),
            index > 0,
    {
        proof {
            lemma_register(self@, key@);
        }
        match self.lookup(key) {
            Some(n) => n,
            None => {
                let ghost before = self@;
                self.keys.push(String::from_str(key));
                proof {
                    assert(self@ =~= before.push(key@));
                }
                self.keys.len()
            },
        }
    }
}

} // verus!
