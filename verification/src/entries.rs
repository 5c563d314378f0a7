//! A map from text keys to values, kept in the order of its keys.
//!
//! Keys are ordered as `String`s are: byte by byte, a prefix before what it
//! is a prefix of.

use vstd::prelude::*;
use vstd::string::StringSliceAdditionalSpecFns;
use vstd::utf8::encode_utf8;

verus! {

/// `left` comes before `right` in the order of keys.
pub open spec fn precedes(left: Seq<u8>, right: Seq<u8>) -> bool {
    exists|at: int| differ_at(left, right, at)
}

/// `left` and `right` agree on their first `at` bytes, and there `left`
/// ends before `right` does, or has the smaller byte.
pub open spec fn differ_at(left: Seq<u8>, right: Seq<u8>, at: int) -> bool {
    &&& 0 <= at <= left.len()
    &&& at < right.len()
    &&& left.take(at) == right.take(at)
    &&& at < left.len() ==> left[at] < right[at]
}

/// Of two keys one comes before the other, or they are the same key; never
/// two of these at once.
pub proof fn lemma_keys_compare(left: Seq<u8>, right: Seq<u8>)
    ensures
        precedes(left, right) || left == right || precedes(right, left),
        !(precedes(left, right) && left == right),
        !(precedes(left, right) && precedes(right, left)),
{
    let common = common_length(left, right, 0);
    assert(left.take(0) =~= right.take(0));
    lemma_common_length(left, right, 0);
    if common == left.len() && common == right.len() {
        assert(left.take(common) =~= left);
        assert(right.take(common) =~= right);
    } else if common == left.len() {
        assert(differ_at(left, right, common));
    } else if common == right.len() {
        assert(differ_at(right, left, common));
    } else if left[common] < right[common] {
        assert(differ_at(left, right, common));
    } else {
        assert(differ_at(right, left, common));
    }
    if precedes(left, right) {
        let at = choose|at: int| differ_at(left, right, at);
        lemma_differ_at_is_common(left, right, at);
        if precedes(right, left) {
            let back = choose|back: int| differ_at(right, left, back);
            lemma_differ_at_is_common(right, left, back);
            lemma_common_symmetric(left, right, 0);
        }
    }
}

/// How many bytes `left` and `right` have in common from `from` on, added
/// to `from`.
pub open spec fn common_length(left: Seq<u8>, right: Seq<u8>, from: int) -> int
    decreases left.len() - from,
{
    if from < 0 || from >= left.len() || from >= right.len() || left[from] != right[from] {
        from
    } else {
        common_length(left, right, from + 1)
    }
}

proof fn lemma_common_length(left: Seq<u8>, right: Seq<u8>, from: int)
    requires
        0 <= from <= left.len(),
        from <= right.len(),
        left.take(from) == right.take(from),
    ensures
        from <= common_length(left, right, from) <= left.len(),
        common_length(left, right, from) <= right.len(),
        left.take(common_length(left, right, from)) == right.take(
            common_length(left, right, from),
        ),
        common_length(left, right, from) < left.len() && common_length(left, right, from)
            < right.len() ==> left[common_length(left, right, from)] != right[common_length(
            left,
            right,
            from,
        )],
    decreases left.len() - from,
{
    if from < left.len() && from < right.len() && left[from] == right[from] {
        assert(left.take(from + 1) =~= left.take(from).push(left[from]));
        assert(right.take(from + 1) =~= right.take(from).push(right[from]));
        lemma_common_length(left, right, from + 1);
    }
}

proof fn lemma_common_symmetric(left: Seq<u8>, right: Seq<u8>, from: int)
    ensures
        common_length(left, right, from) == common_length(right, left, from),
    decreases left.len() - from,
{
    if !(from < 0 || from >= left.len() || from >= right.len() || left[from] != right[from]) {
        lemma_common_symmetric(left, right, from + 1);
    }
}

proof fn lemma_differ_at_is_common(left: Seq<u8>, right: Seq<u8>, at: int)
    requires
        differ_at(left, right, at),
    ensures
        common_length(left, right, 0) == at,
        left != right,
{
    lemma_common_from(left, right, at, 0);
    if left == right {
        assert(at < left.len());
    }
}

proof fn lemma_common_from(left: Seq<u8>, right: Seq<u8>, at: int, from: int)
    requires
        differ_at(left, right, at),
        0 <= from <= at,
    ensures
        common_length(left, right, from) == at,
    decreases at - from,
{
    if from < at {
        assert(left[from] == left.take(at)[from]);
        assert(right[from] == right.take(at)[from]);
        lemma_common_from(left, right, at, from + 1);
    }
}

/// The order of keys is transitive.
pub proof fn lemma_keys_transitive(first: Seq<u8>, second: Seq<u8>, third: Seq<u8>)
    requires
        precedes(first, second),
        precedes(second, third),
    ensures
        precedes(first, third),
{
    let a = choose|a: int| differ_at(first, second, a);
    let b = choose|b: int| differ_at(second, third, b);
    let at = if a <= b {
        a
    } else {
        b
    };
    assert(first.take(at) =~= first.take(a).take(at));
    assert(second.take(at) =~= second.take(a).take(at));
    assert(second.take(at) =~= second.take(b).take(at));
    assert(third.take(at) =~= third.take(b).take(at));
    if a < b {
        assert(second[a] == second.take(b)[a]);
        assert(third[a] == third.take(b)[a]);
    }
    if b < a {
        assert(first[b] == first.take(a)[b]);
        assert(second[b] == second.take(a)[b]);
    }
    assert(differ_at(first, third, at));
}

/// How two keys compare.
#[derive(Debug, Clone, Copy, PartialEq, Eq, Structural)]
pub enum Place {
    Before,
    Same,
    After,
}

/// How `left` compares to `right` in the order of keys.
pub fn compare_keys(left: &str, right: &str) -> (place: Place)
    ensures
        place == Place::Before <==> precedes(left.spec_bytes(), right.spec_bytes()),
        place == Place::Same <==> left.spec_bytes() == right.spec_bytes(),
        place == Place::After <==> precedes(right.spec_bytes(), left.spec_bytes()),
{
    let a = left.as_bytes();
    let b = right.as_bytes();
    let mut at: usize = 0;
    proof {
        lemma_keys_compare(a@, b@);
        assert(a@.take(0) =~= b@.take(0));
    }
    while at < a.len() && at < b.len() && a[at] == b[at]
        invariant
            at <= a.len(),
            at <= b.len(),
            a@.take(at as int) == b@.take(at as int),
        decreases a.len() - at,
    {
        proof {
            assert(a@.take(at + 1) =~= a@.take(at as int).push(a@[at as int]));
            assert(b@.take(at + 1) =~= b@.take(at as int).push(b@[at as int]));
        }
        at = at + 1;
    }
    if at == a.len() && at == b.len() {
        assert(a@.take(at as int) =~= a@);
        assert(b@.take(at as int) =~= b@);
        Place::Same
    } else if at == a.len() {
        assert(differ_at(a@, b@, at as int));
        Place::Before
    } else if at == b.len() {
        assert(differ_at(b@, a@, at as int));
        Place::After
    } else if a[at] < b[at] {
        assert(differ_at(a@, b@, at as int));
        Place::Before
    } else {
        assert(differ_at(b@, a@, at as int));
        Place::After
    }
}

/// The keys of `entries` stand in ascending order, none twice.
pub open spec fn ascending<V>(entries: Seq<(Seq<u8>, V)>) -> bool {
    forall|i: int, j: int|
        0 <= i < j < entries.len() ==> precedes(#[trigger] entries[i].0, #[trigger] entries[j].0)
}

/// `entries` with `value` under `key`: in the place of the entry that had
/// the key, or where the order of keys puts it.
pub open spec fn inserted<V>(entries: Seq<(Seq<u8>, V)>, key: Seq<u8>, value: V) -> Seq<
    (Seq<u8>, V),
>
    decreases entries.len(),
{
    if entries.len() == 0 {
        seq![(key, value)]
    } else if entries[0].0 == key {
        seq![(key, value)] + entries.drop_first()
    } else if precedes(key, entries[0].0) {
        seq![(key, value)] + entries
    } else {
        seq![entries[0]] + inserted(entries.drop_first(), key, value)
    }
}

/// The value that `entries` hold under `key`.
pub open spec fn lookup<V>(entries: Seq<(Seq<u8>, V)>, key: Seq<u8>) -> Option<V>
    decreases entries.len(),
{
    if entries.len() == 0 {
        None
    } else if entries[0].0 == key {
        Some(entries[0].1)
    } else {
        lookup(entries.drop_first(), key)
    }
}

/// Where `key` belongs among `entries`: behind the `at` entries whose keys
/// come before it.
pub open spec fn belongs_at<V>(entries: Seq<(Seq<u8>, V)>, key: Seq<u8>, at: int) -> bool {
    &&& 0 <= at <= entries.len()
    &&& forall|i: int| 0 <= i < at ==> precedes(#[trigger] entries[i].0, key)
    &&& at < entries.len() ==> !precedes(entries[at].0, key)
}

/// What `inserted` and `lookup` give, told by the place where the key
/// belongs.
pub proof fn lemma_place<V>(entries: Seq<(Seq<u8>, V)>, key: Seq<u8>, value: V, at: int)
    requires
        ascending(entries),
        belongs_at(entries, key, at),
    ensures
        at < entries.len() && entries[at].0 == key ==> {
            &&& inserted(entries, key, value) == entries.update(at, (key, value))
            &&& lookup(entries, key) == Some(entries[at].1)
        },
        !(at < entries.len() && entries[at].0 == key) ==> {
            &&& inserted(entries, key, value) == entries.take(at) + seq![(key, value)]
                + entries.skip(at)
            &&& lookup(entries, key) is None
        },
        ascending(inserted(entries, key, value)),
    decreases entries.len(),
{
    if entries.len() == 0 {
        assert(entries.take(at) + seq![(key, value)] + entries.skip(at) =~= seq![(key, value)]);
    } else if at == 0 {
        lemma_keys_compare(entries[0].0, key);
        if entries[0].0 == key {
            assert(seq![(key, value)] + entries.drop_first() =~= entries.update(0, (key, value)));
        } else {
            assert(entries.take(0) + seq![(key, value)] + entries.skip(0) =~= seq![(key, value)]
                + entries);
            lemma_lookup_misses(entries, key);
        }
    } else {
        lemma_keys_compare(entries[0].0, key);
        let rest = entries.drop_first();
        assert(ascending(rest)) by {
            assert forall|i: int, j: int| 0 <= i < j < rest.len() implies precedes(
                #[trigger] rest[i].0,
                #[trigger] rest[j].0,
            ) by {
                assert(rest[i] == entries[i + 1]);
                assert(rest[j] == entries[j + 1]);
            }
        }
        assert(belongs_at(rest, key, at - 1)) by {
            assert forall|i: int| 0 <= i < at - 1 implies precedes(#[trigger] rest[i].0, key) by {
                assert(rest[i] == entries[i + 1]);
            }
        }
        lemma_place(rest, key, value, at - 1);
        if at < entries.len() && entries[at].0 == key {
            assert(seq![entries[0]] + rest.update(at - 1, (key, value)) =~= entries.update(
                at,
                (key, value),
            ));
        } else {
            assert(seq![entries[0]] + (rest.take(at - 1) + seq![(key, value)] + rest.skip(at - 1))
                =~= entries.take(at) + seq![(key, value)] + entries.skip(at));
        }
    }
    lemma_inserted_ascending(entries, key, value, at);
}

proof fn lemma_lookup_misses<V>(entries: Seq<(Seq<u8>, V)>, key: Seq<u8>)
    requires
        ascending(entries),
        entries.len() > 0 ==> precedes(key, entries[0].0),
    ensures
        lookup(entries, key) is None,
    decreases entries.len(),
{
    if entries.len() > 0 {
        lemma_keys_compare(key, entries[0].0);
        let rest = entries.drop_first();
        if rest.len() > 0 {
            assert(rest[0] == entries[1]);
            lemma_keys_transitive(key, entries[0].0, entries[1].0);
        }
        assert(ascending(rest)) by {
            assert forall|i: int, j: int| 0 <= i < j < rest.len() implies precedes(
                #[trigger] rest[i].0,
                #[trigger] rest[j].0,
            ) by {
                assert(rest[i] == entries[i + 1]);
                assert(rest[j] == entries[j + 1]);
            }
        }
        lemma_lookup_misses(rest, key);
    }
}

proof fn lemma_inserted_ascending<V>(entries: Seq<(Seq<u8>, V)>, key: Seq<u8>, value: V, at: int)
    requires
        ascending(entries),
        belongs_at(entries, key, at),
    ensures
        ascending(
            if at < entries.len() && entries[at].0 == key {
                entries.update(at, (key, value))
            } else {
                entries.take(at) + seq![(key, value)] + entries.skip(at)
            },
        ),
{
    if at < entries.len() && entries[at].0 == key {
        let after = entries.update(at, (key, value));
        assert forall|i: int, j: int| 0 <= i < j < after.len() implies precedes(
            #[trigger] after[i].0,
            #[trigger] after[j].0,
        ) by {
            assert(after[i].0 == entries[i].0);
            assert(after[j].0 == entries[j].0);
        }
    } else {
        let after = entries.take(at) + seq![(key, value)] + entries.skip(at);
        if at < entries.len() {
            lemma_keys_compare(entries[at].0, key);
        }
        assert forall|i: int, j: int| 0 <= i < j < after.len() implies precedes(
            #[trigger] after[i].0,
            #[trigger] after[j].0,
        ) by {
            if j < at {
                assert(after[i] == entries[i] && after[j] == entries[j]);
            } else if j == at {
                assert(after[i] == entries[i]);
            } else if i == at {
                assert(after[j] == entries[j - 1]);
                if j - 1 > at {
                    lemma_keys_transitive(key, entries[at].0, entries[j - 1].0);
                }
            } else if i < at {
                assert(after[i] == entries[i] && after[j] == entries[j - 1]);
            } else {
                assert(after[i] == entries[i - 1] && after[j] == entries[j - 1]);
            }
        }
    }
}

/// A key that no entry has is looked up in vain, and putting a value under
/// it makes one entry more.
pub proof fn lemma_new_key<V>(entries: Seq<(Seq<u8>, V)>, key: Seq<u8>, value: V)
    requires
        forall|i: int| 0 <= i < entries.len() ==> (#[trigger] entries[i]).0 != key,
    ensures
        lookup(entries, key) is None,
        inserted(entries, key, value).len() == entries.len() + 1,
    decreases entries.len(),
{
    if entries.len() > 0 {
        let rest = entries.drop_first();
        assert forall|i: int| 0 <= i < rest.len() implies (#[trigger] rest[i]).0 != key by {
            assert(rest[i] == entries[i + 1]);
        }
        lemma_new_key(rest, key, value);
        assert(entries[0].0 != key);
    }
}

/// A map from text keys to values, kept in the order of its keys.
pub struct Entries<V> {
    list: Vec<(String, V)>,
}

impl<V> Entries<V> {
    /// The keys stand in ascending order, none twice.
    pub open spec fn well_formed(self) -> bool {
        ascending(self.pairs())
    }

    /// The keys, as UTF-8, and their values, in the order of the keys.
    pub closed spec fn pairs(self) -> Seq<(Seq<u8>, V)> {
        Seq::new(self.list@.len(), |i: int| (encode_utf8(self.list@[i].0@), self.list@[i].1))
    }

    /// A map without entries.
    pub fn new() -> (map: Self)
        ensures
            map.pairs() == Seq::<(Seq<u8>, V)>::empty(),
            map.well_formed(),
    {
        let map = Entries { list: Vec::new() };
        assert(map.pairs() =~= Seq::<(Seq<u8>, V)>::empty());
        map
    }

    /// The number of entries.
    pub fn len(&self) -> (count: usize)
        ensures
            count == self.pairs().len(),
    {
        self.list.len()
    }

    /// The key of the entry at `at`, counted in the order of the keys.
    pub fn key_at(&self, at: usize) -> (key: &str)
        requires
            at < self.pairs().len(),
        ensures
            key.spec_bytes() == self.pairs()[at as int].0,
    {
        self.list[at].0.as_str()
    }

    /// The value of the entry at `at`, counted in the order of the keys.
    pub fn value_at(&self, at: usize) -> (value: &V)
        requires
            at < self.pairs().len(),
        ensures
            *value == self.pairs()[at as int].1,
    {
        &self.list[at].1
    }

    /// Where `key` belongs among the entries.
    fn place(&self, key: &str) -> (at: usize)
        ensures
            belongs_at(self.pairs(), key.spec_bytes(), at as int),
    {
        let mut at: usize = 0;
        while at < self.list.len()
            invariant
                at <= self.list.len(),
                forall|i: int| 0 <= i < at ==> precedes(#[trigger] self.pairs()[i].0, key.spec_bytes()),
            decreases self.list.len() - at,
        {
            match compare_keys(self.list[at].0.as_str(), key) {
                Place::Before => {
                    at = at + 1;
                },
                _ => {
                    return at;
                },
            }
        }
        at
    }

    /// The value under `key`.
    pub fn get(&self, key: &str) -> (value: Option<&V>)
        requires
            self.well_formed(),
        ensures
            match value {
                Some(value) => lookup(self.pairs(), key.spec_bytes()) == Some(*value),
                None => lookup(self.pairs(), key.spec_bytes()) is None,
            },
    {
        let at = self.place(key);
        if at < self.list.len() {
            match compare_keys(self.list[at].0.as_str(), key) {
                Place::Same => {
                    proof {
                        lemma_place(self.pairs(), key.spec_bytes(), self.pairs()[at as int].1, at as int);
                    }
                    return Some(&self.list[at].1);
                },
                _ => {},
            }
        }
        proof {
            if self.pairs().len() > 0 {
                lemma_place(self.pairs(), key.spec_bytes(), self.pairs()[0].1, at as int);
            }
        }
        None
    }

    /// Puts `value` under `key`, in the place of the value that was there.
    pub fn insert(&mut self, key: String, value: V)
        requires
            old(self).well_formed(),
        ensures
            final(self).pairs() == inserted(old(self).pairs(), encode_utf8(key@), value),
            final(self).well_formed(),
    {
        let at = self.place(key.as_str());
        let ghost before = self.pairs();
        proof {
            lemma_place(before, encode_utf8(key@), value, at as int);
        }
        let same = if at < self.list.len() {
            match compare_keys(self.list[at].0.as_str(), key.as_str()) {
                Place::Same => true,
                _ => false,
            }
        } else {
            false
        };
        if same {
            self.list.remove(at);
        }
        self.list.insert(at, (key, value));
        proof {
            if same {
                assert(self.pairs() =~= before.update(at as int, (encode_utf8(key@), value)));
            } else {
                assert(self.pairs() =~= before.take(at as int) + seq![(encode_utf8(key@), value)]
                    + before.skip(at as int));
            }
        }
    }
}

} // verus!
