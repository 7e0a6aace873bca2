use crate::model::{insert_member, key_less, keys_ascend, member_value, replace_member};
use std::collections::BTreeMap;
use vstd::prelude::*;
use vstd::std_specs::cmp::PartialEqSpec;
use vstd::utf8::encode_utf8;

verus! {

/// A mapping from keys to values that is walked in key order.
///
/// The entries are kept in a vector. With `String` keys every operation
/// keeps them in ascending key order, so that no key occurs twice.
#[derive(Debug, Clone)]
pub struct Dict<K, V> {
    pub(crate) entries: Vec<(K, V)>,
}

impl<K, V> View for Dict<K, V> {
    type V = Seq<(K, V)>;

    /// The entries in the order in which they are walked.
    open(crate) spec fn view(&self) -> Seq<(K, V)> {
        self.entries@
    }
}

impl<K, V> Dict<K, V> {
    /// An empty mapping.
    pub fn new() -> (d: Self)
        ensures
            d@ == Seq::<(K, V)>::empty(),
    {
        Dict { entries: Vec::new() }
    }
}

/// The members of a mapping with `String` keys are its entries, each key
/// taken as its UTF-8 bytes.
pub proof fn lemma_members_of_entries<V>(d: Dict<String, V>)
    ensures
        d.members().len() == d@.len(),
        forall|i: int|
            0 <= i < d@.len() ==> #[trigger] d.members()[i] == (encode_utf8(d@[i].0@), d@[i].1),
{
}

/// No key is less than itself.
pub proof fn lemma_key_less_irreflexive(a: Seq<u8>)
    ensures
        !key_less(a, a),
    decreases a.len(),
{
    if a.len() > 0 {
        lemma_key_less_irreflexive(a.skip(1));
    }
}

/// Of two keys at most one is less than the other.
pub proof fn lemma_key_less_asymmetric(a: Seq<u8>, b: Seq<u8>)
    requires
        key_less(a, b),
    ensures
        !key_less(b, a),
    decreases a.len(),
{
    if a.len() > 0 && b.len() > 0 && a[0] == b[0] {
        lemma_key_less_asymmetric(a.skip(1), b.skip(1));
    }
}

/// The order of keys is transitive.
pub proof fn lemma_key_less_transitive(a: Seq<u8>, b: Seq<u8>, c: Seq<u8>)
    requires
        key_less(a, b),
        key_less(b, c),
    ensures
        key_less(a, c),
    decreases a.len(),
{
    if a.len() > 0 && b.len() > 0 && c.len() > 0 && a[0] == b[0] && b[0] == c[0] {
        lemma_key_less_transitive(a.skip(1), b.skip(1), c.skip(1));
    }
}

/// Two keys are equal, or one of them is less than the other.
pub proof fn lemma_key_trichotomy(a: Seq<u8>, b: Seq<u8>)
    ensures
        a == b || key_less(a, b) || key_less(b, a),
    decreases a.len(),
{
    if a.len() == 0 || b.len() == 0 {
        if a.len() == 0 && b.len() == 0 {
            assert(a =~= b);
        }
    } else if a[0] == b[0] {
        lemma_key_trichotomy(a.skip(1), b.skip(1));
        if a.skip(1) == b.skip(1) {
            assert(a =~= seq![a[0]] + a.skip(1));
            assert(b =~= seq![b[0]] + b.skip(1));
        }
    }
}

/// In ascending members every key is less than every later one.
pub proof fn lemma_ascend_all_pairs<V>(members: Seq<(Seq<u8>, V)>, i: int, j: int)
    requires
        keys_ascend(members),
        0 <= i < j < members.len(),
    ensures
        key_less(members[i].0, members[j].0),
    decreases j - i,
{
    assert(key_less(members[j - 1].0, members[j].0));
    if i < j - 1 {
        lemma_ascend_all_pairs(members, i, j - 1);
        lemma_key_less_transitive(members[i].0, members[j - 1].0, members[j].0);
    }
}

/// Keys are unique: in ascending members no key occurs at two positions.
pub proof fn lemma_keys_unique<V>(members: Seq<(Seq<u8>, V)>, i: int, j: int)
    requires
        keys_ascend(members),
        0 <= i < members.len(),
        0 <= j < members.len(),
        i != j,
    ensures
        members[i].0 != members[j].0,
{
    if i < j {
        lemma_ascend_all_pairs(members, i, j);
        lemma_key_less_irreflexive(members[i].0);
    } else {
        lemma_ascend_all_pairs(members, j, i);
        lemma_key_less_irreflexive(members[j].0);
    }
}

/// Insertion and lookup: after `key` has been given `value`, looking `key`
/// up gives `value`, and looking any other key up gives what it gave before.
pub proof fn lemma_lookup_after_insert<V>(
    members: Seq<(Seq<u8>, V)>,
    key: Seq<u8>,
    value: V,
    other: Seq<u8>,
)
    ensures
        member_value(insert_member(members, key, value), other) == if other == key {
            Some(value)
        } else {
            member_value(members, other)
        },
    decreases members.len(),
{
    if members.len() == 0 {
        assert(seq![(key, value)].drop_last() =~= members);
    } else if key_less(key, members.last().0) {
        let shorter = members.drop_last();
        lemma_lookup_after_insert(shorter, key, value, other);
        lemma_key_less_irreflexive(key);
        let grown = insert_member(shorter, key, value).push(members.last());
        assert(grown.drop_last() =~= insert_member(shorter, key, value));
        assert(grown.last() == members.last());
    } else if members.last().0 == key {
        let grown = members.drop_last().push((key, value));
        assert(grown.drop_last() =~= members.drop_last());
    } else {
        let grown = members.push((key, value));
        assert(grown.drop_last() =~= members);
    }
}

/// Where every member from index `i` on has a key greater than `key`, and
/// the member before `i` has not, the insertion touches the members at `i`
/// only: it overwrites the member before `i` if that has the key, and
/// otherwise puts the new member at `i`.
pub proof fn lemma_insert_member_at<V>(members: Seq<(Seq<u8>, V)>, key: Seq<u8>, value: V, i: int)
    requires
        0 <= i <= members.len(),
        forall|j: int| i <= j < members.len() ==> key_less(key, #[trigger] members[j].0),
        i > 0 ==> !key_less(key, members[i - 1].0),
    ensures
        insert_member(members, key, value) == if i > 0 && members[i - 1].0 == key {
            members.update(i - 1, (key, value))
        } else {
            members.insert(i, (key, value))
        },
        member_value(members, key) == member_value(members.take(i), key),
    decreases members.len() - i,
{
    if members.len() == i {
        assert(members.take(i) =~= members);
        if i > 0 {
            if members[i - 1].0 == key {
                assert(members.drop_last().push((key, value)) =~= members.update(
                    i - 1,
                    (key, value),
                ));
            } else {
                assert(members.push((key, value)) =~= members.insert(i, (key, value)));
            }
        } else {
            assert(seq![(key, value)] =~= members.insert(i, (key, value)));
        }
    } else {
        let shorter = members.drop_last();
        lemma_insert_member_at(shorter, key, value, i);
        lemma_key_less_irreflexive(key);
        assert(key_less(key, members[members.len() - 1].0));
        assert(shorter.take(i) =~= members.take(i));
        if i > 0 && members[i - 1].0 == key {
            assert(shorter.update(i - 1, (key, value)).push(members.last()) =~= members.update(
                i - 1,
                (key, value),
            ));
        } else {
            assert(shorter.insert(i, (key, value)).push(members.last()) =~= members.insert(
                i,
                (key, value),
            ));
        }
    }
}

/// Overwriting the value of a member keeps the keys ascending.
pub proof fn lemma_update_keeps_order<V>(members: Seq<(Seq<u8>, V)>, i: int, value: V)
    requires
        keys_ascend(members),
        0 <= i < members.len(),
    ensures
        keys_ascend(members.update(i, (members[i].0, value))),
{
    let after = members.update(i, (members[i].0, value));
    assert forall|a: int, b: int| 0 <= a && b == a + 1 && b < after.len() implies key_less(
        (#[trigger] after[a]).0,
        (#[trigger] after[b]).0,
    ) by {
        assert(key_less(members[a].0, members[b].0));
    }
}

/// A member put between a lesser key and a greater key keeps the keys
/// ascending.
pub proof fn lemma_insert_keeps_order<V>(members: Seq<(Seq<u8>, V)>, i: int, key: Seq<u8>, value: V)
    requires
        keys_ascend(members),
        0 <= i <= members.len(),
        i < members.len() ==> key_less(key, members[i].0),
        i > 0 ==> key_less(members[i - 1].0, key),
    ensures
        keys_ascend(members.insert(i, (key, value))),
{
    let after = members.insert(i, (key, value));
    assert forall|a: int, b: int| 0 <= a && b == a + 1 && b < after.len() implies key_less(
        (#[trigger] after[a]).0,
        (#[trigger] after[b]).0,
    ) by {
        if a < i - 1 {
            assert(key_less(members[a].0, members[b].0));
        } else if a > i {
            assert(key_less(members[a - 1].0, members[b - 1].0));
        }
    }
}

/// In ascending members no key below a member's index is greater than or
/// equal to a key that is greater than that member's.
pub proof fn lemma_no_member_below<V>(members: Seq<(Seq<u8>, V)>, i: int, key: Seq<u8>)
    requires
        keys_ascend(members),
        0 <= i <= members.len(),
        i > 0 ==> key_less(members[i - 1].0, key),
    ensures
        member_value(members.take(i), key).is_none(),
    decreases i,
{
    if i > 0 {
        lemma_key_less_irreflexive(key);
        assert(members.take(i).drop_last() =~= members.take(i - 1));
        if i > 1 {
            assert(key_less(members[i - 2].0, members[i - 1].0));
            lemma_key_less_transitive(members[i - 2].0, members[i - 1].0, key);
        }
        lemma_no_member_below(members, i - 1, key);
    }
}

/// Where the member at index `i` is the last with the key, the replacement
/// changes that member only.
pub proof fn lemma_replace_member_at<V>(members: Seq<(Seq<u8>, V)>, key: Seq<u8>, value: V, i: int)
    requires
        0 <= i < members.len(),
        members[i].0 == key,
        forall|j: int| i < j < members.len() ==> (#[trigger] members[j]).0 != key,
    ensures
        replace_member(members, key, value) == members.update(i, (key, value)),
    decreases members.len(),
{
    if i == members.len() - 1 {
        assert(members.drop_last().push((key, value)) =~= members.update(i, (key, value)));
    } else {
        assert(members[members.len() - 1].0 != key);
        lemma_replace_member_at(members.drop_last(), key, value, i);
        assert(members.drop_last().update(i, (key, value)).push(members.last())
            =~= members.update(i, (key, value)));
    }
}

/// Whether `a` comes before `b` in the order of keys.
pub fn bytes_less(a: &[u8], b: &[u8]) -> (r: bool)
    ensures
        r == key_less(a@, b@),
{
    let mut i: usize = 0;
    proof {
        assert(a@.skip(0) =~= a@);
        assert(b@.skip(0) =~= b@);
    }
    while i < a.len() && i < b.len() && a[i] == b[i]
        invariant
            i <= a@.len(),
            i <= b@.len(),
            key_less(a@, b@) == key_less(a@.skip(i as int), b@.skip(i as int)),
        decreases a@.len() - i,
    {
        proof {
            assert(a@.skip(i as int).skip(1) =~= a@.skip(i + 1));
            assert(b@.skip(i as int).skip(1) =~= b@.skip(i + 1));
        }
        i += 1;
    }
    if i == b.len() {
        false
    } else if i == a.len() {
        true
    } else {
        a[i] < b[i]
    }
}

/// Whether `a` and `b` hold the same bytes.
pub fn bytes_equal(a: &[u8], b: &[u8]) -> (r: bool)
    ensures
        r == (a@ == b@),
{
    if a.len() != b.len() {
        return false;
    }
    let mut i: usize = 0;
    while i < a.len()
        invariant
            i <= a@.len(),
            a@.len() == b@.len(),
            forall|j: int| 0 <= j < i ==> a@[j] == b@[j],
        decreases a@.len() - i,
    {
        if a[i] != b[i] {
            return false;
        }
        i += 1;
    }
    proof {
        assert(a@ =~= b@);
    }
    true
}

impl<V> Dict<String, V> {
    /// The members: each key as its UTF-8 bytes, with its value, in the
    /// order in which they are walked.
    pub open(crate) spec fn members(&self) -> Seq<(Seq<u8>, V)> {
        Seq::new(
            self.entries@.len(),
            |i: int| (encode_utf8(self.entries@[i].0@), self.entries@[i].1),
        )
    }

    /// The keys ascend, so no key occurs twice.
    pub open spec fn wf(&self) -> bool {
        keys_ascend(self.members())
    }

    /// The number of members.
    pub fn len(&self) -> (n: usize)
        ensures
            n == self.members().len(),
    {
        self.entries.len()
    }

    /// Whether there is no member.
    pub fn is_empty(&self) -> (r: bool)
        ensures
            r == (self.members().len() == 0),
    {
        self.entries.len() == 0
    }

    /// Gives `key` the value `value` and returns the value that it had, if
    /// it had one. A new key takes its place in the order of keys.
    pub fn insert(&mut self, key: String, value: V) -> (replaced: Option<V>)
        ensures
            final(self).members() == insert_member(
                old(self).members(),
                encode_utf8(key@),
                value,
            ),
            old(self).wf() ==> final(self).wf(),
            old(self).wf() ==> replaced == member_value(old(self).members(), encode_utf8(key@)),
    {
        let ghost before = self.members();
        let ghost kb = encode_utf8(key@);
        let mut i: usize = self.entries.len();
        while i > 0 && bytes_less(key.as_str().as_bytes(), self.entries[i - 1].0.as_str().as_bytes())
            invariant
                i <= self.entries@.len(),
                self.members() == before,
                kb == encode_utf8(key@),
                forall|j: int| i <= j < before.len() ==> key_less(kb, #[trigger] before[j].0),
            decreases i,
        {
            i -= 1;
        }
        proof {
            lemma_insert_member_at(before, kb, value, i as int);
        }
        if i > 0 && bytes_equal(
            self.entries[i - 1].0.as_str().as_bytes(),
            key.as_str().as_bytes(),
        ) {
            let old_entry = self.entries.remove(i - 1);
            self.entries.insert(i - 1, (key, value));
            proof {
                assert(self.members() =~= before.update(i - 1, (kb, value)));
                assert(before.take(i as int).last() == before[i - 1]);
                if keys_ascend(before) {
                    lemma_update_keeps_order(before, i - 1, value);
                }
            }
            Some(old_entry.1)
        } else {
            self.entries.insert(i, (key, value));
            proof {
                assert(self.members() =~= before.insert(i as int, (kb, value)));
                if keys_ascend(before) {
                    if i > 0 {
                        lemma_key_trichotomy(before[i - 1].0, kb);
                    }
                    lemma_insert_keeps_order(before, i as int, kb, value);
                    lemma_no_member_below(before, i as int, kb);
                }
            }
            None
        }
    }

    /// The value under `key`, if there is one.
    pub fn get(&self, key: &str) -> (r: Option<&V>)
        ensures
            match r {
                Some(v) => member_value(self.members(), encode_utf8(key@)) == Some(*v),
                None => member_value(self.members(), encode_utf8(key@)).is_none(),
            },
    {
        let mut i: usize = self.entries.len();
        proof {
            assert(self.members().take(i as int) =~= self.members());
        }
        while i > 0
            invariant
                i <= self.entries@.len(),
                member_value(self.members(), encode_utf8(key@)) == member_value(
                    self.members().take(i as int),
                    encode_utf8(key@),
                ),
            decreases i,
        {
            proof {
                assert(self.members().take(i as int).drop_last() =~= self.members().take(i - 1));
                assert(self.members().take(i as int).last() == self.members()[i - 1]);
            }
            if bytes_equal(self.entries[i - 1].0.as_str().as_bytes(), key.as_bytes()) {
                return Some(&self.entries[i - 1].1);
            }
            i -= 1;
        }
        None
    }

    /// The index of the member with key `key`, if there is one.
    pub(crate) fn position(&self, key: &str) -> (r: Option<usize>)
        ensures
            match r {
                Some(i) => i < self.members().len() && self.members()[i as int].0 == encode_utf8(
                    key@,
                ) && member_value(self.members(), encode_utf8(key@)) == Some(
                    self.members()[i as int].1,
                ) && forall|v: V|
                    replace_member(self.members(), encode_utf8(key@), v)
                        == self.members().update(i as int, (encode_utf8(key@), v)),
                None => member_value(self.members(), encode_utf8(key@)).is_none(),
            },
    {
        let mut i: usize = self.entries.len();
        proof {
            assert(self.members().take(i as int) =~= self.members());
        }
        while i > 0
            invariant
                i <= self.entries@.len(),
                member_value(self.members(), encode_utf8(key@)) == member_value(
                    self.members().take(i as int),
                    encode_utf8(key@),
                ),
                forall|j: int|
                    i <= j < self.members().len() ==> (#[trigger] self.members()[j]).0
                        != encode_utf8(key@),
            decreases i,
        {
            proof {
                assert(self.members().take(i as int).drop_last() =~= self.members().take(i - 1));
                assert(self.members().take(i as int).last() == self.members()[i - 1]);
            }
            if bytes_equal(self.entries[i - 1].0.as_str().as_bytes(), key.as_bytes()) {
                proof {
                    assert forall|v: V|
                        replace_member(self.members(), encode_utf8(key@), v)
                            == self.members().update(i - 1, (encode_utf8(key@), v)) by {
                        lemma_replace_member_at(self.members(), encode_utf8(key@), v, i - 1);
                    }
                }
                return Some(i - 1);
            }
            i -= 1;
        }
        None
    }

    /// The key of the member at position `index` in key order.
    pub fn key_at(&self, index: usize) -> (key: &String)
        requires
            index < self.members().len(),
        ensures
            encode_utf8(key@) == self.members()[index as int].0,
    {
        &self.entries[index].0
    }

    /// The value of the member at position `index` in key order.
    pub fn value_at(&self, index: usize) -> (value: &V)
        requires
            index < self.members().len(),
        ensures
            *value == self.members()[index as int].1,
    {
        &self.entries[index].1
    }

    /// Whether `key` has a value.
    pub fn contains_key(&self, key: &str) -> (r: bool)
        ensures
            r == member_value(self.members(), encode_utf8(key@)).is_some(),
    {
        self.get(key).is_some()
    }
}

/// `BTreeMap::pop_first` on a map with `String` keys: takes the entry with
/// the least key out of the map and returns it, or returns nothing where the
/// map is empty. `String` keys compare byte by byte, which is the order of
/// [`key_less`].
#[verifier::external_body]
fn btree_pop_first<V>(map: &mut BTreeMap<String, V>) -> (r: Option<(String, V)>)
    ensures
        r.is_none() == (old(map)@.dom().len() == 0),
        r.is_none() ==> final(map)@ == old(map)@,
        r matches Some(entry) ==> old(map)@.contains_key(entry.0) && old(map)@[entry.0] == entry.1
            && final(map)@ == old(map)@.remove(entry.0),
        r matches Some(entry) ==> forall|other: String| #[trigger]
            final(map)@.contains_key(other) ==> key_less(encode_utf8(entry.0@), encode_utf8(other@)),
{
    map.pop_first()
}

/// Each key of the entries is less than the one after it.
pub open spec fn entries_ascend<V>(entries: Seq<(String, V)>) -> bool {
    forall|i: int, j: int|
        0 <= i && j == i + 1 && j < entries.len() ==> key_less(
            encode_utf8((#[trigger] entries[i]).0@),
            encode_utf8((#[trigger] entries[j]).0@),
        )
}

impl<V> Dict<String, V> {
    /// The mapping that holds the entries of `btree_map`, in key order.
    pub fn from_btree_map(btree_map: BTreeMap<String, V>) -> (d: Self)
        ensures
            d.wf(),
            d@.len() == btree_map@.dom().len(),
            forall|i: int|
                0 <= i < d@.len() ==> btree_map@.contains_key((#[trigger] d@[i]).0)
                    && btree_map@[d@[i].0] == d@[i].1,
    {
        let ghost all = btree_map@;
        let mut map = btree_map;
        let mut entries: Vec<(String, V)> = Vec::new();
        loop
            invariant
                all == btree_map@,
                map@.dom().finite(),
                all.dom().finite(),
                entries@.len() + map@.dom().len() == all.dom().len(),
                forall|i: int|
                    0 <= i < entries@.len() ==> all.contains_key((#[trigger] entries@[i]).0)
                        && all[entries@[i].0] == entries@[i].1,
                forall|k: String| #[trigger]
                    map@.contains_key(k) ==> all.contains_key(k) && all[k] == map@[k],
                entries_ascend(entries@),
                entries@.len() > 0 ==> forall|k: String| #[trigger]
                    map@.contains_key(k) ==> key_less(
                        encode_utf8(entries@[entries@.len() - 1].0@),
                        encode_utf8(k@),
                    ),
            decreases map@.dom().len(),
        {
            let ghost before = map@;
            let ghost taken = entries@;
            match btree_pop_first(&mut map) {
                Some(entry) => {
                    proof {
                        vstd::set::axiom_set_remove_len(before.dom(), entry.0);
                        assert(map@.dom() =~= before.dom().remove(entry.0));
                    }
                    entries.push(entry);
                    proof {
                        assert forall|i: int, j: int|
                            0 <= i && j == i + 1 && j < entries@.len() implies key_less(
                            encode_utf8((#[trigger] entries@[i]).0@),
                            encode_utf8((#[trigger] entries@[j]).0@),
                        ) by {
                            if j < taken.len() {
                                assert(key_less(encode_utf8(taken[i].0@), encode_utf8(taken[j].0@)));
                            } else {
                                assert(before.contains_key(entry.0));
                            }
                        }
                    }
                },
                None => {
                    let d = Dict { entries };
                    proof {
                        assert forall|a: int, b: int|
                            0 <= a && b == a + 1 && b < d.members().len() implies key_less(
                            (#[trigger] d.members()[a]).0,
                            (#[trigger] d.members()[b]).0,
                        ) by {
                            assert(key_less(
                                encode_utf8(d.entries@[a].0@),
                                encode_utf8(d.entries@[b].0@),
                            ));
                        }
                    }
                    return d;
                },
            }
        }
    }
}

/// Equality of members: the same number of them, and at each position the
/// same key and equal values. For ascending members this is to have the same
/// keys and an equal value under each.
pub open spec fn members_equal<V: PartialEq>(a: Seq<(Seq<u8>, V)>, b: Seq<(Seq<u8>, V)>) -> bool {
    &&& a.len() == b.len()
    &&& forall|i: int|
        0 <= i < a.len() ==> (#[trigger] a[i]).0 == b[i].0 && a[i].1.eq_spec(&b[i].1)
}

impl<V: PartialEq> PartialEq for Dict<String, V> {
    /// Whether the two mappings have the same keys and an equal value under
    /// each.
    fn eq(&self, other: &Dict<String, V>) -> (r: bool) {
        if self.entries.len() != other.entries.len() {
            return false;
        }
        let mut i: usize = 0;
        while i < self.entries.len()
            invariant
                i <= self.entries@.len(),
                self.entries@.len() == other.entries@.len(),
                V::obeys_eq_spec() ==> forall|j: int|
                    0 <= j < i ==> (#[trigger] self.members()[j]).0 == other.members()[j].0
                        && self.members()[j].1.eq_spec(&other.members()[j].1),
            decreases self.entries@.len() - i,
        {
            if !bytes_equal(
                self.entries[i].0.as_str().as_bytes(),
                other.entries[i].0.as_str().as_bytes(),
            ) || !(self.entries[i].1 == other.entries[i].1) {
                proof {
                    if V::obeys_eq_spec() {
                        assert(!(self.members()[i as int].0 == other.members()[i as int].0
                            && self.members()[i as int].1.eq_spec(&other.members()[i as int].1)));
                    }
                }
                return false;
            }
            i += 1;
        }
        true
    }
}

impl<V: PartialEq> vstd::std_specs::cmp::PartialEqSpecImpl for Dict<String, V> {
    open spec fn obeys_eq_spec() -> bool {
        V::obeys_eq_spec()
    }

    open spec fn eq_spec(&self, other: &Dict<String, V>) -> bool {
        members_equal(self.members(), other.members())
    }
}

} // verus!
