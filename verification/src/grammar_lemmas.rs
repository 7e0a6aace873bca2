//! Facts about the grammar that the parser's proofs rest on.

use crate::grammar::{digit_run, skip_whitespace};
use crate::model::insert_member;
use crate::number::{digits_value, is_digit};
use vstd::prelude::*;

verus! {

/// Skipping whitespace drops a prefix: what is left is no longer than the
/// input.
pub proof fn lemma_skip_whitespace_len(s: Seq<u8>)
    ensures
        skip_whitespace(s).len() <= s.len(),
    decreases s.len(),
{
    if s.len() > 0 && crate::grammar::is_whitespace(s[0]) {
        lemma_skip_whitespace_len(s.skip(1));
    }
}

/// A run of digits ends within the input, holds digits only, and is
/// followed by no digit.
pub proof fn lemma_digit_run_bounds(s: Seq<u8>, from: int)
    requires
        0 <= from <= s.len(),
    ensures
        from + digit_run(s, from) <= s.len(),
        forall|j: int| from <= j < from + digit_run(s, from) ==> is_digit(#[trigger] s[j]),
        from + digit_run(s, from) < s.len() ==> !is_digit(s[from + digit_run(s, from)]),
    decreases s.len() - from,
{
    if from < s.len() && is_digit(s[from]) {
        lemma_digit_run_bounds(s, from + 1);
    }
}

/// The value of a run of digits is at least the value of each prefix of it.
pub proof fn lemma_digits_value_prefix(s: Seq<u8>, k: int)
    requires
        0 <= k <= s.len(),
        forall|j: int| 0 <= j < s.len() ==> is_digit(#[trigger] s[j]),
    ensures
        digits_value(s.take(k)) <= digits_value(s),
    decreases s.len() - k,
{
    if k == s.len() {
        assert(s.take(k) =~= s);
    } else {
        lemma_digits_value_prefix(s.drop_last(), k);
        assert(s.drop_last().take(k) =~= s.take(k));
    }
}

/// Every member after an insertion is the new member or was a member before.
pub proof fn lemma_insert_member_contents<V>(members: Seq<(Seq<u8>, V)>, key: Seq<u8>, value: V)
    ensures
        forall|i: int|
            0 <= i < insert_member(members, key, value).len() ==> {
                let m = #[trigger] insert_member(members, key, value)[i];
                m == (key, value) || members.contains(m)
            },
    decreases members.len(),
{
    let after = insert_member(members, key, value);
    if members.len() == 0 {
    } else if crate::model::key_less(key, members.last().0) {
        let shorter = members.drop_last();
        lemma_insert_member_contents(shorter, key, value);
        assert forall|i: int| 0 <= i < after.len() implies {
            let m = #[trigger] after[i];
            m == (key, value) || members.contains(m)
        } by {
            if i < after.len() - 1 {
                let m = insert_member(shorter, key, value)[i];
                if m != (key, value) {
                    let j = choose|j: int| 0 <= j < shorter.len() && shorter[j] == m;
                    assert(members[j] == m);
                }
            } else {
                assert(members[members.len() - 1] == after[i]);
            }
        }
    } else if members.last().0 == key {
        assert forall|i: int| 0 <= i < after.len() implies {
            let m = #[trigger] after[i];
            m == (key, value) || members.contains(m)
        } by {
            if i < after.len() - 1 {
                assert(members[i] == after[i]);
            }
        }
    } else {
        assert forall|i: int| 0 <= i < after.len() implies {
            let m = #[trigger] after[i];
            m == (key, value) || members.contains(m)
        } by {
            if i < after.len() - 1 {
                assert(members[i] == after[i]);
            }
        }
    }
}

/// Insertion and a change of the values commute: inserting and then mapping
/// every value gives what mapping and then inserting the mapped value gives.
pub proof fn lemma_insert_member_mapped<V, W>(
    members: Seq<(Seq<u8>, V)>,
    key: Seq<u8>,
    value: V,
    f: spec_fn(V) -> W,
)
    ensures
        insert_member(members, key, value).map_values(|m: (Seq<u8>, V)| (m.0, f(m.1)))
            == insert_member(members.map_values(|m: (Seq<u8>, V)| (m.0, f(m.1))), key, f(value)),
    decreases members.len(),
{
    let g = |m: (Seq<u8>, V)| (m.0, f(m.1));
    let mapped = members.map_values(g);
    if members.len() == 0 {
        assert(seq![(key, value)].map_values(g) =~= seq![(key, f(value))]);
    } else if crate::model::key_less(key, members.last().0) {
        lemma_insert_member_mapped(members.drop_last(), key, value, f);
        assert(mapped.drop_last() =~= members.drop_last().map_values(g));
        assert(insert_member(members.drop_last(), key, value).push(members.last()).map_values(g)
            =~= insert_member(members.drop_last(), key, value).map_values(g).push(
            g(members.last()),
        ));
    } else if members.last().0 == key {
        assert(mapped.drop_last() =~= members.drop_last().map_values(g));
        assert(members.drop_last().push((key, value)).map_values(g) =~= mapped.drop_last().push(
            (key, f(value)),
        ));
    } else {
        assert(members.push((key, value)).map_values(g) =~= mapped.push((key, f(value))));
    }
}

} // verus!
