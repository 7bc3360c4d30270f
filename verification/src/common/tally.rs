//! Sums kept under words: each word stands once, in the order in which the
//! words first came up, with the sum of the amounts that were added under
//! it. A sum that would pass the greatest 64-bit number stays there.

use crate::common::{entry_keys, find_key, keys, lemma_position, lemma_push_new, position};
use vstd::prelude::*;
use vstd::string::StringExecFns;

verus! {

/// Words with their sums.
pub type Tally = Vec<(String, u64)>;

/// A word and the amount to add under it.
pub type Amount = (Seq<char>, int);

/// A tally with its words as character sequences and its sums as integers.
pub open spec fn tally_views(t: Seq<(String, u64)>) -> Seq<Amount> {
    t.map_values(|e: (String, u64)| (e.0@, e.1 as int))
}

/// A sum as it is kept: never more than the greatest 64-bit number.
pub open spec fn capped(n: int) -> int {
    if n > u64::MAX {
        u64::MAX as int
    } else {
        n
    }
}

/// The tally after `amount` was added under `key`.
pub open spec fn add_to(t: Seq<Amount>, key: Seq<char>, amount: int) -> Seq<Amount> {
    let p = position(entry_keys(t), key);
    if p >= 0 {
        t.update(p, (key, capped(t[p].1 + amount)))
    } else {
        t.push((key, capped(amount)))
    }
}

/// The tally of a list of amounts, added one after the other.
pub open spec fn tallied(events: Seq<Amount>) -> Seq<Amount>
    decreases events.len(),
{
    if events.len() == 0 {
        Seq::empty()
    } else {
        add_to(tallied(events.drop_last()), events.last().0, events.last().1)
    }
}

/// The sum of the amounts that stand under `key` in the list.
pub open spec fn total_of(events: Seq<Amount>, key: Seq<char>) -> int
    decreases events.len(),
{
    if events.len() == 0 {
        0
    } else {
        total_of(events.drop_last(), key) + if events.last().0 == key {
            events.last().1
        } else {
            0
        }
    }
}

/// Whether an amount stands under `key` in the list.
pub open spec fn mentions(events: Seq<Amount>, key: Seq<char>) -> bool {
    exists|k: int| 0 <= k < events.len() && (#[trigger] events[k]).0 == key
}

/// The sum under `key` in the tally, zero where the key does not stand.
pub open spec fn value_of(t: Seq<Amount>, key: Seq<char>) -> int {
    let p = position(entry_keys(t), key);
    if p >= 0 {
        t[p].1
    } else {
        0
    }
}

/// Whether no amount of the list is below zero.
pub open spec fn no_debts(events: Seq<Amount>) -> bool {
    forall|k: int| 0 <= k < events.len() ==> (#[trigger] events[k]).1 >= 0
}

/// Where no amount is below zero, no sum is.
proof fn lemma_total_of_bounds(events: Seq<Amount>, key: Seq<char>)
    requires
        no_debts(events),
    ensures
        0 <= total_of(events, key),
    decreases events.len(),
{
    if events.len() > 0 {
        assert(events.last() == events[events.len() - 1]);
        assert forall|k: int| 0 <= k < events.drop_last().len() implies (
        #[trigger] events.drop_last()[k]).1 >= 0 by {
            assert(events.drop_last()[k] == events[k]);
        }
        lemma_total_of_bounds(events.drop_last(), key);
    }
}

/// In the tally of a list of amounts no word stands twice; a word stands
/// there if and only if an amount stands under it in the list; and its sum
/// is the sum of its amounts, capped.
pub proof fn lemma_tallied(events: Seq<Amount>, key: Seq<char>)
    requires
        no_debts(events),
    ensures
        entry_keys(tallied(events)).no_duplicates(),
        entry_keys(tallied(events)).contains(key) == mentions(events, key),
        value_of(tallied(events), key) == capped(total_of(events, key)),
    decreases events.len(),
{
    if events.len() == 0 {
        assert(entry_keys(tallied(events)) =~= Seq::<Seq<char>>::empty());
        lemma_position(entry_keys(tallied(events)), key);
    } else {
        let rest = events.drop_last();
        let last = events.last();
        assert(last == events[events.len() - 1]);
        assert forall|k: int| 0 <= k < rest.len() implies (#[trigger] rest[k]).1 >= 0 by {
            assert(rest[k] == events[k]);
        }
        lemma_tallied(rest, key);
        lemma_tallied(rest, last.0);
        lemma_total_of_bounds(rest, key);
        let before = tallied(rest);
        let after = tallied(events);
        let ks = entry_keys(before);
        lemma_position(ks, last.0);
        lemma_position(ks, key);
        let p = position(ks, last.0);
        if p >= 0 {
            assert(ks[p] == last.0);
            assert(entry_keys(after) =~= ks);
        } else {
            assert(entry_keys(after) =~= ks.push(last.0));
            lemma_push_new(ks, last.0);
        }
        lemma_position(entry_keys(after), key);
        if mentions(rest, key) {
            let k = choose|k: int| 0 <= k < rest.len() && (#[trigger] rest[k]).0 == key;
            assert(events[k].0 == key);
        }
        if mentions(events, key) && last.0 != key {
            let k = choose|k: int| 0 <= k < events.len() && (#[trigger] events[k]).0 == key;
            assert(rest[k].0 == key);
        }
        if last.0 == key {
            if p >= 0 {
                assert(position(entry_keys(after), key) == p);
            } else {
                assert(entry_keys(after)[ks.len() as int] == key);
                assert(position(entry_keys(after), key) == ks.len());
            }
        } else {
            let q = position(ks, key);
            if q >= 0 {
                assert(ks[q] == key);
                assert(entry_keys(after)[q] == key);
                assert(position(entry_keys(after), key) == q);
                assert(after[q] == before[q]);
            } else {
                if entry_keys(after).contains(key) {
                    let k = choose|k: int|
                        0 <= k < entry_keys(after).len() && entry_keys(after)[k] == key;
                    if k < ks.len() {
                        assert(ks[k] == key);
                    }
                }
            }
        }
    }
}

/// Adds `amount` under `key`.
pub fn add_amount(t: &mut Tally, key: &str, amount: u64)
    ensures
        tally_views(final(t)@) == add_to(tally_views(old(t)@), key@, amount as int),
{
    let ghost before = tally_views(t@);
    assert(keys(t@) =~= entry_keys(before));
    proof {
        lemma_position(entry_keys(before), key@);
    }
    match find_key(t, key) {
        Some(p) => {
            assert(entry_keys(before)[p as int] == key@);
            let current = t[p].1;
            let sum: u64 = if amount <= u64::MAX - current {
                current + amount
            } else {
                u64::MAX
            };
            t[p].1 = sum;
            assert(tally_views(t@) =~= before.update(p as int, (key@, sum as int)));
        },
        None => {
            t.push((String::from_str(key), amount));
            assert(tally_views(t@) =~= before.push((key@, amount as int)));
        },
    }
}

/// The sum under `key`, zero where the key does not stand.
pub fn get(t: &Tally, key: &str) -> (r: u64)
    ensures
        r == value_of(tally_views(t@), key@),
{
    assert(keys(t@) =~= entry_keys(tally_views(t@)));
    match find_key(t, key) {
        Some(p) => t[p].1,
        None => 0,
    }
}

} // verus!
