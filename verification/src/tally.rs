//! Counting occurrences of string keys, kept in increasing key order.
use vstd::prelude::*;

use crate::text::{chars_of, compare_chars, lemma_seq_lt_order, seq_lt};

verus! {

/// How many of `items` have key `k`.
pub open spec fn count_key(items: Seq<(Seq<char>, bool)>, k: Seq<char>) -> nat
    decreases items.len(),
{
    if items.len() == 0 {
        0
    } else {
        count_key(items.drop_last(), k) + if items.last().0 == k {
            1nat
        } else {
            0nat
        }
    }
}

/// How many of `items` have key `k` and are flagged.
pub open spec fn count_flagged(items: Seq<(Seq<char>, bool)>, k: Seq<char>) -> nat
    decreases items.len(),
{
    if items.len() == 0 {
        0
    } else {
        count_flagged(items.drop_last(), k) + if items.last().0 == k && items.last().1 {
            1nat
        } else {
            0nat
        }
    }
}

pub proof fn lemma_counts_bounded(items: Seq<(Seq<char>, bool)>, k: Seq<char>)
    ensures
        count_flagged(items, k) <= count_key(items, k) <= items.len(),
    decreases items.len(),
{
    if items.len() > 0 {
        lemma_counts_bounded(items.drop_last(), k);
    }
}

/// An entry: a key, how many items had it, and how many of those were flagged.
pub type Entry = (String, usize, usize);

pub open spec fn entry_view(e: Entry) -> (Seq<char>, usize, usize) {
    (e.0@, e.1, e.2)
}

pub open spec fn tally_view(t: Seq<Entry>) -> Seq<(Seq<char>, usize, usize)> {
    t.map_values(|e: Entry| entry_view(e))
}

/// `t` counts `items`: one entry per key that occurs, in strictly increasing key
/// order, with the number of items of that key and of flagged items of that key.
pub open spec fn is_tally_of(t: Seq<(Seq<char>, usize, usize)>, items: Seq<(Seq<char>, bool)>) -> bool {
    &&& forall|i: int, j: int| 0 <= i < j < t.len() ==> seq_lt(#[trigger] t[i].0, #[trigger] t[j].0)
    &&& forall|i: int|
        0 <= i < t.len() ==> (#[trigger] t[i]).1 == count_key(items, t[i].0) && t[i].2
            == count_flagged(items, t[i].0) && t[i].1 > 0
    &&& forall|k: Seq<char>| #[trigger]
        count_key(items, k) > 0 ==> exists|i: int| 0 <= i < t.len() && t[i].0 == k
}

/// The first index whose key is not below `k`.
fn position(t: &Vec<Entry>, k: &Vec<char>) -> (p: usize)
    ensures
        p <= t.len(),
        forall|j: int| 0 <= j < p ==> seq_lt(#[trigger] t@[j].0@, k@),
        p < t.len() ==> !seq_lt(t@[p as int].0@, k@),
{
    let mut p: usize = 0;
    while p < t.len()
        invariant
            p <= t.len(),
            forall|j: int| 0 <= j < p ==> seq_lt(#[trigger] t@[j].0@, k@),
        decreases t.len() - p,
    {
        let e = chars_of(t[p].0.as_str());
        if compare_chars(&e, k) >= 0 {
            return p;
        }
        p += 1;
    }
    p
}

/// Counts one more item with key `key`, flagged or not.
pub(crate) fn tally_add(t: &mut Vec<Entry>, key: &String, flag: bool, Ghost(items): Ghost<
    Seq<(Seq<char>, bool)>,
>)
    requires
        is_tally_of(tally_view(old(t)@), items),
        items.len() < usize::MAX,
    ensures
        is_tally_of(tally_view(final(t)@), items.push((key@, flag))),
{
    let ghost old_t = tally_view(t@);
    let ghost new_items = items.push((key@, flag));
    assert(new_items.drop_last() =~= items);
    let kv = chars_of(key.as_str());
    let p = position(t, &kv);
    assert forall|j: int| 0 <= j < p implies old_t[j].0 != key@ by {
        lemma_seq_lt_order(old_t[j].0, key@, key@);
    }
    if p < t.len() && t[p].0 == *key {
        let a = t[p].1;
        let b = t[p].2;
        proof {
            lemma_counts_bounded(items, key@);
            assert(old_t[p as int] == entry_view(t@[p as int]));
            assert(old_t[p as int].1 == count_key(items, old_t[p as int].0));
        }
        let k0 = t[p].0.clone();
        let nb = if flag {
            b + 1
        } else {
            b
        };
        t.set(p, (k0, a + 1, nb));
        let ghost new_t = tally_view(t@);
        assert forall|j: int| p < j < old_t.len() implies old_t[j].0 != key@ by {
            lemma_seq_lt_order(old_t[p as int].0, old_t[j].0, old_t[j].0);
        }
        assert forall|i: int, j: int| 0 <= i < j < new_t.len() implies seq_lt(
            #[trigger] new_t[i].0,
            #[trigger] new_t[j].0,
        ) by {
            assert(new_t[i].0 == old_t[i].0);
            assert(new_t[j].0 == old_t[j].0);
        }
        assert forall|i: int| 0 <= i < new_t.len() implies (#[trigger] new_t[i]).1 == count_key(
            new_items,
            new_t[i].0,
        ) && new_t[i].2 == count_flagged(new_items, new_t[i].0) && new_t[i].1 > 0 by {
            assert(old_t[i].1 == count_key(items, old_t[i].0));
        }
        assert forall|k: Seq<char>| #[trigger] count_key(new_items, k) > 0 implies exists|i: int|
            0 <= i < new_t.len() && new_t[i].0 == k by {
            if k == key@ {
                assert(new_t[p as int].0 == k);
            } else {
                assert(count_key(items, k) > 0);
                let i = choose|i: int| 0 <= i < old_t.len() && old_t[i].0 == k;
                assert(new_t[i].0 == k);
            }
        }
    } else {
        proof {
            if p < t.len() {
                lemma_seq_lt_order(old_t[p as int].0, key@, key@);
                assert(seq_lt(key@, old_t[p as int].0));
            }
            assert forall|j: int| p <= j < old_t.len() implies seq_lt(key@, old_t[j].0) by {
                if j > p {
                    lemma_seq_lt_order(key@, old_t[p as int].0, old_t[j].0);
                }
            }
            assert forall|j: int| 0 <= j < old_t.len() implies old_t[j].0 != key@ by {
                if j >= p {
                    lemma_seq_lt_order(key@, old_t[j].0, key@);
                }
            }
            if count_key(items, key@) > 0 {
                let i = choose|i: int| 0 <= i < old_t.len() && old_t[i].0 == key@;
                assert(false);
            }
            lemma_counts_bounded(items, key@);
        }
        let nb: usize = if flag {
            1
        } else {
            0
        };
        t.insert(p, (key.clone(), 1, nb));
        let ghost new_t = tally_view(t@);
        assert(new_t =~= old_t.insert(p as int, (key@, 1usize, nb)));
        assert forall|i: int, j: int| 0 <= i < j < new_t.len() implies seq_lt(
            #[trigger] new_t[i].0,
            #[trigger] new_t[j].0,
        ) by {
            if j < p {
            } else if j == p {
            } else if i < p {
                lemma_seq_lt_order(new_t[i].0, key@, new_t[j].0);
            } else if i == p {
            } else {
                assert(new_t[i] == old_t[i - 1]);
                assert(new_t[j] == old_t[j - 1]);
            }
        }
        assert forall|i: int| 0 <= i < new_t.len() implies (#[trigger] new_t[i]).1 == count_key(
            new_items,
            new_t[i].0,
        ) && new_t[i].2 == count_flagged(new_items, new_t[i].0) && new_t[i].1 > 0 by {
            if i < p {
                assert(new_t[i] == old_t[i]);
            } else if i > p {
                assert(new_t[i] == old_t[i - 1]);
            }
        }
        assert forall|k: Seq<char>| #[trigger] count_key(new_items, k) > 0 implies exists|i: int|
            0 <= i < new_t.len() && new_t[i].0 == k by {
            if k == key@ {
                assert(new_t[p as int].0 == k);
            } else {
                assert(count_key(items, k) > 0);
                let i = choose|i: int| 0 <= i < old_t.len() && old_t[i].0 == k;
                if i < p {
                    assert(new_t[i].0 == k);
                } else {
                    assert(new_t[i + 1].0 == k);
                }
            }
        }
    }
}

} // verus!
