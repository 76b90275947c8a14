//! Deterministic ordering of labels: ascending by `(start, end)`, with the
//! position in the label list breaking exact ties, so that every render pass
//! places labels left to right in the same order.
use crate::Label;
use vstd::prelude::*;
use vstd::relations::{sorted_by, total_ordering};
use vstd::seq_lib::{group_to_multiset_ensures, lemma_multiset_commutative, lemma_sorted_unique};

verus! {

/// The sort key of a label: its span's endpoints plus its position in the
/// label list, which breaks ties between identical spans.
#[derive(Debug, Clone, Copy, PartialEq, Eq, Structural)]
pub struct Key {
    /// The label's span start.
    pub start: usize,
    /// The label's span end.
    pub end: usize,
    /// The label's position in the diagnostic's label list.
    pub idx: usize,
}

/// Lexicographic order on `(start, end, idx)`.
pub open spec fn key_le(a: Key, b: Key) -> bool {
    ||| a.start < b.start
    ||| (a.start == b.start && a.end < b.end)
    ||| (a.start == b.start && a.end == b.end && a.idx <= b.idx)
}

/// [`key_le`] as a closure, the form the sorting lemmas expect.
pub open spec fn key_leq() -> spec_fn(Key, Key) -> bool {
    |a: Key, b: Key| key_le(a, b)
}

pub proof fn lemma_key_le_total()
    ensures
        total_ordering(key_leq()),
{
    let r = key_leq();
    assert forall|a: Key, b: Key| #[trigger] r(a, b) && #[trigger] r(b, a) implies a == b by {
        assert(a.start == b.start && a.end == b.end && a.idx == b.idx);
    }
}

/// The keys of a label list, in list order.
pub open spec fn keys_of(labels: Seq<Label>) -> Seq<Key> {
    Seq::new(
        labels.len(),
        |i: int|
            Key { start: labels[i].span.start, end: labels[i].span.end, idx: i as usize },
    )
}

/// The labels' keys, sorted by `(start, end, idx)`.
pub open spec fn sorted_keys(labels: Seq<Label>) -> Seq<Key> {
    keys_of(labels).sort_by(key_leq())
}

fn key_le_exec(a: Key, b: Key) -> (r: bool)
    ensures
        r == key_le(a, b),
{
    if a.start != b.start {
        a.start < b.start
    } else if a.end != b.end {
        a.end < b.end
    } else {
        a.idx <= b.idx
    }
}

fn insert_pos(out: &Vec<Key>, x: Key) -> (j: usize)
    ensures
        j <= out@.len(),
        forall|k: int| 0 <= k < j ==> key_le(#[trigger] out@[k], x),
        j < out@.len() ==> !key_le(out@[j as int], x),
{
    let mut j: usize = 0;
    while j < out.len()
        invariant
            j <= out@.len(),
            forall|k: int| 0 <= k < j ==> key_le(#[trigger] out@[k], x),
        decreases out@.len() - j,
    {
        if !key_le_exec(out[j], x) {
            return j;
        }
        j = j + 1;
    }
    j
}

/// Sorts the labels' keys into the deterministic render order.
pub fn sort_keys(labels: &Vec<Label>) -> (r: Vec<Key>)
    ensures
        r@ == sorted_keys(labels@),
{
    broadcast use group_to_multiset_ensures;
    broadcast use vstd::multiset::group_multiset_axioms;

    let ghost all = keys_of(labels@);
    let mut keys: Vec<Key> = Vec::new();
    let mut i: usize = 0;
    while i < labels.len()
        invariant
            i <= labels@.len(),
            all == keys_of(labels@),
            keys@ =~= all.take(i as int),
        decreases labels@.len() - i,
    {
        let l = &labels[i];
        keys.push(Key { start: l.span.start, end: l.span.end, idx: i });
        i = i + 1;
        proof {
            assert(keys@ =~= all.take(i as int));
        }
    }
    proof {
        assert(keys@ =~= all);
    }
    let mut out: Vec<Key> = Vec::new();
    let mut i: usize = 0;
    while i < keys.len()
        invariant
            i <= keys@.len(),
            keys@ == all,
            sorted_by(out@, key_leq()),
            out@.to_multiset() == all.take(i as int).to_multiset(),
        decreases keys@.len() - i,
    {
        let x = keys[i];
        let j = insert_pos(&out, x);
        let ghost pre = out@;
        out.insert(j, x);
        i = i + 1;
        proof {
            let leq = key_leq();
            assert(out@ =~= pre.take(j as int).push(x) + pre.skip(j as int));
            assert forall|p: int, q: int| 0 <= p < q < out@.len() implies #[trigger] leq(
                out@[p],
                out@[q],
            ) by {
                lemma_key_le_total();
                if p < j && q == j {
                    assert(key_le(pre[p], x));
                } else if p == j && q > j {
                    assert(!key_le(pre[j as int], x));
                    assert(key_le(x, pre[j as int]));
                    assert(leq(pre[j as int], pre[q - 1]) || j == q - 1);
                } else if p < j && q > j {
                    assert(leq(pre[p], pre[q - 1]) || p == q - 1);
                }
            }
            vstd::seq_lib::to_multiset_build(pre.take(j as int), x);
            vstd::seq_lib::to_multiset_build(all.take(i - 1), all[i - 1]);
            lemma_multiset_commutative(pre.take(j as int).push(x), pre.skip(j as int));
            lemma_multiset_commutative(pre.take(j as int), pre.skip(j as int));
            assert(pre.take(j as int) + pre.skip(j as int) =~= pre);
            assert(all.take(i as int) =~= all.take(i - 1).push(all[i - 1]));
            let ms_a = pre.take(j as int).to_multiset();
            let ms_b = pre.skip(j as int).to_multiset();
            assert(out@.to_multiset() == ms_a.insert(x).add(ms_b));
            assert(pre.to_multiset() == ms_a.add(ms_b));
            assert(ms_a.insert(x).add(ms_b) =~= ms_a.add(ms_b).insert(x));
            assert(x == all[i - 1]);
            assert(all.take(i - 1).push(all[i - 1]).to_multiset() == all.take(
                i - 1,
            ).to_multiset().insert(all[i - 1]));
            assert(all.take(i as int).to_multiset() == pre.to_multiset().insert(x));
            assert(out@.to_multiset() == all.take(i as int).to_multiset());
        }
    }
    proof {
        assert(all.take(keys@.len() as int) =~= all);
        lemma_key_le_total();
        all.lemma_sort_by_ensures(key_leq());
        lemma_sorted_unique(out@, all.sort_by(key_leq()), key_leq());
    }
    out
}

} // verus!
