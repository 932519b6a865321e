use super::{keys_strictly_increasing, lemma_drop_first_sorted, StorageIterator};
use crate::block::Entry;
use crate::key::{
    compare_keys, lemma_lex_irreflexive, lemma_lex_total, lemma_lex_transitive, lex_lt, KeyOrder,
    KeySlice,
};
use vstd::prelude::*;

verus! {

/// The position of the source whose current key is smallest, the first one
/// among equal keys; `-1` when every source is exhausted.
pub open spec fn min_source(cs: Seq<Seq<Entry>>) -> int
    decreases cs.len(),
{
    if cs.len() == 0 {
        -1
    } else {
        let m = min_source(cs.drop_last());
        if cs.last().len() == 0 {
            m
        } else if m < 0 {
            cs.len() - 1
        } else if lex_lt(cs.last()[0].0, cs[m][0].0) {
            cs.len() - 1
        } else {
            m
        }
    }
}

/// Every source whose current key is `k` moves past it.
pub open spec fn skip_key(cs: Seq<Seq<Entry>>, k: Seq<u8>) -> Seq<Seq<Entry>> {
    Seq::new(
        cs.len(),
        |i: int|
            if cs[i].len() > 0 && cs[i][0].0 == k {
                cs[i].drop_first()
            } else {
                cs[i]
            },
    )
}

/// The number of entries left in all sources together.
pub open spec fn total_len(cs: Seq<Seq<Entry>>) -> nat
    decreases cs.len(),
{
    if cs.len() == 0 {
        0
    } else {
        total_len(cs.drop_last()) + cs.last().len()
    }
}

/// What `min_source` picks.
pub proof fn lemma_min_source(cs: Seq<Seq<Entry>>)
    ensures
        -1 <= min_source(cs) < cs.len(),
        min_source(cs) < 0 ==> forall|i: int| 0 <= i < cs.len() ==> (#[trigger] cs[i]).len() == 0,
        min_source(cs) >= 0 ==> cs[min_source(cs)].len() > 0,
        min_source(cs) >= 0 ==> forall|i: int|
            0 <= i < cs.len() && (#[trigger] cs[i]).len() > 0 ==> !lex_lt(cs[i][0].0, cs[min_source(cs)][0].0),
        min_source(cs) >= 0 ==> forall|i: int|
            0 <= i < min_source(cs) && (#[trigger] cs[i]).len() > 0 ==> lex_lt(
                cs[min_source(cs)][0].0,
                cs[i][0].0,
            ),
    decreases cs.len(),
{
    if cs.len() > 0 {
        let d = cs.drop_last();
        lemma_min_source(d);
        let m = min_source(d);
        let l = cs.len() - 1;
        assert forall|i: int| 0 <= i < l implies #[trigger] cs[i] == d[i] by {}
        if cs.last().len() > 0 && m >= 0 {
            let a = cs.last()[0].0;
            let b = cs[m][0].0;
            lemma_lex_total(a, b);
            if lex_lt(a, b) {
                assert forall|i: int| 0 <= i < cs.len() && (#[trigger] cs[i]).len() > 0 implies !lex_lt(
                    cs[i][0].0,
                    a,
                ) by {
                    if i < l {
                        assert(cs[i] == d[i]);
                        lemma_lex_total(cs[i][0].0, a);
                        if lex_lt(cs[i][0].0, a) {
                            lemma_lex_transitive(cs[i][0].0, a, b);
                        }
                    } else {
                        lemma_lex_irreflexive(a);
                    }
                }
                assert forall|i: int| 0 <= i < l && (#[trigger] cs[i]).len() > 0 implies lex_lt(a, cs[i][0].0) by {
                    assert(cs[i] == d[i]);
                    lemma_lex_total(cs[i][0].0, b);
                    if cs[i][0].0 == b {
                    } else {
                        lemma_lex_transitive(a, b, cs[i][0].0);
                    }
                }
            }
        } else if cs.last().len() > 0 {
            lemma_lex_irreflexive(cs.last()[0].0);
        }
    }
}

/// Sources no longer than before, one of them shorter, hold fewer entries in all.
pub proof fn lemma_total_len_le(a: Seq<Seq<Entry>>, b: Seq<Seq<Entry>>, p: int)
    requires
        a.len() == b.len(),
        forall|i: int| 0 <= i < a.len() ==> (#[trigger] a[i]).len() <= b[i].len(),
        0 <= p < a.len(),
        a[p].len() < b[p].len(),
    ensures
        total_len(a) < total_len(b),
    decreases a.len(),
{
    let l = a.len() - 1;
    if p == l {
        lemma_total_len_mono(a.drop_last(), b.drop_last());
    } else {
        lemma_total_len_le(a.drop_last(), b.drop_last(), p);
    }
}

/// `total_len` grows with the lengths of the sources.
pub proof fn lemma_total_len_mono(a: Seq<Seq<Entry>>, b: Seq<Seq<Entry>>)
    requires
        a.len() == b.len(),
        forall|i: int| 0 <= i < a.len() ==> (#[trigger] a[i]).len() <= b[i].len(),
    ensures
        total_len(a) <= total_len(b),
    decreases a.len(),
{
    if a.len() > 0 {
        lemma_total_len_mono(a.drop_last(), b.drop_last());
    }
}

/// Skipping the smallest current key leaves fewer entries.
pub proof fn lemma_skip_key_shrinks(cs: Seq<Seq<Entry>>)
    requires
        min_source(cs) >= 0,
    ensures
        total_len(skip_key(cs, cs[min_source(cs)][0].0)) < total_len(cs),
{
    lemma_min_source(cs);
    let m = min_source(cs);
    lemma_total_len_le(skip_key(cs, cs[m][0].0), cs, m);
}

/// The entries of all sources merged in key order: the smallest current key
/// comes next, with the value of the first source that holds it, and every
/// source holding that key moves past it.
pub open spec fn merge_entries(cs: Seq<Seq<Entry>>) -> Seq<Entry>
    decreases total_len(cs),
{
    if min_source(cs) < 0 {
        Seq::empty()
    } else {
        let e = cs[min_source(cs)][0];
        proof {
            lemma_skip_key_shrinks(cs);
        }
        seq![e] + merge_entries(skip_key(cs, e.0))
    }
}

/// Merging sorted sources gives entries in strictly increasing key order,
/// none of them before the smallest current key.
pub proof fn lemma_merge_sorted(cs: Seq<Seq<Entry>>)
    requires
        forall|i: int| 0 <= i < cs.len() ==> keys_strictly_increasing(#[trigger] cs[i]),
    ensures
        keys_strictly_increasing(merge_entries(cs)),
        min_source(cs) >= 0 ==> forall|j: int|
            0 <= j < merge_entries(cs).len() ==> #[trigger] merge_entries(cs)[j].0 == cs[min_source(cs)][0].0
                || lex_lt(cs[min_source(cs)][0].0, merge_entries(cs)[j].0),
    decreases total_len(cs),
{
    lemma_min_source(cs);
    let m = min_source(cs);
    if m >= 0 {
        let k = cs[m][0].0;
        let ns = skip_key(cs, k);
        lemma_skip_key_shrinks(cs);
        assert forall|i: int| 0 <= i < ns.len() implies keys_strictly_increasing(#[trigger] ns[i]) by {
            if cs[i].len() > 0 && cs[i][0].0 == k {
                assert forall|a: int, b: int| 0 <= a < b < ns[i].len() implies lex_lt(
                    #[trigger] ns[i][a].0,
                    #[trigger] ns[i][b].0,
                ) by {
                    assert(ns[i][a] == cs[i][a + 1]);
                    assert(ns[i][b] == cs[i][b + 1]);
                }
            }
        }
        lemma_merge_sorted(ns);
        lemma_min_source(ns);
        let rest = merge_entries(ns);
        let all = merge_entries(cs);
        assert(all == seq![cs[m][0]] + rest);
        let m2 = min_source(ns);
        if m2 >= 0 {
            let h = ns[m2][0].0;
            if cs[m2].len() > 0 && cs[m2][0].0 == k {
                assert(ns[m2][0] == cs[m2][1]);
            } else {
                assert(ns[m2] == cs[m2]);
                lemma_lex_total(h, k);
            }
            assert(lex_lt(k, h));
            assert forall|j: int| 0 <= j < rest.len() implies lex_lt(k, #[trigger] rest[j].0) by {
                if rest[j].0 != h {
                    lemma_lex_transitive(k, h, rest[j].0);
                }
            }
        }
        assert forall|a: int, b: int| 0 <= a < b < all.len() implies lex_lt(
            #[trigger] all[a].0,
            #[trigger] all[b].0,
        ) by {
            assert(all[b] == rest[b - 1]);
            if a > 0 {
                assert(all[a] == rest[a - 1]);
            }
        }
        assert forall|j: int| 0 <= j < all.len() implies #[trigger] all[j].0 == k || lex_lt(k, all[j].0) by {
            if j > 0 {
                assert(all[j] == rest[j - 1]);
            }
        }
    }
}

/// Source `c` holds an entry with key `k`.
pub open spec fn holds_key(c: Seq<Entry>, k: Seq<u8>) -> bool {
    exists|t: int| 0 <= t < c.len() && (#[trigger] c[t]).0 == k
}

/// Every key of every source occurs in `out`.
pub open spec fn keeps_every_key(cs: Seq<Seq<Entry>>, out: Seq<Entry>) -> bool {
    forall|i: int, t: int|
        0 <= i < cs.len() && 0 <= t < cs[i].len() ==> exists|j: int|
            0 <= j < out.len() && (#[trigger] out[j]).0 == (#[trigger] cs[i][t]).0
}

/// Every key of `out` occurs in some source.
pub open spec fn invents_no_key(cs: Seq<Seq<Entry>>, out: Seq<Entry>) -> bool {
    forall|j: int|
        0 <= j < out.len() ==> exists|i: int| 0 <= i < cs.len() && holds_key(#[trigger] cs[i], (#[trigger] out[j]).0)
}

/// Each entry of `out` is the entry of the first source that holds its key.
pub open spec fn first_source_wins(cs: Seq<Seq<Entry>>, out: Seq<Entry>) -> bool {
    forall|j: int, i: int, t: int|
        0 <= j < out.len() && 0 <= i < cs.len() && 0 <= t < cs[i].len() && (#[trigger] cs[i][t]).0 == (
        #[trigger] out[j]).0 && (forall|i2: int| 0 <= i2 < i ==> !holds_key(#[trigger] cs[i2], out[j].0))
            ==> out[j] == cs[i][t]
}

/// In a source with strictly increasing keys, no key comes before the first.
proof fn lemma_sorted_head_least(c: Seq<Entry>, t: int)
    requires
        keys_strictly_increasing(c),
        0 <= t < c.len(),
    ensures
        t == 0 || lex_lt(c[0].0, c[t].0),
{
}

/// How far `skip_key(cs, k)` moved source `i`: one entry or none.
pub open spec fn skip_shift(cs: Seq<Seq<Entry>>, k: Seq<u8>, i: int) -> int {
    if cs[i].len() > 0 && cs[i][0].0 == k {
        1
    } else {
        0
    }
}

/// Skipping the smallest key of sorted sources keeps them sorted, leaves
/// only larger keys, and moves each source by `skip_shift`.
proof fn lemma_skip_key_facts(cs: Seq<Seq<Entry>>)
    requires
        forall|i: int| 0 <= i < cs.len() ==> keys_strictly_increasing(#[trigger] cs[i]),
        min_source(cs) >= 0,
    ensures
        ({
            let k = cs[min_source(cs)][0].0;
            let ns = skip_key(cs, k);
            &&& ns.len() == cs.len()
            &&& forall|i: int| 0 <= i < ns.len() ==> keys_strictly_increasing(#[trigger] ns[i])
            &&& forall|i: int| 0 <= i < ns.len() ==> (#[trigger] ns[i]).len() + skip_shift(cs, k, i) == cs[i].len()
            &&& forall|i: int, t: int|
                0 <= i < ns.len() && 0 <= t < ns[i].len() ==> (#[trigger] ns[i][t]) == cs[i][t + skip_shift(cs, k, i)]
            &&& forall|i: int, t: int|
                0 <= i < ns.len() && 0 <= t < ns[i].len() ==> lex_lt(k, (#[trigger] ns[i][t]).0)
            &&& forall|i: int, t: int|
                0 <= i < cs.len() && 0 <= t < cs[i].len() && (#[trigger] cs[i][t]).0 != k ==> t - skip_shift(cs, k, i) >= 0
        }),
{
    lemma_min_source(cs);
    let m = min_source(cs);
    let k = cs[m][0].0;
    let ns = skip_key(cs, k);
    assert forall|i: int| 0 <= i < ns.len() implies keys_strictly_increasing(#[trigger] ns[i]) by {
        if skip_shift(cs, k, i) == 1 {
            assert forall|a: int, b: int| 0 <= a < b < ns[i].len() implies lex_lt(
                #[trigger] ns[i][a].0,
                #[trigger] ns[i][b].0,
            ) by {
                assert(ns[i][a] == cs[i][a + 1]);
                assert(ns[i][b] == cs[i][b + 1]);
            }
        }
    }
    assert forall|i: int, t: int| 0 <= i < ns.len() && 0 <= t < ns[i].len() implies lex_lt(
        k,
        (#[trigger] ns[i][t]).0,
    ) by {
        lemma_sorted_head_least(cs[i], 0);
        if skip_shift(cs, k, i) == 1 {
            assert(ns[i][t] == cs[i][t + 1]);
            lemma_sorted_head_least(cs[i], t + 1);
        } else {
            assert(ns[i] == cs[i]);
            lemma_lex_total(cs[i][0].0, k);
            lemma_sorted_head_least(cs[i], t);
            if t > 0 {
                lemma_lex_transitive(k, cs[i][0].0, cs[i][t].0);
            }
        }
    }
}

/// Merging sorted sources keeps every key of every source.
pub proof fn lemma_merge_keeps_keys(cs: Seq<Seq<Entry>>)
    requires
        forall|i: int| 0 <= i < cs.len() ==> keys_strictly_increasing(#[trigger] cs[i]),
    ensures
        keeps_every_key(cs, merge_entries(cs)),
    decreases total_len(cs),
{
    lemma_min_source(cs);
    let m = min_source(cs);
    let all = merge_entries(cs);
    if m < 0 {
        assert forall|i: int, t: int| 0 <= i < cs.len() && 0 <= t < cs[i].len() implies exists|j: int|
            0 <= j < all.len() && (#[trigger] all[j]).0 == (#[trigger] cs[i][t]).0 by {
            assert(cs[i].len() == 0);
        }
    } else {
        let k = cs[m][0].0;
        let ns = skip_key(cs, k);
        lemma_skip_key_shrinks(cs);
        lemma_skip_key_facts(cs);
        lemma_merge_keeps_keys(ns);
        let rest = merge_entries(ns);
        assert(all == seq![cs[m][0]] + rest);
        assert forall|i: int, t: int| 0 <= i < cs.len() && 0 <= t < cs[i].len() implies exists|j: int|
            0 <= j < all.len() && (#[trigger] all[j]).0 == (#[trigger] cs[i][t]).0 by {
            if cs[i][t].0 == k {
                assert(all[0].0 == cs[i][t].0);
            } else {
                let t2 = t - skip_shift(cs, k, i);
                assert(ns[i][t2] == cs[i][t]);
                let j = choose|j: int| 0 <= j < rest.len() && (#[trigger] rest[j]).0 == ns[i][t2].0;
                assert(all[j + 1] == rest[j]);
            }
        }
    }
}

/// Every key of a merge comes from some source, and is above the smallest
/// current key unless it is that key.
pub proof fn lemma_merge_invents_none(cs: Seq<Seq<Entry>>)
    requires
        forall|i: int| 0 <= i < cs.len() ==> keys_strictly_increasing(#[trigger] cs[i]),
    ensures
        invents_no_key(cs, merge_entries(cs)),
    decreases total_len(cs),
{
    lemma_min_source(cs);
    let m = min_source(cs);
    let all = merge_entries(cs);
    if m >= 0 {
        let k = cs[m][0].0;
        let ns = skip_key(cs, k);
        lemma_skip_key_shrinks(cs);
        lemma_skip_key_facts(cs);
        lemma_merge_invents_none(ns);
        let rest = merge_entries(ns);
        assert(all == seq![cs[m][0]] + rest);
        assert forall|j: int| 0 <= j < all.len() implies exists|i: int|
            0 <= i < cs.len() && holds_key(#[trigger] cs[i], (#[trigger] all[j]).0) by {
            if j == 0 {
                assert(cs[m][0] == all[0]);
                assert(holds_key(cs[m], all[0].0));
            } else {
                assert(all[j] == rest[j - 1]);
                let i = choose|i: int| 0 <= i < ns.len() && holds_key(#[trigger] ns[i], rest[j - 1].0);
                let t = choose|t: int| 0 <= t < ns[i].len() && (#[trigger] ns[i][t]).0 == rest[j - 1].0;
                assert(cs[i][t + skip_shift(cs, k, i)] == ns[i][t]);
            }
        }
    }
}

/// On a key that several sorted sources hold, a merge takes the entry of the
/// first of them.
pub proof fn lemma_merge_first_source(cs: Seq<Seq<Entry>>)
    requires
        forall|i: int| 0 <= i < cs.len() ==> keys_strictly_increasing(#[trigger] cs[i]),
    ensures
        first_source_wins(cs, merge_entries(cs)),
    decreases total_len(cs),
{
    lemma_min_source(cs);
    let m = min_source(cs);
    let all = merge_entries(cs);
    if m >= 0 {
        let k = cs[m][0].0;
        let ns = skip_key(cs, k);
        lemma_skip_key_shrinks(cs);
        lemma_skip_key_facts(cs);
        lemma_merge_first_source(ns);
        lemma_merge_invents_none(ns);
        let rest = merge_entries(ns);
        assert(all == seq![cs[m][0]] + rest);
        lemma_lex_irreflexive(k);
        assert forall|j: int, i: int, t: int|
            0 <= j < all.len() && 0 <= i < cs.len() && 0 <= t < cs[i].len() && (#[trigger] cs[i][t]).0
                == (#[trigger] all[j]).0 && (forall|i2: int|
                0 <= i2 < i ==> !holds_key(#[trigger] cs[i2], all[j].0)) implies all[j] == cs[i][t] by {
            if j == 0 {
                lemma_sorted_head_least(cs[i], t);
                if i < m {
                    if t > 0 {
                        lemma_lex_transitive(k, cs[i][0].0, cs[i][t].0);
                    }
                } else if i > m {
                    assert(holds_key(cs[m], k));
                }
            } else {
                let x = all[j].0;
                assert(all[j] == rest[j - 1]);
                let i3 = choose|i3: int| 0 <= i3 < ns.len() && holds_key(#[trigger] ns[i3], rest[j - 1].0);
                let t3 = choose|t3: int| 0 <= t3 < ns[i3].len() && (#[trigger] ns[i3][t3]).0 == rest[j - 1].0;
                assert(lex_lt(k, ns[i3][t3].0));
                let t2 = t - skip_shift(cs, k, i);
                assert(ns[i][t2] == cs[i][t]);
                assert forall|i2: int| 0 <= i2 < i implies !holds_key(#[trigger] ns[i2], x) by {
                    if holds_key(ns[i2], x) {
                        let t4 = choose|t4: int| 0 <= t4 < ns[i2].len() && (#[trigger] ns[i2][t4]).0 == x;
                        assert(cs[i2][t4 + skip_shift(cs, k, i2)] == ns[i2][t4]);
                        assert(holds_key(cs[i2], x));
                    }
                }
                assert(rest[j - 1] == ns[i][t2]);
            }
        }
    }
}

/// A merge yields no more entries than the sources hold together.
pub proof fn lemma_merge_len(cs: Seq<Seq<Entry>>)
    ensures
        merge_entries(cs).len() <= total_len(cs),
    decreases total_len(cs),
{
    if min_source(cs) >= 0 {
        let ns = skip_key(cs, cs[min_source(cs)][0].0);
        lemma_skip_key_shrinks(cs);
        lemma_merge_len(ns);
    }
}

/// What merging sorted sources yields, all in one statement: the entries in
/// strictly increasing key order, one for each key that some source holds,
/// each taken from the first source holding its key, and no more entries
/// than the sources hold together.
pub proof fn lemma_merge_result(cs: Seq<Seq<Entry>>)
    requires
        forall|i: int| 0 <= i < cs.len() ==> keys_strictly_increasing(#[trigger] cs[i]),
    ensures
        keys_strictly_increasing(merge_entries(cs)),
        merge_entries(cs).len() <= total_len(cs),
        keeps_every_key(cs, merge_entries(cs)),
        invents_no_key(cs, merge_entries(cs)),
        first_source_wins(cs, merge_entries(cs)),
{
    lemma_merge_sorted(cs);
    lemma_merge_len(cs);
    lemma_merge_keeps_keys(cs);
    lemma_merge_invents_none(cs);
    lemma_merge_first_source(cs);
}

/// The current key and value of one source, with the source's position.
struct HeapWrapper<I: StorageIterator>(pub usize, pub Box<I>);

impl<I: StorageIterator> HeapWrapper<I> {
    /// Whether `self` goes before `other`: a smaller key, or the same key
    /// from an earlier source.
    fn precedes(&self, other: &Self) -> (r: bool)
        requires
            self.1.entries().len() > 0,
            other.1.entries().len() > 0,
        ensures
            r == (lex_lt(self.1.entries()[0].0, other.1.entries()[0].0) || (self.1.entries()[0].0
                == other.1.entries()[0].0 && self.0 < other.0)),
    {
        match compare_keys(self.1.key().raw_ref(), other.1.key().raw_ref()) {
            KeyOrder::Less => true,
            KeyOrder::Greater => false,
            KeyOrder::Equal => self.0 < other.0,
        }
    }
}

/// The entries left in each source, by position.
spec fn sources<I: StorageIterator>(ws: Seq<HeapWrapper<I>>) -> Seq<Seq<Entry>> {
    Seq::new(ws.len(), |i: int| ws[i].1.entries())
}

/// Merge multiple iterators of the same type. If the same key occurs multiple times in some
/// iterators, prefer the one with smaller index.
pub struct MergeIterator<I: StorageIterator> {
    iters: Vec<HeapWrapper<I>>,
    current: Option<usize>,
}

/// The position of the source with the smallest current key, among all
/// sources that still have entries.
fn find_current<I: StorageIterator>(iters: &Vec<HeapWrapper<I>>) -> (r: Option<usize>)
    requires
        forall|q: int| 0 <= q < iters@.len() ==> (#[trigger] iters@[q]).0 == q,
    ensures
        r == if min_source(sources(iters@)) < 0 {
            None::<usize>
        } else {
            Some(min_source(sources(iters@)) as usize)
        },
{
    let ghost cs = sources(iters@);
    let mut best: Option<usize> = None;
    let mut p: usize = 0;
    assert(cs.take(0) =~= Seq::<Seq<Entry>>::empty());
    while p < iters.len()
        invariant
            p <= iters@.len(),
            cs == sources(iters@),
            forall|q: int| 0 <= q < iters@.len() ==> (#[trigger] iters@[q]).0 == q,
            best == if min_source(cs.take(p as int)) < 0 {
                None::<usize>
            } else {
                Some(min_source(cs.take(p as int)) as usize)
            },
        decreases iters@.len() - p,
    {
        let ghost t = cs.take(p + 1);
        assert(t.drop_last() =~= cs.take(p as int));
        assert(t.last() == cs[p as int]);
        proof {
            lemma_min_source(cs.take(p as int));
        }
        if iters[p].1.is_valid() {
            match best {
                None => {
                    best = Some(p);
                },
                Some(b) => {
                    assert(t[b as int] == cs[b as int]);
                    if iters[p].precedes(&iters[b]) {
                        best = Some(p);
                    }
                },
            }
        }
        p = p + 1;
    }
    assert(cs.take(p as int) =~= cs);
    best
}

impl<I: StorageIterator> MergeIterator<I> {
    #[verifier::type_invariant]
    spec fn inv(self) -> bool {
        &&& forall|q: int| 0 <= q < self.iters@.len() ==> (#[trigger] self.iters@[q]).0 == q
        &&& forall|q: int| 0 <= q < self.iters@.len() ==> keys_strictly_increasing(#[trigger] sources(self.iters@)[q])
        &&& self.current matches Some(p) ==> p == min_source(sources(self.iters@))
    }

    /// Merges `iters`; on equal keys the earlier iterator's entry wins.
    pub fn create(iters: Vec<Box<I>>) -> (merged: Self)
        ensures
            merged.entries() == merge_entries(Seq::new(iters@.len(), |i: int| iters@[i].entries())),
            merged.entries().len() <= total_len(Seq::new(iters@.len(), |i: int| iters@[i].entries())),
    {
        let ghost orig = iters@;
        let mut iters = iters;
        let mut heap_items: Vec<HeapWrapper<I>> = Vec::new();
        let total = iters.len();
        let mut i: usize = 0;
        while iters.len() > 0
            invariant
                total == orig.len(),
                i + iters@.len() == orig.len(),
                heap_items@.len() == i,
                iters@ == orig.skip(i as int),
                forall|q: int| 0 <= q < i ==> (#[trigger] heap_items@[q]).0 == q && heap_items@[q].1 == orig[q],
                forall|q: int| 0 <= q < i ==> keys_strictly_increasing(#[trigger] orig[q].entries()),
            decreases iters@.len(),
        {
            let iter = iters.remove(0);
            // Every iterator takes part; asking whether it is valid also tells
            // that its entries are sorted.
            let _valid = iter.is_valid();
            assert(iters@ =~= orig.skip(i + 1));
            heap_items.push(HeapWrapper(i, iter));
            i = i + 1;
        }
        let current = find_current(&heap_items);
        assert(sources(heap_items@) =~= Seq::new(orig.len(), |i: int| orig[i].entries()));
        assert forall|q: int| 0 <= q < heap_items@.len() implies keys_strictly_increasing(
            #[trigger] sources(heap_items@)[q],
        ) by {
            assert(sources(heap_items@)[q] == orig[q].entries());
        }
        proof {
            lemma_min_source(sources(heap_items@));
            lemma_merge_len(sources(heap_items@));
        }
        MergeIterator { iters: heap_items, current }
    }
}

impl<I: StorageIterator> StorageIterator for MergeIterator<I> {
    closed spec fn entries(&self) -> Seq<Entry> {
        match self.current {
            Some(_) => merge_entries(sources(self.iters@)),
            None => Seq::empty(),
        }
    }

    fn key(&self) -> (key: KeySlice<'_>)
        ensures
            self.entries().len() == 0 ==> key@ == Seq::<u8>::empty(),
    {
        proof {
            use_type_invariant(self);
            lemma_min_source(sources(self.iters@));
        }
        match self.current {
            Some(p) => self.iters[p].1.key(),
            None => KeySlice::from_slice(&[]),
        }
    }

    fn value(&self) -> (value: &[u8])
        ensures
            self.entries().len() == 0 ==> value@ == Seq::<u8>::empty(),
    {
        proof {
            use_type_invariant(self);
            lemma_min_source(sources(self.iters@));
        }
        match self.current {
            Some(p) => self.iters[p].1.value(),
            None => &[],
        }
    }

    fn is_valid(&self) -> (valid: bool) {
        proof {
            use_type_invariant(self);
            lemma_min_source(sources(self.iters@));
            lemma_merge_sorted(sources(self.iters@));
        }
        match self.current {
            Some(p) => self.iters[p].1.is_valid(),
            None => false,
        }
    }

    fn next(&mut self) -> (r: Result<(), anyhow::Error>)
        ensures
            r is Err ==> final(self).entries().len() == 0,
    {
        proof {
            use_type_invariant(&*self);
        }
        let ghost cs = sources(self.iters@);
        proof {
            lemma_min_source(cs);
        }
        let current = self.current.unwrap();
        self.current = None;
        let mut iters: Vec<HeapWrapper<I>> = Vec::new();
        std::mem::swap(&mut iters, &mut self.iters);
        let ghost k = cs[current as int][0].0;
        let ghost target = skip_key(cs, k);
        let n = iters.len();
        let mut p: usize = 0;
        while p < n
            invariant
                n == iters@.len(),
                cs.len() == n,
                current < n,
                p <= n,
                cs[current as int].len() > 0,
                cs[current as int][0].0 == k,
                target == skip_key(cs, k),
                self.iters@.len() == 0,
                self.current is None,
                forall|q: int| 0 <= q < n ==> (#[trigger] iters@[q]).0 == q,
                forall|q: int| 0 <= q < n ==> keys_strictly_increasing(#[trigger] cs[q]),
                forall|q: int|
                    0 <= q < n ==> #[trigger] sources(iters@)[q] == if q < p && q != current {
                        target[q]
                    } else {
                        cs[q]
                    },
            decreases n - p,
        {
            let ghost before = iters@;
            assert(sources(before)[p as int] == cs[p as int]);
            assert(sources(before)[current as int] == cs[current as int]);
            if p != current && iters[p].1.is_valid() {
                let same = compare_keys(iters[p].1.key().raw_ref(), iters[current].1.key().raw_ref())
                    == KeyOrder::Equal;
                if same {
                    let mut w = iters.remove(p);
                    match (&mut *w.1).next() {
                        Ok(()) => {},
                        Err(e) => {
                            return Err(e);
                        },
                    }
                    iters.insert(p, w);
                    assert(iters@ =~= before.update(p as int, w));
                }
            }
            assert forall|q: int| 0 <= q < n implies #[trigger] sources(iters@)[q] == if q < p + 1 && q
                != current {
                target[q]
            } else {
                cs[q]
            } by {
                assert(sources(before)[q] == if q < p && q != current {
                    target[q]
                } else {
                    cs[q]
                });
                if q != p {
                    assert(iters@[q] == before[q]);
                }
            }
            p = p + 1;
        }
        let ghost before = iters@;
        assert(sources(before)[current as int] == cs[current as int]);
        let mut w = iters.remove(current);
        match (&mut *w.1).next() {
            Ok(()) => {},
            Err(e) => {
                return Err(e);
            },
        }
        iters.insert(current, w);
        assert(iters@ =~= before.update(current as int, w));
        assert forall|q: int| 0 <= q < n implies #[trigger] sources(iters@)[q] == target[q] by {
            assert(sources(before)[q] == if q != current {
                target[q]
            } else {
                cs[q]
            });
            if q != current {
                assert(iters@[q] == before[q]);
            }
        }
        assert(sources(iters@) =~= target);
        assert forall|q: int| 0 <= q < n implies keys_strictly_increasing(#[trigger] target[q]) by {
            if cs[q].len() > 0 && cs[q][0].0 == k {
                lemma_drop_first_sorted(cs[q]);
            }
        }
        proof {
            lemma_min_source(target);
            let old_entries = merge_entries(cs);
            assert(old_entries == seq![cs[current as int][0]] + merge_entries(target));
            assert(old_entries.drop_first() =~= merge_entries(target));
        }
        self.iters = iters;
        let next_current = find_current(&self.iters);
        self.current = next_current;
        Ok(())
    }
}

} // verus!
