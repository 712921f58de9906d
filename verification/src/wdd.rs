//! Weighted delta debugging: DDMin that partitions by weight, not count.
use vstd::prelude::*;
use std::collections::HashMap;
use crate::config::{Configuration, Delta, strictly_sorted};
use crate::ddmin::{singles, set_seq, complement, div_ceil, pass_of, elems_of, queue_ok, append_pass, delta_sets, next_granularity, DeltaQueue};
use crate::policy::{rejected, Verdict};
use crate::policy::Policy;

verus! {

broadcast use vstd::std_specs::hash::group_hash_axioms;

/// The total weight of `items`.
pub open spec fn total_weight(items: Seq<u32>, weights: Map<u32, u64>) -> int
    decreases items.len(),
{
    if items.len() == 0 {
        0
    } else {
        total_weight(items.drop_last(), weights) + weights[items.last()]
    }
}

/// Every set of weighted units has a total that fits in a `u64`.
pub open spec fn weights_bounded(weights: Map<u32, u64>) -> bool {
    forall|s: Seq<u32>| strictly_sorted(s) && s.to_set().subset_of(weights.dom()) ==> #[trigger] total_weight(s, weights) <= u64::MAX
}

/// `|x|`.
pub open spec fn abs(x: int) -> int {
    if x < 0 { -x } else { x }
}

/// A chunk of weight `acc` is at least as close to the target share
/// `total / n` as it would be with one more unit of weight `w`.
pub open spec fn closest_cut(acc: int, w: int, total: int, n: int) -> bool {
    abs(n * acc - total) <= abs(n * (acc + w) - total)
}

/// The greedy scan over `items`: the closed chunks, the open chunk, and the
/// open chunk's weight. A new chunk starts before a unit when the open chunk
/// is nonempty, fewer than `n - 1` chunks are closed, and the open chunk is
/// already at least as close to the target share as it would be with it.
pub open spec fn greedy(items: Seq<u32>, weights: Map<u32, u64>, total: int, n: int) -> (Seq<Seq<u32>>, Seq<u32>, int)
    decreases items.len(),
{
    if items.len() == 0 {
        (seq![], seq![], 0)
    } else {
        let prev = greedy(items.drop_last(), weights, total, n);
        let u = items.last();
        let w = weights[u] as int;
        if prev.1.len() > 0 && prev.0.len() < n - 1 && closest_cut(prev.2, w, total, n) {
            (prev.0.push(prev.1), seq![u], w)
        } else {
            (prev.0, prev.1.push(u), prev.2 + w)
        }
    }
}

/// The sorted members cut into at most `n` contiguous chunks of roughly equal
/// total weight; one member per chunk when `n` reaches the size.
pub open spec fn weighted_partition_of(items: Seq<u32>, weights: Map<u32, u64>, n: nat) -> Seq<Seq<u32>> {
    if n == 0 || items.len() == 0 {
        seq![]
    } else if n >= items.len() {
        items.map_values(|u: u32| seq![u])
    } else {
        let g = greedy(items, weights, total_weight(items, weights), n as int);
        g.0.push(g.1)
    }
}

/// No chunk of `parts` grew past a point where a cut was due: inside chunk
/// `j` (one of the first `n - 1`), before each unit but its first, the chunk
/// so far was farther from `total / n` than it would be with that unit.
pub open spec fn no_cut_skipped(parts: Seq<Seq<u32>>, weights: Map<u32, u64>, total: int, n: int) -> bool {
    forall|j: int, i: int| 0 <= j < parts.len() && 0 < i < parts[j].len() && j < n - 1 ==>
        abs(n * total_weight(parts[j].take(i), weights) - total)
            > abs(n * (total_weight(parts[j].take(i), weights) + weights[#[trigger] parts[j][i]]) - total)
}

/// Every chunk of `parts` but the last ended where a cut was due: the chunk
/// was at least as close to `total / n` as it would be with the next unit.
pub open spec fn cuts_due(parts: Seq<Seq<u32>>, weights: Map<u32, u64>, total: int, n: int) -> bool {
    forall|j: int| 0 <= j < parts.len() - 1 ==>
        abs(n * total_weight(#[trigger] parts[j], weights) - total)
            <= abs(n * (total_weight(parts[j], weights) + weights[parts[j + 1][0]]) - total)
}

/// The greedy scan cuts `items` into its chunks exactly as its rule says.
#[verifier::rlimit(100)]
proof fn lemma_greedy_shape(items: Seq<u32>, weights: Map<u32, u64>, total: int, n: int)
    requires
        n >= 1,
        items.len() >= 1,
    ensures
        ({
            let g = greedy(items, weights, total, n);
            let parts = g.0.push(g.1);
            &&& parts.flatten() == items
            &&& forall|j: int| 0 <= j < parts.len() ==> (#[trigger] parts[j]).len() > 0
            &&& g.0.len() <= n - 1
            &&& g.2 == total_weight(g.1, weights)
            &&& no_cut_skipped(parts, weights, total, n)
            &&& cuts_due(parts, weights, total, n)
        }),
    decreases items.len(),
{
    let g = greedy(items, weights, total, n);
    let u = items.last();
    let w = weights[u] as int;
    let items0 = items.drop_last();
    if items.len() == 1 {
        assert(items0.len() == 0);
        assert(greedy(items0, weights, total, n) == (Seq::<Seq<u32>>::empty(), Seq::<u32>::empty(), 0int));
        assert(g == (Seq::<Seq<u32>>::empty(), seq![u], w));
        let parts = g.0.push(g.1);
        assert(parts =~= seq![seq![u]]);
        assert(parts.flatten() =~= items) by {
            assert(parts.drop_first() =~= Seq::<Seq<u32>>::empty());
            assert(parts.drop_first().flatten() =~= Seq::<u32>::empty());
            assert(items =~= seq![u]);
        }
        assert(seq![u].drop_last() =~= Seq::<u32>::empty());
        assert(seq![u].last() == u);
        assert(total_weight(Seq::<u32>::empty(), weights) == 0);
        assert(total_weight(seq![u], weights) == w);
    } else {
        lemma_greedy_shape(items0, weights, total, n);
        let prev = greedy(items0, weights, total, n);
        let c = prev.0;
        let o = prev.1;
        let parts0 = c.push(o);
        assert(parts0[parts0.len() - 1] == o);
        assert(o.len() > 0);
        assert(items0.push(u) =~= items);
        if o.len() > 0 && c.len() < n - 1 && closest_cut(prev.2, w, total, n) {
            assert(g == (c.push(o), seq![u], w));
            let parts = parts0.push(seq![u]);
            assert(parts.flatten() =~= parts0.flatten() + seq![u]) by {
                parts0.lemma_flatten_push(seq![u]);
            }
            assert(seq![u].drop_last() =~= Seq::<u32>::empty());
            assert(seq![u].last() == u);
            assert(total_weight(Seq::<u32>::empty(), weights) == 0);
            assert(total_weight(seq![u], weights) == w);
            assert forall|j: int| 0 <= j < parts.len() implies (#[trigger] parts[j]).len() > 0 by {
                if j < parts0.len() {
                    assert(parts[j] == parts0[j]);
                }
            }
            assert forall|j: int, i: int| 0 <= j < parts.len() && 0 < i < parts[j].len() && j < n - 1 implies
                abs(n * total_weight(parts[j].take(i), weights) - total)
                    > abs(n * (total_weight(parts[j].take(i), weights) + weights[#[trigger] parts[j][i]]) - total) by {
                assert(j < parts0.len());
                assert(parts[j] == parts0[j]);
            }
            assert forall|j: int| 0 <= j < parts.len() - 1 implies
                abs(n * total_weight(#[trigger] parts[j], weights) - total)
                    <= abs(n * (total_weight(parts[j], weights) + weights[parts[j + 1][0]]) - total) by {
                assert(parts[j] == parts0[j]);
                if j < parts0.len() - 1 {
                    assert(parts[j + 1] == parts0[j + 1]);
                } else {
                    assert(parts[j] == o);
                    assert(parts[j + 1] == seq![u]);
                }
            }
        } else {
            let o2 = o.push(u);
            assert(g == (c, o2, prev.2 + w));
            let parts = c.push(o2);
            assert(parts.flatten() =~= items) by {
                c.lemma_flatten_push(o);
                c.lemma_flatten_push(o2);
            }
            assert(o2.drop_last() =~= o);
            assert forall|j: int| 0 <= j < parts.len() implies (#[trigger] parts[j]).len() > 0 by {
                if j < c.len() {
                    assert(parts[j] == parts0[j]);
                }
            }
            assert forall|j: int, i: int| 0 <= j < parts.len() && 0 < i < parts[j].len() && j < n - 1 implies
                abs(n * total_weight(parts[j].take(i), weights) - total)
                    > abs(n * (total_weight(parts[j].take(i), weights) + weights[#[trigger] parts[j][i]]) - total) by {
                if j < c.len() {
                    assert(parts[j] == parts0[j]);
                } else {
                    assert(parts[j] == o2);
                    if i < o.len() {
                        assert(o2.take(i) =~= o.take(i));
                        assert(o2[i] == o[i]);
                        assert(parts0[j] == o);
                        assert(parts0[j][i] == o[i]);
                    } else {
                        assert(i == o.len());
                        assert(o2.take(i) =~= o);
                        assert(o2[i] == u);
                    }
                }
            }
            assert forall|j: int| 0 <= j < parts.len() - 1 implies
                abs(n * total_weight(#[trigger] parts[j], weights) - total)
                    <= abs(n * (total_weight(parts[j], weights) + weights[parts[j + 1][0]]) - total) by {
                assert(parts[j] == parts0[j]);
                if j + 1 < c.len() {
                    assert(parts[j + 1] == parts0[j + 1]);
                } else {
                    assert(parts[j + 1] == o2);
                    assert(parts0[j + 1] == o);
                    assert(o2[0] == o[0]);
                }
            }
        }
    }
}

/// Cutting into one-member chunks keeps every member, in order.
proof fn lemma_singletons_flatten(items: Seq<u32>)
    ensures
        items.map_values(|u: u32| seq![u]).flatten() == items,
    decreases items.len(),
{
    let parts = items.map_values(|u: u32| seq![u]);
    if items.len() == 0 {
        assert(parts.flatten() =~= items);
    } else {
        let items0 = items.drop_last();
        lemma_singletons_flatten(items0);
        assert(parts =~= items0.map_values(|u: u32| seq![u]).push(seq![items.last()]));
        items0.map_values(|u: u32| seq![u]).lemma_flatten_push(seq![items.last()]);
        assert(items0.push(items.last()) =~= items);
    }
}

/// Law: `weighted_partition` splits the members exactly and cuts where its
/// rule says. For `n >= 1` its chunks, in order, make up the members in
/// increasing order, none is empty and there are at most `n` of them. With
/// `n` at least the size every chunk is one member. Otherwise, with `total`
/// the weight of all members, a chunk ends exactly where a cut is due: it
/// is one of the first `n - 1` and it is at least as close to `total / n`
/// as it would be with the next unit; no cut that was due was skipped.
pub proof fn lemma_weighted_partition_split(items: Seq<u32>, weights: Map<u32, u64>, n: nat)
    requires
        n >= 1,
    ensures
        weighted_partition_of(items, weights, n).flatten() == items,
        weighted_partition_of(items, weights, n).len() <= n,
        forall|j: int| 0 <= j < weighted_partition_of(items, weights, n).len() ==>
            (#[trigger] weighted_partition_of(items, weights, n)[j]).len() > 0,
        n >= items.len() ==> forall|j: int| 0 <= j < weighted_partition_of(items, weights, n).len() ==>
            (#[trigger] weighted_partition_of(items, weights, n)[j]).len() == 1,
        n < items.len() ==> no_cut_skipped(weighted_partition_of(items, weights, n), weights,
            total_weight(items, weights), n as int),
        n < items.len() ==> cuts_due(weighted_partition_of(items, weights, n), weights,
            total_weight(items, weights), n as int),
{
    let parts = weighted_partition_of(items, weights, n);
    if items.len() == 0 {
        assert(parts.flatten() =~= items);
    } else if n >= items.len() {
        lemma_singletons_flatten(items);
    } else {
        lemma_greedy_shape(items, weights, total_weight(items, weights), n as int);
    }
}

/// The deltas WDD proposes from granularity `n` on.
pub open spec fn wdd_from(items: Seq<u32>, weights: Map<u32, u64>, n: nat) -> Seq<Seq<u32>>
    decreases items.len() - n,
{
    if 1 <= n < items.len() {
        pass_of(items, weighted_partition_of(items, weights, n)) + wdd_from(items, weights, next_granularity(n, items.len()))
    } else {
        pass_of(items, weighted_partition_of(items, weights, n))
    }
}

/// Every delta of a WDD pass: DDMin's schedule with weighted chunks.
pub open spec fn wdd_deltas(items: Seq<u32>, weights: Map<u32, u64>) -> Seq<Seq<u32>> {
    wdd_from(items, weights, 2)
}

/// The last granularity of a WDD pass puts each member in a chunk of its
/// own, so each single member is among the pass's deltas.
proof fn lemma_wdd_from_singletons(items: Seq<u32>, weights: Map<u32, u64>, n: nat, k: int)
    requires
        n >= 1,
        0 <= k < items.len(),
    ensures
        wdd_from(items, weights, n).contains(seq![items[k]]),
    decreases items.len() - n,
{
    let pass = pass_of(items, weighted_partition_of(items, weights, n));
    if n < items.len() {
        let m = next_granularity(n, items.len());
        lemma_wdd_from_singletons(items, weights, m, k);
        let b = wdd_from(items, weights, m);
        let j = choose|j: int| 0 <= j < b.len() && b[j] == seq![items[k]];
        assert((pass + b)[pass.len() + j] == seq![items[k]]);
    } else {
        let subsets = weighted_partition_of(items, weights, n);
        assert(subsets == items.map_values(|u: u32| seq![u]));
        assert(subsets[k] == seq![items[k]]);
        let comp = subsets.map_values(|d: Seq<u32>| complement(items, d));
        let all = comp + subsets;
        assert(all[comp.len() + k] == seq![items[k]]);
        let f = |d: Seq<u32>| d.len() > 0;
        all.lemma_filter_contains(f, comp.len() + k);
    }
}

/// Each member's one-unit delta is among the deltas of a WDD pass.
proof fn lemma_wdd_singles(items: Seq<u32>, weights: Map<u32, u64>)
    ensures
        singles(items.to_set()).subset_of(delta_sets(wdd_deltas(items, weights))),
{
    assert forall|x: Set<u32>| #[trigger] singles(items.to_set()).contains(x) implies delta_sets(wdd_deltas(items, weights)).contains(x) by {
        let u = choose|u: u32| items.to_set().contains(u) && x == set![u];
        let k = choose|k: int| 0 <= k < items.len() && items[k] == u;
        lemma_wdd_from_singletons(items, weights, 2, k);
        let ds = wdd_deltas(items, weights);
        let j = choose|j: int| 0 <= j < ds.len() && ds[j] == seq![u];
        assert(ds.map_values(|d: Seq<u32>| d.to_set())[j] == seq![u].to_set());
        assert(seq![u].to_set() =~= set![u]) by {
            assert(seq![u][0] == u);
            assert forall|y: u32| seq![u].to_set().contains(y) implies y == u by {
                let i = choose|i: int| 0 <= i < seq![u].len() && seq![u][i] == y;
            }
        }
    }
}

/// Law: where a WDD pass over `r` ran dry, `r` is 1-minimal: the oracle
/// rejected `r` without any single one of its units.
pub proof fn lemma_wdd_fixpoint_one_minimal<F: Fn(&Configuration) -> Verdict>(
    oracle: F,
    weights: Map<u32, u64>,
    r: Configuration,
)
    requires
        r.wf(),
        forall|x: Set<u32>| #[trigger] delta_sets(wdd_deltas(r.elems(), weights)).contains(x) ==> rejected(oracle, r@.difference(x)),
    ensures
        forall|u: u32| r@.contains(u) ==> rejected(oracle, #[trigger] r@.remove(u)),
{
    assert forall|u: u32| r@.contains(u) implies rejected(oracle, #[trigger] r@.remove(u)) by {
        let k = choose|k: int| 0 <= k < r.elems().len() && r.elems()[k] == u;
        lemma_wdd_from_singletons(r.elems(), weights, 2, k);
        let ds = wdd_deltas(r.elems(), weights);
        let j = choose|j: int| 0 <= j < ds.len() && ds[j] == seq![u];
        assert(ds.map_values(|d: Seq<u32>| d.to_set())[j] == seq![u].to_set());
        assert(seq![u].to_set() =~= set![u]) by {
            assert(seq![u][0] == u);
            assert forall|x: u32| seq![u].to_set().contains(x) implies x == u by {
                let i = choose|i: int| 0 <= i < seq![u].len() && seq![u][i] == x;
            }
        }
        assert(delta_sets(ds).contains(set![u]));
        assert(r@.difference(set![u]) =~= r@.remove(u));
    }
}

proof fn lemma_total_weight_prefix(items: Seq<u32>, weights: Map<u32, u64>, i: int)
    requires
        0 <= i <= items.len(),
    ensures
        total_weight(items.take(i), weights) <= total_weight(items, weights),
    decreases items.len(),
{
    if i < items.len() {
        lemma_total_weight_prefix(items.drop_last(), weights, i);
        assert(items.drop_last().take(i) =~= items.take(i));
    } else {
        assert(items.take(i) =~= items);
    }
}

/// The cut test in integers: for `w > 0` the open chunk is at least as close
/// to the share as with `w` more exactly when `2 acc + w >= ceil(2 total / n)`.
proof fn lemma_closest_cut(acc: int, w: int, total: int, n: int)
    requires
        n > 0,
        acc >= 0,
        w >= 0,
        total >= 0,
    ensures
        closest_cut(acc, w, total, n) <==> (w == 0 || 2 * acc + w >= div_ceil((2 * total) as nat, n as nat)),
{
    let x = n * acc - total;
    let d = n * w;
    assert(n * (acc + w) == n * acc + n * w) by (nonlinear_arith);
    assert(d >= 0) by (nonlinear_arith)
        requires
            n > 0,
            w >= 0,
            d == n * w,
    ;
    assert(w == 0 <==> d == 0) by (nonlinear_arith)
        requires
            n > 0,
            w >= 0,
            d == n * w,
    ;
    assert(closest_cut(acc, w, total, n) <==> (d == 0 || 2 * x + d >= 0));
    let m = 2 * acc + w;
    assert(2 * x + d == n * m - 2 * total) by (nonlinear_arith)
        requires
            x == n * acc - total,
            d == n * w,
            m == 2 * acc + w,
    ;
    let t = 2 * total;
    let q = t / n;
    let r = t % n;
    vstd::arithmetic::div_mod::lemma_fundamental_div_mod(t, n);
    assert(0 <= r < n);
    assert(t == n * q + r);
    if r == 0 {
        assert(div_ceil(t as nat, n as nat) == q);
        assert(n * m >= t <==> m >= q) by (nonlinear_arith)
            requires
                t == n * q,
                n > 0,
        {
            if m >= q {
                assert(n * m >= n * q);
            } else {
                assert(n * m < n * q);
            }
        }
    } else {
        assert(div_ceil(t as nat, n as nat) == q + 1);
        assert(n * m >= t <==> m >= q + 1) by (nonlinear_arith)
            requires
                t == n * q + r,
                0 < r < n,
                n > 0,
        {
            if m >= q + 1 {
                assert(n * m >= n * (q + 1));
            } else {
                assert(n * m <= n * q);
            }
        }
    }
}

/// Split `config` into at most `n` chunks of roughly equal total weight
/// (compare `partition`, which makes chunks of roughly equal count).
pub fn weighted_partition(config: &Configuration, n: usize, unit2weight: &HashMap<u32, u64>) -> (r: Vec<Delta>)
    requires
        config.wf(),
        config@.subset_of(unit2weight@.dom()),
        total_weight(config.elems(), unit2weight@) <= u64::MAX,
    ensures
        r@.len() == weighted_partition_of(config.elems(), unit2weight@, n as nat).len(),
        forall|i: int| 0 <= i < r@.len() ==> (#[trigger] r@[i]).wf() && r@[i].elems() == weighted_partition_of(config.elems(), unit2weight@, n as nat)[i],
        elems_of(r@) == weighted_partition_of(config.elems(), unit2weight@, n as nat),
        n >= 1 ==> elems_of(r@).flatten() == config.elems(),
        r@.len() <= n,
{
    let ghost items = config.elems();
    let ghost weights = unit2weight@;
    let len = config.len();
    let mut chunks: Vec<Delta> = Vec::new();
    if n == 0 || len == 0 {
        proof {
            assert(elems_of(chunks@) =~= weighted_partition_of(items, weights, n as nat));
            if n >= 1 {
                assert(elems_of(chunks@).flatten() =~= items);
            }
        }
        return chunks;
    }
    if n >= len {
        // finest granularity: every element on its own
        let mut i: usize = 0;
        while i < len
            invariant
                items == config.elems(),
                len == items.len(),
                i <= len,
                chunks@.len() == i,
                forall|j: int| 0 <= j < i ==> (#[trigger] chunks@[j]).wf() && chunks@[j].elems() == seq![items[j]],
            decreases len - i,
        {
            let u = config.get(i);
            let single = Configuration::from_sorted(vec![u]);
            assert(single.elems() =~= seq![items[i as int]]);
            chunks.push(single);
            i = i + 1;
        }
        proof {
            assert(elems_of(chunks@) =~= weighted_partition_of(items, weights, n as nat));
            lemma_weighted_partition_split(items, weights, n as nat);
        }
        return chunks;
    }
    // the total weight, summed in order
    let mut total: u64 = 0;
    let mut i: usize = 0;
    while i < len
        invariant
            items == config.elems(),
            weights == unit2weight@,
            len == items.len(),
            config@.subset_of(weights.dom()),
            total_weight(items, weights) <= u64::MAX,
            i <= len,
            total == total_weight(items.take(i as int), weights),
        decreases len - i,
    {
        let u = config.get(i);
        assert(config@.contains(u));
        let w = match unit2weight.get(&u) {
            Some(w) => *w,
            None => 0,
        };
        proof {
            assert(items.take(i as int + 1).drop_last() =~= items.take(i as int));
            lemma_total_weight_prefix(items, weights, i as int + 1);
        }
        total = total + w;
        i = i + 1;
    }
    assert(items.take(len as int) =~= items);
    // chunks of weight close to total / n: compare against ceil(2 total / n)
    let twice: u128 = 2 * (total as u128);
    let target: u128 = if twice % (n as u128) == 0 { twice / (n as u128) } else { twice / (n as u128) + 1 };
    assert(target as nat == div_ceil((2 * total) as nat, n as nat));
    let mut cur: Vec<u32> = Vec::new();
    let mut acc: u64 = 0;
    let ghost mut start: int = 0;
    let mut i: usize = 0;
    while i < len
        invariant
            items == config.elems(),
            weights == unit2weight@,
            config.wf(),
            len == items.len(),
            1 <= n < len,
            config@.subset_of(weights.dom()),
            total == total_weight(items, weights),
            target as nat == div_ceil((2 * total) as nat, n as nat),
            i <= len,
            0 <= start <= i,
            cur@ == items.subrange(start, i as int),
            acc <= total_weight(items.take(i as int), weights),
            forall|j: int| 0 <= j < chunks@.len() ==> (#[trigger] chunks@[j]).wf(),
            elems_of(chunks@) == greedy(items.take(i as int), weights, total as int, n as int).0,
            cur@ == greedy(items.take(i as int), weights, total as int, n as int).1,
            acc == greedy(items.take(i as int), weights, total as int, n as int).2,
        decreases len - i,
    {
        let u = config.get(i);
        assert(config@.contains(u));
        let w = match unit2weight.get(&u) {
            Some(w) => *w,
            None => 0,
        };
        proof {
            let t = items.take(i as int + 1);
            assert(t.drop_last() =~= items.take(i as int));
            assert(t.last() == u);
            lemma_total_weight_prefix(items, weights, i as int + 1);
            lemma_closest_cut(acc as int, w as int, total as int, n as int);
        }
        let cut = cur.len() > 0 && chunks.len() < n - 1 && (w == 0 || 2 * (acc as u128) + (w as u128) >= target);
        if cut {
            let piece = Configuration::from_sorted(cur);
            let ghost c0 = chunks@;
            chunks.push(piece);
            proof {
                assert(elems_of(chunks@) =~= elems_of(c0).push(piece.elems()));
            }
            cur = Vec::new();
            acc = 0;
            proof {
                start = i as int;
            }
        }
        cur.push(u);
        acc = acc + w;
        i = i + 1;
        proof {
            assert(cur@ =~= items.subrange(start, i as int));
        }
    }
    proof {
        assert(items.take(len as int) =~= items);
    }
    let last = Configuration::from_sorted(cur);
    let ghost c0 = chunks@;
    chunks.push(last);
    proof {
        assert(elems_of(chunks@) =~= elems_of(c0).push(last.elems()));
        assert forall|j: int| 0 <= j < chunks@.len() implies (#[trigger] chunks@[j]).wf() && chunks@[j].elems() == weighted_partition_of(items, weights, n as nat)[j] by {
            assert(elems_of(chunks@)[j] == chunks@[j].elems());
        }
        assert(elems_of(chunks@) =~= weighted_partition_of(items, weights, n as nat));
        lemma_weighted_partition_split(items, weights, n as nat);
    }
    chunks
}

/// Chunks of a weighted partition hold only members of the configuration.
proof fn lemma_weighted_partition_members(items: Seq<u32>, weights: Map<u32, u64>, n: nat, j: int, u: u32)
    requires
        strictly_sorted(items),
        0 <= j < weighted_partition_of(items, weights, n).len(),
        weighted_partition_of(items, weights, n)[j].contains(u),
    ensures
        items.contains(u),
{
    if n >= items.len() {
        let m = items.map_values(|v: u32| seq![v]);
        assert(m[j] == seq![items[j]]);
        assert(seq![items[j]][0] == items[j]);
        let k = choose|k: int| 0 <= k < m[j].len() && m[j][k] == u;
        assert(u == items[j]);
    } else {
        lemma_greedy_members(items, weights, total_weight(items, weights), n as int);
    }
}

proof fn lemma_greedy_members(items: Seq<u32>, weights: Map<u32, u64>, total: int, n: int)
    ensures
        forall|j: int, u: u32| 0 <= j < greedy(items, weights, total, n).0.len() && #[trigger] greedy(items, weights, total, n).0[j].contains(u) ==> items.contains(u),
        forall|u: u32| #[trigger] greedy(items, weights, total, n).1.contains(u) ==> items.contains(u),
    decreases items.len(),
{
    if items.len() > 0 {
        let prev = items.drop_last();
        lemma_greedy_members(prev, weights, total, n);
        assert forall|u: u32| prev.contains(u) implies items.contains(u) by {
            let k = choose|k: int| 0 <= k < prev.len() && prev[k] == u;
            assert(items[k] == u);
        }
        assert(items[items.len() - 1] == items.last());
        let g = greedy(items, weights, total, n);
        let p = greedy(prev, weights, total, n);
        assert forall|u: u32| g.1.contains(u) implies items.contains(u) by {
            let k = choose|k: int| 0 <= k < g.1.len() && g.1[k] == u;
            if k < g.1.len() - 1 || g.1.len() > 1 && k < g.1.len() - 1 {
                assert(p.1.contains(u) || u == items.last());
            }
        }
        assert forall|j: int, u: u32| 0 <= j < g.0.len() && #[trigger] g.0[j].contains(u) implies items.contains(u) by {
            if j < p.0.len() {
                assert(g.0[j] == p.0[j]);
            } else {
                assert(g.0[j] == p.1);
            }
        }
    }
}

/// WDD is DDMin with a single change: it partitions by weight, not by count.
pub struct Wdd<'w> {
    unit2weight: &'w HashMap<u32, u64>,
    pass: DeltaQueue,
}

impl<'w> Wdd<'w> {
    /// A WDD policy over units weighted by `unit2weight`.
    pub fn new(unit2weight: &'w HashMap<u32, u64>) -> (r: Wdd<'w>)
        requires
            weights_bounded(unit2weight@),
        ensures
            r.wf(),
            r.rank() == 0,
            r.tried().is_empty(),
            !r.stopped(),
            r.fresh(),
            r.weights() == unit2weight@,
    {
        Wdd { unit2weight, pass: DeltaQueue::new() }
    }

    /// The deltas of the current pass not yet handed out, in order.
    pub closed spec fn rest(&self) -> Seq<Set<u32>> {
        self.pass.rest()
    }

    /// The weight of each unit.
    pub closed spec fn weights(&self) -> Map<u32, u64> {
        self.unit2weight@
    }
}

impl<'w> Policy for Wdd<'w> {
    closed spec fn wf(&self) -> bool {
        &&& self.pass.wf()
        &&& weights_bounded(self.unit2weight@)
        &&& self.pass.live() ==> forall|x: Set<u32>| #[trigger] singles(self.pass.subject()).contains(x)
            ==> self.pass.pending().contains(x) || self.pass.tried().contains(x)
    }

    closed spec fn tried(&self) -> Set<Set<u32>> {
        self.pass.tried()
    }

    closed spec fn last(&self) -> Option<Set<u32>> {
        self.pass.last()
    }

    closed spec fn in_pass(&self) -> bool {
        self.pass.live()
    }

    closed spec fn stopped(&self) -> bool {
        self.pass.stopped()
    }

    closed spec fn fresh(&self) -> bool {
        self.pass.fresh()
    }

    /// A WDD run stops only where no single unit can go.
    open spec fn settled(&self, c: Set<u32>) -> Set<Set<u32>> {
        singles(c)
    }

    open spec fn domain(&self) -> Set<u32> {
        self.weights().dom()
    }

    closed spec fn subject(&self) -> Set<u32> {
        self.pass.subject()
    }

    open spec fn promised(&self, elems: Seq<u32>) -> Set<Set<u32>> {
        delta_sets(wdd_deltas(elems, self.weights()))
    }

    closed spec fn pending(&self) -> Set<Set<u32>> {
        self.pass.pending()
    }

    closed spec fn budget(&self) -> nat {
        self.pass.budget()
    }

    open spec fn rank(&self) -> nat {
        0
    }

    open spec fn rank_cap() -> nat {
        0
    }

    fn propose(&mut self, config: &Configuration)
        ensures
            final(self).rest() == set_seq(wdd_deltas(config.elems(), old(self).weights())),
    {
        let ghost items = config.elems();
        let ghost weights = self.unit2weight@;
        let units = config.len();
        proof {
            config.lemma_wf();
        }
        assert(total_weight(items, weights) <= u64::MAX);
        let mut queue: Vec<Delta> = Vec::new();
        let mut n: usize = 2;
        assert(elems_of(queue@) =~= Seq::<Seq<u32>>::empty());
        loop
            invariant_except_break
                elems_of(queue@) + wdd_from(items, weights, n as nat) == wdd_deltas(items, weights),
            invariant
                items == config.elems(),
                weights == self.unit2weight@,
                config.wf(),
                config@.subset_of(weights.dom()),
                total_weight(items, weights) <= u64::MAX,
                units == items.len(),
                n >= 1,
                queue_ok(queue@, config@),
            ensures
                elems_of(queue@) == wdd_deltas(items, weights),
            decreases units - n,
        {
            // ... only the partitioning is weight-aware
            let subsets = weighted_partition(config, n, self.unit2weight);
            proof {
                assert forall|j: int| 0 <= j < subsets@.len() implies (#[trigger] subsets@[j])@.subset_of(config@) by {
                    assert forall|u: u32| subsets@[j]@.contains(u) implies config@.contains(u) by {
                        lemma_weighted_partition_members(items, weights, n as nat, j, u);
                    }
                }
                assert(elems_of(subsets@) =~= weighted_partition_of(items, weights, n as nat));
            }
            append_pass(&mut queue, config, &subsets);
            // the same n = 2, 4, 8, ... escalation as DDMin
            if n < units {
                n = if n > units / 2 { units } else { 2 * n };
            } else {
                break;
            }
        }
        self.pass.install(queue, Ghost(config@));
        proof {
            lemma_wdd_singles(items, weights);
        }
    }

    fn next_delta(&mut self) -> (d: Option<Delta>)
        ensures
            old(self).rest().len() == 0 ==> d is None,
            old(self).rest().len() > 0 ==> (d matches Some(x) && x@ == old(self).rest()[0]
                && final(self).rest() == old(self).rest().drop_first()),
    {
        self.pass.pop()
    }

    fn on_reduced(&mut self, reduced: Option<&Configuration>) -> (go: bool) {
        self.pass.report(reduced.is_some());
        reduced.is_some()
    }
}

} // verus!
