//! DDMin, the original delta debugging policy, and the `partition` utility.
use vstd::prelude::*;
use crate::config::{Configuration, Delta, strictly_sorted};
use crate::policy::{Policy, Verdict, rejected};

verus! {

/// `ceil(a / b)`.
pub open spec fn div_ceil(a: nat, b: nat) -> nat {
    if a % b == 0 {
        a / b
    } else {
        a / b + 1
    }
}

/// Consecutive pieces of `items` of length `size`; the last may be shorter.
pub open spec fn chunks(items: Seq<u32>, size: nat) -> Seq<Seq<u32>>
    decreases items.len(),
{
    if items.len() == 0 || size == 0 {
        seq![]
    } else if items.len() <= size {
        seq![items]
    } else {
        seq![items.take(size as int)] + chunks(items.skip(size as int), size)
    }
}

/// The sorted members cut into at most `n` contiguous chunks of
/// `ceil(len / n)` members each.
pub open spec fn partition_of(items: Seq<u32>, n: nat) -> Seq<Seq<u32>> {
    if n == 0 || items.len() == 0 {
        seq![]
    } else {
        chunks(items, div_ceil(items.len(), n))
    }
}

/// The members of `items` outside `d`.
pub open spec fn complement(items: Seq<u32>, d: Seq<u32>) -> Seq<u32> {
    items.filter(|u: u32| !d.contains(u))
}

/// The deltas of one pass over `subsets`: first every complement (keep only
/// a subset), then every subset (drop it); empty ones are left out.
pub open spec fn pass_of(items: Seq<u32>, subsets: Seq<Seq<u32>>) -> Seq<Seq<u32>> {
    (subsets.map_values(|d: Seq<u32>| complement(items, d)) + subsets).filter(|d: Seq<u32>| d.len() > 0)
}

/// The deltas of one granularity of DDMin.
pub open spec fn pass_deltas(items: Seq<u32>, n: nat) -> Seq<Seq<u32>> {
    pass_of(items, partition_of(items, n))
}

/// The member lists of a list of sets.
pub open spec fn elems_of(ds: Seq<Configuration>) -> Seq<Seq<u32>> {
    ds.map_values(|d: Configuration| d.elems())
}

/// A queue of well-formed, nonempty deltas inside `subject`.
pub open spec fn queue_ok(q: Seq<Delta>, subject: Set<u32>) -> bool {
    forall|i: int| 0 <= i < q.len() ==> {
        &&& (#[trigger] q[i]).wf()
        &&& !q[i]@.is_empty()
        &&& q[i]@.subset_of(subject)
    }
}

/// Appends the deltas of one pass over `subsets` to `queue`.
pub fn append_pass(queue: &mut Vec<Delta>, config: &Configuration, subsets: &Vec<Delta>)
    requires
        config.wf(),
        queue_ok(old(queue)@, config@),
        forall|j: int| 0 <= j < subsets@.len() ==> (#[trigger] subsets@[j]).wf() && subsets@[j]@.subset_of(config@),
    ensures
        queue_ok(final(queue)@, config@),
        elems_of(final(queue)@) == elems_of(old(queue)@) + pass_of(config.elems(), elems_of(subsets@)),
{
    let ghost items = config.elems();
    let ghost parts = elems_of(subsets@);
    let ghost comps = parts.map_values(|d: Seq<u32>| complement(items, d));
    let ghost nonempty = |d: Seq<u32>| d.len() > 0;
    let ghost before = elems_of(queue@);
    // First every delta that keeps only one subset ...
    let mut i: usize = 0;
    while i < subsets.len()
        invariant
            items == config.elems(),
            config.wf(),
            parts == elems_of(subsets@),
            forall|j: int| 0 <= j < subsets@.len() ==> (#[trigger] subsets@[j]).wf() && subsets@[j]@.subset_of(config@),
            comps == parts.map_values(|d: Seq<u32>| complement(items, d)),
            nonempty == (|d: Seq<u32>| d.len() > 0),
            i <= subsets@.len(),
            queue_ok(queue@, config@),
            elems_of(queue@) == before + comps.take(i as int).filter(nonempty),
        decreases subsets.len() - i,
    {
        let keep = config.difference(&subsets[i]);
        proof {
            assert(comps.take(i as int + 1).drop_last() =~= comps.take(i as int));
            reveal_with_fuel(Seq::filter, 1);
            assert(keep.elems() == comps[i as int]) by {
                assert(subsets@[i as int]@ =~= parts[i as int].to_set());
                assert((|u: u32| !subsets@[i as int]@.contains(u)) =~= (|u: u32| !parts[i as int].contains(u)));
            }
            keep.lemma_wf();
        }
        let ghost q0 = queue@;
        proof {
            let t = comps.take(i as int + 1);
            assert(t.filter(nonempty) == if nonempty(t.last()) { t.drop_last().filter(nonempty).push(t.last()) } else { t.drop_last().filter(nonempty) });
            assert(t.last() == keep.elems());
        }
        if !keep.is_empty() {
            queue.push(keep);
            proof {
                assert(elems_of(queue@) =~= elems_of(q0).push(keep.elems()));
            }
        }
        proof {
            assert(elems_of(queue@) =~= before + comps.take(i as int + 1).filter(nonempty));
        }
        i = i + 1;
    }
    proof {
        assert(comps.take(i as int) =~= comps);
    }
    // ... then every delta that drops one subset.
    let ghost mid = elems_of(queue@);
    let mut i: usize = 0;
    while i < subsets.len()
        invariant
            items == config.elems(),
            config.wf(),
            parts == elems_of(subsets@),
            forall|j: int| 0 <= j < subsets@.len() ==> (#[trigger] subsets@[j]).wf() && subsets@[j]@.subset_of(config@),
            nonempty == (|d: Seq<u32>| d.len() > 0),
            i <= subsets@.len(),
            queue_ok(queue@, config@),
            elems_of(queue@) == mid + parts.take(i as int).filter(nonempty),
        decreases subsets.len() - i,
    {
        proof {
            assert(parts.take(i as int + 1).drop_last() =~= parts.take(i as int));
            reveal_with_fuel(Seq::filter, 1);
            subsets@[i as int].lemma_wf();
        }
        let ghost q0 = queue@;
        proof {
            let t = parts.take(i as int + 1);
            assert(t.filter(nonempty) == if nonempty(t.last()) { t.drop_last().filter(nonempty).push(t.last()) } else { t.drop_last().filter(nonempty) });
            assert(t.last() == subsets@[i as int].elems());
        }
        if !subsets[i].is_empty() {
            let d = subsets[i].copy();
            queue.push(d);
            proof {
                assert(elems_of(queue@) =~= elems_of(q0).push(d.elems()));
            }
        }
        proof {
            assert(elems_of(queue@) =~= mid + parts.take(i as int + 1).filter(nonempty));
        }
        i = i + 1;
    }
    proof {
        assert(parts.take(i as int) =~= parts);
        Seq::filter_distributes_over_add(comps, parts, nonempty);
        assert(elems_of(queue@) =~= before + pass_of(items, parts));
    }
}

/// The next granularity after `n`: doubled, capped at `units`.
pub open spec fn next_granularity(n: nat, units: nat) -> nat {
    if 2 * n <= units {
        2 * n
    } else {
        units
    }
}

/// The deltas DDMin proposes from granularity `n` on.
pub open spec fn ddmin_from(items: Seq<u32>, n: nat) -> Seq<Seq<u32>>
    decreases items.len() - n,
{
    if 1 <= n < items.len() {
        pass_deltas(items, n) + ddmin_from(items, next_granularity(n, items.len()))
    } else {
        pass_deltas(items, n)
    }
}

/// Every delta of a DDMin pass, granularities `2, 4, 8, ...` up to the size.
pub open spec fn ddmin_deltas(items: Seq<u32>) -> Seq<Seq<u32>> {
    ddmin_from(items, 2)
}

/// Split `config` into at most `n` roughly-equal, disjoint subsets.
pub fn partition(config: &Configuration, n: usize) -> (r: Vec<Delta>)
    requires
        config.wf(),
    ensures
        r@.len() == partition_of(config.elems(), n as nat).len(),
        forall|i: int| 0 <= i < r@.len() ==> (#[trigger] r@[i]).wf() && r@[i].elems() == partition_of(config.elems(), n as nat)[i],
        elems_of(r@) == partition_of(config.elems(), n as nat),
        n >= 1 ==> elems_of(r@).flatten() == config.elems(),
        r@.len() <= n,
{
    let ghost items = config.elems();
    let len = config.len();
    let mut out: Vec<Delta> = Vec::new();
    if n == 0 || len == 0 {
        proof {
            assert(elems_of(out@) =~= partition_of(items, n as nat));
            if n >= 1 {
                assert(elems_of(out@).flatten() =~= items);
            }
        }
        return out;
    }
    proof {
        if len % n != 0 {
            assert(n != 1);
            vstd::arithmetic::div_mod::lemma_div_is_ordered_by_denominator(len as int, 2, n as int);
            vstd::arithmetic::div_mod::lemma_div_decreases(len as int, 2);
        }
    }
    let size = if len % n == 0 { len / n } else { len / n + 1 };
    assert(size as nat == div_ceil(len as nat, n as nat));
    assert(size >= 1) by {
        if len % n == 0 {
            assert(len / n >= 1) by (nonlinear_arith)
                requires
                    len >= 1,
                    n >= 1,
                    len % n == 0,
            ;
        }
    }
    let ghost mut og: Seq<Seq<u32>> = seq![];
    let mut start: usize = 0;
    assert(items.skip(0) =~= items);
    assert(og + chunks(items.skip(start as int), size as nat) =~= chunks(items, size as nat));
    while start < len
        invariant
            items == config.elems(),
            config.wf(),
            len == items.len(),
            size >= 1,
            start <= len,
            og.len() == out@.len(),
            forall|i: int| 0 <= i < out@.len() ==> (#[trigger] out@[i]).wf() && out@[i].elems() == og[i],
            chunks(items, size as nat) == og + chunks(items.skip(start as int), size as nat),
        decreases len - start,
    {
        let end = if len - start <= size { len } else { start + size };
        let chunk = config.slice(start, end);
        proof {
            let rest = items.skip(start as int);
            assert(rest.len() > 0);
            if rest.len() <= size {
                assert(chunks(rest, size as nat) == seq![rest]);
                assert(items.subrange(start as int, end as int) =~= rest);
                assert(items.skip(end as int) =~= Seq::<u32>::empty());
                assert(chunks(items.skip(end as int), size as nat) =~= Seq::<Seq<u32>>::empty());
                assert(og + chunks(rest, size as nat) =~= og.push(rest) + chunks(items.skip(end as int), size as nat));
            } else {
                assert(rest.skip(size as int) =~= items.skip(end as int));
                assert(rest.take(size as int) =~= items.subrange(start as int, end as int));
                assert(og + chunks(rest, size as nat) =~= og.push(rest.take(size as int)) + chunks(items.skip(end as int), size as nat));
            }
            og = og.push(items.subrange(start as int, end as int));
        }
        out.push(chunk);
        start = end;
    }
    proof {
        assert(chunks(items.skip(start as int), size as nat) =~= Seq::<Seq<u32>>::empty());
        assert(og =~= chunks(items, size as nat));
        assert(elems_of(out@) =~= og);
        lemma_partition_split(items, n as nat);
    }
    out
}

/// Chunks of length `size` split `items` exactly: in order they make up
/// `items`, none is empty, all are `size` long but the last, which is at most
/// that, and there are as few as can hold `items`.
proof fn lemma_chunks_split(items: Seq<u32>, size: nat)
    requires
        size >= 1,
    ensures
        chunks(items, size).flatten() == items,
        forall|i: int| 0 <= i < chunks(items, size).len() ==> 0 < (#[trigger] chunks(items, size)[i]).len() <= size,
        forall|i: int| 0 <= i < chunks(items, size).len() - 1 ==> (#[trigger] chunks(items, size)[i]).len() == size,
        (chunks(items, size).len() - 1) * size < items.len() || items.len() == 0,
        items.len() == 0 <==> chunks(items, size).len() == 0,
    decreases items.len(),
{
    let c = chunks(items, size);
    if items.len() == 0 {
        assert(c.flatten() =~= items);
    } else if items.len() <= size {
        assert(c == seq![items]);
        assert(c.drop_first() =~= Seq::<Seq<u32>>::empty());
        assert(c.drop_first().flatten() =~= Seq::<u32>::empty());
        assert(c.flatten() == c.first() + c.drop_first().flatten());
        assert(c.flatten() =~= items);
    } else {
        let rest = items.skip(size as int);
        lemma_chunks_split(rest, size);
        let rc = chunks(rest, size);
        assert(c == seq![items.take(size as int)] + rc);
        assert(c.drop_first() =~= rc);
        assert(c.flatten() == items.take(size as int) + rc.flatten());
        assert(items.take(size as int) + rest =~= items);
        assert forall|i: int| 0 <= i < c.len() implies 0 < (#[trigger] c[i]).len() <= size by {
            if i > 0 {
                assert(c[i] == rc[i - 1]);
            }
        }
        assert forall|i: int| 0 <= i < c.len() - 1 implies (#[trigger] c[i]).len() == size by {
            if i > 0 {
                assert(c[i] == rc[i - 1]);
            }
        }
        assert((c.len() - 1) * size == (rc.len() - 1) * size + size) by (nonlinear_arith)
            requires
                c.len() == rc.len() + 1,
        ;
    }
}

/// Law: `partition` splits the members exactly. For `n >= 1` its chunks,
/// in order, make up the members in increasing order -- each member lies in
/// exactly one chunk -- none is empty, there are at most `n` of them, and
/// each holds at most `ceil(len / n)` members, all but the last exactly that.
pub proof fn lemma_partition_split(items: Seq<u32>, n: nat)
    requires
        n >= 1,
    ensures
        partition_of(items, n).flatten() == items,
        partition_of(items, n).len() <= n,
        forall|i: int| 0 <= i < partition_of(items, n).len() ==>
            0 < (#[trigger] partition_of(items, n)[i]).len() && partition_of(items, n)[i].len() * n < items.len() + n,
        forall|i: int| 0 <= i < partition_of(items, n).len() - 1 ==>
            (#[trigger] partition_of(items, n)[i]).len() * n >= items.len(),
{
    let len = items.len();
    if len == 0 {
        assert(partition_of(items, n).flatten() =~= items);
    } else {
        let size = div_ceil(len, n);
        assert(size * n >= len && size * n < len + n && size >= 1) by {
            vstd::arithmetic::div_mod::lemma_fundamental_div_mod(len as int, n as int);
            assert(len == n * (len / n) + len % n);
            assert(0 <= len % n < n);
            if len % n == 0 {
                assert(size * n == len) by (nonlinear_arith)
                    requires size == len / n, len == n * (len / n) + len % n, len % n == 0;
                assert(size >= 1) by (nonlinear_arith)
                    requires size * n == len, len >= 1, n >= 1;
            } else {
                let q = (len / n) as int;
                let r = (len % n) as int;
                assert(size * n == len - r + n) by (nonlinear_arith)
                    requires size == q + 1, len == n * q + r;
            }
        }
        lemma_chunks_split(items, size);
        let c = chunks(items, size);
        assert(c.len() <= n) by {
            assert((c.len() - 1) * size < len);
            if c.len() > n {
                assert((c.len() - 1) * size >= n * size) by (nonlinear_arith)
                    requires c.len() - 1 >= n, size >= 1;
            }
        }
        assert forall|i: int| 0 <= i < c.len() implies 0 < (#[trigger] c[i]).len() && c[i].len() * n < len + n by {
            assert(c[i].len() * n <= size * n) by (nonlinear_arith)
                requires c[i].len() <= size;
        }
    }
}

/// Chunks of a sequence hold only its members.
pub proof fn lemma_chunks_members(items: Seq<u32>, size: nat, i: int, u: u32)
    requires
        0 <= i < chunks(items, size).len(),
        chunks(items, size)[i].contains(u),
    ensures
        items.contains(u),
    decreases items.len(),
{
    if items.len() <= size {
    } else {
        let rest = items.skip(size as int);
        if i == 0 {
            let k = choose|k: int| 0 <= k < items.take(size as int).len() && items.take(size as int)[k] == u;
            assert(items[k] == u);
        } else {
            assert(chunks(items, size)[i] == chunks(rest, size)[i - 1]);
            lemma_chunks_members(rest, size, i - 1, u);
            let k = choose|k: int| 0 <= k < rest.len() && rest[k] == u;
            assert(items[k + size] == u);
        }
    }
}

/// With chunks of one member each, chunk `i` is the `i`-th member alone.
pub proof fn lemma_chunks_singletons(items: Seq<u32>, i: int)
    requires
        0 <= i < items.len(),
    ensures
        chunks(items, 1).len() == items.len(),
        chunks(items, 1)[i] == seq![items[i]],
    decreases items.len(),
{
    lemma_chunks_len_one(items);
    if items.len() <= 1 {
        assert(items =~= seq![items[0]]);
    } else if i == 0 {
        assert(items.take(1) =~= seq![items[0]]);
    } else {
        let rest = items.skip(1);
        lemma_chunks_singletons(rest, i - 1);
        assert(rest[i - 1] == items[i]);
    }
}

proof fn lemma_chunks_len_one(items: Seq<u32>)
    ensures
        chunks(items, 1).len() == items.len(),
    decreases items.len(),
{
    if items.len() > 1 {
        lemma_chunks_len_one(items.skip(1));
    }
}

/// The last granularity DDMin reaches covers every member alone.
proof fn lemma_ddmin_from_last(items: Seq<u32>, n: nat)
    requires
        n >= 1,
        items.len() >= 1,
    ensures
        exists|g: nat| g >= items.len() && g >= 1 && #[trigger] is_suffix_pass(ddmin_from(items, n), pass_deltas(items, g)),
    decreases items.len() - n,
{
    if n < items.len() {
        let m = next_granularity(n, items.len());
        lemma_ddmin_from_last(items, m);
        let g = choose|g: nat| g >= items.len() && g >= 1 && #[trigger] is_suffix_pass(ddmin_from(items, m), pass_deltas(items, g));
        let a = pass_deltas(items, n);
        let b = ddmin_from(items, m);
        assert(ddmin_from(items, n) == a + b);
        assert forall|d: Seq<u32>| pass_deltas(items, g).contains(d) implies (a + b).contains(d) by {
            let k = choose|k: int| 0 <= k < b.len() && b[k] == d;
            assert((a + b)[a.len() + k] == d);
        }
        assert(is_suffix_pass(ddmin_from(items, n), pass_deltas(items, g)));
    } else {
        assert(is_suffix_pass(ddmin_from(items, n), pass_deltas(items, n)));
    }
}

/// Every delta of `pass` occurs in `all`.
pub open spec fn is_suffix_pass(all: Seq<Seq<u32>>, pass: Seq<Seq<u32>>) -> bool {
    forall|d: Seq<u32>| pass.contains(d) ==> all.contains(d)
}

/// Law: every single member is among the deltas a DDMin pass promises, so a
/// DDMin fixpoint is 1-minimal (no single unit can be removed).
pub proof fn lemma_ddmin_promises_singletons(items: Seq<u32>, k: int)
    requires
        0 <= k < items.len(),
    ensures
        ddmin_deltas(items).contains(seq![items[k]]),
{
    lemma_ddmin_from_last(items, 2);
    let g = choose|g: nat| g >= items.len() && g >= 1 && #[trigger] is_suffix_pass(ddmin_from(items, 2), pass_deltas(items, g));
    let len = items.len();
    assert(div_ceil(len, g) == 1) by {
        if g == len {
            vstd::arithmetic::div_mod::lemma_mod_self_0(len as int);
            vstd::arithmetic::div_mod::lemma_div_by_self(len as int);
        } else {
            vstd::arithmetic::div_mod::lemma_small_mod(len, g);
            vstd::arithmetic::div_mod::lemma_basic_div(len as int, g as int);
        }
    }
    let subsets = partition_of(items, g);
    assert(subsets == chunks(items, 1));
    lemma_chunks_singletons(items, k);
    let comp = subsets.map_values(|d: Seq<u32>| complement(items, d));
    let all = comp + subsets;
    assert(all[comp.len() + k] == seq![items[k]]);
    let f = |d: Seq<u32>| d.len() > 0;
    all.lemma_filter_contains(f, comp.len() + k);
    assert(pass_deltas(items, g).contains(seq![items[k]]));
}

/// Law: where a DDMin pass over `r` ran dry, `r` is 1-minimal: the oracle
/// rejected `r` without any single one of its units.
pub proof fn lemma_ddmin_fixpoint_one_minimal<F: Fn(&Configuration) -> Verdict>(oracle: F, r: Configuration)
    requires
        r.wf(),
        forall|x: Set<u32>| #[trigger] delta_sets(ddmin_deltas(r.elems())).contains(x) ==> rejected(oracle, r@.difference(x)),
    ensures
        forall|u: u32| r@.contains(u) ==> rejected(oracle, #[trigger] r@.remove(u)),
{
    assert forall|u: u32| r@.contains(u) implies rejected(oracle, #[trigger] r@.remove(u)) by {
        let k = choose|k: int| 0 <= k < r.elems().len() && r.elems()[k] == u;
        lemma_ddmin_promises_singletons(r.elems(), k);
        let ds = ddmin_deltas(r.elems());
        let j = choose|j: int| 0 <= j < ds.len() && ds[j] == seq![u];
        assert(ds.map_values(|d: Seq<u32>| d.to_set())[j] == seq![u].to_set());
        assert(seq![u].to_set() =~= set![u]) by {
            assert(seq![u][0] == u);
            assert forall|x: u32| seq![u].to_set().contains(x) implies x == u by {
                let i = choose|i: int| 0 <= i < seq![u].len() && seq![u][i] == x;
            }
        }
        assert(delta_sets(ds).contains(set![u]));
        assert(r@.difference(set![u]) =~= r@.remove(u));
    }
}

/// The one-unit deltas of `c`.
pub open spec fn singles(c: Set<u32>) -> Set<Set<u32>> {
    Set::new(|s: Set<u32>| exists|u: u32| c.contains(u) && s == set![u])
}

/// Each member's one-unit delta is among the deltas of a DDMin pass.
pub proof fn lemma_ddmin_singles(items: Seq<u32>)
    ensures
        singles(items.to_set()).subset_of(delta_sets(ddmin_deltas(items))),
{
    assert forall|x: Set<u32>| #[trigger] singles(items.to_set()).contains(x) implies delta_sets(ddmin_deltas(items)).contains(x) by {
        let u = choose|u: u32| items.to_set().contains(u) && x == set![u];
        let k = choose|k: int| 0 <= k < items.len() && items[k] == u;
        lemma_ddmin_promises_singletons(items, k);
        let ds = ddmin_deltas(items);
        let j = choose|j: int| 0 <= j < ds.len() && ds[j] == seq![u];
        assert(ds.map_values(|d: Seq<u32>| d.to_set())[j] == seq![u].to_set());
        assert(seq![u].to_set() =~= set![u]) by {
            assert(seq![u][0] == u);
            assert forall|y: u32| seq![u].to_set().contains(y) implies y == u by {
                let i = choose|i: int| 0 <= i < seq![u].len() && seq![u][i] == y;
            }
        }
    }
}

/// The sets of a list of member sequences, in order.
pub open spec fn set_seq(ds: Seq<Seq<u32>>) -> Seq<Set<u32>> {
    ds.map_values(|d: Seq<u32>| d.to_set())
}

/// The deltas of one pass, handed out in order.
pub struct DeltaQueue {
    queue: Vec<Delta>,
    pos: usize,
    subject: Ghost<Set<u32>>,
    // what was handed out since the last reduction, and in this pass
    tried: Ghost<Set<Set<u32>>>,
    last: Ghost<Option<Set<u32>>>,
    live: Ghost<bool>,
    stopped: Ghost<bool>,
    fresh: Ghost<bool>,
}

impl DeltaQueue {
    /// An exhausted queue.
    pub fn new() -> (r: DeltaQueue)
        ensures
            r.wf(),
            r.pending() == Set::<Set<u32>>::empty(),
            r.subject() == Set::<u32>::empty(),
            r.budget() == 0,
            r.rest() == Seq::<Set<u32>>::empty(),
            r.tried() == Set::<Set<u32>>::empty(),
            r.last() is None,
            !r.live(),
            !r.stopped(),
            r.fresh(),
    {
        let r = DeltaQueue {
            queue: Vec::new(),
            pos: 0,
            subject: Ghost(Set::empty()),
            tried: Ghost(Set::empty()),
            last: Ghost(None),
            live: Ghost(false),
            stopped: Ghost(false),
            fresh: Ghost(true),
        };
        assert(r.pending() =~= Set::<Set<u32>>::empty());
        assert(r.rest() =~= Seq::<Set<u32>>::empty());
        r
    }

    /// The queue's invariant.
    pub closed spec fn wf(&self) -> bool {
        &&& self.pos <= self.queue@.len()
        &&& queue_ok(self.queue@, self.subject@)
    }

    /// The configuration the deltas are drawn from.
    pub closed spec fn subject(&self) -> Set<u32> {
        self.subject@
    }

    /// The deltas not yet handed out.
    pub closed spec fn pending(&self) -> Set<Set<u32>> {
        Set::new(|s: Set<u32>| exists|i: int| self.pos <= i < self.queue@.len() && #[trigger] self.queue@[i]@ == s)
    }

    /// The deltas handed out since the last reported reduction.
    pub closed spec fn tried(&self) -> Set<Set<u32>> {
        self.tried@
    }

    /// The delta last handed out in this pass.
    pub closed spec fn last(&self) -> Option<Set<u32>> {
        self.last@
    }

    /// A pass was installed and no reduction reported since.
    pub closed spec fn live(&self) -> bool {
        self.live@
    }

    /// Nothing was handed out since the queue was built or a reduction
    /// was reported.
    pub closed spec fn fresh(&self) -> bool {
        self.fresh@
    }

    /// Whether the last reported pass ran dry.
    pub closed spec fn stopped(&self) -> bool {
        self.stopped@
    }

    /// Records the outcome of a pass: after a reduction nothing has been
    /// tried on the new configuration yet; a pass that ran dry ends the run.
    pub fn report(&mut self, reduced: bool)
        ensures
            final(self).wf() == old(self).wf(),
            final(self).subject() == old(self).subject(),
            final(self).pending() == old(self).pending(),
            final(self).rest() == old(self).rest(),
            final(self).budget() == old(self).budget(),
            final(self).last() == old(self).last(),
            reduced ==> final(self).tried() == Set::<Set<u32>>::empty() && !final(self).live(),
            !reduced ==> final(self).tried() == old(self).tried() && final(self).live() == old(self).live(),
            final(self).stopped() == !reduced,
            reduced ==> final(self).fresh(),
            !reduced ==> final(self).fresh() == old(self).fresh(),
    {
        self.stopped = Ghost(!reduced);
        if reduced {
            self.fresh = Ghost(true);
            self.tried = Ghost(Set::empty());
            self.live = Ghost(false);
        }
    }

    /// The deltas not yet handed out, in the order they come.
    pub closed spec fn rest(&self) -> Seq<Set<u32>> {
        self.queue@.subrange(self.pos as int, self.queue@.len() as int).map_values(|d: Delta| d@)
    }

    /// How many deltas are left.
    pub closed spec fn budget(&self) -> nat {
        (self.queue@.len() - self.pos) as nat
    }

    /// Starts handing out `queue` from its first delta.
    pub fn install(&mut self, queue: Vec<Delta>, Ghost(subject): Ghost<Set<u32>>)
        requires
            queue_ok(queue@, subject),
        ensures
            final(self).wf(),
            final(self).subject() == subject,
            final(self).pending() == delta_sets(elems_of(queue@)),
            final(self).rest() == set_seq(elems_of(queue@)),
            final(self).tried() == old(self).tried(),
            final(self).last() is None,
            final(self).live(),
            final(self).stopped() == old(self).stopped(),
            final(self).fresh() == old(self).fresh(),
    {
        let ghost qg = elems_of(queue@);
        self.queue = queue;
        self.pos = 0;
        self.subject = Ghost(subject);
        self.last = Ghost(None);
        self.live = Ghost(true);
        proof {
            assert(self.rest() =~= set_seq(qg));
            assert(self.pending() =~= delta_sets(qg)) by {
                assert forall|s: Set<u32>| self.pending().contains(s) implies delta_sets(qg).contains(s) by {
                    let i = choose|i: int| self.pos <= i < self.queue@.len() && #[trigger] self.queue@[i]@ == s;
                    assert(qg.map_values(|d: Seq<u32>| d.to_set())[i] == s);
                }
                assert forall|s: Set<u32>| delta_sets(qg).contains(s) implies self.pending().contains(s) by {
                    let sets = qg.map_values(|d: Seq<u32>| d.to_set());
                    let i = choose|i: int| 0 <= i < sets.len() && sets[i] == s;
                    assert(self.queue@[i]@ == s);
                }
            }
        }
    }

    /// The next delta, if any.
    pub fn pop(&mut self) -> (d: Option<Delta>)
        requires
            old(self).wf(),
        ensures
            final(self).wf(),
            final(self).subject() == old(self).subject(),
            d is None ==> old(self).pending().is_empty(),
            d matches Some(x) ==> {
                &&& x.wf()
                &&& !x@.is_empty()
                &&& x@.subset_of(old(self).subject())
                &&& final(self).budget() < old(self).budget()
            },
            forall|s: Set<u32>| #[trigger] old(self).pending().contains(s) ==>
                final(self).pending().contains(s) || (d matches Some(x) && x@ == s),
            old(self).rest().len() == 0 ==> d is None,
            old(self).rest().len() > 0 ==> (d matches Some(x) && x@ == old(self).rest()[0]
                && final(self).rest() == old(self).rest().drop_first()),
            final(self).live() == old(self).live(),
            final(self).stopped() == old(self).stopped(),
            final(self).fresh() == (old(self).fresh() && d is None),
            d is None ==> final(self).pending().is_empty(),
            d is None ==> final(self).tried() == old(self).tried() && final(self).last() == old(self).last(),
            d matches Some(x) ==> final(self).tried() == old(self).tried().insert(x@) && final(self).last() == Some(x@),
    {
        if self.pos < self.queue.len() {
            let d = self.queue[self.pos].copy();
            self.tried = Ghost(self.tried@.insert(d@));
            self.last = Ghost(Some(d@));
            self.fresh = Ghost(false);
            let ghost old_pos = self.pos;
            self.pos = self.pos + 1;
            proof {
                assert forall|s: Set<u32>| #[trigger] old(self).pending().contains(s) implies
                    self.pending().contains(s) || d@ == s by {
                    let i = choose|i: int| old_pos <= i < self.queue@.len() && #[trigger] self.queue@[i]@ == s;
                    if i > old_pos {
                        assert(self.queue@[i]@ == s);
                    }
                }
            }
            proof {
                assert(self.rest() =~= old(self).rest().drop_first());
            }
            Some(d)
        } else {
            proof {
                assert(self.pending() =~= Set::empty());
            }
            None
        }
    }
}

/// The sets of a list of member sequences.
pub open spec fn delta_sets(ds: Seq<Seq<u32>>) -> Set<Set<u32>> {
    ds.map_values(|d: Seq<u32>| d.to_set()).to_set()
}

/// DDMin: partitions the configuration into `n` roughly equal chunks and
/// proposes to keep each chunk, then to drop each chunk, doubling `n` from 2
/// up to the number of units. It keeps no state between passes; the queue
/// holds the deltas of the current pass.
pub struct DDMin {
    pass: DeltaQueue,
}

impl DDMin {
    /// A DDMin policy.
    pub fn new() -> (r: DDMin)
        ensures
            r.wf(),
            r.rank() == 0,
            r.tried().is_empty(),
            !r.stopped(),
            r.fresh(),
    {
        DDMin { pass: DeltaQueue::new() }
    }

    /// The deltas of the current pass not yet handed out, in order.
    pub closed spec fn rest(&self) -> Seq<Set<u32>> {
        self.pass.rest()
    }
}

impl Policy for DDMin {
    closed spec fn wf(&self) -> bool {
        &&& self.pass.wf()
        &&& self.pass.live() ==> forall|x: Set<u32>| #[trigger] singles(self.pass.subject()).contains(x)
            ==> self.pass.pending().contains(x) || self.pass.tried().contains(x)
    }

    closed spec fn tried(&self) -> Set<Set<u32>> {
        self.pass.tried()
    }

    closed spec fn last(&self) -> Option<Set<u32>> {
        self.pass.last()
    }

    closed spec fn in_pass(&self) -> bool {
        self.pass.live()
    }

    closed spec fn stopped(&self) -> bool {
        self.pass.stopped()
    }

    closed spec fn fresh(&self) -> bool {
        self.pass.fresh()
    }

    /// A DDMin run stops only where no single unit can go.
    open spec fn settled(&self, c: Set<u32>) -> Set<Set<u32>> {
        singles(c)
    }

    open spec fn domain(&self) -> Set<u32> {
        Set::full()
    }

    closed spec fn subject(&self) -> Set<u32> {
        self.pass.subject()
    }

    open spec fn promised(&self, elems: Seq<u32>) -> Set<Set<u32>> {
        delta_sets(ddmin_deltas(elems))
    }

    closed spec fn pending(&self) -> Set<Set<u32>> {
        self.pass.pending()
    }

    closed spec fn budget(&self) -> nat {
        self.pass.budget()
    }

    open spec fn rank(&self) -> nat {
        0
    }

    open spec fn rank_cap() -> nat {
        0
    }

    fn propose(&mut self, config: &Configuration)
        ensures
            final(self).rest() == set_seq(ddmin_deltas(config.elems())),
    {
        let ghost items = config.elems();
        let units = config.len();
        let mut queue: Vec<Delta> = Vec::new();
        let mut n: usize = 2;
        assert(elems_of(queue@) =~= Seq::<Seq<u32>>::empty());
        loop
            invariant_except_break
                elems_of(queue@) + ddmin_from(items, n as nat) == ddmin_deltas(items),
            invariant
                items == config.elems(),
                config.wf(),
                units == items.len(),
                n >= 1,
                queue_ok(queue@, config@),
            ensures
                elems_of(queue@) == ddmin_deltas(items),
            decreases units - n,
        {
            // n roughly-equal subsets
            let subsets = partition(config, n);
            proof {
                assert forall|j: int| 0 <= j < subsets@.len() implies (#[trigger] subsets@[j])@.subset_of(config@) by {
                    assert forall|u: u32| subsets@[j]@.contains(u) implies config@.contains(u) by {
                        lemma_chunks_members(items, div_ceil(items.len(), n as nat), j, u);
                    }
                }
                assert(elems_of(subsets@) =~= partition_of(items, n as nat));
            }
            append_pass(&mut queue, config, &subsets);
            // granularities n = 2, 4, 8, ... up to `units`
            if n < units {
                n = if n > units / 2 { units } else { 2 * n };
            } else {
                proof {
                    assert(ddmin_from(items, n as nat) == pass_deltas(items, n as nat));
                }
                break;
            }
        }
        self.pass.install(queue, Ghost(config@));
        proof {
            lemma_ddmin_singles(items);
            config.lemma_wf();
        }
    }

    fn next_delta(&mut self) -> (d: Option<Delta>)
        ensures
            old(self).rest().len() == 0 ==> d is None,
            old(self).rest().len() > 0 ==> (d matches Some(x) && x@ == old(self).rest()[0]
                && final(self).rest() == old(self).rest().drop_first()),
    {
        self.pass.pop()
    }

    fn on_reduced(&mut self, reduced: Option<&Configuration>) -> (go: bool) {
        self.pass.report(reduced.is_some());
        reduced.is_some()
    }
}

} // verus!
