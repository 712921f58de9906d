//! Perses: syntax-guided reduction. Besides HDD's deletion of `List`
//! elements it proposes node replacement: drop everything under a node
//! except a compatible descendant, promoting it into the node's place.
use vstd::prelude::*;
use std::collections::HashMap;
use crate::config::{Configuration, Delta};
use crate::policy::Policy;
use crate::shape::{NodeId, Kind};
use crate::tree::Tree;
use crate::hdd::{builds_minimizers, minimizer_step, token_deltas, lemma_owed_step, lemma_tried_step};

verus! {

/// `d` may replace `n`: a live descendant holding a present token whose kind
/// fits the slot `n` fills.
pub open spec fn is_candidate(tree: &Tree, n: NodeId, d: NodeId, present: Set<u32>) -> bool {
    &&& tree.sub(n).contains(d)
    &&& d != n
    &&& tree.holds_token(d, present)
    &&& tree.is_live(d, present)
    &&& tree.replaceable(n, d, present)
}

/// Replacing `n` by `d` removes `n`'s tokens except `d`'s.
pub open spec fn replacement(tree: &Tree, n: NodeId, d: NodeId, present: Set<u32>) -> Set<u32> {
    tree.tokens_under(n, present).difference(tree.tokens_under(d, present))
}

/// `a` comes before `b` in smallest-subtree-first order (ties by id).
pub open spec fn size_up(sizes: Map<NodeId, usize>, a: NodeId, b: NodeId) -> bool {
    sizes[a] < sizes[b] || (sizes[a] == sizes[b] && a < b)
}

/// `s` is in smallest-subtree-first order.
pub open spec fn sorted_up(sizes: Map<NodeId, usize>, s: Seq<NodeId>) -> bool {
    forall|i: int, j: int| 0 <= i < j < s.len() ==> size_up(sizes, #[trigger] s[i], #[trigger] s[j])
}

/// The nodes that may replace `n`.
pub open spec fn candidate_set(tree: &Tree, n: NodeId, present: Set<u32>) -> Set<NodeId> {
    Set::new(|d: NodeId| is_candidate(tree, n, d, present))
}

/// The nodes that may replace `n`, smallest subtree first.
pub open spec fn sorted_candidates(tree: &Tree, n: NodeId, sizes: Map<NodeId, usize>, present: Set<u32>) -> Seq<NodeId> {
    choose|s: Seq<NodeId>| sorted_up(sizes, s) && s.to_set() == candidate_set(tree, n, present)
}

/// The replacement deltas for `n`: for each candidate, smallest first, what
/// replacing `n` by it removes, when that is anything.
pub open spec fn node_replacements(tree: &Tree, n: NodeId, sizes: Map<NodeId, usize>, present: Set<u32>) -> Seq<Set<u32>> {
    sorted_candidates(tree, n, sizes, present).map_values(|d: NodeId| replacement(tree, n, d, present))
        .filter(|x: Set<u32>| !x.is_empty())
}

/// The replacement deltas for every node of `nodes`, in order.
pub open spec fn all_replacements(tree: &Tree, nodes: Seq<NodeId>, sizes: Map<NodeId, usize>, present: Set<u32>) -> Seq<Set<u32>>
    decreases nodes.len(),
{
    if nodes.len() == 0 {
        seq![]
    } else {
        all_replacements(tree, nodes.drop_last(), sizes, present) + node_replacements(tree, nodes.last(), sizes, present)
    }
}

/// The sets of a list of deltas.
pub open spec fn delta_views(ds: Seq<Delta>) -> Seq<Set<u32>> {
    ds.map_values(|d: Delta| d@)
}

/// Two sequences in smallest-subtree-first order with the same members are equal.
pub proof fn lemma_sorted_unique(sizes: Map<NodeId, usize>, a: Seq<NodeId>, b: Seq<NodeId>)
    requires
        sorted_up(sizes, a),
        sorted_up(sizes, b),
        a.to_set() == b.to_set(),
    ensures
        a == b,
    decreases a.len(),
{
    if a.len() == 0 {
        if b.len() > 0 {
            assert(b.to_set().contains(b[0]));
        }
        assert(b =~= a);
    } else {
        assert(a.to_set().contains(a[0]));
        assert(b.len() > 0);
        assert(b.to_set().contains(b[0]));
        // the first elements are both the least
        assert(a[0] == b[0]) by {
            let j = choose|j: int| 0 <= j < b.len() && b[j] == a[0];
            let i = choose|i: int| 0 <= i < a.len() && a[i] == b[0];
            if a[0] != b[0] {
                assert(j > 0 && i > 0);
                assert(size_up(sizes, b[0], b[j]));
                assert(size_up(sizes, a[0], a[i]));
            }
        }
        let a1 = a.drop_first();
        let b1 = b.drop_first();
        assert(sorted_up(sizes, a1)) by {
            assert forall|i: int, j: int| 0 <= i < j < a1.len() implies size_up(sizes, #[trigger] a1[i], #[trigger] a1[j]) by {
                assert(a1[i] == a[i + 1] && a1[j] == a[j + 1]);
            }
        }
        assert(sorted_up(sizes, b1)) by {
            assert forall|i: int, j: int| 0 <= i < j < b1.len() implies size_up(sizes, #[trigger] b1[i], #[trigger] b1[j]) by {
                assert(b1[i] == b[i + 1] && b1[j] == b[j + 1]);
            }
        }
        assert(a1.to_set() =~= b1.to_set()) by {
            assert forall|x: NodeId| a1.to_set().contains(x) implies b1.to_set().contains(x) by {
                let i = choose|i: int| 0 <= i < a1.len() && a1[i] == x;
                assert(a[i + 1] == x);
                assert(size_up(sizes, a[0], a[i + 1]));
                assert(b.to_set().contains(x));
                let j = choose|j: int| 0 <= j < b.len() && b[j] == x;
                assert(j != 0);
                assert(b1[j - 1] == x);
            }
            assert forall|x: NodeId| b1.to_set().contains(x) implies a1.to_set().contains(x) by {
                let i = choose|i: int| 0 <= i < b1.len() && b1[i] == x;
                assert(b[i + 1] == x);
                assert(size_up(sizes, b[0], b[i + 1]));
                assert(a.to_set().contains(x));
                let j = choose|j: int| 0 <= j < a.len() && a[j] == x;
                assert(j != 0);
                assert(a1[j - 1] == x);
            }
        }
        lemma_sorted_unique(sizes, a1, b1);
        assert(a =~= b) by {
            assert forall|k: int| 0 <= k < a.len() implies a[k] == b[k] by {
                if k > 0 {
                    assert(a[k] == a1[k - 1] && b[k] == b1[k - 1]);
                }
            }
        }
    }
}

/// The `List` nodes of the tree.
pub open spec fn lists(tree: &Tree) -> Set<NodeId> {
    tree.nodes().dom().filter(|n: NodeId| tree.nodes()[n].kind == Kind::List)
}

/// The first node of `nodes` that is a `List` not in `done`.
pub open spec fn first_open_list(tree: &Tree, nodes: Seq<NodeId>, done: Set<NodeId>) -> Option<NodeId>
    decreases nodes.len(),
{
    if nodes.len() == 0 {
        None
    } else if tree.nodes()[nodes[0]].kind == Kind::List && !done.contains(nodes[0]) {
        Some(nodes[0])
    } else {
        first_open_list(tree, nodes.drop_first(), done)
    }
}

/// The present elements of list `l`.
pub open spec fn list_elems(tree: &Tree, l: NodeId, c: Set<u32>) -> Set<NodeId> {
    Set::new(|e: NodeId| tree.nodes()[l].children@.contains(e) && tree.holds_token(e, c))
}

/// What a Perses run has tried on its final configuration `c`: every
/// replacement there.
pub open spec fn perses_settled(tree: &Tree, c: Set<u32>) -> Set<Set<u32>> {
    all_replacements(tree, tree.largest_first(c), tree.size_map(c), c).to_set()
}

/// The deltas of `reps` from position `pos` on.
pub open spec fn rest_of(reps: Seq<Delta>, pos: int) -> Set<Set<u32>> {
    Set::new(|x: Set<u32>| exists|i: int| pos <= i < reps.len() && #[trigger] reps[i]@ == x)
}

/// Handing out the delta at `pos` leaves the rest owed; nothing is owed past the end.
proof fn lemma_rest_step(reps: Seq<Delta>, pos: int)
    requires
        0 <= pos <= reps.len(),
    ensures
        pos < reps.len() ==> forall|x: Set<u32>| #[trigger] rest_of(reps, pos).contains(x) ==>
            rest_of(reps, pos + 1).contains(x) || x == reps[pos]@,
        pos < reps.len() ==> rest_of(reps, pos).contains(reps[pos]@),
        pos == reps.len() ==> rest_of(reps, pos).is_empty(),
{
    if pos < reps.len() {
        assert forall|x: Set<u32>| #[trigger] rest_of(reps, pos).contains(x) implies
            rest_of(reps, pos + 1).contains(x) || x == reps[pos]@ by {
            let i = choose|i: int| pos <= i < reps.len() && #[trigger] reps[i]@ == x;
            if i > pos {
                assert(rest_of(reps, pos + 1).contains(x));
            }
        }
    } else {
        assert(rest_of(reps, pos) =~= Set::<Set<u32>>::empty());
    }
}

/// Inner policies of type `P` stop after every failing pass.
pub open spec fn rankless<P: Policy>() -> bool {
    forall|p: P| #[trigger] p.wf() ==> p.rank() == 0
}

/// Perses is a Policy. Largest node first, it proposes node replacement
/// (drop everything under `n` except a compatible descendant `d`'s tokens)
/// plus, for the active `List` node, HDD's deletion.
pub struct Perses<'t, F, P> {
    tree: &'t Tree,
    new_minimizer: F,
    // keep the active `List` until it is retired or gone
    sticky: bool,
    // the active `List` node
    active: Option<NodeId>,
    // the active node's minimizer, rebuilt when `active` changes
    minimizer: Option<P>,
    // the active node's present elements
    active_elems: Configuration,
    // `List` nodes exhausted since a reduction
    done: Configuration,
    // the configuration of the current pass
    config: Configuration,
    // the replacement candidates of the current pass, and how many were handed out
    reps: Vec<Delta>,
    pos: usize,
    last_drop: Ghost<Set<NodeId>>,
    tried: Ghost<Set<Set<u32>>>,
    last: Ghost<Option<Set<u32>>>,
    live: Ghost<bool>,
    stopped: Ghost<bool>,
    fresh: Ghost<bool>,
}

impl<'t, F: Fn() -> P, P: Policy> Perses<'t, F, P> {
    /// Perses over `tree`, with deletion minimizers built by `new_minimizer`;
    /// every pass picks the largest live `List` not yet retired.
    pub fn new(tree: &'t Tree, new_minimizer: F) -> (r: Self)
        requires
            tree.wf(),
            builds_minimizers(new_minimizer, tree.nodes().dom()),
            rankless::<P>(),
        ensures
            r.wf(),
            r.tree() == tree,
            r.active() is None,
            r.retired() == Set::<NodeId>::empty(),
            !r.keeps_active(),
    {
        Self::build(tree, new_minimizer, false)
    }

    /// Perses that keeps minimizing the current `List` until it is retired
    /// or no longer live, before it picks the next one.
    pub fn sticky(tree: &'t Tree, new_minimizer: F) -> (r: Self)
        requires
            tree.wf(),
            builds_minimizers(new_minimizer, tree.nodes().dom()),
            rankless::<P>(),
        ensures
            r.wf(),
            r.tree() == tree,
            r.active() is None,
            r.retired() == Set::<NodeId>::empty(),
            r.keeps_active(),
    {
        Self::build(tree, new_minimizer, true)
    }

    fn build(tree: &'t Tree, new_minimizer: F, sticky: bool) -> (r: Self)
        requires
            tree.wf(),
            builds_minimizers(new_minimizer, tree.nodes().dom()),
            rankless::<P>(),
        ensures
            r.wf(),
            r.tree() == tree,
            r.active() is None,
            r.retired() == Set::<NodeId>::empty(),
            r.keeps_active() == sticky,
    {
        Perses {
            tree,
            new_minimizer,
            sticky,
            active: None,
            minimizer: None,
            active_elems: Configuration::new(),
            done: Configuration::new(),
            config: Configuration::new(),
            reps: Vec::new(),
            pos: 0,
            last_drop: Ghost(Set::empty()),
            tried: Ghost(Set::empty()),
            last: Ghost(None),
            live: Ghost(false),
            stopped: Ghost(false),
            fresh: Ghost(true),
        }
    }

    /// The tree.
    pub closed spec fn tree(&self) -> &'t Tree {
        self.tree
    }

    /// Does this Perses keep its active `List` while it can?
    pub closed spec fn keeps_active(&self) -> bool {
        self.sticky
    }

    /// The active `List` node.
    pub closed spec fn active(&self) -> Option<NodeId> {
        self.active
    }

    /// The `List` nodes retired since the last reduction.
    pub closed spec fn retired(&self) -> Set<NodeId> {
        self.done@
    }

    /// The active node's minimizer, once built.
    pub closed spec fn inner(&self) -> Option<P> {
        self.minimizer
    }

    /// The replacement deltas of the current pass.
    pub closed spec fn replacement_queue(&self) -> Seq<Delta> {
        self.reps@
    }

    /// How many replacement deltas of the current pass were handed out.
    pub closed spec fn handed_out(&self) -> nat {
        self.pos as nat
    }

    /// The active list's present elements, in ascending order.
    pub closed spec fn active_list(&self) -> Seq<NodeId> {
        self.active_elems.elems()
    }

    /// The nodes whose tokens the last deletion removes.
    pub closed spec fn last_drop(&self) -> Set<NodeId> {
        self.last_drop@
    }

    /// Picks the *active* `List`: the first of `nodes` (largest first) not
    /// yet retired -- unless this Perses is sticky and the current one is
    /// neither retired nor gone. Switching away from a node discards its
    /// minimizer.
    pub fn pick_active(&mut self, nodes: &Vec<NodeId>)
        requires
            old(self).wf(),
            !old(self).in_pass(),
            forall|i: int| 0 <= i < nodes@.len() ==> old(self).tree().nodes().contains_key(#[trigger] nodes@[i]),
        ensures
            final(self).wf(),
            !final(self).in_pass(),
            final(self).tried() == old(self).tried(),
            final(self).fresh() == old(self).fresh(),
            final(self).stopped() == old(self).stopped(),
            final(self).tree() == old(self).tree(),
            final(self).retired() == old(self).retired(),
            final(self).active() == if old(self).keeps_active() && (old(self).active() matches Some(a) && nodes@.contains(a)) {
                old(self).active()
            } else {
                first_open_list(old(self).tree(), nodes@, old(self).retired())
            },
            final(self).keeps_active() == old(self).keeps_active(),
            final(self).active() == old(self).active() ==> final(self).inner() == old(self).inner(),
            final(self).active() != old(self).active() ==> final(self).inner() is None,
            final(self).subject_set() == old(self).subject_set(),
            final(self).active_list() == old(self).active_list(),
    {
        let tree = self.tree;
        if self.sticky {
            if let Some(a) = self.active {
                // the active list is never retired while active
                if vec_contains(nodes, a) {
                    return;  // still minimizing the current list
                }
            }
        }
        let mut found: Option<NodeId> = None;
        let mut i: usize = 0;
        proof {
            assert(nodes@.skip(0) =~= nodes@);
        }
        while i < nodes.len() && found.is_none()
            invariant
                i <= nodes@.len(),
                tree == self.tree,
                self.wf(),
                !self.live@,
                self.tried@ == old(self).tried@,
                self.fresh@ == old(self).fresh@,
                self.stopped@ == old(self).stopped@,
                forall|k: int| 0 <= k < nodes@.len() ==> tree.nodes().contains_key(#[trigger] nodes@[k]),
                found is None ==> first_open_list(tree, nodes@, self.done@) == first_open_list(tree, nodes@.skip(i as int), self.done@),
                found is Some ==> found == first_open_list(tree, nodes@, self.done@),
            decreases nodes.len() - i,
        {
            let id = nodes[i];
            proof {
                assert(nodes@.skip(i as int)[0] == id);
                assert(nodes@.skip(i as int).drop_first() =~= nodes@.skip(i as int + 1));
            }
            if tree.node_kind(id) == Kind::List && !self.done.contains(id) {
                found = Some(id);
            }
            i = i + 1;
        }
        proof {
            if found is None {
                assert(nodes@.skip(i as int) =~= Seq::<NodeId>::empty());
            }
            lemma_first_open(tree, nodes@, self.done@);
        }
        if found != self.active {
            self.active = found;
            self.minimizer = None;
        }
    }

    /// The configuration of the current pass.
    pub closed spec fn subject_set(&self) -> Set<u32> {
        self.config@
    }

    /// Replacement candidates, biggest payoff first: for each live node `n`
    /// of `nodes`, its compatible live descendants `d`, smallest first; the
    /// delta is the wrapper, `n`'s tokens minus `d`'s.
    pub fn replacements(&self, nodes: &Vec<NodeId>, node2size: &HashMap<NodeId, usize>, config: &Configuration) -> (r: Vec<Delta>)
        requires
            self.tree().wf(),
            config.wf(),
            forall|i: int| 0 <= i < nodes@.len() ==> self.tree().nodes().contains_key(#[trigger] nodes@[i]),
            forall|n: NodeId| #[trigger] self.tree().nodes().contains_key(n) ==> node2size@.contains_key(n),
        ensures
            delta_views(r@) == all_replacements(self.tree(), nodes@, node2size@, config@),
            forall|i: int| 0 <= i < r@.len() ==> {
                &&& (#[trigger] r@[i]).wf()
                &&& !r@[i]@.is_empty()
                &&& r@[i]@.subset_of(config@)
            },
    {
        let tree = self.tree;
        let ghost sizes = node2size@;
        let mut reps: Vec<Delta> = Vec::new();
        let mut k: usize = 0;
        proof {
            assert(nodes@.take(0) =~= Seq::<NodeId>::empty());
            assert(delta_views(reps@) =~= Seq::<Set<u32>>::empty());
        }
        while k < nodes.len()
            invariant
                tree == self.tree(),
                tree.wf(),
                config.wf(),
                sizes == node2size@,
                k <= nodes@.len(),
                forall|i: int| 0 <= i < nodes@.len() ==> tree.nodes().contains_key(#[trigger] nodes@[i]),
                forall|n: NodeId| #[trigger] tree.nodes().contains_key(n) ==> node2size@.contains_key(n),
                forall|i: int| 0 <= i < reps@.len() ==> {
                    &&& (#[trigger] reps@[i]).wf()
                    &&& !reps@[i]@.is_empty()
                    &&& reps@[i]@.subset_of(config@)
                },
                delta_views(reps@) == all_replacements(tree, nodes@.take(k as int), sizes, config@),
            decreases nodes.len() - k,
        {
            let n = nodes[k];
            let ghost reps0 = delta_views(reps@);
            let n_leaves = tree.leaves_under(n, config);
            let ds = self.candidates(n, node2size, config);
            let ghost ws = ds@.map_values(|d: NodeId| replacement(tree, n, d, config@));
            let mut j: usize = 0;
            proof {
                assert(ws.take(0).filter(|x: Set<u32>| !x.is_empty()) =~= Seq::<Set<u32>>::empty()) by {
                    reveal_with_fuel(Seq::filter, 1);
                }
                assert(delta_views(reps@) =~= reps0 + ws.take(0).filter(|x: Set<u32>| !x.is_empty()));
            }
            while j < ds.len()
                invariant
                    tree == self.tree(),
                    tree.wf(),
                    config.wf(),
                    tree.nodes().contains_key(n),
                    n_leaves.wf(),
                    n_leaves@ == tree.tokens_under(n, config@),
                    j <= ds@.len(),
                    forall|t: int| 0 <= t < ds@.len() ==> is_candidate(tree, n, #[trigger] ds@[t], config@),
                    ws == ds@.map_values(|d: NodeId| replacement(tree, n, d, config@)),
                    delta_views(reps@) == reps0 + ws.take(j as int).filter(|x: Set<u32>| !x.is_empty()),
                    forall|i: int| 0 <= i < reps@.len() ==> {
                        &&& (#[trigger] reps@[i]).wf()
                        &&& !reps@[i]@.is_empty()
                        &&& reps@[i]@.subset_of(config@)
                    },
                decreases ds.len() - j,
            {
                let d = ds[j];
                proof {
                    assert(is_candidate(tree, n, ds@[j as int], config@));
                    tree.lemma_sub_nodes(n, d);
                }
                let d_leaves = tree.leaves_under(d, config);
                let delta = n_leaves.difference(&d_leaves);
                let ghost before = delta_views(reps@);
                if !delta.is_empty() {
                    reps.push(delta);
                }
                proof {
                    let p = |x: Set<u32>| !x.is_empty();
                    reveal_with_fuel(Seq::filter, 1);
                    assert(ws.take(j as int + 1).drop_last() =~= ws.take(j as int));
                    assert(ws.take(j as int + 1).last() == delta@);
                    if !delta@.is_empty() {
                        assert(delta_views(reps@) =~= before.push(delta@));
                    } else {
                        assert(delta_views(reps@) =~= before);
                    }
                    assert(delta_views(reps@) =~= reps0 + ws.take(j as int + 1).filter(p));
                }
                j = j + 1;
            }
            proof {
                assert(ws.take(j as int) =~= ws);
                assert(nodes@.take(k as int + 1).drop_last() =~= nodes@.take(k as int));
                assert(nodes@.take(k as int + 1).last() == n);
                assert(ds@ == sorted_candidates(tree, n, sizes, config@)) by {
                    let c = sorted_candidates(tree, n, sizes, config@);
                    assert(sorted_up(sizes, c) && c.to_set() == candidate_set(tree, n, config@));
                    lemma_sorted_unique(sizes, ds@, c);
                }
                assert(delta_views(reps@) =~= all_replacements(tree, nodes@.take(k as int + 1), sizes, config@));
            }
            k = k + 1;
        }
        proof {
            assert(nodes@.take(k as int) =~= nodes@);
        }
        reps
    }

    /// The compatible live descendants of `n`, smallest subtree first (ties by id).
    fn candidates(&self, n: NodeId, node2size: &HashMap<NodeId, usize>, config: &Configuration) -> (ds: Vec<NodeId>)
        requires
            self.tree().wf(),
            config.wf(),
            self.tree().nodes().contains_key(n),
            forall|x: NodeId| #[trigger] self.tree().nodes().contains_key(x) ==> node2size@.contains_key(x),
        ensures
            forall|t: int| 0 <= t < ds@.len() ==> is_candidate(self.tree(), n, #[trigger] ds@[t], config@),
            forall|d: NodeId| is_candidate(self.tree(), n, d, config@) ==> ds@.contains(d),
            sorted_up(node2size@, ds@),
            ds@.to_set() == candidate_set(self.tree(), n, config@),
    {
        let tree = self.tree;
        let all = tree.descendants(n, config);
        let ghost pres = |x: NodeId| tree.holds_token(x, config@);
        proof {
            tree.lemma_descendants(n, config@, all@);
        }
        let mut ds: Vec<NodeId> = Vec::new();
        let mut i: usize = 0;
        while i < all.len()
            invariant
                tree == self.tree(),
                tree.wf(),
                config.wf(),
                tree.nodes().contains_key(n),
                i <= all@.len(),
                forall|x: NodeId| #[trigger] tree.nodes().contains_key(x) ==> node2size@.contains_key(x),
                forall|x: NodeId| all@.contains(x) <==> (tree.sub(n).contains(x) && x != n && tree.holds_token(x, config@)),
                forall|x: NodeId| #[trigger] all@.contains(x) ==> tree.nodes().contains_key(x),
                forall|t: int| 0 <= t < ds@.len() ==> is_candidate(tree, n, #[trigger] ds@[t], config@),
                forall|t: int| 0 <= t < ds@.len() ==> node2size@.contains_key(#[trigger] ds@[t]),
                forall|t: int| 0 <= t < i && is_candidate(tree, n, #[trigger] all@[t], config@) ==> ds@.contains(all@[t]),
                all@.no_duplicates(),
                sorted_up(node2size@, ds@),
                forall|x: NodeId| #[trigger] ds@.contains(x) ==> all@.take(i as int).contains(x),
            decreases all.len() - i,
        {
            let d = all[i];
            proof {
                assert(all@.contains(d));
            }
            let ghost before = ds@;
            proof {
                assert(!ds@.contains(d)) by {
                    if ds@.contains(d) {
                        assert(all@.take(i as int).contains(d));
                        let t = choose|t: int| 0 <= t < i && all@.take(i as int)[t] == d;
                        assert(all@[t] == all@[i as int]);
                    }
                }
            }
            if tree.live(d, config) && tree.can_replace(n, d, config) {
                insert_by_size_up(&mut ds, d, node2size);
            }
            proof {
                assert forall|x: NodeId| #[trigger] ds@.contains(x) implies all@.take(i as int + 1).contains(x) by {
                    if x == d {
                        assert(all@.take(i as int + 1)[i as int] == d);
                    } else {
                        assert(before.contains(x));
                        let t = choose|t: int| 0 <= t < i && all@.take(i as int)[t] == x;
                        assert(all@.take(i as int + 1)[t] == x);
                    }
                }
            }
            proof {
                assert forall|t: int| 0 <= t < ds@.len() implies is_candidate(tree, n, #[trigger] ds@[t], config@) by {
                    assert(ds@.contains(ds@[t]));
                    if ds@[t] != d {
                        let u = choose|u: int| 0 <= u < before.len() && before[u] == ds@[t];
                        assert(is_candidate(tree, n, before[u], config@));
                    }
                }
                assert forall|t: int| 0 <= t < i + 1 && is_candidate(tree, n, #[trigger] all@[t], config@) implies ds@.contains(all@[t]) by {
                    if t < i {
                        assert(before.contains(all@[t]));
                    }
                }
            }
            i = i + 1;
        }
        proof {
            assert forall|d: NodeId| is_candidate(tree, n, d, config@) implies ds@.contains(d) by {
                assert(all@.contains(d));
                let t = choose|t: int| 0 <= t < all@.len() && all@[t] == d;
                assert(is_candidate(tree, n, all@[t], config@));
            }
            assert(ds@.to_set() =~= candidate_set(tree, n, config@)) by {
                assert forall|d: NodeId| ds@.to_set().contains(d) implies candidate_set(tree, n, config@).contains(d) by {
                    let t = choose|t: int| 0 <= t < ds@.len() && ds@[t] == d;
                    assert(is_candidate(tree, n, ds@[t], config@));
                }
            }
        }
        ds
    }
}

/// Inserts `x` into `ds`, smallest subtree first (ties by id).
fn insert_by_size_up(ds: &mut Vec<NodeId>, x: NodeId, sizes: &HashMap<NodeId, usize>)
    requires
        sizes@.contains_key(x),
        forall|i: int| 0 <= i < old(ds)@.len() ==> sizes@.contains_key(#[trigger] old(ds)@[i]),
        sorted_up(sizes@, old(ds)@),
        !old(ds)@.contains(x),
    ensures
        sorted_up(sizes@, final(ds)@),
        forall|i: int| 0 <= i < final(ds)@.len() ==> sizes@.contains_key(#[trigger] final(ds)@[i]),
        forall|y: NodeId| #[trigger] final(ds)@.contains(y) <==> (old(ds)@.contains(y) || y == x),
        forall|i: int| 0 <= i < old(ds)@.len() ==> final(ds)@.contains(#[trigger] old(ds)@[i]),
{
    let ghost before = ds@;
    let sx = *sizes.get(&x).unwrap();
    let mut i: usize = 0;
    while i < ds.len()
        invariant
            ds@ == before,
            i <= before.len(),
            sx == sizes@[x],
            sizes@.contains_key(x),
            !before.contains(x),
            forall|k: int| 0 <= k < before.len() ==> sizes@.contains_key(#[trigger] before[k]),
            forall|k: int| 0 <= k < i ==> size_up(sizes@, #[trigger] before[k], x),
        ensures
            ds@ == before,
            i <= before.len(),
            forall|k: int| 0 <= k < i ==> size_up(sizes@, #[trigger] before[k], x),
            i < before.len() ==> size_up(sizes@, x, before[i as int]),
        decreases ds.len() - i,
    {
        let o = ds[i];
        let so = *sizes.get(&o).unwrap();
        if sx < so || (sx == so && x < o) {
            break;
        }
        proof {
            assert(before[i as int] != x) by {
                assert(before.contains(before[i as int]));
            }
        }
        i = i + 1;
    }
    proof {
        assert forall|k: int| i <= k < before.len() implies size_up(sizes@, x, #[trigger] before[k]) by {
            if k > i {
                assert(size_up(sizes@, before[i as int], before[k]));
            }
        }
    }
    ds.insert(i, x);
    proof {
        let after = ds@;
        assert forall|a: int, b: int| 0 <= a < b < after.len() implies size_up(sizes@, #[trigger] after[a], #[trigger] after[b]) by {
            if b < i {
            } else if b == i {
            } else if a < i {
                assert(after[b] == before[b - 1]);
                assert(size_up(sizes@, before[a], x));
                assert(size_up(sizes@, x, before[b - 1]));
            } else if a == i {
                assert(after[b] == before[b - 1]);
            } else {
                assert(after[a] == before[a - 1]);
                assert(after[b] == before[b - 1]);
            }
        }
        assert(after == before.insert(i as int, x));
        assert forall|y: NodeId| #[trigger] after.contains(y) <==> (before.contains(y) || y == x) by {
            if after.contains(y) {
                let k = choose|k: int| 0 <= k < after.len() && after[k] == y;
                if k < i {
                    assert(before[k] == y);
                } else if k > i {
                    assert(before[k - 1] == y);
                }
            }
            if before.contains(y) {
                let k = choose|k: int| 0 <= k < before.len() && before[k] == y;
                if k < i {
                    assert(after[k] == y);
                } else {
                    assert(after[k + 1] == y);
                }
            }
            if y == x {
                assert(after[i as int] == x);
            }
        }
        assert forall|k: int| 0 <= k < after.len() implies sizes@.contains_key(#[trigger] after[k]) by {
            if k < i {
                assert(after[k] == before[k]);
            } else if k > i {
                assert(after[k] == before[k - 1]);
            }
        }
        assert forall|k: int| 0 <= k < before.len() implies after.contains(#[trigger] before[k]) by {
            assert(before.contains(before[k]));
        }
    }
}


impl<'t, F: Fn() -> P, P: Policy> Perses<'t, F, P> {
    /// Everything of the invariant but the link between the active list's
    /// elements and the current configuration.
    pub closed spec fn wf_core(&self) -> bool {
        &&& self.tree.wf()
        &&& builds_minimizers(self.new_minimizer, self.tree.nodes().dom())
        &&& rankless::<P>()
        &&& self.config.wf()
        &&& self.tree.covers(self.config@)
        &&& self.pos <= self.reps@.len()
        &&& forall|i: int| 0 <= i < self.reps@.len() ==> {
            &&& (#[trigger] self.reps@[i]).wf()
            &&& !self.reps@[i]@.is_empty()
            &&& self.reps@[i]@.subset_of(self.config@)
        }
        &&& self.active_elems.wf()
        &&& self.done.wf()
        &&& self.done@.subset_of(lists(self.tree))
        &&& self.active matches Some(a) ==> lists(self.tree).contains(a) && !self.done@.contains(a)
        &&& self.minimizer matches Some(p) ==> {
            &&& p.wf()
            &&& self.tree.nodes().dom().subset_of(p.domain())
            &&& !p.stopped()
            &&& token_deltas(self.tree, p.tried(), self.config@).subset_of(self.tried@)
            &&& self.fresh@ ==> p.fresh()
            &&& self.active is None ==> p.tried().is_empty() && p.subject().is_empty() && p.fresh()
            &&& self.active matches Some(a) ==> p.fresh() || p.subject() == list_elems(self.tree, a, self.config@)
        }
        &&& self.fresh@ ==> self.tried@.is_empty()
    }


    /// Deletion candidates: starts the active `List`'s persisted minimizer on
    /// the list's present elements; `next_delta` then maps each dropped
    /// element to the tokens under it.
    pub fn deletions(&mut self, config: &Configuration)
        requires
            old(self).wf_core(),
            !old(self).in_pass(),
            config.wf(),
            old(self).subject_set() == config@,
        ensures
            final(self).wf(),
            !final(self).in_pass(),
            final(self).tried() == old(self).tried(),
            final(self).fresh() == old(self).fresh(),
            final(self).stopped() == old(self).stopped(),
            final(self).inner().unwrap().in_pass(),
            final(self).tree() == old(self).tree(),
            final(self).active() == old(self).active(),
            final(self).retired() == old(self).retired(),
            final(self).subject_set() == old(self).subject_set(),
            final(self).replacement_queue() == old(self).replacement_queue(),
            final(self).handed_out() == old(self).handed_out(),
            final(self).inner() is Some,
            final(self).inner().unwrap().subject() == final(self).active_list().to_set(),
            final(self).inner().unwrap().promised(final(self).active_list()).subset_of(final(self).inner().unwrap().pending()),
            old(self).inner() matches Some(p) ==> forall|e: Seq<u32>| #[trigger] final(self).inner().unwrap().promised(e) == p.promised(e),
            final(self).active() is None ==> final(self).inner().unwrap().subject() == Set::<NodeId>::empty(),
            forall|a: NodeId| final(self).active() == Some(a) ==> forall|c: NodeId| #[trigger] final(self).inner().unwrap().subject().contains(c)
                <==> (final(self).tree().nodes()[a].children@.contains(c) && final(self).tree().holds_token(c, config@)),
    {
        let tree = self.tree;
        let elems = match self.active {
            Some(a) => tree.elems_of(a, config),
            None => Configuration::new(),
        };
        proof {
            tree.lemma_wf();
            if let Some(a) = self.active {
                assert forall|c: NodeId| #[trigger] elems@.contains(c) implies tree.nodes().contains_key(c) && tree.holds_token(c, config@) by {
                    let t = choose|t: int| 0 <= t < tree.nodes()[a].children@.len() && tree.nodes()[a].children@[t] == c;
                    assert(tree.nodes().contains_key(tree.nodes()[a].children@[t]));
                }
            }
        }
        proof {
            if let Some(a) = self.active {
                assert(elems@ =~= list_elems(tree, a, config@));
            } else {
                assert(elems@ =~= Set::<NodeId>::empty());
            }
        }
        let mut inner = match self.minimizer.take() {
            Some(p) => p,
            None => (self.new_minimizer)(),
        };
        inner.propose(&elems);
        self.minimizer = Some(inner);
        self.active_elems = elems;
    }
}

impl<'t, F: Fn() -> P, P: Policy> Policy for Perses<'t, F, P> {
    closed spec fn wf(&self) -> bool {
        &&& self.wf_core()
        &&& forall|n: NodeId| #[trigger] self.active_elems@.contains(n) ==>
            self.tree.nodes().contains_key(n) && self.tree.holds_token(n, self.config@)
        &&& self.minimizer matches Some(p) ==> p.subject() == self.active_elems@
        &&& self.live@ ==> {
            &&& self.minimizer matches Some(p) && p.in_pass()
            &&& delta_views(self.reps@) == all_replacements(self.tree, self.tree.largest_first(self.config@),
                self.tree.size_map(self.config@), self.config@)
            &&& forall|i: int| 0 <= i < self.pos ==> self.tried@.contains(#[trigger] self.reps@[i]@)
        }
        &&& self.active matches Some(a) ==> (self.minimizer matches Some(p) ==> p.subject() == list_elems(self.tree, a, self.config@))
    }

    closed spec fn tried(&self) -> Set<Set<u32>> {
        self.tried@
    }

    closed spec fn last(&self) -> Option<Set<u32>> {
        self.last@
    }

    closed spec fn in_pass(&self) -> bool {
        self.live@
    }

    closed spec fn stopped(&self) -> bool {
        self.stopped@
    }

    closed spec fn fresh(&self) -> bool {
        self.fresh@
    }

    /// A run stops only where no replacement is accepted.
    open spec fn settled(&self, c: Set<u32>) -> Set<Set<u32>> {
        perses_settled(self.tree(), c)
    }

    open spec fn domain(&self) -> Set<u32> {
        Set::new(|u: u32| u < self.tree().num_tokens())
    }

    closed spec fn subject(&self) -> Set<u32> {
        self.config@
    }
    open spec fn promised(&self, elems: Seq<u32>) -> Set<Set<u32>> {
        Set::empty()
    }

    closed spec fn pending(&self) -> Set<Set<u32>> {
        rest_of(self.reps@, self.pos as int).union(
            match self.minimizer {
                Some(p) => token_deltas(self.tree, p.pending(), self.config@),
                None => Set::empty(),
            })
    }

    closed spec fn budget(&self) -> nat {
        (self.reps@.len() - self.pos) as nat + match self.minimizer {
            Some(p) => p.budget(),
            None => 0,
        }
    }

    open spec fn rank(&self) -> nat {
        lists(self.tree()).difference(self.retired()).len()
    }

    open spec fn rank_cap() -> nat {
        0
    }

    fn propose(&mut self, config: &Configuration)
        ensures
            delta_views(final(self).replacement_queue()) == all_replacements(old(self).tree(),
                old(self).tree().largest_first(config@), old(self).tree().size_map(config@), config@),
            final(self).handed_out() == 0,
            final(self).active() == if old(self).keeps_active() && (old(self).active() matches Some(a)
                && old(self).tree().largest_first(config@).contains(a)) {
                old(self).active()
            } else {
                first_open_list(old(self).tree(), old(self).tree().largest_first(config@), old(self).retired())
            },
            final(self).inner() is Some,
            forall|a: NodeId| final(self).active() == Some(a) ==> forall|c: NodeId| #[trigger] final(self).inner().unwrap().subject().contains(c)
                <==> (final(self).tree().nodes()[a].children@.contains(c) && final(self).tree().holds_token(c, config@)),
    {
        let tree = self.tree;
        proof {
            self.live = Ghost(false);
        }
        // biggest payoff first: order the live nodes by surviving size
        let node2size = tree.subtree_sizes(config);
        let nodes = tree.live_internal_largest_first(config, &node2size);
        proof {
            assert forall|i: int| 0 <= i < nodes@.len() implies tree.nodes().contains_key(#[trigger] nodes@[i]) by {
                assert(nodes@.contains(nodes@[i]));
            }
        }
        // one List at a time gets a persisted deletion minimizer
        self.pick_active(&nodes);
        // replacements first, then the active List's deletions
        let reps = self.replacements(&nodes, &node2size, config);
        let ghost oldc = self.config@;
        self.reps = reps;
        self.pos = 0;
        self.config = config.copy();
        proof {
            assert(self.config@ == config@);
            if oldc != config@ {
                if self.minimizer is Some {
                    let p = self.minimizer->Some_0;
                    if !p.tried().is_empty() {
                        let x = p.tried().choose();
                        assert(p.tried().contains(x));
                        assert(token_deltas(tree, p.tried(), oldc).contains(tree.tokens_under_all(x, oldc)));
                    }
                    assert(token_deltas(tree, p.tried(), config@) =~= Set::<Set<u32>>::empty());
                }
            }
        }
        self.deletions(config);
        proof {
            if let Some(a) = self.active {
                assert(self.minimizer.unwrap().subject() =~= list_elems(tree, a, config@));
            }
            self.live = Ghost(true);
            self.last = Ghost(None);
        }
    }

    fn next_delta(&mut self) -> (d: Option<Delta>)
        ensures
            d matches Some(x) ==> old(self).handed_out() < old(self).replacement_queue().len()
                ==> x@ == old(self).replacement_queue()[old(self).handed_out() as int]@,
            d matches Some(x) ==> old(self).handed_out() >= old(self).replacement_queue().len() ==>
                x@ == final(self).tree().tokens_under_all(final(self).last_drop(), old(self).subject()),
            final(self).tree() == old(self).tree(),
            final(self).active() == old(self).active(),
            final(self).retired() == old(self).retired(),
            final(self).replacement_queue() == old(self).replacement_queue(),
            old(self).handed_out() < old(self).replacement_queue().len() ==> {
                &&& d is Some
                &&& final(self).handed_out() == old(self).handed_out() + 1
                &&& final(self).inner() == old(self).inner()
            },
            old(self).handed_out() >= old(self).replacement_queue().len() ==> {
                &&& final(self).handed_out() == old(self).handed_out()
                &&& minimizer_step(old(self).inner(), final(self).inner(), d is Some, final(self).last_drop())
            },
    {
        if self.pos < self.reps.len() {
            let d = self.reps[self.pos].copy();
            self.pos = self.pos + 1;
            proof {
                assert(d.elems() == self.reps@[self.pos - 1].elems());
                self.tried = Ghost(self.tried@.insert(d@));
                self.last = Ghost(Some(d@));
                self.fresh = Ghost(false);
                lemma_rest_step(self.reps@, old(self).pos as int);
                if self.minimizer is Some {
                    let p = self.minimizer->Some_0;
                    assert(token_deltas(self.tree, p.tried(), self.config@).subset_of(self.tried@));
                }
            }
            return Some(d);
        }
        proof {
            lemma_rest_step(self.reps@, self.pos as int);
        }
        match self.minimizer.take() {
            Some(mut inner) => {
                let ghost p0 = inner;
                let d = inner.next_delta();
                let ghost p1 = inner;
                self.minimizer = Some(inner);
                let ghost c = self.config@;
                let ghost dropped: Set<NodeId> = if d is Some { d->Some_0@ } else { Set::empty() };
                proof {
                    lemma_owed_step(self.tree, p0.pending(), p1.pending(), d is Some, dropped, c);
                }
                match d {
                    Some(drop) => {
                        // dropping a subtree drops the tokens under it
                        let delta = self.tree.leaves_under_all(&drop, &self.config);
                        proof {
                            self.last_drop = Ghost(drop@);
                            let x = drop@.choose();
                            assert(drop@.contains(x));
                            self.tree.lemma_drop_nonempty(drop@, self.config@, x);
                            self.tried = Ghost(self.tried@.insert(delta@));
                            self.last = Ghost(Some(delta@));
                            self.fresh = Ghost(false);
                            lemma_tried_step(self.tree, p0.tried(), drop@, old(self).tried@, c);
                        }
                        Some(delta)
                    },
                    None => None,
                }
            },
            None => None,
        }
    }

    #[verifier::rlimit(50)]
    fn on_reduced(&mut self, reduced: Option<&Configuration>) -> (go: bool)
        ensures
            final(self).tree() == old(self).tree(),
            final(self).keeps_active() == old(self).keeps_active(),
            old(self).active() is None ==> {
                // a replacements-only pass
                &&& go == reduced is Some
                &&& final(self).active() is None
                &&& final(self).retired() == old(self).retired()
            },
            old(self).active() matches Some(a) ==> {
                &&& go
                &&& reduced is Some ==> {
                    // a reduction re-opens every retired list
                    &&& final(self).active() == old(self).active()
                    &&& final(self).retired() == Set::<NodeId>::empty()
                }
                &&& reduced is None ==> ({
                    // the list's minimizer goes on
                    &&& final(self).active() == old(self).active()
                    &&& final(self).retired() == old(self).retired()
                    &&& final(self).inner() is Some
                }) || ({
                    // the list is exhausted: retire it
                    &&& final(self).active() is None
                    &&& final(self).inner() is None
                    &&& final(self).retired() == old(self).retired().insert(a)
                })
            },
    {
        let tree = self.tree;
        match self.active {
            Some(a) => {
                // Forward the outcome to the active minimizer in its own
                // space: the List's still-present elements.
                let keep = match self.minimizer.take() {
                    Some(mut inner) => {
                        let keep = match reduced {
                            Some(c) => {
                                proof {
                                    tree.lemma_wf();
                                }
                                let elems = tree.elems_of(a, c);
                                proof {
                                    assert forall|x: NodeId| elems@.contains(x) implies inner.domain().contains(x) by {
                                        let t = choose|t: int| 0 <= t < tree.nodes()[a].children@.len() && tree.nodes()[a].children@[t] == x;
                                        assert(tree.nodes().contains_key(tree.nodes()[a].children@[t]));
                                    }
                                }
                                inner.on_reduced(Some(&elems))
                            },
                            None => {
                                proof {
                                    if !inner.pending().is_empty() {
                                        let x = inner.pending().choose();
                                        assert(inner.pending().contains(x));
                                        assert(token_deltas(tree, inner.pending(), self.config@).contains(tree.tokens_under_all(x, self.config@)));
                                        assert(old(self).pending().contains(tree.tokens_under_all(x, self.config@)));
                                    }
                                }
                                inner.on_reduced(None)
                            },
                        };
                        self.minimizer = Some(inner);
                        keep
                    },
                    None => false,
                };
                proof {
                    self.live = Ghost(false);
                    self.last = Ghost(None);
                    self.stopped = Ghost(false);
                    if reduced is Some {
                        self.tried = Ghost(Set::empty());
                        self.fresh = Ghost(true);
                    }
                }
                if reduced.is_some() {
                    // a reduction can expose deletions anywhere: re-open every retired List
                    self.done = Configuration::new();
                    true
                } else if keep {
                    // the inner policy isn't minimal yet
                    true
                } else {
                    // exhausted: retire it; the next pass picks the next List
                    let ghost open0 = lists(tree).difference(self.done@);
                    self.done.insert(a);
                    self.active = None;
                    self.minimizer = None;
                    proof {
                        tree.lemma_wf();
                        assert(lists(tree).difference(self.done@) =~= open0.remove(a));
                        assert(lists(tree).subset_of(tree.nodes().dom()));
                        vstd::set_lib::lemma_len_subset(lists(tree), tree.nodes().dom());
                        assert(open0.subset_of(lists(tree)));
                        assert(open0.finite()) by {
                            vstd::set_lib::lemma_len_subset(open0, lists(tree));
                        }
                    }
                    true
                }
            },
            // a replacements-only pass
            None => {
                proof {
                    self.live = Ghost(false);
                    self.last = Ghost(None);
                    self.stopped = Ghost(reduced is None);
                    if reduced is Some {
                        self.tried = Ghost(Set::empty());
                        self.fresh = Ghost(true);
                    } else {
                        let c = self.config@;
                        lemma_rest_step(self.reps@, self.pos as int);
                        if self.pos < self.reps@.len() {
                            assert(old(self).pending().contains(self.reps@[self.pos as int]@));
                        }
                        assert forall|x: Set<u32>| #[trigger] perses_settled(tree, c).contains(x) implies self.tried@.contains(x) by {
                            let reps = all_replacements(tree, tree.largest_first(c), tree.size_map(c), c);
                            let i = choose|i: int| 0 <= i < reps.len() && reps[i] == x;
                            assert(delta_views(self.reps@)[i] == self.reps@[i]@);
                        }
                    }
                }
                reduced.is_some()
            },
        }
    }
}

/// The first open list is a node of `nodes`, a `List`, and not retired.
pub proof fn lemma_first_open(tree: &Tree, nodes: Seq<NodeId>, done: Set<NodeId>)
    ensures
        first_open_list(tree, nodes, done) matches Some(a) ==> {
            &&& nodes.contains(a)
            &&& tree.nodes()[a].kind == Kind::List
            &&& !done.contains(a)
        },
    decreases nodes.len(),
{
    if nodes.len() > 0 {
        lemma_first_open(tree, nodes.drop_first(), done);
        if let Some(a) = first_open_list(tree, nodes.drop_first(), done) {
            if !(tree.nodes()[nodes[0]].kind == Kind::List && !done.contains(nodes[0])) {
                let j = choose|j: int| 0 <= j < nodes.drop_first().len() && nodes.drop_first()[j] == a;
                assert(nodes[j + 1] == a);
            }
        }
        if tree.nodes()[nodes[0]].kind == Kind::List && !done.contains(nodes[0]) {
            assert(nodes.contains(nodes[0]));
        }
    }
}

/// Does `v` hold `x`?
fn vec_contains(v: &Vec<NodeId>, x: NodeId) -> (b: bool)
    ensures
        b == v@.contains(x),
{
    let mut i: usize = 0;
    while i < v.len()
        invariant
            i <= v@.len(),
            forall|j: int| 0 <= j < i ==> v@[j] != x,
        decreases v.len() - i,
    {
        if v[i] == x {
            return true;
        }
        i = i + 1;
    }
    false
}
} // verus!
