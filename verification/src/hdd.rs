//! Hierarchical delta debugging over a parse tree: a policy that walks the
//! tree level by level and lets a fresh inner policy choose which of the
//! level's subtrees to drop.
use vstd::prelude::*;
use crate::config::{Configuration, Delta};
use crate::ddmin::{ddmin_deltas, delta_sets, lemma_ddmin_promises_singletons, singles};
use crate::policy::{rejected, Policy, Verdict};
use crate::shape::NodeId;
use crate::tree::Tree;

verus! {

/// `f` builds inner policies that can work on the nodes `nodes`.
pub open spec fn builds_minimizers<F: Fn() -> P, P: Policy>(f: F, nodes: Set<NodeId>) -> bool {
    &&& call_requires(f, ())
    &&& forall|p: P| #[trigger] call_ensures(f, (), p) ==> {
        &&& p.wf()
        &&& nodes.subset_of(p.domain())
        &&& p.rank() <= P::rank_cap()
        &&& p.tried().is_empty()
        &&& p.fresh()
        &&& !p.stopped()
        &&& forall|s: Set<NodeId>| singles(s).subset_of(#[trigger] p.settled(s))
    }
}

/// The one-subtree deltas of level `level`: for each of its live deletable
/// subtrees, the present tokens under it.
pub open spec fn level_singles(tree: &Tree, level: nat, c: Set<u32>) -> Set<Set<u32>> {
    Set::new(|x: Set<u32>| exists|n: NodeId| tree.level_nodes(level, c).contains(n) && x == tree.tokens_under(n, c))
}

/// The deltas of an inner minimizer's node sets, as tokens of `c`.
pub open spec fn token_deltas(tree: &Tree, ds: Set<Set<NodeId>>, c: Set<u32>) -> Set<Set<u32>> {
    Set::new(|x: Set<u32>| exists|s: Set<NodeId>| ds.contains(s) && x == tree.tokens_under_all(s, c))
}

/// One `next_delta` step of an inner minimizer, from `p` to `q`: the
/// minimizer, where there is one, stays and hands out a delta (`handed`) of
/// nodes `drop` -- a non-empty part of its subject that it still owed, now
/// its last and tried delta -- or it says no more when nothing was owed; with
/// no minimizer nothing is handed out.
pub open spec fn minimizer_step<P: Policy>(p: Option<P>, q: Option<P>, handed: bool, drop: Set<NodeId>) -> bool {
    match p {
        None => q is None && !handed,
        Some(p0) => q matches Some(q0) && {
            &&& q0.wf()
            &&& q0.subject() == p0.subject()
            &&& !handed ==> p0.pending().is_empty()
            &&& handed ==> !drop.is_empty() && drop.subset_of(p0.subject()) && q0.budget() < p0.budget()
            &&& handed ==> q0.last() == Some(drop) && q0.tried() == p0.tried().insert(drop)
            &&& !handed ==> q0.tried() == p0.tried()
            &&& forall|s: Set<NodeId>| #[trigger] p0.pending().contains(s) ==>
                q0.pending().contains(s) || (handed && drop == s)
        },
    }
}

/// HDD walks the tree level by level and lets a fresh list-minimizer drop the
/// level's deletable nodes. Pure deletion -- the baseline.
pub struct Hdd<'t, F, P> {
    tree: &'t Tree,
    new_minimizer: F,
    level: usize,
    // the inner minimizer for the current level
    minimizer: Option<P>,
    // the current level's live subtrees: the inner minimizer's configuration
    level_subtrees: Configuration,
    // the configuration of the current pass
    config: Configuration,
    last_drop: Ghost<Set<NodeId>>,
    // the level the run started at
    start: Ghost<nat>,
    tried: Ghost<Set<Set<u32>>>,
    last: Ghost<Option<Set<u32>>>,
    live: Ghost<bool>,
    stopped: Ghost<bool>,
    fresh: Ghost<bool>,
    // the inner minimizer of the level left last, as it answered
    spent: Ghost<Option<P>>,
}

impl<'t, F: Fn() -> P, P: Policy> Hdd<'t, F, P> {
    /// HDD over `tree`, starting at depth `level`, with inner policies built
    /// by `new_minimizer`.
    pub fn new(tree: &'t Tree, level: usize, new_minimizer: F) -> (r: Self)
        requires
            tree.wf(),
            builds_minimizers(new_minimizer, tree.nodes().dom()),
        ensures
            r.wf(),
            r.tree() == tree,
            r.level() == level,
            r.start() == level,
            r.inner() is None,
            r.tried().is_empty(),
            !r.stopped(),
            r.fresh(),
    {
        Hdd {
            tree,
            new_minimizer,
            level,
            minimizer: None,
            level_subtrees: Configuration::new(),
            config: Configuration::new(),
            last_drop: Ghost(Set::empty()),
            start: Ghost(level as nat),
            tried: Ghost(Set::empty()),
            last: Ghost(None),
            live: Ghost(false),
            stopped: Ghost(false),
            fresh: Ghost(true),
            spent: Ghost(None),
        }
    }

    /// The inner minimizer of the level left last, as it was when it
    /// declared itself done.
    pub closed spec fn spent(&self) -> Option<P> {
        self.spent@
    }

    /// The level the run started at.
    pub closed spec fn start(&self) -> nat {
        self.start@
    }

    /// The tree.
    pub closed spec fn tree(&self) -> &'t Tree {
        self.tree
    }

    /// The level being reduced.
    pub closed spec fn level(&self) -> nat {
        self.level as nat
    }

    /// The inner minimizer of the current level, once built.
    pub closed spec fn inner(&self) -> Option<P> {
        self.minimizer
    }

    /// The current level's subtrees that still hold a present token.
    pub closed spec fn subtrees(&self) -> Set<NodeId> {
        self.level_subtrees@
    }

    /// The nodes whose tokens the last delta removes.
    pub closed spec fn last_drop(&self) -> Set<NodeId> {
        self.last_drop@
    }

    /// The current level's subtrees in ascending order.
    pub closed spec fn subtree_list(&self) -> Seq<NodeId> {
        self.level_subtrees.elems()
    }

    /// How many levels are still to be reduced.
    pub open spec fn levels_left(&self) -> nat {
        if self.level() <= self.tree().height() {
            (self.tree().height() + 1 - self.level()) as nat
        } else {
            0
        }
    }
}

/// A delta owed by the inner minimizer, as tokens, is still owed after one
/// of its steps unless it is the one just handed out.
pub proof fn lemma_owed_step(tree: &Tree, ds0: Set<Set<NodeId>>, ds1: Set<Set<NodeId>>, handed: bool, drop: Set<NodeId>, c: Set<u32>)
    requires
        forall|s: Set<NodeId>| #[trigger] ds0.contains(s) ==> ds1.contains(s) || (handed && drop == s),
    ensures
        forall|x: Set<u32>| #[trigger] token_deltas(tree, ds0, c).contains(x) ==>
            token_deltas(tree, ds1, c).contains(x) || (handed && x == tree.tokens_under_all(drop, c)),
        ds0.is_empty() ==> token_deltas(tree, ds0, c).is_empty(),
        ds1.is_empty() ==> token_deltas(tree, ds1, c).is_empty(),
{
    assert forall|x: Set<u32>| #[trigger] token_deltas(tree, ds0, c).contains(x) implies
        token_deltas(tree, ds1, c).contains(x) || (handed && x == tree.tokens_under_all(drop, c)) by {
        let s0 = choose|s0: Set<NodeId>| ds0.contains(s0) && x == tree.tokens_under_all(s0, c);
        if ds1.contains(s0) {
            assert(token_deltas(tree, ds1, c).contains(x));
        }
    }
    if ds0.is_empty() {
        assert(token_deltas(tree, ds0, c) =~= Set::<Set<u32>>::empty());
    }
    if ds1.is_empty() {
        assert(token_deltas(tree, ds1, c) =~= Set::<Set<u32>>::empty());
    }
}

/// Handing out `drop` adds its tokens to what was tried.
pub proof fn lemma_tried_step(tree: &Tree, ds0: Set<Set<NodeId>>, drop: Set<NodeId>, tried: Set<Set<u32>>, c: Set<u32>)
    requires
        token_deltas(tree, ds0, c).subset_of(tried),
    ensures
        token_deltas(tree, ds0.insert(drop), c).subset_of(tried.insert(tree.tokens_under_all(drop, c))),
{
    assert forall|x: Set<u32>| #[trigger] token_deltas(tree, ds0.insert(drop), c).contains(x) implies
        tried.insert(tree.tokens_under_all(drop, c)).contains(x) by {
        let s0 = choose|s0: Set<NodeId>| ds0.insert(drop).contains(s0) && x == tree.tokens_under_all(s0, c);
        if s0 != drop {
            assert(token_deltas(tree, ds0, c).contains(x));
        }
    }
}

/// A live subtree of level `level` exists only where the tree is that deep.
proof fn lemma_level_reached(tree: &Tree, level: nat, c: Set<u32>, x: NodeId)
    requires
        tree.wf(),
        tree.level_nodes(level, c).contains(x),
    ensures
        level <= tree.height(),
{
    tree.lemma_level_node_holds(level, c, x);
    tree.lemma_wf();
}

impl<'t, F: Fn() -> P, P: Policy> Policy for Hdd<'t, F, P> {
    closed spec fn wf(&self) -> bool {
        &&& self.tree.wf()
        &&& builds_minimizers(self.new_minimizer, self.tree.nodes().dom())
        &&& self.config.wf()
        &&& self.tree.covers(self.config@)
        &&& self.level_subtrees.wf()
        &&& forall|n: NodeId| #[trigger] self.level_subtrees@.contains(n) ==> self.tree.nodes().contains_key(n)
        &&& forall|n: NodeId| #[trigger] self.level_subtrees@.contains(n) ==> self.tree.holds_token(n, self.config@)
        &&& self.minimizer matches Some(p) ==> {
            &&& p.wf()
            &&& self.tree.nodes().dom().subset_of(p.domain())
            &&& p.subject() == self.level_subtrees@
            &&& !p.stopped()
            &&& forall|s: Set<NodeId>| singles(s).subset_of(#[trigger] p.settled(s))
            &&& token_deltas(self.tree, p.tried(), self.config@).subset_of(self.tried@)
            &&& self.level_subtrees@ == self.tree.level_nodes(self.level as nat, self.config@)
            &&& self.fresh@ ==> p.fresh()
        }
        &&& self.fresh@ ==> self.tried@.is_empty()
        &&& self.last@ is Some ==> self.level <= self.tree.height()
        &&& self.last@ is Some ==> (self.minimizer matches Some(p) && p.last() is Some)
        &&& self.live@ ==> (self.minimizer matches Some(p) && p.in_pass())
        &&& self.start@ <= self.tree.height() && self.level > self.tree.height() ==> {
            &&& level_singles(self.tree, self.tree.height(), self.config@).subset_of(self.tried@)
            &&& self.stopped@
            &&& self.minimizer is None
            &&& !self.live@
        }
    }

    closed spec fn tried(&self) -> Set<Set<u32>> {
        self.tried@
    }

    closed spec fn last(&self) -> Option<Set<u32>> {
        self.last@
    }

    closed spec fn in_pass(&self) -> bool {
        self.live@
    }

    closed spec fn stopped(&self) -> bool {
        self.stopped@
    }

    closed spec fn fresh(&self) -> bool {
        self.fresh@
    }

    /// A run that started at or above the deepest level stops only where no
    /// single subtree of the deepest level can go.
    open spec fn settled(&self, c: Set<u32>) -> Set<Set<u32>> {
        if self.start() <= self.tree().height() {
            level_singles(self.tree(), self.tree().height(), c)
        } else {
            Set::empty()
        }
    }

    open spec fn domain(&self) -> Set<u32> {
        Set::new(|u: u32| u < self.tree().num_tokens())
    }

    closed spec fn subject(&self) -> Set<u32> {
        self.config@
    }

    open spec fn promised(&self, elems: Seq<u32>) -> Set<Set<u32>> {
        Set::empty()
    }

    closed spec fn pending(&self) -> Set<Set<u32>> {
        match self.minimizer {
            Some(p) => token_deltas(self.tree, p.pending(), self.config@),
            None => Set::empty(),
        }
    }

    closed spec fn budget(&self) -> nat {
        match self.minimizer {
            Some(p) => p.budget(),
            None => 0,
        }
    }

    open spec fn rank(&self) -> nat {
        self.levels_left() * (P::rank_cap() + 1) + match self.inner() {
            Some(p) => p.rank(),
            None => P::rank_cap(),
        }
    }

    open spec fn rank_cap() -> nat {
        0
    }

    fn propose(&mut self, config: &Configuration)
        ensures
            final(self).tree() == old(self).tree(),
            final(self).level() == old(self).level(),
            final(self).subtrees() == old(self).tree().level_nodes(old(self).level(), config@),
            final(self).subtree_list().to_set() == final(self).subtrees(),
            final(self).inner() matches Some(q) && {
                &&& q.subject() == final(self).subtrees()
                &&& q.promised(final(self).subtree_list()).subset_of(q.pending())
            },
            old(self).inner() matches Some(p) ==> forall|e: Seq<u32>| #[trigger] final(self).inner().unwrap().promised(e) == p.promised(e),
    {
        let tree = self.tree;
        // Build this level's minimizer on its first pass; `on_reduced` clears
        // it only when we descend a level, so a stateful inner policy keeps
        // learning across a level's passes.
        let mut inner = match self.minimizer.take() {
            Some(p) => p,
            None => (self.new_minimizer)(),
        };
        let subtrees = tree.alive_level_nodes(self.level, config);
        proof {
            assert forall|n: NodeId| #[trigger] subtrees@.contains(n) implies tree.nodes().contains_key(n)
                && tree.holds_token(n, config@) by {
                tree.lemma_level_node_holds(self.level as nat, config@, n);
            }
            if !inner.tried().is_empty() {
                let s = inner.tried().choose();
                assert(inner.tried().contains(s));
                assert(token_deltas(tree, inner.tried(), self.config@).contains(tree.tokens_under_all(s, self.config@)));
            }
        }
        inner.propose(&subtrees);
        self.minimizer = Some(inner);
        self.level_subtrees = subtrees;
        self.config = config.copy();
        proof {
            assert(self.config@ == config@);
            self.last = Ghost(None);
            self.live = Ghost(true);
        }
    }

    fn next_delta(&mut self) -> (d: Option<Delta>)
        ensures
            d matches Some(x) ==> x@ == final(self).tree().tokens_under_all(final(self).last_drop(), old(self).subject()),
            final(self).tree() == old(self).tree(),
            final(self).level() == old(self).level(),
            final(self).subtrees() == old(self).subtrees(),
            minimizer_step(old(self).inner(), final(self).inner(), d is Some, final(self).last_drop()),
    {
        match self.minimizer.take() {
            Some(mut inner) => {
                let ghost p0 = inner;
                let d = inner.next_delta();
                let ghost p1 = inner;
                self.minimizer = Some(inner);
                let ghost c = self.config@;
                let ghost dropped: Set<NodeId> = if d is Some { d->Some_0@ } else { Set::empty() };
                proof {
                    lemma_owed_step(self.tree, p0.pending(), p1.pending(), d is Some, dropped, c);
                }
                match d {
                    Some(drop) => {
                        // dropping a subtree drops the tokens under it
                        let delta = self.tree.leaves_under_all(&drop, &self.config);
                        proof {
                            self.last_drop = Ghost(drop@);
                            // every dropped node holds a present token, so the delta is not empty
                            let x = drop@.choose();
                            assert(drop@.contains(x));
                            self.tree.lemma_drop_nonempty(drop@, self.config@, x);
                            lemma_level_reached(self.tree, self.level as nat, c, x);
                            self.tried = Ghost(self.tried@.insert(delta@));
                            self.last = Ghost(Some(delta@));
                            self.fresh = Ghost(false);
                            lemma_tried_step(self.tree, p0.tried(), drop@, old(self).tried@, c);
                        }
                        Some(delta)
                    },
                    None => {
                        proof {
                            assert(token_deltas(self.tree, p1.pending(), c) =~= Set::<Set<u32>>::empty());
                            assert(token_deltas(self.tree, p0.pending(), c) =~= Set::<Set<u32>>::empty());
                        }
                        None
                    },
                }
            },
            None => None,
        }
    }

    fn on_reduced(&mut self, reduced: Option<&Configuration>) -> (go: bool)
        ensures
            final(self).tree() == old(self).tree(),
            final(self).subtrees() == old(self).subtrees(),
            reduced is Some ==> go && final(self).level() == old(self).level(),
            old(self).inner() is None && reduced is Some ==> final(self).inner() is None,
            ({
                // the inner policy goes on at this level
                &&& go
                &&& final(self).level() == old(self).level()
                &&& old(self).inner() matches Some(p) ==> final(self).inner() matches Some(q) && q.subject() == p.subject()
                    && !q.stopped()
            }) || ({
                // the inner policy is done: descend a level
                &&& final(self).inner() is None
                &&& old(self).inner() matches Some(p) ==> final(self).spent() matches Some(q) && q.stopped()
                    && q.subject() == p.subject()
                &&& final(self).level() == if old(self).level() < usize::MAX { old(self).level() + 1 } else { old(self).level() }
                &&& go == (final(self).level() <= final(self).tree().height())
            }),
    {
        let tree = self.tree;
        // Report the pass outcome to the inner minimizer in its own space:
        // this level's still-live subtrees, or `None` when nothing was found.
        let keep = match self.minimizer.take() {
            Some(mut inner) => {
                let keep = match reduced {
                    Some(c) => {
                        let subtrees = tree.alive_level_nodes(self.level, c);
                        inner.on_reduced(Some(&subtrees))
                    },
                    None => {
                        proof {
                            if !inner.pending().is_empty() {
                                let x = inner.pending().choose();
                                assert(inner.pending().contains(x));
                                assert(token_deltas(tree, inner.pending(), self.config@).contains(tree.tokens_under_all(x, self.config@)));
                                assert(old(self).pending().contains(tree.tokens_under_all(x, self.config@)));
                            }
                        }
                        inner.on_reduced(None)
                    },
                };
                self.minimizer = Some(inner);
                keep
            },
            None => reduced.is_some(),
        };
        proof {
            self.last = Ghost(None);
            self.live = Ghost(false);
            if reduced is Some {
                self.tried = Ghost(Set::empty());
                self.fresh = Ghost(true);
            }
        }
        if keep {
            proof {
                self.stopped = Ghost(false);
            }
            return true;  // the inner policy isn't minimal here yet
        }
        proof {
            if self.level as nat == tree.height() {
                let p = old(self).inner()->Some_0;
                assert forall|x: Set<u32>| #[trigger] level_singles(tree, tree.height(), self.config@).contains(x)
                    implies self.tried@.contains(x) by {
                    let n = choose|n: NodeId| tree.level_nodes(tree.height(), self.config@).contains(n) && x == tree.tokens_under(n, self.config@);
                    assert(singles(p.subject()).contains(set![n]));
                    assert(p.tried().contains(set![n]));
                    assert(tree.tokens_under_all(set![n], self.config@) =~= tree.tokens_under(n, self.config@));
                    assert(token_deltas(tree, p.tried(), self.config@).contains(tree.tokens_under_all(set![n], self.config@)));
                }
            }
        }
        // The inner policy is minimal: descend and rebuild.
        let ghost left = self.levels_left();
        proof {
            self.spent = Ghost(self.minimizer);
        }
        self.level = self.level.saturating_add(1);
        self.minimizer = None;
        let go = self.level <= tree.max_depth();
        proof {
            self.stopped = Ghost(!go);
            tree.lemma_wf();
            let c = P::rank_cap();
            if go {
                assert(left >= 2);
                assert(self.levels_left() == left - 1);
                assert((left - 1) * (c + 1) + c < left * (c + 1)) by (nonlinear_arith)
                    requires
                        left >= 1,
                ;
            }
        }
        go
    }
}

/// Law (1-tree-minimality): where the DDMin pass over the live subtrees `s`
/// of one level ran dry on `present` -- the oracle rejected `present` without
/// the tokens under each of the pass's deltas -- no single one of those
/// subtrees can be dropped from `present`. This holds given the levels above:
/// a later level may still shrink `present`.
pub proof fn lemma_level_one_tree_minimal<O: Fn(&Configuration) -> Verdict>(
    oracle: O,
    tree: &Tree,
    level: nat,
    present: Set<u32>,
    s: Configuration,
)
    requires
        tree.wf(),
        tree.covers(present),
        s.wf(),
        s@ == tree.level_nodes(level, present),
        forall|x: Set<NodeId>| #[trigger] delta_sets(ddmin_deltas(s.elems())).contains(x)
            ==> rejected(oracle, present.difference(tree.tokens_under_all(x, present))),
    ensures
        forall|n: NodeId| s@.contains(n) ==> rejected(oracle, #[trigger] present.difference(tree.tokens_under(n, present))),
{
    assert forall|n: NodeId| s@.contains(n) implies rejected(oracle, #[trigger] present.difference(tree.tokens_under(n, present))) by {
        let k = choose|k: int| 0 <= k < s.elems().len() && s.elems()[k] == n;
        lemma_ddmin_promises_singletons(s.elems(), k);
        let ds = ddmin_deltas(s.elems());
        let j = choose|j: int| 0 <= j < ds.len() && ds[j] == seq![n];
        assert(ds.map_values(|d: Seq<u32>| d.to_set())[j] == seq![n].to_set());
        assert(seq![n].to_set() =~= set![n]) by {
            assert(seq![n][0] == n);
            assert forall|x: u32| seq![n].to_set().contains(x) implies x == n by {
                let i = choose|i: int| 0 <= i < seq![n].len() && seq![n][i] == x;
            }
        }
        assert(delta_sets(ds).contains(set![n]));
        assert(tree.tokens_under_all(set![n], present) =~= tree.tokens_under(n, present));
    }
}

} // verus!
