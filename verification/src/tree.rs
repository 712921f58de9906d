//! The parse tree over the input's tokens, and the queries that connect node
//! space (subtrees) with unit space (tokens).
use vstd::prelude::*;
use std::collections::HashMap;
use crate::config::{Configuration, Delta};
use crate::shape::{NodeId, Token, Kind, Node, is_stmt, is_tree, child_of, depth_in, parent_in, up, walk, walk_kids,
    fuel_of, subtree, below, is_leaf, subtree_ok, kids_ok, lemma_depth, lemma_depth_child, lemma_parent_unique,
    lemma_level_downward, lemma_subtree, lemma_kids, lemma_below_child, lemma_below_root, lemma_below_trans,
    lemma_subtree_mono};

verus! {

broadcast use vstd::std_specs::hash::group_hash_axioms;

/// The nodes at depth `d`.
pub open spec fn level_set(root: NodeId, m: Map<NodeId, Node>, d: nat) -> Set<NodeId> {
    Set::new(|n: NodeId| m.contains_key(n) && depth_in(m, root, n) == d)
}

/// `n` is among the first `k` entries of `s`.
spec fn in_prefix(s: Seq<NodeId>, k: int, n: NodeId) -> bool {
    exists|j: int| 0 <= j < k && #[trigger] s[j] == n
}

/// `n` is a child of one of the first `k` entries of `s`.
spec fn child_of_prefix(m: Map<NodeId, Node>, s: Seq<NodeId>, k: int, n: NodeId) -> bool {
    exists|j: int| 0 <= j < k && #[trigger] child_of(m, s[j], n)
}

/// `dm` holds the depth of exactly the nodes above level `d`.
spec fn depths_upto(root: NodeId, m: Map<NodeId, Node>, dm: Map<NodeId, usize>, d: nat) -> bool {
    &&& forall|n: NodeId| #[trigger] dm.contains_key(n) <==> (m.contains_key(n) && depth_in(m, root, n) < d)
    &&& forall|n: NodeId| #[trigger] dm.contains_key(n) ==> dm[n] == depth_in(m, root, n)
}

/// `pm` holds the parent of exactly the non-root nodes down to level `d`.
spec fn parents_upto(root: NodeId, m: Map<NodeId, Node>, pm: Map<NodeId, NodeId>, d: nat) -> bool {
    &&& forall|n: NodeId| #[trigger] pm.contains_key(n) <==> (m.contains_key(n) && 1 <= depth_in(m, root, n) <= d)
    &&& forall|n: NodeId| #[trigger] pm.contains_key(n) ==> child_of(m, pm[n], n)
}

/// `s` lists exactly the nodes of level `d`.
spec fn is_level(root: NodeId, m: Map<NodeId, Node>, s: Seq<NodeId>, d: nat) -> bool {
    forall|n: NodeId| #[trigger] level_set(root, m, d).contains(n) <==> s.contains(n)
}

/// The root alone makes up level 0.
proof fn lemma_level_zero(root: NodeId, m: Map<NodeId, Node>)
    requires
        is_tree(root, m),
    ensures
        is_level(root, m, seq![root], 0),
{
    lemma_depth(root, m, root);
    assert forall|n: NodeId| #[trigger] level_set(root, m, 0).contains(n) <==> seq![root].contains(n) by {
        if m.contains_key(n) {
            lemma_depth(root, m, n);
            if depth_in(m, root, n) == 0 {
                assert(seq![root][0] == n);
            }
        }
        if seq![root].contains(n) {
            assert(seq![root][0] == root);
        }
    }
}

/// The children of level `d` make up level `d + 1`.
proof fn lemma_next_level(root: NodeId, m: Map<NodeId, Node>, s: Seq<NodeId>, d: nat)
    requires
        is_tree(root, m),
        is_level(root, m, s, d),
    ensures
        forall|n: NodeId| (exists|j: int| 0 <= j < s.len() && #[trigger] child_of(m, s[j], n))
            <==> (m.contains_key(n) && depth_in(m, root, n) == d + 1),
{
    assert forall|n: NodeId| (exists|j: int| 0 <= j < s.len() && #[trigger] child_of(m, s[j], n))
        <==> (m.contains_key(n) && depth_in(m, root, n) == d + 1) by {
        if m.contains_key(n) && depth_in(m, root, n) == d + 1 {
            lemma_depth(root, m, n);
            assert(exists|p: NodeId| #[trigger] child_of(m, p, n));
            let p = parent_in(m, n);
            assert(child_of(m, p, n));
            lemma_depth_child(root, m, p, n);
            assert(level_set(root, m, d).contains(p));
            assert(s.contains(p));
            let j = choose|j: int| 0 <= j < s.len() && s[j] == p;
            assert(child_of(m, s[j], n));
        }
        if exists|j: int| 0 <= j < s.len() && #[trigger] child_of(m, s[j], n) {
            let j = choose|j: int| 0 <= j < s.len() && #[trigger] child_of(m, s[j], n);
            assert(s.contains(s[j]));
            assert(level_set(root, m, d).contains(s[j]));
            lemma_depth_child(root, m, s[j], n);
            let t = choose|t: int| 0 <= t < m[s[j]].children@.len() && m[s[j]].children@[t] == n;
            assert(m.contains_key(m[s[j]].children@[t]));
        }
    }
}

/// An empty level `d` means every node lies above it.
proof fn lemma_levels_exhausted(root: NodeId, m: Map<NodeId, Node>, d: nat)
    requires
        is_tree(root, m),
        is_level(root, m, seq![], d),
    ensures
        forall|n: NodeId| m.contains_key(n) ==> depth_in(m, root, n) < d,
{
    assert forall|n: NodeId| m.contains_key(n) implies depth_in(m, root, n) < d by {
        if depth_in(m, root, n) >= d {
            lemma_level_downward(root, m, n, d);
            let x = up(m, n, (depth_in(m, root, n) - d) as nat);
            assert(level_set(root, m, d).contains(x));
            assert(!Seq::<NodeId>::empty().contains(x));
        }
    }
}

/// Records `id` as the parent of each of `children` and queues them.
fn link_children(
    id: NodeId,
    children: &Vec<NodeId>,
    node2parent: &mut HashMap<NodeId, NodeId>,
    next: &mut Vec<NodeId>,
)
    ensures
        forall|n: NodeId| final(node2parent)@.contains_key(n) <==> (old(node2parent)@.contains_key(n) || children@.contains(n)),
        forall|n: NodeId| #[trigger] final(node2parent)@.contains_key(n) ==>
            final(node2parent)@[n] == (if children@.contains(n) { id } else { old(node2parent)@[n] }),
        final(next)@ == old(next)@ + children@,
{
    let mut i: usize = 0;
    while i < children.len()
        invariant
            i <= children@.len(),
            forall|n: NodeId| #[trigger] node2parent@.contains_key(n) <==> (old(node2parent)@.contains_key(n) || children@.take(i as int).contains(n)),
            forall|n: NodeId| #[trigger] node2parent@.contains_key(n) ==>
                node2parent@[n] == (if children@.take(i as int).contains(n) { id } else { old(node2parent)@[n] }),
            next@ == old(next)@ + children@.take(i as int),
        decreases children.len() - i,
    {
        let c = children[i];
        proof {
            assert(children@.take(i as int + 1) =~= children@.take(i as int).push(c));
            assert forall|n: NodeId| children@.take(i as int + 1).contains(n) <==> (children@.take(i as int).contains(n) || n == c) by {
                if children@.take(i as int + 1).contains(n) && n != c {
                    let t = choose|t: int| 0 <= t < i + 1 && #[trigger] children@.take(i as int + 1)[t] == n;
                    assert(children@.take(i as int)[t] == n);
                }
                if children@.take(i as int).contains(n) {
                    let t = choose|t: int| 0 <= t < i && children@.take(i as int)[t] == n;
                    assert(children@.take(i as int + 1)[t] == n);
                }
                if n == c {
                    assert(children@.take(i as int + 1)[i as int] == n);
                }
            }
        }
        node2parent.insert(c, id);
        next.push(c);
        i = i + 1;
    }
    assert(children@.take(i as int) =~= children@);
}

/// Labels level `d` (listed by `frontier`) with its depth, records the
/// parent of every node of level `d + 1`, and returns that next level.
fn expand_level(
    root: NodeId,
    id2node: &HashMap<NodeId, Node>,
    frontier: &Vec<NodeId>,
    d: usize,
    node2depth: &mut HashMap<NodeId, usize>,
    node2parent: &mut HashMap<NodeId, NodeId>,
    ids: &mut Configuration,
) -> (next: Vec<NodeId>)
    requires
        is_tree(root, id2node@),
        is_level(root, id2node@, frontier@, d as nat),
        depths_upto(root, id2node@, old(node2depth)@, d as nat),
        parents_upto(root, id2node@, old(node2parent)@, d as nat),
        old(ids).wf(),
        forall|n: NodeId| #[trigger] old(ids)@.contains(n) <==> old(node2depth)@.contains_key(n),
    ensures
        is_level(root, id2node@, next@, (d + 1) as nat),
        depths_upto(root, id2node@, final(node2depth)@, (d + 1) as nat),
        parents_upto(root, id2node@, final(node2parent)@, (d + 1) as nat),
        final(ids).wf(),
        forall|n: NodeId| #[trigger] final(ids)@.contains(n) <==> final(node2depth)@.contains_key(n),
{
    let ghost m = id2node@;
    let mut next: Vec<NodeId> = Vec::new();
    let mut k: usize = 0;
    while k < frontier.len()
        invariant
            m == id2node@,
            is_tree(root, m),
            is_level(root, m, frontier@, d as nat),
            k <= frontier@.len(),
            forall|n: NodeId| #[trigger] node2depth@.contains_key(n) <==> (m.contains_key(n)
                && (depth_in(m, root, n) < d || in_prefix(frontier@, k as int, n))),
            forall|n: NodeId| #[trigger] node2depth@.contains_key(n) ==> node2depth@[n] == depth_in(m, root, n),
            forall|n: NodeId| #[trigger] node2parent@.contains_key(n) <==> ((m.contains_key(n) && 1 <= depth_in(m, root, n) <= d)
                || child_of_prefix(m, frontier@, k as int, n)),
            forall|n: NodeId| #[trigger] node2parent@.contains_key(n) ==> child_of(m, node2parent@[n], n),
            forall|n: NodeId| #[trigger] next@.contains(n) <==> child_of_prefix(m, frontier@, k as int, n),
            ids.wf(),
            forall|n: NodeId| #[trigger] ids@.contains(n) <==> node2depth@.contains_key(n),
        decreases frontier.len() - k,
    {
        let id = frontier[k];
        proof {
            assert(frontier@.contains(id));
            assert(level_set(root, m, d as nat).contains(id));
        }
        let ghost depth0 = node2depth@;
        let ghost parent0 = node2parent@;
        let ghost next0 = next@;
        node2depth.insert(id, d);
        ids.insert(id);
        let node = id2node.get(&id).unwrap();
        link_children(id, &node.children, node2parent, &mut next);
        let ghost kk = k as int;
        k = k + 1;
        proof {
            assert(node2depth@ == depth0.insert(id, d));
            assert(m.contains_key(id));
            assert forall|n: NodeId| #[trigger] node2depth@.contains_key(n) <==> (m.contains_key(n)
                && (depth_in(m, root, n) < d || in_prefix(frontier@, k as int, n))) by {
                if n == id {
                    assert(frontier@[kk] == n);
                } else {
                    if in_prefix(frontier@, k as int, n) {
                        let j = choose|j: int| 0 <= j < k as int && #[trigger] frontier@[j] == n;
                        assert(j != kk);
                        assert(frontier@.contains(n));
                        assert(level_set(root, m, d as nat).contains(n));
                        assert(in_prefix(frontier@, kk, n));
                    }
                    if depth0.contains_key(n) {
                        if in_prefix(frontier@, kk, n) {
                            let j = choose|j: int| 0 <= j < kk && #[trigger] frontier@[j] == n;
                            assert(frontier@[j] == n);
                        }
                    }
                }
            }
            assert forall|n: NodeId| (child_of_prefix(m, frontier@, k as int, n))
                <==> ((child_of_prefix(m, frontier@, kk, n)) || m[id].children@.contains(n)) by {
                if m[id].children@.contains(n) {
                    assert(child_of(m, frontier@[kk], n));
                }
                if child_of_prefix(m, frontier@, k as int, n) {
                    let j = choose|j: int| 0 <= j < k as int && #[trigger] child_of(m, frontier@[j], n);
                    if j == kk {
                        assert(m[id].children@.contains(n));
                    } else {
                        assert(child_of_prefix(m, frontier@, kk, n));
                    }
                }
            }
            assert forall|n: NodeId| #[trigger] node2parent@.contains_key(n) implies child_of(m, node2parent@[n], n) by {
                if m[id].children@.contains(n) {
                    assert(child_of(m, id, n));
                } else {
                    assert(parent0.contains_key(n));
                }
            }
            assert forall|n: NodeId| #[trigger] node2parent@.contains_key(n) <==> ((m.contains_key(n) && 1 <= depth_in(m, root, n) <= d)
                || child_of_prefix(m, frontier@, k as int, n)) by {
                if m[id].children@.contains(n) {
                    assert(child_of(m, frontier@[kk], n));
                }
            }
            assert forall|n: NodeId| #[trigger] next@.contains(n) <==> child_of_prefix(m, frontier@, k as int, n) by {
                if m[id].children@.contains(n) {
                    assert(child_of(m, frontier@[kk], n));
                }
                if next@.contains(n) {
                    let t = choose|t: int| 0 <= t < next@.len() && next@[t] == n;
                    if t < next0.len() {
                        assert(next0.contains(n));
                    } else {
                        assert(m[id].children@[t - next0.len()] == n);
                        assert(m[id].children@.contains(n));
                    }
                }
                if next0.contains(n) {
                    let t = choose|t: int| 0 <= t < next0.len() && next0[t] == n;
                    assert(next@[t] == n);
                }
                if m[id].children@.contains(n) {
                    let t = choose|t: int| 0 <= t < m[id].children@.len() && m[id].children@[t] == n;
                    assert(next@[next0.len() + t] == n);
                }
            }
        }
    }
    proof {
        lemma_next_level(root, m, frontier@, d as nat);
        assert forall|n: NodeId| #[trigger] level_set(root, m, (d + 1) as nat).contains(n) <==> next@.contains(n) by {}
        assert forall|n: NodeId| #[trigger] node2depth@.contains_key(n) <==> (m.contains_key(n) && depth_in(m, root, n) < d + 1) by {
            if m.contains_key(n) && depth_in(m, root, n) == d {
                assert(level_set(root, m, d as nat).contains(n));
                assert(frontier@.contains(n));
                let j = choose|j: int| 0 <= j < frontier@.len() && frontier@[j] == n;
                assert(frontier@[j] == n);
            }
            if in_prefix(frontier@, k as int, n) {
                let j = choose|j: int| 0 <= j < k && #[trigger] frontier@[j] == n;
                assert(frontier@.contains(n));
                assert(level_set(root, m, d as nat).contains(n));
            }
        }
    }
    next
}

/// Breadth-first labelling: every node's depth and every non-root node's
/// parent, the largest depth, and the node ids.
fn bfs_levels(root: NodeId, id2node: &HashMap<NodeId, Node>) -> (r: (HashMap<NodeId, usize>, HashMap<NodeId, NodeId>, usize, Configuration))
    requires
        is_tree(root, id2node@),
        id2node@.dom().len() <= u32::MAX,
    ensures
        depths_upto(root, id2node@, r.0@, (r.2 + 1) as nat),
        forall|n: NodeId| id2node@.contains_key(n) ==> depth_in(id2node@, root, n) <= r.2,
        exists|n: NodeId| id2node@.contains_key(n) && depth_in(id2node@, root, n) == r.2,
        parents_upto(root, id2node@, r.1@, (r.2 + 1) as nat),
        r.3.wf(),
        r.3@ == id2node@.dom(),
{
    let ghost m = id2node@;
    let ghost size = m.dom().len();
    let mut node2depth: HashMap<NodeId, usize> = HashMap::new();
    let mut node2parent: HashMap<NodeId, NodeId> = HashMap::new();
    let mut ids = Configuration::new();
    let mut max_depth: usize = 0;
    let mut frontier: Vec<NodeId> = Vec::new();
    frontier.push(root);
    let mut d: usize = 0;
    proof {
        lemma_level_zero(root, m);
        assert(frontier@ =~= seq![root]);
        assert(node2depth@ =~= Map::<NodeId, usize>::empty());
        assert(node2parent@ =~= Map::<NodeId, NodeId>::empty());
        assert forall|n: NodeId| #[trigger] node2parent@.contains_key(n) <==> (m.contains_key(n) && 1 <= depth_in(m, root, n) <= 0) by {}
    }
    while frontier.len() > 0
        invariant
            m == id2node@,
            size == m.dom().len(),
            is_tree(root, m),
            size <= u32::MAX,
            is_level(root, m, frontier@, d as nat),
            depths_upto(root, m, node2depth@, d as nat),
            parents_upto(root, m, node2parent@, d as nat),
            ids.wf(),
            forall|n: NodeId| #[trigger] ids@.contains(n) <==> node2depth@.contains_key(n),
            d > 0 ==> max_depth + 1 == d,
            d > 0 ==> exists|n: NodeId| m.contains_key(n) && depth_in(m, root, n) == max_depth,
            d <= size,
        decreases size - d,
    {
        proof {
            let f = frontier@[0];
            assert(frontier@.contains(f));
            assert(level_set(root, m, d as nat).contains(f));
            lemma_depth(root, m, f);
        }
        let next = expand_level(root, id2node, &frontier, d, &mut node2depth, &mut node2parent, &mut ids);
        max_depth = d;
        frontier = next;
        d = d + 1;
    }
    proof {
        assert(frontier@ =~= Seq::<NodeId>::empty());
        lemma_levels_exhausted(root, m, d as nat);
        lemma_depth(root, m, root);
        assert(d > 0) by {
            assert(m.contains_key(root));
        }
        assert(ids@ =~= m.dom());
    }
    (node2depth, node2parent, max_depth, ids)
}


/// The leaves among `s`, in order.
pub open spec fn leaf_seq(m: Map<NodeId, Node>, s: Seq<NodeId>) -> Seq<NodeId> {
    s.filter(|x: NodeId| is_leaf(m, x))
}

/// The subtrees of the stack's entries from the top (last) down, in preorder:
/// the order in which a walk that pops from the top visits them.
pub open spec fn stack_walk(m: Map<NodeId, Node>, root: NodeId, s: Seq<NodeId>) -> Seq<NodeId>
    decreases s.len(),
{
    if s.len() == 0 {
        seq![]
    } else {
        subtree(m, root, s.last()) + stack_walk(m, root, s.drop_last())
    }
}

/// Pushes `n`'s children in reverse, so that they pop from left to right.
fn push_children(
    Ghost(m): Ghost<Map<NodeId, Node>>,
    Ghost(root): Ghost<NodeId>,
    Ghost(n): Ghost<NodeId>,
    children: &Vec<NodeId>,
    stack: &mut Vec<NodeId>,
)
    requires
        is_tree(root, m),
        m.contains_key(n),
        children@ == m[n].children@,
        forall|i: int| 0 <= i < old(stack)@.len() ==> m.contains_key(#[trigger] old(stack)@[i]),
    ensures
        stack_walk(m, root, final(stack)@) == walk_kids(m, n, 0, (fuel_of(m, root, n) - 1) as nat) + stack_walk(m, root, old(stack)@),
        forall|i: int| 0 <= i < final(stack)@.len() ==> m.contains_key(#[trigger] final(stack)@[i]),
{
    let ghost f = (fuel_of(m, root, n) - 1) as nat;
    let mut j = children.len();
    proof {
        assert(walk_kids(m, n, j as nat, f) =~= Seq::<NodeId>::empty());
        assert(stack_walk(m, root, stack@) =~= walk_kids(m, n, j as nat, f) + stack_walk(m, root, old(stack)@));
    }
    while j > 0
        invariant
            is_tree(root, m),
            m.contains_key(n),
            children@ == m[n].children@,
            f == (fuel_of(m, root, n) - 1) as nat,
            j <= children@.len(),
            stack_walk(m, root, stack@) == walk_kids(m, n, j as nat, f) + stack_walk(m, root, old(stack)@),
            forall|i: int| 0 <= i < stack@.len() ==> m.contains_key(#[trigger] stack@[i]),
        decreases j,
    {
        let c = children[j - 1];
        let ghost before = stack@;
        proof {
            assert(child_of(m, n, c));
            assert(m.contains_key(m[n].children@[j - 1]));
            lemma_depth_child(root, m, n, c);
            lemma_depth(root, m, c);
        }
        stack.push(c);
        proof {
            assert(stack@.drop_last() =~= before);
            assert(stack_walk(m, root, stack@) == subtree(m, root, c) + stack_walk(m, root, before));
            assert(walk_kids(m, n, (j - 1) as nat, f) == walk(m, c, f) + walk_kids(m, n, j as nat, f));
            assert(stack_walk(m, root, stack@) =~= walk_kids(m, n, (j - 1) as nat, f) + stack_walk(m, root, old(stack)@));
        }
        j = j - 1;
    }
}


/// Numbers the leaves depth first in child order (= source order): the k-th
/// leaf from the left gets token k.
#[verifier::rlimit(30)]
fn number_leaves(root: NodeId, id2node: &HashMap<NodeId, Node>) -> (r: (HashMap<NodeId, Token>, HashMap<Token, NodeId>))
    requires
        is_tree(root, id2node@),
        id2node@.dom().len() <= u32::MAX,
    ensures
        ({
            let leaves = leaf_seq(id2node@, subtree(id2node@, root, root));
            &&& leaves.no_duplicates()
            &&& leaves.len() <= u32::MAX
            &&& forall|u: Token| #[trigger] r.1@.contains_key(u) <==> u < leaves.len()
            &&& forall|u: Token| #[trigger] r.1@.contains_key(u) ==> r.1@[u] == leaves[u as int]
            &&& forall|n: NodeId| #[trigger] r.0@.contains_key(n) <==> leaves.contains(n)
            &&& forall|u: Token| u < leaves.len() ==> #[trigger] r.0@[leaves[u as int]] == u
        }),
{
    let ghost m = id2node@;
        // Depth first in child order (= source order): the k-th leaf from the
        // left is the token with source-order index k.
        let mut leaf2token: HashMap<NodeId, Token> = HashMap::new();
        let mut token2leaf: HashMap<Token, NodeId> = HashMap::new();
        let mut next_token: u32 = 0;
        let mut stack: Vec<NodeId> = Vec::new();
        stack.push(root);
        let ghost all = subtree(m, root, root);
        let ghost mut done: Seq<NodeId> = seq![];
        proof {
            lemma_subtree(root, m, root);
            assert(stack@.drop_last() =~= Seq::<NodeId>::empty());
            assert(stack_walk(m, root, Seq::<NodeId>::empty()) =~= Seq::<NodeId>::empty());
            assert(stack@.last() == root);
            assert(stack_walk(m, root, stack@) =~= all);
            assert(done + stack_walk(m, root, stack@) =~= all);
            assert(leaf_seq(m, done) =~= Seq::<NodeId>::empty());
            // the subtree of the root lists every node once
            assert forall|x: NodeId| #[trigger] all.contains(x) implies m.contains_key(x) by {}
            all.unique_seq_to_set();
            vstd::set_lib::lemma_len_subset(all.to_set(), m.dom());
        }
        while stack.len() > 0
            invariant
                m == id2node@,
                is_tree(root, m),
                m.dom().len() <= u32::MAX,
                all == subtree(m, root, root),
                subtree_ok(m, root, root),
                all.len() <= u32::MAX,
                done + stack_walk(m, root, stack@) == all,
                forall|i: int| 0 <= i < stack@.len() ==> m.contains_key(#[trigger] stack@[i]),
                next_token == leaf_seq(m, done).len(),
                forall|u: Token| #[trigger] token2leaf@.contains_key(u) <==> u < next_token,
                forall|u: Token| #[trigger] token2leaf@.contains_key(u) ==> token2leaf@[u] == leaf_seq(m, done)[u as int],
                forall|n: NodeId| #[trigger] leaf2token@.contains_key(n) <==> leaf_seq(m, done).contains(n),
                forall|u: Token| u < next_token ==> #[trigger] leaf2token@[leaf_seq(m, done)[u as int]] == u,
            decreases stack_walk(m, root, stack@).len(),
        {
            let id = stack.pop().unwrap();
            let ghost rest = stack@;
            let node = id2node.get(&id).unwrap();
            proof {
                assert(stack_walk(m, root, rest.push(id)) == subtree(m, root, id) + stack_walk(m, root, rest)) by {
                    assert(rest.push(id).drop_last() =~= rest);
                }
                lemma_subtree(root, m, id);
            }
            if node.children.len() == 0 {
                proof {
                    let ls = leaf_seq(m, done);
                    assert(walk_kids(m, id, 0, (fuel_of(m, root, id) - 1) as nat) =~= Seq::<NodeId>::empty());
                    assert(subtree(m, root, id) =~= seq![id]);
                    // `id` comes after everything done, so it is new
                    assert(all =~= done + (seq![id] + stack_walk(m, root, rest)));
                    assert(all[done.len() as int] == id);
                    assert(!done.contains(id)) by {
                        if done.contains(id) {
                            let j = choose|j: int| 0 <= j < done.len() && done[j] == id;
                            assert(all[j] == id);
                        }
                    }
                    assert(!ls.contains(id)) by {
                        if ls.contains(id) {
                            done.lemma_filter_contains_rev(|x: NodeId| is_leaf(m, x), id);
                        }
                    }
                    done.lemma_filter_len(|x: NodeId| is_leaf(m, x));
                    assert(done.len() + 1 <= all.len());
                }
                let u = next_token;
                leaf2token.insert(id, u);
                token2leaf.insert(u, id);
                next_token = next_token + 1;
                proof {
                    let ls0 = leaf_seq(m, done);
                    reveal_with_fuel(Seq::filter, 1);
                    assert(done.push(id).drop_last() =~= done);
                    assert(leaf_seq(m, done.push(id)) == ls0.push(id));
                    done = done.push(id);
                    assert(done + stack_walk(m, root, stack@) =~= all);
                    let ls = leaf_seq(m, done);
                    assert forall|n: NodeId| #[trigger] leaf2token@.contains_key(n) <==> ls.contains(n) by {
                        if ls.contains(n) && n != id {
                            let j = choose|j: int| 0 <= j < ls.len() && ls[j] == n;
                            assert(ls0[j] == n);
                        }
                        if ls0.contains(n) {
                            let j = choose|j: int| 0 <= j < ls0.len() && ls0[j] == n;
                            assert(ls[j] == n);
                        }
                        if n == id {
                            assert(ls[ls.len() - 1] == id);
                        }
                    }
                    assert forall|v: Token| v < next_token implies #[trigger] leaf2token@[ls[v as int]] == v by {
                        if v < u {
                            assert(ls[v as int] == ls0[v as int]);
                            assert(ls0.contains(ls0[v as int]));
                        }
                    }
                }
            } else {
                push_children(Ghost(m), Ghost(root), Ghost(id), &node.children, &mut stack);
                proof {
                    let ls0 = leaf_seq(m, done);
                    reveal_with_fuel(Seq::filter, 1);
                    assert(done.push(id).drop_last() =~= done);
                    assert(!is_leaf(m, id));
                    assert(leaf_seq(m, done.push(id)) == ls0);
                    done = done.push(id);
                    assert(done + stack_walk(m, root, stack@) =~= all);
                }
            }
        }
        proof {
            assert(stack@ =~= Seq::<NodeId>::empty());
            assert(done =~= all);
            assert(stack_walk(m, root, stack@) =~= Seq::<NodeId>::empty());
            let leaves = leaf_seq(m, all);
            assert(leaves.no_duplicates()) by {
                assert forall|a: int, b: int| 0 <= a < leaves.len() && 0 <= b < leaves.len() && a != b implies leaves[a] != leaves[b] by {
                    // a filtered subsequence of a duplicate-free sequence
                    all.lemma_filter_len(|x: NodeId| is_leaf(m, x));
                    lemma_filter_no_dup(all, |x: NodeId| is_leaf(m, x));
                }
            }
            all.lemma_filter_len(|x: NodeId| is_leaf(m, x));
        }
    (leaf2token, token2leaf)
}

/// A parse tree: the nodes, the root, and what is derived from them once.
pub struct Tree {
    id2node: HashMap<NodeId, Node>,
    root: NodeId,
    node2depth: HashMap<NodeId, usize>,
    node2parent: HashMap<NodeId, NodeId>,
    max_depth: usize,
    leaf2token: HashMap<NodeId, Token>,
    token2leaf: HashMap<Token, NodeId>,
    ids: Configuration,
}

impl Tree {
    /// The nodes by id.
    pub closed spec fn nodes(&self) -> Map<NodeId, Node> {
        self.id2node@
    }

    /// The root's id.
    pub closed spec fn root_id(&self) -> NodeId {
        self.root
    }

    /// The largest depth of a node.
    pub closed spec fn height(&self) -> nat {
        self.max_depth as nat
    }

    /// The depth of node `n`.
    pub open spec fn depth(&self, n: NodeId) -> nat {
        depth_in(self.nodes(), self.root_id(), n)
    }

    /// The subtree of `n` in preorder.
    pub open spec fn sub(&self, n: NodeId) -> Seq<NodeId> {
        subtree(self.nodes(), self.root_id(), n)
    }

    /// The leaves from left to right: leaf `k` carries token `k`.
    pub open spec fn leaves(&self) -> Seq<NodeId> {
        leaf_seq(self.nodes(), self.sub(self.root_id()))
    }

    /// The number of tokens.
    pub open spec fn num_tokens(&self) -> nat {
        self.leaves().len()
    }

    /// The parent of a non-root node.
    pub open spec fn parent(&self, n: NodeId) -> NodeId {
        parent_in(self.nodes(), n)
    }

    /// The tree's invariant: a tree whose depths, parents and token
    /// numbering are recorded correctly.
    #[verifier::opaque]
    pub closed spec fn wf(&self) -> bool {
        let m = self.id2node@;
        let leaves = self.leaves();
        &&& is_tree(self.root, m)
        &&& m.dom().len() <= u32::MAX
        &&& depths_upto(self.root, m, self.node2depth@, (self.max_depth + 1) as nat)
        &&& forall|n: NodeId| #[trigger] m.contains_key(n) ==> depth_in(m, self.root, n) <= self.max_depth
        &&& exists|n: NodeId| #[trigger] m.contains_key(n) && depth_in(m, self.root, n) == self.max_depth
        &&& parents_upto(self.root, m, self.node2parent@, (self.max_depth + 1) as nat)
        &&& self.ids.wf()
        &&& self.ids@ == m.dom()
        &&& leaves.no_duplicates()
        &&& leaves.len() <= u32::MAX
        &&& forall|u: Token| #[trigger] self.token2leaf@.contains_key(u) <==> u < leaves.len()
        &&& forall|u: Token| #[trigger] self.token2leaf@.contains_key(u) ==> self.token2leaf@[u] == leaves[u as int]
        &&& forall|n: NodeId| #[trigger] self.leaf2token@.contains_key(n) <==> leaves.contains(n)
        &&& forall|u: Token| u < leaves.len() ==> #[trigger] self.leaf2token@[leaves[u as int]] == u
    }

    /// What the invariant says of the shape.
    pub proof fn lemma_wf(&self)
        requires
            self.wf(),
        ensures
            is_tree(self.root_id(), self.nodes()),
            self.nodes().dom().len() <= u32::MAX,
            self.leaves().no_duplicates(),
            self.num_tokens() <= u32::MAX,
            forall|n: NodeId| #[trigger] self.nodes().contains_key(n) ==> self.depth(n) <= self.height(),
            self.height() < self.nodes().dom().len(),
    {
        reveal(Tree::wf);
        let n = choose|n: NodeId| #[trigger] self.id2node@.contains_key(n) && depth_in(self.id2node@, self.root, n) == self.max_depth;
        lemma_depth(self.root, self.id2node@, n);
    }

    /// The height is the largest depth of a node: some node lies that deep.
    pub proof fn lemma_height_reached(&self)
        requires
            self.wf(),
        ensures
            exists|n: NodeId| #[trigger] self.nodes().contains_key(n) && self.depth(n) == self.height(),
    {
        reveal(Tree::wf);
    }

    /// Builds the tree over `id2node` rooted at `root`: labels every node with
    /// its depth and parent, and numbers the leaves from left to right.
    #[verifier::rlimit(40)]
    pub fn new(root: NodeId, id2node: HashMap<NodeId, Node>) -> (t: Tree)
        requires
            is_tree(root, id2node@),
            id2node@.dom().len() <= u32::MAX,
        ensures
            t.wf(),
            t.nodes() == id2node@,
            t.root_id() == root,
    {
        let ghost m = id2node@;
        let (node2depth, node2parent, max_depth, ids) = bfs_levels(root, &id2node);
        let (leaf2token, token2leaf) = number_leaves(root, &id2node);
        let t = Tree { id2node, root, node2depth, node2parent, max_depth, leaf2token, token2leaf, ids };
        proof {
            reveal(Tree::wf);
            assert(t.id2node@ == m);
            assert(t.leaves() == leaf_seq(m, subtree(m, root, root)));
            assert(depths_upto(root, m, t.node2depth@, (t.max_depth + 1) as nat));
            assert(forall|n: NodeId| #[trigger] m.contains_key(n) ==> depth_in(m, root, n) <= t.max_depth);
            assert(exists|n: NodeId| #[trigger] m.contains_key(n) && depth_in(m, root, n) == t.max_depth);
            assert(parents_upto(root, m, t.node2parent@, (t.max_depth + 1) as nat));
        }
        t
    }
}

/// The present tokens whose leaves are among `done`.
spec fn done_tokens(leaves: Seq<NodeId>, present: Set<u32>, done: Seq<NodeId>) -> Set<u32> {
    Set::new(|u: u32| present.contains(u) && u < leaves.len() && done.contains(leaves[u as int]))
}

/// Visiting one more node adds the present tokens of that node.
proof fn lemma_done_push(leaves: Seq<NodeId>, present: Set<u32>, done: Seq<NodeId>, n: NodeId)
    ensures
        forall|v: u32| #[trigger] done_tokens(leaves, present, done.push(n)).contains(v) <==>
            (done_tokens(leaves, present, done).contains(v) || (present.contains(v) && v < leaves.len() && leaves[v as int] == n)),
{
    let done1 = done.push(n);
    assert forall|v: u32| #[trigger] done_tokens(leaves, present, done1).contains(v) <==>
        (done_tokens(leaves, present, done).contains(v) || (present.contains(v) && v < leaves.len() && leaves[v as int] == n)) by {
        if v < leaves.len() {
            let x = leaves[v as int];
            if done1.contains(x) {
                let j = choose|j: int| 0 <= j < done1.len() && done1[j] == x;
                if j < done.len() {
                    assert(done[j] == x);
                }
            }
            if done.contains(x) {
                let j = choose|j: int| 0 <= j < done.len() && done[j] == x;
                assert(done1[j] == x);
            }
            if x == n {
                assert(done1[done.len() as int] == n);
            }
        }
    }
}

/// Keeping `n` and walking on into its children keeps the same filtered walk.
proof fn lemma_keep_step(out: Seq<NodeId>, n: NodeId, sub: Seq<NodeId>, kids: Seq<NodeId>, rest: Seq<NodeId>, p: spec_fn(NodeId) -> bool)
    requires
        sub == seq![n] + kids,
        p(n),
    ensures
        out.push(n) + (kids + rest).filter(p) == out + (sub + rest).filter(p),
{
    Seq::filter_distributes_over_add(sub, rest, p);
    Seq::filter_distributes_over_add(kids, rest, p);
    kids.lemma_filter_prepend(n, p);
    assert(out.push(n) + (kids + rest).filter(p) =~= out + (sub + rest).filter(p));
}

/// Skipping a subtree that the filter drops entirely keeps the same filtered walk.
proof fn lemma_skip_step(out: Seq<NodeId>, sub: Seq<NodeId>, rest: Seq<NodeId>, p: spec_fn(NodeId) -> bool)
    requires
        sub.filter(p) == Seq::<NodeId>::empty(),
    ensures
        out + rest.filter(p) == out + (sub + rest).filter(p),
{
    Seq::filter_distributes_over_add(sub, rest, p);
    assert(sub.filter(p) + rest.filter(p) =~= rest.filter(p));
}

/// Filtering keeps a sequence free of duplicates.
proof fn lemma_filter_no_dup(s: Seq<NodeId>, p: spec_fn(NodeId) -> bool)
    requires
        s.no_duplicates(),
    ensures
        s.filter(p).no_duplicates(),
    decreases s.len(),
{
    reveal_with_fuel(Seq::filter, 1);
    if s.len() > 0 {
        let t = s.drop_last();
        assert(t.no_duplicates());
        lemma_filter_no_dup(t, p);
        if p(s.last()) {
            let f = t.filter(p);
            assert(!f.contains(s.last())) by {
                if f.contains(s.last()) {
                    t.lemma_filter_contains_rev(p, s.last());
                    let j = choose|j: int| 0 <= j < t.len() && t[j] == s.last();
                    assert(s[j] == s[s.len() - 1]);
                }
            }
            assert(s.filter(p) == f.push(s.last()));
        }
    }
}

impl Tree {
    /// The present tokens whose leaves lie in the subtree of `id`.
    pub open spec fn tokens_under(&self, id: NodeId, present: Set<u32>) -> Set<u32> {
        Set::new(|u: u32| present.contains(u) && u < self.num_tokens() && self.sub(id).contains(self.leaves()[u as int]))
    }

    /// Some present token lies under `id`.
    pub open spec fn holds_token(&self, id: NodeId, present: Set<u32>) -> bool {
        exists|u: u32| #[trigger] self.tokens_under(id, present).contains(u)
    }

    /// The token carried by leaf `n`.
    pub open spec fn token_of(&self, n: NodeId) -> u32 {
        choose|u: u32| u < self.num_tokens() && self.leaves()[u as int] == n
    }

    /// Facts the invariant gives about leaf `n`'s token.
    proof fn lemma_leaf_token(&self, n: NodeId)
        requires
            self.wf(),
            self.nodes().contains_key(n),
            is_leaf(self.nodes(), n),
        ensures
            self.leaf2token@.contains_key(n),
            self.leaf2token@[n] < self.num_tokens(),
            self.leaves()[self.leaf2token@[n] as int] == n,
            self.token_of(n) == self.leaf2token@[n],
            forall|u: u32| u < self.num_tokens() && #[trigger] self.leaves()[u as int] == n ==> u == self.leaf2token@[n],
    {
        reveal(Tree::wf);
        let m = self.id2node@;
        lemma_below_root(self.root, m, n);
        lemma_subtree(self.root, m, self.root);
        let s = subtree(m, self.root, self.root);
        assert(s.contains(n));
        let j = choose|j: int| 0 <= j < s.len() && s[j] == n;
        s.lemma_filter_contains(|x: NodeId| is_leaf(m, x), j);
        let leaves = self.leaves();
        assert(leaves.contains(n));
        let k = choose|k: int| 0 <= k < leaves.len() && leaves[k] == n;
        assert(self.leaf2token@[leaves[k as u32 as int]] == k as u32);
        assert forall|u: u32| u < self.num_tokens() && #[trigger] self.leaves()[u as int] == n implies u == self.leaf2token@[n] by {
            assert(leaves[u as int] == leaves[k]);
        }
    }

    /// Every token's leaf is a leaf of the tree.
    proof fn lemma_token_leaf(&self, u: u32)
        requires
            self.wf(),
            u < self.num_tokens(),
        ensures
            self.nodes().contains_key(self.leaves()[u as int]),
            is_leaf(self.nodes(), self.leaves()[u as int]),
            self.token_of(self.leaves()[u as int]) == u,
    {
        reveal(Tree::wf);
        let m = self.id2node@;
        let s = subtree(m, self.root, self.root);
        lemma_subtree(self.root, m, self.root);
        let leaves = self.leaves();
        s.lemma_filter_pred(|x: NodeId| is_leaf(m, x), u as int);
        assert(leaves.contains(leaves[u as int]));
        s.lemma_filter_contains_rev(|x: NodeId| is_leaf(m, x), leaves[u as int]);
        self.lemma_leaf_token(leaves[u as int]);
    }

    /// Node space to unit space: the present tokens in the subtree rooted at
    /// `id` (for a leaf, its own token if kept).
    #[verifier::rlimit(30)]
    pub fn leaves_under(&self, id: NodeId, present: &Configuration) -> (r: Delta)
        requires
            self.wf(),
            self.nodes().contains_key(id),
            present.wf(),
        ensures
            r.wf(),
            r@ == self.tokens_under(id, present@),
    {
        let ghost m = self.id2node@;
        let ghost root = self.root;
        let ghost target = self.sub(id);
        let ghost leaves = self.leaves();
        let mut out = Configuration::new();
        let mut stack: Vec<NodeId> = Vec::new();
        stack.push(id);
        let ghost mut done: Seq<NodeId> = seq![];
        proof {
            self.lemma_wf();
            lemma_subtree(root, m, id);
            assert(stack@.drop_last() =~= Seq::<NodeId>::empty());
            assert(stack_walk(m, root, Seq::<NodeId>::empty()) =~= Seq::<NodeId>::empty());
            assert(stack@.last() == id);
            assert(done + stack_walk(m, root, stack@) =~= target);
            assert(out@ =~= done_tokens(leaves, present@, done));
        }
        while stack.len() > 0
            invariant
                self.wf(),
                is_tree(root, m),
                m == self.id2node@,
                root == self.root,
                leaves == self.leaves(),
                m.contains_key(id),
                present.wf(),
                target == subtree(m, root, id),
                done + stack_walk(m, root, stack@) == target,
                forall|i: int| 0 <= i < stack@.len() ==> m.contains_key(#[trigger] stack@[i]),
                out.wf(),
                out@ == done_tokens(leaves, present@, done),
            decreases stack_walk(m, root, stack@).len(),
        {
            let n = stack.pop().unwrap();
            let ghost rest = stack@;
            let ghost out0 = out@;
            proof {
                assert(stack_walk(m, root, rest.push(n)) == subtree(m, root, n) + stack_walk(m, root, rest)) by {
                    assert(rest.push(n).drop_last() =~= rest);
                }
                lemma_subtree(root, m, n);
            }
            let node = self.id2node.get(&n).unwrap();
            if node.children.len() == 0 {
                proof {
                    self.lemma_leaf_token(n);
                }
                let u = *self.leaf2token.get(&n).unwrap();
                if present.contains(u) {
                    out.insert(u);
                }
                proof {
                    assert(walk_kids(m, n, 0, (fuel_of(m, root, n) - 1) as nat) =~= Seq::<NodeId>::empty());
                    assert(subtree(m, root, n) =~= seq![n]);
                    let done1 = done.push(n);
                    assert(done1 + stack_walk(m, root, stack@) =~= target);
                    lemma_done_push(leaves, present@, done, n);
                    assert(out@ =~= done_tokens(leaves, present@, done1));
                    done = done1;
                }
            } else {
                push_children(Ghost(m), Ghost(root), Ghost(n), &node.children, &mut stack);
                proof {
                    let done1 = done.push(n);
                    assert(done1 + stack_walk(m, root, stack@) =~= target);
                    lemma_done_push(leaves, present@, done, n);
                    assert forall|v: u32| v < leaves.len() implies leaves[v as int] != n by {
                        self.lemma_token_leaf(v);
                    }
                    assert(out@ =~= done_tokens(leaves, present@, done1));
                    done = done1;
                }
            }
        }
        proof {
            assert(stack@ =~= Seq::<NodeId>::empty());
            assert(stack_walk(m, root, stack@) =~= Seq::<NodeId>::empty());
            assert(done =~= target);
            assert(out@ =~= self.tokens_under(id, present@));
        }
        out
    }

    /// Does any present token lie under `id`?
    pub fn present(&self, id: NodeId, config: &Configuration) -> (b: bool)
        requires
            self.wf(),
            self.nodes().contains_key(id),
            config.wf(),
        ensures
            b <==> self.holds_token(id, config@),
    {
        let under = self.leaves_under(id, config);
        proof {
            under.lemma_wf();
            if !under@.is_empty() {
                let u = under@.choose();
                assert(under@.contains(u));
            }
            if self.holds_token(id, config@) {
                let u = choose|u: u32| #[trigger] self.tokens_under(id, config@).contains(u);
                assert(under@.contains(u));
            }
        }
        !under.is_empty()
    }
}

impl Tree {
    /// What the invariant says of the depth, parent and token tables.
    proof fn lemma_tables(&self)
        requires
            self.wf(),
        ensures
            is_tree(self.root, self.id2node@),
            forall|n: NodeId| #[trigger] self.node2depth@.contains_key(n) <==> self.id2node@.contains_key(n),
            forall|n: NodeId| #[trigger] self.node2depth@.contains_key(n) ==> self.node2depth@[n] == self.depth(n),
            forall|n: NodeId| #[trigger] self.node2parent@.contains_key(n) <==> (self.id2node@.contains_key(n) && n != self.root),
            forall|n: NodeId| #[trigger] self.node2parent@.contains_key(n) ==>
                child_of(self.id2node@, self.node2parent@[n], n) && self.node2parent@[n] == self.parent(n),
            forall|u: Token| #[trigger] self.token2leaf@.contains_key(u) <==> u < self.num_tokens(),
            forall|u: Token| #[trigger] self.token2leaf@.contains_key(u) ==> self.token2leaf@[u] == self.leaves()[u as int],
            self.ids.wf(),
            self.ids@ == self.id2node@.dom(),
    {
        reveal(Tree::wf);
        let m = self.id2node@;
        assert forall|n: NodeId| #[trigger] self.node2depth@.contains_key(n) <==> m.contains_key(n) by {
            if m.contains_key(n) {
                assert(depth_in(m, self.root, n) <= self.max_depth);
            }
        }
        assert forall|n: NodeId| #[trigger] self.node2parent@.contains_key(n) <==> (m.contains_key(n) && n != self.root) by {
            if m.contains_key(n) {
                lemma_depth(self.root, m, n);
                assert(depth_in(m, self.root, n) <= self.max_depth);
            }
        }
        assert forall|n: NodeId| #[trigger] self.node2parent@.contains_key(n) implies
            child_of(m, self.node2parent@[n], n) && self.node2parent@[n] == self.parent(n) by {
            lemma_parent_unique(self.root, m, self.node2parent@[n], n);
        }
    }

    /// `n`'s ancestor at depth `level` (`n` itself when it is no deeper).
    pub open spec fn ancestor(&self, n: NodeId, level: nat) -> NodeId {
        if self.depth(n) > level {
            up(self.nodes(), n, (self.depth(n) - level) as nat)
        } else {
            n
        }
    }

    /// `n` may be deleted: it is an element of a `List`, or of an interior
    /// node of a tree without a grammar.
    pub open spec fn is_deletable(&self, n: NodeId) -> bool {
        &&& self.nodes().contains_key(n)
        &&& n != self.root_id()
        &&& (self.nodes()[self.parent(n)].kind == Kind::List || self.nodes()[self.parent(n)].kind == Kind::Group)
    }

    /// Token `u` is represented at `level` by node `x`.
    pub open spec fn represents(&self, level: nat, u: u32, x: NodeId) -> bool {
        &&& u < self.num_tokens()
        &&& self.depth(self.leaves()[u as int]) >= level
        &&& self.ancestor(self.leaves()[u as int], level) == x
        &&& self.is_deletable(x)
    }

    /// The deletable level-`level` subtrees that still hold a present token.
    pub open spec fn level_nodes(&self, level: nat, present: Set<u32>) -> Set<NodeId> {
        Set::new(|x: NodeId| exists|u: u32| present.contains(u) && #[trigger] self.represents(level, u, x))
    }

    /// Every present token is a token of the tree.
    pub open spec fn covers(&self, present: Set<u32>) -> bool {
        forall|u: u32| #[trigger] present.contains(u) ==> u < self.num_tokens()
    }

    /// A node may be deleted only when it is an element of a `List` (or of a
    /// grammar-less interior node).
    pub fn deletable(&self, id: NodeId) -> (b: bool)
        requires
            self.wf(),
        ensures
            b == self.is_deletable(id),
    {
        proof {
            self.lemma_tables();
        }
        match self.node2parent.get(&id) {
            Some(p) => {
                proof {
                    assert(child_of(self.id2node@, *p, id));
                }
                let kind = self.id2node.get(p).unwrap().kind;
                match kind {
                    Kind::List | Kind::Group => true,
                    _ => false,
                }
            },
            None => false,
        }
    }

    /// Walks up from `id` to its ancestor sitting at `level`.
    pub fn ancestor_at(&self, id: NodeId, level: usize) -> (a: NodeId)
        requires
            self.wf(),
            self.nodes().contains_key(id),
        ensures
            a == self.ancestor(id, level as nat),
            self.nodes().contains_key(a),
            self.depth(id) >= level ==> self.depth(a) == level,
    {
        proof {
            self.lemma_tables();
        }
        let ghost m = self.id2node@;
        let ghost root = self.root;
        let mut cur = id;
        let ghost mut steps: nat = 0;
        while *self.node2depth.get(&cur).unwrap() > level
            invariant
                self.wf(),
                m == self.id2node@,
                root == self.root,
                is_tree(root, m),
                forall|n: NodeId| #[trigger] self.node2depth@.contains_key(n) <==> m.contains_key(n),
                forall|n: NodeId| #[trigger] self.node2depth@.contains_key(n) ==> self.node2depth@[n] == self.depth(n),
                forall|n: NodeId| #[trigger] self.node2parent@.contains_key(n) <==> (m.contains_key(n) && n != root),
                forall|n: NodeId| #[trigger] self.node2parent@.contains_key(n) ==>
                    child_of(m, self.node2parent@[n], n) && self.node2parent@[n] == self.parent(n),
                m.contains_key(id),
                m.contains_key(cur),
                cur == up(m, id, steps),
                self.depth(cur) + steps == self.depth(id),
                self.depth(cur) >= level || steps == 0,
            decreases self.depth(cur),
        {
            proof {
                lemma_depth(root, m, cur);
            }
            let p = *self.node2parent.get(&cur).unwrap();
            proof {
                lemma_depth_child(root, m, p, cur);
                assert(up(m, id, steps + 1) == parent_in(m, up(m, id, steps)));
                let t = choose|t: int| 0 <= t < m[p].children@.len() && m[p].children@[t] == cur;
                assert(m.contains_key(p));
                steps = steps + 1;
            }
            cur = p;
        }
        proof {
            if self.depth(id) > level {
                assert(steps == self.depth(id) - level);
            } else {
                assert(steps == 0);
                assert(up(m, id, 0) == id);
            }
        }
        cur
    }

    /// The level-`level` subtrees still holding a present token -- the
    /// candidates HDD may delete at this level. Each present token's leaf
    /// contributes its level-`level` ancestor; only the deletable ones stay.
    pub fn alive_level_nodes(&self, level: usize, present: &Configuration) -> (r: Configuration)
        requires
            self.wf(),
            present.wf(),
            self.covers(present@),
        ensures
            r.wf(),
            r@ == self.level_nodes(level as nat, present@),
    {
        proof {
            self.lemma_tables();
        }
        let ghost elems = present.elems();
        let mut out = Configuration::new();
        let mut i: usize = 0;
        let n = present.len();
        while i < n
            invariant
                self.wf(),
                present.wf(),
                self.covers(present@),
                elems == present.elems(),
                n == elems.len(),
                i <= n,
                forall|u: Token| #[trigger] self.token2leaf@.contains_key(u) <==> u < self.num_tokens(),
                forall|u: Token| #[trigger] self.token2leaf@.contains_key(u) ==> self.token2leaf@[u] == self.leaves()[u as int],
                forall|x: NodeId| #[trigger] self.node2depth@.contains_key(x) <==> self.id2node@.contains_key(x),
                forall|x: NodeId| #[trigger] self.node2depth@.contains_key(x) ==> self.node2depth@[x] == self.depth(x),
                out.wf(),
                forall|x: NodeId| #[trigger] out@.contains(x) <==> exists|j: int| 0 <= j < i && #[trigger] self.represents(level as nat, elems[j], x),
            decreases n - i,
        {
            let u = present.get(i);
            let ghost out0 = out@;
            proof {
                assert(present@.contains(elems[i as int]));
                self.lemma_token_leaf(u);
            }
            let leaf = *self.token2leaf.get(&u).unwrap();
            let d = *self.node2depth.get(&leaf).unwrap();
            if d >= level {
                let a = self.ancestor_at(leaf, level);
                if self.deletable(a) {
                    out.insert(a);
                }
            }
            proof {
                assert forall|x: NodeId| #[trigger] out@.contains(x) <==> exists|j: int| 0 <= j < i + 1 && #[trigger] self.represents(level as nat, elems[j], x) by {
                    if self.represents(level as nat, elems[i as int], x) {
                        assert(exists|j: int| 0 <= j < i + 1 && #[trigger] self.represents(level as nat, elems[j], x));
                    }
                    if exists|j: int| 0 <= j < i + 1 && #[trigger] self.represents(level as nat, elems[j], x) {
                        let j = choose|j: int| 0 <= j < i + 1 && #[trigger] self.represents(level as nat, elems[j], x);
                        if j < i {
                            assert(out0.contains(x));
                        }
                    }
                    if out0.contains(x) {
                        let j = choose|j: int| 0 <= j < i && #[trigger] self.represents(level as nat, elems[j], x);
                        assert(self.represents(level as nat, elems[j], x));
                    }
                }
            }
            i = i + 1;
        }
        proof {
            assert forall|x: NodeId| #[trigger] out@.contains(x) <==> self.level_nodes(level as nat, present@).contains(x) by {
                if out@.contains(x) {
                    let j = choose|j: int| 0 <= j < i && #[trigger] self.represents(level as nat, elems[j], x);
                    assert(present@.contains(elems[j]));
                }
                if self.level_nodes(level as nat, present@).contains(x) {
                    let u = choose|u: u32| present@.contains(u) && #[trigger] self.represents(level as nat, u, x);
                    let j = choose|j: int| 0 <= j < elems.len() && elems[j] == u;
                    assert(self.represents(level as nat, elems[j], x));
                }
            }
            assert(out@ =~= self.level_nodes(level as nat, present@));
        }
        out
    }
}

impl Tree {
    /// Liveness of a node that is not a `List`, looking `fuel` levels down:
    /// a token is live iff kept; any other node iff all its non-`List`
    /// children are.
    pub open spec fn live_down(&self, n: NodeId, present: Set<u32>, fuel: nat) -> bool
        decreases fuel,
    {
        if fuel == 0 {
            true
        } else if self.nodes()[n].kind == Kind::Token {
            present.contains(self.token_of(n))
        } else {
            forall|i: int| 0 <= i < self.nodes()[n].children@.len()
                && self.nodes()[#[trigger] self.nodes()[n].children@[i]].kind != Kind::List
                ==> self.live_down(self.nodes()[n].children@[i], present, (fuel - 1) as nat)
        }
    }

    /// Liveness of a `List` node, climbing `fuel` levels up: a list has no
    /// tokens of its own, so it exists iff the node holding it does.
    pub open spec fn live_up(&self, n: NodeId, present: Set<u32>, fuel: nat) -> bool
        decreases fuel,
    {
        if fuel == 0 || n == self.root_id() {
            false
        } else if self.nodes()[self.parent(n)].kind == Kind::List {
            self.live_up(self.parent(n), present, (fuel - 1) as nat)
        } else {
            self.live_down(self.parent(n), present, fuel_of(self.nodes(), self.root_id(), self.parent(n)))
        }
    }

    /// Does node `n` still exist in the program that keeps the tokens `present`?
    pub open spec fn is_live(&self, n: NodeId, present: Set<u32>) -> bool {
        if self.nodes()[n].kind == Kind::List {
            self.live_up(n, present, self.depth(n))
        } else {
            self.live_down(n, present, fuel_of(self.nodes(), self.root_id(), n))
        }
    }

    /// Bounds the recursion of `live`: lists climb, other nodes descend.
    pub open spec fn live_measure(&self, n: NodeId) -> nat {
        if self.nodes()[n].kind == Kind::List {
            self.nodes().dom().len() + self.depth(n) + 1
        } else {
            fuel_of(self.nodes(), self.root_id(), n)
        }
    }

    /// Does this node still exist in the reduced program? The configuration
    /// tracks only which tokens survive, so an internal node's presence is
    /// recovered here.
    pub fn live(&self, id: NodeId, config: &Configuration) -> (b: bool)
        requires
            self.wf(),
            self.nodes().contains_key(id),
        ensures
            b == self.is_live(id, config@),
        decreases self.live_measure(id),
    {
        proof {
            self.lemma_tables();
            lemma_depth(self.root, self.id2node@, id);
        }
        let ghost m = self.id2node@;
        let ghost root = self.root;
        let node = self.id2node.get(&id).unwrap();
        match node.kind {
            Kind::Token => {
                proof {
                    assert(m[id].children@.len() == 0);
                    self.lemma_leaf_token(id);
                }
                let u = *self.leaf2token.get(&id).unwrap();
                config.contains(u)
            },
            Kind::List => {
                match self.node2parent.get(&id) {
                    Some(p) => {
                        let p = *p;
                        proof {
                            lemma_depth_child(root, m, p, id);
                            lemma_depth(root, m, p);
                        }
                        self.live(p, config)
                    },
                    None => false,
                }
            },
            _ => {
                let mut i: usize = 0;
                let ghost f = fuel_of(m, root, id);
                while i < node.children.len()
                    invariant
                        self.wf(),
                        m == self.id2node@,
                        root == self.root,
                        is_tree(root, m),
                        m.contains_key(id),
                        *node == m[id],
                        m[id].kind != Kind::List,
                        m[id].kind != Kind::Token,
                        f == fuel_of(m, root, id),
                        f >= 1,
                        self.live_measure(id) == f,
                        i <= node.children@.len(),
                        forall|j: int| 0 <= j < i && m[#[trigger] m[id].children@[j]].kind != Kind::List
                            ==> self.live_down(m[id].children@[j], config@, (f - 1) as nat),
                    decreases node.children.len() - i,
                {
                    let c = node.children[i];
                    proof {
                        assert(child_of(m, id, c));
                        assert(m.contains_key(m[id].children@[i as int]));
                        lemma_depth_child(root, m, id, c);
                        lemma_depth(root, m, c);
                    }
                    if self.id2node.get(&c).unwrap().kind != Kind::List {
                        if !self.live(c, config) {
                            return false;
                        }
                    }
                    i = i + 1;
                }
                true
            },
        }
    }

    /// The node whose grammar slot `n` effectively fills, climbing at most
    /// `fuel` levels: after a replacement `n`'s own parent may be dead, `n`
    /// having been promoted into some ancestor's place; walk up through the
    /// dead chain to the first node whose parent is live (or the root).
    pub open spec fn anchor(&self, n: NodeId, present: Set<u32>, fuel: nat) -> NodeId
        decreases fuel,
    {
        if fuel == 0 || n == self.root_id() {
            n
        } else if self.parent(n) == self.root_id() || self.is_live(self.parent(n), present) {
            n
        } else {
            self.anchor(self.parent(n), present, (fuel - 1) as nat)
        }
    }

    /// The node whose grammar slot `n` is *effectively* filling.
    pub fn anchor_of(&self, n: NodeId, config: &Configuration) -> (a: NodeId)
        requires
            self.wf(),
            self.nodes().contains_key(n),
        ensures
            a == self.anchor(n, config@, self.depth(n)),
            self.nodes().contains_key(a),
    {
        proof {
            self.lemma_tables();
        }
        let ghost m = self.id2node@;
        let ghost root = self.root;
        let mut anchor = n;
        loop
            invariant
                self.wf(),
                m == self.id2node@,
                root == self.root,
                is_tree(root, m),
                forall|x: NodeId| #[trigger] self.node2parent@.contains_key(x) <==> (m.contains_key(x) && x != root),
                forall|x: NodeId| #[trigger] self.node2parent@.contains_key(x) ==>
                    child_of(m, self.node2parent@[x], x) && self.node2parent@[x] == self.parent(x),
                m.contains_key(n),
                m.contains_key(anchor),
                self.anchor(n, config@, self.depth(n)) == self.anchor(anchor, config@, self.depth(anchor)),
            ensures
                m.contains_key(anchor),
                self.anchor(n, config@, self.depth(n)) == anchor,
            decreases self.depth(anchor),
        {
            proof {
                lemma_depth(root, m, anchor);
            }
            match self.node2parent.get(&anchor) {
                Some(p) => {
                    let p = *p;
                    proof {
                        lemma_depth_child(root, m, p, anchor);
                    }
                    if p == self.root || self.live(p, config) {
                        proof {
                            assert(self.depth(anchor) > 0);
                        }
                        break;
                    }
                    anchor = p;
                },
                None => {
                    proof {
                        assert(anchor == root);
                    }
                    break;
                },
            }
        }
        anchor
    }

    /// `d` can replace `n` in the program that keeps `present`: `d`'s kind
    /// fits the slot `n` effectively fills -- a `List` element's slot accepts
    /// any statement, a fixed slot only its own kind, the root no other node.
    pub open spec fn replaceable(&self, n: NodeId, d: NodeId, present: Set<u32>) -> bool {
        let a = self.anchor(n, present, self.depth(n));
        &&& n != d
        &&& a != self.root_id()
        &&& if self.nodes()[self.parent(a)].kind == Kind::List {
            self.nodes()[d].kind == Kind::IfStmt || self.nodes()[d].kind == Kind::Block || self.nodes()[d].kind == Kind::Call
        } else {
            self.nodes()[d].kind == self.nodes()[a].kind
        }
    }

    /// Can `d` replace `n`?
    pub fn can_replace(&self, n: NodeId, d: NodeId, config: &Configuration) -> (b: bool)
        requires
            self.wf(),
            self.nodes().contains_key(n),
            self.nodes().contains_key(d),
        ensures
            b == self.replaceable(n, d, config@),
    {
        if n == d {
            return false;
        }
        proof {
            self.lemma_tables();
        }
        let anchor = self.anchor_of(n, config);
        let d_kind = self.id2node.get(&d).unwrap().kind;
        match self.node2parent.get(&anchor) {
            Some(p) => {
                proof {
                    assert(child_of(self.id2node@, *p, anchor));
                }
                if self.id2node.get(p).unwrap().kind == Kind::List {
                    is_stmt(d_kind)
                } else {
                    d_kind == self.id2node.get(&anchor).unwrap().kind
                }
            },
            None => false,
        }
    }
}

impl Tree {
    /// No node below a node without present tokens holds one.
    proof fn lemma_absent_below(&self, n: NodeId, present: Set<u32>, x: NodeId)
        requires
            self.wf(),
            self.nodes().contains_key(n),
            self.sub(n).contains(x),
            !self.holds_token(n, present),
        ensures
            !self.holds_token(x, present),
    {
        self.lemma_wf();
        lemma_subtree_mono(self.root, self.id2node@, n, x);
        if self.holds_token(x, present) {
            let u = choose|u: u32| #[trigger] self.tokens_under(x, present).contains(u);
            assert(self.tokens_under(n, present).contains(u));
        }
    }

    /// The subtree of a node without present tokens keeps none of its nodes
    /// under a filter that keeps only nodes holding one.
    proof fn lemma_absent_filter(&self, n: NodeId, present: Set<u32>, p: spec_fn(NodeId) -> bool)
        requires
            self.wf(),
            self.nodes().contains_key(n),
            !self.holds_token(n, present),
            forall|x: NodeId| #[trigger] p(x) ==> self.holds_token(x, present),
        ensures
            self.sub(n).filter(p) == Seq::<NodeId>::empty(),
    {
        let s = self.sub(n);
        assert forall|j: int| 0 <= j < s.len() implies !p(s[j]) by {
            assert(s.contains(s[j]));
            self.lemma_absent_below(n, present, s[j]);
        }
        assert(s.all(|x: NodeId| !p(x)));
        s.lemma_all_neg_filter_empty(p);
        assert(s.filter(p) =~= Seq::<NodeId>::empty());
    }

    /// Every present proper descendant of `id`, in preorder.
    pub fn descendants(&self, id: NodeId, config: &Configuration) -> (r: Vec<NodeId>)
        requires
            self.wf(),
            self.nodes().contains_key(id),
            config.wf(),
        ensures
            r@ == self.sub(id).drop_first().filter(|x: NodeId| self.holds_token(x, config@)),
    {
        let ghost m = self.id2node@;
        let ghost root = self.root;
        let ghost pres = |x: NodeId| self.holds_token(x, config@);
        let ghost target = walk_kids(m, id, 0, (fuel_of(m, root, id) - 1) as nat);
        proof {
            self.lemma_wf();
            lemma_subtree(root, m, id);
            assert(self.sub(id).drop_first() =~= target);
        }
        let mut out: Vec<NodeId> = Vec::new();
        let mut stack: Vec<NodeId> = Vec::new();
        let node = self.id2node.get(&id).unwrap();
        push_children(Ghost(m), Ghost(root), Ghost(id), &node.children, &mut stack);
        proof {
            assert(stack_walk(m, root, Seq::<NodeId>::empty()) =~= Seq::<NodeId>::empty());
            assert(stack_walk(m, root, stack@) =~= target);
            assert(out@ + stack_walk(m, root, stack@).filter(pres) =~= target.filter(pres));
        }
        while stack.len() > 0
            invariant
                self.wf(),
                is_tree(root, m),
                m == self.id2node@,
                root == self.root,
                config.wf(),
                pres == (|x: NodeId| self.holds_token(x, config@)),
                out@ + stack_walk(m, root, stack@).filter(pres) == target.filter(pres),
                forall|i: int| 0 <= i < stack@.len() ==> m.contains_key(#[trigger] stack@[i]),
            decreases stack_walk(m, root, stack@).len(),
        {
            let n = stack.pop().unwrap();
            let ghost rest = stack@;
            let ghost out0 = out@;
            proof {
                assert(stack_walk(m, root, rest.push(n)) == subtree(m, root, n) + stack_walk(m, root, rest)) by {
                    assert(rest.push(n).drop_last() =~= rest);
                }
                lemma_subtree(root, m, n);
            }
            if !self.present(n, config) {
                proof {
                    self.lemma_absent_filter(n, config@, pres);
                    lemma_skip_step(out0, subtree(m, root, n), stack_walk(m, root, rest), pres);
                }
                continue;
            }
            out.push(n);
            let kids = self.id2node.get(&n).unwrap();
            push_children(Ghost(m), Ghost(root), Ghost(n), &kids.children, &mut stack);
            proof {
                let k = walk_kids(m, n, 0, (fuel_of(m, root, n) - 1) as nat);
                lemma_keep_step(out0, n, subtree(m, root, n), k, stack_walk(m, root, rest), pres);
            }
        }
        proof {
            assert(stack_walk(m, root, stack@) =~= Seq::<NodeId>::empty());
            assert(Seq::<NodeId>::empty().filter(pres) =~= Seq::<NodeId>::empty()) by {
                reveal_with_fuel(Seq::filter, 1);
            }
            assert(out@ =~= target.filter(pres));
        }
        out
    }

    /// The present elements (children) of a `List` node -- the things a
    /// deletion minimizer may remove from it. Of any other node it gives the
    /// present children just the same; Perses asks it of `List` nodes only.
    pub fn elems_of(&self, list: NodeId, config: &Configuration) -> (r: Configuration)
        requires
            self.wf(),
            self.nodes().contains_key(list),
            config.wf(),
        ensures
            r.wf(),
            forall|c: NodeId| #[trigger] r@.contains(c) <==> (self.nodes()[list].children@.contains(c) && self.holds_token(c, config@)),
    {
        let ghost m = self.id2node@;
        proof {
            self.lemma_wf();
        }
        let node = self.id2node.get(&list).unwrap();
        let mut out = Configuration::new();
        let mut i: usize = 0;
        while i < node.children.len()
            invariant
                self.wf(),
                is_tree(self.root_id(), m),
                m == self.id2node@,
                m.contains_key(list),
                *node == m[list],
                config.wf(),
                i <= node.children@.len(),
                out.wf(),
                forall|c: NodeId| #[trigger] out@.contains(c) <==> (node.children@.take(i as int).contains(c) && self.holds_token(c, config@)),
            decreases node.children.len() - i,
        {
            let c = node.children[i];
            proof {
                assert(m.contains_key(m[list].children@[i as int]));
            }
            let keep = self.present(c, config);
            if keep {
                out.insert(c);
            }
            proof {
                let before = node.children@.take(i as int);
                let after = node.children@.take(i as int + 1);
                assert(after =~= before.push(c));
                assert forall|x: NodeId| after.contains(x) <==> (before.contains(x) || x == c) by {
                    if after.contains(x) && x != c {
                        let j = choose|j: int| 0 <= j < after.len() && after[j] == x;
                        assert(before[j] == x);
                    }
                    if before.contains(x) {
                        let j = choose|j: int| 0 <= j < before.len() && before[j] == x;
                        assert(after[j] == x);
                    }
                    if x == c {
                        assert(after[i as int] == c);
                    }
                }
            }
            i = i + 1;
        }
        proof {
            assert(node.children@.take(i as int) =~= node.children@);
        }
        out
    }

    /// The number of present tokens under each node.
    pub open spec fn size_map(&self, present: Set<u32>) -> Map<NodeId, usize> {
        Map::new(|n: NodeId| self.nodes().contains_key(n), |n: NodeId| self.tokens_under(n, present).len() as usize)
    }

    /// The live internal nodes, largest subtree first (ties by id).
    pub open spec fn largest_first(&self, present: Set<u32>) -> Seq<NodeId> {
        choose|s: Seq<NodeId>| size_sorted(self.size_map(present), s) && forall|x: NodeId| #[trigger] s.contains(x)
            <==> (self.nodes().contains_key(x) && !is_leaf(self.nodes(), x) && self.is_live(x, present))
    }

    /// How many present tokens each node's subtree still holds -- the payoff
    /// of removing or replacing it.
    pub fn subtree_sizes(&self, config: &Configuration) -> (r: HashMap<NodeId, usize>)
        requires
            self.wf(),
            config.wf(),
        ensures
            forall|n: NodeId| #[trigger] r@.contains_key(n) <==> self.nodes().contains_key(n),
            forall|n: NodeId| #[trigger] r@.contains_key(n) ==> r@[n] == self.tokens_under(n, config@).len(),
            r@ == self.size_map(config@),
    {
        proof {
            self.lemma_tables();
        }
        let ghost ids = self.ids.elems();
        let mut out: HashMap<NodeId, usize> = HashMap::new();
        let mut i: usize = 0;
        let n = self.ids.len();
        while i < n
            invariant
                self.wf(),
                config.wf(),
                self.ids.wf(),
                self.ids@ == self.nodes().dom(),
                ids == self.ids.elems(),
                n == ids.len(),
                i <= n,
                forall|x: NodeId| #[trigger] out@.contains_key(x) <==> ids.take(i as int).contains(x),
                forall|x: NodeId| #[trigger] out@.contains_key(x) ==> out@[x] == self.tokens_under(x, config@).len(),
            decreases n - i,
        {
            let id = self.ids.get(i);
            proof {
                assert(self.ids@.contains(ids[i as int]));
            }
            let under = self.leaves_under(id, config);
            let size = under.len();
            out.insert(id, size);
            proof {
                let before = ids.take(i as int);
                let after = ids.take(i as int + 1);
                assert(after =~= before.push(id));
                assert forall|x: NodeId| after.contains(x) <==> (before.contains(x) || x == id) by {
                    if after.contains(x) && x != id {
                        let j = choose|j: int| 0 <= j < after.len() && after[j] == x;
                        assert(before[j] == x);
                    }
                    if before.contains(x) {
                        let j = choose|j: int| 0 <= j < before.len() && before[j] == x;
                        assert(after[j] == x);
                    }
                    if x == id {
                        assert(after[i as int] == id);
                    }
                }
            }
            i = i + 1;
        }
        proof {
            assert(ids.take(i as int) =~= ids);
            assert(out@ =~= self.size_map(config@));
        }
        out
    }
}

/// `a` comes before `b` in largest-subtree-first order (ties by id).
pub open spec fn size_before(sizes: Map<NodeId, usize>, a: NodeId, b: NodeId) -> bool {
    sizes[a] > sizes[b] || (sizes[a] == sizes[b] && a < b)
}

/// `s` is in largest-subtree-first order.
pub open spec fn size_sorted(sizes: Map<NodeId, usize>, s: Seq<NodeId>) -> bool {
    forall|i: int, j: int| 0 <= i < j < s.len() ==> size_before(sizes, #[trigger] s[i], #[trigger] s[j])
}

/// Two sequences in largest-subtree-first order with the same members are equal.
pub proof fn lemma_size_sorted_unique(sizes: Map<NodeId, usize>, a: Seq<NodeId>, b: Seq<NodeId>)
    requires
        size_sorted(sizes, a),
        size_sorted(sizes, b),
        forall|x: NodeId| a.contains(x) <==> b.contains(x),
    ensures
        a == b,
    decreases a.len(),
{
    if a.len() == 0 {
        if b.len() > 0 {
            assert(b.contains(b[0]));
        }
        assert(b =~= a);
    } else {
        assert(a.contains(a[0]));
        assert(b.len() > 0);
        assert(b.contains(b[0]));
        assert(a[0] == b[0]) by {
            let j = choose|j: int| 0 <= j < b.len() && b[j] == a[0];
            let i = choose|i: int| 0 <= i < a.len() && a[i] == b[0];
            if a[0] != b[0] {
                assert(j > 0 && i > 0);
                assert(size_before(sizes, b[0], b[j]));
                assert(size_before(sizes, a[0], a[i]));
            }
        }
        let a1 = a.drop_first();
        let b1 = b.drop_first();
        assert(size_sorted(sizes, a1)) by {
            assert forall|i: int, j: int| 0 <= i < j < a1.len() implies size_before(sizes, #[trigger] a1[i], #[trigger] a1[j]) by {
                assert(a1[i] == a[i + 1] && a1[j] == a[j + 1]);
            }
        }
        assert(size_sorted(sizes, b1)) by {
            assert forall|i: int, j: int| 0 <= i < j < b1.len() implies size_before(sizes, #[trigger] b1[i], #[trigger] b1[j]) by {
                assert(b1[i] == b[i + 1] && b1[j] == b[j + 1]);
            }
        }
        assert forall|x: NodeId| a1.contains(x) <==> b1.contains(x) by {
            if a1.contains(x) {
                let i = choose|i: int| 0 <= i < a1.len() && a1[i] == x;
                assert(a[i + 1] == x);
                assert(size_before(sizes, a[0], a[i + 1]));
                assert(b.contains(x));
                let j = choose|j: int| 0 <= j < b.len() && b[j] == x;
                assert(j != 0);
                assert(b1[j - 1] == x);
            }
            if b1.contains(x) {
                let i = choose|i: int| 0 <= i < b1.len() && b1[i] == x;
                assert(b[i + 1] == x);
                assert(size_before(sizes, b[0], b[i + 1]));
                assert(a.contains(x));
                let j = choose|j: int| 0 <= j < a.len() && a[j] == x;
                assert(j != 0);
                assert(a1[j - 1] == x);
            }
        }
        lemma_size_sorted_unique(sizes, a1, b1);
        assert(a =~= b) by {
            assert forall|k: int| 0 <= k < a.len() implies a[k] == b[k] by {
                if k > 0 {
                    assert(a[k] == a1[k - 1] && b[k] == b1[k - 1]);
                }
            }
        }
    }
}

/// Inserts `x` into `out`, keeping it in largest-subtree-first order.
fn insert_by_size(out: &mut Vec<NodeId>, x: NodeId, sizes: &HashMap<NodeId, usize>)
    requires
        sizes@.contains_key(x),
        forall|i: int| 0 <= i < old(out)@.len() ==> sizes@.contains_key(#[trigger] old(out)@[i]),
        size_sorted(sizes@, old(out)@),
        !old(out)@.contains(x),
    ensures
        forall|i: int| 0 <= i < final(out)@.len() ==> sizes@.contains_key(#[trigger] final(out)@[i]),
        size_sorted(sizes@, final(out)@),
        forall|y: NodeId| #[trigger] final(out)@.contains(y) <==> (old(out)@.contains(y) || y == x),
{
    let ghost before = out@;
    let sx = *sizes.get(&x).unwrap();
    let mut i: usize = 0;
    while i < out.len()
        invariant
            out@ == before,
            sizes@.contains_key(x),
            sx == sizes@[x],
            forall|k: int| 0 <= k < before.len() ==> sizes@.contains_key(#[trigger] before[k]),
            size_sorted(sizes@, before),
            i <= before.len(),
            forall|k: int| 0 <= k < i ==> size_before(sizes@, #[trigger] before[k], x),
        ensures
            out@ == before,
            i <= before.len(),
            forall|k: int| 0 <= k < i ==> size_before(sizes@, #[trigger] before[k], x),
            i < before.len() ==> !size_before(sizes@, before[i as int], x),
        decreases out.len() - i,
    {
        let o = out[i];
        let so = *sizes.get(&o).unwrap();
        if !(so > sx || (so == sx && o < x)) {
            break;
        }
        i = i + 1;
    }
    proof {
        // everything from `i` on comes after `x`
        assert forall|k: int| i <= k < before.len() implies size_before(sizes@, x, #[trigger] before[k]) by {
            assert(before[i as int] != x) by {
                assert(before.contains(before[i as int]));
            }
            if k > i {
                assert(size_before(sizes@, before[i as int], before[k]));
            }
        }
    }
    out.insert(i, x);
    proof {
        let after = out@;
        assert(after == before.insert(i as int, x));
        assert forall|a: int, b: int| 0 <= a < b < after.len() implies size_before(sizes@, #[trigger] after[a], #[trigger] after[b]) by {
            if b < i {
            } else if b == i {
            } else if a < i {
                assert(after[b] == before[b - 1]);
                assert(size_before(sizes@, before[a], x));
                assert(size_before(sizes@, x, before[b - 1]));
            } else if a == i {
                assert(after[b] == before[b - 1]);
            } else {
                assert(after[a] == before[a - 1]);
                assert(after[b] == before[b - 1]);
            }
        }
        assert forall|y: NodeId| #[trigger] after.contains(y) <==> (before.contains(y) || y == x) by {
            if after.contains(y) {
                let k = choose|k: int| 0 <= k < after.len() && after[k] == y;
                if k < i {
                    assert(before[k] == y);
                } else if k > i {
                    assert(before[k - 1] == y);
                }
            }
            if before.contains(y) {
                let k = choose|k: int| 0 <= k < before.len() && before[k] == y;
                if k < i {
                    assert(after[k] == y);
                } else {
                    assert(after[k + 1] == y);
                }
            }
            if y == x {
                assert(after[i as int] == x);
            }
        }
        assert forall|k: int| 0 <= k < after.len() implies sizes@.contains_key(#[trigger] after[k]) by {
            if k < i {
                assert(after[k] == before[k]);
            } else if k > i {
                assert(after[k] == before[k - 1]);
            }
        }
    }
}

impl Tree {
    /// The live internal nodes, largest subtree first (ties by id) -- the
    /// order in which Perses spends its tests.
    pub fn live_internal_largest_first(&self, config: &Configuration, node2size: &HashMap<NodeId, usize>) -> (r: Vec<NodeId>)
        requires
            self.wf(),
            forall|n: NodeId| #[trigger] self.nodes().contains_key(n) && !is_leaf(self.nodes(), n) && self.is_live(n, config@)
                ==> node2size@.contains_key(n),
        ensures
            size_sorted(node2size@, r@),
            forall|x: NodeId| #[trigger] r@.contains(x) <==>
                (self.nodes().contains_key(x) && !is_leaf(self.nodes(), x) && self.is_live(x, config@)),
            node2size@ == self.size_map(config@) ==> r@ == self.largest_first(config@),
    {
        proof {
            self.lemma_tables();
        }
        let ghost ids = self.ids.elems();
        let mut out: Vec<NodeId> = Vec::new();
        let mut i: usize = 0;
        let n = self.ids.len();
        while i < n
            invariant
                self.wf(),
                self.ids.wf(),
                self.ids@ == self.nodes().dom(),
                ids == self.ids.elems(),
                n == ids.len(),
                i <= n,
                forall|x: NodeId| #[trigger] self.nodes().contains_key(x) && !is_leaf(self.nodes(), x) && self.is_live(x, config@)
                    ==> node2size@.contains_key(x),
                forall|k: int| 0 <= k < out@.len() ==> node2size@.contains_key(#[trigger] out@[k]),
                size_sorted(node2size@, out@),
                forall|x: NodeId| #[trigger] out@.contains(x) <==> (ids.take(i as int).contains(x)
                    && !is_leaf(self.nodes(), x) && self.is_live(x, config@)),
            decreases n - i,
        {
            let id = self.ids.get(i);
            let ghost prev = ids.take(i as int);
            proof {
                assert(self.ids@.contains(ids[i as int]));
                self.ids.lemma_wf();
                assert(!prev.contains(id)) by {
                    if prev.contains(id) {
                        let k = choose|k: int| 0 <= k < prev.len() && prev[k] == id;
                        assert(ids[k] == ids[i as int]);
                    }
                }
                assert(ids.take(i as int + 1) =~= prev.push(id));
                assert forall|x: NodeId| ids.take(i as int + 1).contains(x) <==> (prev.contains(x) || x == id) by {
                    let after = ids.take(i as int + 1);
                    if after.contains(x) && x != id {
                        let j = choose|j: int| 0 <= j < after.len() && after[j] == x;
                        assert(prev[j] == x);
                    }
                    if prev.contains(x) {
                        let j = choose|j: int| 0 <= j < prev.len() && prev[j] == x;
                        assert(after[j] == x);
                    }
                    if x == id {
                        assert(after[i as int] == id);
                    }
                }
            }
            let internal = self.id2node.get(&id).unwrap().children.len() > 0;
            if internal && self.live(id, config) {
                proof {
                    assert(!out@.contains(id));
                }
                insert_by_size(&mut out, id, node2size);
            }
            i = i + 1;
        }
        proof {
            assert(ids.take(i as int) =~= ids);
            if node2size@ == self.size_map(config@) {
                let c = self.largest_first(config@);
                assert(size_sorted(node2size@, out@) && forall|x: NodeId| #[trigger] out@.contains(x)
                    <==> (self.nodes().contains_key(x) && !is_leaf(self.nodes(), x) && self.is_live(x, config@)));
                lemma_size_sorted_unique(node2size@, out@, c);
            }
        }
        out
    }

    /// The number of leaves under `n`.
    pub open spec fn leaf_count(&self, n: NodeId) -> nat {
        leaf_seq(self.nodes(), self.sub(n)).len()
    }

    /// The subtree of `id` is `id` and its children's subtrees.
    proof fn lemma_sub_split(&self, id: NodeId)
        requires
            self.wf(),
            self.nodes().contains_key(id),
        ensures
            forall|x: NodeId| #[trigger] self.sub(id).contains(x) <==> (x == id || exists|j: int| 0 <= j < self.nodes()[id].children@.len()
                && #[trigger] self.sub(self.nodes()[id].children@[j]).contains(x)),
    {
        self.lemma_wf();
        let m = self.id2node@;
        let root = self.root;
        let f = fuel_of(m, root, id);
        let ch = m[id].children@;
        let k = walk_kids(m, id, 0, (f - 1) as nat);
        lemma_subtree(root, m, id);
        lemma_kids(root, m, id, 0);
        assert forall|x: NodeId| #[trigger] self.sub(id).contains(x) <==> (x == id || exists|j: int| 0 <= j < ch.len()
            && #[trigger] self.sub(ch[j]).contains(x)) by {
            if self.sub(id).contains(x) && x != id {
                let t = choose|t: int| 0 <= t < self.sub(id).len() && self.sub(id)[t] == x;
                assert(k[t - 1] == x);
                assert(k.contains(x));
                let j = choose|j: int| 0 <= j < ch.len() && #[trigger] below(m, root, ch[j], x);
                assert(child_of(m, id, ch[j]));
                assert(m.contains_key(m[id].children@[j]));
                lemma_subtree(root, m, ch[j]);
                assert(self.sub(ch[j]).contains(x));
            }
            if exists|j: int| 0 <= j < ch.len() && #[trigger] self.sub(ch[j]).contains(x) {
                let j = choose|j: int| 0 <= j < ch.len() && #[trigger] self.sub(ch[j]).contains(x);
                assert(child_of(m, id, ch[j]));
                assert(m.contains_key(m[id].children@[j]));
                lemma_subtree(root, m, ch[j]);
                assert(below(m, root, ch[j], x));
                assert(k.contains(x));
                let t = choose|t: int| 0 <= t < k.len() && k[t] == x;
                assert(self.sub(id)[t + 1] == x);
            }
            if x == id {
                assert(self.sub(id)[0] == id);
            }
        }
    }

    /// A subtree lists distinct nodes of the tree, so it holds no more
    /// leaves than the tree has nodes.
    proof fn lemma_leaf_count_bound(&self, id: NodeId)
        requires
            self.wf(),
            self.nodes().contains_key(id),
        ensures
            self.leaf_count(id) <= self.sub(id).len(),
            self.sub(id).len() <= self.nodes().dom().len(),
            self.leaf_count(id) <= u32::MAX,
    {
        self.lemma_wf();
        let m = self.id2node@;
        lemma_subtree(self.root, m, id);
        let s = self.sub(id);
        assert forall|x: NodeId| s.to_set().contains(x) implies m.dom().contains(x) by {}
        s.unique_seq_to_set();
        vstd::set_lib::lemma_len_subset(s.to_set(), m.dom());
        s.lemma_filter_len(|x: NodeId| is_leaf(m, x));
    }

    /// Records in `out` the leaf count of `id` and of every node below it.
    #[verifier::rlimit(60)]
    fn count_leaves(&self, id: NodeId, out: &mut HashMap<NodeId, u64>) -> (count: u64)
        requires
            self.wf(),
            self.nodes().contains_key(id),
        ensures
            count == self.leaf_count(id),
            forall|x: NodeId| #[trigger] final(out)@.contains_key(x) <==> (old(out)@.contains_key(x) || self.sub(id).contains(x)),
            forall|x: NodeId| #[trigger] final(out)@.contains_key(x) ==>
                final(out)@[x] == (if self.sub(id).contains(x) { self.leaf_count(x) as u64 } else { old(out)@[x] }),
        decreases fuel_of(self.nodes(), self.root_id(), id),
    {
        let ghost m = self.id2node@;
        let ghost root = self.root;
        let ghost f = fuel_of(m, root, id);
        let ghost lp = |x: NodeId| is_leaf(m, x);
        proof {
            self.lemma_wf();
            lemma_subtree(root, m, id);
            lemma_depth(root, m, id);
            self.lemma_leaf_count_bound(id);
        }
        let node = self.id2node.get(&id).unwrap();
        let count: u64;
        if node.children.len() == 0 {
            proof {
                assert(walk_kids(m, id, 0, (f - 1) as nat) =~= Seq::<NodeId>::empty());
                assert(self.sub(id) =~= seq![id]);
                reveal_with_fuel(Seq::filter, 2);
                assert(seq![id].drop_last() =~= Seq::<NodeId>::empty());
            }
            count = 1;
        } else {
            let ghost out0 = out@;
            let mut total: u64 = 0;
            let mut i: usize = 0;
            while i < node.children.len()
                invariant
                    self.wf(),
                    m == self.id2node@,
                    root == self.root,
                    is_tree(root, m),
                    m.contains_key(id),
                    *node == m[id],
                    f == fuel_of(m, root, id),
                    f >= 1,
                    lp == (|x: NodeId| is_leaf(m, x)),
                    self.leaf_count(id) <= u32::MAX,
                    self.sub(id) == seq![id] + walk_kids(m, id, 0, (f - 1) as nat),
                    i <= node.children@.len(),
                    total + leaf_seq(m, walk_kids(m, id, i as nat, (f - 1) as nat)).len()
                        == leaf_seq(m, walk_kids(m, id, 0, (f - 1) as nat)).len(),
                    forall|x: NodeId| #[trigger] out@.contains_key(x) <==> (out0.contains_key(x)
                        || exists|j: int| 0 <= j < i && #[trigger] self.sub(m[id].children@[j]).contains(x)),
                    forall|x: NodeId| #[trigger] out@.contains_key(x) ==> out@[x] == (if exists|j: int| 0 <= j < i
                        && #[trigger] self.sub(m[id].children@[j]).contains(x) { self.leaf_count(x) as u64 } else { out0[x] }),
                decreases node.children.len() - i,
            {
                let c = node.children[i];
                let ghost outa = out@;
                proof {
                    assert(child_of(m, id, c));
                    assert(m.contains_key(m[id].children@[i as int]));
                    lemma_depth_child(root, m, id, c);
                    lemma_depth(root, m, c);
                    let k0 = walk_kids(m, id, i as nat, (f - 1) as nat);
                    let k1 = walk_kids(m, id, (i + 1) as nat, (f - 1) as nat);
                    assert(k0 == self.sub(c) + k1);
                    Seq::filter_distributes_over_add(self.sub(c), k1, lp);
                    assert(leaf_seq(m, walk_kids(m, id, 0, (f - 1) as nat)).len() <= self.leaf_count(id)) by {
                        reveal_with_fuel(Seq::filter, 1);
                        walk_kids(m, id, 0, (f - 1) as nat).lemma_filter_prepend(id, lp);
                    }
                }
                let sub_count = self.count_leaves(c, out);
                total = total + sub_count;
                proof {
                    assert forall|x: NodeId| #[trigger] out@.contains_key(x) <==> (out0.contains_key(x)
                        || exists|j: int| 0 <= j < i + 1 && #[trigger] self.sub(m[id].children@[j]).contains(x)) by {
                        if self.sub(c).contains(x) {
                            assert(self.sub(m[id].children@[i as int]).contains(x));
                        }
                        if exists|j: int| 0 <= j < i + 1 && #[trigger] self.sub(m[id].children@[j]).contains(x) {
                            let j = choose|j: int| 0 <= j < i + 1 && #[trigger] self.sub(m[id].children@[j]).contains(x);
                            if j < i {
                                assert(outa.contains_key(x));
                            }
                        }
                    }
                    assert forall|x: NodeId| #[trigger] out@.contains_key(x) implies out@[x] == (if exists|j: int| 0 <= j < i + 1
                        && #[trigger] self.sub(m[id].children@[j]).contains(x) { self.leaf_count(x) as u64 } else { out0[x] }) by {
                        if self.sub(c).contains(x) {
                            assert(self.sub(m[id].children@[i as int]).contains(x));
                        } else if exists|j: int| 0 <= j < i + 1 && #[trigger] self.sub(m[id].children@[j]).contains(x) {
                            let j = choose|j: int| 0 <= j < i + 1 && #[trigger] self.sub(m[id].children@[j]).contains(x);
                            assert(j < i);
                            assert(outa.contains_key(x));
                        } else {
                            assert(outa.contains_key(x));
                        }
                    }
                }
                i = i + 1;
            }
            proof {
                assert(walk_kids(m, id, i as nat, (f - 1) as nat) =~= Seq::<NodeId>::empty());
                reveal_with_fuel(Seq::filter, 1);
                walk_kids(m, id, 0, (f - 1) as nat).lemma_filter_prepend(id, lp);
                assert(!lp(id));
            }
            count = total;
        }
        out.insert(id, count);
        proof {
            self.lemma_sub_split(id);
        }
        count
    }

    /// The weight of every node: how many tokens (atomic units) its subtree
    /// ultimately contains.
    pub fn leaf_counts(&self) -> (r: HashMap<NodeId, u64>)
        requires
            self.wf(),
        ensures
            forall|n: NodeId| #[trigger] r@.contains_key(n) <==> self.nodes().contains_key(n),
            forall|n: NodeId| #[trigger] r@.contains_key(n) ==> r@[n] as nat == self.leaf_count(n),
    {
        proof {
            self.lemma_wf();
            lemma_subtree(self.root, self.id2node@, self.root);
        }
        let mut out: HashMap<NodeId, u64> = HashMap::new();
        self.count_leaves(self.root, &mut out);
        proof {
            assert forall|n: NodeId| #[trigger] out@.contains_key(n) <==> self.nodes().contains_key(n) by {
                if self.nodes().contains_key(n) {
                    lemma_below_root(self.root, self.id2node@, n);
                }
            }
            assert forall|n: NodeId| #[trigger] out@.contains_key(n) implies out@[n] as nat == self.leaf_count(n) by {
                self.lemma_leaf_count_bound(n);
            }
        }
        out
    }
}

impl Tree {
    /// The present tokens under any of the nodes `drop`.
    pub open spec fn tokens_under_all(&self, drop: Set<NodeId>, present: Set<u32>) -> Set<u32> {
        Set::new(|u: u32| exists|n: NodeId| drop.contains(n) && #[trigger] self.tokens_under(n, present).contains(u))
    }

    /// Dropping subtrees drops the present tokens under them.
    pub fn leaves_under_all(&self, drop: &Configuration, present: &Configuration) -> (r: Delta)
        requires
            self.wf(),
            drop.wf(),
            forall|n: NodeId| #[trigger] drop@.contains(n) ==> self.nodes().contains_key(n),
            present.wf(),
        ensures
            r.wf(),
            r@ == self.tokens_under_all(drop@, present@),
    {
        let ghost elems = drop.elems();
        let mut out = Configuration::new();
        let mut i: usize = 0;
        let n = drop.len();
        while i < n
            invariant
                self.wf(),
                drop.wf(),
                present.wf(),
                elems == drop.elems(),
                n == elems.len(),
                i <= n,
                forall|x: NodeId| #[trigger] drop@.contains(x) ==> self.nodes().contains_key(x),
                out.wf(),
                out@ == self.tokens_under_all(elems.take(i as int).to_set(), present@),
            decreases n - i,
        {
            let id = drop.get(i);
            proof {
                assert(drop@.contains(elems[i as int]));
            }
            let under = self.leaves_under(id, present);
            out.union_with(&under);
            proof {
                let before = elems.take(i as int);
                let after = elems.take(i as int + 1);
                assert(after =~= before.push(id));
                assert forall|x: NodeId| after.to_set().contains(x) <==> (before.to_set().contains(x) || x == id) by {
                    if after.contains(x) && x != id {
                        let j = choose|j: int| 0 <= j < after.len() && after[j] == x;
                        assert(before[j] == x);
                    }
                    if before.contains(x) {
                        let j = choose|j: int| 0 <= j < before.len() && before[j] == x;
                        assert(after[j] == x);
                    }
                    if x == id {
                        assert(after[i as int] == id);
                    }
                }
                assert(out@ =~= self.tokens_under_all(after.to_set(), present@)) by {
                    assert forall|u: u32| out@.contains(u) implies self.tokens_under_all(after.to_set(), present@).contains(u) by {
                        if under@.contains(u) {
                            assert(after.to_set().contains(id));
                        } else {
                            let x = choose|x: NodeId| before.to_set().contains(x) && #[trigger] self.tokens_under(x, present@).contains(u);
                            assert(after.to_set().contains(x));
                        }
                    }
                    assert forall|u: u32| self.tokens_under_all(after.to_set(), present@).contains(u) implies out@.contains(u) by {
                        let x = choose|x: NodeId| after.to_set().contains(x) && #[trigger] self.tokens_under(x, present@).contains(u);
                        if x != id {
                            assert(before.to_set().contains(x));
                        }
                    }
                }
            }
            i = i + 1;
        }
        proof {
            assert(elems.take(i as int) =~= elems);
        }
        out
    }
}

impl Tree {
    /// The largest depth of a node.
    pub fn max_depth(&self) -> (d: usize)
        requires
            self.wf(),
        ensures
            d == self.height(),
    {
        self.max_depth
    }

    /// The root's id.
    pub fn root(&self) -> (r: NodeId)
        ensures
            r == self.root_id(),
    {
        self.root
    }

    /// A subtree kept at some level holds the token it was kept for.
    pub proof fn lemma_level_node_holds(&self, level: nat, present: Set<u32>, x: NodeId)
        requires
            self.wf(),
            self.level_nodes(level, present).contains(x),
        ensures
            self.nodes().contains_key(x),
            self.holds_token(x, present),
            self.depth(x) == level,
    {
        let u = choose|u: u32| present.contains(u) && #[trigger] self.represents(level, u, x);
        self.lemma_token_leaf(u);
        self.lemma_wf();
        let m = self.nodes();
        let root = self.root_id();
        let leaf = self.leaves()[u as int];
        lemma_level_downward(root, m, leaf, level);
        if self.depth(leaf) == level {
            assert(up(m, leaf, 0) == leaf);
        }
        assert(below(m, root, x, leaf));
        lemma_subtree(root, m, x);
        assert(self.tokens_under(x, present).contains(u));
    }

    /// Nonempty node sets holding present tokens drop some token.
    pub proof fn lemma_drop_nonempty(&self, drop: Set<NodeId>, present: Set<u32>, x: NodeId)
        requires
            drop.contains(x),
            self.holds_token(x, present),
        ensures
            !self.tokens_under_all(drop, present).is_empty(),
            self.tokens_under_all(drop, present).subset_of(present),
    {
        let u = choose|u: u32| #[trigger] self.tokens_under(x, present).contains(u);
        assert(self.tokens_under_all(drop, present).contains(u));
    }
}

impl Tree {
    /// The kind of node `id`.
    pub fn node_kind(&self, id: NodeId) -> (k: Kind)
        requires
            self.nodes().contains_key(id),
        ensures
            k == self.nodes()[id].kind,
    {
        self.id2node.get(&id).unwrap().kind
    }

    /// The label of node `id`.
    pub fn node_label(&self, id: NodeId) -> (l: &String)
        requires
            self.nodes().contains_key(id),
        ensures
            l@ == self.nodes()[id].label@,
    {
        &self.id2node.get(&id).unwrap().label
    }

    /// The children of node `id`.
    pub fn node_children(&self, id: NodeId) -> (c: &Vec<NodeId>)
        requires
            self.nodes().contains_key(id),
        ensures
            c@ == self.nodes()[id].children@,
    {
        &self.id2node.get(&id).unwrap().children
    }

    /// The nodes of a subtree are nodes of the tree.
    pub proof fn lemma_sub_nodes(&self, n: NodeId, x: NodeId)
        requires
            self.wf(),
            self.nodes().contains_key(n),
            self.sub(n).contains(x),
        ensures
            self.nodes().contains_key(x),
    {
        self.lemma_wf();
        lemma_subtree(self.root_id(), self.nodes(), n);
    }

    /// What `descendants` lists.
    pub proof fn lemma_descendants(&self, n: NodeId, present: Set<u32>, s: Seq<NodeId>)
        requires
            self.wf(),
            self.nodes().contains_key(n),
            s == self.sub(n).drop_first().filter(|x: NodeId| self.holds_token(x, present)),
        ensures
            forall|x: NodeId| s.contains(x) <==> (self.sub(n).contains(x) && x != n && self.holds_token(x, present)),
            forall|x: NodeId| #[trigger] s.contains(x) ==> self.nodes().contains_key(x),
            s.no_duplicates(),
    {
        self.lemma_wf();
        let m = self.nodes();
        lemma_subtree(self.root_id(), m, n);
        let sub = self.sub(n);
        let k = sub.drop_first();
        let p = |x: NodeId| self.holds_token(x, present);
        assert(k.no_duplicates()) by {
            assert forall|i: int, j: int| 0 <= i < k.len() && 0 <= j < k.len() && i != j implies k[i] != k[j] by {
                assert(k[i] == sub[i + 1] && k[j] == sub[j + 1]);
            }
        }
        lemma_filter_no_dup(k, p);
        assert(sub[0] == n);
        assert forall|x: NodeId| s.contains(x) <==> (sub.contains(x) && x != n && self.holds_token(x, present)) by {
            if s.contains(x) {
                k.lemma_filter_contains_rev(p, x);
                let j = choose|j: int| 0 <= j < k.len() && k[j] == x;
                assert(sub[j + 1] == x);
                assert(sub[0] != sub[j + 1]);
            }
            if sub.contains(x) && x != n && self.holds_token(x, present) {
                let j = choose|j: int| 0 <= j < sub.len() && sub[j] == x;
                assert(j != 0);
                assert(k[j - 1] == x);
                k.lemma_filter_contains(p, j - 1);
            }
        }
        assert forall|x: NodeId| #[trigger] s.contains(x) implies self.nodes().contains_key(x) by {
            assert(sub.contains(x));
        }
    }
}

/// Texts joined with `sep` between consecutive ones.
pub open spec fn joined(words: Seq<Seq<char>>, sep: Seq<char>) -> Seq<char>
    decreases words.len(),
{
    if words.len() == 0 {
        seq![]
    } else if words.len() == 1 {
        words[0]
    } else {
        joined(words.drop_last(), sep) + sep + words.last()
    }
}

impl Tree {
    /// The children of `n` that hold a present token.
    pub open spec fn alive_kids(&self, n: NodeId, present: Set<u32>) -> Seq<NodeId> {
        self.nodes()[n].children@.filter(|c: NodeId| self.holds_token(c, present))
    }

    /// The nested text of node `n`, looking `fuel` levels down: its label,
    /// then, if any child holds a present token, those children's texts
    /// separated by `; ` in braces.
    #[verifier::opaque]
    pub open spec fn nested(&self, n: NodeId, present: Set<u32>, fuel: nat) -> Seq<char>
        decreases fuel, 0nat, 0int,
    {
        if fuel == 0 {
            seq![]
        } else {
            self.nodes()[n].label@ + if self.alive_kids(n, present).len() == 0 {
                seq![]
            } else {
                seq![' ', '{', ' '] + self.nested_kids(n, 0, present, (fuel - 1) as nat, true) + seq![' ', '}']
            }
        }
    }

    /// The texts of `p`'s children from the `i`-th on that hold a present
    /// token, each but the first (when `first`) preceded by `; `.
    #[verifier::opaque]
    pub open spec fn nested_kids(&self, p: NodeId, i: nat, present: Set<u32>, fuel: nat, first: bool) -> Seq<char>
        decreases fuel, 1nat, self.nodes()[p].children@.len() - i,
    {
        if i < self.nodes()[p].children@.len() {
            let c = self.nodes()[p].children@[i as int];
            if self.holds_token(c, present) {
                (if first { seq![] } else { seq![';', ' '] }) + self.nested(c, present, fuel)
                    + self.nested_kids(p, i + 1, present, fuel, false)
            } else {
                self.nested_kids(p, i + 1, present, fuel, first)
            }
        } else {
            seq![]
        }
    }
}


impl Tree {
    /// The source text of token `u`: its leaf's label.
    pub open spec fn token_text(&self, u: u32) -> Seq<char> {
        self.nodes()[self.leaves()[u as int]].label@
    }

    /// The leaf carrying token `u`.
    pub fn leaf_of_token(&self, u: u32) -> (n: NodeId)
        requires
            self.wf(),
            u < self.num_tokens(),
        ensures
            n == self.leaves()[u as int],
            self.nodes().contains_key(n),
    {
        proof {
            self.lemma_tables();
            self.lemma_token_leaf(u);
        }
        *self.token2leaf.get(&u).unwrap()
    }

    /// The number of tokens.
    pub fn token_count(&self) -> (n: u32)
        requires
            self.wf(),
        ensures
            n == self.num_tokens(),
    {
        proof {
            reveal(Tree::wf);
        }
        let mut n: u32 = 0;
        while n < u32::MAX && self.token2leaf.contains_key(&n)
            invariant
                self.wf(),
                n <= self.num_tokens(),
                forall|u: Token| #[trigger] self.token2leaf@.contains_key(u) <==> u < self.num_tokens(),
                self.num_tokens() <= u32::MAX,
            decreases u32::MAX - n,
        {
            n = n + 1;
        }
        n
    }
}

impl Tree {
    /// One step of `nested`.
    pub proof fn lemma_nested_unfold(&self, n: NodeId, present: Set<u32>, fuel: nat)
        requires
            fuel >= 1,
        ensures
            self.nested(n, present, fuel) == self.nodes()[n].label@ + if self.alive_kids(n, present).len() == 0 {
                Seq::<char>::empty()
            } else {
                seq![' ', '{', ' '] + self.nested_kids(n, 0, present, (fuel - 1) as nat, true) + seq![' ', '}']
            },
    {
        reveal(Tree::nested);
        reveal(Tree::nested_kids);
    }

    /// One step of `nested_kids`.
    pub proof fn lemma_nested_kids_unfold(&self, p: NodeId, i: nat, present: Set<u32>, fuel: nat, first: bool)
        ensures
            i >= self.nodes()[p].children@.len() ==> self.nested_kids(p, i, present, fuel, first) == Seq::<char>::empty(),
            i < self.nodes()[p].children@.len() ==> self.nested_kids(p, i, present, fuel, first) == {
                let c = self.nodes()[p].children@[i as int];
                if self.holds_token(c, present) {
                    (if first { Seq::<char>::empty() } else { seq![';', ' '] }) + self.nested(c, present, fuel)
                        + self.nested_kids(p, i + 1, present, fuel, false)
                } else {
                    self.nested_kids(p, i + 1, present, fuel, first)
                }
            },
    {
        reveal(Tree::nested);
        reveal(Tree::nested_kids);
    }
}

impl Tree {
    /// Every node id, in increasing order.
    pub fn node_ids(&self) -> (r: Vec<NodeId>)
        requires
            self.wf(),
        ensures
            r@.to_set() == self.nodes().dom(),
            crate::config::strictly_sorted(r@),
    {
        proof {
            self.lemma_tables();
        }
        self.ids.to_vec()
    }

    /// The parent of `id`, unless it is the root (or no node of the tree).
    pub fn parent_of(&self, id: NodeId) -> (p: Option<NodeId>)
        requires
            self.wf(),
        ensures
            p == if self.nodes().contains_key(id) && id != self.root_id() { Some(self.parent(id)) } else { None::<NodeId> },
    {
        proof {
            self.lemma_tables();
        }
        match self.node2parent.get(&id) {
            Some(p) => Some(*p),
            None => None,
        }
    }
}

impl Tree {
    /// Every token of the program lies under the root: the tokens under the
    /// root are exactly the present ones.
    pub proof fn lemma_root_holds_every_token(&self, present: Set<u32>)
        requires
            self.wf(),
            self.covers(present),
        ensures
            self.tokens_under(self.root_id(), present) == present,
    {
        self.lemma_wf();
        let m = self.nodes();
        let s = self.sub(self.root_id());
        assert forall|u: u32| present.contains(u) implies self.tokens_under(self.root_id(), present).contains(u) by {
            let leaves = self.leaves();
            assert(leaves.contains(leaves[u as int]));
            s.lemma_filter_contains_rev(|x: NodeId| is_leaf(m, x), leaves[u as int]);
        }
        assert(self.tokens_under(self.root_id(), present) =~= present);
    }

    /// Dropping a subtree drops at least the tokens of every subtree inside it.
    pub proof fn lemma_tokens_under_mono(&self, n: NodeId, x: NodeId, present: Set<u32>)
        requires
            self.wf(),
            self.nodes().contains_key(n),
            self.sub(n).contains(x),
        ensures
            self.tokens_under(x, present).subset_of(self.tokens_under(n, present)),
    {
        self.lemma_wf();
        lemma_subtree_mono(self.root_id(), self.nodes(), n, x);
    }

    /// A leaf holds just its own token, when that token is kept.
    pub proof fn lemma_leaf_holds_its_token(&self, n: NodeId, present: Set<u32>)
        requires
            self.wf(),
            self.nodes().contains_key(n),
            is_leaf(self.nodes(), n),
        ensures
            self.tokens_under(n, present) == if present.contains(self.token_of(n)) {
                set![self.token_of(n)]
            } else {
                Set::<u32>::empty()
            },
    {
        self.lemma_wf();
        self.lemma_leaf_token(n);
        let m = self.nodes();
        let f = fuel_of(m, self.root_id(), n);
        lemma_subtree(self.root_id(), m, n);
        assert(walk_kids(m, n, 0, (f - 1) as nat) =~= Seq::<NodeId>::empty());
        assert(self.sub(n) =~= seq![n]);
        assert forall|u: u32| self.tokens_under(n, present).contains(u) implies u == self.token_of(n) by {
            assert(self.sub(n).contains(self.leaves()[u as int]));
            assert(self.sub(n)[0] == n);
        }
        if present.contains(self.token_of(n)) {
            assert(self.sub(n)[0] == n);
            assert(self.tokens_under(n, present).contains(self.token_of(n)));
            assert(self.tokens_under(n, present) =~= set![self.token_of(n)]);
        } else {
            assert(self.tokens_under(n, present) =~= Set::<u32>::empty());
        }
    }
}
} // verus!
