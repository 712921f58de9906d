//! What makes a node map a tree, and the depth of its nodes.
use vstd::prelude::*;

verus! {

/// Identifies a node of the parse tree. Internal nodes never appear in a
/// configuration; a leaf corresponds to exactly one atomic unit, its token.
pub type NodeId = u32;

/// A token's position in source order: the atomic unit of a tree input.
pub type Token = u32;

/// A node's grammar kind. `Token` is a terminal leaf; `List` is a Kleene
/// node whose children are removable; `Group` is an interior node of a tree
/// without a grammar, whose children are removable too; the rest are
/// non-terminals.
#[derive(Clone, Copy, PartialEq, Eq, Structural, Debug)]
pub enum Kind {
    /// a terminal: "if", "(", "{", "crash", ";", ...
    Token,
    /// a Kleene list of statements (its children are removable)
    List,
    /// a condition
    Expr,
    /// the function definition (root)
    Func,
    /// `if ( cond ) block`
    IfStmt,
    /// `{ stmt-list }`
    Block,
    /// `name ( ) ;`
    Call,
    /// an interior node of a tree without a grammar
    Group,
}

/// Is this kind a statement (`IfStmt`, `Block` or `Call`)?
pub fn is_stmt(kind: Kind) -> (b: bool)
    ensures
        b <==> (kind == Kind::IfStmt || kind == Kind::Block || kind == Kind::Call),
{
    match kind {
        Kind::IfStmt | Kind::Block | Kind::Call => true,
        _ => false,
    }
}

/// A node of the parse tree.
pub struct Node {
    /// its grammar kind
    pub kind: Kind,
    /// the source text, for a leaf
    pub label: String,
    /// its children, in source order
    pub children: Vec<NodeId>,
}

/// `c` is a child of `p` in `m`.
pub open spec fn child_of(m: Map<NodeId, Node>, p: NodeId, c: NodeId) -> bool {
    m.contains_key(p) && m[p].children@.contains(c)
}

/// `m` is a tree rooted at `root`: children exist, every node but the root
/// occurs exactly once as a child, some rank strictly decreases from a node
/// to its children (so there is no cycle), and tokens are leaves.
pub open spec fn is_tree(root: NodeId, m: Map<NodeId, Node>) -> bool {
    &&& m.contains_key(root)
    &&& m.dom().finite()
    &&& forall|p: NodeId, i: int| m.contains_key(p) && 0 <= i < m[p].children@.len() ==> {
        &&& m.contains_key(#[trigger] m[p].children@[i])
        &&& m[p].children@[i] != root
    }
    &&& forall|p1: NodeId, i1: int, p2: NodeId, i2: int|
        m.contains_key(p1) && m.contains_key(p2) && 0 <= i1 < m[p1].children@.len() && 0 <= i2 < m[p2].children@.len()
            && #[trigger] m[p1].children@[i1] == #[trigger] m[p2].children@[i2] ==> p1 == p2 && i1 == i2
    &&& forall|n: NodeId| m.contains_key(n) && n != root ==> exists|p: NodeId| #[trigger] child_of(m, p, n)
    &&& exists|rank: spec_fn(NodeId) -> nat| #[trigger] ranked(m, rank)
    &&& forall|n: NodeId| m.contains_key(n) && m[n].kind == Kind::Token ==> #[trigger] m[n].children@.len() == 0
}

/// `rank` strictly decreases from every node to each of its children.
pub open spec fn ranked(m: Map<NodeId, Node>, rank: spec_fn(NodeId) -> nat) -> bool {
    forall|p: NodeId, i: int| m.contains_key(p) && 0 <= i < m[p].children@.len()
        ==> rank(#[trigger] m[p].children@[i]) < rank(p)
}

/// The parent of `n` in `m` (meaningful when `n` is some node's child).
pub open spec fn parent_in(m: Map<NodeId, Node>, n: NodeId) -> NodeId {
    choose|p: NodeId| child_of(m, p, n)
}

/// `n`'s ancestor `i` steps up.
pub open spec fn up(m: Map<NodeId, Node>, n: NodeId, i: nat) -> NodeId
    decreases i,
{
    if i == 0 {
        n
    } else {
        parent_in(m, up(m, n, (i - 1) as nat))
    }
}

/// Steps from `n` up to `root`, looking at most `fuel` steps far.
pub open spec fn steps_to_root(m: Map<NodeId, Node>, root: NodeId, n: NodeId, fuel: nat) -> nat
    decreases fuel,
{
    if n == root || fuel == 0 {
        0
    } else {
        1 + steps_to_root(m, root, parent_in(m, n), (fuel - 1) as nat)
    }
}

/// The depth of `n`: how many steps separate it from the root.
pub open spec fn depth_in(m: Map<NodeId, Node>, root: NodeId, n: NodeId) -> nat {
    steps_to_root(m, root, n, m.dom().len())
}

/// In a tree, the parent of a child is the node that lists it.
pub proof fn lemma_parent_unique(root: NodeId, m: Map<NodeId, Node>, p: NodeId, c: NodeId)
    requires
        is_tree(root, m),
        child_of(m, p, c),
    ensures
        parent_in(m, c) == p,
{
    let q = parent_in(m, c);
    assert(child_of(m, q, c));
    let i = choose|i: int| 0 <= i < m[p].children@.len() && m[p].children@[i] == c;
    let j = choose|j: int| 0 <= j < m[q].children@.len() && m[q].children@[j] == c;
    assert(m[p].children@[i] == m[q].children@[j]);
}

proof fn lemma_up_shift(m: Map<NodeId, Node>, n: NodeId, i: nat)
    ensures
        up(m, parent_in(m, n), i) == up(m, n, i + 1),
    decreases i,
{
    if i > 0 {
        lemma_up_shift(m, n, (i - 1) as nat);
        assert(up(m, parent_in(m, n), i) == parent_in(m, up(m, parent_in(m, n), (i - 1) as nat)));
        assert(up(m, n, i + 1) == parent_in(m, up(m, n, i)));
    } else {
        assert(up(m, n, 1) == parent_in(m, up(m, n, 0)));
    }
}

/// Going up without meeting the root climbs in rank and stays in the tree.
proof fn lemma_up_rank(root: NodeId, m: Map<NodeId, Node>, rank: spec_fn(NodeId) -> nat, n: NodeId, i: nat)
    requires
        is_tree(root, m),
        m.contains_key(n),
        ranked(m, rank),
        forall|j: nat| j < i ==> up(m, n, j) != root,
    ensures
        m.contains_key(up(m, n, i)),
        rank(up(m, n, i)) >= rank(n) + i,
        forall|j: nat| j < i ==> rank(up(m, n, j)) < rank(up(m, n, i)),
    decreases i,
{
    if i > 0 {
        let k = (i - 1) as nat;
        lemma_up_rank(root, m, rank, n, k);
        let x = up(m, n, k);
        assert(x != root);
        assert(exists|p: NodeId| #[trigger] child_of(m, p, x));
        let p = parent_in(m, x);
        assert(child_of(m, p, x));
        let t = choose|t: int| 0 <= t < m[p].children@.len() && m[p].children@[t] == x;
        assert(rank(m[p].children@[t]) < rank(p));
    }
}

/// From every node the root is at most `|m| - 1` steps up.
pub proof fn lemma_reach_root(root: NodeId, m: Map<NodeId, Node>, n: NodeId)
    requires
        is_tree(root, m),
        m.contains_key(n),
    ensures
        exists|k: nat| k < m.dom().len() && #[trigger] up(m, n, k) == root,
{
    let rank = choose|rank: spec_fn(NodeId) -> nat| #[trigger] ranked(m, rank);
    let len = m.dom().len();
    if forall|k: nat| k < len ==> up(m, n, k) != root {
        lemma_up_rank(root, m, rank, n, len);
        let s = Seq::new(len + 1, |j: int| up(m, n, j as nat));
        assert forall|a: int, b: int| 0 <= a < b < s.len() implies s[a] != s[b] by {
            lemma_up_rank(root, m, rank, n, b as nat);
            assert(rank(up(m, n, a as nat)) < rank(up(m, n, b as nat)));
        }
        assert(s.no_duplicates());
        assert forall|x: NodeId| s.to_set().contains(x) implies m.dom().contains(x) by {
            let j = choose|j: int| 0 <= j < s.len() && s[j] == x;
            lemma_up_rank(root, m, rank, n, j as nat);
        }
        s.unique_seq_to_set();
        vstd::set_lib::lemma_len_subset(s.to_set(), m.dom());
        assert(false);
    }
}

/// Walking up for `fuel` steps finds the first root on the way.
proof fn lemma_steps_to_root(root: NodeId, m: Map<NodeId, Node>, n: NodeId, fuel: nat, k: nat)
    requires
        k <= fuel,
        up(m, n, k) == root,
    ensures
        steps_to_root(m, root, n, fuel) <= k,
        up(m, n, steps_to_root(m, root, n, fuel)) == root,
        forall|j: nat| j < steps_to_root(m, root, n, fuel) ==> #[trigger] up(m, n, j) != root,
    decreases fuel,
{
    if n != root {
        assert(k > 0);
        let p = parent_in(m, n);
        lemma_up_shift(m, n, (k - 1) as nat);
        lemma_steps_to_root(root, m, p, (fuel - 1) as nat, (k - 1) as nat);
        let s = steps_to_root(m, root, p, (fuel - 1) as nat);
        lemma_up_shift(m, n, s);
        assert forall|j: nat| j < 1 + s implies #[trigger] up(m, n, j) != root by {
            if j > 0 {
                lemma_up_shift(m, n, (j - 1) as nat);
                assert(up(m, p, (j - 1) as nat) != root);
            }
        }
    }
}

/// The depth of a node is its distance from the root.
pub proof fn lemma_depth(root: NodeId, m: Map<NodeId, Node>, n: NodeId)
    requires
        is_tree(root, m),
        m.contains_key(n),
    ensures
        depth_in(m, root, n) < m.dom().len(),
        up(m, n, depth_in(m, root, n)) == root,
        forall|j: nat| j < depth_in(m, root, n) ==> #[trigger] up(m, n, j) != root,
        n == root <==> depth_in(m, root, n) == 0,
{
    lemma_reach_root(root, m, n);
    let k = choose|k: nat| k < m.dom().len() && #[trigger] up(m, n, k) == root;
    lemma_steps_to_root(root, m, n, m.dom().len(), k);
    if n != root {
        assert(m.dom().len() > 0) by {
            assert(m.dom().contains(n));
        }
    }
}

/// A child sits one level below its parent.
pub proof fn lemma_depth_child(root: NodeId, m: Map<NodeId, Node>, p: NodeId, c: NodeId)
    requires
        is_tree(root, m),
        child_of(m, p, c),
    ensures
        depth_in(m, root, c) == depth_in(m, root, p) + 1,
        c != root,
{
    let i = choose|i: int| 0 <= i < m[p].children@.len() && m[p].children@[i] == c;
    assert(m.contains_key(m[p].children@[i]));
    lemma_parent_unique(root, m, p, c);
    lemma_depth(root, m, c);
    lemma_depth(root, m, p);
    let dc = depth_in(m, root, c);
    let dp = depth_in(m, root, p);
    // walking up from c passes through p first
    lemma_up_shift(m, c, dp);
    assert(up(m, c, dp + 1) == root);
    assert forall|j: nat| j < dp + 1 implies #[trigger] up(m, c, j) != root by {
        if j > 0 {
            lemma_up_shift(m, c, (j - 1) as nat);
        }
    }
    if dc < dp + 1 {
        assert(up(m, c, dc) == root);
    } else if dc > dp + 1 {
        assert(up(m, c, dp + 1) != root);
    }
}


/// The nodes of the subtree rooted at `n` in preorder (a node, then its
/// children's subtrees from left to right), looking at most `fuel` levels down.
pub open spec fn walk(m: Map<NodeId, Node>, n: NodeId, fuel: nat) -> Seq<NodeId>
    decreases fuel, 0nat, 0int,
{
    if fuel == 0 {
        seq![]
    } else {
        seq![n] + walk_kids(m, n, 0, (fuel - 1) as nat)
    }
}

/// The subtrees of `p`'s children from the `i`-th on, in preorder.
pub open spec fn walk_kids(m: Map<NodeId, Node>, p: NodeId, i: nat, fuel: nat) -> Seq<NodeId>
    decreases fuel, 1nat, m[p].children@.len() - i,
{
    if i < m[p].children@.len() {
        walk(m, m[p].children@[i as int], fuel) + walk_kids(m, p, i + 1, fuel)
    } else {
        seq![]
    }
}

/// How many levels lie at or below `n`, at most.
pub open spec fn fuel_of(m: Map<NodeId, Node>, root: NodeId, n: NodeId) -> nat {
    (m.dom().len() - depth_in(m, root, n)) as nat
}

/// The subtree rooted at `n`, in preorder.
pub open spec fn subtree(m: Map<NodeId, Node>, root: NodeId, n: NodeId) -> Seq<NodeId> {
    walk(m, n, fuel_of(m, root, n))
}

/// `x` lies in the subtree of `n`: `n` is on the path from `x` up to the root.
pub open spec fn below(m: Map<NodeId, Node>, root: NodeId, n: NodeId, x: NodeId) -> bool {
    &&& m.contains_key(x)
    &&& depth_in(m, root, x) >= depth_in(m, root, n)
    &&& up(m, x, (depth_in(m, root, x) - depth_in(m, root, n)) as nat) == n
}

/// A node without children.
pub open spec fn is_leaf(m: Map<NodeId, Node>, n: NodeId) -> bool {
    m[n].children@.len() == 0
}

/// The subtree of `n` lists each of its nodes once.
pub open spec fn subtree_ok(m: Map<NodeId, Node>, root: NodeId, n: NodeId) -> bool {
    &&& subtree(m, root, n).no_duplicates()
    &&& forall|x: NodeId| #[trigger] subtree(m, root, n).contains(x) <==> below(m, root, n, x)
}

/// The subtrees of `p`'s children from the `i`-th on list each of their nodes once.
pub open spec fn kids_ok(m: Map<NodeId, Node>, root: NodeId, p: NodeId, i: nat) -> bool {
    let s = walk_kids(m, p, i, (fuel_of(m, root, p) - 1) as nat);
    &&& s.no_duplicates()
    &&& forall|x: NodeId| #[trigger] s.contains(x) <==> exists|t: int| i <= t < m[p].children@.len()
        && #[trigger] below(m, root, m[p].children@[t], x)
}

/// A descendant of `n` other than `n` lies below exactly one of its children.
#[verifier::rlimit(30)]
pub proof fn lemma_below_child(root: NodeId, m: Map<NodeId, Node>, n: NodeId, x: NodeId)
    requires
        is_tree(root, m),
        m.contains_key(n),
    ensures
        (below(m, root, n, x) && x != n) <==> exists|t: int| 0 <= t < m[n].children@.len()
            && #[trigger] below(m, root, m[n].children@[t], x),
{
    let dn = depth_in(m, root, n);
    if exists|t: int| 0 <= t < m[n].children@.len() && #[trigger] below(m, root, m[n].children@[t], x) {
        let t = choose|t: int| 0 <= t < m[n].children@.len() && #[trigger] below(m, root, m[n].children@[t], x);
        let c = m[n].children@[t];
        assert(child_of(m, n, c));
        lemma_depth_child(root, m, n, c);
        lemma_parent_unique(root, m, n, c);
        let dx = depth_in(m, root, x);
        let dc = depth_in(m, root, c);
        assert(up(m, x, (dx - dn) as nat) == parent_in(m, up(m, x, (dx - dc) as nat)));
    }
    if below(m, root, n, x) && x != n {
        let dx = depth_in(m, root, x);
        assert(dx > dn) by {
            if dx == dn {
                assert(up(m, x, 0) == x);
            }
        }
        lemma_level_downward(root, m, x, dn + 1);
        let y = up(m, x, (dx - dn - 1) as nat);
        lemma_depth(root, m, y);
        assert(y != root);
        assert(exists|p: NodeId| #[trigger] child_of(m, p, y));
        let p = choose|p: NodeId| #[trigger] child_of(m, p, y);
        lemma_parent_unique(root, m, p, y);
        assert(up(m, x, (dx - dn) as nat) == parent_in(m, y));
        let t = choose|t: int| 0 <= t < m[n].children@.len() && m[n].children@[t] == y;
        assert(below(m, root, m[n].children@[t], x));
    }
}

/// Walking up from a node at least `d` deep, `d` levels short of its depth,
/// reaches a node at depth `d`.
pub proof fn lemma_level_downward(root: NodeId, m: Map<NodeId, Node>, n: NodeId, d: nat)
    requires
        is_tree(root, m),
        m.contains_key(n),
        d <= depth_in(m, root, n),
    ensures
        m.contains_key(up(m, n, (depth_in(m, root, n) - d) as nat)),
        depth_in(m, root, up(m, n, (depth_in(m, root, n) - d) as nat)) == d,
    decreases depth_in(m, root, n) - d,
{
    let dn = depth_in(m, root, n);
    if d < dn {
        lemma_level_downward(root, m, n, d + 1);
        let x = up(m, n, (dn - d - 1) as nat);
        lemma_depth(root, m, x);
        assert(x != root);
        assert(exists|p: NodeId| #[trigger] child_of(m, p, x));
        let p = parent_in(m, x);
        assert(child_of(m, p, x));
        lemma_depth_child(root, m, p, x);
        assert(up(m, n, (dn - d) as nat) == parent_in(m, up(m, n, (dn - d - 1) as nat)));
    }
}

/// The subtree of a node lists exactly the nodes below it, once each.
pub proof fn lemma_subtree(root: NodeId, m: Map<NodeId, Node>, n: NodeId)
    requires
        is_tree(root, m),
        m.contains_key(n),
    ensures
        subtree_ok(m, root, n),
        subtree(m, root, n) == seq![n] + walk_kids(m, n, 0, (fuel_of(m, root, n) - 1) as nat),
    decreases fuel_of(m, root, n), 1nat, 0int,
{
    lemma_depth(root, m, n);
    let f = fuel_of(m, root, n);
    assert(f >= 1);
    lemma_kids(root, m, n, 0);
    let k = walk_kids(m, n, 0, (f - 1) as nat);
    let s = subtree(m, root, n);
    assert(s == seq![n] + k);
    assert forall|x: NodeId| #[trigger] s.contains(x) <==> below(m, root, n, x) by {
        lemma_below_child(root, m, n, x);
        if s.contains(x) && x != n {
            let j = choose|j: int| 0 <= j < s.len() && s[j] == x;
            assert(k[j - 1] == x);
            assert(k.contains(x));
        }
        if below(m, root, n, x) && x != n {
            assert(k.contains(x));
            let j = choose|j: int| 0 <= j < k.len() && k[j] == x;
            assert(s[j + 1] == x);
        }
        if x == n {
            assert(s[0] == n);
            assert(up(m, n, 0) == n);
        }
    }
    assert(!k.contains(n)) by {
        if k.contains(n) {
            let t = choose|t: int| 0 <= t < m[n].children@.len() && #[trigger] below(m, root, m[n].children@[t], n);
            let c = m[n].children@[t];
            assert(child_of(m, n, c));
            lemma_depth_child(root, m, n, c);
        }
    }
    assert forall|a: int, b: int| 0 <= a < s.len() && 0 <= b < s.len() && a != b implies s[a] != s[b] by {
        if a == 0 {
            assert(k.contains(s[b]));
        } else if b == 0 {
            assert(k.contains(s[a]));
        } else {
            assert(s[a] == k[a - 1]);
            assert(s[b] == k[b - 1]);
        }
    }
}

/// The children's subtrees from the `i`-th on list the nodes below those
/// children, once each.
pub proof fn lemma_kids(root: NodeId, m: Map<NodeId, Node>, p: NodeId, i: nat)
    requires
        is_tree(root, m),
        m.contains_key(p),
        fuel_of(m, root, p) >= 1,
    ensures
        kids_ok(m, root, p, i),
    decreases fuel_of(m, root, p), 0nat, m[p].children@.len() - i,
{
    let f = (fuel_of(m, root, p) - 1) as nat;
    let ch = m[p].children@;
    let s = walk_kids(m, p, i, f);
    if i < ch.len() {
        let c = ch[i as int];
        assert(child_of(m, p, c));
        assert(m.contains_key(m[p].children@[i as int]));
        lemma_depth_child(root, m, p, c);
        lemma_depth(root, m, c);
        assert(fuel_of(m, root, c) == f);
        lemma_subtree(root, m, c);
        lemma_kids(root, m, p, i + 1);
        let a = subtree(m, root, c);
        let b = walk_kids(m, p, i + 1, f);
        assert(s == a + b);
        assert forall|x: NodeId| #[trigger] s.contains(x) <==> exists|t: int| i <= t < ch.len()
            && #[trigger] below(m, root, ch[t], x) by {
            if s.contains(x) {
                let j = choose|j: int| 0 <= j < s.len() && s[j] == x;
                if j < a.len() {
                    assert(a.contains(x));
                    assert(below(m, root, ch[i as int], x));
                } else {
                    assert(b[j - a.len()] == x);
                    assert(b.contains(x));
                }
            }
            if exists|t: int| i <= t < ch.len() && #[trigger] below(m, root, ch[t], x) {
                let t = choose|t: int| i <= t < ch.len() && #[trigger] below(m, root, ch[t], x);
                if t == i {
                    assert(a.contains(x));
                    let j = choose|j: int| 0 <= j < a.len() && a[j] == x;
                    assert(s[j] == x);
                } else {
                    assert(b.contains(x));
                    let j = choose|j: int| 0 <= j < b.len() && b[j] == x;
                    assert(s[a.len() + j] == x);
                }
            }
        }
        // the subtrees of two different children are disjoint
        assert forall|x: NodeId| a.contains(x) implies !b.contains(x) by {
            if b.contains(x) {
                let t = choose|t: int| i + 1 <= t < ch.len() && #[trigger] below(m, root, ch[t], x);
                let c2 = ch[t];
                assert(child_of(m, p, c2));
                lemma_depth_child(root, m, p, c2);
                assert(ch[i as int] == ch[t]);
            }
        }
        assert forall|u: int, v: int| 0 <= u < s.len() && 0 <= v < s.len() && u != v implies s[u] != s[v] by {
            if u < a.len() && v < a.len() {
            } else if u >= a.len() && v >= a.len() {
                assert(s[u] == b[u - a.len()]);
                assert(s[v] == b[v - a.len()]);
            } else if u < a.len() {
                assert(a.contains(s[u]));
                assert(s[v] == b[v - a.len()]);
                assert(b.contains(s[v]));
            } else {
                assert(a.contains(s[v]));
                assert(s[u] == b[u - a.len()]);
                assert(b.contains(s[u]));
            }
        }
    } else {
        assert(s =~= Seq::<NodeId>::empty());
    }
}

/// Climbing `a` steps and then `b` steps is climbing `a + b` steps.
pub proof fn lemma_up_add(m: Map<NodeId, Node>, n: NodeId, a: nat, b: nat)
    ensures
        up(m, up(m, n, a), b) == up(m, n, a + b),
    decreases b,
{
    if b > 0 {
        lemma_up_add(m, n, a, (b - 1) as nat);
        assert(up(m, up(m, n, a), b) == parent_in(m, up(m, up(m, n, a), (b - 1) as nat)));
        assert(up(m, n, a + b) == parent_in(m, up(m, n, (a + b - 1) as nat)));
    }
}

/// Lying below is transitive.
pub proof fn lemma_below_trans(root: NodeId, m: Map<NodeId, Node>, a: NodeId, b: NodeId, c: NodeId)
    requires
        below(m, root, a, b),
        below(m, root, b, c),
    ensures
        below(m, root, a, c),
{
    let da = depth_in(m, root, a);
    let db = depth_in(m, root, b);
    let dc = depth_in(m, root, c);
    lemma_up_add(m, c, (dc - db) as nat, (db - da) as nat);
}

/// Every node lies below the root, and below itself.
pub proof fn lemma_below_root(root: NodeId, m: Map<NodeId, Node>, x: NodeId)
    requires
        is_tree(root, m),
        m.contains_key(x),
    ensures
        below(m, root, root, x),
        below(m, root, x, x),
{
    lemma_depth(root, m, x);
    lemma_depth(root, m, root);
    assert(up(m, x, 0) == x);
}

/// The subtree of a node below `n` lies inside the subtree of `n`.
pub proof fn lemma_subtree_mono(root: NodeId, m: Map<NodeId, Node>, n: NodeId, x: NodeId)
    requires
        is_tree(root, m),
        m.contains_key(n),
        subtree(m, root, n).contains(x),
    ensures
        m.contains_key(x),
        forall|y: NodeId| #[trigger] subtree(m, root, x).contains(y) ==> subtree(m, root, n).contains(y),
{
    lemma_subtree(root, m, n);
    assert(below(m, root, n, x));
    lemma_subtree(root, m, x);
    assert forall|y: NodeId| #[trigger] subtree(m, root, x).contains(y) implies subtree(m, root, n).contains(y) by {
        assert(below(m, root, x, y));
        lemma_below_trans(root, m, n, x, y);
    }
}
} // verus!
