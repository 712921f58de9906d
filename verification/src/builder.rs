//! Building parse trees bottom-up, so that what is built is a tree by
//! construction, and the example programs of the demos.
use vstd::prelude::*;
use std::collections::HashMap;
use crate::shape::{NodeId, Kind, Node, is_tree, child_of, ranked};
use crate::tree::Tree;
use vstd::string::StringExecFns;

verus! {

broadcast use vstd::std_specs::hash::group_hash_axioms;

/// A tiny builder so that nested examples read top-down instead of as a
/// giant map. Nodes are added bottom-up: a new node takes as children nodes
/// that no other node holds yet.
pub struct Builder {
    id2node: HashMap<NodeId, Node>,
    next: u32,
    // record grammar kinds; without, every interior node is a `Group`
    grammar: bool,
    // the nodes no other node holds as a child
    free: Ghost<Set<NodeId>>,
    // the order in which the nodes were added
    order: Ghost<Map<NodeId, nat>>,
    count: Ghost<nat>,
}

/// The kind a builder records for a node of kind `kind` with `n` children.
pub open spec fn recorded_kind(grammar: bool, kind: Kind, n: nat) -> Kind {
    if grammar || kind == Kind::Token || n == 0 {
        kind
    } else {
        Kind::Group
    }
}

/// `m2` holds every node of `m1` unchanged.
#[verifier::opaque]
pub open spec fn grows(m1: Map<NodeId, Node>, m2: Map<NodeId, Node>) -> bool {
    forall|k: NodeId| #[trigger] m1.contains_key(k) ==> m2.contains_key(k) && m1[k] == m2[k]
}

/// What holds of a node of `m1` holds of it in every `m2` that grows from `m1`.
proof fn lemma_lift(m1: Map<NodeId, Node>, m2: Map<NodeId, Node>)
    requires
        grows(m1, m2),
    ensures
        forall|id: NodeId, kind: Kind, label: Seq<char>, children: Seq<NodeId>|
            #[trigger] node_at(m1, id, kind, label, children) ==> node_at(m2, id, kind, label, children),
{
    reveal(grows);
    reveal(node_at);
}

/// Node `id` of `m` has kind `kind`, text `label` and children `children`.
#[verifier::opaque]
pub open spec fn node_at(m: Map<NodeId, Node>, id: NodeId, kind: Kind, label: Seq<char>, children: Seq<NodeId>) -> bool {
    &&& m.contains_key(id)
    &&& m[id].kind == kind
    &&& m[id].label@ == label
    &&& m[id].children@ == children
}

/// Node `id` of `m` is a token leaf with text `text`.
pub open spec fn token_at(m: Map<NodeId, Node>, id: NodeId, text: Seq<char>) -> bool {
    node_at(m, id, Kind::Token, text, seq![])
}

/// Node `id` is the call `name ( ) ;`, over the four tokens numbered just
/// below it.
pub open spec fn call_at(m: Map<NodeId, Node>, typed: bool, id: NodeId, name: Seq<char>) -> bool {
    &&& id >= 4
    &&& token_at(m, (id - 4) as NodeId, name)
    &&& token_at(m, (id - 3) as NodeId, "("@)
    &&& token_at(m, (id - 2) as NodeId, ")"@)
    &&& token_at(m, (id - 1) as NodeId, ";"@)
    &&& node_at(m, id, recorded_kind(typed, Kind::Call, 4), ""@,
        seq![(id - 4) as NodeId, (id - 3) as NodeId, (id - 2) as NodeId, (id - 1) as NodeId])
}

/// Node `id` is a list of the statements `elems`.
pub open spec fn list_at(m: Map<NodeId, Node>, typed: bool, id: NodeId, elems: Seq<NodeId>) -> bool {
    node_at(m, id, recorded_kind(typed, Kind::List, elems.len()), ""@, elems)
}

/// Node `id` is the block `{ list }`, its braces numbered just below it.
pub open spec fn block_at(m: Map<NodeId, Node>, typed: bool, id: NodeId, list: NodeId) -> bool {
    &&& id >= 2
    &&& token_at(m, (id - 2) as NodeId, "{"@)
    &&& token_at(m, (id - 1) as NodeId, "}"@)
    &&& node_at(m, id, recorded_kind(typed, Kind::Block, 3), ""@, seq![(id - 2) as NodeId, list, (id - 1) as NodeId])
}

/// Node `id` is `if ( cond ) body`, its other parts numbered just below it.
pub open spec fn if_at(m: Map<NodeId, Node>, typed: bool, id: NodeId, cond: Seq<char>, body: NodeId) -> bool {
    &&& id >= 5
    &&& token_at(m, (id - 5) as NodeId, "if"@)
    &&& token_at(m, (id - 4) as NodeId, "("@)
    &&& token_at(m, (id - 3) as NodeId, cond)
    &&& node_at(m, (id - 2) as NodeId, recorded_kind(typed, Kind::Expr, 1), ""@, seq![(id - 3) as NodeId])
    &&& token_at(m, (id - 1) as NodeId, ")"@)
    &&& node_at(m, id, recorded_kind(typed, Kind::IfStmt, 5), ""@,
        seq![(id - 5) as NodeId, (id - 4) as NodeId, (id - 2) as NodeId, (id - 1) as NodeId, body])
}

/// Node `id` is `int main ( ) body`, its tokens numbered just below it.
pub open spec fn func_at(m: Map<NodeId, Node>, typed: bool, id: NodeId, body: NodeId) -> bool {
    &&& id >= 4
    &&& token_at(m, (id - 4) as NodeId, "int"@)
    &&& token_at(m, (id - 3) as NodeId, "main"@)
    &&& token_at(m, (id - 2) as NodeId, "("@)
    &&& token_at(m, (id - 1) as NodeId, ")"@)
    &&& node_at(m, id, recorded_kind(typed, Kind::Func, 5), ""@,
        seq![(id - 4) as NodeId, (id - 3) as NodeId, (id - 2) as NodeId, (id - 1) as NodeId, body])
}

impl Builder {
    /// The ids in use are exactly those below `next_id`.
    #[verifier::opaque]
    pub open spec fn dense(&self) -> bool {
        self.nodes().dom() == Set::new(|n: NodeId| n < self.next_id())
    }

    /// The nodes added so far.
    pub closed spec fn nodes(&self) -> Map<NodeId, Node> {
        self.id2node@
    }

    /// The nodes that no node holds as a child yet.
    pub closed spec fn free(&self) -> Set<NodeId> {
        self.free@
    }

    /// The id the next `add` takes.
    pub closed spec fn next_id(&self) -> u32 {
        self.next
    }

    /// Does the builder record grammar kinds?
    pub closed spec fn typed(&self) -> bool {
        self.grammar
    }

    /// The builder's invariant: what was built is a forest whose roots are
    /// the free nodes.
    #[verifier::opaque]
    pub closed spec fn wf(&self) -> bool {
        let m = self.id2node@;
        &&& m.dom().finite()
        &&& forall|n: NodeId| #[trigger] m.contains_key(n) ==> n < self.next
        &&& self.free@.subset_of(m.dom())
        &&& self.order@.dom() == m.dom()
        &&& forall|p: NodeId, i: int| m.contains_key(p) && 0 <= i < m[p].children@.len() ==> {
            &&& m.contains_key(#[trigger] m[p].children@[i])
            &&& !self.free@.contains(m[p].children@[i])
            &&& self.order@[m[p].children@[i]] < self.order@[p]
        }
        &&& forall|p1: NodeId, i1: int, p2: NodeId, i2: int|
            m.contains_key(p1) && m.contains_key(p2) && 0 <= i1 < m[p1].children@.len() && 0 <= i2 < m[p2].children@.len()
                && #[trigger] m[p1].children@[i1] == #[trigger] m[p2].children@[i2] ==> p1 == p2 && i1 == i2
        &&& forall|n: NodeId| m.contains_key(n) && !self.free@.contains(n) ==> exists|p: NodeId| #[trigger] child_of(m, p, n)
        &&& forall|n: NodeId| m.contains_key(n) && m[n].kind == Kind::Token ==> #[trigger] m[n].children@.len() == 0
        &&& forall|n: NodeId| #[trigger] self.order@.contains_key(n) ==> self.order@[n] < self.count@
    }

    /// An empty builder that records grammar kinds.
    pub fn new() -> (b: Builder)
        ensures
            b.wf(),
            b.nodes() == Map::<NodeId, Node>::empty(),
            b.free() == Set::<NodeId>::empty(),
            b.next_id() == 0,
            b.typed(),
            b.dense(),
    {
        let b = Builder {
            id2node: HashMap::new(),
            next: 0,
            grammar: true,
            free: Ghost(Set::empty()),
            order: Ghost(Map::empty()),
            count: Ghost(0),
        };
        reveal(Builder::wf);
        reveal(Builder::dense);
        assert(b.nodes().dom() =~= Set::new(|n: NodeId| n < b.next_id()));
        b
    }

    /// An empty builder for a tree without a grammar: interior nodes become
    /// `Group`s, whose children may all be deleted.
    pub fn untyped() -> (b: Builder)
        ensures
            b.wf(),
            b.nodes() == Map::<NodeId, Node>::empty(),
            b.free() == Set::<NodeId>::empty(),
            b.next_id() == 0,
            !b.typed(),
            b.dense(),
    {
        let b = Builder {
            id2node: HashMap::new(),
            next: 0,
            grammar: false,
            free: Ghost(Set::empty()),
            order: Ghost(Map::empty()),
            count: Ghost(0),
        };
        reveal(Builder::wf);
        reveal(Builder::dense);
        assert(b.nodes().dom() =~= Set::new(|n: NodeId| n < b.next_id()));
        b
    }

    /// Adds node `id` over the free nodes `children`.
    pub fn add_with_id(&mut self, id: NodeId, kind: Kind, label: &str, children: Vec<NodeId>)
        requires
            old(self).wf(),
            !old(self).nodes().contains_key(id),
            id < u32::MAX,
            children@.no_duplicates(),
            forall|i: int| 0 <= i < children@.len() ==> old(self).free().contains(#[trigger] children@[i]),
            kind == Kind::Token ==> children@.len() == 0,
        ensures
            final(self).wf(),
            final(self).typed() == old(self).typed(),
            final(self).next_id() == if id < old(self).next_id() { old(self).next_id() } else { (id + 1) as u32 },
            final(self).nodes() == old(self).nodes().insert(id, Node {
                kind: recorded_kind(old(self).typed(), kind, children@.len()),
                label: final(self).nodes()[id].label,
                children: children,
            }),
            final(self).nodes()[id].label@ == label@,
            final(self).free() == old(self).free().difference(children@.to_set()).insert(id),
    {
        reveal(Builder::wf);
        let ghost m0 = self.id2node@;
        let ghost free0 = self.free@;
        let ghost order0 = self.order@;
        let ghost count0 = self.count@;
        let kind = if self.grammar || children.len() == 0 {
            kind
        } else {
            match kind {
                Kind::Token => Kind::Token,
                _ => Kind::Group,
            }
        };
        let node = Node { kind, label: String::from_str(label), children };
        self.id2node.insert(id, node);
        if id >= self.next {
            self.next = id + 1;
        }
        proof {
            let ch = children@;
            let m = self.id2node@;
            self.free = Ghost(free0.difference(ch.to_set()).insert(id));
            self.order = Ghost(order0.insert(id, count0));
            self.count = Ghost(count0 + 1);
            assert(m.dom() == m0.dom().insert(id));
            assert forall|p: NodeId, i: int| m.contains_key(p) && 0 <= i < m[p].children@.len() implies {
                &&& m.contains_key(#[trigger] m[p].children@[i])
                &&& !self.free@.contains(m[p].children@[i])
                &&& self.order@[m[p].children@[i]] < self.order@[p]
            } by {
                if p == id {
                    assert(free0.contains(ch[i]));
                    assert(ch.to_set().contains(ch[i]));
                } else {
                    assert(m0.contains_key(m0[p].children@[i]));
                }
            }
            assert forall|p1: NodeId, i1: int, p2: NodeId, i2: int|
                m.contains_key(p1) && m.contains_key(p2) && 0 <= i1 < m[p1].children@.len() && 0 <= i2 < m[p2].children@.len()
                    && #[trigger] m[p1].children@[i1] == #[trigger] m[p2].children@[i2] implies p1 == p2 && i1 == i2 by {
                if p1 == id && p2 != id {
                    assert(free0.contains(ch[i1]));
                    assert(!free0.contains(m0[p2].children@[i2]));
                } else if p2 == id && p1 != id {
                    assert(free0.contains(ch[i2]));
                    assert(!free0.contains(m0[p1].children@[i1]));
                }
            }
            assert forall|n: NodeId| m.contains_key(n) && !self.free@.contains(n) implies exists|p: NodeId| #[trigger] child_of(m, p, n) by {
                if ch.contains(n) {
                    assert(child_of(m, id, n));
                } else {
                    assert(n != id);
                    assert(m0.contains_key(n) && !free0.contains(n));
                    let p = choose|p: NodeId| #[trigger] child_of(m0, p, n);
                    assert(child_of(m, p, n));
                }
            }
        }
    }

    /// Adds a node over the free nodes `children`, with the next id.
    pub fn add(&mut self, kind: Kind, label: &str, children: Vec<NodeId>) -> (id: NodeId)
        requires
            old(self).wf(),
            old(self).next_id() < u32::MAX,
            children@.no_duplicates(),
            forall|i: int| 0 <= i < children@.len() ==> old(self).free().contains(#[trigger] children@[i]),
            kind == Kind::Token ==> children@.len() == 0,
        ensures
            id == old(self).next_id(),
            final(self).wf(),
            final(self).typed() == old(self).typed(),
            final(self).next_id() == old(self).next_id() + 1,
            final(self).nodes() == old(self).nodes().insert(id, Node {
                kind: recorded_kind(old(self).typed(), kind, children@.len()),
                label: final(self).nodes()[id].label,
                children: children,
            }),
            final(self).nodes()[id].label@ == label@,
            final(self).free() == old(self).free().difference(children@.to_set()).insert(id),
            old(self).dense() ==> final(self).dense(),
    {
        let id = self.next;
        proof {
            reveal(Builder::wf);
        }
        assert(!self.id2node@.contains_key(id));
        self.add_with_id(id, kind, label, children);
        proof {
            reveal(Builder::dense);
            if old(self).dense() {
                assert(self.nodes().dom() =~= Set::new(|n: NodeId| n < self.next_id()));
            }
        }
        id
    }

    /// A token leaf.
    pub fn tok(&mut self, s: &str) -> (id: NodeId)
        requires
            old(self).wf(),
            old(self).next_id() < u32::MAX,
        ensures
            id == old(self).next_id(),
            final(self).wf(),
            final(self).typed() == old(self).typed(),
            final(self).next_id() == old(self).next_id() + 1,
            final(self).nodes().contains_key(id),
            final(self).nodes()[id].kind == Kind::Token,
            final(self).nodes()[id].label@ == s@,
            final(self).nodes()[id].children@.len() == 0,
            token_at(final(self).nodes(), id, s@),
            final(self).free() == old(self).free().insert(id),
            final(self).nodes() == old(self).nodes().insert(id, final(self).nodes()[id]),
            old(self).dense() ==> final(self).dense(),
    {
        let id = self.add(Kind::Token, s, Vec::new());
        assert(Seq::<NodeId>::empty().to_set() =~= Set::<NodeId>::empty());
        assert(self.nodes()[id].children@ =~= Seq::<NodeId>::empty());
        reveal(node_at);
        assert(self.free@ =~= old(self).free@.insert(id));
        id
    }
}


/// The `u32`s below `k` number `k`.
proof fn lemma_below_len(k: u32)
    ensures
        Set::new(|n: u32| n < k).finite(),
        Set::new(|n: u32| n < k).len() == k,
    decreases k,
{
    if k == 0 {
        assert(Set::new(|n: u32| n < k) =~= Set::<u32>::empty());
    } else {
        lemma_below_len((k - 1) as u32);
        assert(Set::new(|n: u32| n < k) =~= Set::new(|n: u32| n < (k - 1) as u32).insert((k - 1) as u32));
    }
}

impl Builder {
    /// A builder whose only free node is `root` holds a tree rooted there.
    proof fn lemma_is_tree(&self, root: NodeId)
        requires
            self.wf(),
            self.free() == set![root],
        ensures
            is_tree(root, self.nodes()),
            self.nodes().dom().len() <= u32::MAX,
    {
        reveal(Builder::wf);
        let m = self.id2node@;
        assert(self.free@.contains(root));
        let rank = |n: NodeId| self.order@[n];
        assert(ranked(m, rank));
        assert forall|p: NodeId, i: int| m.contains_key(p) && 0 <= i < m[p].children@.len() implies {
            &&& m.contains_key(#[trigger] m[p].children@[i])
            &&& m[p].children@[i] != root
        } by {
            assert(!self.free@.contains(m[p].children@[i]));
        }
        lemma_below_len(self.next);
        assert(m.dom().subset_of(Set::new(|n: u32| n < self.next)));
        vstd::set_lib::lemma_len_subset(m.dom(), Set::new(|n: u32| n < self.next));
    }

    /// The tree rooted at `root`, the one node no other node holds.
    pub fn build(self, root: NodeId) -> (t: Tree)
        requires
            self.wf(),
            self.free() == set![root],
        ensures
            t.wf(),
            t.nodes() == self.nodes(),
            t.root_id() == root,
    {
        proof {
            self.lemma_is_tree(root);
        }
        Tree::new(root, self.id2node)
    }

    /// `name ( ) ;` -- an expression statement.
    pub fn call(&mut self, name: &str) -> (id: NodeId)
        requires
            old(self).wf(),
            old(self).next_id() + 5 <= u32::MAX,
        ensures
            id == old(self).next_id() + 4,
            final(self).wf(),
            final(self).typed() == old(self).typed(),
            final(self).next_id() == old(self).next_id() + 5,
            final(self).free() == old(self).free().insert(id),
            grows(old(self).nodes(), final(self).nodes()),
            call_at(final(self).nodes(), old(self).typed(), id, name@),
            old(self).dense() ==> final(self).dense(),
    {
        proof {
            reveal(Builder::wf);
        }
        let n = self.tok(name);
        let ghost m1 = self.nodes();
        let lp = self.tok("(");
        let ghost m2 = self.nodes();
        let rp = self.tok(")");
        let ghost m3 = self.nodes();
        let sc = self.tok(";");
        let ghost m4 = self.nodes();
        proof {
            reveal(node_at);
            assert(token_at(m1, n, name@));
            assert(m2 == m1.insert(lp, m2[lp]));
            assert(m3 == m2.insert(rp, m3[rp]));
            assert(m4 == m3.insert(sc, m4[sc]));
            assert(token_at(m2, lp, "("@));
            assert(token_at(m3, rp, ")"@));
        }
        let id = self.add(Kind::Call, "", vec![n, lp, rp, sc]);
        proof {
            assert(seq![n, lp, rp, sc].to_set() =~= set![n, lp, rp, sc]);
            assert(self.free@ =~= old(self).free@.insert(id));
            let m = self.nodes();
            assert(m == m4.insert(id, m[id]));
            assert(token_at(m, n, name@));
            assert(token_at(m, lp, "("@));
            assert(token_at(m, rp, ")"@));
            assert(token_at(m, sc, ";"@));
            assert(m[id].children@ == seq![n, lp, rp, sc]);
            reveal(grows);
        }
        id
    }

    /// A Kleene list of statements.
    pub fn list(&mut self, elems: Vec<NodeId>) -> (id: NodeId)
        requires
            old(self).wf(),
            old(self).next_id() < u32::MAX,
            elems@.no_duplicates(),
            forall|i: int| 0 <= i < elems@.len() ==> old(self).free().contains(#[trigger] elems@[i]),
        ensures
            id == old(self).next_id(),
            final(self).wf(),
            final(self).typed() == old(self).typed(),
            final(self).next_id() == old(self).next_id() + 1,
            final(self).free() == old(self).free().difference(elems@.to_set()).insert(id),
            grows(old(self).nodes(), final(self).nodes()),
            list_at(final(self).nodes(), old(self).typed(), id, elems@),
            old(self).dense() ==> final(self).dense(),
    {
        proof {
            reveal(Builder::wf);
        }
        let id = self.add(Kind::List, "", elems);
        proof {
            reveal(node_at);
            reveal(grows);
        }
        id
    }

    /// `{ stmts }`
    pub fn block(&mut self, list: NodeId) -> (id: NodeId)
        requires
            old(self).wf(),
            old(self).next_id() + 3 <= u32::MAX,
            old(self).free().contains(list),
        ensures
            id == old(self).next_id() + 2,
            final(self).wf(),
            final(self).typed() == old(self).typed(),
            final(self).next_id() == old(self).next_id() + 3,
            final(self).free() == old(self).free().remove(list).insert(id),
            grows(old(self).nodes(), final(self).nodes()),
            block_at(final(self).nodes(), old(self).typed(), id, list),
            old(self).dense() ==> final(self).dense(),
    {
        proof {
            reveal(Builder::wf);
        }
        let lb = self.tok("{");
        let ghost m1 = self.nodes();
        let rb = self.tok("}");
        let ghost m2 = self.nodes();
        proof {
            reveal(node_at);
            assert(token_at(m1, lb, "{"@));
            assert(m2 == m1.insert(rb, m2[rb]));
        }
        let id = self.add(Kind::Block, "", vec![lb, list, rb]);
        proof {
            reveal(node_at);
            let m = self.nodes();
            assert(m == m2.insert(id, m[id]));
            assert(token_at(m, lb, "{"@));
            assert(token_at(m, rb, "}"@));
            assert(m[id].children@ == seq![lb, list, rb]);
            reveal(grows);
            assert(seq![lb, list, rb].to_set() =~= set![lb, list, rb]);
            assert(self.free@ =~= old(self).free@.remove(list).insert(id));
        }
        id
    }

    /// `if ( cond ) body`
    pub fn if_stmt(&mut self, cond_name: &str, body: NodeId) -> (id: NodeId)
        requires
            old(self).wf(),
            old(self).next_id() + 6 <= u32::MAX,
            old(self).free().contains(body),
        ensures
            id == old(self).next_id() + 5,
            final(self).wf(),
            final(self).typed() == old(self).typed(),
            final(self).next_id() == old(self).next_id() + 6,
            final(self).free() == old(self).free().remove(body).insert(id),
            grows(old(self).nodes(), final(self).nodes()),
            if_at(final(self).nodes(), old(self).typed(), id, cond_name@, body),
            old(self).dense() ==> final(self).dense(),
    {
        proof {
            reveal(Builder::wf);
        }
        let kw = self.tok("if");
        let ghost m0 = self.nodes();
        let lp = self.tok("(");
        let ghost m1 = self.nodes();
        let c = self.tok(cond_name);
        let ghost m2 = self.nodes();
        proof {
            reveal(node_at);
            assert(token_at(m0, kw, "if"@));
            assert(m1 == m0.insert(lp, m1[lp]));
            assert(m2 == m1.insert(c, m2[c]));
            assert(token_at(m1, lp, "("@));
            assert(token_at(m2, c, cond_name@));
        }
        let v = vec![c];
        proof {
            assert(v@.to_set() =~= set![c]) by {
                assert(v@[0] == c);
            }
        }
        let ghost m3 = self.nodes();
        let ghost vv = v@;
        let cond = self.add(Kind::Expr, "", v);
        let ghost m4 = self.nodes();
        proof {
            reveal(node_at);
            assert(vv =~= seq![c]);
            assert(node_at(m4, cond, recorded_kind(old(self).typed(), Kind::Expr, 1), ""@, seq![c]));
        }
        let rp = self.tok(")");
        let ghost m5 = self.nodes();
        let id = self.add(Kind::IfStmt, "", vec![kw, lp, cond, rp, body]);
        proof {
            reveal(node_at);
            let m = self.nodes();
            assert(m == m5.insert(id, m[id]));
            assert(m5 == m4.insert(rp, m5[rp]));
            assert(m4 == m3.insert(cond, m4[cond]));
            assert(token_at(m, kw, "if"@));
            assert(token_at(m, lp, "("@));
            assert(token_at(m, c, cond_name@));
            assert(node_at(m, cond, recorded_kind(old(self).typed(), Kind::Expr, 1), ""@, seq![c]));
            assert(token_at(m, rp, ")"@));
            assert(m[id].children@ == seq![kw, lp, cond, rp, body]);
            reveal(grows);
            assert(seq![kw, lp, cond, rp, body].to_set() =~= set![kw, lp, cond, rp, body]);
            assert(self.free@ =~= old(self).free@.remove(body).insert(id));
        }
        id
    }

    /// `int main ( ) body`
    pub fn func(&mut self, body: NodeId) -> (id: NodeId)
        requires
            old(self).wf(),
            old(self).next_id() + 5 <= u32::MAX,
            old(self).free().contains(body),
        ensures
            id == old(self).next_id() + 4,
            final(self).wf(),
            final(self).typed() == old(self).typed(),
            final(self).next_id() == old(self).next_id() + 5,
            final(self).free() == old(self).free().remove(body).insert(id),
            grows(old(self).nodes(), final(self).nodes()),
            func_at(final(self).nodes(), old(self).typed(), id, body),
            old(self).dense() ==> final(self).dense(),
    {
        proof {
            reveal(Builder::wf);
        }
        let t = self.tok("int");
        let ghost m0 = self.nodes();
        let m = self.tok("main");
        let ghost m1 = self.nodes();
        let lp = self.tok("(");
        let ghost m2 = self.nodes();
        let rp = self.tok(")");
        let ghost m4 = self.nodes();
        proof {
            reveal(node_at);
            assert(token_at(m0, t, "int"@));
            assert(m1 == m0.insert(m, m1[m]));
            assert(m2 == m1.insert(lp, m2[lp]));
            assert(m4 == m2.insert(rp, m4[rp]));
            assert(token_at(m1, m, "main"@));
            assert(token_at(m2, lp, "("@));
        }
        let id = self.add(Kind::Func, "", vec![t, m, lp, rp, body]);
        proof {
            reveal(node_at);
            let mm = self.nodes();
            assert(mm == m4.insert(id, mm[id]));
            assert(token_at(mm, t, "int"@));
            assert(token_at(mm, m, "main"@));
            assert(token_at(mm, lp, "("@));
            assert(token_at(mm, rp, ")"@));
            assert(mm[id].children@ == seq![t, m, lp, rp, body]);
            reveal(grows);
            assert(seq![t, m, lp, rp, body].to_set() =~= set![t, m, lp, rp, body]);
            assert(self.free@ =~= old(self).free@.remove(body).insert(id));
        }
        id
    }
}

/// The nested-`if` program of the Perses demo,
/// `int main ( ) { if ( c1 ) { if ( c2 ) { if ( c3 ) { crash ( ) ; noise ( ) ; } noise ( ) ; } noise ( ) ; } noise ( ) ; noise ( ) ; }`,
/// node by node; `typed` tells whether interior nodes keep their grammar kinds.
pub open spec fn nested_if_shape(m: Map<NodeId, Node>, typed: bool) -> bool {
    &&& m.dom() == Set::new(|n: NodeId| n < 69)
    &&& call_at(m, typed, 4, "crash"@)
    &&& call_at(m, typed, 9, "noise"@)
    &&& list_at(m, typed, 10, seq![4, 9])
    &&& block_at(m, typed, 13, 10)
    &&& if_at(m, typed, 19, "c3"@, 13)
    &&& call_at(m, typed, 24, "noise"@)
    &&& list_at(m, typed, 25, seq![19, 24])
    &&& block_at(m, typed, 28, 25)
    &&& if_at(m, typed, 34, "c2"@, 28)
    &&& call_at(m, typed, 39, "noise"@)
    &&& list_at(m, typed, 40, seq![34, 39])
    &&& block_at(m, typed, 43, 40)
    &&& if_at(m, typed, 49, "c1"@, 43)
    &&& call_at(m, typed, 54, "noise"@)
    &&& call_at(m, typed, 59, "noise"@)
    &&& list_at(m, typed, 60, seq![49, 54, 59])
    &&& block_at(m, typed, 63, 60)
    &&& func_at(m, typed, 68, 63)
}

/// The nested-`if` program of the Perses demo:
/// `int main ( ) { if ( c1 ) { if ( c2 ) { if ( c3 ) { crash ( ) ; noise ( ) ; } noise ( ) ; } noise ( ) ; } noise ( ) ; noise ( ) ; }`.
pub fn example_tree() -> (t: Tree)
    ensures
        t.wf(),
        t.root_id() == 68,
        nested_if_shape(t.nodes(), true),
{
    nested_if_tree(Builder::new())
}

/// The same program without a grammar: every node but the root may be deleted.
pub fn grammarless_example_tree() -> (t: Tree)
    ensures
        t.wf(),
        t.root_id() == 68,
        nested_if_shape(t.nodes(), false),
{
    nested_if_tree(Builder::untyped())
}

/// Builds the nested-`if` program with the empty builder `b`.
#[verifier::rlimit(60)]
fn nested_if_tree(b: Builder) -> (t: Tree)
    requires
        b.wf(),
        b.free() == Set::<NodeId>::empty(),
        b.next_id() == 0,
        b.dense(),
    ensures
        t.wf(),
        t.root_id() == 68,
        nested_if_shape(t.nodes(), b.typed()),
{
    let mut b = b;
    let ghost prev = b.nodes();
    let crash = b.call("crash");
    proof { lemma_lift(prev, b.nodes()); }
    let ghost prev = b.nodes();
    let n0 = b.call("noise");
    proof { lemma_lift(prev, b.nodes()); }
    proof {
        assert(b.free() =~= set![crash, n0]);
    }
    let ghost prev = b.nodes();
    let l3 = b.list(vec![crash, n0]);
    proof { lemma_lift(prev, b.nodes()); }
    let ghost prev = b.nodes();
    let blk3 = b.block(l3);
    proof { lemma_lift(prev, b.nodes()); }
    let ghost prev = b.nodes();
    let if3 = b.if_stmt("c3", blk3);
    proof { lemma_lift(prev, b.nodes()); }
    let ghost prev = b.nodes();
    let n1 = b.call("noise");
    proof { lemma_lift(prev, b.nodes()); }
    proof {
        assert(b.free() =~= set![if3, n1]);
    }
    let ghost prev = b.nodes();
    let l2 = b.list(vec![if3, n1]);
    proof { lemma_lift(prev, b.nodes()); }
    let ghost prev = b.nodes();
    let blk2 = b.block(l2);
    proof { lemma_lift(prev, b.nodes()); }
    let ghost prev = b.nodes();
    let if2 = b.if_stmt("c2", blk2);
    proof { lemma_lift(prev, b.nodes()); }
    let ghost prev = b.nodes();
    let n2 = b.call("noise");
    proof { lemma_lift(prev, b.nodes()); }
    proof {
        assert(b.free() =~= set![if2, n2]);
    }
    let ghost prev = b.nodes();
    let l1 = b.list(vec![if2, n2]);
    proof { lemma_lift(prev, b.nodes()); }
    let ghost prev = b.nodes();
    let blk1 = b.block(l1);
    proof { lemma_lift(prev, b.nodes()); }
    let ghost prev = b.nodes();
    let if1 = b.if_stmt("c1", blk1);
    proof { lemma_lift(prev, b.nodes()); }
    let ghost prev = b.nodes();
    let n3 = b.call("noise");
    proof { lemma_lift(prev, b.nodes()); }
    let ghost prev = b.nodes();
    let n4 = b.call("noise");
    proof { lemma_lift(prev, b.nodes()); }
    proof {
        assert(b.free() =~= set![if1, n3, n4]);
    }
    let ghost prev = b.nodes();
    let l0 = b.list(vec![if1, n3, n4]);
    proof { lemma_lift(prev, b.nodes()); }
    let ghost prev = b.nodes();
    let body = b.block(l0);
    proof { lemma_lift(prev, b.nodes()); }
    let ghost prev = b.nodes();
    let root = b.func(body);
    proof { lemma_lift(prev, b.nodes()); }
    proof {
        assert(b.free() =~= set![root]);
        reveal(Builder::dense);
    }
    b.build(root)
}

/// The scattered-bug program of the T-PDD demo,
/// `int main ( ) { setup ( ) ; if ( c1 ) { corrupt ( ) ; if ( c2 ) { crash ( ) ; noise ( ) ; } noise ( ) ; } noise ( ) ; }`,
/// node by node.
pub open spec fn scattered_shape(m: Map<NodeId, Node>) -> bool {
    &&& m.dom() == Set::new(|n: NodeId| n < 59)
    &&& call_at(m, true, 4, "crash"@)
    &&& call_at(m, true, 9, "noise"@)
    &&& list_at(m, true, 10, seq![4, 9])
    &&& block_at(m, true, 13, 10)
    &&& if_at(m, true, 19, "c2"@, 13)
    &&& call_at(m, true, 24, "corrupt"@)
    &&& call_at(m, true, 29, "noise"@)
    &&& list_at(m, true, 30, seq![24, 19, 29])
    &&& block_at(m, true, 33, 30)
    &&& if_at(m, true, 39, "c1"@, 33)
    &&& call_at(m, true, 44, "setup"@)
    &&& call_at(m, true, 49, "noise"@)
    &&& list_at(m, true, 50, seq![44, 39, 49])
    &&& block_at(m, true, 53, 50)
    &&& func_at(m, true, 58, 53)
}

/// The scattered-bug program of the T-PDD demo:
/// `int main ( ) { setup ( ) ; if ( c1 ) { corrupt ( ) ; if ( c2 ) { crash ( ) ; noise ( ) ; } noise ( ) ; } noise ( ) ; }`.
#[verifier::rlimit(60)]
pub fn scattered_example_tree() -> (t: Tree)
    ensures
        t.wf(),
        t.root_id() == 58,
        scattered_shape(t.nodes()),
{
    let mut b = Builder::new();
    let ghost prev = b.nodes();
    let crash = b.call("crash");
    proof { lemma_lift(prev, b.nodes()); }
    let ghost prev = b.nodes();
    let n0 = b.call("noise");
    proof { lemma_lift(prev, b.nodes()); }
    proof {
        assert(b.free() =~= set![crash, n0]);
    }
    let ghost prev = b.nodes();
    let l2 = b.list(vec![crash, n0]);
    proof { lemma_lift(prev, b.nodes()); }
    let ghost prev = b.nodes();
    let blk2 = b.block(l2);
    proof { lemma_lift(prev, b.nodes()); }
    let ghost prev = b.nodes();
    let if2 = b.if_stmt("c2", blk2);
    proof { lemma_lift(prev, b.nodes()); }
    let ghost prev = b.nodes();
    let corrupt = b.call("corrupt");
    proof { lemma_lift(prev, b.nodes()); }
    let ghost prev = b.nodes();
    let n1 = b.call("noise");
    proof { lemma_lift(prev, b.nodes()); }
    proof {
        assert(b.free() =~= set![corrupt, if2, n1]);
    }
    let ghost prev = b.nodes();
    let l1 = b.list(vec![corrupt, if2, n1]);
    proof { lemma_lift(prev, b.nodes()); }
    let ghost prev = b.nodes();
    let blk1 = b.block(l1);
    proof { lemma_lift(prev, b.nodes()); }
    let ghost prev = b.nodes();
    let if1 = b.if_stmt("c1", blk1);
    proof { lemma_lift(prev, b.nodes()); }
    let ghost prev = b.nodes();
    let setup = b.call("setup");
    proof { lemma_lift(prev, b.nodes()); }
    let ghost prev = b.nodes();
    let n2 = b.call("noise");
    proof { lemma_lift(prev, b.nodes()); }
    proof {
        assert(b.free() =~= set![setup, if1, n2]);
    }
    let ghost prev = b.nodes();
    let l0 = b.list(vec![setup, if1, n2]);
    proof { lemma_lift(prev, b.nodes()); }
    let ghost prev = b.nodes();
    let body = b.block(l0);
    proof { lemma_lift(prev, b.nodes()); }
    let ghost prev = b.nodes();
    let root = b.func(body);
    proof { lemma_lift(prev, b.nodes()); }
    proof {
        assert(b.free() =~= set![root]);
        reveal(Builder::dense);
    }
    b.build(root)
}

/// Adds leaf `id` labelled `label`.
fn leaf(b: &mut Builder, id: NodeId, label: &str)
    requires
        old(b).wf(),
        !old(b).nodes().contains_key(id),
        id < u32::MAX,
    ensures
        final(b).wf(),
        final(b).typed() == old(b).typed(),
        final(b).nodes().dom() == old(b).nodes().dom().insert(id),
        final(b).free() == old(b).free().insert(id),
        grows(old(b).nodes(), final(b).nodes()),
        token_at(final(b).nodes(), id, label@),
{
    b.add_with_id(id, Kind::Token, label, Vec::new());
    proof {
        reveal(node_at);
        reveal(grows);
        assert(Seq::<NodeId>::empty().to_set() =~= Set::<NodeId>::empty());
        assert(b.nodes()[id].children@ =~= Seq::<NodeId>::empty());
        assert(b.free() =~= old(b).free().insert(id));
    }
}

/// Adds node `id` labelled `label` over the free nodes `children`.
fn group(b: &mut Builder, id: NodeId, label: &str, children: Vec<NodeId>)
    requires
        old(b).wf(),
        !old(b).nodes().contains_key(id),
        id < u32::MAX,
        children@.no_duplicates(),
        forall|i: int| 0 <= i < children@.len() ==> old(b).free().contains(#[trigger] children@[i]),
    ensures
        final(b).wf(),
        final(b).typed() == old(b).typed(),
        final(b).nodes().dom() == old(b).nodes().dom().insert(id),
        final(b).free() == old(b).free().difference(children@.to_set()).insert(id),
        grows(old(b).nodes(), final(b).nodes()),
        node_at(final(b).nodes(), id, Kind::Group, label@, children@),
{
    b.add_with_id(id, Kind::Group, label, children);
    proof {
        reveal(node_at);
        reveal(grows);
    }
}

/// The HDD demo's program, node by node.
pub open spec fn program_shape(m: Map<NodeId, Node>) -> bool {
    &&& m.dom() == Set::new(|n: NodeId| n < 22)
    &&& node_at(m, 0, Kind::Group, "program"@, seq![1, 2, 3, 4, 5, 6])
    &&& node_at(m, 1, Kind::Group, "fn bar"@, seq![7, 8, 9])
    &&& token_at(m, 7, "stmt b1"@)
    &&& node_at(m, 8, Kind::Group, "if guard"@, seq![20, 21])
    &&& token_at(m, 20, "stmt g"@)
    &&& token_at(m, 21, "crash()"@)
    &&& token_at(m, 9, "stmt b2"@)
    &&& node_at(m, 2, Kind::Group, "fn f2"@, seq![10, 11])
    &&& node_at(m, 3, Kind::Group, "fn f3"@, seq![12, 13])
    &&& node_at(m, 4, Kind::Group, "fn f4"@, seq![14, 15])
    &&& node_at(m, 5, Kind::Group, "fn f5"@, seq![16, 17])
    &&& node_at(m, 6, Kind::Group, "fn f6"@, seq![18, 19])
    &&& forall|n: NodeId| 10 <= n < 20 ==> token_at(m, n, "stmt"@)
}

/// The program of the HDD demo, a wide tree with the bug in `fn bar`:
/// `program { fn bar { stmt b1; if guard { stmt g; crash() }; stmt b2 }; fn f2 { stmt; stmt }; ...; fn f6 { stmt; stmt } }`.
#[verifier::rlimit(60)]
pub fn program_example_tree() -> (t: Tree)
    ensures
        t.wf(),
        t.root_id() == 0,
        program_shape(t.nodes()),
{
    let mut b = Builder::untyped();
    // fn bar -- holds the bug
    let ghost prev = b.nodes();
    leaf(&mut b, 7, "stmt b1");
    proof { lemma_lift(prev, b.nodes()); }
    let ghost prev = b.nodes();
    leaf(&mut b, 20, "stmt g");
    proof { lemma_lift(prev, b.nodes()); }
    let ghost prev = b.nodes();
    leaf(&mut b, 21, "crash()");
    proof { lemma_lift(prev, b.nodes()); }
    proof {
        assert(b.free() =~= set![7u32, 20u32, 21u32]);
    }
    let ghost prev = b.nodes();
    group(&mut b, 8, "if guard", vec![20, 21]);
    proof { lemma_lift(prev, b.nodes()); }
    let ghost prev = b.nodes();
    leaf(&mut b, 9, "stmt b2");
    proof { lemma_lift(prev, b.nodes()); }
    proof {
        assert(b.free() =~= set![7u32, 8u32, 9u32]);
    }
    let ghost prev = b.nodes();
    group(&mut b, 1, "fn bar", vec![7, 8, 9]);
    proof { lemma_lift(prev, b.nodes()); }
    // fn f2..f6 -- irrelevant noise, each a small subtree
    let ghost prev = b.nodes();
    leaf(&mut b, 10, "stmt");
    proof { lemma_lift(prev, b.nodes()); }
    let ghost prev = b.nodes();
    leaf(&mut b, 11, "stmt");
    proof { lemma_lift(prev, b.nodes()); }
    proof {
        assert(b.free() =~= set![1u32, 10u32, 11u32]);
    }
    let ghost prev = b.nodes();
    group(&mut b, 2, "fn f2", vec![10, 11]);
    proof { lemma_lift(prev, b.nodes()); }
    let ghost prev = b.nodes();
    leaf(&mut b, 12, "stmt");
    proof { lemma_lift(prev, b.nodes()); }
    let ghost prev = b.nodes();
    leaf(&mut b, 13, "stmt");
    proof { lemma_lift(prev, b.nodes()); }
    proof {
        assert(b.free() =~= set![1u32, 2u32, 12u32, 13u32]);
    }
    let ghost prev = b.nodes();
    group(&mut b, 3, "fn f3", vec![12, 13]);
    proof { lemma_lift(prev, b.nodes()); }
    let ghost prev = b.nodes();
    leaf(&mut b, 14, "stmt");
    proof { lemma_lift(prev, b.nodes()); }
    let ghost prev = b.nodes();
    leaf(&mut b, 15, "stmt");
    proof { lemma_lift(prev, b.nodes()); }
    proof {
        assert(b.free() =~= set![1u32, 2u32, 3u32, 14u32, 15u32]);
    }
    let ghost prev = b.nodes();
    group(&mut b, 4, "fn f4", vec![14, 15]);
    proof { lemma_lift(prev, b.nodes()); }
    let ghost prev = b.nodes();
    leaf(&mut b, 16, "stmt");
    proof { lemma_lift(prev, b.nodes()); }
    let ghost prev = b.nodes();
    leaf(&mut b, 17, "stmt");
    proof { lemma_lift(prev, b.nodes()); }
    proof {
        assert(b.free() =~= set![1u32, 2u32, 3u32, 4u32, 16u32, 17u32]);
    }
    let ghost prev = b.nodes();
    group(&mut b, 5, "fn f5", vec![16, 17]);
    proof { lemma_lift(prev, b.nodes()); }
    let ghost prev = b.nodes();
    leaf(&mut b, 18, "stmt");
    proof { lemma_lift(prev, b.nodes()); }
    let ghost prev = b.nodes();
    leaf(&mut b, 19, "stmt");
    proof { lemma_lift(prev, b.nodes()); }
    proof {
        assert(b.free() =~= set![1u32, 2u32, 3u32, 4u32, 5u32, 18u32, 19u32]);
    }
    let ghost prev = b.nodes();
    group(&mut b, 6, "fn f6", vec![18, 19]);
    proof { lemma_lift(prev, b.nodes()); }
    proof {
        assert(b.free() =~= set![1u32, 2u32, 3u32, 4u32, 5u32, 6u32]);
    }
    let ghost prev = b.nodes();
    group(&mut b, 0, "program", vec![1, 2, 3, 4, 5, 6]);
    proof { lemma_lift(prev, b.nodes()); }
    proof {
        assert(b.nodes().dom() =~= Set::new(|n: NodeId| n < 22));
    }
    proof {
        assert(b.free() =~= set![0u32]);
    }
    b.build(0)
}

/// The WDD demo's program, node by node.
pub open spec fn weighted_shape(m: Map<NodeId, Node>) -> bool {
    &&& m.dom() == set![0u32, 1, 2, 3, 4, 5, 6, 7, 8, 9, 11, 20, 21, 22, 23, 30, 31, 32, 40]
    &&& node_at(m, 0, Kind::Group, "program"@, seq![1, 2, 3, 4, 5, 6, 7])
    &&& node_at(m, 1, Kind::Group, "fn big"@, seq![8, 20, 21, 22, 23])
    &&& node_at(m, 8, Kind::Group, "block"@, seq![9, 30, 31, 32])
    &&& node_at(m, 9, Kind::Group, "if"@, seq![40, 11])
    &&& token_at(m, 40, "guard"@)
    &&& token_at(m, 11, "crash()"@)
    &&& token_at(m, 2, "fn n2"@)
    &&& token_at(m, 3, "fn n3"@)
    &&& token_at(m, 4, "fn n4"@)
    &&& token_at(m, 5, "fn n5"@)
    &&& token_at(m, 6, "fn n6"@)
    &&& token_at(m, 7, "fn n7"@)
    &&& forall|n: NodeId| (20 <= n < 24 || 30 <= n < 33) ==> token_at(m, n, "stmt"@)
}

/// The program of the WDD demo, with very uneven subtree sizes: `fn big`
/// holds the bug and is large; the other functions are one-token noise.
#[verifier::rlimit(60)]
pub fn weighted_example_tree() -> (t: Tree)
    ensures
        t.wf(),
        t.root_id() == 0,
        weighted_shape(t.nodes()),
{
    let mut b = Builder::untyped();
    // fn big -- the heavy subtree that holds the bug
    let ghost prev = b.nodes();
    leaf(&mut b, 40, "guard");
    proof { lemma_lift(prev, b.nodes()); }
    let ghost prev = b.nodes();
    leaf(&mut b, 11, "crash()");
    proof { lemma_lift(prev, b.nodes()); }
    proof {
        assert(b.free() =~= set![40u32, 11u32]);
    }
    let ghost prev = b.nodes();
    group(&mut b, 9, "if", vec![40, 11]);
    proof { lemma_lift(prev, b.nodes()); }
    let ghost prev = b.nodes();
    leaf(&mut b, 30, "stmt");
    proof { lemma_lift(prev, b.nodes()); }
    let ghost prev = b.nodes();
    leaf(&mut b, 31, "stmt");
    proof { lemma_lift(prev, b.nodes()); }
    let ghost prev = b.nodes();
    leaf(&mut b, 32, "stmt");
    proof { lemma_lift(prev, b.nodes()); }
    proof {
        assert(b.free() =~= set![9u32, 30u32, 31u32, 32u32]);
    }
    let ghost prev = b.nodes();
    group(&mut b, 8, "block", vec![9, 30, 31, 32]);
    proof { lemma_lift(prev, b.nodes()); }
    let ghost prev = b.nodes();
    leaf(&mut b, 20, "stmt");
    proof { lemma_lift(prev, b.nodes()); }
    let ghost prev = b.nodes();
    leaf(&mut b, 21, "stmt");
    proof { lemma_lift(prev, b.nodes()); }
    let ghost prev = b.nodes();
    leaf(&mut b, 22, "stmt");
    proof { lemma_lift(prev, b.nodes()); }
    let ghost prev = b.nodes();
    leaf(&mut b, 23, "stmt");
    proof { lemma_lift(prev, b.nodes()); }
    proof {
        assert(b.free() =~= set![8u32, 20u32, 21u32, 22u32, 23u32]);
    }
    let ghost prev = b.nodes();
    group(&mut b, 1, "fn big", vec![8, 20, 21, 22, 23]);
    proof { lemma_lift(prev, b.nodes()); }
    // fn n2..n7 -- six tiny noise functions, one leaf each
    let ghost prev = b.nodes();
    leaf(&mut b, 2, "fn n2");
    proof { lemma_lift(prev, b.nodes()); }
    let ghost prev = b.nodes();
    leaf(&mut b, 3, "fn n3");
    proof { lemma_lift(prev, b.nodes()); }
    let ghost prev = b.nodes();
    leaf(&mut b, 4, "fn n4");
    proof { lemma_lift(prev, b.nodes()); }
    let ghost prev = b.nodes();
    leaf(&mut b, 5, "fn n5");
    proof { lemma_lift(prev, b.nodes()); }
    let ghost prev = b.nodes();
    leaf(&mut b, 6, "fn n6");
    proof { lemma_lift(prev, b.nodes()); }
    let ghost prev = b.nodes();
    leaf(&mut b, 7, "fn n7");
    proof { lemma_lift(prev, b.nodes()); }
    proof {
        assert(b.free() =~= set![1u32, 2u32, 3u32, 4u32, 5u32, 6u32, 7u32]);
    }
    let ghost prev = b.nodes();
    group(&mut b, 0, "program", vec![1, 2, 3, 4, 5, 6, 7]);
    proof { lemma_lift(prev, b.nodes()); }
    proof {
        assert(b.nodes().dom() =~= set![0u32, 1, 2, 3, 4, 5, 6, 7, 8, 9, 11, 20, 21, 22, 23, 30, 31, 32, 40]);
    }
    proof {
        assert(b.free() =~= set![0u32]);
    }
    b.build(0)
}

} // verus!
