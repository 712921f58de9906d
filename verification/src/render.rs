//! Turning a configuration back into program text.
use vstd::prelude::*;
use vstd::string::StringExecFns;
use crate::config::Configuration;
use crate::shape::{NodeId, fuel_of, lemma_depth, lemma_depth_child, child_of};
use crate::tree::{Tree, joined};
use crate::text::{is_word, lemma_words_joined, words};

verus! {

/// The surviving tokens of `present` in source order, separated by spaces.
pub open spec fn flat_text(tree: &Tree, present: Seq<u32>) -> Seq<char> {
    joined(present.map_values(|u: u32| tree.token_text(u)), seq![' '])
}

/// Law: rendering keeps each surviving token as one word. Where every
/// label is a single word, the rendered text splits back into exactly the
/// kept tokens' labels in source order -- as many words as tokens -- and
/// nothing kept renders as the empty text.
pub proof fn lemma_render_words(tree: &Tree, present: Seq<u32>)
    requires
        forall|i: int| 0 <= i < present.len() ==> is_word(tree.token_text(#[trigger] present[i])),
    ensures
        words(flat_text(tree, present)) == present.map_values(|u: u32| tree.token_text(u)),
        words(flat_text(tree, present)).len() == present.len(),
        present.len() == 0 ==> flat_text(tree, present) == Seq::<char>::empty(),
{
    let ws = present.map_values(|u: u32| tree.token_text(u));
    assert forall|i: int| 0 <= i < ws.len() implies is_word(#[trigger] ws[i]) by {
        assert(ws[i] == tree.token_text(present[i]));
    }
    lemma_words_joined(ws);
}

/// Render a configuration by concatenating the surviving tokens in source
/// order -- for a parse tree, that *is* the program. Because a unit is its
/// token's source-order index, "in source order" is just ascending units.
pub fn render(tree: &Tree, present: &Configuration) -> (s: String)
    requires
        tree.wf(),
        present.wf(),
        tree.covers(present@),
    ensures
        s@ == flat_text(tree, present.elems()),
{
    let ghost elems = present.elems();
    let ghost text = |u: u32| tree.token_text(u);
    let mut out = String::new();
    let n = present.len();
    let mut i: usize = 0;
    proof {
        reveal_strlit(" ");
        assert(elems.take(0).map_values(text) =~= Seq::<Seq<char>>::empty());
    }
    while i < n
        invariant
            tree.wf(),
            present.wf(),
            tree.covers(present@),
            elems == present.elems(),
            n == elems.len(),
            i <= n,
            text == (|u: u32| tree.token_text(u)),
            out@ == joined(elems.take(i as int).map_values(text), seq![' ']),
        decreases n - i,
    {
        let u = present.get(i);
        proof {
            assert(present@.contains(elems[i as int]));
        }
        let leaf = tree.leaf_of_token(u);
        let label = tree.node_label(leaf);
        let ghost before = out@;
        if i > 0 {
            out.append(" ");
        }
        out.append(label.as_str());
        proof {
            reveal_strlit(" ");
            let ws = elems.take(i as int + 1).map_values(text);
            assert(ws.drop_last() =~= elems.take(i as int).map_values(text));
            assert(ws.last() == tree.token_text(u));
            if i == 0 {
                assert(ws.len() == 1);
                assert(out@ =~= joined(ws, seq![' ']));
            } else {
                assert(out@ =~= joined(ws, seq![' ']));
            }
        }
        i = i + 1;
    }
    proof {
        assert(elems.take(i as int) =~= elems);
    }
    out
}

/// Render a configuration back into nested source-ish text: a node is shown
/// iff some present token lies under it.
pub fn render_nested(tree: &Tree, present: &Configuration) -> (s: String)
    requires
        tree.wf(),
        present.wf(),
    ensures
        s@ == if tree.holds_token(tree.root_id(), present@) {
            tree.nested(tree.root_id(), present@, fuel_of(tree.nodes(), tree.root_id(), tree.root_id()))
        } else {
            seq![]
        },
{
    let root = tree.root();
    proof {
        tree.lemma_wf();
        crate::shape::lemma_below_root(root, tree.nodes(), root);
    }
    if !tree.present(root, present) {
        return String::new();
    }
    let mut out = String::new();
    write_nested(tree, root, present, &mut out);
    out
}

/// Appends the nested text of node `id` to `out`.
fn write_nested(tree: &Tree, id: NodeId, present: &Configuration, out: &mut String)
    requires
        tree.wf(),
        tree.nodes().contains_key(id),
        present.wf(),
    ensures
        final(out)@ == old(out)@ + tree.nested(id, present@, fuel_of(tree.nodes(), tree.root_id(), id)),
    decreases fuel_of(tree.nodes(), tree.root_id(), id),
{
    let ghost m = tree.nodes();
    let ghost root = tree.root_id();
    let ghost f = fuel_of(m, root, id);
    proof {
        tree.lemma_wf();
        lemma_depth(root, m, id);
        reveal_strlit(" { ");
        reveal_strlit("; ");
        reveal_strlit(" }");
    }
    let ghost base = out@;
    let label = tree.node_label(id);
    out.append(label.as_str());
    let children = tree.node_children(id);
    let mut first = true;
    let ghost mut written: Seq<char> = seq![];
    let mut i: usize = 0;
    while i < children.len()
        invariant
            tree.wf(),
            m == tree.nodes(),
            root == tree.root_id(),
            crate::shape::is_tree(root, m),
            m.contains_key(id),
            present.wf(),
            f == fuel_of(m, root, id),
            f >= 1,
            children@ == m[id].children@,
            i <= children@.len(),
            first ==> written == Seq::<char>::empty(),
            first <==> forall|j: int| 0 <= j < i ==> !tree.holds_token(#[trigger] children@[j], present@),
            written + tree.nested_kids(id, i as nat, present@, (f - 1) as nat, first)
                == tree.nested_kids(id, 0, present@, (f - 1) as nat, true),
            out@ == base + m[id].label@ + if first { Seq::<char>::empty() } else { seq![' ', '{', ' '] + written },
        decreases children.len() - i,
    {
        let c = children[i];
        proof {
            assert(child_of(m, id, c));
            assert(m.contains_key(m[id].children@[i as int]));
            lemma_depth_child(root, m, id, c);
            lemma_depth(root, m, c);
        }
        if tree.present(c, present) {
            if first {
                out.append(" { ");
            } else {
                out.append("; ");
            }
            let ghost sep: Seq<char> = if first { seq![] } else { seq![';', ' '] };
            let ghost mid = out@;
            write_nested(tree, c, present, out);
            proof {
                reveal_strlit(" { ");
                reveal_strlit("; ");
                tree.lemma_nested_kids_unfold(id, i as nat, present@, (f - 1) as nat, first);
                assert(" { "@ =~= seq![' ', '{', ' ']);
                assert("; "@ =~= seq![';', ' ']);
                written = written + sep + tree.nested(c, present@, (f - 1) as nat);
                assert(out@ =~= base + m[id].label@ + (seq![' ', '{', ' '] + written));
            }
            first = false;
        } else {
            proof {
                tree.lemma_nested_kids_unfold(id, i as nat, present@, (f - 1) as nat, first);
            }
        }
        i = i + 1;
    }
    if !first {
        out.append(" }");
    }
    proof {
        let p = |c: crate::shape::NodeId| tree.holds_token(c, present@);
        let kids = m[id].children@;
        tree.lemma_nested_kids_unfold(id, i as nat, present@, (f - 1) as nat, first);
        tree.lemma_nested_unfold(id, present@, f);
        reveal_strlit(" }");
        assert(" }"@ =~= seq![' ', '}']);
        assert(tree.nested_kids(id, i as nat, present@, (f - 1) as nat, first) == Seq::<char>::empty());
        if first {
            assert forall|j: int| 0 <= j < kids.len() implies !p(kids[j]) by {
                assert(!tree.holds_token(children@[j], present@));
            }
            assert(kids.all(|c: crate::shape::NodeId| !p(c)));
            kids.lemma_all_neg_filter_empty(p);
            assert(out@ =~= base + tree.nested(id, present@, f));
        } else {
            let j = choose|j: int| 0 <= j < i && !!#[trigger] tree.holds_token(children@[j], present@);
            kids.lemma_filter_contains(p, j);
            assert(tree.alive_kids(id, present@).len() > 0);
            assert(out@ =~= base + tree.nested(id, present@, f));
        }
    }
}

} // verus!
