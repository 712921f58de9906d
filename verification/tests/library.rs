use std::collections::HashMap;

use delta_debugging::builder::{example_tree, program_example_tree, weighted_example_tree, Builder};
use delta_debugging::config::Configuration;
use delta_debugging::ddmin::{partition, DDMin};
use delta_debugging::hdd::Hdd;
use delta_debugging::perses::Perses;
use delta_debugging::flat_grammar;
use delta_debugging::mini_c::{parses, Parser};
use delta_debugging::policy::{reduce, Verdict};
use delta_debugging::render::{render, render_nested};
use delta_debugging::shape::{is_stmt, Kind};
use delta_debugging::text::{same_text, split_words};
use delta_debugging::tree::Tree;
use delta_debugging::wdd::{weighted_partition, Wdd};

fn set_of(units: &[u32]) -> Configuration {
    let mut c = Configuration::new();
    for &u in units {
        c.insert(u);
    }
    c
}

fn chunks(ds: &[Configuration]) -> Vec<Vec<u32>> {
    ds.iter().map(|d| d.to_vec()).collect()
}

fn all_tokens(tree: &Tree) -> Configuration {
    Configuration::range(tree.token_count())
}

// ---- configurations ----

#[test]
fn configuration_is_a_sorted_set() {
    let mut c = set_of(&[5, 1, 3, 1]);
    assert_eq!(c.to_vec(), vec![1, 3, 5]);
    assert_eq!(c.len(), 3);
    assert!(c.contains(3) && !c.contains(4));
    c.insert(4);
    assert_eq!(c.to_vec(), vec![1, 3, 4, 5]);
    assert_eq!(c.difference(&set_of(&[3, 9])).to_vec(), vec![1, 4, 5]);
    assert_eq!(c.slice(1, 3).to_vec(), vec![3, 4]);
    let mut d = set_of(&[2]);
    d.union_with(&c);
    assert_eq!(d.to_vec(), vec![1, 2, 3, 4, 5]);
    assert!(Configuration::new().is_empty());
    assert_eq!(Configuration::range(4).to_vec(), vec![0, 1, 2, 3]);
}

// ---- partitions ----

#[test]
fn partition_chunks_stay_contiguous_and_even() {
    let config = set_of(&[1, 2, 3, 4, 5, 6, 7, 8]);
    assert_eq!(chunks(&partition(&config, 2)), vec![vec![1, 2, 3, 4], vec![5, 6, 7, 8]]);
    assert_eq!(chunks(&partition(&config, 3)), vec![vec![1, 2, 3], vec![4, 5, 6], vec![7, 8]]);
    assert_eq!(chunks(&partition(&config, 4)), vec![vec![1, 2], vec![3, 4], vec![5, 6], vec![7, 8]]);
    assert_eq!(chunks(&partition(&config, 8)).len(), 8);
    assert!(partition(&config, 0).is_empty());
    assert!(partition(&Configuration::new(), 3).is_empty());
}

#[test]
fn weighted_partition_balances_weight() {
    let config = set_of(&[1, 2, 3, 4]);
    let weights: HashMap<u32, u64> = HashMap::from([(1, 1), (2, 1), (3, 10), (4, 1)]);
    assert_eq!(chunks(&weighted_partition(&config, 2, &weights)), vec![vec![1, 2], vec![3, 4]]);
    // one element per chunk once n reaches the size
    assert_eq!(chunks(&weighted_partition(&config, 4, &weights)), vec![vec![1], vec![2], vec![3], vec![4]]);
    assert!(weighted_partition(&config, 0, &weights).is_empty());
    // equal weights split like a count-based partition
    let even: HashMap<u32, u64> = HashMap::from([(1, 1), (2, 1), (3, 1), (4, 1)]);
    assert_eq!(chunks(&weighted_partition(&config, 2, &even)), vec![vec![1, 2], vec![3, 4]]);
}

// ---- the reduction loop ----

#[test]
fn reduce_keeps_the_input_when_nothing_is_interesting() {
    let input = set_of(&[1, 2, 3]);
    let result = reduce(input, &|_: &Configuration| Verdict::NotInteresting, DDMin::new());
    assert_eq!(result.to_vec(), vec![1, 2, 3]);
}

#[test]
fn reduce_removes_everything_removable() {
    let calls = std::cell::Cell::new(0u32);
    let oracle = |_: &Configuration| {
        calls.set(calls.get() + 1);
        Verdict::Interesting
    };
    let result = reduce(set_of(&[5]), &oracle, DDMin::new());
    assert!(result.is_empty());
    assert_eq!(calls.get(), 1);
}

#[test]
fn ddmin_result_is_one_minimal() {
    let oracle = |c: &Configuration| {
        if c.contains(2) && c.contains(7) { Verdict::Interesting } else { Verdict::NotInteresting }
    };
    let result = reduce(set_of(&[1, 2, 3, 4, 5, 6, 7, 8]), &oracle, DDMin::new());
    for u in result.to_vec() {
        let smaller = result.difference(&set_of(&[u]));
        assert_eq!(oracle(&smaller), Verdict::NotInteresting);
    }
}

#[test]
fn hdd_result_is_one_tree_minimal() {
    let tree = example_tree();
    let all = all_tokens(&tree);
    let crash = tree.leaves_under(4, &all).to_vec();
    let oracle = |c: &Configuration| {
        if crash.iter().all(|&t| c.contains(t)) && parses(&render(&tree, c)) {
            Verdict::Interesting
        } else {
            Verdict::NotInteresting
        }
    };
    let result = reduce(all.copy(), &oracle, Hdd::new(&tree, 1, || DDMin::new()));
    assert_eq!(render(&tree, &result), "int main ( ) { if ( c1 ) { if ( c2 ) { if ( c3 ) { crash ( ) ; } } } }");
    // no live subtree of any level can go on its own
    let mut checked = 0;
    for level in 1..=tree.max_depth() {
        for n in tree.alive_level_nodes(level, &result).to_vec() {
            let smaller = result.difference(&tree.leaves_under(n, &result));
            assert_eq!(oracle(&smaller), Verdict::NotInteresting);
            checked += 1;
        }
    }
    assert!(checked > 0);
}

#[test]
fn wdd_result_is_one_minimal() {
    let oracle = |c: &Configuration| {
        if c.contains(2) && c.contains(7) { Verdict::Interesting } else { Verdict::NotInteresting }
    };
    let mut weights = HashMap::new();
    for u in 1..=8u32 {
        weights.insert(u, u as u64);
    }
    let result = reduce(set_of(&[1, 2, 3, 4, 5, 6, 7, 8]), &oracle, Wdd::new(&weights));
    assert_eq!(result.to_vec(), vec![2, 7]);
    for u in result.to_vec() {
        let smaller = result.difference(&set_of(&[u]));
        assert_eq!(oracle(&smaller), Verdict::NotInteresting);
    }
}

#[test]
fn perses_result_rejects_every_replacement() {
    let tree = example_tree();
    let all = all_tokens(&tree);
    let crash = tree.leaves_under(4, &all).to_vec();
    let oracle = |c: &Configuration| {
        if crash.iter().all(|&t| c.contains(t)) && parses(&render(&tree, c)) {
            Verdict::Interesting
        } else {
            Verdict::NotInteresting
        }
    };
    let result = reduce(all.copy(), &oracle, Perses::new(&tree, || DDMin::new()));
    assert_eq!(render(&tree, &result), "int main ( ) { crash ( ) ; }");
    let sizes = tree.subtree_sizes(&result);
    let order = tree.live_internal_largest_first(&result, &sizes);
    let probe = Perses::new(&tree, || DDMin::new());
    let reps = probe.replacements(&order, &sizes, &result);
    for r in &reps {
        assert_eq!(oracle(&result.difference(r)), Verdict::NotInteresting);
    }
}

#[test]
fn render_keeps_one_word_per_token() {
    let tree = example_tree();
    let all = all_tokens(&tree);
    for kept in [set_of(&[]), set_of(&[0, 5, 9]), all.copy()] {
        let text = render(&tree, &kept);
        assert_eq!(split_words(&text).len(), kept.len());
        assert_eq!(text.split_whitespace().count(), kept.len());
    }
    assert_eq!(render(&tree, &set_of(&[])), "");
}

// ---- the parse tree ----

#[test]
fn tree_numbers_tokens_left_to_right() {
    let tree = example_tree();
    assert_eq!(tree.token_count(), 48);
    assert_eq!(
        render(&tree, &all_tokens(&tree)),
        "int main ( ) { if ( c1 ) { if ( c2 ) { if ( c3 ) { crash ( ) ; noise ( ) ; } noise ( ) ; } noise ( ) ; } noise ( ) ; noise ( ) ; }"
    );
    assert_eq!(render(&tree, &Configuration::new()), "");
    assert_eq!(render(&tree, &set_of(&[0, 1, 2, 3])), "int main ( )");
    assert_eq!(tree.root(), 68);
    assert_eq!(tree.max_depth(), 13);
}

#[test]
fn leaves_under_maps_nodes_to_tokens() {
    let tree = example_tree();
    let all = all_tokens(&tree);
    // the root holds every token
    assert_eq!(tree.leaves_under(tree.root(), &all).to_vec(), all.to_vec());
    // the innermost `crash ( ) ;` call
    let crash_call = tree.leaves_under(4, &all).to_vec();
    assert_eq!(crash_call.len(), 4);
    let kept = all.difference(&set_of(&crash_call));
    assert!(tree.leaves_under(4, &kept).is_empty());
    assert!(!tree.present(4, &kept));
    assert!(tree.present(9, &kept));
    // a leaf holds its own token
    assert_eq!(tree.leaves_under(0, &all).len(), 1);
}

#[test]
fn levels_ancestors_and_deletability() {
    let tree = example_tree();
    let all = all_tokens(&tree);
    assert!(tree.deletable(4));
    assert!(!tree.deletable(0));
    assert!(!tree.deletable(tree.root()));
    assert!(!tree.deletable(1000));
    assert_eq!(tree.ancestor_at(0, 12), 4);
    assert_eq!(tree.ancestor_at(0, 1), 63);
    assert_eq!(tree.ancestor_at(0, 20), 0);
    assert_eq!(tree.alive_level_nodes(12, &all).to_vec(), vec![4, 9]);
    // level 0 holds only the root, which is no List element
    assert!(tree.alive_level_nodes(0, &all).is_empty());
    let crash = tree.leaves_under(4, &all);
    assert_eq!(tree.alive_level_nodes(12, &all.difference(&crash)).to_vec(), vec![9]);
}

#[test]
fn liveness_anchors_and_replacement() {
    let tree = example_tree();
    let all = all_tokens(&tree);
    assert!(tree.live(19, &all));
    assert!(tree.live(25, &all));
    // dropping the `if` keyword of the innermost `if` kills it
    let if_kw = tree.leaves_under(14, &all);
    let without_if = all.difference(&if_kw);
    assert!(!tree.live(19, &without_if));
    assert!(tree.live(13, &without_if));
    // the innermost block now fills the slot of the dead `if`
    assert_eq!(tree.anchor_of(13, &without_if), 19);
    assert_eq!(tree.anchor_of(13, &all), 13);
    assert!(tree.can_replace(19, 4, &all));
    assert!(!tree.can_replace(19, 19, &all));
    assert!(tree.can_replace(13, 28, &all));
    assert!(!tree.can_replace(13, 4, &all));
    assert!(!tree.can_replace(tree.root(), 63, &all));
    assert!(is_stmt(Kind::Call) && is_stmt(Kind::Block) && !is_stmt(Kind::List));
}

#[test]
fn descendants_elements_and_sizes() {
    let tree = example_tree();
    let all = all_tokens(&tree);
    assert_eq!(tree.descendants(19, &all), vec![14, 15, 17, 16, 18, 13, 11, 10, 4, 0, 1, 2, 3, 9, 5, 6, 7, 8, 12]);
    let crash = tree.leaves_under(4, &all);
    let kept = all.difference(&crash);
    assert_eq!(tree.descendants(10, &kept), vec![9, 5, 6, 7, 8]);
    assert_eq!(tree.elems_of(10, &all).to_vec(), vec![4, 9]);
    assert_eq!(tree.elems_of(10, &kept).to_vec(), vec![9]);
    let sizes = tree.subtree_sizes(&all);
    assert_eq!(sizes[&68], 48);
    assert_eq!(sizes[&4], 4);
    assert_eq!(sizes[&13], 10);
    let order = tree.live_internal_largest_first(&all, &sizes);
    assert_eq!(order[0], 68);
    assert_eq!(order[1], 63);
    assert!(!order.contains(&0));
    let counts = tree.leaf_counts();
    assert_eq!(counts[&68], 48);
    assert_eq!(counts[&13], 10);
    assert_eq!(counts[&0], 1);
}

#[test]
fn nested_rendering_shows_nodes_holding_tokens() {
    let tree = program_example_tree();
    let all = all_tokens(&tree);
    assert_eq!(
        render_nested(&tree, &all),
        "program { fn bar { stmt b1; if guard { stmt g; crash() }; stmt b2 }; fn f2 { stmt; stmt }; fn f3 { stmt; stmt }; fn f4 { stmt; stmt }; fn f5 { stmt; stmt }; fn f6 { stmt; stmt } }"
    );
    assert_eq!(render_nested(&tree, &Configuration::new()), "");
    let tree = weighted_example_tree();
    assert_eq!(tree.token_count(), 15);
}

#[test]
fn builder_builds_by_id() {
    let mut b = Builder::untyped();
    let x = b.tok("x");
    let y = b.tok("y");
    let root = b.add(Kind::Block, "pair", vec![x, y]);
    let tree = b.build(root);
    assert_eq!(tree.token_count(), 2);
    // without a grammar, interior nodes are groups, whose children may go
    assert_eq!(tree.node_kind(root), Kind::Group);
    assert!(tree.deletable(x));
    assert_eq!(render_nested(&tree, &all_tokens(&tree)), "pair { x; y }");
}

// ---- the parsers ----

#[test]
fn mini_c_accepts_the_grammar_and_nothing_else() {
    assert!(parses("int main ( ) { }"));
    assert!(parses("int main ( ) { crash ( ) ; }"));
    assert!(parses("int main ( ) { if ( c ) { x ( ) ; } { } }"));
    assert!(parses("  int\tmain ( )\n{ }  "));
    assert!(!parses("int main ( ) {"));
    assert!(!parses("int main ( ) { } }"));
    assert!(!parses(""));
    assert!(!parses("int main ( ) { int ( ) ; }"));
    assert!(!parses("int main ( ) { if ( c ) x ( ) ; }"));
    let tree = example_tree();
    assert!(parses(&render(&tree, &all_tokens(&tree))));
}

#[test]
fn mini_c_parser_steps() {
    let mut p = Parser::new(split_words("x ( ) ; if"));
    assert!(p.ident());
    assert_eq!(p.pos(), 1);
    assert!(!p.eat(")"));
    assert!(p.eat("("));
    p.reset(0);
    assert!(p.call());
    assert_eq!(p.pos(), 4);
    assert!(!p.stmt());
    assert_eq!(p.pos(), 4);
    assert_eq!(p.len(), 5);
}

#[test]
fn flat_grammar_accepts_function_items() {
    assert!(flat_grammar::parses(&[]));
    assert!(flat_grammar::parses(&["fn", "f", "{", "}"]));
    assert!(flat_grammar::parses(&["fn", "f", "{", "x", ";", "}"]));
    assert!(flat_grammar::parses(&["fn", "f", "{", "x", "(", ")", ";", "}"]));
    assert!(flat_grammar::parses(&["fn", "f", "{", "if", "g", "{", "y", ";", "}", "}", "fn", "h", "{", "}"]));
    assert!(!flat_grammar::parses(&["fn", "f", "{", "x", "(", ";", "}"]));
    assert!(!flat_grammar::parses(&["fn", "{", "}"]));
    assert!(!flat_grammar::parses(&["fn", "f", "{"]));
    assert!(!flat_grammar::parses(&["x", ";"]));
    let toks = flat_grammar::demo_tokens();
    assert!(flat_grammar::parses(&toks));
}

#[test]
fn flat_grammar_steps() {
    let toks = ["fn", "f", "{", "x", ";", "}"];
    let mut pos = 0;
    assert!(flat_grammar::eat(&toks, &mut pos, "fn"));
    assert_eq!(pos, 1);
    assert!(!flat_grammar::eat(&toks, &mut pos, "fn"));
    assert!(flat_grammar::ident(&toks, &mut pos));
    assert!(flat_grammar::block(&toks, &mut pos));
    assert_eq!(pos, 6);
    let mut pos = 3;
    assert!(flat_grammar::stmt(&toks, &mut pos));
    assert_eq!(pos, 5);
    let mut pos = 0;
    assert!(flat_grammar::fn_item(&toks, &mut pos));
    assert_eq!(pos, 6);
    let mut pos = 2;
    assert!(!flat_grammar::ident(&toks, &mut pos));
    assert_eq!(pos, 2);
}

#[test]
fn words_split_at_whitespace() {
    let w: Vec<String> = split_words("  a bc\td\n").iter().map(|v| v.iter().collect()).collect();
    assert_eq!(w, vec!["a", "bc", "d"]);
    assert!(split_words("").is_empty());
    assert!(split_words("   ").is_empty());
    assert!(same_text("abc", "abc"));
    assert!(!same_text("abc", "abd"));
    assert!(!same_text("ab", "abc"));
}
