use std::cell::Cell;
use std::rc::Rc;

use delta_debugging::builder::{example_tree, grammarless_example_tree, program_example_tree, scattered_example_tree, weighted_example_tree};
use delta_debugging::config::Configuration;
use delta_debugging::ddmin::DDMin;
use delta_debugging::flat_grammar;
use delta_debugging::hdd::Hdd;
use delta_debugging::mini_c::parses;
use delta_debugging::perses::Perses;
use delta_debugging::policy::{reduce, Verdict};
use delta_debugging::render::{render, render_nested};
use delta_debugging::tree::Tree;
use delta_debugging::wdd::Wdd;

fn set_of(units: &[u32]) -> Configuration {
    let mut c = Configuration::new();
    for &u in units {
        c.insert(u);
    }
    c
}

fn all_tokens(tree: &Tree) -> Configuration {
    Configuration::range(tree.token_count())
}

/// The token whose leaf is labelled `label`.
fn token_labelled(tree: &Tree, label: &str) -> u32 {
    (0..tree.token_count())
        .find(|&u| tree.node_label(tree.leaf_of_token(u)) == label)
        .unwrap()
}

#[test]
fn ddmin_keeps_two_and_seven() {
    let input = set_of(&[1, 2, 3, 4, 5, 6, 7, 8]);
    let calls = Rc::new(Cell::new(0u32));
    let counter = calls.clone();
    let oracle = move |c: &Configuration| {
        counter.set(counter.get() + 1);
        if c.contains(2) && c.contains(7) {
            Verdict::Interesting
        } else {
            Verdict::NotInteresting
        }
    };
    let result = reduce(input, &oracle, DDMin::new());
    assert_eq!(result.to_vec(), vec![2, 7]);
    assert_eq!(calls.get(), 33);
}

/// HDD over the wide program tree, starting at level 1.
fn hdd_on_program_tree() -> (Tree, Configuration, u32) {
    let tree = program_example_tree();
    let crash = token_labelled(&tree, "crash()");
    let calls = Rc::new(Cell::new(0u32));
    let counter = calls.clone();
    let oracle = move |c: &Configuration| {
        counter.set(counter.get() + 1);
        if c.contains(crash) {
            Verdict::Interesting
        } else {
            Verdict::NotInteresting
        }
    };
    let result = reduce(all_tokens(&tree), &oracle, Hdd::new(&tree, 1, || DDMin::new()));
    let n = calls.get();
    (tree, result, n)
}

#[test]
fn hdd_ddmin_keeps_only_the_crash() {
    let (tree, result, calls) = hdd_on_program_tree();
    let crash = token_labelled(&tree, "crash()");
    assert_eq!(result.to_vec(), vec![crash]);
    assert_eq!(calls, 11);
    assert_eq!(render_nested(&tree, &result), "program { fn bar { if guard { crash() } } }");
}

#[test]
fn wdd_beats_ddmin_on_uneven_tree() {
    let tree = weighted_example_tree();
    let crash = token_labelled(&tree, "crash()");
    let weights = tree.leaf_counts();
    for (run, expected_calls) in [(0u8, 13u32), (1u8, 8u32)] {
        let calls = Rc::new(Cell::new(0u32));
        let counter = calls.clone();
        let oracle = move |c: &Configuration| {
            counter.set(counter.get() + 1);
            if c.contains(crash) {
                Verdict::Interesting
            } else {
                Verdict::NotInteresting
            }
        };
        let result = if run == 0 {
            reduce(all_tokens(&tree), &oracle, Hdd::new(&tree, 1, || DDMin::new()))
        } else {
            reduce(all_tokens(&tree), &oracle, Hdd::new(&tree, 1, || Wdd::new(&weights)))
        };
        assert_eq!(result.to_vec(), vec![crash]);
        assert_eq!(calls.get(), expected_calls);
    }
}

/// An oracle that counts its calls: interesting iff every `needed` token
/// survives and the rendered program parses.
fn parsing_oracle(tree: &Tree, needed: Vec<u32>) -> (impl Fn(&Configuration) -> Verdict + '_, Rc<Cell<u32>>) {
    let calls = Rc::new(Cell::new(0u32));
    let counter = calls.clone();
    let oracle = move |c: &Configuration| {
        counter.set(counter.get() + 1);
        let src = render(tree, c);
        if needed.iter().all(|&t| c.contains(t)) && parses(&src) {
            Verdict::Interesting
        } else {
            Verdict::NotInteresting
        }
    };
    (oracle, calls)
}

#[test]
fn perses_collapses_nested_ifs() {
    let tree = example_tree();
    let crash = token_labelled(&tree, "crash");

    let (oracle, calls) = parsing_oracle(&tree, vec![crash]);
    let hdd = reduce(all_tokens(&tree), &oracle, Hdd::new(&tree, 0, || DDMin::new()));
    assert_eq!(
        render(&tree, &hdd),
        "int main ( ) { if ( c1 ) { if ( c2 ) { if ( c3 ) { crash ( ) ; } } } }"
    );
    assert_eq!(calls.get(), 9);

    let (oracle, calls) = parsing_oracle(&tree, vec![crash]);
    let perses = reduce(all_tokens(&tree), &oracle, Perses::new(&tree, || DDMin::new()));
    assert_eq!(render(&tree, &perses), "int main ( ) { crash ( ) ; }");
    assert_eq!(calls.get(), 3);
}

#[test]
fn hdd_without_grammar_needs_many_more_tests() {
    let tree = grammarless_example_tree();
    let crash = token_labelled(&tree, "crash");
    let (oracle, calls) = parsing_oracle(&tree, vec![crash]);
    let result = reduce(all_tokens(&tree), &oracle, Hdd::new(&tree, 0, || DDMin::new()));
    assert_eq!(render(&tree, &result), "int main ( ) { crash ( ) ; }");
    assert_eq!(calls.get(), 105);
}

#[test]
fn scattered_bug_hdd_and_perses() {
    let tree = scattered_example_tree();
    let needed: Vec<u32> = ["setup", "corrupt", "crash"].iter().map(|l| token_labelled(&tree, l)).collect();

    let (oracle, calls) = parsing_oracle(&tree, needed.clone());
    let hdd = reduce(all_tokens(&tree), &oracle, Hdd::new(&tree, 0, || DDMin::new()));
    assert_eq!(
        render(&tree, &hdd),
        "int main ( ) { setup ( ) ; if ( c1 ) { corrupt ( ) ; if ( c2 ) { crash ( ) ; } } }"
    );
    assert_eq!(calls.get(), 12);

    let (oracle, calls) = parsing_oracle(&tree, needed);
    let perses = reduce(all_tokens(&tree), &oracle, Perses::sticky(&tree, || DDMin::new()));
    assert_eq!(render(&tree, &perses), "int main ( ) { setup ( ) ; { corrupt ( ) ; crash ( ) ; } }");
    assert_eq!(calls.get(), 64);
}

#[test]
fn flat_ddmin_wastes_tests_on_parse_errors() {
    let tokens = flat_grammar::demo_tokens();
    let crash = tokens.iter().position(|&t| t == "crash").unwrap() as u32;
    let calls = Rc::new(Cell::new(0u32));
    let errors = Rc::new(Cell::new(0u32));
    let (counter, errs) = (calls.clone(), errors.clone());
    let toks = tokens.clone();
    let oracle = move |c: &Configuration| {
        counter.set(counter.get() + 1);
        let keep: Vec<&str> = c.to_vec().iter().map(|&u| toks[u as usize]).collect();
        if !flat_grammar::parses(&keep) {
            errs.set(errs.get() + 1);
            Verdict::NotInteresting
        } else if (crash..crash + 4).all(|u| c.contains(u)) {
            Verdict::Interesting
        } else {
            Verdict::NotInteresting
        }
    };
    let result = reduce(Configuration::range(tokens.len() as u32), &oracle, DDMin::new());
    assert!((crash..crash + 4).all(|u| result.contains(u)));
    assert_eq!(calls.get(), 253);
    assert_eq!(errors.get(), 249);

    // the flat optimum parses and crashes, but neither blind policy finds it
    let optimum = set_of(&[0, 1, 2, 10, 11, 12, 13, 17]);
    let keep: Vec<&str> = optimum.to_vec().iter().map(|&u| tokens[u as usize]).collect();
    assert!(flat_grammar::parses(&keep));
    assert_eq!(flat_grammar::render_flat(&tokens, &optimum), "fn bar { crash ( ) ; }");
}
