use std::collections::HashMap;
use std::cell::Cell;
use std::rc::Rc;
use delta_debugging::builder::{program_example_tree, scattered_example_tree};
use delta_debugging::config::{Configuration, Delta};
use delta_debugging::flat_grammar;
use delta_debugging::hdd::Hdd;
use delta_debugging::mini_c::parses;
use delta_debugging::perses::Perses;
use delta_debugging::policy::{reduce, Policy, Verdict};
use delta_debugging::render::{render, render_nested};
use delta_debugging::shape::NodeId;
use delta_debugging::tree::Tree;


/// ProbDD keeps, per unit, the probability that it is essential.
struct ProbDD {
    unit2prob: HashMap<u32, f64>,
    p0: f64,
    // the prefix proposed last; pulling the next delta means it failed
    last: Option<Vec<u32>>,
}

impl ProbDD {
    /// A model in which every unit starts essential with probability `p0`.
    fn new(p0: f64) -> ProbDD {
        ProbDD { unit2prob: HashMap::new(), p0, last: None }
    }

    /// Forgets removed units; new units start at the prior.
    fn sync(&mut self, config: &Configuration) {
        self.unit2prob.retain(|u, _| config.contains(*u));
        for u in config.to_vec() {
            self.unit2prob.entry(u).or_insert(self.p0);
        }
    }
}

/// The prefix of units (least likely essential first) whose removal removes
/// the most units in expectation.
fn best_prefix(unit2prob: &HashMap<u32, f64>) -> Vec<u32> {
    let mut units: Vec<u32> = unit2prob.keys().copied().collect();
    units.sort_by(|a, b| unit2prob[a].partial_cmp(&unit2prob[b]).unwrap().then(a.cmp(b)));

    let mut survive = 1.0; // the product of (1 - p) over the current prefix
    let (mut best_k, mut best_gain) = (0, 0.0);
    for (i, u) in units.iter().enumerate() {
        survive *= 1.0 - unit2prob[u];
        // the gain is the number of units we expect to remove: k * prod(1 - p)
        let gain = (i + 1) as f64 * survive;
        if gain > best_gain {
            (best_k, best_gain) = (i + 1, gain);
        }
    }

    units.truncate(best_k);
    units
}

/// A removal of `pre` just failed: raise their beliefs by the Bayesian
/// posterior `p / (1 - prod(1 - p))`.
fn bayes_update(unit2prob: &mut HashMap<u32, f64>, pre: &[u32]) {
    let survive: f64 = pre.iter().map(|u| 1.0 - unit2prob[u]).product();
    let denom = 1.0 - survive;
    if denom <= 0.0 {
        return;
    }
    for u in pre {
        let p = unit2prob[u];
        unit2prob.insert(*u, (p / denom).min(1.0));
    }
}

impl Policy for ProbDD {
    fn propose(&mut self, config: &Configuration) {
        self.sync(config);
        self.last = None;
    }

    fn next_delta(&mut self) -> Option<Delta> {
        if let Some(pre) = &self.last {
            // the previous removal failed: update the model
            bayes_update(&mut self.unit2prob, pre);
        }
        // done once every survivor is believed essential (p = 1)
        if self.unit2prob.values().all(|&p| p >= 1.0) {
            return None;
        }
        let pre = best_prefix(&self.unit2prob);
        if pre.is_empty() {
            return None;
        }
        let mut delta = Configuration::new();
        for &u in &pre {
            delta.insert(u);
        }
        self.last = Some(pre);
        Some(delta)
    }
    fn on_reduced(&mut self, reduced: Option<&Configuration>) -> bool {
        reduced.is_some()
    }
}


/// Below this expected gain, T-PDD gives up.
const MIN_GAIN: f64 = 1.0;

/// T-PDD's belief: `p[n]` is the conditional retention probability of `n`,
/// `P(n survives | n's parent survives)`.
struct TPdd<'t> {
    tree: &'t Tree,
    p: HashMap<NodeId, f64>,
    // the configuration of the current pass
    config: Configuration,
    // the node deleted last; pulling the next delta means it failed
    last: Option<NodeId>,
}

impl<'t> TPdd<'t> {
    /// `sigma` is the prior for a deletable node (e.g. 0.5); every other
    /// node starts certain to survive.
    fn new(tree: &'t Tree, sigma: f64) -> TPdd<'t> {
        TPdd { tree, p: priors(tree, sigma), config: Configuration::new(), last: None }
    }
}

/// A static prior from the tree's shape.
fn priors(tree: &Tree, sigma: f64) -> HashMap<NodeId, f64> {
    tree.node_ids()
        .into_iter()
        .filter(|&n| n != tree.root())
        .map(|n| (n, if tree.deletable(n) { sigma } else { 1.0 }))
        .collect()
}

/// The model's belief that `n`'s subtree contributes no surviving token.
fn q(tree: &Tree, p: &HashMap<NodeId, f64>, config: &Configuration, n: NodeId) -> f64 {
    let pn = p[&n];
    let children = tree.node_children(n);
    if children.is_empty() {
        return 1.0 - pn;
    }
    let product: f64 = children
        .iter()
        .copied()
        .filter(|&c| tree.live(c, config))
        .map(|c| q(tree, p, config, c))
        .product();
    (1.0 - pn) + pn * product
}

/// The probability that deleting `d` keeps the program interesting.
fn pass_prob(tree: &Tree, p: &HashMap<NodeId, f64>, config: &Configuration, d: NodeId) -> f64 {
    let mut result = q(tree, p, config, d);
    let mut node = d;
    while let Some(a) = tree.parent_of(node) {
        match p.get(&a) {
            Some(&pa) => result = (1.0 - pa) + pa * result,
            None => break, // `a` is the root: it has no entry in `p`
        }
        node = a;
    }
    result
}

/// The expected number of tokens a deletion at `d` removes.
fn expected_gain(tree: &Tree, p: &HashMap<NodeId, f64>, config: &Configuration, d: NodeId) -> f64 {
    tree.leaves_under(d, config).len() as f64 * pass_prob(tree, p, config, d)
}

/// The live node with the highest expected gain, excluding the root and
/// any node already certain to survive (`p = 1`).
fn best_candidate(tree: &Tree, p: &HashMap<NodeId, f64>, config: &Configuration) -> Option<NodeId> {
    let mut cands: Vec<(NodeId, f64)> = tree
        .node_ids()
        .into_iter()
        .filter(|&id| id != tree.root() && p[&id] < 1.0 && tree.live(id, config))
        .map(|id| (id, expected_gain(tree, p, config, id)))
        .collect();

    cands.sort_by(|&(a_id, a_gain), &(b_id, b_gain)| b_gain.partial_cmp(&a_gain).unwrap().then(a_id.cmp(&b_id)));

    cands.first().filter(|&&(_, gain)| gain > MIN_GAIN).map(|&(id, _)| id)
}

/// A deletion at `d` just failed: raise its belief.
fn update(tree: &Tree, p: &mut HashMap<NodeId, f64>, config: &Configuration, d: NodeId) {
    let survive = pass_prob(tree, p, config, d);
    let denom = 1.0 - survive;
    if denom > 0.0 {
        let pd = p[&d];
        p.insert(d, (pd / denom).min(1.0));
    }
}

impl Policy for TPdd<'_> {
    fn propose(&mut self, config: &Configuration) {
        self.config = config.copy();
        self.last = None;
    }

    fn next_delta(&mut self) -> Option<Delta> {
        let tree = self.tree;
        if let Some(d) = self.last {
            update(tree, &mut self.p, &self.config, d);
        }
        let d = best_candidate(tree, &self.p, &self.config)?;
        self.last = Some(d);
        Some(tree.leaves_under(d, &self.config))
    }
    fn on_reduced(&mut self, reduced: Option<&Configuration>) -> bool {
        reduced.is_some()
    }
}

fn all_tokens(tree: &Tree) -> Configuration {
    Configuration::range(tree.token_count())
}

fn token_labelled(tree: &Tree, label: &str) -> u32 {
    (0..tree.token_count()).find(|&u| tree.node_label(tree.leaf_of_token(u)) == label).unwrap()
}

/// Runs `policy` on every token of `tree`: interesting iff every `needed`
/// token survives and the program parses. Returns the result and the tests.
fn run_parsing<P: Policy>(tree: &Tree, needed: &[u32], policy: P) -> (Configuration, u32) {
    let calls = Rc::new(Cell::new(0u32));
    let counter = calls.clone();
    let oracle = move |c: &Configuration| {
        counter.set(counter.get() + 1);
        let src = render(tree, c);
        if needed.iter().all(|&t| c.contains(t)) && parses(&src) {
            Verdict::Interesting
        } else {
            Verdict::NotInteresting
        }
    };
    let result = reduce(all_tokens(tree), &oracle, policy);
    let n = calls.get();
    (result, n)
}

#[test]
fn probdd_keeps_two_and_seven() {
    let mut input = Configuration::new();
    for u in 1..=8 {
        input.insert(u);
    }
    let calls = Rc::new(Cell::new(0u32));
    let counter = calls.clone();
    let oracle = move |c: &Configuration| {
        counter.set(counter.get() + 1);
        if c.contains(2) && c.contains(7) { Verdict::Interesting } else { Verdict::NotInteresting }
    };
    let result = reduce(input, &oracle, ProbDD::new(0.1));
    assert_eq!(result.to_vec(), vec![2, 7]);
    assert_eq!(calls.get(), 12);
}

#[test]
fn hdd_probdd_keeps_only_the_crash() {
    let tree = program_example_tree();
    let crash = token_labelled(&tree, "crash()");
    let calls = Rc::new(Cell::new(0u32));
    let counter = calls.clone();
    let oracle = move |c: &Configuration| {
        counter.set(counter.get() + 1);
        if c.contains(crash) { Verdict::Interesting } else { Verdict::NotInteresting }
    };
    let result = reduce(all_tokens(&tree), &oracle, Hdd::new(&tree, 1, || ProbDD::new(0.1)));
    assert_eq!(result.to_vec(), vec![crash]);
    assert_eq!(calls.get(), 15);
    assert_eq!(render_nested(&tree, &result), "program { fn bar { if guard { crash() } } }");
}

#[test]
fn flat_probdd_wastes_fewer_tests() {
    let tokens = flat_grammar::demo_tokens();
    let crash = tokens.iter().position(|&t| t == "crash").unwrap() as u32;
    let calls = Rc::new(Cell::new(0u32));
    let errors = Rc::new(Cell::new(0u32));
    let (counter, errs) = (calls.clone(), errors.clone());
    let toks = tokens.clone();
    let oracle = move |c: &Configuration| {
        counter.set(counter.get() + 1);
        let keep: Vec<&str> = c.to_vec().iter().map(|&u| toks[u as usize]).collect();
        if !flat_grammar::parses(&keep) {
            errs.set(errs.get() + 1);
            Verdict::NotInteresting
        } else if (crash..crash + 4).all(|u| c.contains(u)) {
            Verdict::Interesting
        } else {
            Verdict::NotInteresting
        }
    };
    let result = reduce(Configuration::range(tokens.len() as u32), &oracle, ProbDD::new(0.1));
    assert!((crash..crash + 4).all(|u| result.contains(u)));
    assert_eq!(calls.get(), 80);
    assert_eq!(errors.get(), 68);
}

#[test]
fn tpdd_finds_the_scattered_bug_fastest() {
    let tree = scattered_example_tree();
    let needed: Vec<u32> = ["setup", "corrupt", "crash"].iter().map(|l| token_labelled(&tree, l)).collect();
    let kept = "int main ( ) { setup ( ) ; if ( c1 ) { corrupt ( ) ; if ( c2 ) { crash ( ) ; } } }";

    let (hddp, hddp_calls) = run_parsing(&tree, &needed, Hdd::new(&tree, 0, || ProbDD::new(0.1)));
    assert_eq!(render(&tree, &hddp), kept);
    assert_eq!(hddp_calls, 13);

    let (pp, pp_calls) = run_parsing(&tree, &needed, Perses::sticky(&tree, || ProbDD::new(0.1)));
    assert_eq!(render(&tree, &pp), "int main ( ) { setup ( ) ; { corrupt ( ) ; crash ( ) ; } }");
    assert_eq!(pp_calls, 63);

    let (tpdd, tpdd_calls) = run_parsing(&tree, &needed, TPdd::new(&tree, 0.5));
    assert_eq!(render(&tree, &tpdd), kept);
    assert_eq!(tpdd_calls, 8);
}
