//! The reduction loop shared by every algorithm, and the `Policy` trait that
//! decides what it proposes.
use vstd::prelude::*;
use crate::config::{Configuration, Delta};

verus! {

/// The oracle's answer for a configuration.
#[derive(PartialEq, Eq, Structural, Clone, Copy, Debug)]
pub enum Verdict {
    /// Still triggers the bug.
    Interesting,
    /// Does not trigger the bug, or is invalid.
    NotInteresting,
}

/// The oracle answered `NotInteresting` for some configuration equal to `c`.
pub open spec fn rejected<F: Fn(&Configuration) -> Verdict>(oracle: F, c: Set<u32>) -> bool {
    exists|k: Configuration| k@ == c && #[trigger] call_ensures(oracle, (&k,), Verdict::NotInteresting)
}

/// Everything algorithm-specific in delta debugging.
///
/// A pass over a configuration is started by `propose`; the loop then pulls
/// candidate deltas lazily with `next_delta` until one is accepted or the
/// policy runs dry; `on_reduced` reports the outcome and decides whether to
/// go on. Pulling the next delta is itself the signal that the previous
/// one failed.
pub trait Policy: Sized {
    /// The policy's own invariant.
    closed spec fn wf(&self) -> bool {
        true
    }

    /// The units this policy can reason about; every configuration it is
    /// handed lies inside.
    closed spec fn domain(&self) -> Set<u32> {
        Set::full()
    }

    /// The configuration of the current pass.
    closed spec fn subject(&self) -> Set<u32> {
        Set::empty()
    }

    /// Deltas that a pass over the configuration with members `elems` is
    /// committed to propose before it runs dry.
    closed spec fn promised(&self, elems: Seq<u32>) -> Set<Set<u32>> {
        Set::empty()
    }

    /// Deltas still owed in the current pass.
    closed spec fn pending(&self) -> Set<Set<u32>> {
        Set::empty()
    }

    /// Bounds the number of deltas left in the current pass.
    closed spec fn budget(&self) -> nat {
        0
    }

    /// The deltas handed out since the last reported reduction.
    closed spec fn tried(&self) -> Set<Set<u32>> {
        Set::empty()
    }

    /// The delta last handed out in the current pass, if any.
    closed spec fn last(&self) -> Option<Set<u32>> {
        None
    }

    /// Nothing was handed out since the policy was built or a reduction
    /// was reported.
    closed spec fn fresh(&self) -> bool {
        true
    }

    /// The last reported pass ended the run.
    closed spec fn stopped(&self) -> bool {
        false
    }

    /// A pass was started and no reduction was reported since.
    closed spec fn in_pass(&self) -> bool {
        true
    }

    /// Deltas that the policy has handed out on the configuration `c` when it
    /// stops there: a run that ends with `c` has tried each of them on `c`.
    closed spec fn settled(&self, c: Set<u32>) -> Set<Set<u32>> {
        Set::empty()
    }

    /// Shrinks whenever a pass without progress does not stop the run.
    closed spec fn rank(&self) -> nat {
        0
    }

    /// A bound on the rank of a freshly built policy of this type.
    closed spec fn rank_cap() -> nat {
        0
    }

    /// Starts a pass over `config`.
    fn propose(&mut self, config: &Configuration)
        requires
            old(self).wf(),
            config.wf(),
            config@.subset_of(old(self).domain()),
            old(self).fresh() || config@ == old(self).subject(),
            !old(self).stopped(),
        ensures
            final(self).wf(),
            final(self).domain() == old(self).domain(),
            final(self).subject() == config@,
            old(self).promised(config.elems()).subset_of(final(self).pending()),
            !final(self).stopped(),
            final(self).fresh() == old(self).fresh(),
            final(self).rank() <= old(self).rank(),
            forall|e: Seq<u32>| #[trigger] final(self).promised(e) == old(self).promised(e),
            forall|c: Set<u32>| #[trigger] final(self).settled(c) == old(self).settled(c),
            final(self).tried() == old(self).tried(),
            final(self).last() is None,
            final(self).in_pass(),
    ;

    /// The next candidate removal set of the current pass, if any.
    fn next_delta(&mut self) -> (d: Option<Delta>)
        requires
            old(self).wf(),
        ensures
            final(self).wf(),
            final(self).domain() == old(self).domain(),
            final(self).subject() == old(self).subject(),
            final(self).rank() <= old(self).rank(),
            forall|e: Seq<u32>| #[trigger] final(self).promised(e) == old(self).promised(e),
            forall|c: Set<u32>| #[trigger] final(self).settled(c) == old(self).settled(c),
            final(self).in_pass() == old(self).in_pass(),
            final(self).stopped() == old(self).stopped(),
            d is None ==> old(self).pending().is_empty() && final(self).pending().is_empty(),
            d is None ==> final(self).tried() == old(self).tried() && final(self).last() == old(self).last(),
            final(self).fresh() == (old(self).fresh() && d is None),
            d matches Some(x) ==> {
                &&& x.wf()
                &&& !x@.is_empty()
                &&& x@.subset_of(old(self).subject())
                &&& final(self).budget() < old(self).budget()
                &&& final(self).tried() == old(self).tried().insert(x@)
                &&& final(self).last() == Some(x@)
            },
            forall|s: Set<u32>| #[trigger] old(self).pending().contains(s) ==>
                final(self).pending().contains(s) || (d matches Some(x) && x@ == s),
    ;

    /// Reacts to a pass: `reduced` is `Some` with the new configuration if the
    /// pass removed anything, `None` if it ran dry.
    /// Returns `true` to keep going; when it returns `false`, every delta the
    /// policy settled for its configuration has been tried there.
    fn on_reduced(&mut self, reduced: Option<&Configuration>) -> (go: bool)
        requires
            old(self).wf(),
            old(self).in_pass(),
            reduced matches Some(c) ==> c.wf() && c@.subset_of(old(self).domain()),
            reduced is None ==> old(self).pending().is_empty(),
        ensures
            final(self).wf(),
            final(self).domain() == old(self).domain(),
            final(self).subject() == old(self).subject(),
            forall|e: Seq<u32>| #[trigger] final(self).promised(e) == old(self).promised(e),
            forall|c: Set<u32>| #[trigger] final(self).settled(c) == old(self).settled(c),
            reduced is Some ==> go,
            reduced is Some ==> final(self).tried() == Set::<Set<u32>>::empty() && !final(self).in_pass() && final(self).fresh(),
            reduced is None ==> final(self).fresh() == old(self).fresh(),
            reduced is None ==> final(self).tried() == old(self).tried(),
            reduced is None && go ==> final(self).rank() < old(self).rank(),
            final(self).stopped() == !go,
            !go ==> final(self).settled(final(self).subject()).subset_of(final(self).tried()),
    ;
}

/// The main loop of delta debugging: repeatedly propose removals, keep the
/// first one the oracle still finds interesting, until the policy stops.
pub fn reduce<P: Policy, F: Fn(&Configuration) -> Verdict>(
    units: Configuration,
    oracle: &F,
    policy: P,
) -> (r: Configuration)
    requires
        units.wf(),
        policy.wf(),
        units@.subset_of(policy.domain()),
        policy.tried().is_empty(),
        policy.fresh(),
        !policy.stopped(),
        forall|c: &Configuration| call_requires(*oracle, (c,)),
    ensures
        r.wf(),
        r@.subset_of(units@),
        r == units || call_ensures(*oracle, (&r,), Verdict::Interesting),
        forall|x: Set<u32>| #[trigger] policy.promised(r.elems()).contains(x) ==> rejected(*oracle, r@.difference(x)),
        forall|x: Set<u32>| #[trigger] policy.settled(r@).contains(x) ==> rejected(*oracle, r@.difference(x)),
{
    let ghost policy0 = policy;
    let mut policy = policy;
    let mut config = units;
    loop
        invariant_except_break
            !policy.stopped(),
        invariant
            config.wf(),
            policy.wf(),
            config@.subset_of(units@),
            units@.subset_of(policy.domain()),
            config == units || call_ensures(*oracle, (&config,), Verdict::Interesting),
            forall|e: Seq<u32>| #[trigger] policy.promised(e) == policy0.promised(e),
            forall|c: Set<u32>| #[trigger] policy.settled(c) == policy0.settled(c),
            policy.fresh() || policy.subject() == config@,
            forall|s: Set<u32>| #[trigger] policy.tried().contains(s) ==> rejected(*oracle, config@.difference(s)),
            forall|c: &Configuration| call_requires(*oracle, (c,)),
        ensures
            config.wf(),
            config@.subset_of(units@),
            config == units || call_ensures(*oracle, (&config,), Verdict::Interesting),
            forall|x: Set<u32>| #[trigger] policy0.promised(config.elems()).contains(x) ==> rejected(*oracle, config@.difference(x)),
            forall|x: Set<u32>| #[trigger] policy0.settled(config@).contains(x) ==> rejected(*oracle, config@.difference(x)),
        decreases config.elems().len(), policy.rank(),
    {
        let ghost rank0 = policy.rank();
        let ghost domain0 = policy.domain();
        let ghost promised = policy.promised(config.elems());
        policy.propose(&config);
        let mut reduced: Option<Configuration> = None;
        let ghost mut tried: Set<Set<u32>> = Set::empty();
        loop
            invariant_except_break
                reduced is None,
                forall|s: Set<u32>| #[trigger] promised.contains(s) ==> policy.pending().contains(s) || tried.contains(s),
                forall|s: Set<u32>| #[trigger] policy.tried().contains(s) ==> rejected(*oracle, config@.difference(s)),
            invariant
                config.wf(),
                policy.wf(),
                policy.in_pass(),
                !policy.stopped(),
                forall|c: Set<u32>| #[trigger] policy.settled(c) == policy0.settled(c),
                policy.domain() == domain0,
                policy.subject() == config@,
                policy.rank() <= rank0,
                forall|e: Seq<u32>| #[trigger] policy.promised(e) == policy0.promised(e),
                forall|c: &Configuration| call_requires(*oracle, (c,)),
                forall|s: Set<u32>| #[trigger] tried.contains(s) ==> rejected(*oracle, config@.difference(s)),
            ensures
                policy.wf(),
                policy.in_pass(),
                !policy.stopped(),
                forall|c: Set<u32>| #[trigger] policy.settled(c) == policy0.settled(c),
                policy.domain() == domain0,
                policy.subject() == config@,
                policy.rank() <= rank0,
                forall|e: Seq<u32>| #[trigger] policy.promised(e) == policy0.promised(e),
                reduced is Some ==> policy.last() is Some,
                reduced is None ==> policy.pending().is_empty(),
                reduced is None ==> forall|s: Set<u32>| #[trigger] policy.tried().contains(s) ==> rejected(*oracle, config@.difference(s)),
                reduced matches Some(c) ==> {
                    &&& c.wf()
                    &&& c@.subset_of(config@)
                    &&& c.elems().len() < config.elems().len()
                    &&& call_ensures(*oracle, (&c,), Verdict::Interesting)
                },
                reduced is None ==> forall|s: Set<u32>| #[trigger] promised.contains(s) ==> rejected(*oracle, config@.difference(s)),
            decreases policy.budget(),
        {
            match policy.next_delta() {
                None => {
                    break;
                },
                Some(delta) => {
                    // the policy never proposes an empty delta, a no-op that
                    // could never make progress
                    let candidate = config.difference(&delta);
                    let verdict = oracle(&candidate);
                    if verdict == Verdict::Interesting {
                        proof {
                            config.lemma_wf();
                            candidate.lemma_wf();
                            let w = choose|w: u32| delta@.contains(w);
                            assert(config@.contains(w));
                            assert(!candidate@.contains(w));
                            assert(candidate@.subset_of(config@));
                            vstd::set_lib::lemma_len_subset(candidate@, config@.remove(w));
                        }
                        reduced = Some(candidate);
                        break;
                    }
                    proof {
                        tried = tried.insert(delta@);
                        assert(rejected(*oracle, config@.difference(delta@)));
                    }
                },
            }
        }
        // the policy decides when to stop
        let keep_going = match &reduced {
            Some(c) => policy.on_reduced(Some(c)),
            None => policy.on_reduced(None),
        };
        if let Some(candidate) = reduced {
            config = candidate;  // update the current configuration
        }
        if !keep_going {
            break;
        }
    }
    config
}

} // verus!
