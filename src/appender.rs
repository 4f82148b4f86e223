use vstd::prelude::*;
use vstd::multiset::Multiset;
use crate::frontier::{join_of, rank, sorted_by_lower, Description, Frontier};

verus! {

/// Why an appender refused a description.
#[derive(PartialEq, Eq, Structural, Clone, Copy, Debug)]
pub enum AppenderError {
    /// The description's interval is empty (`lower` is not below `upper`).
    EmptyDescription,
    /// The description's `lower` is not above that of every description seen
    /// before.
    DescriptionOutOfOrder,
}

/// The artifacts to commit in one compare-and-append over `description`.
pub struct CommitRequest<B> {
    pub description: Description,
    pub batches: Vec<B>,
}

/// The artifacts of `s` written for description `d`, in order.
pub open spec fn artifacts_for<B>(s: Seq<(Description, B)>, d: Description) -> Seq<B>
    decreases s.len(),
{
    if s.len() == 0 {
        Seq::empty()
    } else {
        let rest = artifacts_for(s.drop_last(), d);
        if s.last().0 == d {
            rest.push(s.last().1)
        } else {
            rest
        }
    }
}

/// The artifacts of `s` written for other descriptions than `d`, in order.
pub open spec fn artifacts_besides<B>(s: Seq<(Description, B)>, d: Description) -> Seq<(Description, B)>
    decreases s.len(),
{
    if s.len() == 0 {
        s
    } else {
        let rest = artifacts_besides(s.drop_last(), d);
        if s.last().0 == d {
            rest
        } else {
            rest.push(s.last())
        }
    }
}

/// The capability an appender holds after the outcome `result` of committing
/// over `d`: the description's upper on success, the shard's actual upper on
/// a conflict, and never below what it held.
pub open spec fn capability_after_commit(cap: Frontier, d: Description, result: Result<(), Frontier>) -> Frontier {
    match result {
        Ok(()) => join_of(cap, d.upper),
        Err(actual) => join_of(cap, actual),
    }
}

/// The operator that commits the artifacts of each finished description.
/// Only the leader works; any other instance stops at once.
pub struct Appender<B> {
    pub leader: bool,
    pub terminated: bool,
    /// Descriptions known and not yet committed, by increasing `lower`.
    pub descriptions: Vec<Description>,
    /// The `lower` time of the latest description accepted.
    pub last_lower: Option<u64>,
    /// Artifacts received and not yet handed out, each with its description.
    pub artifacts: Vec<(Description, B)>,
    pub descriptions_frontier: Frontier,
    pub batches_frontier: Frontier,
    /// The output capability: the shard's upper as this appender knows it, or
    /// the empty frontier once it holds none.
    pub capability: Frontier,
}

impl<B> Appender<B> {
    pub open spec fn wf(&self) -> bool {
        &&& forall|i: int| 0 <= i < self.descriptions@.len() ==> (#[trigger] self.descriptions@[i]).wf()
        &&& sorted_by_lower(self.descriptions@)
        &&& self.last_lower.is_none() ==> self.descriptions@.len() == 0
        &&& self.last_lower.is_some() ==> forall|i: int| 0 <= i < self.descriptions@.len()
            ==> rank((#[trigger] self.descriptions@[i]).lower) <= self.last_lower.unwrap()
        &&& !self.leader ==> self.terminated && self.descriptions@.len() == 0 && self.artifacts@.len() == 0
        &&& self.terminated ==> self.capability == Frontier::Empty
    }

    /// Whether the active appender may take events.
    pub open spec fn running(&self) -> bool {
        self.leader && !self.terminated
    }

    /// A new appender. The leader holds the minimum capability; any other
    /// instance releases its capability and is done.
    pub fn new(leader: bool) -> (r: Appender<B>)
        ensures
            r.wf(),
            r.leader == leader,
            r.terminated == !leader,
            r.descriptions@.len() == 0,
            r.artifacts@.len() == 0,
            r.last_lower.is_none(),
            r.descriptions_frontier == Frontier::At(0),
            r.batches_frontier == Frontier::At(0),
            r.capability == if leader { Frontier::At(0) } else { Frontier::Empty },
    {
        Appender {
            leader,
            terminated: !leader,
            descriptions: Vec::new(),
            last_lower: None,
            artifacts: Vec::new(),
            descriptions_frontier: Frontier::At(0),
            batches_frontier: Frontier::At(0),
            capability: if leader { Frontier::At(0) } else { Frontier::Empty },
        }
    }

    /// Takes in a new batch description.
    pub fn on_description(&mut self, d: Description) -> (r: Result<(), AppenderError>)
        requires
            old(self).wf(),
            old(self).running(),
        ensures
            final(self).wf(),
            final(self).running(),
            !d.wf() ==> r == Err::<(), AppenderError>(AppenderError::EmptyDescription),
            d.wf() && old(self).last_lower.is_some() && rank(d.lower) <= old(self).last_lower.unwrap()
                ==> r == Err::<(), AppenderError>(AppenderError::DescriptionOutOfOrder),
            r.is_ok() <==> d.wf() && (old(self).last_lower.is_none()
                || old(self).last_lower.unwrap() < rank(d.lower)),
            r.is_ok() ==> final(self).descriptions@ == old(self).descriptions@.push(d)
                && final(self).last_lower == Some(rank(d.lower) as u64),
            r.is_err() ==> final(self).descriptions@ == old(self).descriptions@
                && final(self).last_lower == old(self).last_lower,
            final(self).artifacts@ == old(self).artifacts@,
            final(self).descriptions_frontier == old(self).descriptions_frontier,
            final(self).batches_frontier == old(self).batches_frontier,
            final(self).capability == old(self).capability,
    {
        if !d.lower.less_than(&d.upper) {
            return Err(AppenderError::EmptyDescription);
        }
        let lower = match d.lower {
            Frontier::At(t) => t,
            Frontier::Empty => { return Err(AppenderError::EmptyDescription); }
        };
        match self.last_lower {
            Some(l) => {
                if lower <= l {
                    return Err(AppenderError::DescriptionOutOfOrder);
                }
            }
            None => {}
        }
        self.descriptions.push(d);
        self.last_lower = Some(lower);
        Ok(())
    }

    /// Takes in an artifact that a writer produced for description `d`.
    pub fn on_batch(&mut self, d: Description, batch: B)
        requires
            old(self).wf(),
            old(self).running(),
        ensures
            final(self).wf(),
            final(self).running(),
            final(self).artifacts@ == old(self).artifacts@.push((d, batch)),
            final(self).descriptions@ == old(self).descriptions@,
            final(self).last_lower == old(self).last_lower,
            final(self).descriptions_frontier == old(self).descriptions_frontier,
            final(self).batches_frontier == old(self).batches_frontier,
            final(self).capability == old(self).capability,
    {
        self.artifacts.push((d, batch));
    }

    /// The descriptions input's frontier advanced to `f`.
    pub fn on_descriptions_progress(&mut self, f: Frontier)
        requires
            old(self).wf(),
            old(self).running(),
        ensures
            final(self).wf(),
            final(self).running(),
            final(self).descriptions_frontier == f,
            final(self).descriptions@ == old(self).descriptions@,
            final(self).artifacts@ == old(self).artifacts@,
            final(self).last_lower == old(self).last_lower,
            final(self).batches_frontier == old(self).batches_frontier,
            final(self).capability == old(self).capability,
    {
        self.descriptions_frontier = f;
    }

    /// The batches input's frontier advanced to `f`.
    pub fn on_batches_progress(&mut self, f: Frontier)
        requires
            old(self).wf(),
            old(self).running(),
        ensures
            final(self).wf(),
            final(self).running(),
            final(self).batches_frontier == f,
            final(self).descriptions@ == old(self).descriptions@,
            final(self).artifacts@ == old(self).artifacts@,
            final(self).last_lower == old(self).last_lower,
            final(self).descriptions_frontier == old(self).descriptions_frontier,
            final(self).capability == old(self).capability,
    {
        self.batches_frontier = f;
    }

    /// Whether the first in-flight description is done: every writer has
    /// finished contributing to it, as the batches frontier is past its lower.
    pub open spec fn has_done(&self) -> bool {
        self.descriptions@.len() > 0 && rank(self.descriptions@[0].lower) < rank(self.batches_frontier)
    }

    /// Hands out the done description with the smallest lower, with every
    /// artifact received for it, or `None` when no description is done.
    /// Done descriptions therefore come out in strictly increasing order.
    pub fn next_commit(&mut self) -> (r: Option<CommitRequest<B>>)
        requires
            old(self).wf(),
            old(self).running(),
        ensures
            final(self).wf(),
            final(self).running(),
            r.is_some() <==> old(self).has_done(),
            r.is_none() ==> final(self).descriptions@ == old(self).descriptions@
                && final(self).artifacts@ == old(self).artifacts@,
            r.is_none() ==> forall|i: int| 0 <= i < old(self).descriptions@.len()
                ==> rank(old(self).batches_frontier) <= rank(#[trigger] old(self).descriptions@[i].lower),
            r.is_some() ==> {
                let d = old(self).descriptions@[0];
                &&& r.unwrap().description == d
                &&& r.unwrap().batches@ == artifacts_for(old(self).artifacts@, d)
                &&& final(self).descriptions@ == old(self).descriptions@.subrange(1, old(self).descriptions@.len() as int)
                &&& final(self).artifacts@ == artifacts_besides(old(self).artifacts@, d)
                &&& forall|i: int| 0 <= i < final(self).descriptions@.len()
                    ==> rank(d.lower) < rank(#[trigger] final(self).descriptions@[i].lower)
            },
            final(self).last_lower == old(self).last_lower,
            final(self).descriptions_frontier == old(self).descriptions_frontier,
            final(self).batches_frontier == old(self).batches_frontier,
            final(self).capability == old(self).capability,
    {
        if self.descriptions.len() == 0 {
            return None;
        }
        let d = self.descriptions[0];
        if !d.lower.less_than(&self.batches_frontier) {
            proof {
                assert forall|i: int| 0 <= i < self.descriptions@.len()
                    implies rank(self.batches_frontier) <= rank(#[trigger] self.descriptions@[i].lower) by {
                    if i > 0 {
                        assert(rank(self.descriptions@[0].lower) < rank(self.descriptions@[i].lower));
                    }
                }
            }
            return None;
        }
        let ghost s0 = self.artifacts@;
        let ghost ds0 = self.descriptions@;
        self.descriptions.remove(0);
        let mut mine: Vec<B> = Vec::new();
        let mut rest: Vec<(Description, B)> = Vec::new();
        let ghost mut i: int = 0;
        while self.artifacts.len() > 0
            invariant
                0 <= i <= s0.len(),
                self.artifacts@ == s0.subrange(i, s0.len() as int),
                mine@ == artifacts_for(s0.subrange(0, i), d),
                rest@ == artifacts_besides(s0.subrange(0, i), d),
                self.descriptions@ == ds0.subrange(1, ds0.len() as int),
                self.last_lower == old(self).last_lower,
                self.leader == old(self).leader,
                self.terminated == old(self).terminated,
                self.descriptions_frontier == old(self).descriptions_frontier,
                self.batches_frontier == old(self).batches_frontier,
                self.capability == old(self).capability,
            decreases self.artifacts@.len(),
        {
            let (d2, b) = self.artifacts.remove(0);
            proof {
                assert(s0.subrange(0, i + 1).drop_last() =~= s0.subrange(0, i));
                assert(s0.subrange(0, i + 1).last() == (d2, b));
                i = i + 1;
                assert(self.artifacts@ =~= s0.subrange(i, s0.len() as int));
            }
            if d2 == d {
                mine.push(b);
            } else {
                rest.push((d2, b));
            }
        }
        proof {
            assert(s0.subrange(0, i) =~= s0);
        }
        self.artifacts = rest;
        proof {
            assert forall|k: int| 0 <= k < self.descriptions@.len()
                implies rank(d.lower) < rank(#[trigger] self.descriptions@[k].lower) by {
                assert(self.descriptions@[k] == ds0[k + 1]);
            }
        }
        Some(CommitRequest { description: d, batches: mine })
    }

    /// The outcome of committing over `d`. The capability moves to the
    /// description's upper on success, or to the shard's actual upper on a
    /// conflict; the answer says whether the artifacts must be deleted, which
    /// is so exactly when they were not committed.
    pub fn on_commit_result(&mut self, d: &Description, result: Result<(), Frontier>) -> (delete: bool)
        requires
            old(self).wf(),
            old(self).running(),
        ensures
            final(self).wf(),
            final(self).running(),
            delete == result.is_err(),
            final(self).capability == capability_after_commit(old(self).capability, *d, result),
            final(self).descriptions@ == old(self).descriptions@,
            final(self).artifacts@ == old(self).artifacts@,
            final(self).last_lower == old(self).last_lower,
            final(self).descriptions_frontier == old(self).descriptions_frontier,
            final(self).batches_frontier == old(self).batches_frontier,
    {
        match result {
            Ok(()) => {
                self.capability = self.capability.join(&d.upper);
                false
            }
            Err(actual) => {
                self.capability = self.capability.join(&actual);
                true
            }
        }
    }

    /// Both inputs are exhausted: the appender stops and drops its capability.
    pub fn on_inputs_exhausted(&mut self)
        requires
            old(self).wf(),
            old(self).running(),
        ensures
            final(self).wf(),
            final(self).terminated,
            final(self).capability == Frontier::Empty,
            final(self).descriptions@ == old(self).descriptions@,
            final(self).artifacts@ == old(self).artifacts@,
    {
        self.terminated = true;
        self.capability = Frontier::Empty;
    }
}

/// Handing out the artifacts of a description keeps every artifact exactly
/// once: each is either in the request or still held.
pub proof fn lemma_artifacts_conserved<B>(s: Seq<(Description, B)>, d: Description)
    ensures
        artifacts_for(s, d).len() + artifacts_besides(s, d).len() == s.len(),
        artifacts_for(s, d).to_multiset().add(
            artifacts_besides(s, d).map_values(|x: (Description, B)| x.1).to_multiset(),
        ) == s.map_values(|x: (Description, B)| x.1).to_multiset(),
    decreases s.len(),
{
    if s.len() > 0 {
        let s2 = s.drop_last();
        lemma_artifacts_conserved(s2, d);
        let f = |x: (Description, B)| x.1;
        assert(s.map_values(f) =~= s2.map_values(f).push(s.last().1));
        s2.map_values(f).to_multiset_ensures();
        s.map_values(f).to_multiset_ensures();
        artifacts_for(s2, d).to_multiset_ensures();
        artifacts_besides(s2, d).map_values(f).to_multiset_ensures();
        if s.last().0 == d {
            artifacts_for(s, d).to_multiset_ensures();
            assert(artifacts_for(s, d) == artifacts_for(s2, d).push(s.last().1));
            assert(artifacts_for(s, d).to_multiset() =~= artifacts_for(s2, d).to_multiset().insert(s.last().1));
        } else {
            let r2 = artifacts_besides(s2, d);
            assert(artifacts_besides(s, d).map_values(f) =~= r2.map_values(f).push(s.last().1));
            artifacts_besides(s, d).map_values(f).to_multiset_ensures();
        }
        assert(artifacts_for(s, d).to_multiset().add(artifacts_besides(s, d).map_values(f).to_multiset())
            =~= s.map_values(f).to_multiset());
    } else {
        assert(s.map_values(|x: (Description, B)| x.1) =~= Seq::<B>::empty());
        assert(artifacts_besides(s, d).map_values(|x: (Description, B)| x.1) =~= Seq::<B>::empty());
        Seq::<B>::empty().to_multiset_ensures();
        assert(artifacts_for(s, d).to_multiset().add(
            artifacts_besides(s, d).map_values(|x: (Description, B)| x.1).to_multiset()) =~= Multiset::<B>::empty());
    }
}

} // verus!
