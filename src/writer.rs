use vstd::prelude::*;
use crate::correction::{
    lemma_consolidation_total, lemma_total_advance, lemma_total_concat, lemma_total_negate, total,
    net, abs_mass, advance_all, consolidate, diff_magnitude, is_consolidation, lemma_advance_mass,
    lemma_push_drop_last, mass_within, negate_all, window, Update,
};
use crate::frontier::{advance_time, meet_of, rank, sorted_by_lower, Description, Frontier};

verus! {

/// Why a writer refused an input.
#[derive(PartialEq, Eq, Structural, Clone, Copy, Debug)]
pub enum WriterError {
    /// The description's interval is empty (`lower` is not below `upper`).
    EmptyDescription,
    /// The description's `lower` is not above that of every description seen
    /// before.
    DescriptionOutOfOrder,
    /// The absolute mass of the correction buffer would exceed `i64::MAX`, so
    /// its diffs could no longer be summed safely.
    CorrectionOverflow,
}

/// The updates to upload as one batch for a description.
pub struct BatchRequest {
    pub description: Description,
    pub updates: Vec<Update>,
}

/// A description is ready to write when no earlier description can still
/// arrive, all desired updates below its `upper` have been seen, and all
/// persisted updates below its `lower` have been seen.
pub open spec fn is_ready(d: Description, descs: Frontier, desired: Frontier, persist: Frontier) -> bool {
    &&& rank(d.lower) < rank(descs)
    &&& rank(d.upper) <= rank(desired)
    &&& rank(d.lower) <= rank(persist)
}

/// The smallest of `base` and the lowers of the descriptions `s`.
pub open spec fn lowest_lower(s: Seq<Description>, base: Frontier) -> Frontier
    decreases s.len(),
{
    if s.len() == 0 {
        base
    } else {
        meet_of(lowest_lower(s.drop_last(), base), s.last().lower)
    }
}

/// The ready descriptions of `s`, in order.
pub open spec fn ready_of(s: Seq<Description>, descs: Frontier, desired: Frontier, persist: Frontier) -> Seq<Description>
    decreases s.len(),
{
    if s.len() == 0 {
        s
    } else {
        let rest = ready_of(s.drop_last(), descs, desired, persist);
        if is_ready(s.last(), descs, desired, persist) {
            rest.push(s.last())
        } else {
            rest
        }
    }
}

/// The descriptions of `s` that are not ready, in order.
pub open spec fn pending_of(s: Seq<Description>, descs: Frontier, desired: Frontier, persist: Frontier) -> Seq<Description>
    decreases s.len(),
{
    if s.len() == 0 {
        s
    } else {
        let rest = pending_of(s.drop_last(), descs, desired, persist);
        if is_ready(s.last(), descs, desired, persist) {
            rest
        } else {
            rest.push(s.last())
        }
    }
}

/// The batches written for the descriptions `ds` out of the consolidated
/// correction `c`: one per description whose window holds an update, none for
/// an empty window.
pub open spec fn batches_for(ds: Seq<Description>, c: Seq<Update>) -> Seq<(Description, Seq<Update>)>
    decreases ds.len(),
{
    if ds.len() == 0 {
        Seq::empty()
    } else {
        let rest = batches_for(ds.drop_last(), c);
        if window(c, ds.last()).len() > 0 {
            rest.push((ds.last(), window(c, ds.last())))
        } else {
            rest
        }
    }
}

/// The descriptions of a list of batches.
pub open spec fn descriptions_of(b: Seq<(Description, Seq<Update>)>) -> Seq<Description> {
    Seq::new(b.len(), |i: int| b[i].0)
}

/// The requests `r` carry exactly the batches `b`, in order.
pub open spec fn requests_match(r: Seq<BatchRequest>, b: Seq<(Description, Seq<Update>)>) -> bool {
    &&& r.len() == b.len()
    &&& forall|i: int| 0 <= i < r.len() ==> (#[trigger] r[i]).description == b[i].0 && r[i].updates@ == b[i].1
}

proof fn lemma_split(s: Seq<Description>, descs: Frontier, desired: Frontier, persist: Frontier)
    requires
        sorted_by_lower(s),
    ensures
        sorted_by_lower(ready_of(s, descs, desired, persist)),
        sorted_by_lower(pending_of(s, descs, desired, persist)),
        forall|x: Description| #[trigger] ready_of(s, descs, desired, persist).contains(x)
            ==> s.contains(x) && is_ready(x, descs, desired, persist),
        forall|x: Description| #[trigger] pending_of(s, descs, desired, persist).contains(x)
            ==> s.contains(x) && !is_ready(x, descs, desired, persist),
    decreases s.len(),
{
    if s.len() > 0 {
        let s2 = s.drop_last();
        lemma_split(s2, descs, desired, persist);
        let r2 = ready_of(s2, descs, desired, persist);
        let p2 = pending_of(s2, descs, desired, persist);
        assert forall|x: Description| s2.contains(x) implies s.contains(x) by {
            let k = choose|k: int| 0 <= k < s2.len() && s2[k] == x;
            assert(s[k] == x);
        }
        assert forall|x: Description| s2.contains(x) implies rank(x.lower) < rank(s.last().lower) by {
            let k = choose|k: int| 0 <= k < s2.len() && s2[k] == x;
            assert(s[k] == x);
        }
        assert(s.contains(s.last())) by {
            assert(s[s.len() - 1] == s.last());
        }
        if is_ready(s.last(), descs, desired, persist) {
            assert forall|x: Description| r2.push(s.last()).contains(x) implies s.contains(x) && is_ready(x, descs, desired, persist) by {
                if x != s.last() {
                    let k = choose|k: int| 0 <= k < r2.push(s.last()).len() && r2.push(s.last())[k] == x;
                    assert(r2[k] == x);
                    assert(r2.contains(x));
                    assert(s2.contains(x));
                }
            }
            assert forall|i: int, j: int| 0 <= i < j < r2.push(s.last()).len()
                implies rank(r2.push(s.last())[i].lower) < rank(r2.push(s.last())[j].lower) by {
                if j == r2.len() {
                    assert(r2.contains(r2[i]));
                }
            }
        } else {
            assert forall|x: Description| p2.push(s.last()).contains(x) implies s.contains(x) && !is_ready(x, descs, desired, persist) by {
                if x != s.last() {
                    let k = choose|k: int| 0 <= k < p2.push(s.last()).len() && p2.push(s.last())[k] == x;
                    assert(p2[k] == x);
                    assert(p2.contains(x));
                    assert(s2.contains(x));
                }
            }
            assert forall|i: int, j: int| 0 <= i < j < p2.push(s.last()).len()
                implies rank(p2.push(s.last())[i].lower) < rank(p2.push(s.last())[j].lower) by {
                if j == p2.len() {
                    assert(p2.contains(p2[i]));
                }
            }
        }
    }
}

/// One worker's writer: it keeps the correction `desired - persisted` and turns
/// each ready description into at most one batch.
pub struct Writer {
    /// The correction buffer, unconsolidated between writes.
    pub correction: Vec<Update>,
    /// The absolute mass of `correction`.
    pub mass: u64,
    /// Descriptions known but not yet written, by increasing `lower`; each holds
    /// the output capability at its `lower`.
    pub in_flight: Vec<Description>,
    /// The `lower` time of the latest description accepted.
    pub last_lower: Option<u64>,
    pub descriptions_frontier: Frontier,
    pub desired_frontier: Frontier,
    pub persist_frontier: Frontier,
    /// The descriptions of the batches produced so far, in order.
    pub produced: Ghost<Seq<Description>>,
    /// Every desired update taken in so far.
    pub desired_seen: Ghost<Seq<Update>>,
    /// Every persisted update taken in so far.
    pub persisted_seen: Ghost<Seq<Update>>,
}

impl Writer {
    pub open spec fn wf(&self) -> bool {
        &&& self.mass as int == abs_mass(self.correction@)
        &&& self.mass <= i64::MAX
        &&& forall|p: u64| #[trigger] total(self.correction@, p)
            == total(self.desired_seen@, p) - total(self.persisted_seen@, p)
        &&& forall|i: int| 0 <= i < self.in_flight@.len() ==> (#[trigger] self.in_flight@[i]).wf()
        &&& sorted_by_lower(self.in_flight@)
        &&& self.last_lower.is_none() ==> self.in_flight@.len() == 0 && self.produced@.len() == 0
        &&& self.last_lower.is_some() ==> {
            &&& forall|i: int| 0 <= i < self.in_flight@.len()
                ==> rank((#[trigger] self.in_flight@[i]).lower) <= self.last_lower.unwrap()
            &&& forall|k: int| 0 <= k < self.produced@.len()
                ==> rank((#[trigger] self.produced@[k]).lower) <= self.last_lower.unwrap()
        }
        &&& forall|k: int, i: int| 0 <= k < self.produced@.len() && 0 <= i < self.in_flight@.len()
            ==> self.produced@[k] != self.in_flight@[i]
        &&& forall|k: int, l: int| 0 <= k < l < self.produced@.len()
            ==> self.produced@[k] != self.produced@[l]
    }

    /// A writer that has seen nothing: every input frontier at the minimum.
    pub fn new() -> (r: Writer)
        ensures
            r.wf(),
            r.correction@.len() == 0,
            r.in_flight@.len() == 0,
            r.last_lower.is_none(),
            r.descriptions_frontier == Frontier::At(0),
            r.desired_frontier == Frontier::At(0),
            r.persist_frontier == Frontier::At(0),
            r.produced@.len() == 0,
            r.desired_seen@.len() == 0,
            r.persisted_seen@.len() == 0,
    {
        Writer {
            correction: Vec::new(),
            mass: 0,
            in_flight: Vec::new(),
            last_lower: None,
            descriptions_frontier: Frontier::At(0),
            desired_frontier: Frontier::At(0),
            persist_frontier: Frontier::At(0),
            produced: Ghost(Seq::empty()),
            desired_seen: Ghost(Seq::empty()),
            persisted_seen: Ghost(Seq::empty()),
        }
    }

    /// The output frontier: the writer may still emit at the lower of every
    /// in-flight description, and at any time its descriptions and desired
    /// inputs may still bring. The persist input does not hold it back.
    pub fn output_frontier(&self) -> (r: Frontier)
        ensures
            r == lowest_lower(self.in_flight@, meet_of(self.descriptions_frontier, self.desired_frontier)),
    {
        let mut out = self.descriptions_frontier.meet(&self.desired_frontier);
        let mut i: usize = 0;
        while i < self.in_flight.len()
            invariant
                i <= self.in_flight@.len(),
                out == lowest_lower(self.in_flight@.take(i as int), meet_of(self.descriptions_frontier, self.desired_frontier)),
            decreases self.in_flight@.len() - i,
        {
            proof {
                assert(self.in_flight@.take(i as int + 1).drop_last() =~= self.in_flight@.take(i as int));
            }
            out = out.meet(&self.in_flight[i].lower);
            i = i + 1;
        }
        proof {
            assert(self.in_flight@.take(i as int) =~= self.in_flight@);
        }
        out
    }

    /// Takes in a new batch description, which every writer receives.
    pub fn on_description(&mut self, d: Description) -> (r: Result<(), WriterError>)
        requires
            old(self).wf(),
        ensures
            final(self).wf(),
            !d.wf() ==> r == Err::<(), WriterError>(WriterError::EmptyDescription),
            d.wf() && old(self).last_lower.is_some() && rank(d.lower) <= old(self).last_lower.unwrap()
                ==> r == Err::<(), WriterError>(WriterError::DescriptionOutOfOrder),
            r.is_ok() <==> d.wf() && (old(self).last_lower.is_none()
                || old(self).last_lower.unwrap() < rank(d.lower)),
            r.is_ok() ==> final(self).in_flight@ == old(self).in_flight@.push(d)
                && final(self).last_lower == Some(rank(d.lower) as u64),
            r.is_err() ==> final(self).in_flight@ == old(self).in_flight@
                && final(self).last_lower == old(self).last_lower,
            final(self).correction@ == old(self).correction@,
            final(self).descriptions_frontier == old(self).descriptions_frontier,
            final(self).desired_frontier == old(self).desired_frontier,
            final(self).persist_frontier == old(self).persist_frontier,
            final(self).produced@ == old(self).produced@,
            final(self).desired_seen@ == old(self).desired_seen@,
            final(self).persisted_seen@ == old(self).persisted_seen@,
    {
        if !d.lower.less_than(&d.upper) {
            return Err(WriterError::EmptyDescription);
        }
        let lower = match d.lower {
            Frontier::At(t) => t,
            Frontier::Empty => { return Err(WriterError::EmptyDescription); }
        };
        match self.last_lower {
            Some(l) => {
                if lower <= l {
                    return Err(WriterError::DescriptionOutOfOrder);
                }
            }
            None => {}
        }
        self.in_flight.push(d);
        self.last_lower = Some(lower);
        Ok(())
    }

    /// Appends desired updates to the correction, as they are.
    pub fn on_desired_data(&mut self, updates: &Vec<Update>) -> (r: Result<(), WriterError>)
        requires
            old(self).wf(),
        ensures
            final(self).wf(),
            r.is_ok() <==> abs_mass(old(self).correction@) + abs_mass(updates@) <= i64::MAX,
            r.is_err() ==> r == Err::<(), WriterError>(WriterError::CorrectionOverflow)
                && final(self).correction@ == old(self).correction@,
            r.is_ok() ==> final(self).correction@ == old(self).correction@ + updates@,
            r.is_ok() ==> final(self).desired_seen@ == old(self).desired_seen@ + updates@,
            r.is_err() ==> final(self).desired_seen@ == old(self).desired_seen@,
            final(self).persisted_seen@ == old(self).persisted_seen@,
            final(self).in_flight@ == old(self).in_flight@,
            final(self).last_lower == old(self).last_lower,
            final(self).descriptions_frontier == old(self).descriptions_frontier,
            final(self).desired_frontier == old(self).desired_frontier,
            final(self).persist_frontier == old(self).persist_frontier,
            final(self).produced@ == old(self).produced@,
    {
        self.ingest(updates, false)
    }

    /// Appends persisted updates to the correction, with their diffs negated.
    pub fn on_persist_data(&mut self, updates: &Vec<Update>) -> (r: Result<(), WriterError>)
        requires
            old(self).wf(),
        ensures
            final(self).wf(),
            r.is_ok() <==> abs_mass(old(self).correction@) + abs_mass(updates@) <= i64::MAX,
            r.is_err() ==> r == Err::<(), WriterError>(WriterError::CorrectionOverflow)
                && final(self).correction@ == old(self).correction@,
            r.is_ok() ==> final(self).correction@ == old(self).correction@ + negate_all(updates@),
            r.is_ok() ==> final(self).persisted_seen@ == old(self).persisted_seen@ + updates@,
            r.is_err() ==> final(self).persisted_seen@ == old(self).persisted_seen@,
            final(self).desired_seen@ == old(self).desired_seen@,
            final(self).in_flight@ == old(self).in_flight@,
            final(self).last_lower == old(self).last_lower,
            final(self).descriptions_frontier == old(self).descriptions_frontier,
            final(self).desired_frontier == old(self).desired_frontier,
            final(self).persist_frontier == old(self).persist_frontier,
            final(self).produced@ == old(self).produced@,
    {
        self.ingest(updates, true)
    }

    fn ingest(&mut self, updates: &Vec<Update>, negate: bool) -> (r: Result<(), WriterError>)
        requires
            old(self).wf(),
        ensures
            final(self).wf(),
            r.is_ok() <==> abs_mass(old(self).correction@) + abs_mass(updates@) <= i64::MAX,
            r.is_err() ==> r == Err::<(), WriterError>(WriterError::CorrectionOverflow)
                && final(self).correction@ == old(self).correction@,
            r.is_ok() && !negate ==> final(self).correction@ == old(self).correction@ + updates@,
            r.is_ok() && negate ==> final(self).correction@ == old(self).correction@ + negate_all(updates@),
            r.is_ok() && !negate ==> final(self).desired_seen@ == old(self).desired_seen@ + updates@
                && final(self).persisted_seen@ == old(self).persisted_seen@,
            r.is_ok() && negate ==> final(self).persisted_seen@ == old(self).persisted_seen@ + updates@
                && final(self).desired_seen@ == old(self).desired_seen@,
            r.is_err() ==> final(self).desired_seen@ == old(self).desired_seen@
                && final(self).persisted_seen@ == old(self).persisted_seen@,
            final(self).in_flight@ == old(self).in_flight@,
            final(self).last_lower == old(self).last_lower,
            final(self).descriptions_frontier == old(self).descriptions_frontier,
            final(self).desired_frontier == old(self).desired_frontier,
            final(self).persist_frontier == old(self).persist_frontier,
            final(self).produced@ == old(self).produced@,
    {
        let budget: u64 = (i64::MAX as u64) - self.mass;
        match mass_within(updates, budget) {
            None => Err(WriterError::CorrectionOverflow),
            Some(_) => {
                let ghost c0 = self.correction@;
                let ghost u = if negate { negate_all(updates@) } else { updates@ };
                let mut i: usize = 0;
                while i < updates.len()
                    invariant
                        i <= updates@.len(),
                        u.len() == updates@.len(),
                        u == if negate { negate_all(updates@) } else { updates@ },
                        self.correction@ == c0 + u.take(i as int),
                        self.mass as int == abs_mass(self.correction@),
                        abs_mass(self.correction@) == abs_mass(c0) + abs_mass(updates@.take(i as int)),
                        abs_mass(c0) + abs_mass(updates@) <= i64::MAX,
                        self.in_flight@ == old(self).in_flight@,
                        self.last_lower == old(self).last_lower,
                        self.produced@ == old(self).produced@,
                        self.desired_seen@ == old(self).desired_seen@,
                        self.persisted_seen@ == old(self).persisted_seen@,
                        self.descriptions_frontier == old(self).descriptions_frontier,
                        self.desired_frontier == old(self).desired_frontier,
                        self.persist_frontier == old(self).persist_frontier,
                        old(self).wf(),
                        c0 == old(self).correction@,
                    decreases updates@.len() - i,
                {
                    let (d, t, x) = updates[i];
                    let m = diff_magnitude(x);
                    proof {
                        let p = updates@.take(i as int);
                        lemma_push_drop_last(p, updates@[i as int]);
                        assert(updates@.take(i as int + 1) =~= p.push(updates@[i as int]));
                        crate::correction::lemma_prefix_mass(updates@, i as int + 1);
                        crate::correction::lemma_mass_nonnegative(updates@.take(i as int));
                    }
                    let item: Update = if negate { (d, t, -x) } else { (d, t, x) };
                    proof {
                        lemma_push_drop_last(self.correction@, item);
                        assert(c0 + u.take(i as int + 1) =~= (c0 + u.take(i as int)).push(item));
                    }
                    self.correction.push(item);
                    self.mass = self.mass + m;
                    i = i + 1;
                }
                proof {
                    assert(u.take(i as int) =~= u);
                    assert(updates@.take(i as int) =~= updates@);
                }
                if negate {
                    self.persisted_seen = Ghost(self.persisted_seen@ + updates@);
                } else {
                    self.desired_seen = Ghost(self.desired_seen@ + updates@);
                }
                proof {
                    assert forall|k: int| 0 <= k < updates@.len() implies updates@[k].2 > i64::MIN by {
                        crate::correction::lemma_diff_within_mass(updates@, k);
                    }
                    assert forall|p: u64| #[trigger] total(self.correction@, p)
                        == total(self.desired_seen@, p) - total(self.persisted_seen@, p) by {
                        lemma_total_concat(c0, u, p);
                        lemma_total_concat(old(self).desired_seen@, updates@, p);
                        lemma_total_concat(old(self).persisted_seen@, updates@, p);
                        if negate {
                            lemma_total_negate(updates@, p);
                        }
                        assert(total(c0, p) == total(old(self).desired_seen@, p) - total(old(self).persisted_seen@, p));
                    }
                }
                Ok(())
            }
        }
    }
    /// The post-state `self` and the requests `r` are what writing the ready
    /// descriptions makes of correction `c0`, in-flight descriptions `in0` and
    /// produced descriptions `prod0`, under the current input frontiers.
    pub open spec fn written_from(
        &self,
        c0: Seq<Update>,
        in0: Seq<Description>,
        prod0: Seq<Description>,
        r: Seq<BatchRequest>,
    ) -> bool {
        let adv = advance_all(c0, self.persist_frontier);
        let ready = ready_of(in0, self.descriptions_frontier, self.desired_frontier, self.persist_frontier);
        &&& if ready.len() > 0 {
            is_consolidation(self.correction@, adv)
        } else {
            self.correction@ == adv
        }
        &&& self.in_flight@ == pending_of(in0, self.descriptions_frontier, self.desired_frontier, self.persist_frontier)
        &&& requests_match(r, batches_for(ready, self.correction@))
        &&& self.produced@ == prod0 + descriptions_of(batches_for(ready, self.correction@))
    }

    /// The descriptions frontier advanced to `f`: writes what became ready.
    pub fn on_descriptions_progress(&mut self, f: Frontier) -> (r: Vec<BatchRequest>)
        requires
            old(self).wf(),
        ensures
            final(self).wf(),
            final(self).descriptions_frontier == f,
            final(self).desired_frontier == old(self).desired_frontier,
            final(self).persist_frontier == old(self).persist_frontier,
            final(self).last_lower == old(self).last_lower,
            final(self).written_from(old(self).correction@, old(self).in_flight@, old(self).produced@, r@),
            final(self).desired_seen@ == old(self).desired_seen@,
            final(self).persisted_seen@ == old(self).persisted_seen@,
    {
        self.descriptions_frontier = f;
        self.write_ready()
    }

    /// The desired frontier advanced to `f`: writes what became ready.
    pub fn on_desired_progress(&mut self, f: Frontier) -> (r: Vec<BatchRequest>)
        requires
            old(self).wf(),
        ensures
            final(self).wf(),
            final(self).descriptions_frontier == old(self).descriptions_frontier,
            final(self).desired_frontier == f,
            final(self).persist_frontier == old(self).persist_frontier,
            final(self).last_lower == old(self).last_lower,
            final(self).written_from(old(self).correction@, old(self).in_flight@, old(self).produced@, r@),
            final(self).desired_seen@ == old(self).desired_seen@,
            final(self).persisted_seen@ == old(self).persisted_seen@,
    {
        self.desired_frontier = f;
        self.write_ready()
    }

    /// The persist frontier advanced to `f`: writes what became ready.
    pub fn on_persist_progress(&mut self, f: Frontier) -> (r: Vec<BatchRequest>)
        requires
            old(self).wf(),
        ensures
            final(self).wf(),
            final(self).descriptions_frontier == old(self).descriptions_frontier,
            final(self).desired_frontier == old(self).desired_frontier,
            final(self).persist_frontier == f,
            final(self).last_lower == old(self).last_lower,
            final(self).written_from(old(self).correction@, old(self).in_flight@, old(self).produced@, r@),
            final(self).desired_seen@ == old(self).desired_seen@,
            final(self).persisted_seen@ == old(self).persisted_seen@,
    {
        self.persist_frontier = f;
        self.write_ready()
    }

    /// Advances the correction's times by the persist frontier and, when some
    /// description is ready, consolidates and writes each ready description.
    fn write_ready(&mut self) -> (r: Vec<BatchRequest>)
        requires
            old(self).wf(),
        ensures
            final(self).wf(),
            final(self).descriptions_frontier == old(self).descriptions_frontier,
            final(self).desired_frontier == old(self).desired_frontier,
            final(self).persist_frontier == old(self).persist_frontier,
            final(self).last_lower == old(self).last_lower,
            final(self).written_from(old(self).correction@, old(self).in_flight@, old(self).produced@, r@),
            final(self).desired_seen@ == old(self).desired_seen@,
            final(self).persisted_seen@ == old(self).persisted_seen@,
    {
        let ghost c0 = self.correction@;
        let ghost in0 = self.in_flight@;
        let ghost prod0 = self.produced@;
        let pf = self.persist_frontier;
        let descs = self.descriptions_frontier;
        let desired = self.desired_frontier;
        let ghost adv = advance_all(c0, pf);
        let mut i: usize = 0;
        while i < self.correction.len()
            invariant
                self.correction@.len() == c0.len(),
                i <= c0.len(),
                forall|j: int| 0 <= j < i ==> self.correction@[j] == adv[j],
                forall|j: int| i <= j < c0.len() ==> self.correction@[j] == c0[j],
                adv == advance_all(c0, pf),
                self.in_flight@ == in0,
                self.produced@ == prod0,
                self.desired_seen@ == old(self).desired_seen@,
                self.persisted_seen@ == old(self).persisted_seen@,
                self.mass == old(self).mass,
                self.last_lower == old(self).last_lower,
                self.descriptions_frontier == descs,
                self.desired_frontier == desired,
                self.persist_frontier == pf,
            decreases c0.len() - i,
        {
            let (d, t, x) = self.correction[i];
            let t2 = advance_time(t, &pf);
            self.correction.set(i, (d, t2, x));
            i = i + 1;
        }
        proof {
            assert(self.correction@ =~= adv);
            lemma_advance_mass(c0, pf);
        }
        let mut ready: Vec<Description> = Vec::new();
        let mut pending: Vec<Description> = Vec::new();
        let mut k: usize = 0;
        while k < self.in_flight.len()
            invariant
                self.in_flight@ == in0,
                self.produced@ == prod0,
                self.desired_seen@ == old(self).desired_seen@,
                self.persisted_seen@ == old(self).persisted_seen@,
                k <= in0.len(),
                ready@ == ready_of(in0.take(k as int), descs, desired, pf),
                pending@ == pending_of(in0.take(k as int), descs, desired, pf),
            decreases in0.len() - k,
        {
            let d = self.in_flight[k];
            proof {
                assert(in0.take(k as int + 1).drop_last() =~= in0.take(k as int));
                assert(in0.take(k as int + 1).last() == d);
            }
            if d.lower.less_than(&descs) && !desired.less_than(&d.upper) && !pf.less_than(&d.lower) {
                ready.push(d);
            } else {
                pending.push(d);
            }
            k = k + 1;
        }
        proof {
            assert(in0.take(k as int) =~= in0);
        }
        if ready.len() > 0 {
            consolidate(&mut self.correction);
            match mass_within(&self.correction, i64::MAX as u64) {
                Some(m) => {
                    self.mass = m;
                }
                None => {}
            }
        }
        self.in_flight = pending;
        let ghost c1 = self.correction@;
        let ghost m1 = self.mass;
        let mut out: Vec<BatchRequest> = Vec::new();
        let mut j: usize = 0;
        proof {
            assert(ready@.take(0) =~= Seq::<Description>::empty());
            assert(descriptions_of(batches_for(ready@.take(0), c1)) =~= Seq::<Description>::empty());
            assert(prod0 + Seq::<Description>::empty() =~= prod0);
        }
        while j < ready.len()
            invariant
                j <= ready@.len(),
                self.correction@ == c1,
                self.mass == m1,
                self.desired_seen@ == old(self).desired_seen@,
                self.persisted_seen@ == old(self).persisted_seen@,
                self.in_flight@ == pending@,
                self.last_lower == old(self).last_lower,
                self.descriptions_frontier == descs,
                self.desired_frontier == desired,
                self.persist_frontier == pf,
                requests_match(out@, batches_for(ready@.take(j as int), self.correction@)),
                self.produced@ == prod0 + descriptions_of(batches_for(ready@.take(j as int), self.correction@)),
            decreases ready@.len() - j,
        {
            let d = ready[j];
            let upd = window_updates(&self.correction, &d);
            let ghost before = batches_for(ready@.take(j as int), self.correction@);
            proof {
                assert(ready@.take(j as int + 1).drop_last() =~= ready@.take(j as int));
                assert(ready@.take(j as int + 1).last() == d);
            }
            if upd.len() > 0 {
                self.produced = Ghost(self.produced@.push(d));
                let ghost out0 = out@;
                let ghost u = upd@;
                out.push(BatchRequest { description: d, updates: upd });
                proof {
                    assert(batches_for(ready@.take(j as int + 1), c1) == before.push((d, u)));
                    assert forall|i: int| 0 <= i < out@.len() implies (#[trigger] out@[i]).description == before.push((d, u))[i].0
                        && out@[i].updates@ == before.push((d, u))[i].1 by {
                        if i < out0.len() {
                            assert(out@[i] == out0[i]);
                            assert(out0[i].updates@ == before[i].1);
                        } else {
                            assert(out@[i].updates@ == u);
                        }
                    }
                    assert(requests_match(out@, before.push((d, u))));
                    assert(descriptions_of(before.push((d, upd@))) =~= descriptions_of(before).push(d));
                    assert(self.produced@ =~= prod0 + descriptions_of(batches_for(ready@.take(j as int + 1), self.correction@)));
                }
            } else {
                assert(batches_for(ready@.take(j as int + 1), c1) == before);
            }
            j = j + 1;
        }
        proof {
            assert(ready@.take(j as int) =~= ready@);
            lemma_split(in0, descs, desired, pf);
            lemma_batches_for(ready@, self.correction@);
            lemma_written_wf(prod0, in0, old(self).last_lower, descs, desired, pf,
                descriptions_of(batches_for(ready@, self.correction@)));
            assert forall|p: u64| #[trigger] total(self.correction@, p)
                == total(self.desired_seen@, p) - total(self.persisted_seen@, p) by {
                lemma_total_advance(c0, pf, p);
                if ready@.len() > 0 {
                    lemma_consolidation_total(c1, adv, p);
                }
                assert(total(c0, p) == total(old(self).desired_seen@, p) - total(old(self).persisted_seen@, p));
            }
        }
        out
    }
}

/// The updates of `c` that fall in the window of `d`, in order.
fn window_updates(c: &Vec<Update>, d: &Description) -> (r: Vec<Update>)
    ensures
        r@ == window(c@, *d),
{
    let mut out: Vec<Update> = Vec::new();
    let mut i: usize = 0;
    while i < c.len()
        invariant
            i <= c@.len(),
            out@ == window(c@.take(i as int), *d),
        decreases c@.len() - i,
    {
        proof {
            assert(c@.take(i as int + 1).drop_last() =~= c@.take(i as int));
            assert(c@.take(i as int + 1).last() == c@[i as int]);
        }
        if d.contains_time(c[i].1) {
            out.push(c[i]);
        }
        i = i + 1;
    }
    proof {
        assert(c@.take(i as int) =~= c@);
    }
    out
}

proof fn lemma_batches_for(ds: Seq<Description>, c: Seq<Update>)
    requires
        sorted_by_lower(ds),
    ensures
        sorted_by_lower(descriptions_of(batches_for(ds, c))),
        forall|x: Description| #[trigger] descriptions_of(batches_for(ds, c)).contains(x) ==> ds.contains(x),
    decreases ds.len(),
{
    if ds.len() > 0 {
        let d2 = ds.drop_last();
        lemma_batches_for(d2, c);
        let b2 = batches_for(d2, c);
        let e2 = descriptions_of(b2);
        assert forall|x: Description| d2.contains(x) implies ds.contains(x) && rank(x.lower) < rank(ds.last().lower) by {
            let k = choose|k: int| 0 <= k < d2.len() && d2[k] == x;
            assert(ds[k] == x);
        }
        assert(ds.contains(ds.last())) by {
            assert(ds[ds.len() - 1] == ds.last());
        }
        if window(c, ds.last()).len() > 0 {
            let e = descriptions_of(b2.push((ds.last(), window(c, ds.last()))));
            assert(e =~= e2.push(ds.last()));
            assert forall|x: Description| e.contains(x) implies ds.contains(x) by {
                if x != ds.last() {
                    let k = choose|k: int| 0 <= k < e.len() && e[k] == x;
                    assert(e2[k] == x);
                    assert(e2.contains(x));
                }
            }
            assert forall|i: int, j: int| 0 <= i < j < e.len() implies rank(e[i].lower) < rank(e[j].lower) by {
                if j == e2.len() {
                    assert(e2.contains(e2[i]));
                }
            }
        }
    }
}

proof fn lemma_written_wf(
    prod0: Seq<Description>,
    in0: Seq<Description>,
    last_lower: Option<u64>,
    descs: Frontier,
    desired: Frontier,
    persist: Frontier,
    new_produced: Seq<Description>,
)
    requires
        forall|i: int| 0 <= i < in0.len() ==> (#[trigger] in0[i]).wf(),
        sorted_by_lower(in0),
        last_lower.is_none() ==> in0.len() == 0 && prod0.len() == 0,
        last_lower.is_some() ==> {
            &&& forall|i: int| 0 <= i < in0.len() ==> rank((#[trigger] in0[i]).lower) <= last_lower.unwrap()
            &&& forall|k: int| 0 <= k < prod0.len() ==> rank((#[trigger] prod0[k]).lower) <= last_lower.unwrap()
        },
        forall|k: int, i: int| 0 <= k < prod0.len() && 0 <= i < in0.len() ==> prod0[k] != in0[i],
        forall|k: int, l: int| 0 <= k < l < prod0.len() ==> prod0[k] != prod0[l],
        sorted_by_lower(new_produced),
        forall|x: Description| #[trigger] new_produced.contains(x)
            ==> ready_of(in0, descs, desired, persist).contains(x),
        forall|x: Description| #[trigger] ready_of(in0, descs, desired, persist).contains(x)
            ==> in0.contains(x) && is_ready(x, descs, desired, persist),
        forall|x: Description| #[trigger] pending_of(in0, descs, desired, persist).contains(x)
            ==> in0.contains(x) && !is_ready(x, descs, desired, persist),
        sorted_by_lower(pending_of(in0, descs, desired, persist)),
    ensures
        ({
            let p = pending_of(in0, descs, desired, persist);
            let q = prod0 + new_produced;
            &&& forall|i: int| 0 <= i < p.len() ==> (#[trigger] p[i]).wf()
            &&& sorted_by_lower(p)
            &&& last_lower.is_none() ==> p.len() == 0 && q.len() == 0
            &&& last_lower.is_some() ==> {
                &&& forall|i: int| 0 <= i < p.len() ==> rank((#[trigger] p[i]).lower) <= last_lower.unwrap()
                &&& forall|k: int| 0 <= k < q.len() ==> rank((#[trigger] q[k]).lower) <= last_lower.unwrap()
            }
            &&& forall|k: int, i: int| 0 <= k < q.len() && 0 <= i < p.len() ==> q[k] != p[i]
            &&& forall|k: int, l: int| 0 <= k < l < q.len() ==> q[k] != q[l]
        }),
{
    let p = pending_of(in0, descs, desired, persist);
    let q = prod0 + new_produced;
    let n = prod0.len();
    assert forall|x: Description| #[trigger] p.contains(x) implies exists|i: int| 0 <= i < in0.len() && in0[i] == x by {
        assert(in0.contains(x));
    }
    assert forall|m: int| 0 <= m < new_produced.len() implies in0.contains(#[trigger] new_produced[m])
        && is_ready(new_produced[m], descs, desired, persist) by {
        assert(new_produced.contains(new_produced[m]));
    }
    assert forall|i: int| 0 <= i < p.len() implies (#[trigger] p[i]).wf() by {
        assert(p.contains(p[i]));
    }
    if last_lower.is_none() {
        assert(p.len() == 0) by {
            if p.len() > 0 {
                assert(p.contains(p[0]));
            }
        }
        assert(new_produced.len() == 0) by {
            if new_produced.len() > 0 {
                assert(in0.contains(new_produced[0]));
            }
        }
    } else {
        assert forall|i: int| 0 <= i < p.len() implies rank((#[trigger] p[i]).lower) <= last_lower.unwrap() by {
            assert(p.contains(p[i]));
        }
        assert forall|k: int| 0 <= k < q.len() implies rank((#[trigger] q[k]).lower) <= last_lower.unwrap() by {
            if k >= n {
                assert(q[k] == new_produced[k - n]);
                assert(in0.contains(new_produced[k - n]));
            }
        }
    }
    assert forall|k: int, i: int| 0 <= k < q.len() && 0 <= i < p.len() implies q[k] != p[i] by {
        assert(p.contains(p[i]));
        if k >= n {
            assert(q[k] == new_produced[k - n]);
        }
    }
    assert forall|k: int, l: int| 0 <= k < l < q.len() implies q[k] != q[l] by {
        if l >= n {
            assert(q[l] == new_produced[l - n]);
            assert(in0.contains(new_produced[l - n]));
            if k >= n {
                assert(q[k] == new_produced[k - n]);
            }
        }
    }
}

/// A writer produces at most one batch for each description: the
/// descriptions of the batches it has produced are pairwise distinct.
pub proof fn lemma_at_most_one_batch_per_description(w: &Writer, k: int, l: int)
    requires
        w.wf(),
        0 <= k < l < w.produced@.len(),
    ensures
        w.produced@[k] != w.produced@[l],
{
}

/// Every batch written for the descriptions `ds` carries the non-empty window
/// of its description, so a description with an empty window yields no batch.
pub proof fn lemma_batches_are_nonempty_windows(ds: Seq<Description>, c: Seq<Update>, d: Description)
    ensures
        window(c, d).len() == 0 ==> !descriptions_of(batches_for(ds, c)).contains(d),
        forall|i: int| 0 <= i < batches_for(ds, c).len() ==> {
            &&& (#[trigger] batches_for(ds, c)[i]).1 == window(c, batches_for(ds, c)[i].0)
            &&& batches_for(ds, c)[i].1.len() > 0
        },
    decreases ds.len(),
{
    if ds.len() > 0 {
        lemma_batches_are_nonempty_windows(ds.drop_last(), c, d);
        let b2 = batches_for(ds.drop_last(), c);
        if window(c, ds.last()).len() > 0 {
            let b = b2.push((ds.last(), window(c, ds.last())));
            assert(descriptions_of(b) =~= descriptions_of(b2).push(ds.last()));
            if window(c, d).len() == 0 && descriptions_of(b).contains(d) {
                let k = choose|k: int| 0 <= k < descriptions_of(b).len() && descriptions_of(b)[k] == d;
                if k < b2.len() {
                    assert(descriptions_of(b2)[k] == d);
                    assert(descriptions_of(b2).contains(d));
                }
            }
        }
    }
}

proof fn lemma_window_members(s: Seq<Update>, d: Description, x: Update)
    requires
        window(s, d).contains(x),
    ensures
        s.contains(x),
        d.holds_time(x.1),
    decreases s.len(),
{
    if s.len() > 0 {
        let s2 = s.drop_last();
        let w2 = window(s2, d);
        if x != s.last() || !d.holds_time(s.last().1) {
            let w = window(s, d);
            let k = choose|k: int| 0 <= k < w.len() && w[k] == x;
            if d.holds_time(s.last().1) {
                assert(k < w2.len());
                assert(w2[k] == x);
            }
            assert(w2.contains(x));
            lemma_window_members(s2, d, x);
            let j = choose|j: int| 0 <= j < s2.len() && s2[j] == x;
            assert(s[j] == x);
        } else {
            assert(s[s.len() - 1] == x);
        }
    }
}

proof fn lemma_net_of_distinct(c: Seq<Update>, i: int)
    requires
        0 <= i < c.len(),
        forall|a: int, b: int| 0 <= a < b < c.len() ==> crate::correction::key_lt(c[a], c[b]),
    ensures
        net(c, c[i].0, c[i].1) == c[i].2 as int,
    decreases c.len(),
{
    let c2 = c.drop_last();
    if i < c.len() - 1 {
        lemma_net_of_distinct(c2, i);
        assert(crate::correction::key_lt(c[i], c[c.len() - 1]));
    } else {
        assert forall|a: int| 0 <= a < c2.len() implies !(c2[a].0 == c[i].0 && c2[a].1 == c[i].1) by {
            assert(crate::correction::key_lt(c[a], c[i]));
        }
        crate::correction::lemma_net_absent(c2, c[i].0, c[i].1);
    }
}

/// After consolidation, a description whose window holds only updates that
/// cancel out (a zero net multiplicity at every payload and time in it) gets
/// no batch.
pub proof fn lemma_cancelled_window_yields_no_batch(
    c: Seq<Update>,
    s: Seq<Update>,
    ds: Seq<Description>,
    d: Description,
)
    requires
        is_consolidation(c, s),
        forall|p: u64, t: u64| d.holds_time(t) ==> #[trigger] net(s, p, t) == 0,
    ensures
        window(c, d).len() == 0,
        !descriptions_of(batches_for(ds, c)).contains(d),
{
    if window(c, d).len() > 0 {
        let x = window(c, d)[0];
        assert(window(c, d).contains(x));
        lemma_window_members(c, d, x);
        let i = choose|i: int| 0 <= i < c.len() && c[i] == x;
        lemma_net_of_distinct(c, i);
        assert(net(s, x.0, x.1) == 0);
    }
    lemma_batches_are_nonempty_windows(ds, c, d);
}

/// A description whose window holds no update of the correction at all gets
/// no batch once the correction is consolidated.
pub proof fn lemma_empty_window_yields_no_batch(
    c: Seq<Update>,
    s: Seq<Update>,
    ds: Seq<Description>,
    d: Description,
)
    requires
        is_consolidation(c, s),
        window(s, d).len() == 0,
    ensures
        !descriptions_of(batches_for(ds, c)).contains(d),
{
    assert forall|p: u64, t: u64| d.holds_time(t) implies #[trigger] net(s, p, t) == 0 by {
        lemma_net_outside_window(s, d, p, t);
    }
    lemma_cancelled_window_yields_no_batch(c, s, ds, d);
}

proof fn lemma_net_outside_window(s: Seq<Update>, d: Description, p: u64, t: u64)
    requires
        window(s, d).len() == 0,
        d.holds_time(t),
    ensures
        net(s, p, t) == 0,
    decreases s.len(),
{
    if s.len() > 0 {
        let w2 = window(s.drop_last(), d);
        if d.holds_time(s.last().1) {
            assert(w2.push(s.last()).len() > 0);
        }
        lemma_net_outside_window(s.drop_last(), d, p, t);
    }
}

proof fn lemma_net_concat(a: Seq<Update>, b: Seq<Update>, p: u64, t: u64)
    ensures
        net(a + b, p, t) == net(a, p, t) + net(b, p, t),
    decreases b.len(),
{
    if b.len() > 0 {
        assert((a + b).drop_last() =~= a + b.drop_last());
        lemma_net_concat(a, b.drop_last(), p, t);
    } else {
        assert(a + b =~= a);
    }
}

proof fn lemma_net_negate(s: Seq<Update>, p: u64, t: u64)
    requires
        forall|i: int| 0 <= i < s.len() ==> s[i].2 > i64::MIN,
    ensures
        net(negate_all(s), p, t) == -net(s, p, t),
    decreases s.len(),
{
    if s.len() > 0 {
        assert(negate_all(s).drop_last() =~= negate_all(s.drop_last()));
        lemma_net_negate(s.drop_last(), p, t);
    }
}

proof fn lemma_net_window(c: Seq<Update>, d: Description, p: u64, t: u64)
    requires
        d.holds_time(t),
    ensures
        net(window(c, d), p, t) == net(c, p, t),
    decreases c.len(),
{
    if c.len() > 0 {
        lemma_net_window(c.drop_last(), d, p, t);
        lemma_push_drop_last(window(c.drop_last(), d), c.last());
    }
}

/// One round of correction: with `c` the consolidated difference between the
/// desired updates and the persisted ones, committing the window of `c` for
/// description `d` on top of the persisted updates gives, at every payload and
/// time in the window, exactly the desired net multiplicity.
pub proof fn lemma_window_commit_matches_desired(
    desired: Seq<Update>,
    persisted: Seq<Update>,
    c: Seq<Update>,
    d: Description,
    p: u64,
    t: u64,
)
    requires
        forall|i: int| 0 <= i < persisted.len() ==> persisted[i].2 > i64::MIN,
        is_consolidation(c, desired + negate_all(persisted)),
        d.holds_time(t),
    ensures
        net(persisted + window(c, d), p, t) == net(desired, p, t),
{
    lemma_net_concat(persisted, window(c, d), p, t);
    lemma_net_window(c, d, p, t);
    lemma_net_concat(desired, negate_all(persisted), p, t);
    lemma_net_negate(persisted, p, t);
}

/// The correction accounts for every input: for each payload, its net
/// multiplicity over all times is what was desired minus what was read back
/// from the shard. Advancing times and consolidating never change it.
pub proof fn lemma_correction_is_desired_minus_persisted(w: &Writer, p: u64)
    requires
        w.wf(),
    ensures
        total(w.correction@, p) == total(w.desired_seen@, p) - total(w.persisted_seen@, p),
{
}

} // verus!
