use persist_sink::{
    consolidate, is_leader, Appender, Description, Frontier, Minter, MinterPhase, Update, Writer,
};

/// A shard kept in memory: its updates and its upper.
struct Shard {
    updates: Vec<Update>,
    upper: Frontier,
}

impl Shard {
    fn compare_and_append(&mut self, batches: &[Vec<Update>], expected: Frontier, new: Frontier) -> Result<(), Frontier> {
        if self.upper != expected {
            return Err(self.upper);
        }
        for b in batches {
            self.updates.extend(b.iter().cloned());
        }
        self.upper = new;
        Ok(())
    }

    fn consolidated(&self) -> Vec<Update> {
        let mut v = self.updates.clone();
        consolidate(&mut v);
        v
    }
}

/// One sink on one worker.
struct Sink {
    minter: Minter,
    writer: Writer,
    appender: Appender<Vec<Update>>,
    deleted: usize,
}

impl Sink {
    fn start(as_of: u64, shard: &mut Shard) -> Sink {
        let mut minter = Minter::new(true, Frontier::At(as_of));
        let mut ask = minter.on_shard_upper(shard.upper);
        while let Some(a) = ask {
            let res = shard.compare_and_append(&[], a.expected_upper, a.new_upper);
            ask = minter.on_bootstrap_append(res);
        }
        assert_eq!(minter.phase, MinterPhase::Steady);
        Sink { minter, writer: Writer::new(), appender: Appender::new(true), deleted: 0 }
    }

    /// The desired input reached `desired` and the read-back input `persist`:
    /// runs the three operators until nothing more happens.
    fn run(&mut self, desired: Frontier, persist: Frontier, shard: &mut Shard) -> Vec<Description> {
        let mut minted = Vec::new();
        if let Some(d) = self.minter.on_desired_progress(desired) {
            minted.push(d);
        }
        loop {
            for d in &minted {
                if !self.writer.in_flight.contains(d) && !self.appender.descriptions.contains(d) {
                    let _ = self.writer.on_description(*d);
                    let _ = self.appender.on_description(*d);
                }
            }
            let cap = self.minter.capability;
            let mut written = self.writer.on_persist_progress(persist);
            written.extend(self.writer.on_desired_progress(desired));
            written.extend(self.writer.on_descriptions_progress(cap));
            for b in written {
                self.appender.on_batch(b.description, b.updates);
            }
            // The writer's output frontier: its connected inputs, held back
            // by each in-flight description's lower.
            let mut out = cap.join(&Frontier::At(0));
            if desired.less_than(&out) {
                out = desired;
            }
            for d in &self.writer.in_flight {
                if d.lower.less_than(&out) {
                    out = d.lower;
                }
            }
            self.appender.on_batches_progress(out);
            while let Some(req) = self.appender.next_commit() {
                let res = shard.compare_and_append(&req.batches, req.description.lower, req.description.upper);
                if self.appender.on_commit_result(&req.description, res) {
                    self.deleted += req.batches.len();
                }
            }
            match self.minter.on_feedback_progress(self.appender.capability) {
                Some(d) => minted.push(d),
                None => break,
            }
        }
        minted
    }
}

#[test]
fn scenario_single_insert() {
    let mut shard = Shard { updates: vec![], upper: Frontier::At(0) };
    let mut sink = Sink::start(0, &mut shard);
    sink.writer.on_desired_data(&vec![(9, 1, 1)]).unwrap();
    let minted = sink.run(Frontier::At(2), Frontier::At(0), &mut shard);
    assert_eq!(minted, vec![Description { lower: Frontier::At(0), upper: Frontier::At(2) }]);
    assert_eq!(shard.upper, Frontier::At(2));
    assert_eq!(shard.updates, vec![(9, 1, 1)]);
    assert_eq!(sink.minter.shared_frontier, Frontier::At(2));
    assert_eq!(sink.deleted, 0);
}

#[test]
fn scenario_insert_then_retract() {
    let mut shard = Shard { updates: vec![], upper: Frontier::At(0) };
    let mut sink = Sink::start(0, &mut shard);
    sink.writer.on_desired_data(&vec![(9, 1, 1)]).unwrap();
    sink.writer.on_desired_data(&vec![(9, 2, -1)]).unwrap();
    let minted = sink.run(Frontier::At(3), Frontier::At(0), &mut shard);
    assert_eq!(minted, vec![Description { lower: Frontier::At(0), upper: Frontier::At(3) }]);
    assert_eq!(shard.updates, vec![(9, 1, 1), (9, 2, -1)]);
    assert_eq!(shard.upper, Frontier::At(3));
}

#[test]
fn scenario_loser_race() {
    let mut shard = Shard { updates: vec![], upper: Frontier::At(0) };
    let mut a = Sink::start(0, &mut shard);
    let mut b = Sink::start(0, &mut shard);
    a.writer.on_desired_data(&vec![(9, 1, 1)]).unwrap();
    b.writer.on_desired_data(&vec![(9, 1, 1)]).unwrap();
    // B mints first, A commits first.
    let db = b.minter.on_desired_progress(Frontier::At(2)).unwrap();
    a.run(Frontier::At(2), Frontier::At(0), &mut shard);
    assert_eq!(shard.upper, Frontier::At(2));
    b.writer.on_description(db).unwrap();
    b.appender.on_description(db).unwrap();
    let mut written = b.writer.on_desired_progress(Frontier::At(2));
    written.extend(b.writer.on_descriptions_progress(b.minter.capability));
    assert_eq!(written.len(), 1);
    for w in written {
        b.appender.on_batch(w.description, w.updates);
    }
    b.appender.on_batches_progress(Frontier::At(1));
    let req = b.appender.next_commit().unwrap();
    let res = shard.compare_and_append(&req.batches, db.lower, db.upper);
    assert_eq!(res, Err(Frontier::At(2)));
    assert!(b.appender.on_commit_result(&req.description, res));
    assert_eq!(b.appender.capability, Frontier::At(2));
    // B reads back what A wrote and re-proposes from A's upper.
    b.writer.on_persist_data(&vec![(9, 1, 1)]).unwrap();
    let minted = b.run(Frontier::At(4), Frontier::At(2), &mut shard);
    assert_eq!(minted[0], Description { lower: Frontier::At(2), upper: Frontier::At(4) });
    assert_eq!(shard.upper, Frontier::At(4));
    assert_eq!(shard.consolidated(), vec![(9, 1, 1)]);
}

#[test]
fn scenario_correcting_read_back() {
    let mut shard = Shard { updates: vec![(9, 1, 1)], upper: Frontier::At(2) };
    let mut sink = Sink::start(0, &mut shard);
    sink.writer.on_persist_data(&vec![(9, 1, 1)]).unwrap();
    let minted = sink.run(Frontier::At(3), Frontier::At(2), &mut shard);
    assert_eq!(minted, vec![Description { lower: Frontier::At(2), upper: Frontier::At(3) }]);
    assert_eq!(shard.updates, vec![(9, 1, 1), (9, 2, -1)]);
    let total: i64 = shard.updates.iter().map(|u| u.2).sum();
    assert_eq!(total, 0);
}

#[test]
fn scenario_no_op_tick() {
    let mut shard = Shard { updates: vec![], upper: Frontier::At(0) };
    let mut sink = Sink::start(0, &mut shard);
    assert!(sink.minter.on_desired_progress(Frontier::At(2)).is_some());
    assert!(sink.minter.on_desired_progress(Frontier::At(5)).is_none());
    assert!(sink.minter.on_desired_progress(Frontier::At(8)).is_none());
}

#[test]
fn scenario_non_leader_silence() {
    let sink_id = 42u64;
    let mut minters = Vec::new();
    let mut appenders: Vec<Appender<u32>> = Vec::new();
    for i in 0..4 {
        let leader = is_leader(sink_id, 4, i);
        let mut m = Minter::new(leader, Frontier::At(0));
        if leader {
            assert_eq!(m.on_shard_upper(Frontier::At(0)), None);
        }
        minters.push(m);
        appenders.push(Appender::new(leader));
    }
    let mut minting = 0;
    for m in minters.iter_mut() {
        if m.on_desired_progress(Frontier::At(2)).is_some() {
            minting += 1;
        }
    }
    assert_eq!(minting, 1);
    assert_eq!(minters.iter().filter(|m| m.shared_frontier == Frontier::Empty).count(), 3);
    assert_eq!(appenders.iter().filter(|a| a.terminated).count(), 3);
}
