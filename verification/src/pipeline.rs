//! The full measurement run for one circuit, as a state machine: a warm-up
//! compile, the circuit size, then `repeats` rounds of one witness and one
//! prove measurement, strictly one after the other; then the report, built
//! from the medians of the kept samples (the first, cold round is dropped
//! when there is more than one).
use vstd::prelude::*;
use crate::measure::{Sample, median, median_of};
use crate::tools::Versions;

verus! {

/// The proving scheme pinned for the measurements.
pub const BACKEND: &'static str = "ultra_honk";

/// Everything the report needs after a run. Time and memory values are the
/// medians over the kept samples.
pub struct Outcome {
    pub circuit: String,
    pub backend: &'static str,
    pub constraints: u64,
    pub acir_opcodes: u64,
    pub witness: Sample,
    pub prove: Sample,
    pub repeats: usize,
    pub samples_used: usize,
    pub nargo_version: String,
    pub bb_version: String,
}

/// The wall-clock times of the samples.
pub open spec fn times_of(samples: Seq<Sample>) -> Seq<u64> {
    samples.map_values(|s: Sample| s.time_ms)
}

/// The peak memory figures of the samples.
pub open spec fn peaks_of(samples: Seq<Sample>) -> Seq<u64> {
    samples.map_values(|s: Sample| s.peak_kb)
}

/// Reduces a non-empty set of samples to per-metric medians.
pub fn reduce(samples: &[Sample]) -> (r: Sample)
    requires
        samples@.len() > 0,
    ensures
        r.time_ms == median_of(times_of(samples@)),
        r.peak_kb == median_of(peaks_of(samples@)),
{
    let mut times: Vec<u64> = Vec::new();
    let mut mems: Vec<u64> = Vec::new();
    let mut i: usize = 0;
    while i < samples.len()
        invariant
            i <= samples@.len(),
            times@ == times_of(samples@.take(i as int)),
            mems@ == peaks_of(samples@.take(i as int)),
        decreases samples@.len() - i,
    {
        let s = samples[i];
        times.push(s.time_ms);
        mems.push(s.peak_kb);
        proof {
            assert(samples@.take(i + 1) == samples@.take(i as int).push(s));
            assert(times_of(samples@.take(i + 1)) == times_of(samples@.take(i as int)).push(
                s.time_ms,
            ));
            assert(peaks_of(samples@.take(i + 1)) == peaks_of(samples@.take(i as int)).push(
                s.peak_kb,
            ));
        }
        i = i + 1;
    }
    assert(samples@.take(samples@.len() as int) == samples@);
    Sample { time_ms: median(times.as_slice()), peak_kb: median(mems.as_slice()) }
}

/// Why a run cannot start.
#[derive(Debug, Clone, Copy, PartialEq, Eq)]
pub enum PipelineError {
    /// `--repeats` was 0: at least one measurement round is needed.
    ZeroRepeats,
}

/// The next piece of outside work the run asks for.
#[derive(Debug, Clone, Copy, PartialEq, Eq)]
pub enum Action {
    /// Warm-up compile (not measured).
    Compile,
    /// Read the circuit size (gates and ACIR opcodes), once.
    ReadGates,
    /// Measure witness generation, round `run` (counted from 1).
    MeasureWitness { run: usize },
    /// Measure proof generation, round `run` (counted from 1).
    MeasureProve { run: usize },
    /// All measurements are in: build the report.
    Report,
}

/// What the outside work brought back.
#[derive(Debug, Clone, Copy)]
pub enum Event {
    Compiled,
    Gates { constraints: u64, acir_opcodes: u64 },
    Witness(Sample),
    Prove(Sample),
}

/// The state of a run, as a mathematical value.
pub struct Progress {
    pub repeats: nat,
    pub compiled: bool,
    pub gates: Option<(u64, u64)>,
    pub witness: Seq<Sample>,
    pub prove: Seq<Sample>,
}

impl Progress {
    /// A fresh run of `repeats` rounds.
    pub open spec fn start(repeats: nat) -> Progress {
        Progress {
            repeats,
            compiled: false,
            gates: None,
            witness: Seq::empty(),
            prove: Seq::empty(),
        }
    }

    /// The states a run passes through: at least one round; nothing
    /// measured before the compile and the circuit size; each prove sample
    /// follows the witness sample of its round; at most `repeats` rounds.
    pub open spec fn wf(self) -> bool {
        &&& 1 <= self.repeats <= usize::MAX
        &&& !self.compiled ==> self.gates is None
        &&& self.gates is None ==> self.witness.len() == 0
        &&& self.prove.len() <= self.witness.len() <= self.prove.len() + 1
        &&& self.witness.len() <= self.repeats
    }

    /// What the run asks for next.
    pub open spec fn next_action(self) -> Action {
        if !self.compiled {
            Action::Compile
        } else if self.gates is None {
            Action::ReadGates
        } else if self.witness.len() > self.prove.len() {
            Action::MeasureProve { run: self.witness.len() as usize }
        } else if self.witness.len() < self.repeats {
            Action::MeasureWitness { run: (self.witness.len() + 1) as usize }
        } else {
            Action::Report
        }
    }

    /// `e` answers the action the run asked for.
    pub open spec fn accepts(self, e: Event) -> bool {
        match (self.next_action(), e) {
            (Action::Compile, Event::Compiled) => true,
            (Action::ReadGates, Event::Gates { .. }) => true,
            (Action::MeasureWitness { .. }, Event::Witness(_)) => true,
            (Action::MeasureProve { .. }, Event::Prove(_)) => true,
            _ => false,
        }
    }

    /// The state after `e` is recorded.
    pub open spec fn after(self, e: Event) -> Progress {
        match e {
            Event::Compiled => Progress { compiled: true, ..self },
            Event::Gates { constraints, acir_opcodes } => Progress {
                gates: Some((constraints, acir_opcodes)),
                ..self
            },
            Event::Witness(s) => Progress { witness: self.witness.push(s), ..self },
            Event::Prove(s) => Progress { prove: self.prove.push(s), ..self },
        }
    }

    /// How many first rounds the report leaves out: the cold first round,
    /// when there is more than one.
    pub open spec fn dropped(self) -> nat {
        if self.repeats > 1 {
            1
        } else {
            0
        }
    }
}

/// Recording keeps what was brought back as it is: the circuit size as
/// `(constraints, acir_opcodes)`, a witness sample at the end of the witness
/// samples, a prove sample at the end of the prove samples; nothing else
/// changes.
pub proof fn lemma_record_effects(p: Progress, c: u64, a: u64, s: Sample)
    ensures
        p.after(Event::Compiled).compiled,
        p.after(Event::Gates { constraints: c, acir_opcodes: a }).gates == Some((c, a)),
        p.after(Event::Gates { constraints: c, acir_opcodes: a }).witness == p.witness,
        p.after(Event::Witness(s)).witness == p.witness.push(s),
        p.after(Event::Witness(s)).prove == p.prove,
        p.after(Event::Witness(s)).gates == p.gates,
        p.after(Event::Prove(s)).prove == p.prove.push(s),
        p.after(Event::Prove(s)).witness == p.witness,
        p.after(Event::Prove(s)).gates == p.gates,
{
}

/// The wall-clock times and peak memory figures are taken sample by sample,
/// in order.
pub proof fn lemma_times_and_peaks(samples: Seq<Sample>)
    ensures
        times_of(samples).len() == samples.len(),
        peaks_of(samples).len() == samples.len(),
        forall|i: int|
            0 <= i < samples.len() ==> #[trigger] times_of(samples)[i] == samples[i].time_ms
                && peaks_of(samples)[i] == samples[i].peak_kb,
{
}

/// When the report is due, every round has both samples, and the report
/// leaves out exactly the first round when there are two or more, none when
/// there is one.
pub proof fn lemma_report_drops_cold_round(p: Progress)
    requires
        p.wf(),
        p.next_action() == Action::Report,
    ensures
        p.witness.len() == p.repeats,
        p.prove.len() == p.repeats,
        p.repeats >= 2 ==> p.dropped() == 1,
        p.repeats == 1 ==> p.dropped() == 0,
{
}

/// The state after replaying `events` from `p`, each answering the action
/// asked for; `None` when one does not.
pub open spec fn replay(p: Progress, events: Seq<Event>) -> Option<Progress>
    decreases events.len(),
{
    if events.len() == 0 {
        Some(p)
    } else {
        match replay(p, events.drop_last()) {
            None => None,
            Some(q) => if q.accepts(events.last()) {
                Some(q.after(events.last()))
            } else {
                None
            },
        }
    }
}

/// The action asked for after `k` answered ones in a run of `repeats`
/// rounds: compile, circuit size, then witness 1, prove 1, witness 2,
/// prove 2, ..., then the report.
pub open spec fn schedule(repeats: nat, k: nat) -> Action {
    if k == 0 {
        Action::Compile
    } else if k == 1 {
        Action::ReadGates
    } else if k < 2 + 2 * repeats {
        if (k - 2) % 2 == 0 {
            Action::MeasureWitness { run: ((k - 2) / 2 + 1) as usize }
        } else {
            Action::MeasureProve { run: ((k - 2) / 2 + 1) as usize }
        }
    } else {
        Action::Report
    }
}

/// Each answered action keeps the run's state well formed.
pub proof fn lemma_step_keeps_wf(p: Progress, e: Event)
    requires
        p.wf(),
        p.accepts(e),
    ensures
        p.after(e).wf(),
{
}

/// The shape of the state after `k` answered actions.
spec fn shaped(q: Progress, repeats: nat, k: nat) -> bool {
    &&& q.repeats == repeats
    &&& q.compiled == (k >= 1)
    &&& (q.gates is Some) == (k >= 2)
    &&& k >= 2 ==> q.witness.len() == (k - 1) / 2 && q.prove.len() == (k - 2) / 2
    &&& k < 2 ==> q.witness.len() == 0 && q.prove.len() == 0
    &&& k <= 2 + 2 * repeats
}

proof fn lemma_replay_shape(repeats: nat, events: Seq<Event>)
    requires
        1 <= repeats <= usize::MAX,
        replay(Progress::start(repeats), events) is Some,
    ensures
        shaped(replay(Progress::start(repeats), events)->0, repeats, events.len()),
        replay(Progress::start(repeats), events)->0.wf(),
    decreases events.len(),
{
    if events.len() > 0 {
        let prev = events.drop_last();
        lemma_replay_shape(repeats, prev);
        let q = replay(Progress::start(repeats), prev)->0;
        let k = prev.len();
        lemma_step_keeps_wf(q, events.last());
        if k >= 2 {
            if q.witness.len() > q.prove.len() {
                assert((k - 2) % 2 == 1);
            } else if q.witness.len() < repeats {
                assert((k - 2) % 2 == 0);
            } else {
                assert(k == 2 + 2 * repeats);
            }
        }
    }
}

/// Measurement is strictly serial and complete: whatever the measured
/// numbers, a run of `repeats` rounds asks, one at a time, for the compile,
/// the circuit size, then witness 1, prove 1, witness 2, prove 2, ... up to
/// round `repeats`, then for the report, and accepts nothing more.
pub proof fn lemma_serial_schedule(repeats: nat, events: Seq<Event>)
    requires
        1 <= repeats <= usize::MAX,
        replay(Progress::start(repeats), events) is Some,
    ensures
        replay(Progress::start(repeats), events)->0.next_action() == schedule(
            repeats,
            events.len(),
        ),
        events.len() <= 2 + 2 * repeats,
{
    lemma_replay_shape(repeats, events);
    let q = replay(Progress::start(repeats), events)->0;
    let k = events.len();
    if k >= 2 {
        if q.witness.len() > q.prove.len() {
            assert((k - 2) % 2 == 1);
        } else if q.witness.len() < repeats {
            assert((k - 2) % 2 == 0);
        } else {
            assert(k == 2 + 2 * repeats);
        }
    }
}

/// A copy of `v` with `s` appended.
fn pushed(v: &Vec<Sample>, s: Sample) -> (r: Vec<Sample>)
    ensures
        r@ == v@.push(s),
{
    let mut r: Vec<Sample> = Vec::new();
    let mut i: usize = 0;
    while i < v.len()
        invariant
            i <= v@.len(),
            r@ == v@.take(i as int),
        decreases v@.len() - i,
    {
        r.push(v[i]);
        i = i + 1;
    }
    assert(v@.take(v@.len() as int) == v@);
    r.push(s);
    r
}

/// The samples of `v` from position `k` on.
fn skipped(v: &Vec<Sample>, k: usize) -> (r: Vec<Sample>)
    requires
        k <= v@.len(),
    ensures
        r@ == v@.skip(k as int),
{
    let mut r: Vec<Sample> = Vec::new();
    let mut i: usize = k;
    while i < v.len()
        invariant
            k <= i <= v@.len(),
            r@ == v@.subrange(k as int, i as int),
        decreases v@.len() - i,
    {
        r.push(v[i]);
        i = i + 1;
    }
    r
}

/// A run in progress.
pub struct Session {
    repeats: usize,
    compiled: bool,
    gates: Option<(u64, u64)>,
    witness: Vec<Sample>,
    prove: Vec<Sample>,
}

impl View for Session {
    type V = Progress;

    closed spec fn view(&self) -> Progress {
        Progress {
            repeats: self.repeats as nat,
            compiled: self.compiled,
            gates: self.gates,
            witness: self.witness@,
            prove: self.prove@,
        }
    }
}

impl Session {
    #[verifier::type_invariant]
    spec fn inv(self) -> bool {
        self@.wf()
    }

    /// Starts a run of `repeats` rounds; at least one is needed.
    pub fn new(repeats: usize) -> (r: Result<Session, PipelineError>)
        ensures
            repeats == 0 <==> r is Err,
            r matches Err(e) ==> e == PipelineError::ZeroRepeats,
            r matches Ok(s) ==> s@ == Progress::start(repeats as nat),
    {
        if repeats == 0 {
            Err(PipelineError::ZeroRepeats)
        } else {
            Ok(Session {
                repeats,
                compiled: false,
                gates: None,
                witness: Vec::new(),
                prove: Vec::new(),
            })
        }
    }

    /// What the run asks for next.
    pub fn next_action(&self) -> (a: Action)
        ensures
            a == self@.next_action(),
    {
        proof {
            use_type_invariant(self);
        }
        if !self.compiled {
            Action::Compile
        } else if self.gates.is_none() {
            Action::ReadGates
        } else if self.witness.len() > self.prove.len() {
            Action::MeasureProve { run: self.witness.len() }
        } else if self.witness.len() < self.repeats {
            Action::MeasureWitness { run: self.witness.len() + 1 }
        } else {
            Action::Report
        }
    }

    /// The report of a completed run: the circuit size, the medians of the
    /// kept rounds (all but the cold first one when there are several), and
    /// the tool versions.
    pub fn finish(&self, circuit: String, versions: Versions) -> (o: Outcome)
        requires
            self@.next_action() == Action::Report,
        ensures
            o.circuit == circuit,
            o.backend == BACKEND,
            o.constraints == self@.gates.unwrap().0,
            o.acir_opcodes == self@.gates.unwrap().1,
            o.witness.time_ms == median_of(times_of(self@.witness.skip(self@.dropped() as int))),
            o.witness.peak_kb == median_of(peaks_of(self@.witness.skip(self@.dropped() as int))),
            o.prove.time_ms == median_of(times_of(self@.prove.skip(self@.dropped() as int))),
            o.prove.peak_kb == median_of(peaks_of(self@.prove.skip(self@.dropped() as int))),
            o.repeats == self@.repeats,
            o.samples_used == self@.repeats - self@.dropped(),
            self@.repeats >= 2 ==> {
                &&& o.samples_used == self@.repeats - 1
                &&& o.witness.time_ms == median_of(times_of(self@.witness.skip(1)))
                &&& o.witness.peak_kb == median_of(peaks_of(self@.witness.skip(1)))
                &&& o.prove.time_ms == median_of(times_of(self@.prove.skip(1)))
                &&& o.prove.peak_kb == median_of(peaks_of(self@.prove.skip(1)))
            },
            self@.repeats == 1 ==> {
                &&& o.samples_used == 1
                &&& o.witness.time_ms == median_of(times_of(self@.witness))
                &&& o.witness.peak_kb == median_of(peaks_of(self@.witness))
                &&& o.prove.time_ms == median_of(times_of(self@.prove))
                &&& o.prove.peak_kb == median_of(peaks_of(self@.prove))
            },
            o.nargo_version == versions.nargo,
            o.bb_version == versions.bb,
    {
        proof {
            use_type_invariant(self);
            lemma_report_drops_cold_round(self@);
            assert(self@.witness.skip(0) == self@.witness);
            assert(self@.prove.skip(0) == self@.prove);
        }
        let dropped: usize = if self.repeats > 1 {
            1
        } else {
            0
        };
        let kept_witness = skipped(&self.witness, dropped);
        let kept_prove = skipped(&self.prove, dropped);
        let witness = reduce(kept_witness.as_slice());
        let prove = reduce(kept_prove.as_slice());
        let (constraints, acir_opcodes) = match self.gates {
            Some(g) => g,
            None => (0, 0),
        };
        Outcome {
            circuit,
            backend: BACKEND,
            constraints,
            acir_opcodes,
            witness,
            prove,
            repeats: self.repeats,
            samples_used: self.repeats - dropped,
            nargo_version: versions.nargo,
            bb_version: versions.bb,
        }
    }

    /// Records what the outside work for the asked-for action brought back.
    pub fn record(&mut self, e: Event)
        requires
            old(self)@.accepts(e),
        ensures
            final(self)@ == old(self)@.after(e),
    {
        proof {
            use_type_invariant(&*self);
        }
        match e {
            Event::Compiled => {
                self.compiled = true;
            },
            Event::Gates { constraints, acir_opcodes } => {
                self.gates = Some((constraints, acir_opcodes));
            },
            Event::Witness(s) => {
                self.witness = pushed(&self.witness, s);
            },
            Event::Prove(s) => {
                self.prove = pushed(&self.prove, s);
            },
        }
    }
}

} // verus!
