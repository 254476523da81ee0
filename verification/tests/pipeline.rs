use zkbench::measure::Sample;
use zkbench::pipeline::{reduce, Action, Event, PipelineError, Session, BACKEND};
use zkbench::tools::Versions;

fn sample(time_ms: u64, peak_kb: u64) -> Sample {
    Sample { time_ms, peak_kb }
}

fn versions() -> Versions {
    Versions { nargo: "1.0.0-beta.3".to_string(), bb: "0.82.2".to_string() }
}

#[test]
fn reduce_takes_per_metric_medians() {
    let r = reduce(&[sample(30, 100), sample(10, 300), sample(20, 200)]);
    assert_eq!(r.time_ms, 20);
    assert_eq!(r.peak_kb, 200);
    let r = reduce(&[sample(10, 7), sample(20, 1)]);
    assert_eq!(r.time_ms, 15);
    assert_eq!(r.peak_kb, 4);
}

#[test]
fn session_refuses_zero_repeats() {
    assert!(matches!(Session::new(0), Err(PipelineError::ZeroRepeats)));
}

#[test]
fn session_runs_stages_serially_and_drops_cold_round() {
    let mut s = Session::new(3).unwrap();
    assert_eq!(s.next_action(), Action::Compile);
    s.record(Event::Compiled);
    assert_eq!(s.next_action(), Action::ReadGates);
    s.record(Event::Gates { constraints: 2810, acir_opcodes: 6 });
    let witness = [sample(900, 5000), sample(10, 80), sample(30, 100)];
    let prove = [sample(5000, 9000), sample(40, 60), sample(60, 70)];
    for i in 0..3 {
        assert_eq!(s.next_action(), Action::MeasureWitness { run: i + 1 });
        s.record(Event::Witness(witness[i]));
        assert_eq!(s.next_action(), Action::MeasureProve { run: i + 1 });
        s.record(Event::Prove(prove[i]));
    }
    assert_eq!(s.next_action(), Action::Report);
    let o = s.finish("balance_threshold".to_string(), versions());
    assert_eq!(o.circuit, "balance_threshold");
    assert_eq!(o.backend, BACKEND);
    assert_eq!(o.backend, "ultra_honk");
    assert_eq!(o.constraints, 2810);
    assert_eq!(o.acir_opcodes, 6);
    assert_eq!(o.witness.time_ms, 20);
    assert_eq!(o.witness.peak_kb, 90);
    assert_eq!(o.prove.time_ms, 50);
    assert_eq!(o.prove.peak_kb, 65);
    assert_eq!(o.repeats, 3);
    assert_eq!(o.samples_used, 2);
    assert_eq!(o.nargo_version, "1.0.0-beta.3");
    assert_eq!(o.bb_version, "0.82.2");
}

#[test]
fn session_with_one_round_keeps_it() {
    let mut s = Session::new(1).unwrap();
    s.record(Event::Compiled);
    s.record(Event::Gates { constraints: 1, acir_opcodes: 2 });
    assert_eq!(s.next_action(), Action::MeasureWitness { run: 1 });
    s.record(Event::Witness(sample(180, 89248)));
    assert_eq!(s.next_action(), Action::MeasureProve { run: 1 });
    s.record(Event::Prove(sample(110, 63292)));
    assert_eq!(s.next_action(), Action::Report);
    let o = s.finish("c".to_string(), versions());
    assert_eq!(o.witness.time_ms, 180);
    assert_eq!(o.prove.peak_kb, 63292);
    assert_eq!(o.samples_used, 1);
    assert_eq!(o.repeats, 1);
}
