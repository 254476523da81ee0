use zkbench::measure::Sample;
use zkbench::pipeline::{Outcome, BACKEND};
use zkbench::report::{heaviness, Heaviness};

fn outcome(witness_ms: u64, prove_ms: u64) -> Outcome {
    Outcome {
        circuit: "c".to_string(),
        backend: BACKEND,
        constraints: 0,
        acir_opcodes: 0,
        witness: Sample { time_ms: witness_ms, peak_kb: 1 },
        prove: Sample { time_ms: prove_ms, peak_kb: 1 },
        repeats: 1,
        samples_used: 1,
        nargo_version: String::new(),
        bb_version: String::new(),
    }
}

#[test]
fn heaviness_thresholds() {
    assert_eq!(heaviness(&outcome(100, 250)), Heaviness::MuchHeavier);
    assert_eq!(heaviness(&outcome(100, 200)), Heaviness::MuchHeavier);
    assert_eq!(heaviness(&outcome(100, 199)), Heaviness::Heavier);
    assert_eq!(heaviness(&outcome(100, 100)), Heaviness::Heavier);
    assert_eq!(heaviness(&outcome(100, 99)), Heaviness::Lighter);
}

#[test]
fn heaviness_guards_zero_witness_time() {
    assert_eq!(heaviness(&outcome(0, 0)), Heaviness::Lighter);
    assert_eq!(heaviness(&outcome(0, 1)), Heaviness::Heavier);
    assert_eq!(heaviness(&outcome(0, 2)), Heaviness::MuchHeavier);
    assert_eq!(heaviness(&outcome(u64::MAX, u64::MAX)), Heaviness::Heavier);
}
