use zkbench::gates::{gate_counts, read_gates, GatesError};

#[test]
fn read_gates_typical_output() {
    let out = br#"{"functions":[{"acir_opcodes":6,"circuit_size":2810,"gates_per_opcode":[1,2]}]}"#;
    assert_eq!(read_gates(out), Ok((2810, 6)));
}

#[test]
fn read_gates_uses_first_function() {
    let out = br#"{"functions":[{"acir_opcodes":1,"circuit_size":2},{"acir_opcodes":3,"circuit_size":4}]}"#;
    assert_eq!(read_gates(out), Ok((2, 1)));
}

#[test]
fn read_gates_rejects_non_json() {
    assert_eq!(read_gates(b"not json"), Err(GatesError::InvalidJson));
    assert_eq!(read_gates(b""), Err(GatesError::InvalidJson));
}

#[test]
fn read_gates_reports_missing_fields() {
    assert_eq!(read_gates(br#"{"functions":[]}"#), Err(GatesError::MissingCircuitSize));
    assert_eq!(
        read_gates(br#"{"functions":[{"circuit_size":-1,"acir_opcodes":6}]}"#),
        Err(GatesError::MissingCircuitSize)
    );
    assert_eq!(
        read_gates(br#"{"functions":[{"circuit_size":5}]}"#),
        Err(GatesError::MissingAcirOpcodes)
    );
    assert_eq!(
        read_gates(br#"{"functions":{"0":{"circuit_size":5,"acir_opcodes":1}}}"#),
        Err(GatesError::MissingCircuitSize)
    );
    assert_eq!(read_gates(b"[1,2]"), Err(GatesError::MissingCircuitSize));
}

#[test]
fn gate_counts_checks_circuit_size_first() {
    assert_eq!(gate_counts(None, None), Err(GatesError::MissingCircuitSize));
    assert_eq!(gate_counts(Some(3), None), Err(GatesError::MissingAcirOpcodes));
    assert_eq!(gate_counts(Some(3), Some(4)), Ok((3, 4)));
}
