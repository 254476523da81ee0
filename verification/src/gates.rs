//! The circuit size as `bb gates` reports it: a JSON document whose first
//! entry under `functions` holds `circuit_size` (the backend gate count) and
//! `acir_opcodes` (the ACIR opcode count).
use vstd::prelude::*;

verus! {

#[verifier::external_type_specification]
#[verifier::external_body]
pub struct ExJsonError(serde_json::Error);

/// Whether `serde_json` accepts `document` as JSON.
pub uninterp spec fn json_accepts(document: Seq<u8>) -> bool;

/// What `value[key][index][field].as_u64()` gives on the JSON value of
/// `document`: the unsigned integer there, `None` when the path leads
/// nowhere or to something else.
pub uninterp spec fn json_u64_at(document: Seq<u8>, key: Seq<char>, index: usize, field: Seq<char>) -> Option<u64>;

/// Calls `serde_json::from_slice::<serde_json::Value>` on `document`, then
/// indexes the value by `key`, `index` and `field` (serde_json's `Index`,
/// which gives `Null` where there is nothing) and calls `Value::as_u64`.
/// Claimed: it succeeds exactly when the document is JSON, and the result is
/// a function of the document and the path.
#[verifier::external_body]
fn json_u64_in(document: &[u8], key: &str, index: usize, field: &str) -> (r: Result<
    Option<u64>,
    serde_json::Error,
>)
    ensures
        r is Ok <==> json_accepts(document@),
        r matches Ok(v) ==> v == json_u64_at(document@, key@, index, field@),
{
    serde_json::from_slice::<serde_json::Value>(document).map(|doc| doc[key][index][field].as_u64())
}

/// Why the circuit size could not be read.
#[derive(Debug, Clone, Copy, PartialEq, Eq)]
pub enum GatesError {
    /// The `bb gates` output is not JSON.
    InvalidJson,
    /// The output has no unsigned `circuit_size` in its first function.
    MissingCircuitSize,
    /// The output has no unsigned `acir_opcodes` in its first function.
    MissingAcirOpcodes,
}

/// The circuit size from the two fields looked up: `(constraints,
/// acir_opcodes)`, or the first field that is missing.
pub open spec fn gate_counts_of(circuit_size: Option<u64>, acir_opcodes: Option<u64>) -> Result<
    (u64, u64),
    GatesError,
> {
    match (circuit_size, acir_opcodes) {
        (None, _) => Err(GatesError::MissingCircuitSize),
        (Some(_), None) => Err(GatesError::MissingAcirOpcodes),
        (Some(c), Some(a)) => Ok((c, a)),
    }
}

/// The two fields are passed through unchanged when both are there, as
/// `(constraints, acir_opcodes)`; otherwise the first missing one is
/// reported, `circuit_size` before `acir_opcodes`.
pub proof fn lemma_gate_counts_pass_through(circuit_size: Option<u64>, acir_opcodes: Option<u64>)
    ensures
        circuit_size is Some && acir_opcodes is Some ==> gate_counts_of(circuit_size, acir_opcodes)
            == Ok::<(u64, u64), GatesError>((circuit_size->0, acir_opcodes->0)),
        circuit_size is None ==> gate_counts_of(circuit_size, acir_opcodes) == Err::<
            (u64, u64),
            GatesError,
        >(GatesError::MissingCircuitSize),
        circuit_size is Some && acir_opcodes is None ==> gate_counts_of(circuit_size, acir_opcodes)
            == Err::<(u64, u64), GatesError>(GatesError::MissingAcirOpcodes),
{
}

/// The circuit size from the `circuit_size` and `acir_opcodes` fields.
pub fn gate_counts(circuit_size: Option<u64>, acir_opcodes: Option<u64>) -> (r: Result<
    (u64, u64),
    GatesError,
>)
    ensures
        r == gate_counts_of(circuit_size, acir_opcodes),
        circuit_size is Some && acir_opcodes is Some ==> r == Ok::<(u64, u64), GatesError>(
            (circuit_size->0, acir_opcodes->0),
        ),
        circuit_size is None ==> r == Err::<(u64, u64), GatesError>(
            GatesError::MissingCircuitSize,
        ),
        circuit_size is Some && acir_opcodes is None ==> r == Err::<(u64, u64), GatesError>(
            GatesError::MissingAcirOpcodes,
        ),
{
    proof {
        lemma_gate_counts_pass_through(circuit_size, acir_opcodes);
    }
    match circuit_size {
        None => Err(GatesError::MissingCircuitSize),
        Some(c) => match acir_opcodes {
            None => Err(GatesError::MissingAcirOpcodes),
            Some(a) => Ok((c, a)),
        },
    }
}

/// Extracts the circuit size from the `bb gates` JSON output:
/// `functions[0].circuit_size` is the backend (UltraHonk) gate/constraint
/// count and `functions[0].acir_opcodes` the ACIR-level opcode count.
pub fn read_gates(stdout: &[u8]) -> (r: Result<(u64, u64), GatesError>)
    ensures
        !json_accepts(stdout@) ==> r == Err::<(u64, u64), GatesError>(GatesError::InvalidJson),
        json_accepts(stdout@) ==> r == gate_counts_of(
            json_u64_at(stdout@, "functions"@, 0, "circuit_size"@),
            json_u64_at(stdout@, "functions"@, 0, "acir_opcodes"@),
        ),
        json_accepts(stdout@) && json_u64_at(stdout@, "functions"@, 0, "circuit_size"@) is Some
            && json_u64_at(stdout@, "functions"@, 0, "acir_opcodes"@) is Some ==> r == Ok::<
            (u64, u64),
            GatesError,
        >(
            (
                json_u64_at(stdout@, "functions"@, 0, "circuit_size"@)->0,
                json_u64_at(stdout@, "functions"@, 0, "acir_opcodes"@)->0,
            ),
        ),
        json_accepts(stdout@) && json_u64_at(stdout@, "functions"@, 0, "circuit_size"@) is None
            ==> r == Err::<(u64, u64), GatesError>(GatesError::MissingCircuitSize),
        json_accepts(stdout@) && json_u64_at(stdout@, "functions"@, 0, "circuit_size"@) is Some
            && json_u64_at(stdout@, "functions"@, 0, "acir_opcodes"@) is None ==> r == Err::<
            (u64, u64),
            GatesError,
        >(GatesError::MissingAcirOpcodes),
{
    let circuit_size = match json_u64_in(stdout, "functions", 0, "circuit_size") {
        Err(_) => {
            return Err(GatesError::InvalidJson);
        },
        Ok(v) => v,
    };
    let acir_opcodes = match json_u64_in(stdout, "functions", 0, "acir_opcodes") {
        Err(_) => {
            return Err(GatesError::InvalidJson);
        },
        Ok(v) => v,
    };
    gate_counts(circuit_size, acir_opcodes)
}

} // verus!
