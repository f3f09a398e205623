//! Binding a batch to the chain state it was prepared against.
use vstd::prelude::*;
use crate::bytes::hash_eq;
use crate::types::{BatchInput, BatchOutput, BatchError, StateCommitment, Journal};
use crate::matching::{match_orders, output_matches, rejected_as, all_proofs_ok, orders_well_formed};

verus! {

/// Whether the input was prepared against the chain's batch index and root.
pub open spec fn state_matches(input: BatchInput, chain_root: Seq<u8>, chain_batch_index: u64) -> bool {
    input.batch_index == chain_batch_index && input.utxo_merkle_root@ == chain_root
}

/// Checks the input's batch index and prior root against the values read
/// from the chain.
pub fn check_state(input: &BatchInput, chain_root: &[u8; 32], chain_batch_index: u64) -> (r: Result<
    (),
    BatchError,
>)
    ensures
        r is Ok <==> state_matches(*input, chain_root@, chain_batch_index),
        r matches Err(e) ==> e == BatchError::StateMismatch,
{
    if input.batch_index != chain_batch_index || !hash_eq(&input.utxo_merkle_root, chain_root) {
        return Err(BatchError::StateMismatch);
    }
    Ok(())
}

/// Checks the input against the chain state, then matches the batch.
pub fn process_batch(input: BatchInput, chain_root: &[u8; 32], chain_batch_index: u64) -> (r: Result<
    BatchOutput,
    BatchError,
>)
    ensures
        !state_matches(input, chain_root@, chain_batch_index) ==> r == Err::<BatchOutput, BatchError>(
            BatchError::StateMismatch,
        ),
        state_matches(input, chain_root@, chain_batch_index) ==> {
            &&& r is Ok <==> all_proofs_ok(input) && orders_well_formed(input)
            &&& r matches Err(e) ==> rejected_as(input, e)
            &&& r matches Ok(out) ==> output_matches(input, out)
        },
{
    match check_state(&input, chain_root, chain_batch_index) {
        Err(e) => Err(e),
        Ok(()) => match_orders(input),
    }
}

/// Checks the input against the chain state, matches the batch, and wraps the
/// output with the commitment to the chain state that was read.
pub fn commit_batch(
    input: BatchInput,
    chain_root: &[u8; 32],
    chain_batch_index: u64,
    commitment: StateCommitment,
) -> (r: Result<Journal, BatchError>)
    ensures
        !state_matches(input, chain_root@, chain_batch_index) ==> r == Err::<Journal, BatchError>(
            BatchError::StateMismatch,
        ),
        state_matches(input, chain_root@, chain_batch_index) ==> {
            &&& r is Ok <==> all_proofs_ok(input) && orders_well_formed(input)
            &&& r matches Err(e) ==> rejected_as(input, e)
        },
        r matches Ok(j) ==> j.state_commitment == commitment && output_matches(input, j.output),
{
    match process_batch(input, chain_root, chain_batch_index) {
        Err(e) => Err(e),
        Ok(output) => Ok(output.to_journal(commitment)),
    }
}

} // verus!
