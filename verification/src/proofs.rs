//! Verification of the shielded parts of a transaction: the proofs and
//! signatures of its spends and outputs, and the balance of their values.

use crate::block::ValidationState;
use crate::transaction::{SaplingOutputDescription, SaplingSpendDescription, Transaction};
use vstd::prelude::*;

verus! {

/// `sapling_crypto::SaplingVerificationContext`, which sums up the value
/// commitments of the spends and outputs that it has checked. It is carried
/// through as it is; `context_sum` names the sum that it holds.
#[verifier::external_type_specification]
#[verifier::external_body]
pub struct ExSaplingVerificationContext(sapling_crypto::SaplingVerificationContext);

/// `sapling_crypto::circuit::PreparedSpendVerifyingKey`, the verifying key
/// for the proofs of spends. It is carried through as it is.
#[verifier::external_type_specification]
#[verifier::external_body]
pub struct ExPreparedSpendVerifyingKey(sapling_crypto::circuit::PreparedSpendVerifyingKey);

/// `sapling_crypto::circuit::PreparedOutputVerifyingKey`, the verifying key
/// for the proofs of outputs. It is carried through as it is.
#[verifier::external_type_specification]
#[verifier::external_body]
pub struct ExPreparedOutputVerifyingKey(sapling_crypto::circuit::PreparedOutputVerifyingKey);

/// The verifying keys of the proof system: one for the proofs of spends, one
/// for the proofs of outputs.
pub struct ProofVerifier {
    pub spend_vk: sapling_crypto::circuit::PreparedSpendVerifyingKey,
    pub output_vk: sapling_crypto::circuit::PreparedOutputVerifyingKey,
}

impl ProofVerifier {
    /// A verifier with the given keys.
    pub fn new(
        spend_vk: sapling_crypto::circuit::PreparedSpendVerifyingKey,
        output_vk: sapling_crypto::circuit::PreparedOutputVerifyingKey,
    ) -> (out: ProofVerifier)
        ensures
            out.spend_vk == spend_vk,
            out.output_vk == output_vk,
    {
        ProofVerifier { spend_vk, output_vk }
    }
}

/// The verdict of `SaplingVerificationContext::check_spend` under the key
/// `vk` on a spend with these fields, signed by `signature` over `sighash`:
/// `None` where the value commitment, the anchor, the validating key or the
/// proof does not decode, else whether the signature and the proof are valid.
/// It does not depend on the context.
pub uninterp spec fn spend_verdict_spec(
    vk: sapling_crypto::circuit::PreparedSpendVerifyingKey,
    cv: Seq<u8>,
    anchor: Seq<u8>,
    nullifier: Seq<u8>,
    rk: Seq<u8>,
    zkproof: Seq<u8>,
    signature: Seq<u8>,
    sighash: Seq<u8>,
) -> Option<bool>;

/// The verdict of `SaplingVerificationContext::check_output` under the key
/// `vk` on an output with these fields: `None` where the value commitment,
/// the note commitment, the ephemeral key or the proof does not decode, else
/// whether the proof is valid. It does not depend on the context.
pub uninterp spec fn output_verdict_spec(
    vk: sapling_crypto::circuit::PreparedOutputVerifyingKey,
    cv: Seq<u8>,
    cmu: Seq<u8>,
    ephemeral_key: Seq<u8>,
    zkproof: Seq<u8>,
) -> Option<bool>;

/// The sum of value commitments that `ctx` holds: the 32 bytes that encode
/// that point of the Jubjub curve.
pub uninterp spec fn context_sum(ctx: sapling_crypto::SaplingVerificationContext) -> Seq<u8>;

/// The encoding of the sum of the point that `sum` encodes and the value
/// commitment that `cv` encodes: what `+=` of `CommitmentSum` gives, by which
/// `check_spend` takes a value commitment into the sum of its context.
pub uninterp spec fn sum_with_spend(sum: Seq<u8>, cv: Seq<u8>) -> Seq<u8>;

/// The encoding of the point that `sum` encodes less the value commitment
/// that `cv` encodes: what `-=` of `CommitmentSum` gives, by which
/// `check_output` takes a value commitment out of the sum of its context.
pub uninterp spec fn sum_with_output(sum: Seq<u8>, cv: Seq<u8>) -> Seq<u8>;

/// The verdict of `SaplingVerificationContext::final_check` in a context that
/// holds `sum`: whether `binding_sig` is a valid signature over `sighash`
/// under the key that `sum` and `value_balance` give.
pub uninterp spec fn balance_verdict_spec(
    sum: Seq<u8>,
    value_balance: i64,
    sighash: Seq<u8>,
    binding_sig: Seq<u8>,
) -> bool;

/// The encoding of the neutral point of the Jubjub curve, with which every
/// sum starts: the coordinate 1 in little-endian order, and a clear sign bit.
pub open spec fn zero_sum() -> Seq<u8> {
    Seq::new(32, |i: int| if i == 0 { 1u8 } else { 0u8 })
}

/// A fresh context for the verification of one transaction.
///
/// Calls `SaplingVerificationContext::new`, which starts the sum of the
/// context at the neutral point.
#[verifier::external_body]
fn new_context() -> (out: sapling_crypto::SaplingVerificationContext)
    ensures
        context_sum(out) == zero_sum(),
{
    sapling_crypto::SaplingVerificationContext::new()
}

/// The verdict of the proof system on `spend`: on its spend authorisation
/// signature over `sighash` and on its proof under `vk`; `None` where a field
/// of the spend does not decode.
///
/// Decodes the value commitment, the anchor, the validating key and the
/// proof, and calls `SaplingVerificationContext::check_spend` with them.
/// Claimed are that the verdict depends on the key, the fields of the spend,
/// the signature and the signed hash alone, and that a spend that passes has
/// had its value commitment added to the sum of the context. Nothing is
/// claimed of which spends pass.
#[verifier::external_body]
fn check_spend(
    ctx: &mut sapling_crypto::SaplingVerificationContext,
    spend: &SaplingSpendDescription,
    signature: &[u8; 64],
    sighash: &[u8; 32],
    vk: &sapling_crypto::circuit::PreparedSpendVerifyingKey,
) -> (out: Option<bool>)
    ensures
        out == spend_verdict_spec(
            *vk,
            spend.cv@,
            spend.anchor@,
            spend.nullifier@,
            spend.rk@,
            spend.zkproof@,
            signature@,
            sighash@,
        ),
        out == Some(true) ==> context_sum(*final(ctx)) == sum_with_spend(
            context_sum(*old(ctx)),
            spend.cv@,
        ),
{
    let cv: Option<sapling_crypto::value::ValueCommitment> =
        sapling_crypto::value::ValueCommitment::from_bytes_not_small_order(&spend.cv).into();
    let anchor: Option<bls12_381::Scalar> =
        bls12_381::Scalar::from_bytes(&spend.anchor.to_bytes()).into();
    let rk = redjubjub::VerificationKey::try_from(spend.rk).ok();
    let proof = groth16::Proof::read(&spend.zkproof[..]).ok();
    let sig = redjubjub::Signature::from(*signature);
    match (cv, anchor, rk, proof) {
        (Some(cv), Some(anchor), Some(rk), Some(proof)) => {
            Some(ctx.check_spend(&cv, anchor, &spend.nullifier.bytes, rk, sighash, sig, proof, vk))
        },
        _ => None,
    }
}

/// The verdict of the proof system on `output`: on its proof under `vk`;
/// `None` where a field of the output does not decode.
///
/// Decodes the value commitment, the note commitment, the ephemeral key and
/// the proof, and calls `SaplingVerificationContext::check_output` with them.
/// Claimed are that the verdict depends on the key and the fields of the
/// output alone, and that an output that passes has had its value commitment
/// taken from the sum of the context. Nothing is claimed of which outputs
/// pass.
#[verifier::external_body]
fn check_output(
    ctx: &mut sapling_crypto::SaplingVerificationContext,
    output: &SaplingOutputDescription,
    vk: &sapling_crypto::circuit::PreparedOutputVerifyingKey,
) -> (out: Option<bool>)
    ensures
        out == output_verdict_spec(
            *vk,
            output.cv@,
            output.cmu@,
            output.ephemeral_key@,
            output.zkproof@,
        ),
        out == Some(true) ==> context_sum(*final(ctx)) == sum_with_output(
            context_sum(*old(ctx)),
            output.cv@,
        ),
{
    let cv: Option<sapling_crypto::value::ValueCommitment> =
        sapling_crypto::value::ValueCommitment::from_bytes_not_small_order(&output.cv).into();
    let cmu: Option<sapling_crypto::note::ExtractedNoteCommitment> =
        sapling_crypto::note::ExtractedNoteCommitment::from_bytes(&output.cmu.to_bytes()).into();
    let epk: Option<jubjub::AffinePoint> = jubjub::AffinePoint::from_bytes(output.ephemeral_key).into();
    let proof = groth16::Proof::read(&output.zkproof[..]).ok();
    match (cv, cmu, epk, proof) {
        (Some(cv), Some(cmu), Some(epk), Some(proof)) => {
            Some(ctx.check_output(&cv, cmu, epk.into(), proof, vk))
        },
        _ => None,
    }
}

/// Whether the values of the spends and outputs that `ctx` has checked
/// balance with `value_balance`, by the binding signature over `sighash`.
///
/// Calls `SaplingVerificationContext::final_check`. Claimed is that the
/// verdict depends on the sum of the context, the balance, the signed hash
/// and the signature alone; nothing is claimed of which balances pass.
#[verifier::external_body]
fn final_check(
    ctx: &sapling_crypto::SaplingVerificationContext,
    value_balance: i64,
    sighash: &[u8; 32],
    binding_sig: &[u8; 64],
) -> (out: bool)
    ensures
        out == balance_verdict_spec(context_sum(*ctx), value_balance, sighash@, binding_sig@),
{
    ctx.final_check(value_balance, sighash, redjubjub::Signature::from(*binding_sig))
}

/// Whether `spend` passes under the key `vk`: it is signed, its fields
/// decode, and its signature over `sighash` and its proof are valid.
pub open spec fn spend_passes(
    vk: sapling_crypto::circuit::PreparedSpendVerifyingKey,
    spend: SaplingSpendDescription,
    sighash: Seq<u8>,
) -> bool {
    spend.spend_auth_sig matches Some(signature) && spend_verdict_spec(
        vk,
        spend.cv@,
        spend.anchor@,
        spend.nullifier@,
        spend.rk@,
        spend.zkproof@,
        signature@,
        sighash,
    ) == Some(true)
}

/// Whether `output` passes under the key `vk`: its fields decode and its
/// proof is valid.
pub open spec fn output_passes(
    vk: sapling_crypto::circuit::PreparedOutputVerifyingKey,
    output: SaplingOutputDescription,
) -> bool {
    output_verdict_spec(vk, output.cv@, output.cmu@, output.ephemeral_key@, output.zkproof@)
        == Some(true)
}

/// The sum of the value commitments of `spends`, added one after the other
/// to the neutral point.
pub open spec fn sum_of_spends(spends: Seq<SaplingSpendDescription>) -> Seq<u8>
    decreases spends.len(),
{
    if spends.len() == 0 {
        zero_sum()
    } else {
        sum_with_spend(sum_of_spends(spends.drop_last()), spends.last().cv@)
    }
}

/// The sum of the value commitments of `spends`, less those of `outputs`,
/// taken from it one after the other.
pub open spec fn sum_of_parts(
    spends: Seq<SaplingSpendDescription>,
    outputs: Seq<SaplingOutputDescription>,
) -> Seq<u8>
    decreases outputs.len(),
{
    if outputs.len() == 0 {
        sum_of_spends(spends)
    } else {
        sum_with_output(sum_of_parts(spends, outputs.drop_last()), outputs.last().cv@)
    }
}

/// Whether the shielded parts of `tx` are valid under the keys of
/// `verifier`: there are none, or every spend passes, every output passes,
/// and the binding signature of the transaction is valid for its balance and
/// the sum of all their value commitments.
pub open spec fn shielded_ok(tx: Transaction, sighash: Seq<u8>, verifier: ProofVerifier) -> bool {
    ||| tx.v_shielded_spend@.len() == 0 && tx.v_shielded_output@.len() == 0
    ||| {
        &&& forall|i: int|
            0 <= i < tx.v_shielded_spend@.len() ==> spend_passes(
                verifier.spend_vk,
                #[trigger] tx.v_shielded_spend@[i],
                sighash,
            )
        &&& forall|k: int|
            0 <= k < tx.v_shielded_output@.len() ==> output_passes(
                verifier.output_vk,
                #[trigger] tx.v_shielded_output@[k],
            )
        &&& balance_verdict_spec(
            sum_of_parts(tx.v_shielded_spend@, tx.v_shielded_output@),
            tx.balancing_value,
            sighash,
            tx.binding_sig@,
        )
    }
}

/// What the checks of the shielded parts of a transaction come to: a
/// transaction without shielded parts passes, and any other passes when all
/// its spends, all its outputs and its balance do.
pub fn shielded_verdict(has_shielded: bool, spends_ok: bool, outputs_ok: bool, balance_ok: bool) -> (out:
    bool)
    ensures
        out == (!has_shielded || (spends_ok && outputs_ok && balance_ok)),
{
    !has_shielded || (spends_ok && outputs_ok && balance_ok)
}

/// Checks the shielded parts of `tx` against the chain rules: every spend
/// and every output has to decode and to be valid, a spend has to be signed,
/// and the values have to balance.
/// `sighash` is the hash of the transaction that its signatures sign, and
/// `verifier` holds the verifying keys. A
/// transaction without shielded spends and outputs passes. For any other the
/// verdicts are those of the proof system, one for each spend and output and
/// one for the balance, and the transaction passes when all of them do.
pub fn contextual_check_transaction(
    tx: &Transaction,
    state: &ValidationState,
    sighash: &[u8; 32],
    verifier: &ProofVerifier,
) -> (out: bool)
    ensures
        out == shielded_ok(*tx, sighash@, *verifier),
{
    let has_shielded: bool = tx.v_shielded_spend.len() > 0 || tx.v_shielded_output.len() > 0;
    if !has_shielded {
        return shielded_verdict(false, true, true, true);
    }
    let mut ctx: sapling_crypto::SaplingVerificationContext = new_context();
    let mut i: usize = 0;
    while i < tx.v_shielded_spend.len()
        invariant
            has_shielded,
            i <= tx.v_shielded_spend@.len(),
            forall|j: int|
                0 <= j < i ==> spend_passes(
                    verifier.spend_vk,
                    #[trigger] tx.v_shielded_spend@[j],
                    sighash@,
                ),
            context_sum(ctx) == sum_of_spends(tx.v_shielded_spend@.take(i as int)),
        decreases tx.v_shielded_spend@.len() - i,
    {
        let spend: &SaplingSpendDescription = &tx.v_shielded_spend[i];
        let verdict: Option<bool> = match spend.spend_auth_sig {
            Some(signature) => check_spend(&mut ctx, spend, &signature, sighash, &verifier.spend_vk),
            None => None,
        };
        let spend_ok: bool = match verdict {
            Some(ok) => ok,
            None => false,
        };
        if !spend_ok {
            assert(!spend_passes(verifier.spend_vk, tx.v_shielded_spend@[i as int], sighash@));
            return shielded_verdict(true, false, true, true);
        }
        assert(tx.v_shielded_spend@.take(i + 1).drop_last() =~= tx.v_shielded_spend@.take(
            i as int,
        ));
        i = i + 1;
    }
    assert(tx.v_shielded_spend@.take(i as int) =~= tx.v_shielded_spend@);
    let mut k: usize = 0;
    while k < tx.v_shielded_output.len()
        invariant
            has_shielded,
            k <= tx.v_shielded_output@.len(),
            forall|j: int|
                0 <= j < tx.v_shielded_spend@.len() ==> spend_passes(
                    verifier.spend_vk,
                    #[trigger] tx.v_shielded_spend@[j],
                    sighash@,
                ),
            forall|j: int|
                0 <= j < k ==> output_passes(
                    verifier.output_vk,
                    #[trigger] tx.v_shielded_output@[j],
                ),
            context_sum(ctx) == sum_of_parts(
                tx.v_shielded_spend@,
                tx.v_shielded_output@.take(k as int),
            ),
        decreases tx.v_shielded_output@.len() - k,
    {
        let output_ok: bool = match check_output(
            &mut ctx,
            &tx.v_shielded_output[k],
            &verifier.output_vk,
        ) {
            Some(ok) => ok,
            None => false,
        };
        if !output_ok {
            assert(!output_passes(verifier.output_vk, tx.v_shielded_output@[k as int]));
            return shielded_verdict(true, true, false, true);
        }
        assert(tx.v_shielded_output@.take(k + 1).drop_last() =~= tx.v_shielded_output@.take(
            k as int,
        ));
        k = k + 1;
    }
    assert(tx.v_shielded_output@.take(k as int) =~= tx.v_shielded_output@);
    let balance_ok: bool = final_check(&ctx, tx.balancing_value, sighash, &tx.binding_sig);
    shielded_verdict(true, true, true, balance_ok)
}

} // verus!
