//! Decoding an instruction payload from its transport form: the base58
//! string is decoded to raw bytes, and the bytes are dispatched against the
//! instruction catalog.

use vstd::prelude::*;
use crate::instructions::{encoding_of, instr_eqv, unpack, wf_instr, DriftV2Instruction};
use crate::DecodeError;

verus! {

/// The bytes a base58 string decodes to, or nothing when the string is not
/// valid base58; a function of the string alone.
pub uninterp spec fn base58_decoded(s: Seq<char>) -> Option<Seq<u8>>;

/// Relies on bs58::decode: whether a string decodes, and to which bytes,
/// depends on the string alone.
#[verifier::external_body]
fn decode_base58(s: &str) -> (r: Option<Vec<u8>>)
    ensures
        match r {
            Some(v) => base58_decoded(s@) == Some(v@),
            None => base58_decoded(s@) is None,
        },
{
    bs58::decode(s).into_vec().ok()
}

/// Decode one instruction from its base58 transport string.  A string that
/// is not valid base58 fails like a malformed buffer; otherwise the decoded
/// bytes are dispatched against the catalog exactly as [`unpack`] does.
pub fn decode_instruction(data: &str) -> (r: Result<DriftV2Instruction, DecodeError>)
    ensures
        base58_decoded(data@) is None ==> r == Err::<DriftV2Instruction, DecodeError>(
            DecodeError::InvalidEncoding,
        ),
        match base58_decoded(data@) {
            None => r == Err::<DriftV2Instruction, DecodeError>(DecodeError::InvalidEncoding),
            Some(bytes) => {
                &&& (bytes.len() < 8 ==> r == Err::<DriftV2Instruction, DecodeError>(
                    DecodeError::InvalidEncoding,
                ))
                &&& (r matches Ok(d) ==> bytes == encoding_of(d) && wf_instr(d))
                &&& (forall|i: DriftV2Instruction|
                    wf_instr(i) && bytes == encoding_of(i) ==> (r matches Ok(d) && instr_eqv(
                        d,
                        i,
                    )))
            },
        },
{
    match decode_base58(data) {
        Some(bytes) => unpack(bytes.as_slice()),
        None => Err(DecodeError::InvalidEncoding),
    }
}

} // verus!
