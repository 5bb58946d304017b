//! The calls into `gix` and `uuid` that the override logic makes.
use vstd::prelude::*;

verus! {

/// Whether `gix` accepts `name` as a full reference name
/// (`gix_validate::reference::name`): the rules of `git check-ref-format`
/// plus gix's own, e.g. `refs/heads/main` and `HEAD` pass, `main` does not.
pub uninterp spec fn is_valid_full_ref_name(name: Seq<u8>) -> bool;

/// `gix::refs::FullName::try_from(BString)`, handed back as the bytes of the
/// accepted name.
///
/// Claimed of gix: the conversion succeeds exactly when the name passes
/// reference-name validation, and a successful conversion keeps the bytes
/// unchanged.
#[verifier::external_body]
pub(crate) fn full_ref_name(bytes: Vec<u8>) -> (r: Option<Vec<u8>>)
    ensures
        r is Some <==> is_valid_full_ref_name(bytes@),
        r matches Some(v) ==> v@ == bytes@,
{
    gix::refs::FullName::try_from(bstr::BString::from(bytes)).ok().map(|n| {
        let b: bstr::BString = n.into();
        b.into()
    })
}

/// The lengths of an object id's digest: 20 bytes for SHA-1, 32 for
/// SHA-256.
pub open spec fn is_object_id_len(n: nat) -> bool {
    n == 20 || n == 32
}

/// `gix::ObjectId::try_from(&[u8])`, handed back as the bytes of the id, or
/// as the text of gix's error.
///
/// Claimed of gix-hash as this crate builds it (SHA-1 and SHA-256): a
/// slice of 20 or 32 bytes is accepted as an object id and keeps its bytes;
/// any other length is refused. The text of the error is gix's and is not
/// stated.
#[verifier::external_body]
pub(crate) fn object_id_from_bytes(bytes: &[u8]) -> (r: Result<Vec<u8>, String>)
    ensures
        r is Ok <==> is_object_id_len(bytes@.len()),
        r matches Ok(v) ==> v@ == bytes@,
{
    gix::ObjectId::try_from(bytes).map(|id| id.as_slice().to_vec()).map_err(|e| e.to_string())
}

/// `uuid::Uuid::new_v4()`, as its 128-bit value.
///
/// The value is random. Claimed of uuid: the version nibble reads `4` and
/// the variant bits read `10`, whatever the random bits were.
#[verifier::external_body]
pub(crate) fn new_v4_id() -> (r: u128)
    ensures
        r & 0xF000_0000_0000_0000_0000u128 == 0x4000_0000_0000_0000_0000u128,
        r & 0xC000_0000_0000_0000u128 == 0x8000_0000_0000_0000u128,
{
    uuid::Uuid::new_v4().as_u128()
}

} // verus!
