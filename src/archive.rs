//! Reading one member of a zip archive held in memory.
use vstd::prelude::*;
use crate::error::PipelineError;

verus! {

/// Text of the member named `member` in the zip archive `archive`, or `None`
/// when the archive is malformed, lacks that member, or the member is not
/// valid UTF-8.
pub uninterp spec fn archive_member_text(archive: Seq<u8>, member: Seq<char>) -> Option<Seq<char>>;

/// Relies on zip's `ZipArchive::new` and `ZipArchive::by_name_decrypt`, and on
/// `std::io::Read::read_to_string` over the member they return: the outcome
/// depends on the archive bytes and the member name alone. `by_name_decrypt`
/// with an empty password hands back a rejected password as a value, where
/// `by_name` would panic on it; a password is ignored for an unencrypted member.
#[verifier::external_body]
fn read_member(archive: Vec<u8>, member: &str) -> (r: Option<String>)
    ensures
        match r {
            Some(s) => archive_member_text(archive@, member@) == Some(s@),
            None => archive_member_text(archive@, member@) is None,
        },
{
    let mut zip = zip::ZipArchive::new(std::io::Cursor::new(archive)).ok()?;
    let mut file = zip.by_name_decrypt(member, b"").ok()?.ok()?;
    let mut text = String::new();
    std::io::Read::read_to_string(&mut file, &mut text).ok()?;
    Some(text)
}

/// Text of member `member` of the zip archive `archive`; `Archive` when it
/// cannot be read.
pub fn extract_member(archive: Vec<u8>, member: &str) -> (r: Result<String, PipelineError>)
    ensures
        match r {
            Ok(s) => archive_member_text(archive@, member@) == Some(s@),
            Err(e) => e is Archive && archive_member_text(archive@, member@) is None,
        },
{
    match read_member(archive, member) {
        Some(text) => Ok(text),
        None => Err(PipelineError::Archive),
    }
}

} // verus!
