//! What kind of file a sample is, from its first bytes.
use vstd::prelude::*;

verus! {

#[derive(Clone, Copy, Debug, PartialEq, Eq, Structural)]
pub enum FileCategory {
    ExecutablePE,
    ExecutableELF,
    Script,
    Unknown,
}

/// The category that the first bytes of a file give: fewer than four bytes is unknown;
/// `MZ` is a Windows PE; `\x7fELF` is a Linux ELF; anything else is a script.
pub open spec fn category_of(header: Seq<u8>) -> FileCategory {
    if header.len() < 4 {
        FileCategory::Unknown
    } else if header[0] == 0x4d && header[1] == 0x5a {
        FileCategory::ExecutablePE
    } else if header[0] == 0x7f && header[1] == 0x45 && header[2] == 0x4c && header[3] == 0x46 {
        FileCategory::ExecutableELF
    } else {
        FileCategory::Script
    }
}

/// Classifies a file by the bytes read from its start (at most four are looked at).
pub fn classify_header(header: &[u8]) -> (res: FileCategory)
    ensures
        res == category_of(header@),
{
    if header.len() < 4 {
        FileCategory::Unknown
    } else if header[0] == 0x4d && header[1] == 0x5a {
        FileCategory::ExecutablePE
    } else if header[0] == 0x7f && header[1] == 0x45 && header[2] == 0x4c && header[3] == 0x46 {
        FileCategory::ExecutableELF
    } else {
        FileCategory::Script
    }
}

} // verus!
