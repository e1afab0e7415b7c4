//! Why a conversion fails, and how that is told.

use crate::chd_cache::ReadPastEnd;
use crate::text::{decimal, decimal_text};
use vstd::prelude::*;
use vstd::string::*;

verus! {

/// Why an image was not converted.
#[derive(Debug)]
pub enum ConvertError {
    /// There is nothing at the input path.
    InputMissing(String),
    /// There is nothing at the input path, which is that of a compressed image.
    ArchiveMissing,
    /// What is at the input path is no file.
    InputNotAFile(String),
    /// What is at the input path is no file, and should be a compressed image.
    ArchiveNotAFile,
    /// The input file does not have this extension.
    WrongExtension(String),
    /// The file to write would be the input itself.
    OutputIsInput(String),
    /// There is something at the path of the file to write.
    OutputExists(String),
    /// The archive holds no disc image.
    NoInnerIso,
    /// The archive does not tell how long its disc image is.
    NoInnerSize,
    /// The archive did not give the bytes at this offset of its disc image.
    ReadFailed(u64),
    /// The input could not be put into the directory to be packed.
    StagingFailed(String),
    /// Packing failed.
    PackFailed(String),
    /// Creating the CHD failed.
    CreateFailed(String),
    /// A read behind the end of a CHD image.
    PastEnd(ReadPastEnd),
    /// The file system, or a compressed image, refused.
    Refused(String),
}

impl ConvertError {
    /// What the user is told.
    pub open spec fn told(self) -> Seq<char> {
        match self {
            ConvertError::InputMissing(path) => "Input file does not exist: "@ + path@,
            ConvertError::ArchiveMissing => "Input file does not exist"@,
            ConvertError::InputNotAFile(path) => "Input path is not a file: "@ + path@,
            ConvertError::ArchiveNotAFile => "Input is not a file"@,
            ConvertError::WrongExtension(extension) => "Input file must have ."@ + extension@
                + " extension"@,
            ConvertError::OutputIsInput(path) => "Output path would equal input path: "@ + path@,
            ConvertError::OutputExists(path) => "Output file already exists: "@ + path@,
            ConvertError::NoInnerIso => "No .iso file found inside ZISO archive"@,
            ConvertError::NoInnerSize => "Could not determine inner ISO size"@,
            ConvertError::ReadFailed(offset) => "Failed to read at offset "@ + decimal(
                offset as nat,
            ),
            ConvertError::StagingFailed(reason) => "Failed to stage ISO in temp dir: "@ + reason@,
            ConvertError::PackFailed(reason) => "Failed to create ZISO: "@ + reason@,
            ConvertError::CreateFailed(reason) => "Failed to create CHD: "@ + reason@,
            ConvertError::PastEnd(refused) => refused.told(),
            ConvertError::Refused(reason) => reason@,
        }
    }

    /// What the user is told.
    pub fn text(&self) -> (text: String)
        ensures
            text@ == self.told(),
    {
        let text: String = match self {
            ConvertError::InputMissing(path) => two("Input file does not exist: ", path.as_str()),
            ConvertError::ArchiveMissing => "Input file does not exist".to_owned(),
            ConvertError::InputNotAFile(path) => two("Input path is not a file: ", path.as_str()),
            ConvertError::ArchiveNotAFile => "Input is not a file".to_owned(),
            ConvertError::WrongExtension(extension) => {
                let mut text: String = two("Input file must have .", extension.as_str());
                text.append(" extension");
                text
            },
            ConvertError::OutputIsInput(path) => two(
                "Output path would equal input path: ",
                path.as_str(),
            ),
            ConvertError::OutputExists(path) => two(
                "Output file already exists: ",
                path.as_str(),
            ),
            ConvertError::NoInnerIso => "No .iso file found inside ZISO archive".to_owned(),
            ConvertError::NoInnerSize => "Could not determine inner ISO size".to_owned(),
            ConvertError::ReadFailed(offset) => two(
                "Failed to read at offset ",
                decimal_text(*offset).as_str(),
            ),
            ConvertError::StagingFailed(reason) => two(
                "Failed to stage ISO in temp dir: ",
                reason.as_str(),
            ),
            ConvertError::PackFailed(reason) => two("Failed to create ZISO: ", reason.as_str()),
            ConvertError::CreateFailed(reason) => two("Failed to create CHD: ", reason.as_str()),
            ConvertError::PastEnd(refused) => refused.text(),
            ConvertError::Refused(reason) => reason.clone(),
        };
        text
    }
}

/// What was refused is told with the path, or with the reason that was given.
pub proof fn law_a_refusal_tells_its_path_or_reason(text: String, refused: ReadPastEnd)
    ensures
        ConvertError::OutputIsInput(text).told() == "Output path would equal input path: "@ + text@,
        ConvertError::CreateFailed(text).told() == "Failed to create CHD: "@ + text@,
        ConvertError::Refused(text).told() == text@,
        ConvertError::PastEnd(refused).told() == "CHD read past end: offset "@ + decimal(
            refused.offset as nat,
        ) + " >= logical size "@ + decimal(refused.logical_size as nat),
{
}

/// `a` followed by `b`.
pub(crate) fn two(a: &str, b: &str) -> (text: String)
    ensures
        text@ == a@ + b@,
{
    let mut text: String = a.to_owned();
    text.append(b);
    text
}

} // verus!
