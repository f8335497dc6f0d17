//! Error kinds of the decoding and rendering pipeline.

use vstd::prelude::*;
use vstd::string::StringExecFns;

verus! {

/// Failures of decoding, board construction, rendering and data retrieval.
#[derive(Clone, Copy, Debug, PartialEq, Eq, Structural)]
pub enum MinesweeperError {
    /// The frames could not be encoded as an animated image.
    GifEncoding,
    /// A sprite could not be placed on the canvas.
    ImageInsertion,
    /// An animation was requested for a match without any action.
    NoFrames,
    /// The answer of a data service could not be understood.
    ApiDataParse,
    /// A data service does not know the requested match.
    GameDataNotFound,
    /// The data is not laid out as a recorded match, or holds a number
    /// that does not fit the machine integer it is decoded into.
    DataParseError,
    /// A data service needs a key that is not configured.
    ApiKeyNotFound,
    /// A character is not a digit of the numeral alphabet in use.
    InvalidDigit,
    /// The board dimensions are not of the form `<width>x<height>`.
    MalformedMetadata,
    /// A coordinate of a mine or of an action cannot be decoded.
    MalformedCoordinate,
    /// The time of an action cannot be decoded.
    MalformedTimestamp,
    /// A flag action is tagged with something other than `P` or `R`.
    UnknownActionTag,
    /// A mine or an action lies outside the board.
    CoordinateOutOfBounds,
    /// The blob carries a version tag that no grammar is registered for.
    UnsupportedVersion,
}

/// Failures reported to whoever asked for a picture of a match.
#[derive(Clone, Copy, Debug, PartialEq, Eq, Structural)]
pub enum CommandError {
    /// The blob carries a version tag that no grammar is registered for.
    UnsupportedVersion,
    /// The picture could not be produced.
    ImageRender,
    /// The blob could not be decoded.
    DataParse,
}

impl MinesweeperError {
    /// The text shown for this error.
    pub open spec fn message_spec(self) -> Seq<char> {
        match self {
            MinesweeperError::GifEncoding => "Gif Encoding Error"@,
            MinesweeperError::ImageInsertion => "Image insertion Error"@,
            MinesweeperError::NoFrames => "No frames error"@,
            MinesweeperError::ApiDataParse => "Unable to parse API Data"@,
            MinesweeperError::GameDataNotFound => "Gamedata not found"@,
            MinesweeperError::DataParseError => "Data could not be parsed"@,
            MinesweeperError::ApiKeyNotFound => "No Api Key was found for the provider"@,
            MinesweeperError::InvalidDigit => "Invalid digit"@,
            MinesweeperError::MalformedMetadata => "Malformed board dimensions"@,
            MinesweeperError::MalformedCoordinate => "Malformed coordinate"@,
            MinesweeperError::MalformedTimestamp => "Malformed timestamp"@,
            MinesweeperError::UnknownActionTag => "Unknown action tag"@,
            MinesweeperError::CoordinateOutOfBounds => "Coordinate out of bounds"@,
            MinesweeperError::UnsupportedVersion => "Unsupported version"@,
        }
    }

    /// Returns the text shown for this error.
    pub fn message(&self) -> (text: String)
        ensures
            text@ == self.message_spec(),
    {
        match self {
            MinesweeperError::GifEncoding => String::from_str("Gif Encoding Error"),
            MinesweeperError::ImageInsertion => String::from_str("Image insertion Error"),
            MinesweeperError::NoFrames => String::from_str("No frames error"),
            MinesweeperError::ApiDataParse => String::from_str("Unable to parse API Data"),
            MinesweeperError::GameDataNotFound => String::from_str("Gamedata not found"),
            MinesweeperError::DataParseError => String::from_str("Data could not be parsed"),
            MinesweeperError::ApiKeyNotFound => String::from_str(
                "No Api Key was found for the provider",
            ),
            MinesweeperError::InvalidDigit => String::from_str("Invalid digit"),
            MinesweeperError::MalformedMetadata => String::from_str("Malformed board dimensions"),
            MinesweeperError::MalformedCoordinate => String::from_str("Malformed coordinate"),
            MinesweeperError::MalformedTimestamp => String::from_str("Malformed timestamp"),
            MinesweeperError::UnknownActionTag => String::from_str("Unknown action tag"),
            MinesweeperError::CoordinateOutOfBounds => String::from_str("Coordinate out of bounds"),
            MinesweeperError::UnsupportedVersion => String::from_str("Unsupported version"),
        }
    }
}

impl CommandError {
    /// The text shown for this error.
    pub open spec fn message_spec(self) -> Seq<char> {
        match self {
            CommandError::UnsupportedVersion => "The Game Data is from an unsupported version."@,
            CommandError::ImageRender => "Image could not be rendered."@,
            CommandError::DataParse => "The data seems to be corrupted."@,
        }
    }

    /// Returns the text shown for this error.
    pub fn message(&self) -> (text: String)
        ensures
            text@ == self.message_spec(),
    {
        match self {
            CommandError::UnsupportedVersion => String::from_str(
                "The Game Data is from an unsupported version.",
            ),
            CommandError::ImageRender => String::from_str("Image could not be rendered."),
            CommandError::DataParse => String::from_str("The data seems to be corrupted."),
        }
    }
}

} // verus!
