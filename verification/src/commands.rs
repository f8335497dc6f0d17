//! From the data of a match to its picture.

use crate::error::{CommandError, MinesweeperError};
use crate::minesweeper_logic::built_cells;
use crate::parser::{
    flag_log_spec, metadata_spec, mine_locations_spec, open_log_spec, parse, parse_error,
    payload_spec, segment_spec, Metadata, ParsedData,
};
use crate::provider::ApiData;
use crate::renderer::{render, render_spec, SpriteSheet};
use vstd::prelude::*;

verus! {

/// The longest side of a board that is shown as an animation.
pub const MAX_ANIMATED_SIDE: i32 = 32;

/// Whether the match is shown as an animation: if one was asked for and no
/// side of the board is longer than `MAX_ANIMATED_SIDE`.
pub open spec fn animated_spec(meta: Metadata, gif: bool) -> bool {
    gif && meta.x_size <= MAX_ANIMATED_SIDE && meta.y_size <= MAX_ANIMATED_SIDE
}

/// The picture file of the blob, or what making it fails with: an
/// `UnsupportedVersion` or a `DataParse` if the blob cannot be decoded, an
/// `ImageRender` if the decoded match cannot be rendered.
pub open spec fn image_data_spec(blob: Seq<char>, gif: bool, sheet: SpriteSheet) -> Result<
    Seq<u8>,
    CommandError,
> {
    match parse_error(blob) {
        Some(MinesweeperError::UnsupportedVersion) => Err(CommandError::UnsupportedVersion),
        Some(_) => Err(CommandError::DataParse),
        None => {
            let raw = payload_spec(blob);
            let meta = metadata_spec(segment_spec(raw, 0))->Some_0;
            match render_spec(
                meta,
                meta,
                built_cells(meta, mine_locations_spec(segment_spec(raw, 1))->Ok_0),
                open_log_spec(segment_spec(raw, 2))->Ok_0,
                flag_log_spec(segment_spec(raw, 3))->Ok_0,
                animated_spec(meta, gif),
                sheet,
            ) {
                Ok(bytes) => Ok(bytes),
                Err(_) => Err(CommandError::ImageRender),
            }
        },
    }
}

/// Renders a decoded match, as an animation if one was asked for and the
/// board is small enough for it.
pub fn image_of(parsed: ParsedData, gif: bool, sheet: &SpriteSheet) -> (image: Result<
    Vec<u8>,
    CommandError,
>)
    requires
        parsed.wf(),
    ensures
        match render_spec(
            parsed.metadata,
            parsed.metadata,
            parsed.game_board.cells(),
            parsed.open_data@,
            parsed.flag_data@,
            animated_spec(parsed.metadata, gif),
            *sheet,
        ) {
            Ok(bytes) => image matches Ok(b) && b@ == bytes,
            Err(_) => image == Err::<Vec<u8>, _>(CommandError::ImageRender),
        },
{
    let animate: bool = gif && parsed.metadata.x_size <= MAX_ANIMATED_SIDE
        && parsed.metadata.y_size <= MAX_ANIMATED_SIDE;
    let ParsedData { metadata, game_board, open_data, flag_data } = parsed;
    match render(
        &metadata,
        game_board,
        open_data.as_slice(),
        flag_data.as_slice(),
        animate,
        sheet,
    ) {
        Ok(bytes) => Ok(bytes),
        Err(_) => Err(CommandError::ImageRender),
    }
}

/// Returns the picture file of the match that `api_data` holds, or nothing
/// if it holds none.
///
/// Fails as `image_data_spec` says.
pub fn get_image_data(api_data: &ApiData, gif: bool, sheet: &SpriteSheet) -> (image: Result<
    Option<Vec<u8>>,
    CommandError,
>)
    ensures
        match api_data.game_data {
            None => image == Ok::<Option<Vec<u8>>, CommandError>(None),
            Some(blob) => match image_data_spec(blob@, gif, *sheet) {
                Ok(bytes) => image matches Ok(Some(b)) && b@ == bytes,
                Err(error) => image == Err::<Option<Vec<u8>>, _>(error),
            },
        },
{
    let blob: &String = match &api_data.game_data {
        Some(b) => b,
        None => {
            return Ok(None);
        },
    };
    let parsed: ParsedData = match parse(blob.as_str()) {
        Ok(p) => p,
        Err(MinesweeperError::UnsupportedVersion) => {
            return Err(CommandError::UnsupportedVersion);
        },
        Err(_) => {
            return Err(CommandError::DataParse);
        },
    };
    match image_of(parsed, gif, sheet) {
        Ok(bytes) => Ok(Some(bytes)),
        Err(error) => Err(error),
    }
}

} // verus!
