use minesweeper_replay::commands::{get_image_data, image_of};
use minesweeper_replay::error::{CommandError, MinesweeperError};
use minesweeper_replay::minesweeper_logic::{Board, Field, FieldState};
use minesweeper_replay::parser::{parse_v1, Action, FlagAction, Metadata, OpenAction};
use minesweeper_replay::provider::{
    provider_by_id, select_provider, ApiData, GreevProvider, KnownProvider, McPlayHdProvider,
};
use minesweeper_replay::renderer::{
    animation_frames, compose, layout, paint_tile, render, still_picture, tile_index, Layout,
    SpriteSheet, CLOSED_TILE, FLAGGED_TILE, MINE_TILE,
};

/// Sprites of one colour each: the sprite `k` has the bytes `k`, `k + 100`,
/// `k + 200` and 255 in each pixel.
fn plain_sheet(tile_size: u32) -> SpriteSheet {
    let pixels = (tile_size * tile_size) as usize;
    let tiles = (0..12u8).map(|k| [k, k + 100, k + 200, 255].repeat(pixels)).collect();
    SpriteSheet { tile_size, tiles }
}

/// Sprites in which every byte differs from its neighbours.
fn varied_sheet(tile_size: u32) -> SpriteSheet {
    let bytes = (tile_size * tile_size * 4) as usize;
    let tiles = (0..12usize)
        .map(|k| (0..bytes).map(|i| if i % 4 == 3 { 255 } else { (k * 20 + i) as u8 }).collect())
        .collect();
    SpriteSheet { tile_size, tiles }
}

fn tile_at(pixels: &[u8], lay: &Layout, x: usize, y: usize) -> Vec<u8> {
    let mut tile = Vec::new();
    for r in 0..lay.tile_size {
        let from = (y * lay.tile_size + r) * lay.line + x * lay.tile_line;
        tile.extend_from_slice(&pixels[from..from + lay.tile_line]);
    }
    tile
}

fn open(x: i32, y: i32, total_time: i64) -> OpenAction {
    OpenAction { x, y, time: 0, total_time }
}

fn flag(x: i32, y: i32, action: Action, total_time: i64) -> FlagAction {
    FlagAction { x, y, time: 0, action, total_time }
}

fn api_data(game_data: Option<&str>) -> ApiData {
    ApiData {
        game_data: game_data.map(String::from),
        tiepe: None,
        time: 0,
        generator: None,
        uuid: String::new(),
        correct_flags: None,
        incorrect_flags: None,
        won: false,
    }
}

#[test]
fn sprite_of_each_kind_of_cell() {
    let field = |mine, value, field_state| Field { mine, value, field_state };
    assert_eq!(tile_index(field(false, 0, FieldState::Closed)), CLOSED_TILE);
    assert_eq!(tile_index(field(true, 0, FieldState::Closed)), CLOSED_TILE);
    assert_eq!(tile_index(field(false, 3, FieldState::Flagged)), FLAGGED_TILE);
    assert_eq!(tile_index(field(true, 0, FieldState::Opened)), MINE_TILE);
    for value in 0..=8 {
        assert_eq!(tile_index(field(false, value, FieldState::Opened)), value as usize);
    }
}

#[test]
fn measures_of_a_picture() {
    let lay = layout(&Metadata { x_size: 3, y_size: 2 }, 16).unwrap();
    assert_eq!((lay.columns, lay.rows, lay.tile_size), (3, 2, 16));
    assert_eq!((lay.width, lay.height), (48, 32));
    assert_eq!((lay.tile_line, lay.line, lay.lines), (64, 192, 32));
    assert_eq!(lay.total, 48 * 32 * 4);
    assert!(layout(&Metadata { x_size: 65536, y_size: 1 }, 65536).is_none());
    assert!(layout(&Metadata { x_size: 1, y_size: 65536 }, 65536).is_none());
    assert!(layout(&Metadata { x_size: 65535, y_size: 1 }, 65537).is_some());
}

#[test]
fn sprite_sheets_that_cannot_be_used() {
    assert!(plain_sheet(3).is_valid());
    assert!(!SpriteSheet { tile_size: 0, tiles: vec![vec![]; 12] }.is_valid());
    assert!(!SpriteSheet { tile_size: 1, tiles: vec![vec![0; 4]; 11] }.is_valid());
    assert!(!SpriteSheet { tile_size: 1, tiles: vec![vec![0; 4]; 13] }.is_valid());
    let mut short = plain_sheet(2);
    short.tiles[7].pop();
    assert!(!short.is_valid());
}

#[test]
fn painting_one_tile_leaves_the_others() {
    let lay = layout(&Metadata { x_size: 3, y_size: 2 }, 2).unwrap();
    let mut canvas = vec![7u8; lay.total];
    let sprite: Vec<u8> = (100..116).collect();
    paint_tile(&mut canvas, &lay, 1, 1, &sprite);
    for x in 0..3 {
        for y in 0..2 {
            if (x, y) == (1, 1) {
                assert_eq!(tile_at(&canvas, &lay, x, y), sprite);
            } else {
                assert_eq!(tile_at(&canvas, &lay, x, y), vec![7u8; 16]);
            }
        }
    }
    assert_eq!(&canvas[(2 * 24 + 8)..(2 * 24 + 16)], &sprite[..8]);
    assert_eq!(&canvas[(3 * 24 + 8)..(3 * 24 + 16)], &sprite[8..]);
}

#[test]
fn picture_shows_each_cell_by_its_sprite() {
    let metadata = Metadata { x_size: 3, y_size: 2 };
    let mut board = Board::build(&metadata, &[(0, 0)]).unwrap();
    board.open_field(0, 0);
    board.open_field(1, 1);
    board.open_field(2, 1);
    board.place_flag(2, 0);
    let sheet = varied_sheet(3);
    let lay = layout(&metadata, 3).unwrap();
    let pixels = compose(&board, &lay, &sheet);
    assert_eq!(pixels.len(), 9 * 6 * 4);
    let expected = [[MINE_TILE, CLOSED_TILE], [CLOSED_TILE, 1], [FLAGGED_TILE, 0]];
    for x in 0..3 {
        for y in 0..2 {
            assert_eq!(tile_at(&pixels, &lay, x, y), sheet.tiles[expected[x][y]], "{},{}", x, y);
        }
    }
}

#[test]
fn still_picture_is_that_of_the_board_after_all_actions() {
    let metadata = Metadata { x_size: 2, y_size: 2 };
    let board = Board::build(&metadata, &[(1, 1)]).unwrap();
    let opens = [open(0, 0, 5), open(0, 1, 30)];
    let flags = [
        flag(1, 1, Action::Place, 10),
        flag(0, 1, Action::Place, 20),
        flag(0, 1, Action::Remove, 25),
    ];
    let sheet = plain_sheet(1);
    let pixels = still_picture(board, &opens, &flags, &sheet);
    let at = |x: usize, y: usize| pixels[(y * 2 + x) * 4];
    assert_eq!(at(0, 0), 1);
    assert_eq!(at(0, 1), 1);
    assert_eq!(at(1, 0), CLOSED_TILE as u8);
    assert_eq!(at(1, 1), FLAGGED_TILE as u8);
}

#[test]
fn an_action_that_comes_too_late_changes_nothing() {
    let metadata = Metadata { x_size: 1, y_size: 1 };
    let sheet = plain_sheet(1);
    let flagged_first = Board::build(&metadata, &[]).unwrap();
    let pixels = still_picture(
        flagged_first,
        &[open(0, 0, 2)],
        &[flag(0, 0, Action::Place, 1)],
        &sheet,
    );
    assert_eq!(pixels[0], FLAGGED_TILE as u8);
    let opened_first = Board::build(&metadata, &[]).unwrap();
    let pixels = still_picture(
        opened_first,
        &[open(0, 0, 1)],
        &[flag(0, 0, Action::Place, 1)],
        &sheet,
    );
    assert_eq!(pixels[0], 0);
}

#[test]
fn one_frame_for_each_action() {
    let metadata = Metadata { x_size: 3, y_size: 3 };
    let mines = [(1, 1)];
    let opens = [open(0, 0, 1), open(2, 2, 7), open(1, 1, 9)];
    let flags = [
        flag(1, 1, Action::Place, 3),
        flag(1, 1, Action::Remove, 8),
        flag(0, 0, Action::Place, 8),
    ];
    let sheet = varied_sheet(2);
    let board = Board::build(&metadata, &mines).unwrap();
    let frames = animation_frames(board, &opens, &flags, &sheet);
    assert_eq!(frames.len(), 6);

    let lay = layout(&metadata, 2).unwrap();
    let mut replay = Board::build(&metadata, &mines).unwrap();
    opens[0].perform_action(&mut replay);
    assert_eq!(frames[0], compose(&replay, &lay, &sheet));
    flags[0].perform_action(&mut replay);
    assert_eq!(frames[1], compose(&replay, &lay, &sheet));
    opens[1].perform_action(&mut replay);
    assert_eq!(frames[2], compose(&replay, &lay, &sheet));
    flags[1].perform_action(&mut replay);
    assert_eq!(frames[3], compose(&replay, &lay, &sheet));
    flags[2].perform_action(&mut replay);
    assert_eq!(frames[4], compose(&replay, &lay, &sheet));
    opens[2].perform_action(&mut replay);
    assert_eq!(frames[5], compose(&replay, &lay, &sheet));
    assert_ne!(frames[4], frames[5]);
    assert_eq!(tile_at(&frames[5], &lay, 1, 1), sheet.tiles[MINE_TILE]);

    let again = Board::build(&metadata, &mines).unwrap();
    assert_eq!(still_picture(again, &opens, &flags, &sheet), frames[5]);
}

#[test]
fn first_frame_is_painted_whole_whatever_the_mask_says() {
    let metadata = Metadata { x_size: 2, y_size: 1 };
    let mut board = Board::build(&metadata, &[]).unwrap();
    board.clear_changed();
    let sheet = plain_sheet(1);
    let frames = animation_frames(board, &[open(0, 0, 0)], &[], &sheet);
    assert_eq!(frames, vec![vec![0, 100, 200, 255, 9, 109, 209, 255]]);
}

#[test]
fn animation_without_actions_has_no_frames() {
    let metadata = Metadata { x_size: 3, y_size: 3 };
    let sheet = plain_sheet(4);
    let board = Board::build(&metadata, &[(1, 1)]).unwrap();
    assert_eq!(render(&metadata, board, &[], &[], true, &sheet), Err(MinesweeperError::NoFrames));

    let board = Board::build(&metadata, &[(1, 1)]).unwrap();
    let still = render(&metadata, board, &[], &[], false, &sheet).unwrap();
    assert_eq!(&still[..4], b"RIFF");
    assert_eq!(&still[8..12], b"WEBP");
    let decoded = image::load_from_memory(&still).unwrap().to_rgba8();
    assert_eq!(decoded.dimensions(), (12, 12));
    let closed = Board::build(&metadata, &[(1, 1)]).unwrap();
    let lay = layout(&metadata, 4).unwrap();
    assert_eq!(decoded.into_raw(), compose(&closed, &lay, &sheet));
}

#[test]
fn still_file_holds_the_picture() {
    let metadata = Metadata { x_size: 4, y_size: 3 };
    let mines = [(0, 0), (3, 2)];
    let opens = [open(1, 1, 3), open(3, 2, 9), open(2, 0, 12)];
    let flags = [flag(0, 0, Action::Place, 5)];
    let sheet = varied_sheet(5);
    let board = Board::build(&metadata, &mines).unwrap();
    let file = render(&metadata, board, &opens, &flags, false, &sheet).unwrap();
    let decoded = image::load_from_memory(&file).unwrap().to_rgba8();
    assert_eq!(decoded.dimensions(), (20, 15));
    let board = Board::build(&metadata, &mines).unwrap();
    let pixels = still_picture(board, &opens, &flags, &sheet);
    assert_ne!(file, pixels);
    assert_eq!(decoded.into_raw(), pixels);
}

#[test]
fn animation_file_holds_one_picture_for_each_action() {
    let metadata = Metadata { x_size: 2, y_size: 2 };
    let opens = [open(0, 0, 1), open(1, 1, 2)];
    let flags = [flag(1, 0, Action::Place, 1)];
    let sheet = plain_sheet(3);
    let board = Board::build(&metadata, &[]).unwrap();
    let file = render(&metadata, board, &opens, &flags, true, &sheet).unwrap();
    assert_eq!(&file[..6], b"GIF89a");
    assert_eq!(*file.last().unwrap(), 0x3b);
    assert_eq!(u16::from_le_bytes([file[6], file[7]]), 6);
    assert_eq!(u16::from_le_bytes([file[8], file[9]]), 6);
    let separators = file.windows(2).filter(|w| w == &[0x21, 0xf9]).count();
    assert_eq!(separators, 3);
    let decoded = image::load_from_memory(&file).unwrap().to_rgba8();
    let board = Board::build(&metadata, &[]).unwrap();
    let frames = animation_frames(board, &opens, &flags, &sheet);
    assert_eq!(decoded.into_raw(), frames[0]);
}

#[test]
fn render_errors() {
    let metadata = Metadata { x_size: 2, y_size: 2 };
    let sheet = plain_sheet(1);
    let build = || Board::build(&metadata, &[]).unwrap();
    assert_eq!(
        render(&Metadata { x_size: 2, y_size: 3 }, build(), &[], &[], false, &sheet),
        Err(MinesweeperError::MalformedMetadata)
    );
    assert_eq!(
        render(&metadata, build(), &[open(2, 0, 0)], &[], false, &sheet),
        Err(MinesweeperError::CoordinateOutOfBounds)
    );
    assert_eq!(
        render(&metadata, build(), &[], &[flag(0, -1, Action::Place, 0)], true, &sheet),
        Err(MinesweeperError::CoordinateOutOfBounds)
    );
    let mut broken = plain_sheet(1);
    broken.tiles.pop();
    assert_eq!(
        render(&metadata, build(), &[open(0, 0, 0)], &[], true, &broken),
        Err(MinesweeperError::ImageInsertion)
    );
    assert_eq!(
        render(&metadata, build(), &[], &[], false, &broken),
        Err(MinesweeperError::ImageInsertion)
    );
    assert_eq!(
        render(&metadata, build(), &[], &[], true, &broken),
        Err(MinesweeperError::NoFrames)
    );
    let wide = Metadata { x_size: 16385, y_size: 1 };
    let board = Board::build(&wide, &[]).unwrap();
    assert_eq!(
        render(&wide, board, &[], &[], false, &sheet),
        Err(MinesweeperError::GifEncoding)
    );
    let wide = Metadata { x_size: 65536, y_size: 1 };
    let board = Board::build(&wide, &[]).unwrap();
    assert_eq!(
        render(&wide, board, &[open(0, 0, 0)], &[], true, &sheet),
        Err(MinesweeperError::GifEncoding)
    );
}

#[test]
fn picture_of_the_data_of_a_service() {
    let sheet = plain_sheet(2);
    assert_eq!(get_image_data(&api_data(None), true, &sheet), Ok(None));
    let blob = api_data(Some("1=3x3+11+005+000P"));
    let still = get_image_data(&blob, false, &sheet).unwrap().unwrap();
    assert_eq!(&still[8..12], b"WEBP");
    let animation = get_image_data(&blob, true, &sheet).unwrap().unwrap();
    assert_eq!(&animation[..6], b"GIF89a");
    assert_eq!(
        get_image_data(&api_data(Some("7=3x3+11+005+000P")), true, &sheet),
        Err(CommandError::UnsupportedVersion)
    );
    assert_eq!(
        get_image_data(&api_data(Some("3x3+11+005+000P")), true, &sheet),
        Err(CommandError::UnsupportedVersion)
    );
    assert_eq!(
        get_image_data(&api_data(Some("1=3x3+11+005+000")), true, &sheet),
        Err(CommandError::DataParse)
    );
    assert_eq!(
        get_image_data(&api_data(Some("1=3x3+11++")), true, &sheet),
        Err(CommandError::ImageRender)
    );
    let mut broken = plain_sheet(2);
    broken.tile_size = 3;
    assert_eq!(
        get_image_data(&api_data(Some("1=3x3+11+005+")), false, &broken),
        Err(CommandError::ImageRender)
    );
}

#[test]
fn large_boards_are_not_animated() {
    let sheet = plain_sheet(1);
    let wide = get_image_data(&api_data(Some("1=33x2+11+005+")), true, &sheet).unwrap().unwrap();
    assert_eq!(&wide[8..12], b"WEBP");
    let high = get_image_data(&api_data(Some("1=2x33+11+005+")), true, &sheet).unwrap().unwrap();
    assert_eq!(&high[8..12], b"WEBP");
    let small = get_image_data(&api_data(Some("1=32x32+11+005+")), true, &sheet).unwrap().unwrap();
    assert_eq!(&small[..6], b"GIF89a");
    let parsed = parse_v1("33x2+11++").unwrap();
    assert!(image_of(parsed, true, &sheet).is_ok());
    let parsed = parse_v1("32x2+11++").unwrap();
    assert_eq!(image_of(parsed, true, &sheet), Err(CommandError::ImageRender));
}

#[test]
fn providers_by_name() {
    assert_eq!(GreevProvider.id(), "greev");
    assert_eq!(GreevProvider.name(), "Greev");
    assert_eq!(McPlayHdProvider.id(), "mcplayhd");
    assert_eq!(McPlayHdProvider.name(), "McPlayHD");
    assert_eq!(provider_by_id("greev"), Some(KnownProvider::Greev));
    assert_eq!(provider_by_id("mcplayhd"), Some(KnownProvider::McPlayHd));
    assert_eq!(provider_by_id("Greev"), None);
    assert_eq!(provider_by_id(""), None);
    assert_eq!(select_provider(None), Some(KnownProvider::McPlayHd));
    assert_eq!(select_provider(Some("Greev")), Some(KnownProvider::Greev));
    assert_eq!(select_provider(Some("MCPLAYHD")), Some(KnownProvider::McPlayHd));
    assert_eq!(select_provider(Some("hypixel")), None);
}

#[test]
fn number_of_a_match() {
    assert_eq!(McPlayHdProvider.game_number("zz", "key"), Ok(1295));
    assert_eq!(McPlayHdProvider.game_number("zz", ""), Err(MinesweeperError::ApiKeyNotFound));
    assert_eq!(McPlayHdProvider.game_number("z-z", ""), Err(MinesweeperError::ApiKeyNotFound));
    assert_eq!(McPlayHdProvider.game_number("z-z", "key"), Err(MinesweeperError::InvalidDigit));
    assert_eq!(
        McPlayHdProvider.game_number("zzzzzzzzzzzzzz", "key"),
        Err(MinesweeperError::DataParseError)
    );
}

#[test]
fn texts_of_errors() {
    assert_eq!(MinesweeperError::GifEncoding.message(), "Gif Encoding Error");
    assert_eq!(MinesweeperError::ImageInsertion.message(), "Image insertion Error");
    assert_eq!(MinesweeperError::NoFrames.message(), "No frames error");
    assert_eq!(MinesweeperError::ApiDataParse.message(), "Unable to parse API Data");
    assert_eq!(MinesweeperError::GameDataNotFound.message(), "Gamedata not found");
    assert_eq!(MinesweeperError::DataParseError.message(), "Data could not be parsed");
    assert_eq!(
        MinesweeperError::ApiKeyNotFound.message(),
        "No Api Key was found for the provider"
    );
    assert_eq!(
        CommandError::UnsupportedVersion.message(),
        "The Game Data is from an unsupported version."
    );
    assert_eq!(CommandError::ImageRender.message(), "Image could not be rendered.");
    assert_eq!(CommandError::DataParse.message(), "The data seems to be corrupted.");
    let others = [
        MinesweeperError::InvalidDigit,
        MinesweeperError::MalformedMetadata,
        MinesweeperError::MalformedCoordinate,
        MinesweeperError::MalformedTimestamp,
        MinesweeperError::UnknownActionTag,
        MinesweeperError::CoordinateOutOfBounds,
        MinesweeperError::UnsupportedVersion,
    ];
    for (i, error) in others.iter().enumerate() {
        assert!(!error.message().is_empty());
        for other in &others[..i] {
            assert_ne!(error.message(), other.message());
        }
    }
}
