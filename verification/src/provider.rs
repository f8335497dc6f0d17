//! The services that matches are fetched from: what they are called, and
//! the data that they hand over.

use crate::base36::{all_digits, decode, decode_spec, BASE};
use crate::error::MinesweeperError;
use crate::text::{chars_of, text_is};
use vstd::prelude::*;

verus! {

/// The provider that is asked if none is named.
pub const DEFAULT_PROVIDER: &'static str = "mcplayhd";

/// A match as a service hands it over.
#[derive(Clone, Debug)]
pub struct ApiData {
    /// The recorded match, if the service kept it.
    pub game_data: Option<String>,
    /// The difficulty.
    pub tiepe: Option<String>,
    /// The duration of the match, in milliseconds.
    pub time: u64,
    /// The generator of the board.
    pub generator: Option<String>,
    /// The identifier of the player.
    pub uuid: String,
    /// The number of flags on mines.
    pub correct_flags: Option<u32>,
    /// The number of flags on cells without a mine.
    pub incorrect_flags: Option<u32>,
    /// Whether the player won.
    pub won: bool,
}

/// A player as a service hands them over.
#[derive(Clone, Debug)]
pub struct PlayerData {
    /// The name shown for the player.
    pub name: String,
}

/// The service of Greev.
#[derive(Clone, Copy, Debug)]
pub struct GreevProvider;

/// The service of McPlayHD.
#[derive(Clone, Copy, Debug)]
pub struct McPlayHdProvider;

impl GreevProvider {
    /// Returns the identifier by which the provider is chosen.
    pub fn id(&self) -> (id: &'static str)
        ensures
            id@ == "greev"@,
    {
        "greev"
    }

    /// Returns the name shown for the provider.
    pub fn name(&self) -> (name: &'static str)
        ensures
            name@ == "Greev"@,
    {
        "Greev"
    }
}

impl McPlayHdProvider {
    /// Returns the identifier by which the provider is chosen.
    pub fn id(&self) -> (id: &'static str)
        ensures
            id@ == "mcplayhd"@,
    {
        "mcplayhd"
    }

    /// Returns the name shown for the provider.
    pub fn name(&self) -> (name: &'static str)
        ensures
            name@ == "McPlayHD"@,
    {
        "McPlayHD"
    }

    /// Returns the number under which the service knows the match with the
    /// identifier `gameid`: the identifier read as a radix 36 numeral.
    ///
    /// Fails with `ApiKeyNotFound` if `api_key` is empty, else with
    /// `InvalidDigit` if the identifier is no numeral and with
    /// `DataParseError` if its number is above `i64::MAX`.
    pub fn game_number(&self, gameid: &str, api_key: &str) -> (number: Result<
        i64,
        MinesweeperError,
    >)
        ensures
            match number {
                Ok(n) => api_key@.len() > 0 && all_digits(gameid@, BASE as int) && n
                    == decode_spec(gameid@, BASE as int),
                Err(error) => if api_key@.len() == 0 {
                    error == MinesweeperError::ApiKeyNotFound
                } else if all_digits(gameid@, BASE as int) {
                    error == MinesweeperError::DataParseError && decode_spec(
                        gameid@,
                        BASE as int,
                    ) > i64::MAX
                } else {
                    error == MinesweeperError::InvalidDigit
                },
            },
    {
        if api_key.is_empty() {
            return Err(MinesweeperError::ApiKeyNotFound);
        }
        decode(gameid)
    }
}

/// The providers that can be chosen.
#[derive(Clone, Copy, Debug, PartialEq, Eq, Structural)]
pub enum KnownProvider {
    /// The service of Greev.
    Greev,
    /// The service of McPlayHD.
    McPlayHd,
}

/// The provider with the identifier `id`.
pub open spec fn provider_spec(id: Seq<char>) -> Option<KnownProvider> {
    if id == "greev"@ {
        Some(KnownProvider::Greev)
    } else if id == "mcplayhd"@ {
        Some(KnownProvider::McPlayHd)
    } else {
        None
    }
}

/// Returns the provider with the identifier `id`, if there is one.
pub fn provider_by_id(id: &str) -> (provider: Option<KnownProvider>)
    ensures
        provider == provider_spec(id@),
{
    let chars = chars_of(id);
    if text_is(chars.as_slice(), GreevProvider.id()) {
        Some(KnownProvider::Greev)
    } else if text_is(chars.as_slice(), McPlayHdProvider.id()) {
        Some(KnownProvider::McPlayHd)
    } else {
        None
    }
}

/// The text in lower case, as `str::to_lowercase` gives it.
pub uninterp spec fn lowercase_spec(text: Seq<char>) -> Seq<char>;

/// Calls `str::to_lowercase`, whose result is given the name
/// `lowercase_spec`.
#[verifier::external_body]
fn lowercase(text: &str) -> (lower: String)
    ensures
        lower@ == lowercase_spec(text@),
{
    text.to_lowercase()
}

/// Returns the provider that was asked for: the one whose identifier is
/// `name` in lower case, or the default one if none was named.
pub fn select_provider(name: Option<&str>) -> (provider: Option<KnownProvider>)
    ensures
        provider == match name {
            Some(n) => provider_spec(lowercase_spec(n@)),
            None => provider_spec(DEFAULT_PROVIDER@),
        },
{
    match name {
        Some(n) => {
            let lower: String = lowercase(n);
            provider_by_id(lower.as_str())
        },
        None => provider_by_id(DEFAULT_PROVIDER),
    }
}

} // verus!
