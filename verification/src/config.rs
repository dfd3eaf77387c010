//! Core configuration types: the volume descriptor, the database settings
//! byte, and the default configuration applied to locate queries.

use vstd::prelude::*;

verus! {

/// Root folder of a scanned directory tree and the location of its database
/// file.
#[derive(Debug, Clone)]
pub struct VolumeInfo {
    /// Root folder of a scanned directory tree.
    pub folder: String,
    /// Location of the corresponding database file.
    pub database: String,
}

/// What information is stored in a database.
#[derive(Debug, Clone, Copy, PartialEq, Eq, Structural)]
pub enum Settings {
    /// Store file names.
    FileNamesOnly,
    /// Store file names and sizes.
    WithFileSizes,
}

/// The settings byte persisted in a database header.
pub open spec fn settings_byte(s: Settings) -> u8 {
    match s {
        Settings::FileNamesOnly => 0,
        Settings::WithFileSizes => 1,
    }
}

impl Settings {
    /// The byte persisted in a database header.
    pub fn as_byte(&self) -> (b: u8)
        ensures
            b == settings_byte(*self),
    {
        match self {
            Settings::FileNamesOnly => 0,
            Settings::WithFileSizes => 1,
        }
    }

    /// Decode a header byte; bytes outside the known range are rejected.
    pub fn from_byte(b: u8) -> (r: Option<Settings>)
        ensures
            match r {
                Some(s) => settings_byte(s) == b,
                None => b != 0 && b != 1,
            },
    {
        if b == 0 {
            Some(Settings::FileNamesOnly)
        } else if b == 1 {
            Some(Settings::WithFileSizes)
        } else {
            None
        }
    }
}

/// In which order plain texts must appear in the pathname.
#[derive(Debug, Clone, Copy, PartialEq, Eq, Structural)]
pub enum Order {
    /// Plain texts may appear in any order.
    AnyOrder,
    /// Plain texts must appear in the given order.
    SameOrder,
}

/// Which part of the pathname is searched.
#[derive(Debug, Clone, Copy, PartialEq, Eq, Structural)]
pub enum What {
    /// The whole path.
    WholePath,
    /// The last path element only.
    LastElement,
}

/// How literal text items of a query are interpreted.
#[derive(Debug, Clone, Copy, PartialEq, Eq, Structural)]
pub enum Mode {
    /// Glob patterns are autodetected.
    Auto,
    /// Text items are plain text.
    Plain,
    /// Text items are glob patterns.
    Glob,
}

/// Default configuration for locate queries; the initial compiler state.
#[derive(Debug, Clone)]
pub struct LocateConfig {
    /// Case sensitivity.
    pub case_sensitive: bool,
    /// In which order plain texts must appear.
    pub order: Order,
    /// What parts of the pathname are searched.
    pub what: What,
    /// Whether space, minus and underscore in plain text match each other.
    pub smart_spaces: bool,
    /// Whether plain text must begin and end on a word boundary.
    pub word_boundaries: bool,
    /// Whether an asterisk in a glob refuses to match a path separator.
    pub literal_separator: bool,
    /// How text items are interpreted.
    pub mode: Mode,
}

/// Case sensitivity is off by default.
pub fn default_case_sensitive() -> (r: bool)
    ensures
        r == false,
{
    false
}

/// Smart spaces are on by default.
pub fn default_smart_spaces() -> (r: bool)
    ensures
        r == true,
{
    true
}

/// Word boundaries are off by default.
pub fn default_word_boundaries() -> (r: bool)
    ensures
        r == false,
{
    false
}

/// Literal separators are off by default.
pub fn default_literal_separator() -> (r: bool)
    ensures
        r == false,
{
    false
}

impl Default for Order {
    /// Any order, by default.
    fn default() -> (r: Order)
        ensures
            r == Order::AnyOrder,
    {
        Order::AnyOrder
    }
}

impl Default for What {
    /// The whole path, by default.
    fn default() -> (r: What)
        ensures
            r == What::WholePath,
    {
        What::WholePath
    }
}

impl Default for Mode {
    /// Autodetection, by default.
    fn default() -> (r: Mode)
        ensures
            r == Mode::Auto,
    {
        Mode::Auto
    }
}

/// The default configuration: case-insensitive, any order, whole path, smart
/// spaces on, word boundaries off, literal separator off, mode autodetected.
pub open spec fn default_config() -> LocateConfig {
    LocateConfig {
        case_sensitive: false,
        order: Order::AnyOrder,
        what: What::WholePath,
        smart_spaces: true,
        word_boundaries: false,
        literal_separator: false,
        mode: Mode::Auto,
    }
}

impl Default for LocateConfig {
    /// The default query configuration.
    fn default() -> (r: LocateConfig)
        ensures
            r == default_config(),
    {
        LocateConfig {
            case_sensitive: default_case_sensitive(),
            order: Order::default(),
            what: What::default(),
            smart_spaces: default_smart_spaces(),
            word_boundaries: default_word_boundaries(),
            literal_separator: default_literal_separator(),
            mode: Mode::default(),
        }
    }
}

} // verus!
