//! What a run is asked to do, and where it finds its folders.
use vstd::prelude::*;

use crate::text::str_eq;

verus! {

/// What a run does with the matches it finds.
#[derive(Debug, PartialEq, Eq, Structural, Clone, Copy)]
pub enum Action {
    /// Finds and records matches only.
    Test,
    /// Also refreshes the records of folders seen before.
    Renew,
    /// Also copies each matched folder into its target.
    Reflink,
}

/// The action a command-line word names; any other word means `Test`.
pub open spec fn action_of(word: Seq<char>) -> Action {
    if word == "renew"@ {
        Action::Renew
    } else if word == "reflink"@ {
        Action::Reflink
    } else {
        Action::Test
    }
}

/// The word that names an action.
pub open spec fn action_word(a: Action) -> Seq<char> {
    match a {
        Action::Test => "test"@,
        Action::Renew => "renew"@,
        Action::Reflink => "reflink"@,
    }
}

impl Action {
    /// The word that names this action.
    pub fn to_string(&self) -> (r: String)
        ensures
            r@ == action_word(*self),
    {
        match self {
            Action::Test => "test".to_owned(),
            Action::Renew => "renew".to_owned(),
            Action::Reflink => "reflink".to_owned(),
        }
    }
}

impl From<&str> for Action {
    /// The action a word names; any other word means `Test`.
    fn from(s: &str) -> (r: Action) {
        if str_eq(s, "renew") {
            Action::Renew
        } else if str_eq(s, "reflink") {
            Action::Reflink
        } else {
            Action::Test
        }
    }
}

impl vstd::std_specs::convert::FromSpecImpl<&str> for Action {
    open spec fn obeys_from_spec() -> bool {
        true
    }

    open spec fn from_spec(s: &str) -> Action {
        action_of(s@)
    }
}

/// Where the record of matches is kept when no path is given.
pub const DEFAULT_MAPFILE: &'static str = ".data/data.yaml";

/// Where the downloaded folders are when no path is given.
pub const DEFAULT_SOURCE: &'static str = "X:\\SOURCE";

/// Where the library of target folders is when no path is given.
pub const DEFAULT_ANIME: &'static str = "X:\\ANIME";

/// The settings of a run.
#[derive(Debug)]
pub struct Config {
    pub action: Action,
    pub mapfile_path: String,
    pub source_path: String,
    pub anime_path: String,
}

/// Argument `i` of `args`, or `default` where there are not that many.
pub open spec fn arg_or(args: Seq<String>, i: int, default: Seq<char>) -> Seq<char> {
    if i < args.len() {
        args[i]@
    } else {
        default
    }
}

impl Config {
    /// Reads the settings from the command line: the program name, then the action, the
    /// record file, the source folder and the library folder, each optional in turn.
    pub fn new(args: Vec<String>) -> (r: Config)
        ensures
            r.action == (if args@.len() > 1 {
                action_of(args@[1]@)
            } else {
                Action::Test
            }),
            r.mapfile_path@ == arg_or(args@, 2, DEFAULT_MAPFILE@),
            r.source_path@ == arg_or(args@, 3, DEFAULT_SOURCE@),
            r.anime_path@ == arg_or(args@, 4, DEFAULT_ANIME@),
    {
        let action = if args.len() > 1 {
            Action::from(args[1].as_str())
        } else {
            Action::Test
        };
        let mapfile_path = if args.len() > 2 {
            args[2].clone()
        } else {
            DEFAULT_MAPFILE.to_owned()
        };
        let source_path = if args.len() > 3 {
            args[3].clone()
        } else {
            DEFAULT_SOURCE.to_owned()
        };
        let anime_path = if args.len() > 4 {
            args[4].clone()
        } else {
            DEFAULT_ANIME.to_owned()
        };
        Config { action, mapfile_path, source_path, anime_path }
    }
}

} // verus!
