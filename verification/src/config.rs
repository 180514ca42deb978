use vstd::prelude::*;

use crate::podcast::Podcast;
use crate::text::str_eq;

verus! {

/// Where downloaded media is kept.
pub struct Config {
    pub media_dir: String,
}

/// What the configuration file supplies: the media directory, the command
/// that plays an episode, and the subscribed podcasts. (The playback speed
/// also found there is a floating-point concern of the player invocation
/// and stays with the caller that spawns the player.)
pub struct Settings {
    pub config: Config,
    pub player: String,
    pub podcasts: Vec<Podcast>,
}

impl Settings {
    /// Settings from their parts, as read from the configuration file.
    pub fn new(media_dir: String, player: String, podcasts: Vec<Podcast>) -> (r: Settings)
        ensures
            r.config.media_dir == media_dir,
            r.player == player,
            r.podcasts == podcasts,
    {
        Settings { config: Config { media_dir }, player, podcasts }
    }
}

/// What the user asked for.
#[derive(Clone, Copy, PartialEq, Eq, Structural, Debug)]
pub enum Action {
    LIST,
    CATCHUP,
    DOWNLOAD,
    PLAY,
}

/// The action word was none of the known ones; `input` is what was given.
#[derive(Debug)]
pub struct ParseActionError {
    pub input: String,
}

impl Action {
    /// The action named by an action word: exactly `download`, `list`,
    /// `catchup` and `play` are accepted; anything else is an error
    /// carrying the rejected word.
    pub fn parse(value: &str) -> (r: Result<Action, ParseActionError>)
        ensures
            value@ == "download"@ ==> (r matches Ok(a) && a is DOWNLOAD),
            value@ == "list"@ ==> (r matches Ok(a) && a is LIST),
            value@ == "catchup"@ ==> (r matches Ok(a) && a is CATCHUP),
            value@ == "play"@ ==> (r matches Ok(a) && a is PLAY),
            (value@ != "download"@ && value@ != "list"@ && value@ != "catchup"@ && value@
                != "play"@) ==> (r matches Err(e) && e.input@ == value@),
    {
        proof {
            reveal_strlit("download");
            reveal_strlit("list");
            reveal_strlit("catchup");
            reveal_strlit("play");
            assert("download"@.len() == 8 && "list"@.len() == 4 && "catchup"@.len() == 7
                && "play"@.len() == 4);
            assert("list"@[0] == 'l' && "play"@[0] == 'p');
            assert("download"@ != "list"@);
            assert("download"@ != "catchup"@);
            assert("download"@ != "play"@);
            assert("list"@ != "catchup"@);
            assert("list"@ != "play"@);
            assert("catchup"@ != "play"@);
        }
        if str_eq(value, "download") {
            Ok(Action::DOWNLOAD)
        } else if str_eq(value, "list") {
            Ok(Action::LIST)
        } else if str_eq(value, "catchup") {
            Ok(Action::CATCHUP)
        } else if str_eq(value, "play") {
            Ok(Action::PLAY)
        } else {
            Err(ParseActionError { input: value.to_owned() })
        }
    }
}

/// The parsed command line: an optional podcast filter, an optional
/// episode count, and the action to run.
pub struct Args {
    pub version: bool,
    pub podcast_id: Option<String>,
    pub count: Option<usize>,
    pub action: Action,
}

impl Args {
    /// The episode count to use: what was asked for, or the action's
    /// default (one for a download, five otherwise).
    pub fn effective_count(&self) -> (r: usize)
        ensures
            r == match self.count {
                Some(c) => c,
                None => if self.action is DOWNLOAD {
                    1usize
                } else {
                    5usize
                },
            },
    {
        match self.count {
            Some(c) => c,
            None => match self.action {
                Action::DOWNLOAD => 1,
                _ => 5,
            },
        }
    }
}

} // verus!
