//! The editor's configuration as a file can hold it.
use vstd::prelude::*;

verus! {

/// Where copied nodes go.
#[derive(Clone, Debug)]
pub enum ClipboardBackend {
    Os,
    Internal,
    File(String),
}

/// The editor's configuration.
#[derive(Clone, Debug)]
pub struct Config {
    pub max_parent_node_width: usize,
    pub max_leaf_node_width: usize,
    pub line_spacing: usize,
    pub initial_depth: usize,
    pub center_lock: bool,
    pub focus_lock: bool,
    pub max_undo_steps: usize,
    pub auto_save: bool,
    pub clipboard_backend: ClipboardBackend,
    pub symbol1: char,
    pub symbol2: char,
}

impl Default for Config {
    fn default() -> (c: Config)
        ensures
            c.max_parent_node_width == 25,
            c.max_leaf_node_width == 55,
            c.line_spacing == 1,
            c.initial_depth == 1,
            !c.center_lock,
            !c.focus_lock,
            c.max_undo_steps == 24,
            !c.auto_save,
            c.clipboard_backend is Os,
            c.symbol1 == '\u{2713}',
            c.symbol2 == '\u{2717}',
    {
        Config {
            max_parent_node_width: 25,
            max_leaf_node_width: 55,
            line_spacing: 1,
            initial_depth: 1,
            center_lock: false,
            focus_lock: false,
            max_undo_steps: 24,
            auto_save: false,
            clipboard_backend: ClipboardBackend::Os,
            symbol1: '\u{2713}',
            symbol2: '\u{2717}',
        }
    }
}

/// The platform that the program runs on, as far as the configuration's
/// place depends on it.
#[derive(Clone, Copy, Debug, PartialEq, Eq, Structural)]
pub enum Platform {
    Windows,
    MacOs,
    Other,
}

/// Where the configuration file lies, as a directory and the names to join
/// to it in turn: under `$XDG_CONFIG_HOME` where it is set; else on Windows
/// beside the executable, on macOS under `~/Library/Preferences`, and
/// elsewhere under `~/.config`; nowhere where the directory it needs is
/// unknown.
pub open spec fn config_place(
    xdg_config_home: Option<Seq<char>>,
    home: Option<Seq<char>>,
    exe_dir: Option<Seq<char>>,
    platform: Platform,
) -> Option<(Seq<char>, Seq<Seq<char>>)> {
    match xdg_config_home {
        Some(d) => Some((d, seq!["rust-mind-map"@, "config.toml"@])),
        None => match platform {
            Platform::Windows => match exe_dir {
                Some(e) => Some((e, seq!["config.toml"@])),
                None => None,
            },
            Platform::MacOs => match home {
                Some(h) => Some((h, seq!["Library"@, "Preferences"@, "rust-mind-map"@, "config.toml"@])),
                None => None,
            },
            Platform::Other => match home {
                Some(h) => Some((h, seq![".config"@, "rust-mind-map"@, "config.toml"@])),
                None => None,
            },
        },
    }
}

fn names(parts: &[&str]) -> (v: Vec<String>)
    ensures
        v.deep_view() == parts@.map_values(|p: &str| p@),
{
    let mut v: Vec<String> = Vec::new();
    let mut i: usize = 0;
    while i < parts.len()
        invariant
            i <= parts@.len(),
            v@.len() == i,
            forall|k: int| 0 <= k < i ==> #[trigger] v@[k]@ == parts@[k]@,
        decreases parts@.len() - i,
    {
        v.push(parts[i].to_owned());
        i += 1;
    }
    proof {
        assert(v.deep_view() =~= parts@.map_values(|p: &str| p@));
    }
    v
}

/// Where the configuration file lies (see `config_place`), given the
/// value of `XDG_CONFIG_HOME`, the home directory, the executable's
/// directory and the platform.
pub fn config_location(
    xdg_config_home: Option<String>,
    home: Option<String>,
    exe_dir: Option<String>,
    platform: Platform,
) -> (r: Option<(String, Vec<String>)>)
    ensures
        r.deep_view() == config_place(xdg_config_home.deep_view(), home.deep_view(), exe_dir.deep_view(), platform),
{
    match xdg_config_home {
        Some(d) => Some((d, names(&["rust-mind-map", "config.toml"]))),
        None => match platform {
            Platform::Windows => match exe_dir {
                Some(e) => Some((e, names(&["config.toml"]))),
                None => None,
            },
            Platform::MacOs => match home {
                Some(h) => Some((h, names(&["Library", "Preferences", "rust-mind-map", "config.toml"]))),
                None => None,
            },
            Platform::Other => match home {
                Some(h) => Some((h, names(&[".config", "rust-mind-map", "config.toml"]))),
                None => None,
            },
        },
    }
}

} // verus!
