//! Configuration loading: a JSON file in the working directory names
//! the comics folder; a missing, unreadable or malformed file falls
//! back to the default folder.

use vstd::prelude::*;
use vstd::string::StringExecFns;

verus! {

/// The name of the configuration file looked for in the working
/// directory.
pub open spec fn config_file_name() -> Seq<char> {
    "cbr-config.json"@
}

/// The folder scanned when no configuration applies.
pub open spec fn default_folder() -> Seq<char> {
    "Comics"@
}

/// The loaded configuration: the folder to scan for comic archives.
pub struct Config {
    pub comics_folder_path: String,
}

impl Default for Config {
    /// The fallback configuration points at the literal folder `Comics`.
    fn default() -> (r: Self)
        ensures
            r.comics_folder_path@ == default_folder(),
    {
        Config { comics_folder_path: String::from_str("Comics") }
    }
}

/// The key under which the configuration file names the comics folder.
pub open spec fn config_key() -> Seq<char> {
    "comics_folder_path"@
}

/// The string field stored under `key` in the JSON text `s`: present
/// exactly when `s` is valid JSON holding a string there, and a
/// function of the two texts alone.
pub uninterp spec fn json_string_field(s: Seq<char>, key: Seq<char>) -> Option<Seq<char>>;

/// Relies on serde_json's from_str::<Value>, Value::get and
/// Value::as_str, chained: parsing the text and reading the named
/// string field. Each step is a pure function of the text (parsing
/// cannot panic, and an over-deep document is an error, not an
/// overflow), so the chain's result is the named field of the text.
#[verifier::external_body]
fn extract_string_field(s: &str, key: &str) -> (r: Option<String>)
    ensures
        match r {
            Some(p) => json_string_field(s@, key@) == Some(p@),
            None => json_string_field(s@, key@) is None,
        },
{
    match serde_json::from_str::<serde_json::Value>(s) {
        Ok(v) => match v.get(key) {
            Some(f) => match f.as_str() {
                Some(p) => Some(p.to_string()),
                None => None,
            },
            None => None,
        },
        Err(_) => None,
    }
}

/// Builds the configuration from the extracted field: a present field
/// yields exactly that path, an absent one yields nothing.
pub fn config_from_field(field: Option<String>) -> (r: Option<Config>)
    ensures
        match field {
            Some(p) => r == (Some(Config { comics_folder_path: p })),
            None => r is None,
        },
{
    match field {
        Some(p) => Some(Config { comics_folder_path: p }),
        None => None,
    }
}

/// Parses the configuration file's text: exactly the text's
/// `comics_folder_path` string field, when it holds one. Text that is
/// not valid JSON yields nothing; so does an object without such a
/// string field.
pub fn parse_config(contents: &str) -> (r: Option<Config>)
    ensures
        match json_string_field(contents@, config_key()) {
            Some(p) => r matches Some(c) && c.comics_folder_path@ == p,
            None => r is None,
        },
{
    config_from_field(extract_string_field(contents, "comics_folder_path"))
}

/// Falls back to the default: a parsed configuration stays as it is, an
/// absent one becomes the default folder.
pub fn config_or_default(c: Option<Config>) -> (r: Config)
    ensures
        match c {
            Some(cfg) => r == cfg,
            None => r.comics_folder_path@ == default_folder(),
        },
{
    match c {
        Some(cfg) => cfg,
        None => Config::default(),
    }
}

/// Loads the configuration from the file's text, where `None` stands
/// for a file that was absent or unreadable. The loaded path is exactly
/// the text's `comics_folder_path` string field; an absent file, text
/// that is not valid JSON, and an object without such a string field
/// all fall back to the default folder.
pub fn load_config(contents: Option<&str>) -> (r: Config)
    ensures
        match contents {
            None => r.comics_folder_path@ == default_folder(),
            Some(s) => r.comics_folder_path@ == (match json_string_field(s@, config_key()) {
                Some(p) => p,
                None => default_folder(),
            }),
        },
{
    match contents {
        None => Config::default(),
        Some(s) => config_or_default(parse_config(s)),
    }
}

/// Whether a directory listing holds the configuration file's name.
pub fn listing_has_config(names: &Vec<String>) -> (r: bool)
    ensures
        r == names.deep_view().contains(config_file_name()),
{
    let target = String::from_str("cbr-config.json");
    let mut i: usize = 0;
    while i < names.len()
        invariant
            i <= names.len(),
            target@ == config_file_name(),
            forall|t: int| 0 <= t < i ==> names.deep_view()[t] != config_file_name(),
        decreases names.len() - i,
    {
        if names[i] == target {
            assert(names.deep_view()[i as int] == config_file_name());
            return true;
        }
        assert(names.deep_view()[i as int] != config_file_name());
        i = i + 1;
    }
    proof {
        if names.deep_view().contains(config_file_name()) {
            let t = choose|t: int|
                0 <= t < names.deep_view().len() && names.deep_view()[t] == config_file_name();
            assert(false);
        }
    }
    false
}

} // verus!
