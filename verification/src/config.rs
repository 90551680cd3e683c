//! The configuration: its defaults, and how a TOML document sets it.

use vstd::prelude::*;

verus! {

/// Daemon: sessions shorter than this many seconds are not announced.
pub const DEFAULT_MIN_DURATION_SECS: u64 = 10;

/// Daemon: seconds between two snapshots of the process table.
pub const DEFAULT_POLL_INTERVAL_SECS: u64 = 3;

/// The settings of the tool.
#[derive(Debug, Clone, Copy, PartialEq, Eq)]
pub struct Config {
    /// Daemon: ignore SSH sessions shorter than this (seconds).
    pub min_duration_secs: u64,
    /// Daemon: process-table poll cadence (seconds).
    pub poll_interval_secs: u64,
    /// Play a notification sound where the platform supports it.
    pub sound: bool,
}

/// The configuration that holds when nothing sets it.
pub open spec fn default_config() -> Config {
    Config {
        min_duration_secs: DEFAULT_MIN_DURATION_SECS,
        poll_interval_secs: DEFAULT_POLL_INTERVAL_SECS,
        sound: true,
    }
}

impl Default for Config {
    fn default() -> (c: Self)
        ensures
            c == default_config(),
    {
        Config {
            min_duration_secs: DEFAULT_MIN_DURATION_SECS,
            poll_interval_secs: DEFAULT_POLL_INTERVAL_SECS,
            sound: true,
        }
    }
}

#[verifier::external_type_specification]
#[verifier::external_body]
#[verifier::reject_recursive_types(K)]
#[verifier::reject_recursive_types(V)]
pub struct ExTomlMap<K, V>(toml::map::Map<K, V>);

#[verifier::external_type_specification]
#[verifier::external_body]
pub struct ExTomlValue(toml::Value);

#[verifier::external_type_specification]
#[verifier::external_body]
pub struct ExTomlError(toml::de::Error);

/// A TOML value by its kind; integers and booleans carry their value.
#[derive(Debug, Clone, Copy, PartialEq, Eq)]
pub enum TomlValue {
    Text,
    Integer(i64),
    Float,
    Boolean(bool),
    Datetime,
    Array,
    Table,
}

/// The entries of a TOML table: each key with the kind of its value.
pub uninterp spec fn table_entries(table: toml::Table) -> Map<Seq<char>, TomlValue>;

/// What the TOML parser makes of a document: the entries of its top-level
/// table, or nothing when the text is not a TOML document.
pub uninterp spec fn toml_document(raw: Seq<char>) -> Option<Map<Seq<char>, TomlValue>>;

/// Parses a TOML document into its top-level table (`toml::from_str` at
/// `toml::Table`). Claims that the result is a function of the text alone:
/// the table's entries when it parses, an error exactly when it does not.
#[verifier::external_body]
fn parse_table(raw: &str) -> (res: Result<toml::Table, toml::de::Error>)
    ensures
        match res {
            Ok(table) => toml_document(raw@) == Some(table_entries(table)),
            Err(_) => toml_document(raw@) is None,
        },
{
    toml::from_str::<toml::Table>(raw)
}

/// Looks a key up in a TOML table (`toml::map::Map::get`) and gives the kind
/// of its value. Claims that the result is the table's entry for that key.
#[verifier::external_body]
fn table_get(table: &toml::Table, key: &str) -> (v: Option<TomlValue>)
    ensures
        v == entry(table_entries(*table), key@),
{
    match table.get(key) {
        None => None,
        Some(toml::Value::String(_)) => Some(TomlValue::Text),
        Some(toml::Value::Integer(i)) => Some(TomlValue::Integer(*i)),
        Some(toml::Value::Float(_)) => Some(TomlValue::Float),
        Some(toml::Value::Boolean(b)) => Some(TomlValue::Boolean(*b)),
        Some(toml::Value::Datetime(_)) => Some(TomlValue::Datetime),
        Some(toml::Value::Array(_)) => Some(TomlValue::Array),
        Some(toml::Value::Table(_)) => Some(TomlValue::Table),
    }
}

/// The value of `key` among `entries`, if it has one.
pub open spec fn entry(entries: Map<Seq<char>, TomlValue>, key: Seq<char>) -> Option<TomlValue> {
    if entries.contains_key(key) {
        Some(entries[key])
    } else {
        None
    }
}

/// A setting of the configuration file.
#[derive(Debug, Clone, Copy, PartialEq, Eq)]
pub enum ConfigField {
    MinDurationSecs,
    PollIntervalSecs,
    Sound,
}

/// The key of a setting in the configuration file.
pub open spec fn setting_key(f: ConfigField) -> Seq<char> {
    match f {
        ConfigField::MinDurationSecs => "min_duration_secs"@,
        ConfigField::PollIntervalSecs => "poll_interval_secs"@,
        ConfigField::Sound => "sound"@,
    }
}

impl ConfigField {
    /// The key of this setting in the configuration file.
    pub fn key(&self) -> (k: &'static str)
        ensures
            k@ == setting_key(*self),
    {
        match self {
            ConfigField::MinDurationSecs => "min_duration_secs",
            ConfigField::PollIntervalSecs => "poll_interval_secs",
            ConfigField::Sound => "sound",
        }
    }
}

/// Why a configuration file is refused.
#[derive(Debug)]
pub enum ConfigError {
    /// The text is not a TOML document.
    Syntax(toml::de::Error),
    /// A setting has a value of the wrong type or out of range: the setting,
    /// and the value found.
    InvalidField(ConfigField, TomlValue),
}

/// A seconds setting: absent gives the default; a non-negative integer gives
/// itself; anything else is invalid.
pub open spec fn seconds_setting(v: Option<TomlValue>, default: u64) -> Option<u64> {
    match v {
        None => Some(default),
        Some(TomlValue::Integer(i)) => if i >= 0 {
            Some(i as u64)
        } else {
            None
        },
        Some(_) => None,
    }
}

/// A switch setting: absent gives the default; a boolean gives itself;
/// anything else is invalid.
pub open spec fn switch_setting(v: Option<TomlValue>, default: bool) -> Option<bool> {
    match v {
        None => Some(default),
        Some(TomlValue::Boolean(b)) => Some(b),
        Some(_) => None,
    }
}

/// The configuration the three settings give, each missing one taking its
/// default; or the first invalid setting, in the order minimum duration,
/// poll interval, sound.
pub open spec fn settings_config(
    min: Option<TomlValue>,
    poll: Option<TomlValue>,
    sound: Option<TomlValue>,
) -> Result<Config, ConfigField> {
    match seconds_setting(min, DEFAULT_MIN_DURATION_SECS) {
        None => Err(ConfigField::MinDurationSecs),
        Some(m) => match seconds_setting(poll, DEFAULT_POLL_INTERVAL_SECS) {
            None => Err(ConfigField::PollIntervalSecs),
            Some(p) => match switch_setting(sound, true) {
                None => Err(ConfigField::Sound),
                Some(s) => Ok(Config { min_duration_secs: m, poll_interval_secs: p, sound: s }),
            },
        },
    }
}

/// The configuration the entries of a TOML document give.
pub open spec fn document_config(entries: Map<Seq<char>, TomlValue>) -> Result<Config, ConfigField> {
    settings_config(
        entry(entries, setting_key(ConfigField::MinDurationSecs)),
        entry(entries, setting_key(ConfigField::PollIntervalSecs)),
        entry(entries, setting_key(ConfigField::Sound)),
    )
}

/// A document refused for setting `f`, and the value it gives it.
pub open spec fn refused_with(entries: Map<Seq<char>, TomlValue>, f: ConfigField, e: ConfigError) -> bool {
    e matches ConfigError::InvalidField(g, v) && g == f && entry(entries, setting_key(f)) == Some(v)
}

fn seconds_value(v: Option<TomlValue>, default: u64) -> (r: Option<u64>)
    ensures
        r == seconds_setting(v, default),
{
    match v {
        None => Some(default),
        Some(TomlValue::Integer(i)) => if i >= 0 {
            Some(i as u64)
        } else {
            None
        },
        Some(_) => None,
    }
}

fn switch_value(v: Option<TomlValue>, default: bool) -> (r: Option<bool>)
    ensures
        r == switch_setting(v, default),
{
    match v {
        None => Some(default),
        Some(TomlValue::Boolean(b)) => Some(b),
        Some(_) => None,
    }
}

/// Law: a document that sets none of the three settings gives the defaults,
/// whatever else it holds.
pub proof fn law_unset_settings_default(entries: Map<Seq<char>, TomlValue>)
    requires
        !entries.contains_key("min_duration_secs"@),
        !entries.contains_key("poll_interval_secs"@),
        !entries.contains_key("sound"@),
    ensures
        document_config(entries) == Ok::<Config, ConfigField>(default_config()),
{
}

/// Law: each setting a document sets validly is taken, each one it leaves out
/// keeps its default, independently of the others.
pub proof fn law_settings_independent(
    min: Option<TomlValue>,
    poll: Option<TomlValue>,
    sound: Option<TomlValue>,
)
    requires
        seconds_setting(min, DEFAULT_MIN_DURATION_SECS) is Some,
        seconds_setting(poll, DEFAULT_POLL_INTERVAL_SECS) is Some,
        switch_setting(sound, true) is Some,
    ensures
        settings_config(min, poll, sound) matches Ok(c) && c.min_duration_secs == seconds_setting(
            min,
            DEFAULT_MIN_DURATION_SECS,
        )->0 && c.poll_interval_secs == seconds_setting(poll, DEFAULT_POLL_INTERVAL_SECS)->0
            && c.sound == switch_setting(sound, true)->0,
{
}

/// Law: the settings are taken as the file writes them. A file is accepted
/// exactly when each setting it sets has the right kind (a non-negative
/// integer for the two durations, a boolean for the sound); then each
/// duration is the integer written, the sound is the boolean written, and each
/// setting not written keeps its default (10 s, 3 s, sound on).
pub proof fn law_settings_taken_as_written(
    min: Option<TomlValue>,
    poll: Option<TomlValue>,
    sound: Option<TomlValue>,
)
    ensures
        settings_config(min, poll, sound) is Ok <==> ({
            &&& (min is None || (min matches Some(TomlValue::Integer(i)) && i >= 0))
            &&& (poll is None || (poll matches Some(TomlValue::Integer(i)) && i >= 0))
            &&& (sound is None || (sound matches Some(TomlValue::Boolean(_))))
        }),
        settings_config(min, poll, sound) matches Ok(c) ==> {
            &&& (min matches Some(TomlValue::Integer(i)) ==> c.min_duration_secs == i)
            &&& (min is None ==> c.min_duration_secs == 10)
            &&& (poll matches Some(TomlValue::Integer(i)) ==> c.poll_interval_secs == i)
            &&& (poll is None ==> c.poll_interval_secs == 3)
            &&& (sound matches Some(TomlValue::Boolean(b)) ==> c.sound == b)
            &&& (sound is None ==> c.sound)
        },
{
}

/// Law: a document's `sound` entry, when it is a boolean and the document is
/// accepted, is the configured sound, whether it is `true` or `false`.
pub proof fn law_sound_as_written(entries: Map<Seq<char>, TomlValue>, b: bool)
    requires
        entries.contains_key("sound"@),
        entries["sound"@] == TomlValue::Boolean(b),
    ensures
        document_config(entries) matches Ok(c) ==> c.sound == b,
{
    law_settings_taken_as_written(
        entry(entries, setting_key(ConfigField::MinDurationSecs)),
        entry(entries, setting_key(ConfigField::PollIntervalSecs)),
        entry(entries, setting_key(ConfigField::Sound)),
    );
}

impl Config {
    /// The configuration with the settings given on the command line put in
    /// place of the file's: each given value overrides, each absent one keeps
    /// the configured value.
    pub fn with_overrides(self, min_duration_secs: Option<u64>, poll_interval_secs: Option<u64>) -> (c: Config)
        ensures
            c.min_duration_secs == match min_duration_secs {
                Some(m) => m,
                None => self.min_duration_secs,
            },
            c.poll_interval_secs == match poll_interval_secs {
                Some(p) => p,
                None => self.poll_interval_secs,
            },
            c.sound == self.sound,
    {
        Config {
            min_duration_secs: match min_duration_secs {
                Some(m) => m,
                None => self.min_duration_secs,
            },
            poll_interval_secs: match poll_interval_secs {
                Some(p) => p,
                None => self.poll_interval_secs,
            },
            sound: self.sound,
        }
    }

    /// The configuration that the values of the three settings give (each
    /// `None` when the file does not set it): missing keys take their defaults.
    pub fn from_settings(
        min_duration_secs: Option<TomlValue>,
        poll_interval_secs: Option<TomlValue>,
        sound: Option<TomlValue>,
    ) -> (r: Result<Config, ConfigField>)
        ensures
            r == settings_config(min_duration_secs, poll_interval_secs, sound),
    {
        let m = match seconds_value(min_duration_secs, DEFAULT_MIN_DURATION_SECS) {
            None => return Err(ConfigField::MinDurationSecs),
            Some(m) => m,
        };
        let p = match seconds_value(poll_interval_secs, DEFAULT_POLL_INTERVAL_SECS) {
            None => return Err(ConfigField::PollIntervalSecs),
            Some(p) => p,
        };
        let s = match switch_value(sound, true) {
            None => return Err(ConfigField::Sound),
            Some(s) => s,
        };
        Ok(Config { min_duration_secs: m, poll_interval_secs: p, sound: s })
    }

    /// Reads the configuration from the text of a TOML file. Keys it does
    /// not know are ignored; missing keys take their defaults.
    pub fn from_toml_str(raw: &str) -> (r: Result<Config, ConfigError>)
        ensures
            match toml_document(raw@) {
                None => r matches Err(ConfigError::Syntax(_)),
                Some(entries) => match document_config(entries) {
                    Ok(c) => r matches Ok(d) && d == c,
                    Err(f) => r matches Err(e) && refused_with(entries, f, e),
                },
            },
    {
        match parse_table(raw) {
            Err(e) => Err(ConfigError::Syntax(e)),
            Ok(table) => {
                let min = table_get(&table, ConfigField::MinDurationSecs.key());
                let poll = table_get(&table, ConfigField::PollIntervalSecs.key());
                let sound = table_get(&table, ConfigField::Sound.key());
                match Config::from_settings(min, poll, sound) {
                    Ok(c) => Ok(c),
                    Err(f) => {
                        let found = match f {
                            ConfigField::MinDurationSecs => min,
                            ConfigField::PollIntervalSecs => poll,
                            ConfigField::Sound => sound,
                        };
                        match found {
                            Some(v) => Err(ConfigError::InvalidField(f, v)),
                            None => {
                                // An absent setting takes its default, so it is never the invalid one.
                                assert(false);
                                Err(ConfigError::InvalidField(f, TomlValue::Table))
                            },
                        }
                    },
                }
            },
        }
    }

    /// The configuration from the contents of the configuration file (`None`
    /// when it is missing or unreadable): the defaults when it is missing or
    /// invalid, and then also the reason it is invalid, to warn about.
    pub fn from_file_contents(contents: Option<&str>) -> (r: (Config, Option<ConfigError>))
        ensures
            match contents {
                None => r.0 == default_config() && r.1 is None,
                Some(raw) => match toml_document(raw@) {
                    None => {
                        &&& r.0 == default_config()
                        &&& r.1 matches Some(ConfigError::Syntax(_))
                    },
                    Some(entries) => match document_config(entries) {
                        Ok(c) => r.0 == c && r.1 is None,
                        Err(f) => {
                            &&& r.0 == default_config()
                            &&& r.1 matches Some(e) && refused_with(entries, f, e)
                        },
                    },
                },
            },
    {
        match contents {
            None => (Config::default(), None),
            Some(raw) => match Config::from_toml_str(raw) {
                Ok(c) => (c, None),
                Err(e) => (Config::default(), Some(e)),
            },
        }
    }
}

} // verus!
