use ssh_done::config::{
    Config, ConfigError, ConfigField, TomlValue, DEFAULT_MIN_DURATION_SECS,
    DEFAULT_POLL_INTERVAL_SECS,
};

#[test]
fn defaults_when_missing() {
    let (cfg, problem) = Config::from_file_contents(None);
    assert!(problem.is_none());
    assert_eq!(cfg.min_duration_secs, DEFAULT_MIN_DURATION_SECS);
    assert_eq!(cfg.poll_interval_secs, DEFAULT_POLL_INTERVAL_SECS);
    assert!(cfg.sound);
}

#[test]
fn invalid_file_falls_back_to_defaults() {
    let (cfg, problem) = Config::from_file_contents(Some("this is [not valid toml = ="));
    assert!(matches!(problem, Some(ConfigError::Syntax(_))));
    assert_eq!(cfg.min_duration_secs, DEFAULT_MIN_DURATION_SECS);
}

#[test]
fn valid_file_overrides() {
    let (cfg, problem) = Config::from_file_contents(Some(
        "min_duration_secs = 30\npoll_interval_secs = 5\nsound = false\n",
    ));
    assert!(problem.is_none());
    assert_eq!(cfg.min_duration_secs, 30);
    assert_eq!(cfg.poll_interval_secs, 5);
    assert!(!cfg.sound);
}

#[test]
fn partial_file_uses_defaults_for_missing_keys() {
    let (cfg, _) = Config::from_file_contents(Some("min_duration_secs = 42\n"));
    assert_eq!(cfg.min_duration_secs, 42);
    assert_eq!(cfg.poll_interval_secs, DEFAULT_POLL_INTERVAL_SECS);
    assert!(cfg.sound);
}

#[test]
fn default_config_values() {
    let c = Config::default();
    assert_eq!(c, Config { min_duration_secs: 10, poll_interval_secs: 3, sound: true });
}

#[test]
fn wrong_types_are_refused() {
    let r = Config::from_toml_str("min_duration_secs = -1\n");
    assert!(matches!(
        r,
        Err(ConfigError::InvalidField(ConfigField::MinDurationSecs, TomlValue::Integer(-1)))
    ));
    let r = Config::from_toml_str("poll_interval_secs = \"3\"\n");
    assert!(matches!(
        r,
        Err(ConfigError::InvalidField(ConfigField::PollIntervalSecs, TomlValue::Text))
    ));
    let r = Config::from_toml_str("sound = 1\n");
    assert!(matches!(r, Err(ConfigError::InvalidField(ConfigField::Sound, TomlValue::Integer(1)))));
    let r = Config::from_toml_str("min_duration_secs = 1.5\nsound = 1\n");
    assert!(matches!(
        r,
        Err(ConfigError::InvalidField(ConfigField::MinDurationSecs, TomlValue::Float))
    ));
    let (cfg, problem) = Config::from_file_contents(Some("sound = \"yes\"\n"));
    assert_eq!(cfg, Config::default());
    assert!(matches!(problem, Some(ConfigError::InvalidField(ConfigField::Sound, TomlValue::Text))));
    assert_eq!(ConfigField::PollIntervalSecs.key(), "poll_interval_secs");
}

#[test]
fn unknown_keys_are_ignored() {
    let r = Config::from_toml_str("colour = \"blue\"\n[extra]\nx = 1\n").unwrap();
    assert_eq!(r, Config::default());
    let r = Config::from_toml_str("").unwrap();
    assert_eq!(r, Config::default());
}

#[test]
fn settings_from_values() {
    assert_eq!(
        Config::from_settings(Some(TomlValue::Integer(0)), None, Some(TomlValue::Boolean(false))),
        Ok(Config { min_duration_secs: 0, poll_interval_secs: 3, sound: false })
    );
    assert_eq!(
        Config::from_settings(None, Some(TomlValue::Float), None),
        Err(ConfigField::PollIntervalSecs)
    );
    assert_eq!(
        Config::from_settings(Some(TomlValue::Integer(i64::MAX)), None, None),
        Ok(Config { min_duration_secs: i64::MAX as u64, poll_interval_secs: 3, sound: true })
    );
}

#[test]
fn command_line_overrides_config() {
    let c = Config { min_duration_secs: 30, poll_interval_secs: 5, sound: false };
    assert_eq!(c.with_overrides(None, None), c);
    assert_eq!(
        c.with_overrides(Some(1), None),
        Config { min_duration_secs: 1, poll_interval_secs: 5, sound: false }
    );
    assert_eq!(
        c.with_overrides(None, Some(9)),
        Config { min_duration_secs: 30, poll_interval_secs: 9, sound: false }
    );
}
