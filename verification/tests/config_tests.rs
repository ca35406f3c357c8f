use kic::setting::config::{Config, ConfigKey, EditableToml};
use kic::dates::Duration;
use kic::error::{CliError, ConfigError, ConfigErrorKind};

#[test]
fn config_key_to_pair_should_return_pair() {
    let keys = [
        (ConfigKey::BurnMoratorium, "burn.moratorium"),
        (ConfigKey::SweepMoratorium, "sweep.moratorium"),
        (ConfigKey::SweepPeriod, "sweep.period"),
        (ConfigKey::SweepTime, "sweep.time"),
    ];
    for (key, correct) in &keys {
        let (first, second) = key.to_pair();
        assert_eq!(correct.to_string(), format!("{}.{}", first, second));
    }
}

#[test]
fn editable_toml_overwrite_should_add_value() {
    let mut editable = EditableToml::new();

    let v1 = "value1".to_string();
    editable.overwrite(&ConfigKey::BurnMoratorium, v1.clone());
    assert_eq!(Some(v1.clone()), editable.get_value("burn", "moratorium"));

    let v2 = "value2".to_string();
    let v3 = "value3".to_string();
    editable.overwrite(&ConfigKey::SweepPeriod, v2.clone());
    editable.overwrite(&ConfigKey::SweepTime, v3.clone());
    assert_eq!(Some(v1), editable.get_value("burn", "moratorium"));
    assert_eq!(Some(v2), editable.get_value("sweep", "period"));
    assert_eq!(Some(v3), editable.get_value("sweep", "time"));
}

#[test]
fn default_should_return_config() {
    let text = format!(
        r#"
            [burn]
            moratorium = "{}"
            [sweep]
            moratorium = "{}"
            period = "{}"
            time   = "{}"
        "#,
        "2 weeks", "10 minutes", "daily", "00:00"
    );
    let parsed = Config::from_text(&text).unwrap();
    let default = Config::default();
    for (first, second) in [("burn", "moratorium"), ("sweep", "moratorium"), ("sweep", "period"), ("sweep", "time")] {
        assert_eq!(
            default.toml.get_value(first, second),
            parsed.toml.get_value(first, second)
        );
    }
}

#[test]
fn to_naive_time_should_return_naivetime() {
    let data_set = vec![((0u32, 0u32), "00:00"), ((23u32, 59u32), "23:59")];
    for (correct, input) in data_set.into_iter() {
        let result = Config::to_naive_time(input);
        assert!(result.is_some());
        assert_eq!(correct, result.unwrap());
    }
}

#[test]
fn to_naive_time_should_return_err() {
    let data_set = ["-00:00", "00", "00:00:00", "23:59:59", "24:00", "invalid value"];
    for input in &data_set {
        let result = Config::to_naive_time(input);
        assert!(result.is_none());
    }
}

#[test]
fn get_should_return_ok() {
    let config = Config::default();

    assert!(config.get(&ConfigKey::BurnMoratorium).is_ok());
    assert!(config.get(&ConfigKey::SweepMoratorium).is_ok());
    assert!(config.get(&ConfigKey::SweepPeriod).is_ok());
    assert!(config.get(&ConfigKey::SweepTime).is_ok());
}

#[test]
fn set_should_replace_value_with_new_value() {
    let raw_values = vec![
        "1day".to_string(),
        "1days".to_string(),
        "1 day".to_string(),
        "1 days".to_string(),
        "1week".to_string(),
        "1weeks".to_string(),
        "1 week".to_string(),
        "1 weeks".to_string(),
        format!("{}day", u32::MAX),
        format!("{}days", u32::MAX),
        format!("{} day", u32::MAX),
        format!("{} days", u32::MAX),
        format!("{}week", u32::MAX),
        format!("{}weeks", u32::MAX),
        format!("{} week", u32::MAX),
        format!("{} weeks", u32::MAX),
    ];
    let corrects_and_inputs = raw_values
        .into_iter()
        .map(|i| {
            let re = regex::Regex::new(r"(?P<num>\d+)(?P<unit>[^\d\s]+)").unwrap();
            (re.replace(i.as_str(), "$num $unit").into_owned(), i)
        })
        .collect::<Vec<(String, String)>>();

    for (correct, input) in corrects_and_inputs.into_iter() {
        let config = Config::default().set(&ConfigKey::BurnMoratorium, &input).unwrap();
        assert_eq!(correct, config.get(&ConfigKey::BurnMoratorium).unwrap());
    }

    let raw_values = vec![
        "0minute".to_string(),
        "0minutes".to_string(),
        "0 minute".to_string(),
        "0 minutes".to_string(),
        "0hour".to_string(),
        "0hours".to_string(),
        "0 hour".to_string(),
        "0 hours".to_string(),
        "0day".to_string(),
        "0days".to_string(),
        "0 day".to_string(),
        "0 days".to_string(),
        "0week".to_string(),
        "0weeks".to_string(),
        "0 week".to_string(),
        "0 weeks".to_string(),
        format!("{}minute", u32::MAX),
        format!("{}minutes", u32::MAX),
        format!("{} minute", u32::MAX),
        format!("{} minutes", u32::MAX),
        format!("{}hour", u32::MAX),
        format!("{}hours", u32::MAX),
        format!("{} hour", u32::MAX),
        format!("{} hours", u32::MAX),
        format!("{}day", u32::MAX),
        format!("{}days", u32::MAX),
        format!("{} day", u32::MAX),
        format!("{} days", u32::MAX),
        format!("{}week", u32::MAX),
        format!("{}weeks", u32::MAX),
        format!("{} week", u32::MAX),
        format!("{} weeks", u32::MAX),
    ];
    let corrects_and_inputs = raw_values
        .into_iter()
        .map(|i| {
            let re = regex::Regex::new(r"(?P<num>\d+)(?P<unit>[^\d\s]+)").unwrap();
            (re.replace(i.as_str(), "$num $unit").into_owned(), i)
        })
        .collect::<Vec<(String, String)>>();

    for (correct, input) in corrects_and_inputs.into_iter() {
        let config = Config::default().set(&ConfigKey::SweepMoratorium, &input).unwrap();
        assert_eq!(correct, config.get(&ConfigKey::SweepMoratorium).unwrap());
    }

    let raw_values = ["daily", "weekly"];
    for raw_value in &raw_values {
        let config = Config::default().set(&ConfigKey::SweepPeriod, raw_value).unwrap();
        assert_eq!(raw_value.to_string(), config.get(&ConfigKey::SweepPeriod).unwrap());
    }

    let raw_values = ["00:00", "23:59"];
    for raw_value in &raw_values {
        let config = Config::default().set(&ConfigKey::SweepTime, raw_value).unwrap();
        assert_eq!(raw_value.to_string(), config.get(&ConfigKey::SweepTime).unwrap());
    }
}

#[test]
fn set_should_return_err() {
    let data_set = vec![
        (ConfigKey::BurnMoratorium, "-1day", ConfigError::new(ConfigErrorKind::BurnMoratorium)),
        (ConfigKey::BurnMoratorium, "-1days", ConfigError::new(ConfigErrorKind::BurnMoratorium)),
        (ConfigKey::BurnMoratorium, "-1 day", ConfigError::new(ConfigErrorKind::BurnMoratorium)),
        (ConfigKey::BurnMoratorium, "-1 days", ConfigError::new(ConfigErrorKind::BurnMoratorium)),
        (ConfigKey::BurnMoratorium, "0day", ConfigError::new(ConfigErrorKind::BurnMoratorium)),
        (ConfigKey::BurnMoratorium, "0days", ConfigError::new(ConfigErrorKind::BurnMoratorium)),
        (ConfigKey::BurnMoratorium, "0 day", ConfigError::new(ConfigErrorKind::BurnMoratorium)),
        (ConfigKey::BurnMoratorium, "0 days", ConfigError::new(ConfigErrorKind::BurnMoratorium)),
        (ConfigKey::BurnMoratorium, "-1week", ConfigError::new(ConfigErrorKind::BurnMoratorium)),
        (ConfigKey::BurnMoratorium, "-1weeks", ConfigError::new(ConfigErrorKind::BurnMoratorium)),
        (ConfigKey::BurnMoratorium, "-1 week", ConfigError::new(ConfigErrorKind::BurnMoratorium)),
        (ConfigKey::BurnMoratorium, "-1 weeks", ConfigError::new(ConfigErrorKind::BurnMoratorium)),
        (ConfigKey::BurnMoratorium, "0week", ConfigError::new(ConfigErrorKind::BurnMoratorium)),
        (ConfigKey::BurnMoratorium, "0weeks", ConfigError::new(ConfigErrorKind::BurnMoratorium)),
        (ConfigKey::BurnMoratorium, "0 week", ConfigError::new(ConfigErrorKind::BurnMoratorium)),
        (ConfigKey::BurnMoratorium, "0 weeks", ConfigError::new(ConfigErrorKind::BurnMoratorium)),
        (ConfigKey::BurnMoratorium, "1hour", ConfigError::new(ConfigErrorKind::BurnMoratorium)),
        (ConfigKey::BurnMoratorium, "1month", ConfigError::new(ConfigErrorKind::BurnMoratorium)),
        (ConfigKey::BurnMoratorium, "1year", ConfigError::new(ConfigErrorKind::BurnMoratorium)),
        (ConfigKey::SweepMoratorium, "-1minute", ConfigError::new(ConfigErrorKind::SweepMoratorium)),
        (ConfigKey::SweepMoratorium, "-1minutes", ConfigError::new(ConfigErrorKind::SweepMoratorium)),
        (ConfigKey::SweepMoratorium, "-1 minute", ConfigError::new(ConfigErrorKind::SweepMoratorium)),
        (ConfigKey::SweepMoratorium, "-1 minutes", ConfigError::new(ConfigErrorKind::SweepMoratorium)),
        (ConfigKey::SweepMoratorium, "-1hour", ConfigError::new(ConfigErrorKind::SweepMoratorium)),
        (ConfigKey::SweepMoratorium, "-1hours", ConfigError::new(ConfigErrorKind::SweepMoratorium)),
        (ConfigKey::SweepMoratorium, "-1 hour", ConfigError::new(ConfigErrorKind::SweepMoratorium)),
        (ConfigKey::SweepMoratorium, "-1 hours", ConfigError::new(ConfigErrorKind::SweepMoratorium)),
        (ConfigKey::SweepMoratorium, "-1day", ConfigError::new(ConfigErrorKind::SweepMoratorium)),
        (ConfigKey::SweepMoratorium, "-1days", ConfigError::new(ConfigErrorKind::SweepMoratorium)),
        (ConfigKey::SweepMoratorium, "-1 day", ConfigError::new(ConfigErrorKind::SweepMoratorium)),
        (ConfigKey::SweepMoratorium, "-1 days", ConfigError::new(ConfigErrorKind::SweepMoratorium)),
        (ConfigKey::SweepMoratorium, "-1week", ConfigError::new(ConfigErrorKind::SweepMoratorium)),
        (ConfigKey::SweepMoratorium, "-1weeks", ConfigError::new(ConfigErrorKind::SweepMoratorium)),
        (ConfigKey::SweepMoratorium, "-1 week", ConfigError::new(ConfigErrorKind::SweepMoratorium)),
        (ConfigKey::SweepMoratorium, "-1 weeks", ConfigError::new(ConfigErrorKind::SweepMoratorium)),
        (ConfigKey::SweepMoratorium, "1month", ConfigError::new(ConfigErrorKind::SweepMoratorium)),
        (ConfigKey::SweepMoratorium, "1year", ConfigError::new(ConfigErrorKind::SweepMoratorium)),
        (ConfigKey::SweepPeriod, "day", ConfigError::new(ConfigErrorKind::SweepPeriod)),
        (ConfigKey::SweepPeriod, "week", ConfigError::new(ConfigErrorKind::SweepPeriod)),
        (ConfigKey::SweepPeriod, "hourly", ConfigError::new(ConfigErrorKind::SweepPeriod)),
        (ConfigKey::SweepPeriod, "monthly", ConfigError::new(ConfigErrorKind::SweepPeriod)),
        (ConfigKey::SweepPeriod, "yearly", ConfigError::new(ConfigErrorKind::SweepPeriod)),
        (ConfigKey::SweepTime, "-00:01", ConfigError::new(ConfigErrorKind::SweepTime)),
        (ConfigKey::SweepTime, "24:00", ConfigError::new(ConfigErrorKind::SweepTime)),
        (ConfigKey::SweepTime, "00", ConfigError::new(ConfigErrorKind::SweepTime)),
        (ConfigKey::SweepTime, "00:00:00", ConfigError::new(ConfigErrorKind::SweepTime)),
    ];

    for (key, value, correct) in data_set.into_iter() {
        let cli_err = Config::default().set(&key, value).unwrap_err();
        let err = match cli_err {
            CliError::Config(e) => e,
            _ => panic!("test failed!!!"),
        };
        assert_eq!(correct, err);
    }
}

#[test]
fn to_duration_should_return_duration() {
    let data_set = vec![
        ("0 minute", Duration::minutes(0)),
        ("0 minutes", Duration::minutes(0)),
        ("1 minute", Duration::minutes(1)),
        ("1 minutes", Duration::minutes(1)),
        ("0 hour", Duration::hours(0)),
        ("0 hours", Duration::hours(0)),
        ("1 hour", Duration::hours(1)),
        ("1 hours", Duration::hours(1)),
        ("0 day", Duration::days(0)),
        ("0 days", Duration::days(0)),
        ("1 day", Duration::days(1)),
        ("1 days", Duration::days(1)),
        ("0 week", Duration::weeks(0)),
        ("0 weeks", Duration::weeks(0)),
        ("1 week", Duration::weeks(1)),
        ("1 weeks", Duration::weeks(1)),
    ];
    for (input, correct) in data_set.into_iter() {
        assert_eq!(correct, Config::to_duration(input.to_string()));
    }
}

#[test]
fn to_hour_and_minute_should_return_tuple() {
    let data_set = vec![("00:00", (0u32, 0u32)), ("23:59", (23u32, 59u32))];
    for (input, correct) in data_set.into_iter() {
        assert_eq!(correct, Config::to_hour_and_minute(input.to_string()));
    }
}

#[test]
fn to_string_round_trips_through_from_text() {
    let rendered = Config::default().to_string();
    let parsed = Config::from_text(&rendered).unwrap();
    for (first, second) in [("burn", "moratorium"), ("sweep", "moratorium"), ("sweep", "period"), ("sweep", "time")] {
        assert_eq!(
            Config::default().toml.get_value(first, second),
            parsed.toml.get_value(first, second)
        );
    }
}

#[test]
fn from_text_should_reject_bad_lines() {
    assert!(Config::from_text("[burn]\nmoratorium = \"2 weeks\"\n").is_ok());
    assert!(Config::from_text("moratorium = \"2 weeks\"\n").is_err());
    assert!(Config::from_text("[burn]\nnot an entry\n").is_err());
    assert!(Config::from_text("[burn]\nkey = unquoted\n").is_err());
}
