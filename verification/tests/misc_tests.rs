use kic::command::burn::Burn;
use kic::command::sweep::Sweep;
use kic::config::{Config as OldConfig, KeyKind};
use kic::setting::config::{Config, ConfigKey};
use kic::dates::Duration;
use kic::error::{ConfigError, ConfigErrorKind, CronError, CronErrorKind, EssentialKind, EssentialLack, Usage, UsageKind};
use kic::fs::is_recently_accessed;
use kic::setting::{config_file, ignore_file, storage_dir, working_dir};

#[test]
fn setting_paths_live_under_the_working_dir() {
    assert_eq!(".kic", working_dir());
    assert_eq!(".kic/warehouse", storage_dir());
    assert_eq!(".kic/config.toml", config_file());
    assert_eq!(".kic/ignore", ignore_file());
}

#[test]
fn error_messages_should_render() {
    assert_eq!(
        "Please set \"burn.moratorium\"",
        ConfigError::new(ConfigErrorKind::NotFoundBurnMoratorium).message()
    );
    assert_eq!(
        "\".kic\" directory does not exist",
        EssentialLack::new(EssentialKind::WorkingDir).message()
    );
}

#[test]
fn usage_message_should_render() {
    let message = Usage::new(UsageKind::Version).message();
    assert_eq!(
        "Usage:\n    kic version\n\nDescription:\n    Display the version of this software\n",
        message
    );
    let burn = Usage::new(UsageKind::Burn).message();
    assert_eq!(
        "Usage:\n    kic burn [indeed]\n\nDescription:\n    Delete expired directories in \"warehouse\" directory\n\nCommand:\n    (none) # Delete expired directories in \"warehouse\" fakely\n    indeed # Delete expired directories in \"warehouse\" indeed\n",
        burn
    );
}

#[test]
fn command_modes_should_follow_their_options() {
    assert_eq!(Ok(false), Burn::new(None).mode().map_err(|u| u.kind));
    assert_eq!(Ok(true), Burn::new(Some("indeed".to_string())).mode().map_err(|u| u.kind));
    assert!(Burn::new(Some("nope".to_string())).mode().is_err());

    let sweep = Sweep::new(Some("all".to_string()), Some("indeed".to_string()));
    assert_eq!(Ok((true, true)), sweep.mode().map_err(|u| u.kind));
    let sweep = Sweep::new(Some("indeed".to_string()), None);
    assert_eq!(Ok((false, true)), sweep.mode().map_err(|u| u.kind));
    let sweep = Sweep::new(None, None);
    assert_eq!(Ok((false, false)), sweep.mode().map_err(|u| u.kind));
    assert!(Sweep::new(Some("bogus".to_string()), None).mode().is_err());
}

#[test]
fn old_config_shape_should_keep_burn_after() {
    let c = OldConfig::default();
    assert_eq!(Some("2 weeks".to_string()), c.toml.get_value("burn", "after"));
    assert_eq!("2 weeks".to_string(), OldConfig::validate(&KeyKind::BurnAfter, "2weeks").unwrap());
    assert!(OldConfig::validate(&KeyKind::BurnAfter, "2 hours").is_err());
    assert_eq!(Ok(Duration::weeks(2)), OldConfig::extract_burn_after("2 weeks").map_err(|_| ()));
    assert_eq!(Ok(Duration::days(3)), OldConfig::extract_burn_after("3days").map_err(|_| ()));
    assert!(OldConfig::extract_burn_after("5000000000 days").is_err());
}

#[test]
fn recent_access_is_a_strict_threshold() {
    assert!(is_recently_accessed(101, 200, 100));
    assert!(!is_recently_accessed(100, 200, 100));
}

#[test]
fn get_should_report_missing_keys() {
    let partial = Config::from_text("[burn]\nmoratorium = \"2 weeks\"\n").unwrap();
    let err = partial.get(&ConfigKey::SweepPeriod).unwrap_err();
    assert_eq!(ConfigError::new(ConfigErrorKind::NotFoundSweepPeriod), err);
    let err = partial.get(&ConfigKey::SweepTime).unwrap_err();
    assert_eq!(ConfigError::new(ConfigErrorKind::NotFoundSweepTime), err);
}

#[test]
fn cron_error_messages_should_render() {
    assert_eq!(
        "Failed to write new \"cron\" file",
        CronError::new(CronErrorKind::FailedToWrite).message()
    );
}
