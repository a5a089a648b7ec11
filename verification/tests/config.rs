use protofetch::config::{config_dir, default_cache_dir, parse_count_exec, ConfigError, ConfigSource, ProtofetchConfig, RawConfig};
use protofetch::model::protofetch::Protocol;
use protofetch::toml_doc::TomlValue;

fn env(pairs: &[(&str, &str)]) -> Vec<(String, String)> {
    pairs.iter().map(|(k, v)| (k.to_string(), v.to_string())).collect()
}

fn section(name: &str, key: &str, value: &str) -> (String, TomlValue) {
    (
        name.to_string(),
        TomlValue::Table(vec![(key.to_string(), TomlValue::String(value.to_string()))]),
    )
}

#[test]
fn load_empty() {
    let config = RawConfig::load(ConfigSource::Override(vec![]), &env(&[])).unwrap();
    assert_eq!(
        config,
        RawConfig { cache_dir: None, protocol: None, jobs: None, copy_jobs: None }
    );
}

#[test]
fn load_environment() {
    let env = env(&[
        ("PROTOFETCH_CACHE_DIR", "/cache"),
        ("PROTOFETCH_GIT_PROTOCOL", "ssh"),
        ("PROTOFETCH_JOBS", "16"),
        ("PROTOFETCH_COPY_JOBS", "4"),
    ]);
    let config = RawConfig::load(ConfigSource::Override(vec![]), &env).unwrap();
    assert_eq!(
        config,
        RawConfig {
            cache_dir: Some("/cache".to_string()),
            protocol: Some(Protocol::Ssh),
            jobs: Some(16),
            copy_jobs: Some(4),
        }
    );
}

#[test]
fn load_config_file() {
    let table = vec![section("cache", "dir", "/cache"), section("git", "protocol", "ssh")];
    let config = RawConfig::load(ConfigSource::Override(table), &env(&[])).unwrap();
    assert_eq!(
        config,
        RawConfig {
            cache_dir: Some("/cache".to_string()),
            protocol: Some(Protocol::Ssh),
            jobs: None,
            copy_jobs: None,
        }
    );
}

#[test]
fn config_file_text_is_parsed() {
    let source = ConfigSource::File {
        path: "/home/u/.config/protofetch/config.toml".to_string(),
        text: "jobs = 3\n[git]\nprotocol = \"https\"\n".to_string(),
    };
    let config = RawConfig::load(source, &env(&[])).unwrap();
    assert_eq!(
        config,
        RawConfig { cache_dir: None, protocol: Some(Protocol::Https), jobs: Some(3), copy_jobs: None }
    );
}

#[test]
fn environment_overrides_file() {
    let table = vec![section("cache", "dir", "/from-file"), section("git", "protocol", "https")];
    let config =
        RawConfig::load(ConfigSource::Override(table), &env(&[("PROTOFETCH_CACHE_DIR", "/from-env")])).unwrap();
    assert_eq!(config.cache_dir, Some("/from-env".to_string()));
    assert_eq!(config.protocol, Some(Protocol::Https));
}

#[test]
fn missing_file_gives_defaults() {
    let config = RawConfig::load(ConfigSource::Missing, &env(&[])).unwrap();
    assert_eq!(config, RawConfig { cache_dir: None, protocol: None, jobs: None, copy_jobs: None });
}

#[test]
fn invalid_sources_and_values_are_refused() {
    let bad_section = vec![("cache".to_string(), TomlValue::String("x".to_string()))];
    assert_eq!(
        RawConfig::load(ConfigSource::Override(bad_section), &env(&[])),
        Err(ConfigError::InvalidOverride)
    );
    let bad_text = ConfigSource::File { path: "/c.toml".to_string(), text: "[[[".to_string() };
    assert_eq!(
        RawConfig::load(bad_text, &env(&[])),
        Err(ConfigError::InvalidFile("/c.toml".to_string()))
    );
    assert_eq!(
        RawConfig::load(ConfigSource::Missing, &env(&[("PROTOFETCH_GIT_PROTOCOL", "ftp")])),
        Err(ConfigError::InvalidValue("PROTOFETCH_GIT_PROTOCOL".to_string()))
    );
    assert_eq!(
        RawConfig::load(ConfigSource::Missing, &env(&[("PROTOFETCH_JOBS", "many")])),
        Err(ConfigError::InvalidValue("PROTOFETCH_JOBS".to_string()))
    );
    assert_eq!(
        RawConfig::load(ConfigSource::Missing, &env(&[("PROTOFETCH_COPY_JOBS", "-1")])),
        Err(ConfigError::InvalidValue("PROTOFETCH_COPY_JOBS".to_string()))
    );
}

#[test]
fn counts_are_decimal() {
    assert_eq!(parse_count_exec("16"), Some(16));
    assert_eq!(parse_count_exec("0"), Some(0));
    assert_eq!(parse_count_exec("+7"), Some(7));
    assert_eq!(parse_count_exec(""), None);
    assert_eq!(parse_count_exec("1x"), None);
}

#[test]
fn defaults_fill_the_effective_configuration() {
    let raw = RawConfig { cache_dir: None, protocol: None, jobs: Some(2), copy_jobs: None };
    let config = ProtofetchConfig::from_raw(raw, Some("/home/u/.cache/protofetch".to_string())).unwrap();
    assert_eq!(
        config,
        ProtofetchConfig {
            cache_dir: "/home/u/.cache/protofetch".to_string(),
            default_protocol: Protocol::Ssh,
            jobs: Some(2),
            copy_jobs: None,
        }
    );
    let raw = RawConfig { cache_dir: None, protocol: None, jobs: None, copy_jobs: None };
    assert_eq!(ProtofetchConfig::from_raw(raw, None), Err(ConfigError::NoHomeDir));
}

#[test]
fn configuration_and_cache_directories() {
    assert_eq!(
        config_dir(Some("/cfg".to_string()), Some("/xdg".to_string()), Some("/home/u".to_string())),
        Some("/cfg".to_string())
    );
    assert_eq!(
        config_dir(None, Some("/xdg".to_string()), Some("/home/u".to_string())),
        Some("/xdg/protofetch".to_string())
    );
    assert_eq!(config_dir(None, None, Some("/home/u".to_string())), Some("/home/u/.config/protofetch".to_string()));
    assert_eq!(config_dir(None, None, None), None);
    assert_eq!(default_cache_dir(Some("/xdg".to_string()), None), Some("/xdg/protofetch".to_string()));
    assert_eq!(default_cache_dir(None, Some("/home/u".to_string())), Some("/home/u/.cache/protofetch".to_string()));
    assert_eq!(default_cache_dir(None, None), None);
}

#[test]
fn config_errors_read_as_the_messages_of_the_command() {
    assert_eq!(
        ConfigError::InvalidValue("PROTOFETCH_JOBS".to_string()).message(),
        "invalid value for PROTOFETCH_JOBS"
    );
    assert_eq!(ConfigError::InvalidFile("/c.toml".to_string()).message(), "invalid config file at /c.toml");
    assert_eq!(ConfigError::InvalidOverride.message(), "invalid config override");
}
