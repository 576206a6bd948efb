use tsp::config::{Config, ConfigError};

fn args(parts: &[&str]) -> Vec<String> {
    parts.iter().map(|s| s.to_string()).collect()
}

#[test]
fn from_args_reads_the_three_values() {
    let config = Config::from_args(&args(&["prog", "cities.txt", "10", "100"]));
    let config = match config {
        Ok(config) => config,
        Err(_) => panic!("expected a valid configuration"),
    };
    assert_eq!("cities.txt", config.file_name);
    assert_eq!(10, config.pop_size);
    assert_eq!(100, config.num_evals);
}

#[test]
fn from_args_reports_missing_arguments() {
    assert!(matches!(
        Config::from_args(&args(&["prog"])),
        Err(ConfigError::MissingFileName)
    ));
    assert!(matches!(
        Config::from_args(&args(&["prog", "f"])),
        Err(ConfigError::MissingPopSize)
    ));
    assert!(matches!(
        Config::from_args(&args(&["prog", "f", "10"])),
        Err(ConfigError::MissingNumEvals)
    ));
}

#[test]
fn from_args_reports_unreadable_numbers() {
    assert!(matches!(
        Config::from_args(&args(&["prog", "f", "ten", "100"])),
        Err(ConfigError::BadPopSize)
    ));
    assert!(matches!(
        Config::from_args(&args(&["prog", "f", "10", "many"])),
        Err(ConfigError::BadNumEvals)
    ));
}

#[test]
fn from_args_rejects_degenerate_values() {
    assert!(matches!(
        Config::from_args(&args(&["prog", "f", "1", "100"])),
        Err(ConfigError::PopSizeTooSmall)
    ));
    assert!(matches!(
        Config::from_args(&args(&["prog", "f", "10", "0"])),
        Err(ConfigError::NoEvaluations)
    ));
}
