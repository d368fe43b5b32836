use rb64::cli;
use rb64::config;

fn args(list: &[&str]) -> Vec<String> {
    list.iter().map(|s| s.to_string()).collect()
}

#[test]
fn cli_defaults_to_encoding() {
    let conf = cli::Config::parse(args(&[])).unwrap();
    assert_eq!(conf.operation(), cli::Operation::Encode);
    assert!(conf.files().is_empty());
    assert!(!conf.help());
}

#[test]
fn cli_last_flag_wins_and_files_are_kept() {
    let conf = cli::Config::parse(args(&["-d", "a.txt", "-e", "b.txt"])).unwrap();
    assert_eq!(conf.operation(), cli::Operation::Encode);
    assert_eq!(conf.files(), &["a.txt".to_string(), "b.txt".to_string()]);
    assert!(!conf.help());
}

#[test]
fn cli_help_stops_reading() {
    let conf = cli::Config::parse(args(&["x", "--help", "-d", "y"])).unwrap();
    assert!(conf.help());
    assert_eq!(conf.operation(), cli::Operation::Encode);
    assert_eq!(conf.files(), &["x".to_string()]);
    let conf = cli::Config::parse(args(&["-d", "-h"])).unwrap();
    assert!(conf.help());
    assert_eq!(conf.operation(), cli::Operation::Decode);
}

#[test]
fn config_defaults_to_the_terminal() {
    let conf = config::Config::parse(args(&[])).unwrap();
    assert_eq!(conf.operation(), config::Operation::Tui);
    assert!(conf.files().is_empty());
    let conf: config::Config = Default::default();
    assert_eq!(conf.operation(), config::Operation::Tui);
    let conf = config::Config::parse(args(&["-d", "-tui"])).unwrap();
    assert_eq!(conf.operation(), config::Operation::Tui);
    let conf = config::Config::parse(args(&["-tui", "-d"])).unwrap();
    assert_eq!(conf.operation(), config::Operation::Decode);
}

#[test]
fn config_files_mean_decoding() {
    let conf = config::Config::parse(args(&["-e"])).unwrap();
    assert_eq!(conf.operation(), config::Operation::Encode);
    let conf = config::Config::parse(args(&["-e", "f"])).unwrap();
    assert_eq!(conf.operation(), config::Operation::Decode);
    assert_eq!(conf.files(), &["f".to_string()]);
    let conf = config::Config::parse(args(&["-h"])).unwrap();
    assert_eq!(conf.files(), &["-h".to_string()]);
}
