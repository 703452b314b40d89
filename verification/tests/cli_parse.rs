use bt::cli::{parse, Cli, Config, Error, Input};

fn args(list: &[&str]) -> Vec<String> {
    list.iter().map(|s| s.to_string()).collect()
}

fn run(list: &[&str]) -> Result<Cli, Error> {
    parse(&args(list))
}

const HEX: &str = "0123456789abcdef0123456789abcdef01234567";

#[test]
fn torrent_path_with_defaults() {
    let cli = run(&["demo.torrent"]).unwrap();
    assert_eq!(
        cli,
        Cli::Run(Config {
            input: Input::Torrent("demo.torrent".to_string()),
            output_dir: ".".to_string(),
            port: 6881,
            max_peers: 40,
            metadata_timeout: None,
            verbose: false,
            quiet: false,
        })
    );
}

#[test]
fn magnet_input_parses() {
    let uri = format!("magnet:?xt=urn:btih:{}", HEX);
    match run(&[&uri]).unwrap() {
        Cli::Run(config) => match config.input {
            Input::Magnet(m) => assert_eq!(m.info_hash.to_hex(), HEX),
            other => panic!("{:?}", other),
        },
        other => panic!("{:?}", other),
    }
}

#[test]
fn options_parse() {
    let cli = run(&["demo.torrent", "-o", "out", "--port", "7000", "--max-peers", "5"]).unwrap();
    match cli {
        Cli::Run(config) => {
            assert_eq!(config.output_dir, "out");
            assert_eq!(config.port, 7000);
            assert_eq!(config.max_peers, 5);
        }
        other => panic!("{:?}", other),
    }
}

#[test]
fn verbosity_flags_parse() {
    match run(&["demo.torrent", "-v"]).unwrap() {
        Cli::Run(config) => {
            assert!(config.verbose);
            assert!(!config.quiet);
        }
        other => panic!("{:?}", other),
    }
    match run(&["demo.torrent", "--quiet", "--verbose"]).unwrap() {
        Cli::Run(config) => {
            assert!(config.verbose);
            assert!(config.quiet);
        }
        other => panic!("{:?}", other),
    }
}

#[test]
fn help_wins() {
    assert_eq!(run(&["--help"]).unwrap(), Cli::Help);
    assert_eq!(run(&["demo.torrent", "-h"]).unwrap(), Cli::Help);
}

#[test]
fn missing_input_rejected() {
    assert_eq!(run(&[]), Err(Error::MissingInput));
}

#[test]
fn extra_input_rejected() {
    assert_eq!(
        run(&["a.torrent", "b.torrent"]),
        Err(Error::ExtraInput("b.torrent".into()))
    );
}

#[test]
fn unknown_option_rejected() {
    assert_eq!(run(&["-x", "a.torrent"]), Err(Error::UnknownOption("-x".into())));
}

#[test]
fn missing_value_rejected() {
    assert_eq!(run(&["a.torrent", "-o"]), Err(Error::MissingValue("--output")));
}

#[test]
fn bad_port_rejected() {
    assert_eq!(
        run(&["a.torrent", "--port", "99999"]),
        Err(Error::BadValue("--port", "99999".into()))
    );
}

#[test]
fn zero_max_peers_rejected() {
    assert_eq!(
        run(&["a.torrent", "--max-peers", "0"]),
        Err(Error::BadValue("--max-peers", "0".into()))
    );
}

#[test]
fn bad_magnet_rejected() {
    assert!(matches!(run(&["magnet:?dn=x"]), Err(Error::BadMagnet(_))));
}

#[test]
fn metadata_timeout_parses_in_seconds() {
    match run(&["demo.torrent", "--metadata-timeout", "30"]).unwrap() {
        Cli::Run(config) => assert_eq!(config.metadata_timeout, Some(30)),
        other => panic!("{:?}", other),
    }
    assert_eq!(
        run(&["demo.torrent", "--metadata-timeout", "soon"]),
        Err(Error::BadValue("--metadata-timeout", "soon".into()))
    );
}

#[test]
fn short_and_long_forms_agree() {
    assert_eq!(
        run(&["a.torrent", "-p", "7000", "-o", "x", "-q"]),
        run(&["a.torrent", "--port", "7000", "--output", "x", "--quiet"])
    );
}
