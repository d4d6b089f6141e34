use tidybee_agent::options::{check_options, get_options, print_option_error, Options, OptionsError, RawDir, RawOptions};

fn clap_options() -> clap::App<'static, 'static> {
    clap::App::new("TidyBee")
        .version("0.0.1")
        .author("majent4")
        .about("Watch for changes in directories and recursively list directories")
        .arg(
            clap::Arg::with_name("extension")
                .short("e")
                .long("extension")
                .value_name("EXTENSIONS")
                .multiple(true)
                .use_delimiter(true)
                .takes_value(true),
        )
        .arg(
            clap::Arg::with_name("type")
                .short("t")
                .long("type")
                .value_name("TYPES")
                .multiple(true)
                .use_delimiter(true)
                .takes_value(true),
        )
        .arg(
            clap::Arg::with_name("list")
                .short("l")
                .long("list")
                .value_name("DIRECTORIES")
                .multiple(true)
                .use_delimiter(true)
                .takes_value(true),
        )
        .arg(
            clap::Arg::with_name("watch")
                .short("w")
                .long("watch")
                .value_name("DIRECTORIES")
                .multiple(true)
                .use_delimiter(true)
                .takes_value(true),
        )
        .arg(
            clap::Arg::with_name("receive")
                .short("r")
                .long("receive")
                .value_name("ADDRESS")
                .takes_value(true),
        )
        .arg(
            clap::Arg::with_name("send")
                .short("s")
                .long("send")
                .value_name("ADDRESS")
                .takes_value(true),
        )
}

fn dirs_of(matches: &clap::ArgMatches<'_>, name: &str) -> Option<Vec<RawDir>> {
    matches.values_of(name).map(|vals| {
        vals.map(|p| RawDir {
            path: p.to_string(),
            is_dir: std::path::Path::new(p).is_dir(),
        })
        .collect()
    })
}

fn strings_of(matches: &clap::ArgMatches<'_>, name: &str) -> Option<Vec<String>> {
    matches.values_of(name).map(|vals| vals.map(String::from).collect())
}

fn to_raw(matches: &clap::ArgMatches<'_>) -> RawOptions {
    RawOptions {
        extensions: strings_of(matches, "extension"),
        types: strings_of(matches, "type"),
        list_dirs: dirs_of(matches, "list"),
        watch_dirs: dirs_of(matches, "watch"),
        receive_address: matches.value_of("receive").map(String::from),
        send_address: matches.value_of("send").map(String::from),
    }
}

#[test]
fn test_easy_missing_watch() {
    let arguments: Vec<&str> = vec!["tidybee-agent", "--list", "/usr"];
    let options = clap_options().get_matches_from(arguments);
    assert!(check_options(to_raw(&options)).is_err());
}

#[test]
fn test_easy_missing_list() {
    let arguments: Vec<&str> = vec!["tidybee-agent", "--watch", "/usr"];
    let options = clap_options().get_matches_from(arguments);
    assert!(check_options(to_raw(&options)).is_err());
}

#[test]
fn test_easy_valid() {
    let arguments: Vec<&str> = vec!["tidybee-agent", "--watch", "/tmp", "--list", "/tmp"];
    let options = clap_options().get_matches_from(arguments);
    assert!(check_options(to_raw(&options)).is_ok());
}

#[test]
fn test_directory_extension() {
    let arguments: Vec<&str> = vec![
        "tidybee-agent",
        "--watch",
        "/usr",
        "--list",
        "/usr",
        "-e",
        "pdf",
        "-t",
        "directory",
    ];
    let options = clap_options().get_matches_from(arguments);
    assert!(check_options(to_raw(&options)).is_err());
}

fn raw(
    extensions: Option<Vec<&str>>,
    types: Option<Vec<&str>>,
    list: Option<Vec<(&str, bool)>>,
    watch: Option<Vec<(&str, bool)>>,
) -> RawOptions {
    RawOptions {
        extensions: extensions.map(|v| v.into_iter().map(String::from).collect()),
        types: types.map(|v| v.into_iter().map(String::from).collect()),
        list_dirs: list.map(|v| {
            v.into_iter()
                .map(|(p, d)| RawDir { path: p.to_string(), is_dir: d })
                .collect()
        }),
        watch_dirs: watch.map(|v| {
            v.into_iter()
                .map(|(p, d)| RawDir { path: p.to_string(), is_dir: d })
                .collect()
        }),
        receive_address: None,
        send_address: None,
    }
}

#[test]
fn missing_command_carries_empty_message() {
    match check_options(raw(None, None, None, Some(vec![("/tmp", true)]))) {
        Err(OptionsError::MissingCommand(m)) => assert_eq!(m, ""),
        _ => panic!("expected MissingCommand"),
    }
}

#[test]
fn nonexistent_directory_is_rejected_with_its_path() {
    let r = check_options(raw(
        None,
        None,
        Some(vec![("/tmp", true), ("/nope", false)]),
        Some(vec![("/tmp", true)]),
    ));
    match r {
        Err(OptionsError::InvalidDirectory(m)) => {
            assert_eq!(m, "Specified directory does not exists: /nope");
        }
        _ => panic!("expected InvalidDirectory"),
    }
}

#[test]
fn first_invalid_extension_is_named() {
    let r = check_options(raw(
        Some(vec!["pdf", "exe", "zip"]),
        None,
        Some(vec![(".", true)]),
        Some(vec![(".", true)]),
    ));
    match r {
        Err(OptionsError::InvalidFileExtension(m)) => {
            assert_eq!(m, "Invalid file extension: exe");
        }
        _ => panic!("expected InvalidFileExtension"),
    }
}

#[test]
fn invalid_type_word_is_named() {
    let r = check_options(raw(
        None,
        Some(vec!["file"]),
        Some(vec![(".", true)]),
        Some(vec![(".", true)]),
    ));
    match r {
        Err(OptionsError::InvalidFileType(m)) => {
            assert_eq!(m, "Invalid file type: file");
        }
        _ => panic!("expected InvalidFileType"),
    }
}

#[test]
fn regular_type_wins_over_all_and_directory() {
    let r = get_options(raw(
        None,
        Some(vec!["directory", "all", "regular"]),
        Some(vec![(".", true)]),
        Some(vec![(".", true)]),
    ));
    let o: Options = r.ok().expect("valid configuration");
    assert_eq!(o.file_types_args.as_deref(), Some("regular"));
}

#[test]
fn star_counts_as_all() {
    let r = get_options(raw(
        None,
        Some(vec!["directory", "*"]),
        Some(vec![(".", true)]),
        Some(vec![(".", true)]),
    ));
    let o = r.ok().expect("valid configuration");
    assert_eq!(o.file_types_args.as_deref(), Some("all"));
}

#[test]
fn valid_configuration_keeps_fields() {
    let mut input = raw(
        Some(vec!["pdf", "png"]),
        Some(vec!["regular"]),
        Some(vec![("/tmp", true)]),
        Some(vec![("/usr", true)]),
    );
    input.receive_address = Some("127.0.0.1:7001".to_string());
    input.send_address = Some("127.0.0.1:7002".to_string());
    let o = get_options(input).ok().expect("valid configuration");
    assert_eq!(o.file_extensions_args, Some(vec!["pdf".to_string(), "png".to_string()]));
    assert_eq!(o.directories_list_args, Some(vec!["/tmp".to_string()]));
    assert_eq!(o.directories_watch_args, Some(vec!["/usr".to_string()]));
    assert_eq!(o.receive_address_arg.as_deref(), Some("127.0.0.1:7001"));
    assert_eq!(o.send_address_arg.as_deref(), Some("127.0.0.1:7002"));
}

#[test]
fn extension_filter_with_directory_type_is_rejected() {
    let r = check_options(raw(
        Some(vec!["pdf"]),
        Some(vec!["directory"]),
        Some(vec![(".", true)]),
        Some(vec![(".", true)]),
    ));
    match r {
        Err(OptionsError::InvalidFileType(m)) => {
            assert_eq!(
                m,
                "Can't specify both file extensions and file type directory simultaneously"
            );
        }
        _ => panic!("expected InvalidFileType"),
    }
}

#[test]
fn printing_an_error_does_not_panic() {
    print_option_error(OptionsError::InvalidFileExtension("Invalid file extension: exe".to_string()));
}
