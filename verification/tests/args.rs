use pog_bilder::args::{big_file_path_from_text, parse_args, replace_string_vars, EnvArgs};
use pog_bilder::messages::{Sender, Timestamp};

fn env(port: u16) -> EnvArgs {
    EnvArgs {
        port,
        bind_address: "0.0.0.0".to_string(),
        db_path: "%BIN_DIR%/db/%PORT%.db".to_string(),
        welcome_message: Some("hi from %PORT%".to_string()),
        big_file_directory: "%BIN_DIR%/files/%PORT%/".to_string(),
    }
}

#[test]
fn variables_are_replaced() {
    let e = env(6969);
    assert_eq!(replace_string_vars("%BIN_DIR%/db/%PORT%.db", &e, "/opt/pog"), "/opt/pog/db/6969.db");
    assert_eq!(replace_string_vars("plain", &e, "/opt/pog"), "plain");
    assert_eq!(replace_string_vars("%PORT%%PORT%", &e, "/x"), "69696969");
}

#[test]
fn port_is_replaced_before_bin_dir() {
    let e = env(1);
    // a %PORT% inside the binary's directory is left as it is
    assert_eq!(replace_string_vars("%BIN_DIR%", &e, "/a/%PORT%"), "/a/%PORT%");
}

#[test]
fn parse_args_fills_the_server_state() {
    let args = parse_args(env(6969), "/srv");
    assert_eq!(args.env_args.port, 6969);
    assert_eq!(args.env_args.bind_address, "0.0.0.0");
    assert_eq!(args.env_args.db_path, "/srv/db/6969.db");
    assert_eq!(args.env_args.big_file_directory, "/srv/files/6969/");
    assert_eq!(args.env_args.welcome_message, Some("hi from 6969".to_string()));
    assert_eq!(args.default_sender, Some(Sender { uuid: 6969, name: "Server".to_string() }));
}

#[test]
fn parse_args_without_welcome() {
    let mut e = env(80);
    e.welcome_message = None;
    let args = parse_args(e, "/srv");
    assert_eq!(args.env_args.welcome_message, None);
}

#[test]
fn big_file_path_from_epoch() {
    let args = parse_args(env(7), "/srv");
    let path = args.generate_big_file_path(&Timestamp { seconds: 0, nanos: 0 });
    assert_eq!(path, "/srv/files/7/1970-01-01T00;00;00Z");
}

#[test]
fn big_file_path_with_millis() {
    let args = parse_args(env(7), "/d");
    let path = args.generate_big_file_path(&Timestamp { seconds: 1_700_000_000, nanos: 5_000_000 });
    assert_eq!(path, "/d/files/7/2023-11-14T22;13;20.005Z");
}

#[test]
fn path_from_text_replaces_colons() {
    assert_eq!(big_file_path_from_text("dir/", "a:b:c"), "dir/a;b;c");
}

#[test]
fn bind_address_is_substituted_too() {
    let mut e = env(7);
    e.bind_address = "%PORT%".to_string();
    let args = parse_args(e, "/srv");
    assert_eq!(args.env_args.bind_address, "7");
    assert_eq!(args.env_args.welcome_message, Some("hi from 7".to_string()));
}
