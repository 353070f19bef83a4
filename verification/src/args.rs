//! The server's configuration: the command-line arguments, the `%PORT%` and
//! `%BIN_DIR%` variables they may hold, and the paths derived from them.

use vstd::prelude::*;
use crate::messages::{Sender, SenderView, Timestamp};
use crate::text::{decimal, decimal_string, replace_all, replace_str};

verus! {

/// The command-line arguments of the server, as given.
#[derive(Clone, Debug)]
pub struct EnvArgs {
    /// The port the server runs on.
    pub port: u16,
    /// The address to bind to.
    pub bind_address: String,
    /// Where the message database is created; empty means in memory.
    pub db_path: String,
    /// What first-time clients are greeted with, if anything.
    pub welcome_message: Option<String>,
    /// The directory in which big files are saved.
    pub big_file_directory: String,
}

/// The immutable state of the server that every task reads.
#[derive(Clone, Debug)]
pub struct ServerArgs {
    pub env_args: EnvArgs,
    pub default_sender: Option<Sender>,
}

/// `s` with `%PORT%` replaced by the port in decimal, and then `%BIN_DIR%` by
/// the directory of the server's binary.
pub open spec fn substituted(s: Seq<char>, port: u16, bin_dir: Seq<char>) -> Seq<char> {
    replace_all(replace_all(s, "%PORT%"@, decimal(port as nat)), "%BIN_DIR%"@, bin_dir)
}

/// Replaces the variables `%PORT%` and `%BIN_DIR%` in `to_replace`; `bin_dir`
/// is the directory that holds the server's binary.
pub fn replace_string_vars(to_replace: &str, env_args: &EnvArgs, bin_dir: &str) -> (res: String)
    ensures
        res@ == substituted(to_replace@, env_args.port, bin_dir@),
{
    proof {
        reveal_strlit("%PORT%");
        reveal_strlit("%BIN_DIR%");
    }
    let port = decimal_string(env_args.port as u64);
    let with_port = replace_str(to_replace, "%PORT%", port.as_str());
    replace_str(with_port.as_str(), "%BIN_DIR%", bin_dir)
}

/// The server's state from its arguments: the variables replaced in every
/// text argument (bind address, database path, welcome message and big file
/// directory), and the server
/// itself as the sender "Server" whose uuid is the port.
pub fn parse_args(env_args: EnvArgs, bin_dir: &str) -> (res: ServerArgs)
    ensures
        res.env_args.port == env_args.port,
        res.env_args.bind_address@ == substituted(env_args.bind_address@, env_args.port, bin_dir@),
        res.env_args.db_path@ == substituted(env_args.db_path@, env_args.port, bin_dir@),
        res.env_args.big_file_directory@ == substituted(
            env_args.big_file_directory@,
            env_args.port,
            bin_dir@,
        ),
        match env_args.welcome_message {
            Some(w) => res.env_args.welcome_message matches Some(r) && r@ == substituted(
                w@,
                env_args.port,
                bin_dir@,
            ),
            None => res.env_args.welcome_message is None,
        },
        res.default_sender matches Some(s) && s@ == (SenderView {
            uuid: env_args.port as u64,
            name: "Server"@,
        }),
{
    let big_file_directory = replace_string_vars(env_args.big_file_directory.as_str(), &env_args, bin_dir);
    let welcome_message = match &env_args.welcome_message {
        Some(w) => Some(replace_string_vars(w.as_str(), &env_args, bin_dir)),
        None => None,
    };
    let db_path = replace_string_vars(env_args.db_path.as_str(), &env_args, bin_dir);
    let bind_address = replace_string_vars(env_args.bind_address.as_str(), &env_args, bin_dir);
    let port = env_args.port;
    ServerArgs {
        default_sender: Some(Sender { name: String::from_str("Server"), uuid: port as u64 }),
        env_args: EnvArgs {
            port,
            bind_address,
            db_path,
            welcome_message,
            big_file_directory,
        },
    }
}

/// How `prost_types::Timestamp` displays `seconds` and `nanos`: RFC 3339 in
/// UTC, such as `1970-01-01T00:00:00Z`.
pub uninterp spec fn timestamp_text(seconds: i64, nanos: i32) -> Seq<char>;

/// `prost_types::Timestamp`'s `Display`, through `to_string`. It normalizes the
/// timestamp and formats it; the source shows no input on which it panics.
#[verifier::external_body]
fn timestamp_to_string(ts: &Timestamp) -> (res: String)
    ensures
        res@ == timestamp_text(ts.seconds, ts.nanos),
{
    prost_types::Timestamp { seconds: ts.seconds, nanos: ts.nanos }.to_string()
}

/// The file path of the big file with id `ts` under `directory`: the directory
/// followed by the timestamp's text with every `:` made a `;`.
pub open spec fn big_file_path(directory: Seq<char>, ts: Timestamp) -> Seq<char> {
    directory + replace_all(timestamp_text(ts.seconds, ts.nanos), ":"@, ";"@)
}

/// The path under `directory` for a big file whose timestamp displays as
/// `ts_text`.
pub fn big_file_path_from_text(directory: &str, ts_text: &str) -> (res: String)
    ensures
        res@ == directory@ + replace_all(ts_text@, ":"@, ";"@),
{
    proof {
        reveal_strlit(":");
    }
    let name = replace_str(ts_text, ":", ";");
    String::from_str(directory).concat(name.as_str())
}

impl ServerArgs {
    /// The file path where the big file with id `ts` is kept.
    pub fn generate_big_file_path(&self, ts: &Timestamp) -> (res: String)
        ensures
            res@ == big_file_path(self.env_args.big_file_directory@, *ts),
    {
        let text = timestamp_to_string(ts);
        big_file_path_from_text(self.env_args.big_file_directory.as_str(), text.as_str())
    }
}

} // verus!
