//! The command line of the downloader: one torrent file or magnet link and
//! options.
use vstd::prelude::*;
use vstd::utf8::encode_utf8;
use crate::keys::{
    magnet_scheme_bytes, magnet_scheme_key, opt_h_bytes, opt_h_key, opt_help_bytes, opt_help_key,
    opt_max_peers_bytes, opt_max_peers_key, opt_metadata_timeout_bytes, opt_metadata_timeout_key,
    opt_o_bytes, opt_o_key, opt_output_bytes, opt_output_key, opt_p_bytes, opt_p_key,
    opt_port_bytes, opt_port_key, opt_q_bytes, opt_q_key, opt_quiet_bytes, opt_quiet_key,
    opt_v_bytes, opt_v_key, opt_verbose_bytes, opt_verbose_key,
};
use crate::magnet::{self, magnet_matches, magnet_parts, starts, Magnet};
use crate::number::{decimal_value, parse_decimal};
use crate::wire::bytes_eq;

verus! {

/// What to download.
#[derive(Debug, Clone, PartialEq, Eq)]
pub enum Input {
    /// The path of a torrent file.
    Torrent(String),
    Magnet(Magnet),
}

/// A download as the command line asks for it.
#[derive(Debug, Clone, PartialEq, Eq)]
pub struct Config {
    pub input: Input,
    pub output_dir: String,
    pub port: u16,
    pub max_peers: usize,
    /// Seconds to look for a magnet link's metadata; `None` to keep trying.
    pub metadata_timeout: Option<u64>,
    pub verbose: bool,
    pub quiet: bool,
}

#[derive(Debug, Clone, PartialEq, Eq)]
pub enum Cli {
    Run(Config),
    Help,
}

#[derive(Debug, Clone, PartialEq, Eq)]
pub enum Error {
    MissingInput,
    ExtraInput(String),
    UnknownOption(String),
    MissingValue(&'static str),
    BadValue(&'static str, String),
    BadMagnet(magnet::Error),
}

/// What an argument is.
pub enum Opt {
    Help,
    Verbose,
    Quiet,
    Output,
    Port,
    MaxPeers,
    MetadataTimeout,
    Other,
}

/// The option that the bytes of an argument spell, if any.
pub open spec fn opt_of(a: Seq<u8>) -> Opt {
    if a == opt_h_key() || a == opt_help_key() {
        Opt::Help
    } else if a == opt_v_key() || a == opt_verbose_key() {
        Opt::Verbose
    } else if a == opt_q_key() || a == opt_quiet_key() {
        Opt::Quiet
    } else if a == opt_o_key() || a == opt_output_key() {
        Opt::Output
    } else if a == opt_p_key() || a == opt_port_key() {
        Opt::Port
    } else if a == opt_max_peers_key() {
        Opt::MaxPeers
    } else if a == opt_metadata_timeout_key() {
        Opt::MetadataTimeout
    } else {
        Opt::Other
    }
}

/// What the arguments read so far have set; positions are indexes of
/// arguments.
pub struct Parts {
    pub input: Option<int>,
    pub output: Option<int>,
    pub port: u16,
    pub max_peers: usize,
    pub timeout: Option<u64>,
    pub verbose: bool,
    pub quiet: bool,
}

/// How reading the arguments ends.
pub enum Outcome {
    Help,
    Done(Parts),
    MissingInput,
    ExtraInput(int),
    UnknownOption(int),
    MissingValue(Opt),
    BadValue(Opt, int),
    BadMagnet(magnet::Error),
}

/// The defaults: output to `.`, port 6881, 40 peers, no metadata deadline.
pub open spec fn initial_parts() -> Parts {
    Parts {
        input: None,
        output: None,
        port: 6881,
        max_peers: 40,
        timeout: None,
        verbose: false,
        quiet: false,
    }
}

/// Reads the arguments from the `i`th on, in the state `st`.
pub open spec fn scan(args: Seq<Seq<u8>>, i: int, st: Parts) -> Outcome
    decreases args.len() - i,
{
    if i < 0 || i >= args.len() {
        if st.input is None {
            Outcome::MissingInput
        } else {
            Outcome::Done(st)
        }
    } else {
        let a = args[i];
        match opt_of(a) {
            Opt::Help => Outcome::Help,
            Opt::Verbose => scan(args, i + 1, Parts { verbose: true, ..st }),
            Opt::Quiet => scan(args, i + 1, Parts { quiet: true, ..st }),
            Opt::Output => if i + 1 >= args.len() {
                Outcome::MissingValue(Opt::Output)
            } else {
                scan(args, i + 2, Parts { output: Some(i + 1), ..st })
            },
            Opt::Port => if i + 1 >= args.len() {
                Outcome::MissingValue(Opt::Port)
            } else {
                match decimal_value(args[i + 1]) {
                    Some(v) => if v <= u16::MAX {
                        scan(args, i + 2, Parts { port: v as u16, ..st })
                    } else {
                        Outcome::BadValue(Opt::Port, i + 1)
                    },
                    None => Outcome::BadValue(Opt::Port, i + 1),
                }
            },
            Opt::MaxPeers => if i + 1 >= args.len() {
                Outcome::MissingValue(Opt::MaxPeers)
            } else {
                match decimal_value(args[i + 1]) {
                    Some(v) => if 0 < v <= usize::MAX {
                        scan(args, i + 2, Parts { max_peers: v as usize, ..st })
                    } else {
                        Outcome::BadValue(Opt::MaxPeers, i + 1)
                    },
                    None => Outcome::BadValue(Opt::MaxPeers, i + 1),
                }
            },
            Opt::MetadataTimeout => if i + 1 >= args.len() {
                Outcome::MissingValue(Opt::MetadataTimeout)
            } else {
                match decimal_value(args[i + 1]) {
                    Some(v) => if v <= u64::MAX {
                        scan(
                            args,
                            i + 2,
                            Parts {
                                timeout: if v == 0 {
                                    None
                                } else {
                                    Some(v as u64)
                                },
                                ..st
                            },
                        )
                    } else {
                        Outcome::BadValue(Opt::MetadataTimeout, i + 1)
                    },
                    None => Outcome::BadValue(Opt::MetadataTimeout, i + 1),
                }
            },
            Opt::Other => if a.len() > 1 && a[0] == 45 {
                Outcome::UnknownOption(i)
            } else if st.input is Some {
                Outcome::ExtraInput(i)
            } else if starts(a, magnet_scheme_key()) && magnet_parts(a) is Err {
                Outcome::BadMagnet(magnet_parts(a)->Err_0)
            } else {
                scan(args, i + 1, Parts { input: Some(i), ..st })
            },
        }
    }
}

/// The long name of an option that takes a value.
pub open spec fn opt_name(o: Opt) -> Seq<char> {
    match o {
        Opt::Output => "--output"@,
        Opt::Port => "--port"@,
        Opt::MaxPeers => "--max-peers"@,
        _ => "--metadata-timeout"@,
    }
}

/// The bytes of each argument.
pub open spec fn arg_bytes(args: Seq<String>) -> Seq<Seq<u8>> {
    args.map_values(|s: String| encode_utf8(s@))
}

/// `input` is what the argument `a` names.
pub open spec fn input_matches(input: Input, a: String) -> bool {
    match input {
        Input::Torrent(path) => !starts(encode_utf8(a@), magnet_scheme_key()) && path@ == a@,
        Input::Magnet(m) => starts(encode_utf8(a@), magnet_scheme_key()) && (magnet_parts(
            encode_utf8(a@),
        ) matches Ok(parts) && magnet_matches(m, parts)),
    }
}

/// `c` holds what `p` says of the arguments `args`.
pub open spec fn config_matches(c: Config, p: Parts, args: Seq<String>) -> bool {
    &&& p.input matches Some(k) && 0 <= k < args.len() && input_matches(c.input, args[k])
    &&& match p.output {
        Some(k) => 0 <= k < args.len() && c.output_dir@ == args[k]@,
        None => c.output_dir@ == "."@,
    }
    &&& c.port == p.port
    &&& c.max_peers == p.max_peers
    &&& c.metadata_timeout == p.timeout
    &&& c.verbose == p.verbose
    &&& c.quiet == p.quiet
}

fn opt_of_exec(a: &[u8]) -> (r: Opt)
    ensures
        r == opt_of(a@),
{
    if bytes_eq(a, opt_h_bytes().as_slice()) || bytes_eq(a, opt_help_bytes().as_slice()) {
        Opt::Help
    } else if bytes_eq(a, opt_v_bytes().as_slice()) || bytes_eq(a, opt_verbose_bytes().as_slice()) {
        Opt::Verbose
    } else if bytes_eq(a, opt_q_bytes().as_slice()) || bytes_eq(a, opt_quiet_bytes().as_slice()) {
        Opt::Quiet
    } else if bytes_eq(a, opt_o_bytes().as_slice()) || bytes_eq(a, opt_output_bytes().as_slice()) {
        Opt::Output
    } else if bytes_eq(a, opt_p_bytes().as_slice()) || bytes_eq(a, opt_port_bytes().as_slice()) {
        Opt::Port
    } else if bytes_eq(a, opt_max_peers_bytes().as_slice()) {
        Opt::MaxPeers
    } else if bytes_eq(a, opt_metadata_timeout_bytes().as_slice()) {
        Opt::MetadataTimeout
    } else {
        Opt::Other
    }
}

fn name_of(o: &Opt) -> (r: &'static str)
    ensures
        r@ == opt_name(*o),
{
    match o {
        Opt::Output => "--output",
        Opt::Port => "--port",
        Opt::MaxPeers => "--max-peers",
        _ => "--metadata-timeout",
    }
}

/// Reads the command line (without the program's name).
pub fn parse(args: &[String]) -> (r: Result<Cli, Error>)
    ensures
        match r {
            Ok(Cli::Help) => scan(arg_bytes(args@), 0, initial_parts()) is Help,
            Ok(Cli::Run(c)) => scan(arg_bytes(args@), 0, initial_parts()) matches Outcome::Done(p)
                && config_matches(c, p, args@),
            Err(Error::MissingInput) => scan(arg_bytes(args@), 0, initial_parts()) is MissingInput,
            Err(Error::ExtraInput(s)) => scan(arg_bytes(args@), 0, initial_parts()) matches Outcome::ExtraInput(
                k,
            ) && 0 <= k < args@.len() && s@ == args@[k]@,
            Err(Error::UnknownOption(s)) => scan(arg_bytes(args@), 0, initial_parts())
                matches Outcome::UnknownOption(k) && 0 <= k < args@.len() && s@ == args@[k]@,
            Err(Error::MissingValue(name)) => scan(arg_bytes(args@), 0, initial_parts())
                matches Outcome::MissingValue(o) && name@ == opt_name(o),
            Err(Error::BadValue(name, s)) => scan(arg_bytes(args@), 0, initial_parts())
                matches Outcome::BadValue(o, k) && name@ == opt_name(o) && 0 <= k < args@.len()
                && s@ == args@[k]@,
            Err(Error::BadMagnet(e)) => scan(arg_bytes(args@), 0, initial_parts()) == Outcome::BadMagnet(
                e,
            ),
        },
{
    let ghost ab = arg_bytes(args@);
    let mut input: Option<Input> = None;
    let mut output_dir: Option<String> = None;
    let mut port: u16 = 6881;
    let mut max_peers: usize = 40;
    let mut metadata_timeout: Option<u64> = None;
    let mut verbose = false;
    let mut quiet = false;
    let ghost mut input_at: Option<int> = None;
    let ghost mut output_at: Option<int> = None;
    let mut i: usize = 0;
    while i < args.len()
        invariant
            i <= args@.len(),
            ab == arg_bytes(args@),
            scan(ab, 0, initial_parts()) == scan(
                ab,
                i as int,
                Parts {
                    input: input_at,
                    output: output_at,
                    port,
                    max_peers,
                    timeout: metadata_timeout,
                    verbose,
                    quiet,
                },
            ),
            input is Some <==> input_at is Some,
            input_at matches Some(k) ==> 0 <= k < args@.len() && input_matches(input->Some_0, args@[k]),
            output_dir is Some <==> output_at is Some,
            output_at matches Some(k) ==> 0 <= k < args@.len() && output_dir->Some_0@ == args@[k]@,
        decreases args.len() - i,
    {
        let ghost st = Parts {
            input: input_at,
            output: output_at,
            port,
            max_peers,
            timeout: metadata_timeout,
            verbose,
            quiet,
        };
        let a = args[i].as_str().as_bytes();
        proof {
            assert(a@ == ab[i as int]);
        }
        match opt_of_exec(a) {
            Opt::Help => {
                return Ok(Cli::Help);
            },
            Opt::Verbose => {
                verbose = true;
                i = i + 1;
            },
            Opt::Quiet => {
                quiet = true;
                i = i + 1;
            },
            Opt::Other => {
                if a.len() > 1 && a[0] == 45u8 {
                    return Err(Error::UnknownOption(args[i].clone()));
                }
                if input.is_some() {
                    return Err(Error::ExtraInput(args[i].clone()));
                }
                let raw = args[i].as_str();
                let scheme = magnet_scheme_bytes();
                if crate::wire::starts_with(a, scheme.as_slice()) {
                    match magnet::parse(raw) {
                        Ok(m) => {
                            input = Some(Input::Magnet(m));
                        },
                        Err(e) => {
                            return Err(Error::BadMagnet(e));
                        },
                    }
                } else {
                    input = Some(Input::Torrent(args[i].clone()));
                }
                proof {
                    input_at = Some(i as int);
                }
                i = i + 1;
            },
            o => {
                if i + 1 >= args.len() {
                    return Err(Error::MissingValue(name_of(&o)));
                }
                let value = args[i + 1].as_str().as_bytes();
                proof {
                    assert(value@ == ab[i + 1]);
                }
                match o {
                    Opt::Output => {
                        output_dir = Some(args[i + 1].clone());
                        proof {
                            output_at = Some(i + 1);
                        }
                    },
                    Opt::Port => {
                        match parse_decimal(value, 65535) {
                            Some(v) => {
                                port = v as u16;
                            },
                            None => {
                                return Err(Error::BadValue("--port", args[i + 1].clone()));
                            },
                        }
                    },
                    Opt::MaxPeers => {
                        match parse_decimal(value, usize::MAX as u64) {
                            Some(v) => {
                                if v == 0 {
                                    return Err(Error::BadValue("--max-peers", args[i + 1].clone()));
                                }
                                max_peers = v as usize;
                            },
                            None => {
                                return Err(Error::BadValue("--max-peers", args[i + 1].clone()));
                            },
                        }
                    },
                    _ => {
                        match parse_decimal(value, u64::MAX) {
                            Some(v) => {
                                metadata_timeout = if v == 0 {
                                    None
                                } else {
                                    Some(v)
                                };
                            },
                            None => {
                                return Err(
                                    Error::BadValue("--metadata-timeout", args[i + 1].clone()),
                                );
                            },
                        }
                    },
                }
                i = i + 2;
            },
        }
    }
    let input = match input {
        Some(x) => x,
        None => {
            return Err(Error::MissingInput);
        },
    };
    let output_dir = match output_dir {
        Some(d) => d,
        None => ".".to_owned(),
    };
    Ok(
        Cli::Run(
            Config { input, output_dir, port, max_peers, metadata_timeout, verbose, quiet },
        ),
    )
}

} // verus!
