//! The client's command-line surface: three required flags, each
//! followed by its value, in any order.

use vstd::prelude::*;
use vstd::utf8::is_ascii_chars;

use crate::errors::{ErrorLocation, QuoteError};
use crate::net::spec_parse_port;
use crate::text::{ascii_bytes, str_eq};

verus! {

/// Command line arguments for the quote client.
#[derive(Debug, Clone)]
pub struct CliArgs {
    /// TCP address of the quote server (e.g. `127.0.0.1:8080`).
    pub server_addr: String,
    /// Local UDP port to bind for receiving quotes.
    pub udp_port: u16,
    /// Path of the file holding ticker symbols, one per line.
    pub tickers_file: String,
}

/// The value following `flag` among the argument pairs at even
/// positions, if any.
pub open spec fn flag_value(args: Seq<Seq<char>>, flag: Seq<char>, from: int) -> Option<Seq<char>>
    decreases args.len() - from,
{
    if from < 0 || from + 2 > args.len() {
        None
    } else if args[from] == flag {
        Some(args[from + 1])
    } else {
        flag_value(args, flag, from + 2)
    }
}

/// The meaning of an argument list: exactly three flag/value pairs,
/// with a decimal port that fits sixteen bits.
pub open spec fn spec_parse_args(args: Seq<Seq<char>>) -> Option<(Seq<char>, u16, Seq<char>)> {
    let addr = flag_value(args, "--server-addr"@, 0);
    let port = flag_value(args, "--udp-port"@, 0);
    let file = flag_value(args, "--tickers-file"@, 0);
    if args.len() == 6 && addr is Some && port is Some && file is Some {
        let p = port->Some_0;
        if is_ascii_chars(p) && spec_parse_port(ascii_bytes(p), 0) is Some {
            Some((addr->Some_0, spec_parse_port(ascii_bytes(p), 0)->Some_0, file->Some_0))
        } else {
            None
        }
    } else {
        None
    }
}

/// Looks up the value following `flag`.
fn lookup_flag(args: &Vec<String>, flag: &str, from: usize) -> (r: Option<String>)
    requires
        from <= args@.len(),
    ensures
        match r {
            Some(v) => flag_value(args.deep_view(), flag@, from as int) == Some(v@),
            None => flag_value(args.deep_view(), flag@, from as int) is None,
        },
    decreases args@.len() - from,
{
    if args.len() < 2 || from > args.len() - 2 {
        None
    } else {
        if str_eq(args[from].as_str(), flag) {
            proof {
                assert(args.deep_view()[from as int] == flag@);
            }
            Some(args[from + 1].clone())
        } else {
            proof {
                assert(args.deep_view()[from as int] == args@[from as int]@);
            }
            lookup_flag(args, flag, from + 2)
        }
    }
}

/// Parse command line arguments (the program name already removed):
/// `--server-addr <addr> --udp-port <port> --tickers-file <path>`,
/// pairs in any order.
pub fn parse(args: &Vec<String>) -> (r: Result<CliArgs, QuoteError>)
    ensures
        match r {
            Ok(c) => spec_parse_args(args.deep_view()) == Some(
                (c.server_addr@, c.udp_port, c.tickers_file@),
            ),
            Err(e) => {
                &&& spec_parse_args(args.deep_view()) is None
                &&& e matches QuoteError::ConfigError { message, .. } && message@
                    == "usage: --server-addr <addr> --udp-port <port> --tickers-file <path>"@
            },
        },
{
    let addr = lookup_flag(args, "--server-addr", 0);
    let port = lookup_flag(args, "--udp-port", 0);
    let file = lookup_flag(args, "--tickers-file", 0);
    proof {
        assert(args.deep_view().len() == args@.len());
    }
    if args.len() != 6 {
        return Err(usage_error());
    }
    match (addr, port, file) {
        (Some(addr), Some(port_s), Some(file)) => {
            if !port_s.as_str().is_ascii() {
                return Err(usage_error());
            }
            let pbytes = crate::protocol::ascii_str_bytes(port_s.as_str());
            proof {
                broadcast use vstd::utf8::is_ascii_chars_nat_bound;
            }
            match crate::net::parse_port(pbytes.as_slice(), 0) {
                Some(p) => Ok(CliArgs { server_addr: addr, udp_port: p, tickers_file: file }),
                None => Err(usage_error()),
            }
        },
        _ => Err(usage_error()),
    }
}

/// The usage message given for any malformed argument list.
fn usage_error() -> (e: QuoteError)
    ensures
        e matches QuoteError::ConfigError { message, .. } && message@
            == "usage: --server-addr <addr> --udp-port <port> --tickers-file <path>"@,
{
    QuoteError::ConfigError {
        message: "usage: --server-addr <addr> --udp-port <port> --tickers-file <path>".to_owned(),
        location: ErrorLocation { file: "cli.rs", line: 1, column: 1 },
    }
}

} // verus!
