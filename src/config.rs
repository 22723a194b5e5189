//! Start-up parameters: how each command-line argument is taken, and the
//! defaults that fill in what none supplied.

use vstd::prelude::*;

verus! {

/// The served directory was not given and no fallback applies.
#[derive(Debug, Clone, Copy, PartialEq, Eq, Structural)]
pub struct MissingSourceDirectoryError;

impl MissingSourceDirectoryError {
    /// The text reported to the operator.
    pub fn message(&self) -> (r: String)
        ensures
            r@ == "Critical: missing absolute path to HTTP server source directory"@,
    {
        String::from_str("Critical: missing absolute path to HTTP server source directory")
    }
}

/// What a command-line argument is taken as.
#[derive(Debug, Clone, Copy, PartialEq, Eq, Structural)]
pub enum ArgUse {
    Ignored,
    SourceDir,
    Port,
    Address,
}

/// The first free role that the argument can fill, in the order source
/// directory, port, address; options (starting with `-`) are ignored.
pub open spec fn arg_use(
    arg: Seq<char>,
    has_source_dir: bool,
    has_port: bool,
    has_address: bool,
    is_existing_path: bool,
    is_port: bool,
    is_address: bool,
) -> ArgUse {
    if arg.len() > 0 && arg[0] == '-' {
        ArgUse::Ignored
    } else if !has_source_dir && is_existing_path {
        ArgUse::SourceDir
    } else if !has_port && is_port {
        ArgUse::Port
    } else if !has_address && is_address {
        ArgUse::Address
    } else {
        ArgUse::Ignored
    }
}

/// Decides the role of one argument. The three `is_` flags say whether it
/// names an existing path, reads as an `i32`, and reads as an IP
/// address.
pub fn classify_argument(
    arg: &str,
    has_source_dir: bool,
    has_port: bool,
    has_address: bool,
    is_existing_path: bool,
    is_port: bool,
    is_address: bool,
) -> (r: ArgUse)
    ensures
        r == arg_use(arg@, has_source_dir, has_port, has_address, is_existing_path, is_port, is_address),
{
    if arg.unicode_len() > 0 && arg.get_char(0) == '-' {
        ArgUse::Ignored
    } else if !has_source_dir && is_existing_path {
        ArgUse::SourceDir
    } else if !has_port && is_port {
        ArgUse::Port
    } else if !has_address && is_address {
        ArgUse::Address
    } else {
        ArgUse::Ignored
    }
}

/// The start-up parameters gathered so far.
#[derive(Debug, Clone, PartialEq, Eq)]
pub struct Params {
    pub address: Option<String>,
    pub port: Option<i32>,
    pub source_dir: Option<String>,
}

impl Params {
    /// Nothing gathered yet.
    pub fn new() -> (r: Params)
        ensures
            r.address is None && r.port is None && r.source_dir is None,
    {
        Params { address: None, port: None, source_dir: None }
    }

    /// Takes one argument. `canonical` is the argument's canonical path
    /// where it names an existing one, `port_value` its value as an `i32`,
    /// and `is_address` whether it reads as an IP address. The argument
    /// fills the role that `arg_use` gives it; the other fields stay.
    pub fn take_argument(
        &mut self,
        arg: String,
        canonical: Option<String>,
        port_value: Option<i32>,
        is_address: bool,
    )
        ensures
            ({
                let u = arg_use(
                    arg@,
                    old(self).source_dir is Some,
                    old(self).port is Some,
                    old(self).address is Some,
                    canonical is Some,
                    port_value is Some,
                    is_address,
                );
                &&& final(self).source_dir == (if u == ArgUse::SourceDir {
                    canonical
                } else {
                    old(self).source_dir
                })
                &&& final(self).port == (if u == ArgUse::Port {
                    port_value
                } else {
                    old(self).port
                })
                &&& final(self).address == (if u == ArgUse::Address {
                    Some(arg)
                } else {
                    old(self).address
                })
            }),
    {
        let u = classify_argument(
            arg.as_str(),
            self.source_dir.is_some(),
            self.port.is_some(),
            self.address.is_some(),
            canonical.is_some(),
            port_value.is_some(),
            is_address,
        );
        match u {
            ArgUse::SourceDir => {
                self.source_dir = canonical;
            },
            ArgUse::Port => {
                self.port = port_value;
            },
            ArgUse::Address => {
                self.address = Some(arg);
            },
            ArgUse::Ignored => {},
        }
    }
}

/// Fills in the defaults: address `::`, port 8080, and, only in test mode,
/// the current directory `./`. Without a source directory otherwise, the
/// start fails.
pub fn settle_params(
    address: Option<String>,
    port: Option<i32>,
    source_dir: Option<String>,
    test_mode: bool,
) -> (r: Result<(String, i32, String), MissingSourceDirectoryError>)
    ensures
        (source_dir is None && !test_mode) <==> r is Err,
        r matches Ok(t) ==> t.0@ == (match address {
            Some(a) => a@,
            None => "::"@,
        }) && t.1 == (match port {
            Some(p) => p,
            None => 8080,
        }) && t.2@ == (match source_dir {
            Some(d) => d@,
            None => "./"@,
        }),
{
    let dir = match source_dir {
        Some(d) => d,
        None => {
            if test_mode {
                String::from_str("./")
            } else {
                return Err(MissingSourceDirectoryError);
            }
        },
    };
    let a = match address {
        Some(a) => a,
        None => String::from_str("::"),
    };
    let p = match port {
        Some(p) => p,
        None => 8080,
    };
    Ok((a, p, dir))
}

} // verus!
