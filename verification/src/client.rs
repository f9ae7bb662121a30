//! The command line of the client that tries the server out.
use crate::serve;
use crate::utils::text;
use vstd::prelude::*;

verus! {

/// What the command line asks for.
pub struct ClientArgs {
    pub host: String,
    pub port: u16,
    pub max_tokens: u32,
}

/// A flag of the client. Each takes a value.
#[derive(Debug, Clone, Copy, PartialEq, Eq, Structural)]
pub enum ClientFlag {
    Host,
    Port,
    MaxTokens,
}

/// What is wrong with the command line.
#[derive(Debug, Clone, Copy, PartialEq, Eq, Structural)]
pub enum ClientArgsError {
    /// A value is missing behind this flag.
    MissingValue(ClientFlag),
    /// The value behind this flag is not such a number.
    BadNumber(ClientFlag),
    /// The argument at this place is not known.
    Unknown(usize),
}

/// What has been read of the command line.
pub struct ClientArgsView {
    pub host: Seq<char>,
    pub port: u16,
    pub max_tokens: u32,
}

/// The flag that an argument is, if it is one.
pub open spec fn flag_of(arg: Seq<char>) -> Option<ClientFlag> {
    if arg == "--host"@ {
        Some(ClientFlag::Host)
    } else if arg == "--port"@ {
        Some(ClientFlag::Port)
    } else if arg == "--max-tokens"@ {
        Some(ClientFlag::MaxTokens)
    } else {
        None
    }
}

/// The number that a text stands for, if it stands for one up to `max`.
pub open spec fn number_up_to(value: Seq<char>, max: int) -> Option<usize> {
    match text::number_of(value) {
        Some(n) => if n <= max {
            Some(n)
        } else {
            None
        },
        None => None,
    }
}

impl ClientArgsView {
    /// The value behind a flag is taken.
    pub open spec fn with(self, flag: ClientFlag, value: Seq<char>) -> Result<
        ClientArgsView,
        ClientArgsError,
    > {
        match flag {
            ClientFlag::Host => Ok(ClientArgsView { host: value, ..self }),
            ClientFlag::Port => match number_up_to(value, u16::MAX as int) {
                Some(n) => Ok(ClientArgsView { port: n as u16, ..self }),
                None => Err(ClientArgsError::BadNumber(flag)),
            },
            ClientFlag::MaxTokens => match number_up_to(value, u32::MAX as int) {
                Some(n) => Ok(ClientArgsView { max_tokens: n as u32, ..self }),
                None => Err(ClientArgsError::BadNumber(flag)),
            },
        }
    }
}

/// The arguments are read from place `i` on.
pub open spec fn read_args(args: Seq<Seq<char>>, i: int, read: ClientArgsView) -> Result<
    ClientArgsView,
    ClientArgsError,
>
    decreases args.len() - i,
{
    if i < 0 || i >= args.len() {
        Ok(read)
    } else {
        match flag_of(args[i]) {
            Some(flag) => if i + 1 >= args.len() {
                Err(ClientArgsError::MissingValue(flag))
            } else {
                match read.with(flag, args[i + 1]) {
                    Ok(next) => read_args(args, i + 2, next),
                    Err(error) => Err(error),
                }
            },
            None => Err(ClientArgsError::Unknown(i as usize)),
        }
    }
}

/// What holds where the command line says nothing.
pub open spec fn default_args() -> ClientArgsView {
    ClientArgsView { host: "localhost"@, port: 8000, max_tokens: 256 }
}

/// The flag that an argument is, if it is one.
fn find_flag(arg: &str) -> (flag: Option<ClientFlag>)
    ensures
        flag == flag_of(arg@),
{
    if text::same_text(arg, "--host") {
        Some(ClientFlag::Host)
    } else if text::same_text(arg, "--port") {
        Some(ClientFlag::Port)
    } else if text::same_text(arg, "--max-tokens") {
        Some(ClientFlag::MaxTokens)
    } else {
        None
    }
}

/// The number that a text stands for, if it stands for one up to `max`.
fn parse_up_to(value: &str, max: u32) -> (number: Option<usize>)
    ensures
        number == number_up_to(value@, max as int),
{
    match text::parse_usize(value) {
        Some(number) => if number <= max as usize {
            Some(number)
        } else {
            None
        },
        None => None,
    }
}

/// Reads the command line, without the name of the program.
pub fn parse_args(args: &Vec<String>) -> (parsed: Result<ClientArgs, ClientArgsError>)
    ensures
        match read_args(serve::arg_views(args@), 0, default_args()) {
            Err(error) => parsed == Err::<ClientArgs, ClientArgsError>(error),
            Ok(read) => parsed matches Ok(a) && a.host@ == read.host && a.port == read.port
                && a.max_tokens == read.max_tokens,
        },
{
    let ghost all = serve::arg_views(args@);
    let mut host: String = "localhost".to_owned();
    let mut port: u16 = 8000;
    let mut max_tokens: u32 = 256;
    let n = args.len();
    let mut i: usize = 0;
    while i < n
        invariant
            i <= n,
            n == args@.len(),
            all == serve::arg_views(args@),
            read_args(all, i as int, ClientArgsView { host: host@, port, max_tokens }) == read_args(
                all,
                0,
                default_args(),
            ),
        decreases n - i,
    {
        assert(all[i as int] == args@[i as int]@);
        let flag = match find_flag(args[i].as_str()) {
            Some(flag) => flag,
            None => {
                return Err(ClientArgsError::Unknown(i));
            },
        };
        if n - i == 1 {
            return Err(ClientArgsError::MissingValue(flag));
        }
        assert(all[i + 1] == args@[i + 1]@);
        let value = args[i + 1].as_str();
        match flag {
            ClientFlag::Host => {
                host = args[i + 1].clone();
            },
            ClientFlag::Port => match parse_up_to(value, u16::MAX as u32) {
                Some(number) => {
                    port = number as u16;
                },
                None => {
                    return Err(ClientArgsError::BadNumber(flag));
                },
            },
            ClientFlag::MaxTokens => match parse_up_to(value, u32::MAX) {
                Some(number) => {
                    max_tokens = number as u32;
                },
                None => {
                    return Err(ClientArgsError::BadNumber(flag));
                },
            },
        }
        i = i + 2;
    }
    Ok(ClientArgs { host, port, max_tokens })
}

} // verus!
