//! The command line of the server, and what a request leaves out.
use crate::utils::text;
use vstd::prelude::*;

verus! {

/// What the command line asks for.
pub struct Args {
    pub model_path: String,
    pub tensor_parallel_size: usize,
    pub port: u16,
    pub max_num_batched_tokens: Option<usize>,
}

/// What is wrong with the command line.
#[derive(Debug, Clone, Copy, PartialEq, Eq, Structural)]
pub enum ArgsError {
    /// A value is missing behind this flag.
    MissingValue(Flag),
    /// The value behind this flag is not such a number.
    BadNumber(Flag),
    /// No model is named.
    NoModel,
}

/// A flag that takes a value.
#[derive(Debug, Clone, Copy, PartialEq, Eq, Structural)]
pub enum Flag {
    TensorParallelSize,
    Port,
    MaxNumBatchedTokens,
    Model,
}

/// What has been read of the command line.
pub struct ArgsView {
    pub model_path: Option<Seq<char>>,
    pub tensor_parallel_size: usize,
    pub port: u16,
    pub max_num_batched_tokens: Option<usize>,
}

/// The flag that an argument is, if it is one.
pub open spec fn flag_of(arg: Seq<char>) -> Option<Flag> {
    if arg == "--tensor-parallel-size"@ {
        Some(Flag::TensorParallelSize)
    } else if arg == "--port"@ {
        Some(Flag::Port)
    } else if arg == "--max-num-batched-tokens"@ {
        Some(Flag::MaxNumBatchedTokens)
    } else if arg == "--model"@ {
        Some(Flag::Model)
    } else {
        None
    }
}

impl ArgsView {
    /// The value behind a flag is taken.
    pub open spec fn with(self, flag: Flag, value: Seq<char>) -> Result<ArgsView, ArgsError> {
        match flag {
            Flag::Model => Ok(ArgsView { model_path: Some(value), ..self }),
            Flag::TensorParallelSize => match text::number_of(value) {
                Some(n) => Ok(ArgsView { tensor_parallel_size: n, ..self }),
                None => Err(ArgsError::BadNumber(flag)),
            },
            Flag::MaxNumBatchedTokens => match text::number_of(value) {
                Some(n) => Ok(ArgsView { max_num_batched_tokens: Some(n), ..self }),
                None => Err(ArgsError::BadNumber(flag)),
            },
            Flag::Port => match text::number_of(value) {
                Some(n) => if n <= u16::MAX {
                    Ok(ArgsView { port: n as u16, ..self })
                } else {
                    Err(ArgsError::BadNumber(flag))
                },
                None => Err(ArgsError::BadNumber(flag)),
            },
        }
    }
}

/// The arguments are read from place `i` on. What is no flag is the model.
pub open spec fn read_args(args: Seq<Seq<char>>, i: int, read: ArgsView) -> Result<
    ArgsView,
    ArgsError,
>
    decreases args.len() - i,
{
    if i < 0 || i >= args.len() {
        Ok(read)
    } else {
        match flag_of(args[i]) {
            Some(flag) => if i + 1 >= args.len() {
                Err(ArgsError::MissingValue(flag))
            } else {
                match read.with(flag, args[i + 1]) {
                    Ok(next) => read_args(args, i + 2, next),
                    Err(error) => Err(error),
                }
            },
            None => read_args(args, i + 1, ArgsView { model_path: Some(args[i]), ..read }),
        }
    }
}

/// What holds where the command line says nothing.
pub open spec fn default_args() -> ArgsView {
    ArgsView {
        model_path: None,
        tensor_parallel_size: 1,
        port: 8000,
        max_num_batched_tokens: None,
    }
}

pub open spec fn arg_views(args: Seq<String>) -> Seq<Seq<char>> {
    Seq::new(args.len(), |i: int| args[i]@)
}

/// The flag that an argument is, if it is one.
fn find_flag(arg: &str) -> (flag: Option<Flag>)
    ensures
        flag == flag_of(arg@),
{
    if text::same_text(arg, "--tensor-parallel-size") {
        Some(Flag::TensorParallelSize)
    } else if text::same_text(arg, "--port") {
        Some(Flag::Port)
    } else if text::same_text(arg, "--max-num-batched-tokens") {
        Some(Flag::MaxNumBatchedTokens)
    } else if text::same_text(arg, "--model") {
        Some(Flag::Model)
    } else {
        None
    }
}

/// Reads the command line, without the name of the program.
pub fn parse_args(args: &Vec<String>) -> (parsed: Result<Args, ArgsError>)
    ensures
        match read_args(arg_views(args@), 0, default_args()) {
            Err(error) => parsed == Err::<Args, ArgsError>(error),
            Ok(read) => match read.model_path {
                None => parsed == Err::<Args, ArgsError>(ArgsError::NoModel),
                Some(path) => parsed matches Ok(a) && a.model_path@ == path
                    && a.tensor_parallel_size == read.tensor_parallel_size && a.port == read.port
                    && a.max_num_batched_tokens == read.max_num_batched_tokens,
            },
        },
{
    let ghost all = arg_views(args@);
    let mut model_path: Option<String> = None;
    let mut tensor_parallel_size: usize = 1;
    let mut port: u16 = 8000;
    let mut max_num_batched_tokens: Option<usize> = None;
    let n = args.len();
    let mut i: usize = 0;
    while i < n
        invariant
            i <= n,
            n == args@.len(),
            all == arg_views(args@),
            read_args(
                all,
                i as int,
                ArgsView {
                    model_path: text::text_of(model_path),
                    tensor_parallel_size,
                    port,
                    max_num_batched_tokens,
                },
            ) == read_args(all, 0, default_args()),
        decreases n - i,
    {
        assert(all[i as int] == args@[i as int]@);
        match find_flag(args[i].as_str()) {
            None => {
                model_path = Some(args[i].clone());
                i = i + 1;
            },
            Some(flag) => {
                if n - i == 1 {
                    return Err(ArgsError::MissingValue(flag));
                }
                assert(all[i + 1] == args@[i + 1]@);
                let value = args[i + 1].as_str();
                match flag {
                    Flag::Model => {
                        model_path = Some(args[i + 1].clone());
                    },
                    Flag::TensorParallelSize => match text::parse_usize(value) {
                        Some(number) => {
                            tensor_parallel_size = number;
                        },
                        None => {
                            return Err(ArgsError::BadNumber(flag));
                        },
                    },
                    Flag::MaxNumBatchedTokens => match text::parse_usize(value) {
                        Some(number) => {
                            max_num_batched_tokens = Some(number);
                        },
                        None => {
                            return Err(ArgsError::BadNumber(flag));
                        },
                    },
                    Flag::Port => match text::parse_usize(value) {
                        Some(number) => {
                            if number > u16::MAX as usize {
                                return Err(ArgsError::BadNumber(flag));
                            }
                            port = number as u16;
                        },
                        None => {
                            return Err(ArgsError::BadNumber(flag));
                        },
                    },
                }
                i = i + 2;
            },
        }
    }
    match model_path {
        Some(model_path) => Ok(
            Args { model_path, tensor_parallel_size, port, max_num_batched_tokens },
        ),
        None => Err(ArgsError::NoModel),
    }
}

/// How many tokens are generated where a request does not say.
pub fn default_max_tokens() -> (n: i32)
    ensures
        n == 64,
{
    64
}

/// The bits of the temperature where a request does not say, `1.0`.
pub const DEFAULT_TEMPERATURE_BITS: u64 = 0x3ff0_0000_0000_0000;

} // verus!
