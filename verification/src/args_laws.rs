//! How the command lines of the server and of the client are read.
use crate::client;
use crate::client::{ClientArgsError, ClientArgsView, ClientFlag};
use crate::serve;
use crate::serve::{ArgsError, ArgsView, Flag};
use crate::utils::text;
use crate::utils::text_laws;
use vstd::prelude::*;

verus! {

/// The arguments behind those that have been read are read with what has been read.
proof fn lemma_read_on(args: Seq<Seq<char>>, more: Seq<Seq<char>>, i: int, read: ArgsView)
    requires
        0 <= i <= args.len(),
        serve::read_args(args, i, read) is Ok,
    ensures
        serve::read_args(args + more, i, read) == serve::read_args(
            args + more,
            args.len() as int,
            serve::read_args(args, i, read)->Ok_0,
        ),
    decreases args.len() - i,
{
    let all = args + more;
    if i < args.len() {
        assert(all[i] == args[i]);
        match serve::flag_of(args[i]) {
            Some(flag) => {
                assert(all[i + 1] == args[i + 1]);
                lemma_read_on(args, more, i + 2, read.with(flag, args[i + 1])->Ok_0);
            },
            None => {
                let next = ArgsView { model_path: Some(args[i]), ..read };
                lemma_read_on(args, more, i + 1, next);
            },
        }
    }
}

proof fn lemma_stop(args: Seq<Seq<char>>, more: Seq<Seq<char>>, i: int, read: ArgsView)
    requires
        0 <= i <= args.len(),
        serve::read_args(args, i, read) is Err,
        !(serve::read_args(args, i, read)->Err_0 is MissingValue),
    ensures
        serve::read_args(args + more, i, read) == serve::read_args(args, i, read),
    decreases args.len() - i,
{
    let all = args + more;
    if i < args.len() {
        assert(all[i] == args[i]);
        match serve::flag_of(args[i]) {
            Some(flag) => {
                if i + 1 < args.len() {
                    assert(all[i + 1] == args[i + 1]);
                    if read.with(flag, args[i + 1]) is Ok {
                        lemma_stop(args, more, i + 2, read.with(flag, args[i + 1])->Ok_0);
                    }
                }
            },
            None => {
                let next = ArgsView { model_path: Some(args[i]), ..read };
                lemma_stop(args, more, i + 1, next);
            },
        }
    }
}

proof fn lemma_server_flags()
    ensures
        serve::flag_of("--model"@) == Some(Flag::Model),
        serve::flag_of("--port"@) == Some(Flag::Port),
        serve::flag_of("--tensor-parallel-size"@) == Some(Flag::TensorParallelSize),
        serve::flag_of("--max-num-batched-tokens"@) == Some(Flag::MaxNumBatchedTokens),
{
    reveal_strlit("--model");
    reveal_strlit("--port");
    reveal_strlit("--tensor-parallel-size");
    reveal_strlit("--max-num-batched-tokens");
    assert("--model"@.len() == 7 && "--port"@.len() == 6);
    assert("--tensor-parallel-size"@.len() == 22 && "--max-num-batched-tokens"@.len() == 24);
}

/// What stands further on in the command line of the server holds: each flag sets what it names,
/// from the value behind it, and an argument that is no flag and no value is the model. Whatever is
/// not named stays as it was read before.
pub proof fn the_server_goes_by_what_is_said_last(
    args: Seq<Seq<char>>,
    read: ArgsView,
    model: Seq<char>,
    n: nat,
)
    requires
        serve::read_args(args, 0, serve::default_args()) == Ok::<ArgsView, ArgsError>(read),
        n <= usize::MAX,
    ensures
        ({
            let now = |more: Seq<Seq<char>>|
                serve::read_args(args + more, 0, serve::default_args());
            let number = text_laws::decimal(n);
            &&& args.len() == 0 ==> read.model_path is None && read.tensor_parallel_size == 1
                && read.port == 8000 && read.max_num_batched_tokens is None
            &&& model != "--model"@ && model != "--port"@ && model != "--tensor-parallel-size"@
                && model != "--max-num-batched-tokens"@ ==> (now(seq![model]) matches Ok(r)
                && r.model_path == Some(model) && r.tensor_parallel_size
                == read.tensor_parallel_size && r.port == read.port && r.max_num_batched_tokens
                == read.max_num_batched_tokens)
            &&& now(seq!["--model"@, model]) matches Ok(r) && r.model_path == Some(model)
                && r.tensor_parallel_size == read.tensor_parallel_size && r.port == read.port
                && r.max_num_batched_tokens == read.max_num_batched_tokens
            &&& now(seq!["--tensor-parallel-size"@, number]) matches Ok(r)
                && r.tensor_parallel_size == n && r.model_path == read.model_path && r.port
                == read.port && r.max_num_batched_tokens == read.max_num_batched_tokens
            &&& now(seq!["--max-num-batched-tokens"@, number]) matches Ok(r)
                && r.max_num_batched_tokens == Some(n as usize) && r.model_path == read.model_path
                && r.port == read.port && r.tensor_parallel_size == read.tensor_parallel_size
            &&& n <= u16::MAX ==> (now(seq!["--port"@, number]) matches Ok(r) && r.port == n
                && r.model_path == read.model_path && r.tensor_parallel_size
                == read.tensor_parallel_size && r.max_num_batched_tokens
                == read.max_num_batched_tokens)
            &&& n > u16::MAX ==> now(seq!["--port"@, number]) == Err::<ArgsView, ArgsError>(
                ArgsError::BadNumber(Flag::Port),
            )
        }),
{
    let start = serve::default_args();
    let number = text_laws::decimal(n);
    text_laws::numbers_are_read_back(n);
    lemma_server_flags();
    lemma_read_on(args, seq![model], 0, start);
    lemma_read_on(args, seq!["--model"@, model], 0, start);
    lemma_read_on(args, seq!["--tensor-parallel-size"@, number], 0, start);
    lemma_read_on(args, seq!["--max-num-batched-tokens"@, number], 0, start);
    lemma_read_on(args, seq!["--port"@, number], 0, start);
    lemma_last(args, seq![model], read);
    lemma_last(args, seq!["--model"@, model], read);
    lemma_last(args, seq!["--tensor-parallel-size"@, number], read);
    lemma_last(args, seq!["--max-num-batched-tokens"@, number], read);
    lemma_last(args, seq!["--port"@, number], read);
}

/// One argument that is no flag, or a flag and its value, at the end.
proof fn lemma_last(args: Seq<Seq<char>>, more: Seq<Seq<char>>, read: ArgsView)
    ensures
        more.len() == 1 && serve::flag_of(more[0]) is None ==> serve::read_args(
            args + more,
            args.len() as int,
            read,
        ) == Ok::<ArgsView, ArgsError>(ArgsView { model_path: Some(more[0]), ..read }),
        more.len() == 1 && serve::flag_of(more[0]) is Some ==> serve::read_args(
            args + more,
            args.len() as int,
            read,
        ) == Err::<ArgsView, ArgsError>(ArgsError::MissingValue(serve::flag_of(more[0])->0)),
        more.len() == 2 && serve::flag_of(more[0]) is Some ==> serve::read_args(
            args + more,
            args.len() as int,
            read,
        ) == read.with(serve::flag_of(more[0])->0, more[1]),
{
    let all = args + more;
    let n = args.len() as int;
    if more.len() == 1 {
        assert(all[n] == more[0]);
        let next = ArgsView { model_path: Some(more[0]), ..read };
        assert(serve::read_args(all, n + 1, next) == Ok::<ArgsView, ArgsError>(next));
    } else if more.len() == 2 {
        assert(all[n] == more[0]);
        assert(all[n + 1] == more[1]);
        if serve::flag_of(more[0]) is Some {
            match read.with(serve::flag_of(more[0])->0, more[1]) {
                Ok(next) => {
                    assert(serve::read_args(all, n + 2, next) == Ok::<ArgsView, ArgsError>(next));
                },
                Err(_) => {},
            }
        }
    }
}

/// The command line of the server is refused where a flag has no value behind it, or one that is no
/// number where a number is asked for; and what is refused stays so, whatever stands behind it.
pub proof fn the_server_says_what_is_wrong(
    args: Seq<Seq<char>>,
    read: ArgsView,
    value: Seq<char>,
    flag: Seq<char>,
    more: Seq<Seq<char>>,
)
    requires
        flag == "--port"@ || flag == "--tensor-parallel-size"@ || flag
            == "--max-num-batched-tokens"@,
        text::number_of(value) is None,
    ensures
        serve::read_args(args, 0, serve::default_args()) == Ok::<ArgsView, ArgsError>(read) ==> {
            &&& serve::read_args(args + seq![flag], 0, serve::default_args()) == Err::<
                ArgsView,
                ArgsError,
            >(ArgsError::MissingValue(serve::flag_of(flag)->0))
            &&& serve::read_args(args + seq!["--model"@], 0, serve::default_args()) == Err::<
                ArgsView,
                ArgsError,
            >(ArgsError::MissingValue(Flag::Model))
            &&& serve::read_args(args + seq![flag, value], 0, serve::default_args()) == Err::<
                ArgsView,
                ArgsError,
            >(ArgsError::BadNumber(serve::flag_of(flag)->0))
        },
        serve::flag_of("--port"@) == Some(Flag::Port),
        serve::flag_of("--tensor-parallel-size"@) == Some(Flag::TensorParallelSize),
        serve::flag_of("--max-num-batched-tokens"@) == Some(Flag::MaxNumBatchedTokens),
        serve::read_args(args, 0, serve::default_args()) matches Err(error) ==> !(
        error is MissingValue) ==> serve::read_args(args + more, 0, serve::default_args())
            == serve::read_args(args, 0, serve::default_args()),
{
    let start = serve::default_args();
    lemma_server_flags();
    match serve::read_args(args, 0, start) {
        Ok(_) => {
            lemma_read_on(args, seq![flag], 0, start);
            lemma_read_on(args, seq!["--model"@], 0, start);
            lemma_read_on(args, seq![flag, value], 0, start);
            lemma_last(args, seq![flag], read);
            lemma_last(args, seq!["--model"@], read);
            lemma_last(args, seq![flag, value], read);
        },
        Err(error) => {
            if !(error is MissingValue) {
                lemma_stop(args, more, 0, start);
            }
        },
    }
}

proof fn lemma_client_reads_on(
    args: Seq<Seq<char>>,
    more: Seq<Seq<char>>,
    i: int,
    read: ClientArgsView,
)
    requires
        0 <= i <= args.len(),
        client::read_args(args, i, read) is Ok,
    ensures
        client::read_args(args + more, i, read) == client::read_args(
            args + more,
            args.len() as int,
            client::read_args(args, i, read)->Ok_0,
        ),
    decreases args.len() - i,
{
    let all = args + more;
    if i < args.len() {
        assert(all[i] == args[i]);
        match client::flag_of(args[i]) {
            Some(flag) => {
                assert(all[i + 1] == args[i + 1]);
                lemma_client_reads_on(args, more, i + 2, read.with(flag, args[i + 1])->Ok_0);
            },
            None => {},
        }
    }
}

proof fn lemma_client_last(args: Seq<Seq<char>>, more: Seq<Seq<char>>, read: ClientArgsView)
    ensures
        more.len() == 1 && client::flag_of(more[0]) is Some ==> client::read_args(
            args + more,
            args.len() as int,
            read,
        ) == Err::<ClientArgsView, ClientArgsError>(
            ClientArgsError::MissingValue(client::flag_of(more[0])->0),
        ),
        more.len() == 1 && client::flag_of(more[0]) is None ==> client::read_args(
            args + more,
            args.len() as int,
            read,
        ) == Err::<ClientArgsView, ClientArgsError>(ClientArgsError::Unknown(args.len() as usize)),
        more.len() == 2 && client::flag_of(more[0]) is Some ==> client::read_args(
            args + more,
            args.len() as int,
            read,
        ) == read.with(client::flag_of(more[0])->0, more[1]),
{
    let all = args + more;
    let n = args.len() as int;
    if more.len() == 1 {
        assert(all[n] == more[0]);
    } else if more.len() == 2 {
        assert(all[n] == more[0]);
        assert(all[n + 1] == more[1]);
        if client::flag_of(more[0]) is Some {
            match client::ClientArgsView::with(read, client::flag_of(more[0])->0, more[1]) {
                Ok(next) => {
                    assert(client::read_args(all, n + 2, next) == Ok::<
                        ClientArgsView,
                        ClientArgsError,
                    >(next));
                },
                Err(_) => {},
            }
        }
    }
}

/// What stands further on in the command line of the client holds: each flag sets what it names,
/// from the value behind it, and whatever is not named stays as it was read before. A flag without
/// a value and what is no flag are refused.
pub proof fn the_client_goes_by_what_is_said_last(
    args: Seq<Seq<char>>,
    read: ClientArgsView,
    host: Seq<char>,
    n: nat,
)
    requires
        client::read_args(args, 0, client::default_args()) == Ok::<ClientArgsView, ClientArgsError>(
            read,
        ),
        n <= usize::MAX,
    ensures
        ({
            let now = |more: Seq<Seq<char>>|
                client::read_args(args + more, 0, client::default_args());
            let number = text_laws::decimal(n);
            &&& args.len() == 0 ==> read.host == "localhost"@ && read.port == 8000
                && read.max_tokens == 256
            &&& now(seq!["--host"@, host]) matches Ok(r) && r.host == host && r.port == read.port
                && r.max_tokens == read.max_tokens
            &&& n <= u16::MAX ==> (now(seq!["--port"@, number]) matches Ok(r) && r.port == n
                && r.host == read.host && r.max_tokens == read.max_tokens)
            &&& n > u16::MAX ==> now(seq!["--port"@, number]) == Err::<
                ClientArgsView,
                ClientArgsError,
            >(ClientArgsError::BadNumber(ClientFlag::Port))
            &&& n <= u32::MAX ==> (now(seq!["--max-tokens"@, number]) matches Ok(r) && r.max_tokens
                == n && r.host == read.host && r.port == read.port)
            &&& n > u32::MAX ==> now(seq!["--max-tokens"@, number]) == Err::<
                ClientArgsView,
                ClientArgsError,
            >(ClientArgsError::BadNumber(ClientFlag::MaxTokens))
            &&& now(seq!["--host"@]) == Err::<ClientArgsView, ClientArgsError>(
                ClientArgsError::MissingValue(ClientFlag::Host),
            )
            &&& now(seq!["--port"@]) == Err::<ClientArgsView, ClientArgsError>(
                ClientArgsError::MissingValue(ClientFlag::Port),
            )
            &&& now(seq!["--max-tokens"@]) == Err::<ClientArgsView, ClientArgsError>(
                ClientArgsError::MissingValue(ClientFlag::MaxTokens),
            )
            &&& host != "--host"@ && host != "--port"@ && host != "--max-tokens"@ ==> now(
                seq![host],
            ) == Err::<ClientArgsView, ClientArgsError>(
                ClientArgsError::Unknown(args.len() as usize),
            )
        }),
{
    let start = client::default_args();
    let number = text_laws::decimal(n);
    text_laws::numbers_are_read_back(n);
    reveal_strlit("--host");
    reveal_strlit("--port");
    reveal_strlit("--max-tokens");
    assert("--host"@[2] == 'h' && "--port"@[2] == 'p' && "--max-tokens"@[2] == 'm');
    lemma_client_reads_on(args, seq!["--host"@, host], 0, start);
    lemma_client_reads_on(args, seq!["--port"@, number], 0, start);
    lemma_client_reads_on(args, seq!["--max-tokens"@, number], 0, start);
    lemma_client_reads_on(args, seq!["--host"@], 0, start);
    lemma_client_reads_on(args, seq!["--port"@], 0, start);
    lemma_client_reads_on(args, seq!["--max-tokens"@], 0, start);
    lemma_client_reads_on(args, seq![host], 0, start);
    lemma_client_last(args, seq!["--host"@, host], read);
    lemma_client_last(args, seq!["--port"@, number], read);
    lemma_client_last(args, seq!["--max-tokens"@, number], read);
    lemma_client_last(args, seq!["--host"@], read);
    lemma_client_last(args, seq!["--port"@], read);
    lemma_client_last(args, seq!["--max-tokens"@], read);
    lemma_client_last(args, seq![host], read);
}

} // verus!
