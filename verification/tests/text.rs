use nanovllm::client::{self, ClientArgs, ClientArgsError, ClientFlag};
use nanovllm::config::{Config, EngineConfig};
use nanovllm::serve::{
    default_max_tokens, parse_args, Args, ArgsError, Flag, DEFAULT_TEMPERATURE_BITS,
};
use nanovllm::utils::dtype::{
    cache_type, dl_dtype, row_major_strides, torch_dtype_str, DLDataType, ElementType,
};
use nanovllm::utils::text::{
    chars_of, contains, has_digit_behind, have_at, is_at, parse_usize, replace, same_text, spell,
};

fn parse(args: &[&str]) -> Result<Args, ArgsError> {
    parse_args(&args.iter().map(|arg| arg.to_string()).collect())
}

fn error(args: &[&str]) -> Option<ArgsError> {
    parse(args).err()
}

#[test]
fn a_model_is_enough() {
    let args = parse(&["models/qwen"]).ok().unwrap();
    assert_eq!(args.model_path, "models/qwen");
    assert_eq!(args.tensor_parallel_size, 1);
    assert_eq!(args.port, 8000);
    assert_eq!(args.max_num_batched_tokens, None);
}

#[test]
fn flags_take_the_value_behind_them() {
    let args = parse(&[
        "--tensor-parallel-size",
        "2",
        "--port",
        "9001",
        "--max-num-batched-tokens",
        "4096",
        "--model",
        "m",
    ])
    .ok()
    .unwrap();
    assert_eq!(args.model_path, "m");
    assert_eq!(args.tensor_parallel_size, 2);
    assert_eq!(args.port, 9001);
    assert_eq!(args.max_num_batched_tokens, Some(4096));
}

#[test]
fn the_last_word_counts() {
    let args = parse(&["a", "--port", "1", "--model", "b", "--port", "2", "c"]).ok().unwrap();
    assert_eq!(args.model_path, "c");
    assert_eq!(args.port, 2);
    assert_eq!(parse(&["--unknown"]).ok().unwrap().model_path, "--unknown");
}

#[test]
fn what_is_wrong_with_a_command_line() {
    assert_eq!(error(&[]), Some(ArgsError::NoModel));
    assert_eq!(error(&["--port", "80"]), Some(ArgsError::NoModel));
    assert_eq!(error(&["m", "--port"]), Some(ArgsError::MissingValue(Flag::Port)));
    assert_eq!(error(&["--model"]), Some(ArgsError::MissingValue(Flag::Model)));
    assert_eq!(
        error(&["m", "--tensor-parallel-size"]),
        Some(ArgsError::MissingValue(Flag::TensorParallelSize))
    );
    assert_eq!(
        error(&["m", "--max-num-batched-tokens"]),
        Some(ArgsError::MissingValue(Flag::MaxNumBatchedTokens))
    );
    assert_eq!(error(&["m", "--port", "x"]), Some(ArgsError::BadNumber(Flag::Port)));
    assert_eq!(error(&["m", "--port", "65536"]), Some(ArgsError::BadNumber(Flag::Port)));
    assert_eq!(
        error(&["m", "--tensor-parallel-size", "-1"]),
        Some(ArgsError::BadNumber(Flag::TensorParallelSize))
    );
    assert_eq!(
        error(&["m", "--max-num-batched-tokens", "1.5"]),
        Some(ArgsError::BadNumber(Flag::MaxNumBatchedTokens))
    );
}

#[test]
fn what_a_request_leaves_out() {
    assert_eq!(default_max_tokens(), 64);
    assert_eq!(f64::from_bits(DEFAULT_TEMPERATURE_BITS), 1.0);
}

#[test]
fn texts_are_compared_char_by_char() {
    assert!(same_text("", ""));
    assert!(same_text("gr\u{fc}n", "gr\u{fc}n"));
    assert!(!same_text("gr\u{fc}n", "grun"));
    assert!(!same_text("a", "ab"));
}

#[test]
fn keys_are_looked_for_as_std_does() {
    for (text, key) in [
        ("abcabc", "abc"),
        ("abcabc", "bca"),
        ("abc", "abcd"),
        ("aaaa", "aa"),
        ("model.layers.0.self_attn.q_proj.weight", "q_proj"),
        ("gr\u{fc}n", "\u{fc}n"),
        ("", "a"),
    ] {
        assert_eq!(contains(text, key), text.contains(key));
        assert_eq!(replace(text, key, "--"), text.replace(key, "--"));
        assert_eq!(replace(text, key, ""), text.replace(key, ""));
        assert_eq!(is_at(text, key, 0), text.starts_with(key));
    }
    assert!(is_at("xabc", "abc", 1));
    assert!(!is_at("xab", "abc", 1));
}

#[test]
fn digits_are_looked_for_behind_a_key() {
    assert!(has_digit_behind("a1", "a"));
    assert!(has_digit_behind("abaa9", "aa"));
    assert!(has_digit_behind("7", ""));
    assert!(!has_digit_behind("1a", "a"));
    assert!(!has_digit_behind("ab1", "a"));
    assert!(!has_digit_behind("", ""));
}

#[test]
fn characters_spell_texts() {
    let chars = chars_of("añb");
    assert!(spell(&chars, "añb"));
    assert!(!spell(&chars, "añ"));
    assert!(!spell(&chars, "anb"));
    assert!(spell(&Vec::new(), ""));
    assert!(have_at(&chars, "ñ", 1));
    assert!(!have_at(&chars, "ñ", 2));
    assert!(have_at(&chars, "", 3));
    assert!(!have_at(&chars, "", 4));
}

#[test]
fn numbers_are_read_as_std_does() {
    let most = format!("{}", usize::MAX);
    let more = format!("{}0", usize::MAX);
    for text in [
        "0", "7", "007", "+5", "42", "-1", "", "+", "-", "1 ", " 1", "1a", "++1", "\u{0661}",
        most.as_str(), more.as_str(), "99999999999999999999", "18446744073709551616",
    ] {
        assert_eq!(parse_usize(text), text.parse::<usize>().ok());
    }
}

#[test]
fn numbers_as_dlpack_describes_them() {
    for (dtype, code, bits) in [
        (ElementType::BF16, 4, 16),
        (ElementType::F16, 2, 16),
        (ElementType::F32, 2, 32),
        (ElementType::F64, 2, 64),
        (ElementType::U8, 1, 8),
        (ElementType::U32, 1, 32),
        (ElementType::I64, 0, 64),
    ] {
        assert_eq!(dl_dtype(dtype), DLDataType { code, bits, lanes: 1 });
    }
}

#[test]
fn numbers_as_torch_calls_them() {
    for (dtype, name) in [
        (ElementType::U8, "uint8"),
        (ElementType::U32, "int32"),
        (ElementType::I64, "int64"),
        (ElementType::BF16, "bfloat16"),
        (ElementType::F16, "float16"),
        (ElementType::F32, "float32"),
        (ElementType::F64, "float64"),
    ] {
        assert_eq!(torch_dtype_str(dtype), name);
    }
}

#[test]
fn strides_of_a_compact_tensor() {
    assert_eq!(row_major_strides(&[2, 3, 4]), vec![12, 4, 1]);
    assert_eq!(row_major_strides(&[7]), vec![1]);
    assert!(row_major_strides(&[]).is_empty());
    assert_eq!(row_major_strides(&[5, 0, 4]), vec![0, 4, 1]);
}

fn parse_client(args: &[&str]) -> Result<ClientArgs, ClientArgsError> {
    client::parse_args(&args.iter().map(|arg| arg.to_string()).collect())
}

#[test]
fn the_client_needs_no_arguments() {
    let args = parse_client(&[]).ok().unwrap();
    assert_eq!((args.host.as_str(), args.port, args.max_tokens), ("localhost", 8000, 256));
}

#[test]
fn the_client_takes_the_values_behind_its_flags() {
    let args = ["--max-tokens", "4294967295", "--host", "h", "--port", "1", "--host", "--port"];
    let args = parse_client(&args).ok().unwrap();
    assert_eq!((args.host.as_str(), args.port, args.max_tokens), ("--port", 1, u32::MAX));
}

#[test]
fn what_is_wrong_with_the_command_line_of_a_client() {
    let error = |args: &[&str]| parse_client(args).err();
    assert_eq!(error(&["--host", "h", "m"]), Some(ClientArgsError::Unknown(2)));
    assert_eq!(error(&["--host"]), Some(ClientArgsError::MissingValue(ClientFlag::Host)));
    assert_eq!(
        error(&["--max-tokens"]),
        Some(ClientArgsError::MissingValue(ClientFlag::MaxTokens))
    );
    assert_eq!(
        error(&["--port", "65536"]),
        Some(ClientArgsError::BadNumber(ClientFlag::Port))
    );
    assert_eq!(
        error(&["--max-tokens", "4294967296"]),
        Some(ClientArgsError::BadNumber(ClientFlag::MaxTokens))
    );
    assert_eq!(
        error(&["--max-tokens", "-1"]),
        Some(ClientArgsError::BadNumber(ClientFlag::MaxTokens))
    );
}

#[test]
fn the_limits_where_nobody_names_them() {
    let limits = EngineConfig::default();
    assert_eq!(limits.model_path, "");
    assert_eq!(limits.tensor_parallel_size, 1);
    assert_eq!(limits.kvcache_block_size, 256);
    assert_eq!(limits.max_num_batched_tokens, 16384);
    assert_eq!(f64::from_bits(limits.gpu_memory_utilization), 0.9);
}

#[test]
fn the_longest_length_where_nobody_names_it() {
    let mut config = Config::qwen3_0_6b();
    config.max_model_len = 0;
    config.fill_max_model_len();
    assert_eq!(config.max_model_len, 40960);
    config.max_model_len = 7;
    config.fill_max_model_len();
    assert_eq!(config.max_model_len, 7);
}

#[test]
fn the_type_that_is_cached() {
    assert_eq!(cache_type("float16"), ElementType::F16);
    assert_eq!(cache_type("float32"), ElementType::F32);
    assert_eq!(cache_type("float64"), ElementType::F64);
    assert_eq!(cache_type("bfloat16"), ElementType::BF16);
    assert_eq!(cache_type("other"), ElementType::BF16);
}
