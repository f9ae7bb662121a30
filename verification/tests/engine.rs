use nanovllm::config::{Config, EngineConfig};
use nanovllm::engine::llm_engine::{note_outputs, LLMEngine, RequestError};
use nanovllm::engine::model_runner::ModelRunner;
use nanovllm::engine::outputs::Outputs;
use nanovllm::engine::tokenizer::check;
use nanovllm::sampling_params::SamplingParams;
use tokenizers::models::unigram::Unigram;
use tokenizers::Tokenizer;

const EOS: u32 = 0;

const TEMPLATE: &str = r#"{
    "type": "TemplateProcessing",
    "single": [{"SpecialToken": {"id": "<s>", "type_id": 0}},
        {"Sequence": {"id": "A", "type_id": 0}}],
    "pair": [{"Sequence": {"id": "A", "type_id": 0}}, {"Sequence": {"id": "B", "type_id": 1}}],
    "special_tokens": {"<s>": {"id": "<s>", "ids": [9], "tokens": ["<s>"]}}
}"#;

/// A tokenizer of words, with these parts.
fn tokenizer_with(
    unknown: &str,
    truncation: &str,
    padding: &str,
    post_processor: &str,
    decoder: &str,
) -> Tokenizer {
    let json = format!(
        r#"{{
            "version": "1.0", "truncation": {truncation}, "padding": {padding},
            "added_tokens": [{{"id": 9, "content": "<s>", "single_word": false, "lstrip": false,
                "rstrip": false, "normalized": false, "special": true}}],
            "normalizer": null,
            "pre_tokenizer": {{"type": "Whitespace"}},
            "post_processor": {post_processor},
            "decoder": {decoder},
            "model": {{"type": "WordLevel", "unk_token": "{unknown}",
                "vocab": {{"what": 1, "is": 2, "the": 3, "capital": 4, "of": 5, "france": 6,
                    "none": 7, "<s>": 9}}}}
        }}"#
    );
    Tokenizer::from_bytes(json.as_bytes()).unwrap()
}

/// A tokenizer of words. Encoding puts `<s>`, which is special, in front.
fn tokenizer(unknown: &str) -> Tokenizer {
    tokenizer_with(unknown, "null", "null", TEMPLATE, "null")
}

fn engine_config() -> EngineConfig {
    EngineConfig {
        model_path: String::new(),
        tensor_parallel_size: 1,
        kvcache_block_size: 4,
        chunked_prefill: false,
        max_num_seqs: 4,
        max_num_batched_tokens: 64,
        num_kvcache_blocks: 16,
        enforce_eager: true,
        gpu_memory_utilization: 0.9f64.to_bits(),
    }
}

fn config(max_model_len: usize) -> Config {
    let mut config = Config::qwen3_0_6b();
    config.max_model_len = max_model_len;
    config.eos_token_id = EOS;
    config
}

fn engine(max_model_len: usize) -> LLMEngine {
    LLMEngine::new(&config(max_model_len), &engine_config(), tokenizer("none"))
}

fn params(max_tokens: i32) -> SamplingParams {
    SamplingParams::new(1.0f64.to_bits(), max_tokens, false)
}

#[test]
fn an_engine_starts_without_requests() {
    let engine = engine(32);
    assert!(engine.is_finished());
    assert_eq!(engine.block_size, 4);
    assert_eq!(engine.scheduler.max_model_len, 32);
}

#[test]
fn requests_get_ids_in_order() {
    let mut engine = engine(32);
    assert_eq!(engine.add_request(vec![1, 2, 3], params(4)), 0);
    assert_eq!(engine.try_add_request(vec![4], params(4)), Ok(1));
    assert_eq!(engine.add_request_text("the capital", params(4)), Ok(2));
    assert!(!engine.is_finished());
    assert_eq!(engine.scheduler.waiting.len(), 3);
    assert_eq!(engine.scheduler.waiting[0].token_ids, vec![1, 2, 3]);
    assert_eq!(engine.scheduler.waiting[0].block_size, 4);
}

#[test]
fn text_is_encoded_with_the_special_tokens() {
    let mut engine = engine(32);
    assert_eq!(engine.add_request_text("what is the capital of france", params(4)), Ok(0));
    assert_eq!(engine.scheduler.waiting[0].token_ids, vec![9, 1, 2, 3, 4, 5, 6]);
    assert_eq!(engine.add_request_text("of berlin", params(4)), Ok(1));
    assert_eq!(engine.scheduler.waiting[1].token_ids, vec![9, 5, 7]);
}

#[test]
fn prompts_are_taken_in_order() {
    let mut engine = engine(6);
    engine.add_request(vec![1], params(4));
    let prompts: Vec<String> =
        ["what is", "the", "of"].iter().map(|text| text.to_string()).collect();
    assert_eq!(engine.add_requests(&prompts, &vec![params(1), params(2), params(3)]), Ok(()));
    let waiting: Vec<(usize, Vec<u32>, i32)> = engine
        .scheduler
        .waiting
        .iter()
        .map(|seq| (seq.seq_id, seq.token_ids.clone(), seq.max_tokens))
        .collect();
    assert_eq!(
        waiting,
        vec![
            (0, vec![1], 4),
            (1, vec![9, 1, 2], 1),
            (2, vec![9, 3], 2),
            (3, vec![9, 5], 3),
        ]
    );

    let prompts: Vec<String> =
        ["is", "what is the capital of france", "of"].iter().map(|text| text.to_string()).collect();
    let sampling = vec![params(1), params(2), params(3)];
    assert_eq!(engine.add_requests(&prompts, &sampling), Err(RequestError::TooLong));
    assert_eq!(engine.scheduler.waiting.len(), 5);
    assert_eq!(engine.scheduler.waiting[4].token_ids, vec![9, 2]);
}

#[test]
fn requests_that_cannot_be_served_are_refused() {
    let mut engine = engine(4);
    assert_eq!(engine.refusal(3), None);
    assert_eq!(engine.refusal(4), Some(RequestError::TooLong));
    assert_eq!(engine.try_add_request(vec![], params(4)), Err(RequestError::Empty));
    assert_eq!(engine.try_add_request(vec![1, 2, 3, 4], params(4)), Err(RequestError::TooLong));
    assert_eq!(engine.add_request_text("what is the", params(4)), Err(RequestError::TooLong));
    engine.counter.next = usize::MAX;
    assert_eq!(engine.try_add_request(vec![1], params(4)), Err(RequestError::OutOfIds));
    assert!(engine.is_finished());
}

#[test]
fn text_without_tokens_is_refused() {
    let mut engine = LLMEngine::new(&config(8), &engine_config(), tokenizer("missing"));
    assert_eq!(engine.add_request_text("berlin", params(4)), Err(RequestError::Tokenizer));
    assert!(engine.is_finished());
}

#[test]
fn tokens_are_decoded_without_the_special_ones() {
    let engine = engine(32);
    assert_eq!(engine.decode(&[9, 3, 4, 5, 6]), Some("the capital of france".to_string()));
    assert_eq!(engine.decode(&[]), Some(String::new()));
}

#[test]
fn a_step_is_planned_and_finished() {
    let mut engine = engine(32);
    let runner = ModelRunner::new(config(32), engine_config(), 0);
    engine.add_request(vec![1, 2, 3, 4, 5], params(1));
    engine.add_request(vec![6, 7], params(2));

    assert!(engine.scheduler.can_step());
    let step = engine.plan_step(&runner).unwrap();
    assert_eq!(step.input.input_ids, vec![1, 2, 3, 4, 5, 6, 7]);
    assert_eq!(step.input.context.slot_mapping, Some(vec![0, 1, 2, 3, 4, 8, 9]));
    assert_eq!(LLMEngine::num_tokens_to_draw(&step), 2);
    let (outputs, num_tokens) = engine.finish_step(step, &[50, 60]);
    assert_eq!(outputs, vec![(0, vec![50])]);
    assert_eq!(num_tokens, 6);
    assert!(!engine.is_finished());

    assert!(engine.scheduler.can_step());
    let step = engine.plan_step(&runner).unwrap();
    assert_eq!(step.input.input_ids, vec![60]);
    assert_eq!(step.input.positions, vec![2]);
    assert_eq!(LLMEngine::num_tokens_to_draw(&step), 1);
    let (outputs, num_tokens) = engine.finish_step(step, &[61]);
    assert_eq!(outputs, vec![(1, vec![60, 61])]);
    assert_eq!(num_tokens, 4);
    assert!(engine.is_finished());
}

#[test]
fn a_step_can_be_run_in_two_halves() {
    let mut engine = engine(32);
    engine.add_request(vec![1, 2, 3], params(8));
    let mut seqs = engine.begin_step().unwrap();
    assert_eq!(seqs.len(), 1);
    let (outputs, num_tokens) = engine.end_step(&mut seqs, &[EOS], &[0]);
    assert_eq!(outputs, vec![(0, vec![EOS])]);
    assert_eq!(num_tokens, 4);
    assert!(seqs[0].is_finished());
}

#[test]
fn outputs_are_kept_in_the_order_of_their_ids() {
    let mut outputs = Outputs::new();
    outputs.insert(5, vec![50]);
    outputs.insert(1, vec![10]);
    outputs.insert(3, vec![30]);
    outputs.insert(5, vec![51, 52]);
    assert_eq!(outputs.entries, vec![(1, vec![10]), (3, vec![30]), (5, vec![51, 52])]);
}

#[test]
fn what_was_generated_comes_back_as_text() {
    let mut engine = engine(32);
    let runner = ModelRunner::new(config(32), engine_config(), 0);
    for (prompt, n) in [("what is", 3), ("the capital", 1), ("of", 2)] {
        assert!(engine.add_request_text(prompt, params(n)).is_ok());
    }
    let mut outputs = Outputs::new();
    let mut word = 3;
    while !engine.is_finished() {
        assert!(engine.scheduler.can_step());
        let step = engine.plan_step(&runner).unwrap();
        let n = LLMEngine::num_tokens_to_draw(&step);
        let (ended, _) = engine.finish_step(step, &vec![word; n]);
        note_outputs(&mut outputs, ended);
        word += 1;
    }
    let results = engine.decode_outputs(outputs).unwrap();
    let texts: Vec<&str> = results.iter().map(|r| r.text.as_str()).collect();
    assert_eq!(texts, vec!["the capital of", "the", "the capital"]);
    let tokens: Vec<Vec<u32>> = results.iter().map(|r| r.token_ids.clone()).collect();
    assert_eq!(tokens, vec![vec![3, 4, 5], vec![3], vec![3, 4]]);
}

#[test]
fn a_request_can_join_between_two_steps() {
    let mut engine = engine(32);
    let runner = ModelRunner::new(config(32), engine_config(), 0);
    engine.add_request(vec![1, 2], params(4));
    let step = engine.plan_step(&runner).unwrap();
    engine.finish_step(step, &[3]);
    engine.add_request(vec![4, 5, 6], params(4));
    let step = engine.plan_step(&runner).unwrap();
    assert_eq!(step.input.input_ids, vec![3, 4, 5, 6]);
    assert_eq!(step.input.positions, vec![2, 0, 1, 2]);
    assert_eq!(step.input.context.cu_seqlens_q, Some(vec![0, 1, 4]));
    assert_eq!(step.input.context.cu_seqlens_k, Some(vec![0, 3, 6]));
    assert_eq!(LLMEngine::num_tokens_to_draw(&step), 2);
}

#[test]
fn an_engine_without_room_plans_no_step() {
    let mut limits = engine_config();
    limits.num_kvcache_blocks = 1;
    let runner = ModelRunner::new(config(32), limits.clone(), 0);
    let mut engine = LLMEngine::checked_new(&config(32), &limits, tokenizer("none")).unwrap();
    engine.add_request(vec![1, 2, 3, 4], params(8));
    let step = engine.plan_step(&runner).unwrap();
    engine.finish_step(step, &[5]);
    assert!(engine.plan_step(&runner).is_none());
    assert_eq!(engine.scheduler.waiting.len(), 1);
    assert!(engine.begin_step().is_none());
}

#[test]
fn completions_are_no_longer_than_asked() {
    let mut engine = engine(32);
    let runner = ModelRunner::new(config(32), engine_config(), 0);
    for n in 1..5 {
        engine.add_request(vec![n, n + 1, n + 2], params(n as i32));
    }
    let mut outputs = Outputs::new();
    while !engine.is_finished() {
        let step = engine.plan_step(&runner).unwrap();
        let n = LLMEngine::num_tokens_to_draw(&step);
        let (ended, _) = engine.finish_step(step, &vec![6; n]);
        note_outputs(&mut outputs, ended);
    }
    let lengths: Vec<usize> = outputs.entries.iter().map(|entry| entry.1.len()).collect();
    assert_eq!(lengths, vec![1, 2, 3, 4]);
}

fn is_usable(truncation: &str, padding: &str, post_processor: &str, decoder: &str) -> bool {
    let tokenizer = tokenizer_with("none", truncation, padding, post_processor, decoder);
    let usable = check(&tokenizer);
    let engine = LLMEngine::checked_new(&config(32), &engine_config(), tokenizer);
    assert_eq!(engine.is_some(), usable);
    if let Some(mut engine) = engine {
        assert!(engine.add_request_text("what is the capital", params(4)).is_ok());
        assert!(engine.decode(&[]).is_some());
        assert!(engine.decode(&[9, 3, 77, 4]).is_some());
    }
    usable
}

fn truncation(max_length: usize, stride: usize) -> String {
    format!(
        r#"{{"direction": "Right", "max_length": {max_length}, "strategy": "LongestFirst",
            "stride": {stride}}}"#
    )
}

fn padding(fixed: usize, multiple: usize) -> String {
    format!(
        r#"{{"strategy": {{"Fixed": {fixed}}}, "direction": "Right",
            "pad_to_multiple_of": {multiple}, "pad_id": 7, "pad_type_id": 0,
            "pad_token": "none"}}"#
    )
}

#[test]
fn plain_tokenizers_can_be_used() {
    assert!(is_usable("null", "null", "null", "null"));
    assert!(is_usable("null", "null", TEMPLATE, "null"));
    let byte_level = r#"{"type": "ByteLevel", "add_prefix_space": false, "trim_offsets": false,
        "use_regex": false}"#;
    assert!(is_usable("null", "null", byte_level, byte_level));
}

#[test]
fn texts_can_be_cut_to_what_is_left() {
    assert!(is_usable(&truncation(3, 0), "null", TEMPLATE, "null"));
    assert!(is_usable(&truncation(3, 1), "null", TEMPLATE, "null"));
    assert!(is_usable(&truncation(1, 0), "null", TEMPLATE, "null"));
    assert!(!is_usable(&truncation(0, 0), "null", TEMPLATE, "null"));
    assert!(!is_usable(&truncation(3, 2), "null", TEMPLATE, "null"));
    assert!(is_usable(&truncation(3, 2), "null", "null", "null"));
}

#[test]
fn texts_can_be_padded_within_reason() {
    assert!(is_usable("null", &padding(8, 4), TEMPLATE, "null"));
    assert!(!is_usable("null", &padding(usize::MAX, 4), TEMPLATE, "null"));
    assert!(!is_usable("null", &padding(8, usize::MAX), TEMPLATE, "null"));
}

#[test]
fn a_template_has_the_tokens_that_it_names() {
    let missing = TEMPLATE.replace(r#""special_tokens": {"<s>""#, r#""special_tokens": {"<t>""#);
    assert!(!is_usable("null", "null", &missing, "null"));
    let second = TEMPLATE.replacen(r#""id": "A""#, r#""id": "B""#, 1);
    assert!(!is_usable("null", "null", &second, "null"));
}

#[test]
fn a_template_can_stand_among_other_processors() {
    let chain = |parts: &[&str]| {
        let parts = parts.join(",");
        is_usable(
            "null",
            "null",
            &format!(r#"{{"type": "Sequence", "processors": [{parts}]}}"#),
            "null",
        )
    };
    let byte_level = r#"{"type": "ByteLevel", "add_prefix_space": false, "trim_offsets": true,
        "use_regex": true}"#;
    let missing = TEMPLATE.replace(r#""special_tokens": {"<s>""#, r#""special_tokens": {"<t>""#);
    let second = TEMPLATE.replacen(r#""id": "A""#, r#""id": "B""#, 1);
    assert!(chain(&[]));
    assert!(chain(&[byte_level]));
    assert!(chain(&[TEMPLATE]));
    assert!(chain(&[byte_level, TEMPLATE]));
    assert!(chain(&[TEMPLATE, byte_level]));
    assert!(!chain(&[TEMPLATE, TEMPLATE]));
    assert!(!chain(&[byte_level, &missing]));
    assert!(!chain(&[byte_level, &second]));
    let nested = format!(r#"{{"type": "Sequence", "processors": [{TEMPLATE}]}}"#);
    assert!(!chain(&[&nested]));
    let inner = format!(r#"{{"type": "Sequence", "processors": [{byte_level}]}}"#);
    assert!(chain(&[&inner, TEMPLATE]));
}

#[test]
fn a_template_in_a_chain_adds_its_tokens() {
    let byte_level = r#"{"type": "ByteLevel", "add_prefix_space": false, "trim_offsets": true,
        "use_regex": true}"#;
    let chain = format!(r#"{{"type": "Sequence", "processors": [{byte_level}, {TEMPLATE}]}}"#);
    let tokenizer = tokenizer_with("none", "null", "null", &chain, "null");
    let mut engine = LLMEngine::checked_new(&config(32), &engine_config(), tokenizer).unwrap();
    engine.add_request_text("what is the capital", params(4)).unwrap();
    assert_eq!(engine.scheduler.waiting[0].token_ids, vec![9, 1, 2, 3, 4]);
}

#[test]
fn patterns_match_from_their_start_and_look_back_at_no_group() {
    let splits = |pattern: &str| {
        let tokenizer = altered(
            r#"{"type":"Whitespace"}"#,
            &format!(
                r#"{{"type": "Split", "pattern": {{"Regex": {}}}, "behavior": "Isolated",
                    "invert": false}}"#,
                serde_json::to_string(pattern).unwrap()
            ),
        );
        let usable = check(&tokenizer);
        if usable {
            assert!(tokenizer.encode("what is the capital, of france", true).is_ok());
            assert!(tokenizer.encode("xabxb", true).is_ok());
        }
        usable
    };
    assert!(splits(
        "(?i:'s|'t|'re|'ve|'m|'ll|'d)|[^\\r\\n\\p{L}\\p{N}]?\\p{L}+|\\p{N}| ?[^\\s\\p{L}\\p{N}]+[\\r\\n]*|\\s*[\\r\\n]+|\\s+(?!\\S)|\\s+"
    ));
    assert!(splits("(?<=a)b|(?P<name>x)y"));
    assert!(!splits("(?<=\\K.)."));
    assert!(!splits("(?:x(a|b\\1))+"));
    assert!(!splits("(?<g>a)\\k<g>"));
    assert!(!splits("(?P<g>a)(?P=g)"));
    let replaces = |pattern: &str| {
        is_usable(
            "null",
            "null",
            "null",
            &format!(r#"{{"type": "Replace", "pattern": {pattern}, "content": " "}}"#),
        )
    };
    assert!(replaces(r#"{"String": "_"}"#));
    assert!(replaces(r#"{"Regex": "\\s+|▁"}"#));
    assert!(!replaces(r#"{"Regex": "(?<=\\K.)."}"#));
    assert!(!replaces(r#"{"Regex": "(?:x(a|b\\1))+"}"#));
}

#[test]
fn a_decoder_does_not_strip_the_ends_of_tokens() {
    let strip = |start: usize, stop: usize| {
        format!(r#"{{"type": "Strip", "content": "t", "start": {start}, "stop": {stop}}}"#)
    };
    assert!(is_usable("null", "null", "null", &strip(1, 0)));
    assert!(!is_usable("null", "null", "null", &strip(0, 1)));
    assert!(!is_usable("null", "null", "null", &strip(1, 10)));
    let chain = format!(
        r#"{{"type": "Sequence", "decoders": [{{"type": "Fuse"}}, {}]}}"#,
        strip(1, 1)
    );
    assert!(!is_usable("null", "null", "null", &chain));
    let suffix = r#"{"type": "BPEDecoder", "suffix": "</w>"}"#;
    assert!(!is_usable("null", "null", "null", suffix));
}

/// The tokenizer of words with some of its text replaced.
fn altered(from: &str, to: &str) -> Tokenizer {
    let json = tokenizer("none").to_string(false).unwrap();
    assert!(json.contains(from));
    Tokenizer::from_bytes(json.replace(from, to).as_bytes()).unwrap()
}

#[test]
fn a_normalizer_replaces_text_of_some_length() {
    let with = |normalizer: &str| {
        let tokenizer = altered(r#""normalizer":null"#, &format!(r#""normalizer":{normalizer}"#));
        let usable = check(&tokenizer);
        if usable {
            assert!(tokenizer.encode("what is the ^capital", true).is_ok());
            assert!(tokenizer.encode("", true).is_ok());
        }
        usable
    };
    assert!(with(r#"{"type": "NFC"}"#));
    assert!(with(r#"{"type": "Replace", "pattern": {"String": " "}, "content": "_"}"#));
    assert!(!with(r#"{"type": "Replace", "pattern": {"String": ""}, "content": "_"}"#));
    assert!(!with(r#"{"type": "Replace", "pattern": {"Regex": "^"}, "content": "_"}"#));
    assert!(with(r#"{"type": "Prepend", "prepend": "_"}"#));
    assert!(!with(r#"{"type": "Prepend", "prepend": ""}"#));
    let chain = r#"{"type": "Sequence", "normalizers": [{"type": "Lowercase"},
        {"type": "Prepend", "prepend": "_"},
        {"type": "Replace", "pattern": {"String": "\""}, "content": ""}]}"#;
    assert!(with(chain));
    assert!(!with(&chain.replace(r#"{"String": "\""}"#, r#"{"Regex": "a*"}"#)));
}

#[test]
fn pieces_of_a_text_have_some_length() {
    let with = |splitter: &str| check(&altered(r#"{"type":"Whitespace"}"#, splitter));
    assert!(with(r#"{"type": "FixedLength", "length": 5}"#));
    assert!(!with(r#"{"type": "FixedLength", "length": 0}"#));
    assert!(!with(r#"{"type": "Sequence", "pretokenizers": [{"type": "FixedLength", "length": 0}]}"#));
    let qwen = r#"{"type": "Sequence", "pretokenizers": [
        {"type": "Split", "pattern": {"Regex": "\\s+(?!\\S)|\\s+"}, "behavior": "Isolated",
            "invert": false},
        {"type": "ByteLevel", "add_prefix_space": false, "trim_offsets": false,
            "use_regex": false}]}"#;
    assert!(with(qwen));
}

#[test]
fn added_tokens_take_in_spaces_on_one_side() {
    let with = |left: bool, right: bool| {
        check(&altered(
            r#""lstrip":false,"rstrip":false"#,
            &format!(r#""lstrip":{left},"rstrip":{right}"#),
        ))
    };
    assert!(with(false, false));
    assert!(with(true, false));
    assert!(with(false, true));
    assert!(!with(true, true));
}

#[test]
fn a_model_that_draws_its_pieces_is_not_used() {
    let mut model = Unigram::default();
    assert!(check(&Tokenizer::new(model.clone())));
    model.alpha = Some(0.1);
    assert!(!check(&Tokenizer::new(model)));
}
