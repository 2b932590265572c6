use gguf_infer::chat_template::{wrap_prompt, ChatTemplate};
use gguf_infer::cli::{parse_args, read_line, Args, FloatValue, Input, Outcome};
use gguf_infer::gguf::{GgufDataType, Metadata, MetadataValue};
use gguf_infer::gpu_backend::{
    dtype_key, plan_dispatch, runs_on_gpu, shader_src, vector_bytes, WORKGROUP_LIMIT,
};
use gguf_infer::kv_cache::KVCache;

fn template(text: &str) -> ChatTemplate {
    let mut m = Metadata::new();
    m.insert(
        String::from("tokenizer.chat_template"),
        MetadataValue::String(String::from(text)),
    );
    ChatTemplate::from_metadata(&m).unwrap()
}

#[test]
fn without_a_template_there_is_none() {
    assert!(ChatTemplate::from_metadata(&Metadata::new()).is_none());
    let mut m = Metadata::new();
    m.insert(String::from("tokenizer.chat_template"), MetadataValue::UInt8(1));
    assert!(ChatTemplate::from_metadata(&m).is_none());
}

#[test]
fn chatml_wraps_a_prompt() {
    let t = template("{{ '<|im_start|>' }}");
    assert_eq!(
        t.apply("Hello", None),
        "<|im_start|>user\nHello<|im_end|>\n<|im_start|>assistant\n"
    );
    assert_eq!(
        t.apply("Hello", Some("Be brief.")),
        "<|im_start|>system\nBe brief.<|im_end|>\n<|im_start|>user\nHello<|im_end|>\n<|im_start|>assistant\n"
    );
}

#[test]
fn llama3_wraps_a_prompt() {
    let t = template("x<|eot_id|>y");
    assert_eq!(
        t.apply("Hi", None),
        "<|begin_of_text|><|start_header_id|>user<|end_header_id|>\n\nHi<|eot_id|><|start_header_id|>assistant<|end_header_id|>\n\n"
    );
    assert_eq!(
        t.apply("Hi", Some("S")),
        "<|begin_of_text|><|start_header_id|>system<|end_header_id|>\n\nS<|eot_id|><|start_header_id|>user<|end_header_id|>\n\nHi<|eot_id|><|start_header_id|>assistant<|end_header_id|>\n\n"
    );
}

#[test]
fn llama2_wraps_a_prompt() {
    let t = template("[INST] {{ m }} [/INST]");
    assert_eq!(t.apply("Hi", None), "[INST] Hi [/INST]");
    assert_eq!(t.apply("Hi", Some("S")), "[INST] <<SYS>>\nS\n<</SYS>>\n\nHi [/INST]");
}

#[test]
fn an_unknown_template_is_taken_for_chatml() {
    assert!(template("something else").apply("x", None).starts_with("<|im_start|>user\nx"));
    assert!(template("[INST] <|im_end|>").apply("x", None).starts_with("<|im_start|>user\nx"));
}

#[test]
fn prompts_are_kept_in_every_format() {
    for text in ["<|im_start|>", "<|start_header_id|>", "[/INST]", ""] {
        let out = template(text).apply("the prompt", Some("the system"));
        assert!(out.contains("the prompt"));
        assert!(out.contains("the system"));
    }
}

#[test]
fn messages_are_added_in_order() {
    let mut t = template("x");
    t.add_message("user", "one");
    t.add_message("assistant", "two");
    assert_eq!(t.messages.len(), 2);
    assert_eq!(t.messages[0].role, "user");
    assert_eq!(t.messages[1].content, "two");
    assert_eq!(t.template_str, "x");
}

fn cache() -> KVCache<i32> {
    KVCache::new(4, 3, 0)
}

#[test]
fn a_new_cache_is_empty() {
    let c = cache();
    assert!(c.is_empty());
    assert_eq!((c.len(), c.kv_dim(), c.max_len()), (0, 4, 3));
    assert!(c.all_keys().is_empty());
    assert!(c.all_values().is_empty());
}

#[test]
fn appended_rows_are_read_back() {
    let mut c = cache();
    c.append_k(&[1, 2, 3, 4]);
    c.append_v(&[5, 6, 7, 8]);
    assert_eq!(c.len(), 1);
    c.append_k(&[9, 10, 11, 12]);
    c.append_v(&[13, 14, 15, 16]);
    assert_eq!(c.len(), 2);
    assert_eq!(c.get_k_slice(0, 0, 4), &[1, 2, 3, 4]);
    assert_eq!(c.get_k_slice(1, 2, 2), &[11, 12]);
    assert_eq!(c.get_v_slice(1, 1, 2), &[14, 15]);
    assert_eq!(c.all_keys(), &[1, 2, 3, 4, 9, 10, 11, 12]);
    assert_eq!(c.all_values(), &[5, 6, 7, 8, 13, 14, 15, 16]);
}

#[test]
fn clearing_empties_a_cache() {
    let mut c = cache();
    c.append_k(&[1, 2, 3, 4]);
    c.append_v(&[5, 6, 7, 8]);
    c.clear();
    assert!(c.is_empty());
    assert!(c.all_keys().is_empty());
    c.append_k(&[7, 7, 7, 7]);
    c.append_v(&[8, 8, 8, 8]);
    assert_eq!(c.all_keys(), &[7, 7, 7, 7]);
}

fn floats(args: &[String]) -> Vec<FloatValue> {
    args.iter()
        .map(|a| match a.parse::<f32>() {
            Ok(x) => FloatValue::Bits(x.to_bits()),
            Err(e) => FloatValue::Error(format!("{}", e)),
        })
        .collect()
}

fn parse(args: &[&str]) -> Outcome {
    let owned: Vec<String> = args.iter().map(|a| String::from(*a)).collect();
    let f = floats(&owned);
    parse_args(&owned, &f)
}

fn run(args: &[&str]) -> Args {
    match parse(args) {
        Outcome::Run(a) => a,
        _ => panic!("no run"),
    }
}

fn fail(args: &[&str]) -> String {
    match parse(args) {
        Outcome::Fail(e) => e,
        _ => panic!("no error"),
    }
}

#[test]
fn options_have_defaults() {
    let a = run(&["--model", "m.gguf"]);
    assert_eq!(a.model_path, Some(String::from("m.gguf")));
    assert_eq!(a.prompt, None);
    assert_eq!(a.system, None);
    assert_eq!(a.max_tokens, 512);
    assert_eq!(a.sampler_config.temperature, 0.8f32.to_bits());
    assert_eq!(a.sampler_config.top_k, 40);
    assert_eq!(a.sampler_config.top_p, 0.95f32.to_bits());
    assert_eq!(a.sampler_config.repetition_penalty, 1.1f32.to_bits());
    assert_eq!(a.sampler_config.repetition_window, 64);
    assert_eq!(a.sampler_config.seed, 12345);
    assert_eq!(a.max_seq_len, None);
    assert!(!a.interactive);
    assert_eq!(a.use_gpu, None);
}

#[test]
fn every_option_is_taken() {
    let a = run(&[
        "-m", "m", "-p", "hi", "--system", "s", "-n", "7", "-t", "0", "-k", "3", "--top-p", "0.5",
        "-s", "9", "--max-seq-len", "128", "-i", "--cpu",
    ]);
    assert_eq!(a.prompt, Some(String::from("hi")));
    assert_eq!(a.system, Some(String::from("s")));
    assert_eq!(a.max_tokens, 7);
    assert_eq!(a.sampler_config.temperature, 0);
    assert_eq!(a.sampler_config.top_k, 3);
    assert_eq!(a.sampler_config.top_p, 0.5f32.to_bits());
    assert_eq!(a.sampler_config.seed, 9);
    assert_eq!(a.max_seq_len, Some(128));
    assert!(a.interactive);
    assert_eq!(a.use_gpu, Some(false));
    assert_eq!(run(&["--cpu", "--gpu", "-m", "m"]).use_gpu, Some(true));
    assert_eq!(run(&["-m", "a", "-m", "b"]).model_path, Some(String::from("b")));
}

#[test]
fn the_penalty_cannot_be_set() {
    let a = run(&["-m", "m", "-t", "2", "-k", "1", "-p_arg", "1"]);
    assert_eq!(a.sampler_config.repetition_penalty, 1.1f32.to_bits());
    assert_eq!(a.sampler_config.repetition_window, 64);
    assert_eq!(a.sampler_config.top_p, 1.0f32.to_bits());
}

#[test]
fn a_run_needs_a_model() {
    assert_eq!(fail(&[]), "--model is required");
    assert_eq!(fail(&["-p", "hi"]), "--model is required");
}

#[test]
fn options_need_their_values() {
    for flag in [
        "--model",
        "--prompt",
        "--system",
        "--max-tokens",
        "--temperature",
        "--top-k",
        "--top-p",
        "--seed",
        "--max-seq-len",
    ] {
        assert_eq!(fail(&["-m", "m", flag]), format!("{} requires a value", flag));
    }
    assert_eq!(fail(&["-n"]), "--max-tokens requires a value");
}

#[test]
fn values_that_are_no_numbers_are_errors() {
    assert_eq!(fail(&["-n", "x"]), "Invalid --max-tokens: invalid digit found in string");
    assert_eq!(fail(&["-k", ""]), "Invalid --top-k: cannot parse integer from empty string");
    assert_eq!(
        fail(&["--seed", "18446744073709551616"]),
        "Invalid --seed: number too large to fit in target type"
    );
    assert_eq!(fail(&["-t", "hot"]), "Invalid --temperature: invalid float literal");
    assert_eq!(fail(&["--top-p", ""]), "Invalid --top-p: cannot parse float from empty string");
    assert_eq!(fail(&["--max-seq-len", "-1"]), "Invalid --max-seq-len: invalid digit found in string");
}

#[test]
fn help_and_unknown_arguments_end_the_parsing() {
    assert!(matches!(parse(&["--help"]), Outcome::Help));
    assert!(matches!(parse(&["-h", "--nonsense"]), Outcome::Help));
    match parse(&["-m", "m", "--nonsense", "-h"]) {
        Outcome::Unknown(a) => assert_eq!(a, "--nonsense"),
        _ => panic!("known"),
    }
    assert_eq!(run(&["-m", "--help"]).model_path, Some(String::from("--help")));
}

#[test]
fn lines_of_a_session_are_trimmed() {
    assert!(matches!(read_line("exit\n"), Input::Quit));
    assert!(matches!(read_line("  quit \r\n"), Input::Quit));
    assert!(matches!(read_line(" \t\n"), Input::Skip));
    assert!(matches!(read_line(""), Input::Skip));
    match read_line(" what is \u{A0}\n") {
        Input::Prompt(p) => assert_eq!(p, "what is"),
        _ => panic!("no prompt"),
    }
    match read_line("Exit") {
        Input::Prompt(p) => assert_eq!(p, "Exit"),
        _ => panic!("no prompt"),
    }
}

#[test]
fn prompts_are_wrapped_where_there_is_a_template() {
    assert_eq!(wrap_prompt(&None, "Hi", None), "Hi");
    assert_eq!(wrap_prompt(&None, "Hi", Some("S")), "Hi");
    let t = Some(template("[INST]"));
    assert_eq!(wrap_prompt(&t, "Hi", None), "[INST] Hi [/INST]");
    assert_eq!(
        wrap_prompt(&t, "Hi", Some("S")),
        "[INST] <<SYS>>\nS\n<</SYS>>\n\nHi [/INST]"
    );
}

#[test]
fn shaders_decode_as_the_blocks_are_packed() {
    let q8_0 = shader_src(GgufDataType::Q8_0);
    assert!(q8_0.contains("let q = i32(b) - 256 * i32(b >> 7u);"));
    let q5_k = shader_src(GgufDataType::Q5_K);
    assert!(q5_k.contains("(1u << sub)"));
    let f16 = shader_src(GgufDataType::F16);
    assert!(f16.contains("select(tiny, -tiny, sign != 0u)"));
    assert!(f16.contains("0x7F800000u"));
}

#[test]
fn pipelines_have_keys_and_shaders() {
    let types = [
        GgufDataType::F32,
        GgufDataType::F16,
        GgufDataType::Q8_0,
        GgufDataType::Q4_0,
        GgufDataType::Q5_0,
        GgufDataType::Q4_K,
        GgufDataType::Q5_K,
        GgufDataType::Q6_K,
    ];
    for (i, t) in types.iter().enumerate() {
        assert_eq!(dtype_key(*t), i as u32);
        for u in types.iter().take(i) {
            assert_ne!(shader_src(*t), shader_src(*u));
        }
        assert!(shader_src(*t).contains("@workgroup_size(256)"));
        assert!(shader_src(*t).starts_with("\nstruct Params"));
    }
    assert_eq!(dtype_key(GgufDataType::Q2_K), 99);
    assert_eq!(shader_src(GgufDataType::Q2_K), shader_src(GgufDataType::F32));
}

#[test]
fn q6_k_stays_on_the_cpu() {
    assert!(!runs_on_gpu(GgufDataType::Q6_K));
    assert!(runs_on_gpu(GgufDataType::Q4_K));
}

#[test]
fn each_row_has_one_workgroup() {
    let d = plan_dispatch(1000, 64);
    assert_eq!((d.dx, d.dy, d.rows, d.cols, d.out_size), (1000, 1, 1000, 64, 4000));
    let e = plan_dispatch(151936, 896);
    assert_eq!((e.dx, e.dy, e.out_size), (65535, 3, 607744));
    for row in [0u32, 65534, 65535, 131070, 151935] {
        let (x, y) = (row % e.dx, row / e.dx);
        assert!(x < e.dx && y < e.dy);
        assert_eq!(x + y * e.dx, row);
    }
    assert_eq!(plan_dispatch(WORKGROUP_LIMIT as usize, 1).dy, 1);
}

#[test]
fn parameters_stand_in_memory_as_words() {
    let d = plan_dispatch(70000, 0x01020304);
    let words = [0x01020304u32, 70000, 65535, 0];
    let mut expected: Vec<u8> = Vec::new();
    for w in words {
        expected.extend_from_slice(&w.to_ne_bytes());
    }
    assert_eq!(d.param_bytes(), expected);
}

#[test]
fn vectors_stand_in_memory_as_words() {
    let x = [1.0f32.to_bits(), 0x80000001, 0];
    let mut expected: Vec<u8> = Vec::new();
    for w in x {
        expected.extend_from_slice(&w.to_ne_bytes());
    }
    assert_eq!(vector_bytes(&x), expected);
    assert!(vector_bytes(&[]).is_empty());
}
