use cooee::asr::onnx::mel::{frame_sample, CHUNK, HOP, N_BINS, N_FFT, N_FRAMES};
use cooee::asr::onnx::runtime::{init, last_install, locate, Place, QNN_EP};
use cooee::asr::onnx::static_dec::{
    dims, files, graph_files, hidden_fits, kv_names, row_start, visible, wants_npu, Dims, Stepping,
};
use cooee::asr::onnx::tokenizer::{parse_merges, Tokenizer};
use cooee::asr::onnx::{
    argmax, check_layout, context_binary, context_path, decoder_max_len, encoder_dims, engine_name,
    ep_options, first_npu_step, float_key, join_windows, layout_message, model_info, model_message,
    next_npu_step, placement,
    plan_decoder, prompt_ids, read_model_info, repeating, replaces, window_text, ConfigFields, DecoderError,
    DecoderInput, Decoding, Generation, GenerationFields, LayoutError, ModelError, NpuStep,
    Placement, MAX_PROMPT_TOKENS, N_CTX,
};

#[test]
fn repetition_guard_sees_short_cycles_only_when_they_recur() {
    assert_eq!(repeating(&[1, 2, 3, 4, 5, 6]), None);
    assert_eq!(repeating(&[9, 9, 9]), Some(1));
    assert_eq!(repeating(&[1, 2, 3, 1, 2, 3, 1, 2, 3]), Some(3));
    assert_eq!(repeating(&[1, 2, 3, 1, 2, 3]), None);
    assert_eq!(repeating(&[7, 1, 2, 1, 2, 1, 2]), Some(2));
}

#[test]
fn prefix_puts_the_prompt_after_start_of_prev_and_keeps_its_tail() {
    let gen = Generation { sot_ids: vec![50257, 50362], eot: 50256, start_of_prev: Some(50360) };
    assert_eq!(gen.prefix(&[]), vec![50257, 50362]);
    assert_eq!(gen.prefix(&[1, 2]), vec![50360, 1, 2, 50257, 50362]);
    let long: Vec<u32> = (0..300).collect();
    let p = gen.prefix(&long);
    assert_eq!(p.len(), 1 + MAX_PROMPT_TOKENS + 2);
    assert_eq!(p[1], 300 - MAX_PROMPT_TOKENS as u32);
    let no_prev = Generation { sot_ids: vec![50257], eot: 50256, start_of_prev: None };
    assert_eq!(no_prev.prefix(&[1, 2]), vec![50257]);
}

#[test]
fn context_path_is_keyed_by_model_directory_and_size() {
    let (folder, name) = context_path(Some("whisper-x"), "encoder_model", Some(5));
    assert_eq!(format!("cache/{folder}/{name}"), "cache/qnn/whisper-x-5.onnx");
    assert_eq!(context_path(Some("m"), "cross_kv", Some(12)).1, "m-cross_kv-12.onnx");
    assert_eq!(context_path(None, "", None).1, "model--0.onnx");
    assert_eq!(context_binary("m-5"), "m-5_qnn.bin");
}

#[test]
fn a_cycle_of_eight_is_the_longest_that_counts() {
    let eight: Vec<u32> = (0..8).chain(0..8).chain(0..8).collect();
    assert_eq!(repeating(&eight), Some(8));
    let nine: Vec<u32> = (0..9).chain(0..9).chain(0..9).collect();
    assert_eq!(repeating(&nine), None);
    assert_eq!(repeating(&[]), None);
}

fn decode(prefix: &[u32], eot: u32, answers: &[u32]) -> Vec<u32> {
    let mut d = Decoding::new(prefix, eot);
    for next in answers {
        if d.input().is_none() {
            break;
        }
        d = d.accept(*next);
    }
    assert!(d.input().is_none());
    d.finish()
}

#[test]
fn decoding_ends_at_end_of_text() {
    assert_eq!(decode(&[7, 8], 0, &[1, 2, 0, 3]), vec![7, 8, 1, 2, 0]);
}

#[test]
fn a_loop_is_cut_to_one_copy() {
    assert_eq!(decode(&[7], 0, &[5, 1, 2, 1, 2, 1, 2]), vec![7, 5, 1, 2, 0]);
    // What precedes the start sequence's end is no loop.
    assert_eq!(decode(&[4, 4], 0, &[4, 0]), vec![4, 4, 4, 0]);
}

#[test]
fn decoding_ends_with_the_context() {
    let answers: Vec<u32> = (1..1000).collect();
    let out = decode(&[0], 5000, &answers);
    assert_eq!(out.len(), N_CTX);
    let full: Vec<u32> = (0..N_CTX as u32).collect();
    assert!(Decoding::new(&full, 5000).input().is_none());
}

#[test]
fn the_decoder_is_fed_everything_and_then_the_last_token() {
    let d = Decoding::new(&[7, 8], 0);
    assert!(!d.uses_cache());
    assert_eq!(d.input(), Some(vec![7, 8]));
    let d = d.accept(3);
    assert!(d.uses_cache());
    assert_eq!(d.input(), Some(vec![3]));
}

#[test]
fn the_static_decoder_feeds_the_prefix_before_it_asks() {
    let mut s = Stepping::new(&[7, 8], 0, 448);
    let step = s.step().unwrap();
    assert_eq!((step.token, step.position, step.wants_next), (7, 0, false));
    s = s.advance(None);
    let step = s.step().unwrap();
    assert_eq!((step.token, step.position, step.wants_next), (8, 1, true));
    s = s.advance(Some(5));
    let step = s.step().unwrap();
    assert_eq!((step.token, step.position, step.wants_next), (5, 2, true));
    s = s.advance(Some(0));
    assert!(s.step().is_none());
    assert_eq!(s.finish(), vec![7, 8, 5, 0]);
}

#[test]
fn the_static_decoder_stops_at_its_last_slot() {
    let mut s = Stepping::new(&[1], 0, 3);
    let mut next = 10;
    while let Some(step) = s.step() {
        assert!(step.position < 3);
        next += 1;
        s = s.advance(if step.wants_next { Some(next) } else { None });
    }
    assert_eq!(s.finish(), vec![1, 11, 12, 13]);
    // A prefix that does not fit comes back as it was.
    let mut s = Stepping::new(&[1, 2, 3], 0, 2);
    while let Some(step) = s.step() {
        assert!(!step.wants_next);
        s = s.advance(None);
    }
    assert_eq!(s.finish(), vec![1, 2, 3]);
}

#[test]
fn the_greatest_logit_wins_and_the_last_of_equals() {
    let bits = |v: &[f32]| v.iter().map(|x| x.to_bits()).collect::<Vec<u32>>();
    assert_eq!(argmax(&bits(&[-1.0, 2.5, 2.5, -3.0])), Some(2));
    assert_eq!(argmax(&bits(&[-1.0, -0.5, -2.0])), Some(1));
    assert_eq!(argmax(&bits(&[-0.0, 0.0])), Some(1));
    assert_eq!(argmax(&[]), None);
    let floats = [f32::NEG_INFINITY, -3.5, -0.0, 0.0, 1e-30, 7.0, f32::INFINITY];
    for pair in floats.windows(2) {
        assert!(float_key(pair[0].to_bits()) < float_key(pair[1].to_bits()));
    }
}

const CONFIG: &str = r#"{
    "decoder_start_token_id": 1, "eos_token_id": 2, "num_mel_bins": 128,
    "d_model": 512, "decoder_layers": 6, "decoder_attention_heads": 8, "vocab_size": 51864
}"#;

#[test]
fn a_model_is_described_by_its_files() {
    let generation = r#"{ "decoder_start_token_id": 50257, "forced_decoder_ids": [[1, 50362], 7, [2, "x"], [3]] }"#;
    let info = read_model_info(
        Some(CONFIG),
        Some(generation),
        Some(r#"{ "<|startofprev|>": 50360 }"#),
    )
    .ok()
    .unwrap();
    assert_eq!(info.n_mels, 128);
    assert_eq!(info.d_model, 512);
    assert_eq!(info.decoder_layers, 6);
    assert_eq!(info.decoder_heads, 8);
    assert_eq!(info.vocab, 51864);
    assert_eq!(info.generation.sot_ids, vec![50257, 50362]);
    assert_eq!(info.generation.eot, 2);
    assert_eq!(info.generation.start_of_prev, Some(50360));
    let d = dims(&info, 448);
    assert_eq!(d, Dims { layers: 6, heads: 8, head_dim: 64, max_len: 448, vocab: 51864 });
}

#[test]
fn a_model_needs_its_files() {
    let err = |c, g| read_model_info(c, g, None).err();
    assert_eq!(err(None, None), Some(ModelError::ReadConfig));
    assert_eq!(err(Some("{"), None), Some(ModelError::ParseConfig));
    assert_eq!(err(Some("{}"), None), Some(ModelError::ReadGeneration));
    assert_eq!(err(Some("{}"), Some("!")), Some(ModelError::ParseGeneration));
    assert_eq!(err(Some("{}"), Some("{}")), Some(ModelError::Start));
    // Broken or missing extra tokens only switch prompting off.
    let info = read_model_info(Some(CONFIG), Some("{}"), Some("{")).ok().unwrap();
    assert_eq!(info.generation.start_of_prev, None);
    assert_eq!(info.generation.sot_ids, vec![1]);
}

#[test]
fn a_description_names_what_is_missing() {
    let full = ConfigFields {
        decoder_start_token_id: Some(1),
        eos_token_id: Some(2),
        num_mel_bins: None,
        d_model: Some(3),
        decoder_layers: Some(4),
        decoder_attention_heads: Some(5),
        vocab_size: Some(6),
    };
    let gen = || GenerationFields {
        decoder_start_token_id: None,
        eos_token_id: None,
        forced: vec![9],
    };
    let info = model_info(&full, &gen(), None).ok().unwrap();
    assert_eq!(info.n_mels, 80);
    assert_eq!(info.generation.sot_ids, vec![1, 9]);
    let err = |c: ConfigFields| model_info(&c, &gen(), None).err();
    assert_eq!(
        err(ConfigFields { decoder_start_token_id: None, ..full }),
        Some(ModelError::Start)
    );
    assert_eq!(err(ConfigFields { eos_token_id: None, ..full }), Some(ModelError::Eos));
    assert_eq!(err(ConfigFields { d_model: None, ..full }), Some(ModelError::Width));
    assert_eq!(err(ConfigFields { decoder_layers: None, ..full }), Some(ModelError::Layers));
    assert_eq!(
        err(ConfigFields { decoder_attention_heads: None, ..full }),
        Some(ModelError::Heads)
    );
    assert_eq!(err(ConfigFields { vocab_size: None, ..full }), Some(ModelError::Vocab));
}

#[test]
fn placements_and_names() {
    assert_eq!(placement(true, true), Placement::Npu);
    assert_eq!(placement(true, false), Placement::Cpu);
    assert_eq!(placement(false, true), Placement::Cpu);
    assert_eq!(engine_name(Placement::Npu, Some(Placement::Npu)), "ONNX Runtime (NPU)");
    assert_eq!(engine_name(Placement::Npu, Some(Placement::Cpu)), "ONNX Runtime (NPU encoder)");
    assert_eq!(engine_name(Placement::Npu, None), "ONNX Runtime (NPU encoder)");
    assert_eq!(engine_name(Placement::Cpu, None), "ONNX Runtime (CPU)");
}

#[test]
fn a_session_with_options_comes_from_the_cache() {
    let step = first_npu_step(true, true, false);
    assert_eq!(step, NpuStep::Precompile);
    assert_eq!(next_npu_step(step, false, false), NpuStep::Failed);
    assert_eq!(next_npu_step(step, true, false), NpuStep::NoContext);
    let step = next_npu_step(step, true, true);
    assert_eq!(step, NpuStep::LoadContext);
    assert_eq!(next_npu_step(step, true, true), NpuStep::Ready);
    let step = next_npu_step(step, false, false);
    assert_eq!(step, NpuStep::Compile);
    assert_eq!(next_npu_step(step, false, false), NpuStep::Failed);
    assert_eq!(next_npu_step(step, true, true), NpuStep::Ready);
    assert_eq!(first_npu_step(false, true, false), NpuStep::Compile);
    assert_eq!(first_npu_step(true, false, true), NpuStep::LoadContext);
    assert_eq!(next_npu_step(NpuStep::Ready, false, false), NpuStep::Ready);
}

#[test]
fn options_carry_the_providers_name() {
    let extra = vec![("enable_htp_shared_memory_allocator".to_string(), "1".to_string())];
    let all = ep_options(QNN_EP, &extra);
    assert_eq!(all[0], ("QNNExecutionProvider.backend_type".to_string(), "htp".to_string()));
    assert_eq!(
        all[1],
        (
            "QNNExecutionProvider.enable_htp_shared_memory_allocator".to_string(),
            "1".to_string()
        )
    );
    assert_eq!(ep_options(QNN_EP, &Vec::new()).len(), 1);
}

#[test]
fn a_model_folder_has_a_layout() {
    assert_eq!(check_layout(false, true, true), Err(LayoutError::NotADirectory));
    assert_eq!(check_layout(true, false, false), Err(LayoutError::NoEncoder));
    assert_eq!(check_layout(true, true, false), Err(LayoutError::NoDecoder));
    assert_eq!(check_layout(true, true, true), Ok(()));
}

#[test]
fn the_cache_length_is_capped() {
    assert_eq!(decoder_max_len(None), 448);
    assert_eq!(decoder_max_len(Some("64")), 64);
    assert_eq!(decoder_max_len(Some("+64")), 64);
    assert_eq!(decoder_max_len(Some("1000")), 448);
    for odd in ["", "+", "-1", " 64", "6x", "99999999999999999999999"] {
        assert_eq!(decoder_max_len(Some(odd)), 448);
    }
}

#[test]
fn a_prompt_is_encoded_with_a_space_in_front() {
    let vocab = vec![("Ġ".to_string(), 1), ("h".to_string(), 2), ("i".to_string(), 3)];
    let t = Tokenizer::from_parts(vocab.clone(), Some(parse_merges("")));
    let gen = |start_of_prev| Generation { sot_ids: vec![9], eot: 8, start_of_prev };
    assert_eq!(prompt_ids(&t, &gen(Some(7)), Some("  hi ")), vec![1, 2, 3]);
    assert_eq!(prompt_ids(&t, &gen(Some(7)), Some("  ")), Vec::<u32>::new());
    assert_eq!(prompt_ids(&t, &gen(None), Some("hi")), Vec::<u32>::new());
    assert_eq!(prompt_ids(&t, &gen(Some(7)), None), Vec::<u32>::new());
    let no_rules = Tokenizer::from_parts(vocab, None);
    assert_eq!(prompt_ids(&no_rules, &gen(Some(7)), Some("hi")), Vec::<u32>::new());
    assert_eq!(window_text(&t, &[9, 2, 3, 8], 1, 8), "hi");
}

#[test]
fn windows_are_joined_by_spaces() {
    let list = |v: &[&str]| v.iter().map(|s| s.to_string()).collect::<Vec<String>>();
    assert_eq!(join_windows(&list(&[" one ", "", "two\n", "  "])), "one two");
    assert_eq!(join_windows(&list(&["", " "])), "");
    assert_eq!(join_windows(&Vec::new()), "");
}

#[test]
fn static_graphs_and_their_tensors() {
    assert_eq!(
        kv_names("past", 2),
        vec!["past.0.key", "past.0.value", "past.1.key", "past.1.value"]
    );
    assert!(kv_names("x", 0).is_empty());
    let names = graph_files(448);
    assert_eq!(names.cross, "cross_kv.onnx");
    assert_eq!(names.step32, "decoder_step_448.onnx");
    assert_eq!(names.step16, "decoder_step_448_f16.onnx");
    assert!(files(graph_files(1), true, true, true).is_some());
    assert!(files(graph_files(1), true, true, false).is_none());
    assert!(wants_npu(None));
    assert!(wants_npu(Some("1")));
    assert!(!wants_npu(Some("0")));
    let d = Dims { layers: 1, heads: 2, head_dim: 4, max_len: 10, vocab: 0 };
    assert_eq!(row_start(&d, 0, 0), 0);
    assert_eq!(row_start(&d, 1, 3), 52);
    assert!(visible(0, 1, 10) && !visible(1, 1, 10) && visible(10, 0, 10));
}

#[test]
fn libraries_are_looked_for_in_order() {
    assert_eq!(locate(true, true, true, true), Some(Place::RuntimeFolder));
    assert_eq!(locate(false, true, true, true), Some(Place::BesideExe));
    assert_eq!(locate(false, false, true, true), Some(Place::Variable));
    assert_eq!(locate(false, false, false, true), Some(Place::SitePackages));
    assert_eq!(locate(false, false, false, false), None);
    let names = |v: &[&str]| v.iter().map(|s| s.to_string()).collect::<Vec<String>>();
    assert_eq!(last_install(&names(&["Python311", "Python39", "Python310"])), Some(1));
    assert_eq!(last_install(&Vec::new()), None);
}

#[test]
fn an_npu_takes_the_plugin_and_the_device() {
    assert!(init(None, None, true).is_none());
    let r = init(Some("ort.dll".to_string()), None, true).unwrap();
    assert!(!r.npu && r.qnn_ep.is_none() && r.ort_dll == "ort.dll");
    let plugin = || Some("qnn.dll".to_string());
    assert!(init(Some(String::new()), plugin(), true).unwrap().npu);
    assert!(!init(Some(String::new()), plugin(), false).unwrap().npu);
}

#[test]
fn frames_read_the_window_mirrored_at_its_ends() {
    assert_eq!((CHUNK, N_FRAMES, N_BINS), (480_000, 3_000, 201));
    assert_eq!(frame_sample(0, 0), 200);
    assert_eq!(frame_sample(0, 199), 1);
    assert_eq!(frame_sample(0, 200), 0);
    assert_eq!(frame_sample(0, 201), 1);
    assert_eq!(frame_sample(N_FRAMES - 1, N_FFT - 1), 2 * (CHUNK - 1) - (2_999 * HOP + 199));
}

fn input(name: &str, dims: &[i64]) -> DecoderInput {
    DecoderInput { name: name.to_string(), dims: dims.to_vec() }
}

#[test]
fn a_merged_decoder_is_fed_by_its_inputs() {
    let inputs = vec![
        input("input_ids", &[-1, -1]),
        input("past_key_values.0.decoder.key", &[-1, 12, -1, 64]),
        input("past_key_values.0.decoder.value", &[-1, 12, -1, 64]),
        input("use_cache_branch", &[1]),
    ];
    let plan = match plan_decoder(&inputs) {
        Ok(plan) => plan,
        Err(e) => panic!("{e:?}"),
    };
    assert_eq!(plan.past, ["past_key_values.0.decoder.key", "past_key_values.0.decoder.value"]);
    assert_eq!(plan.present, ["present.0.decoder.key", "present.0.decoder.value"]);
    assert_eq!((plan.heads, plan.head_dim), (12, 64));
    assert!(plan.branch_flag);

    let plain = vec![input("past_key_values.0.key", &[1, 8, 0, 32])];
    match plan_decoder(&plain) {
        Ok(plan) => assert!(!plan.branch_flag),
        Err(e) => panic!("{e:?}"),
    }
}

#[test]
fn a_decoder_without_a_cache_cannot_be_fed() {
    let none = vec![input("input_ids", &[-1, -1]), input("use_cache_branch", &[1])];
    assert_eq!(plan_decoder(&none).err(), Some(DecoderError::NoCache));
    assert_eq!(plan_decoder(&Vec::new()).err(), Some(DecoderError::NoCache));
    // Only the first cache input's shape counts.
    let flat = vec![
        input("past_key_values.0.key", &[12, 64]),
        input("past_key_values.0.value", &[1, 12, 0, 64]),
    ];
    assert_eq!(plan_decoder(&flat).err(), Some(DecoderError::CacheShape));
}

#[test]
fn the_encoder_is_pinned_to_one_window() {
    assert_eq!(
        encoder_dims(80),
        [("batch_size", 1), ("feature_size", 80), ("encoder_sequence_length", 3000)]
    );
}

#[test]
fn the_encoder_output_is_checked() {
    assert!(hidden_fits(1_500 * 768, 768));
    assert!(!hidden_fits(1_500 * 768 - 1, 768));
    assert!(hidden_fits(0, 0));
    assert!(!hidden_fits(0, usize::MAX));
}

#[test]
fn an_empty_cache_output_is_not_taken() {
    assert!(!replaces(0));
    assert!(replaces(1));
}

#[test]
fn a_context_is_keyed_by_the_size_of_its_graph() {
    let name = |size: u64| context_path(Some("m"), "cross_kv", Some(size)).1;
    assert_ne!(name(1), name(10));
    assert_ne!(name(123), name(124));
}

#[test]
fn load_errors_are_explained() {
    let layout = |e: LayoutError| layout_message(e, "m", "m/enc", "m/dec");
    assert_eq!(layout(LayoutError::NotADirectory), "m is not a directory");
    assert_eq!(
        layout(LayoutError::NoEncoder),
        "m/enc is missing; expected the Hugging Face ONNX export layout"
    );
    assert_eq!(
        layout(LayoutError::NoDecoder),
        "m/dec is missing; expected the Hugging Face ONNX export layout"
    );
    let model = |e: ModelError| model_message(e, "m/config.json", "m/generation_config.json");
    assert_eq!(model(ModelError::ReadConfig), "read m/config.json");
    assert_eq!(model(ModelError::ParseConfig), "parse m/config.json");
    assert_eq!(model(ModelError::ReadGeneration), "read m/generation_config.json");
    assert_eq!(model(ModelError::ParseGeneration), "parse m/generation_config.json");
    assert_eq!(model(ModelError::Start), "decoder_start_token_id");
    assert_eq!(model(ModelError::Eos), "eos_token_id");
    assert_eq!(model(ModelError::Width), "d_model");
    assert_eq!(model(ModelError::Layers), "decoder_layers");
    assert_eq!(model(ModelError::Heads), "decoder_attention_heads");
    assert_eq!(model(ModelError::Vocab), "vocab_size");
}
