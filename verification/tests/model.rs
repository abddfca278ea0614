use freetoken::config::{Config, ConfigError, ConfigKey};
use freetoken::driver::{live_mode, Action, Chosen, Driver};
use freetoken::gguf::{Gguf, GgufError, TensorInfo, Value};
use freetoken::launch::Launch;
use freetoken::load::{
    down_matrix, embedding, embedding_rows, embedding_table, expert_geometry, expert_layers,
    final_norm, gate_up_matrix, load_experts, out_matrix, qkv_matrix, small_tensor, tensor_name,
    LoadError, Part, Small,
};
use freetoken::plan::{Buf, Plan, PlanError};
use freetoken::q4_0::{q4r_row_bytes, repack_q4r};
use freetoken::schedule::{Mode, Op};
use vstd::hash_map::StringHashMap;

fn meta() -> Vec<(&'static str, Value)> {
    vec![
        ("tokenizer.ggml.tokens", Value::Arr(vec![Value::U8(0), Value::U8(0), Value::U8(0)])),
        ("gemma4.block_count", Value::U32(2)),
        ("gemma4.attention.head_count", Value::U32(4)),
        ("gemma4.attention.head_count_kv", Value::Arr(vec![Value::I32(2), Value::I32(1)])),
        (
            "gemma4.attention.sliding_window_pattern",
            Value::Arr(vec![Value::Bool(true), Value::U8(1)]),
        ),
        ("gemma4.attention.key_length_swa", Value::U32(8)),
        ("gemma4.attention.key_length", Value::U32(16)),
        ("gemma4.attention.sliding_window", Value::U32(512)),
        ("gemma4.rope.freq_base", Value::F32(1e6f32.to_bits())),
        ("gemma4.rope.freq_base_swa", Value::F32(1e4f32.to_bits())),
        ("gemma4.attention.layer_norm_rms_epsilon", Value::F32(1e-6f32.to_bits())),
        ("gemma4.feed_forward_length", Value::U32(64)),
        ("gemma4.expert_count", Value::U32(2)),
        ("gemma4.expert_used_count", Value::U32(2)),
        ("gemma4.expert_feed_forward_length", Value::U32(32)),
        ("gemma4.final_logit_softcapping", Value::F32(30f32.to_bits())),
    ]
}

fn file(meta: Vec<(&str, Value)>) -> Gguf<'static> {
    let mut map = StringHashMap::new();
    for (k, v) in meta {
        map.insert(k.to_string(), v);
    }
    Gguf { bytes: &[], meta: map, tensors: StringHashMap::new(), data_start: 0 }
}

fn config() -> Config {
    Config::from_gguf(&file(meta())).unwrap()
}

fn plan() -> Plan {
    match Plan::new(&config(), 3, 5) {
        Ok(p) => p,
        Err(e) => panic!("{e:?}"),
    }
}

#[test]
fn hyperparameters_are_read() {
    let c = config();
    assert_eq!((c.n_layers, c.n_heads, c.vocab, c.max_seq), (2, 4, 3, 2048));
    assert_eq!(c.kv_heads, vec![2, 1]);
    assert_eq!(c.swa, vec![true, false]);
    assert_eq!((c.head_dim(0), c.head_dim(1)), (8, 16));
    assert_eq!(f32::from_bits(c.rope_base(0)), 1e4);
    assert_eq!(f32::from_bits(c.rope_base(1)), 1e6);
    assert_eq!((c.window, c.ffn, c.n_experts, c.topk, c.moe_inter), (512, 64, 2, 2, 32));
    assert_eq!(f32::from_bits(c.softcap), 30.0);
    assert_eq!(f32::from_bits(c.eps), 1e-6);
}

#[test]
fn bad_hyperparameters_are_reported() {
    let with = |key: &'static str, v: Option<Value>| {
        let mut m: Vec<(&str, Value)> = meta().into_iter().filter(|(k, _)| *k != key).collect();
        if let Some(v) = v {
            m.push((key, v));
        }
        Config::from_gguf(&file(m)).err()
    };
    assert_eq!(with("tokenizer.ggml.tokens", None), Some(ConfigError::NoTokens));
    assert_eq!(
        with("gemma4.block_count", None),
        Some(ConfigError::NotANumber(ConfigKey::BlockCount))
    );
    assert_eq!(
        with("gemma4.expert_count", Some(Value::I8(-1))),
        Some(ConfigError::NotANumber(ConfigKey::ExpertCount))
    );
    assert_eq!(
        with("gemma4.rope.freq_base", Some(Value::F64(0))),
        Some(ConfigError::NotAFloat(ConfigKey::FreqBase))
    );
    assert_eq!(
        with("gemma4.attention.head_count_kv", Some(Value::U8(1))),
        Some(ConfigError::NotAnArray(ConfigKey::HeadCountKv))
    );
    assert_eq!(
        with("gemma4.attention.head_count_kv", Some(Value::Arr(vec![Value::Bool(true)]))),
        Some(ConfigError::NotANumber(ConfigKey::HeadCountKv))
    );
    assert_eq!(
        with("gemma4.attention.sliding_window_pattern", None),
        Some(ConfigError::NotAnArray(ConfigKey::SlidingWindowPattern))
    );
    assert_eq!(with("unrelated", Some(Value::U8(1))), None);
    assert_eq!(ConfigKey::RmsEpsilon.text(), "gemma4.attention.layer_norm_rms_epsilon");
}

#[test]
fn layers_are_laid_out() {
    let p = plan();
    let l = p.layers[0];
    assert_eq!((l.q_rows, l.kv_dim, l.qkv_rows, l.group, l.window), (32, 16, 64, 2, 512));
    let l = p.layers[1];
    assert_eq!((l.q_rows, l.kv_dim, l.qkv_rows, l.group, l.window), (64, 16, 96, 4, 0));
    assert_eq!(p.gate_up_bytes, 64 * q4r_row_bytes(2816));
    assert_eq!(p.expert_bytes, 64 * q4r_row_bytes(2816) + 2816 * q4r_row_bytes(32));
    assert_eq!(p.scratch_widths(), (vec![2816, 64, 32, 64], vec![2816, 128, 64, 96]));
    assert_eq!(p.bank_bytes(), Some(4 * p.expert_bytes));
    assert_eq!(p.cache_bytes(), Some(5 * p.expert_bytes));
}

#[test]
fn buffers_have_sizes() {
    let p = plan();
    assert_eq!(p.capacity(Buf::Residual), Some(3 * 2816));
    assert_eq!(p.capacity(Buf::Queries), Some(3 * 4 * 16));
    assert_eq!(p.capacity(Buf::Rows(10)), Some(30));
    assert_eq!(p.capacity(Buf::Quants(64)), Some(240));
    assert_eq!(p.capacity(Buf::SharedQ8), Some(3 * 88 * 40));
    assert_eq!(p.capacity(Buf::PairGateUp), Some(6 * 64));
    assert_eq!(p.capacity(Buf::PairActsQ8), Some(6 * 40));
    assert_eq!(p.capacity(Buf::PairDown), Some(6 * 2816));
    assert_eq!(p.capacity(Buf::Identity), Some(6));
    assert_eq!(p.capacity(Buf::Keys(1)), Some(3 * 2048 * 16));
    assert_eq!(p.capacity(Buf::Tokens), Some(3));
    assert_eq!(p.capacity(Buf::Rows(usize::MAX)), None);
}

#[test]
fn models_that_cannot_be_laid_out() {
    let bad = |change: &dyn Fn(&mut Config)| {
        let mut c = config();
        change(&mut c);
        Plan::new(&c, 1, 1).err()
    };
    assert_eq!(bad(&|c| c.n_layers = 3), Some(PlanError::ShortTable));
    assert_eq!(bad(&|c| c.kv_heads[1] = 0), Some(PlanError::NoKvHeads));
    assert_eq!(bad(&|c| c.head_dim_swa = 7), Some(PlanError::RaggedRow));
    assert_eq!(bad(&|c| c.moe_inter = 33), Some(PlanError::RaggedRow));
    assert_eq!(bad(&|c| c.ffn = 0), Some(PlanError::RaggedRow));
    assert_eq!(bad(&|c| c.n_heads = usize::MAX), Some(PlanError::TooLarge));
    assert_eq!(bad(&|c| c.moe_inter = usize::MAX / 32 * 32), Some(PlanError::TooLarge));
}

#[test]
fn a_captured_step_is_one_list() {
    let p = plan();
    let mode = Mode {
        live: false,
        skip_attn: false,
        skip_dense: false,
        skip_moe: false,
        skip_lm_head: false,
    };
    let ops = p.stack_ops(2, mode);
    let per_layer = 12 + 4 + 9 + 13;
    assert_eq!(ops.len(), 2 * per_layer + 5);
    assert!(matches!(ops[0], Op::RmsNorm { src: Buf::Residual, dst: Buf::Normed, n: 2, .. }));
    assert!(matches!(ops[11], Op::Attend { layer: 0, span: 2048, n: 2 }));
    assert!(matches!(ops[ops.len() - 1], Op::Sample { n: 2 }));
    let at = |f: &dyn Fn(&Op) -> bool| ops.iter().position(|o| f(o)).unwrap();
    let entry = at(&|o| matches!(o, Op::Admit { .. }));
    let fork = at(&|o| matches!(o, Op::Fork));
    let promote = at(&|o| matches!(o, Op::Promote { entries: 4 }));
    let join = at(&|o| matches!(o, Op::Join));
    let pairs = at(&|o| matches!(o, Op::GemvPairs { .. }));
    assert!(entry < fork && fork < promote && promote < join && join < pairs);
    let launched = ops.iter().filter_map(|o| o.launch(&p)).all(|l| l.geometry().is_ok());
    assert!(launched);
    let skipped = p.stack_ops(2, Mode { skip_moe: true, skip_lm_head: true, ..mode });
    assert_eq!(skipped.len(), ops.len() - 2 * 5 - 1);
    let skipped = p.stack_ops(2, Mode { skip_dense: true, skip_attn: true, ..mode });
    assert_eq!(skipped.len(), ops.len() - 2 * 5);
}

#[test]
fn operations_call_kernels() {
    let p = plan();
    let q = Op::Quantize { src: Buf::Normed, dst: Buf::Quants(64), k: 64, n: 2 };
    assert_eq!(q.launch(&p), Some(Launch::QuantizeQ8 { k: 64, n: 2, q8_len: 240 }));
    let g = Op::GatherQueries { layer: 1, n: 2 };
    assert_eq!(g.launch(&p), Some(Launch::Strips { dim: 64, n: 2 }));
    assert_eq!(Op::Fork.launch(&p), None);
}

#[test]
fn a_step_on_the_device_runs_through() {
    let p = plan();
    let mut d = Driver::start(&p, 2, 7, true, true);
    let none = Chosen { n_pairs: 0, any_host: false };
    let mut ops = Vec::new();
    loop {
        match d.next(&p, none) {
            Action::Run(more) => ops.extend(more),
            Action::Choose(..) => panic!("the host was asked"),
            Action::Done => break,
        }
    }
    let mut want = p.layer_ops(2, 7, live_mode());
    want.extend(p.tail_ops(2, live_mode(), true));
    assert_eq!(ops, want);
}

#[test]
fn a_step_with_choices_stops_at_each_layer() {
    let p = plan();
    let mut d = Driver::start(&p, 1, 9, false, false);
    let mut asked = Vec::new();
    let mut chosen = Chosen { n_pairs: 0, any_host: false };
    let mut ops = Vec::new();
    loop {
        match d.next(&p, chosen) {
            Action::Run(more) => ops.extend(more),
            Action::Choose(l, more) => {
                ops.extend(more);
                asked.push(l);
                chosen = Chosen { n_pairs: 2 - 2 * l, any_host: l == 1 };
            }
            Action::Done => break,
        }
    }
    assert_eq!(asked, vec![0, 1]);
    let mut want = p.front_ops(0, 1, 9, live_mode());
    want.extend(p.host_ops(0, 1, 2, false));
    want.extend(p.front_ops(1, 1, 9, live_mode()));
    want.extend(p.host_ops(1, 1, 0, true));
    want.extend(p.tail_ops(1, live_mode(), false));
    assert_eq!(ops, want);
    assert!(matches!(ops[ops.len() - 1], Op::DownloadLogits { n: 1 }));
    assert!(ops.contains(&Op::HostExperts { n: 1 }));
    assert!(ops.contains(&Op::UploadPairs { n_pairs: 2 }));
    assert!(!ops.contains(&Op::UploadPairs { n_pairs: 0 }));
}

/// A file with the given tensors, one behind the other.
fn weights(tensors: &[(String, Vec<u64>, u32, Vec<u8>)]) -> (Vec<u8>, StringHashMap<TensorInfo>) {
    let mut bytes = Vec::new();
    let mut map = StringHashMap::new();
    for (name, dims, ggml_type, data) in tensors {
        let info = TensorInfo {
            dims: dims.clone(),
            ggml_type: *ggml_type,
            offset: bytes.len() as u64,
            nbytes: data.len() as u64,
        };
        map.insert(name.clone(), info);
        bytes.extend(data);
    }
    (bytes, map)
}

fn pattern(n: usize, seed: u32) -> Vec<u8> {
    (0..n as u32).map(|i| ((i + seed).wrapping_mul(2654435761) >> 11) as u8).collect()
}

#[test]
fn matrices_are_joined_and_laid_out() {
    let p = plan();
    let row = 88 * 18;
    let q = pattern(32 * row, 1);
    let k = pattern(16 * row, 2);
    let v = pattern(16 * row, 3);
    let part = |l: usize, p: Part, d: &Vec<u8>| (tensor_name(l, p), vec![], 2, d.clone());
    let out = pattern(2816 * 18, 4);
    let gate = pattern(64 * row, 5);
    let up = pattern(64 * row, 6);
    let down = pattern(2816 * 36, 7);
    let (bytes, tensors) = weights(&[
        part(0, Part::AttnQ, &q),
        part(0, Part::AttnK, &k),
        part(0, Part::AttnV, &v),
        part(0, Part::AttnOutput, &out),
        part(0, Part::FfnGate, &gate),
        part(0, Part::FfnUp, &up),
        part(0, Part::FfnDown, &down),
        part(1, Part::AttnQ, &pattern(64 * row, 8)),
        part(1, Part::AttnK, &k),
    ]);
    let g = Gguf { bytes: &bytes, meta: StringHashMap::new(), tensors, data_start: 0 };
    let joined = [q.clone(), k.clone(), v].concat();
    assert_eq!(qkv_matrix(&g, &p, 0), Ok(repack_q4r(&joined, 64, 2816)));
    assert_eq!(out_matrix(&g, &p, 0), Ok(repack_q4r(&out, 2816, 32)));
    assert_eq!(gate_up_matrix(&g, &p, 0), Ok(repack_q4r(&[gate, up].concat(), 128, 2816)));
    assert_eq!(down_matrix(&g, &p, 0), Ok(repack_q4r(&down, 2816, 64)));
    // a layer without values uses its keys
    let joined = [pattern(64 * row, 8), k.clone(), k].concat();
    assert_eq!(qkv_matrix(&g, &p, 1), Ok(repack_q4r(&joined, 96, 2816)));
    assert_eq!(
        out_matrix(&g, &p, 1),
        Err(LoadError::Layer(Part::AttnOutput, GgufError::NoSuchTensor))
    );
}

#[test]
fn wrong_shapes_are_reported() {
    let p = plan();
    let row = 88 * 18;
    let part = |p: Part, n: usize| (tensor_name(0, p), vec![], 2, vec![0u8; n]);
    let load = |q: usize, k: usize, v: usize| {
        let (bytes, tensors) =
            weights(&[part(Part::AttnQ, q), part(Part::AttnK, k), part(Part::AttnV, v)]);
        let g = Gguf { bytes: &bytes, meta: StringHashMap::new(), tensors, data_start: 0 };
        qkv_matrix(&g, &p, 0).err()
    };
    assert_eq!(load(32 * row, 16 * row, 16 * row), None);
    assert_eq!(load(31 * row, 16 * row, 16 * row), Some(LoadError::WrongShape(Part::AttnQ)));
    assert_eq!(load(32 * row, 17 * row, 16 * row), Some(LoadError::WrongShape(Part::AttnK)));
    assert_eq!(load(32 * row, 16 * row, 15 * row), Some(LoadError::WrongShape(Part::AttnV)));
}

#[test]
fn small_tensors_are_read_by_type() {
    let name = |p: Part| tensor_name(3, p);
    let (bytes, tensors) = weights(&[
        (name(Part::AttnNorm), vec![2], 0, [1f32.to_le_bytes(), 2f32.to_le_bytes()].concat()),
        (name(Part::FfnNorm), vec![2], 1, vec![0x00, 0x3C, 0x00, 0xC0]),
        (name(Part::PostFfwNorm), vec![32], 2, pattern(18, 9)),
        (name(Part::RouterScale), vec![256], 14, pattern(210, 9)),
        ("output_norm.weight".to_string(), vec![1], 0, 4f32.to_le_bytes().to_vec()),
    ]);
    let g = Gguf { bytes: &bytes, meta: StringHashMap::new(), tensors, data_start: 0 };
    match small_tensor(&g, 3, Part::AttnNorm) {
        Ok(Small::Single(v)) => assert_eq!(v, vec![1f32.to_bits(), 2f32.to_bits()]),
        _ => panic!("not single precision"),
    }
    match small_tensor(&g, 3, Part::FfnNorm) {
        Ok(Small::Half(v)) => assert_eq!(v, vec![0x3C00, 0xC000]),
        _ => panic!("not half precision"),
    }
    match small_tensor(&g, 3, Part::PostFfwNorm) {
        Ok(Small::Q4(q)) => {
            let d = pattern(18, 9);
            assert_eq!(q.scales, vec![u16::from_le_bytes([d[0], d[1]])]);
            assert_eq!(q.levels[0], (d[2] & 15) as i32 - 8);
            assert_eq!(q.levels[31], (d[17] >> 4) as i32 - 8);
        }
        _ => panic!("not quantized"),
    }
    assert!(matches!(
        small_tensor(&g, 3, Part::RouterScale),
        Err(LoadError::UnsupportedType(14))
    ));
    assert!(matches!(
        small_tensor(&g, 3, Part::LayerScale),
        Err(LoadError::Layer(Part::LayerScale, GgufError::NoSuchTensor))
    ));
    match final_norm(&g) {
        Ok(Small::Single(v)) => assert_eq!(v, vec![4f32.to_bits()]),
        _ => panic!("no last norm"),
    }
}

#[test]
fn embeddings_are_rows_of_a_table() {
    let data = pattern(3 * 2310, 4);
    let (bytes, tensors) =
        weights(&[("token_embd.weight".to_string(), vec![2816, 3], 14, data.clone())]);
    let g = Gguf { bytes: &bytes, meta: StringHashMap::new(), tensors, data_start: 0 };
    let table = embedding_table(&g).unwrap();
    assert_eq!(table, &data[..]);
    assert_eq!(embedding_rows(table), 3);
    assert_eq!(embedding_rows(&table[..2 * 2310 - 1]), 1);
    assert_eq!(embedding_rows(&[]), 0);
    let e = embedding(table, 1);
    assert_eq!(e.levels.len(), 2816);
    assert_eq!(e.scales[0], u16::from_le_bytes([data[2310 + 208], data[2310 + 209]]));
    let whole = freetoken::q6k::dequantize_row(&data[2310..4620], 2816);
    assert_eq!(e.levels, whole.levels);
    assert_eq!(e.group_scales, whole.group_scales);

    let (bytes, tensors) = weights(&[("token_embd.weight".to_string(), vec![32], 2, vec![0; 18])]);
    let g = Gguf { bytes: &bytes, meta: StringHashMap::new(), tensors, data_start: 0 };
    assert_eq!(embedding_table(&g), Err(LoadError::WrongEmbedding));
    let g = file(vec![]);
    assert_eq!(embedding_table(&g), Err(LoadError::Global(GgufError::NoSuchTensor)));
}

#[test]
fn experts_fill_their_bank() {
    let p = plan();
    let n_in = 64 * 88 * 18;
    let n_out = 2816 * 18;
    let gate_up = pattern(2 * n_in, 1);
    let down = pattern(2 * n_out, 2);
    let (bytes, tensors) = weights(&[
        (tensor_name(1, Part::ExpertGateUp), vec![2816, 64, 2], 2, gate_up.clone()),
        (tensor_name(1, Part::ExpertDown), vec![32, 2816, 2], 2, down.clone()),
        (tensor_name(0, Part::ExpertGate), vec![2816, 32, 2], 2, vec![]),
    ]);
    let g = Gguf { bytes: &bytes, meta: StringHashMap::new(), tensors, data_start: 0 };
    let mut bank = vec![0u8; 2 * p.expert_bytes];
    assert_eq!(load_experts(&g, &p, 1, &mut bank), Ok(()));
    for e in 0..2 {
        let one = &bank[e * p.expert_bytes..(e + 1) * p.expert_bytes];
        let first = repack_q4r(&gate_up[e * n_in..(e + 1) * n_in], 64, 2816);
        let second = repack_q4r(&down[e * n_out..(e + 1) * n_out], 2816, 32);
        assert_eq!(one[..p.gate_up_bytes], first[..]);
        assert_eq!(one[p.gate_up_bytes..], second[..]);
    }
    assert_eq!(expert_layers(&g, 3), vec![0, 1]);
    assert_eq!(expert_geometry(&g, 0), Some((2816, 32)));
    assert_eq!(expert_geometry(&g, 1), Some((2816, 32)));
    assert_eq!(expert_geometry(&g, 2), None);
}

#[test]
fn missing_experts_leave_the_bank() {
    let p = plan();
    let (bytes, tensors) = weights(&[
        (tensor_name(0, Part::ExpertGateUp), vec![], 2, vec![1; 2 * 64 * 88 * 18]),
        (tensor_name(0, Part::ExpertDown), vec![], 2, vec![1; 2816 * 18]),
        (tensor_name(1, Part::ExpertGateUp), vec![], 2, vec![1; 18]),
        (tensor_name(1, Part::ExpertDown), vec![], 2, vec![1; 2 * 2816 * 18]),
    ]);
    let g = Gguf { bytes: &bytes, meta: StringHashMap::new(), tensors, data_start: 0 };
    let mut bank = vec![0u8; 2 * p.expert_bytes];
    assert_eq!(
        load_experts(&g, &p, 0, &mut bank),
        Err(LoadError::WrongShape(Part::ExpertDown))
    );
    assert_eq!(
        load_experts(&g, &p, 1, &mut bank),
        Err(LoadError::WrongShape(Part::ExpertGateUp))
    );
    assert_eq!(
        load_experts(&g, &p, 2, &mut bank),
        Err(LoadError::Layer(Part::ExpertGateUp, GgufError::NoSuchTensor))
    );
    assert!(bank.iter().all(|&b| b == 0));
}

#[test]
fn tensors_have_names() {
    assert_eq!(tensor_name(0, Part::AttnQ), "blk.0.attn_q.weight");
    assert_eq!(tensor_name(29, Part::ExpertScale), "blk.29.ffn_down_exps.scale");
    assert_eq!(tensor_name(105, Part::RouterWeight), "blk.105.ffn_gate_inp.weight");
}

#[test]
fn experts_are_copied_as_they_are() {
    let mut bank = vec![0u8; 12];
    freetoken::expert_bank::copy_layer(
        &[1, 2, 3, 4], 2, &[5, 6], 1, &[7, 8, 9, 10, 11, 12], 3, 2, &mut bank,
    );
    assert_eq!(bank, vec![1, 2, 5, 7, 8, 9, 3, 4, 6, 10, 11, 12]);
    let mut bank = vec![0u8; 4];
    freetoken::expert_bank::copy_layer(&[1, 2], 1, &[], 0, &[3, 4], 1, 2, &mut bank);
    assert_eq!(bank, vec![1, 3, 2, 4]);
}
