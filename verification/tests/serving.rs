use freetoken::chat::{
    build_prompt, completion_limit, is_stop, prompt_ids, prompt_text, stream_step, ChatMessage,
    StreamStep,
};
use freetoken::profile::Profile;
use freetoken::reply::{chunk, completion, models, Json};
use freetoken::rng::{xorshift32, xorshift64};
use freetoken::schedule::Phase;
use freetoken::scheduler::{ActiveSeq, Intake, Scheduler};
use freetoken::tokenizer::Tokenizer;
use vstd::hash_map::StringHashMap;

fn message(role: &str, content: &str) -> ChatMessage {
    ChatMessage { role: role.to_string(), content: content.to_string() }
}

fn tokenizer() -> Tokenizer {
    let mut id_of = StringHashMap::new();
    id_of.insert("<|turn>".to_string(), 0);
    id_of.insert("h".to_string(), 1);
    Tokenizer {
        vocab: vec!["<|turn>".to_string(), "h".to_string()],
        id_of,
        merge_rank: StringHashMap::new(),
        bos: 9,
        eos: 7,
        eot: Some(8),
    }
}

#[test]
fn conversations_are_written_out() {
    let m = [message("system", "s"), message("user", "u"), message("assistant", "a")];
    assert_eq!(
        prompt_text(&m),
        "<|turn>user\ns<turn|>\n<|turn>user\nu<turn|>\n<|turn>model\na<turn|>\n\
         <|turn>model\n<|channel>thought\n<channel|>"
    );
    assert_eq!(prompt_text(&[]), "<|turn>model\n<|channel>thought\n<channel|>");
    let t = tokenizer();
    assert_eq!(prompt_text(&[message("user", "hi")]), t.chat_prompt("hi"));
    assert_eq!(build_prompt(&t, &[message("tool", "h")]), vec![9, 0, 1, 0, 1, 1, 1, 1]);
    assert_eq!(prompt_ids(&t, "h<|turn>"), vec![9, 1, 0]);
}

#[test]
fn answers_have_a_limit() {
    assert_eq!(completion_limit(None, None), 512);
    assert_eq!(completion_limit(None, Some(7)), 7);
    assert_eq!(completion_limit(Some(3), Some(7)), 3);
    assert_eq!(completion_limit(Some(100000), None), 4096);
}

#[test]
fn streams_end_once() {
    assert_eq!(
        stream_step(false, Some(Some("x".to_string()))),
        StreamStep::Chunk("x".to_string())
    );
    assert_eq!(stream_step(false, Some(None)), StreamStep::Last);
    assert_eq!(stream_step(false, None), StreamStep::Last);
    assert_eq!(stream_step(true, Some(Some("x".to_string()))), StreamStep::End);
}

#[test]
fn stop_tokens() {
    let mut t = tokenizer();
    assert!(is_stop(&t, 7) && is_stop(&t, 8) && !is_stop(&t, 9));
    t.eot = None;
    assert!(!is_stop(&t, 8));
}

#[test]
fn slots_are_handed_out_and_come_back() {
    let mut s = Scheduler::new(2, 100, 7, Some(8));
    assert_eq!(s.intake(), Intake::Wait);
    assert_eq!(s.take_in(10, 5), (0, 10));
    s.prefilled(Some(3), 5, 11);
    assert_eq!(s.intake(), Intake::Poll);
    assert_eq!(s.take_in(200, 50), (1, 48));
    s.prefilled(Some(4), 1, 22);
    assert_eq!(s.intake(), Intake::Full);
    assert!(s.delivers(0) && s.delivers(1));
    let step = s.step(&[true, true]);
    assert_eq!(step.reqs, vec![(0, 3), (1, 4)]);
    assert_eq!(step.temps, vec![11, 22]);
    assert!(step.ended.is_empty());
    s.decoded(&[5, 6]);
    assert_eq!(
        s.active,
        vec![
            ActiveSeq { slot: 0, temperature: 11, remaining: 4, next_token: 5 },
            ActiveSeq { slot: 1, temperature: 22, remaining: 0, next_token: 6 },
        ]
    );
    // the second may have no more tokens
    assert!(s.delivers(0) && !s.delivers(1));
    let step = s.step(&[true, false]);
    assert_eq!((step.reqs, step.ended), (vec![(0, 5)], vec![1]));
    assert_eq!(s.free, vec![1]);
    s.decoded(&[8]);
    assert!(!s.delivers(0));
    let step = s.step(&[false]);
    assert_eq!((step.reqs.len(), step.ended), (0, vec![0]));
    assert_eq!(s.free, vec![1, 0]);
    assert_eq!(s.intake(), Intake::Wait);
}

#[test]
fn undelivered_tokens_end_a_sequence() {
    let mut s = Scheduler::new(1, 100, 7, None);
    s.take_in(1, 5);
    s.prefilled(Some(8), 5, 0);
    assert!(s.delivers(0));
    let step = s.step(&[false]);
    assert_eq!(step.ended, vec![0]);
}

#[test]
fn failed_prefills_and_steps_free_their_slots() {
    let mut s = Scheduler::new(3, 10, 7, None);
    assert_eq!(s.take_in(5, 20), (0, 0));
    s.prefilled(None, 20, 0);
    assert_eq!(s.free, vec![2, 1, 0]);
    for token in [1, 2] {
        s.take_in(1, 4);
        s.prefilled(Some(token), 4, 0);
    }
    assert_eq!(s.failed(), vec![0, 1]);
    assert_eq!(s.free, vec![2, 0, 1]);
    assert!(s.active.is_empty());
}

#[test]
fn random_states() {
    let mut a = 1u64;
    a ^= a << 13;
    a ^= a >> 7;
    a ^= a << 17;
    assert_eq!(xorshift64(1), a);
    assert_eq!(xorshift64(1), 0x4082_2041);
    assert_eq!(xorshift32(1), 270369);
    assert_eq!(xorshift64(0), 0);
}

#[test]
fn time_is_counted_by_phase() {
    let mut p = Profile::default();
    p.record(Phase::Moe, 5);
    p.record(Phase::Attn, 7);
    p.record(Phase::Moe, 1);
    p.count(3);
    assert_eq!((p.moe_us, p.attn_cpu_us, p.tokens), (6, 7, 3));
    assert_eq!(p.sum(), Some(13));
    p.router_us = u64::MAX;
    assert_eq!(p.sum(), None);
}

/// A reply as it is written, with the names in the order in which they stand.
fn written(j: &Json) -> String {
    match j {
        Json::Null => "null".to_string(),
        Json::Number(n) => n.to_string(),
        Json::Text(s) => format!("{s:?}"),
        Json::List(v) => {
            let items: Vec<String> = v.iter().map(written).collect();
            format!("[{}]", items.join(","))
        }
        Json::Object(v) => {
            let items: Vec<String> = v.iter().map(|(k, v)| format!("{k:?}:{}", written(v))).collect();
            format!("{{{}}}", items.join(","))
        }
    }
}

#[test]
fn replies_have_their_fields() {
    assert_eq!(
        written(&completion("c-1", 5, "m", "hi")),
        "{\"id\":\"c-1\",\"object\":\"chat.completion\",\"created\":5,\"model\":\"m\",\
         \"choices\":[{\"index\":0,\"message\":{\"role\":\"assistant\",\"content\":\"hi\"},\
         \"finish_reason\":\"stop\"}],\
         \"usage\":{\"prompt_tokens\":0,\"completion_tokens\":0,\"total_tokens\":0}}"
    );
    assert_eq!(
        written(&chunk("c-1", 5, "m", "hi")),
        "{\"id\":\"c-1\",\"object\":\"chat.completion.chunk\",\"created\":5,\"model\":\"m\",\
         \"choices\":[{\"index\":0,\"delta\":{\"content\":\"hi\"},\"finish_reason\":null}]}"
    );
    assert_eq!(
        written(&models("m", 7)),
        "{\"object\":\"list\",\"data\":[{\"id\":\"m\",\"object\":\"model\",\"created\":7,\
         \"owned_by\":\"freetoken-rs\"}]}"
    );
}
