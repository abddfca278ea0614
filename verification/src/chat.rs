//! Chat requests: the prompt of a conversation, the limit of an answer, and the
//! pieces of a streamed answer.

use crate::tokenizer::Tokenizer;
use vstd::prelude::*;
use vstd::string::StringExecFns;

verus! {

/// A turn of a conversation.
pub struct ChatMessage {
    pub role: String,
    pub content: String,
}

/// The role under which a turn is written: an assistant is the model, and what the
/// system says counts as the user's.
pub open spec fn role_name(role: Seq<char>) -> Seq<char> {
    if role == "assistant"@ {
        "model"@
    } else if role == "system"@ {
        "user"@
    } else {
        role
    }
}

/// The text of a turn.
pub open spec fn turn(role: Seq<char>, content: Seq<char>) -> Seq<char> {
    "<|turn>"@ + role_name(role) + "\n"@ + content + "<turn|>\n"@
}

/// The text of the first `n` turns.
pub open spec fn turns(messages: Seq<ChatMessage>, n: int) -> Seq<char>
    decreases n,
{
    if n <= 0 {
        seq![]
    } else {
        turns(messages, n - 1) + turn(messages[n - 1].role@, messages[n - 1].content@)
    }
}

/// The text of a conversation, at the end of which the model is to speak.
pub open spec fn conversation(messages: Seq<ChatMessage>) -> Seq<char> {
    turns(messages, messages.len() as int) + "<|turn>model\n<|channel>thought\n<channel|>"@
}

/// The text of a conversation, at the end of which the model is to speak.
pub fn prompt_text(messages: &[ChatMessage]) -> (text: String)
    ensures
        text@ == conversation(messages@),
{
    let mut text = String::new();
    let mut i: usize = 0;
    while i < messages.len()
        invariant
            i <= messages@.len(),
            text@ == turns(messages@, i as int),
        decreases messages@.len() - i,
    {
        let m = &messages[i];
        let assistant = "assistant".to_owned();
        let system = "system".to_owned();
        text.append("<|turn>");
        if m.role == assistant {
            text.append("model");
        } else if m.role == system {
            text.append("user");
        } else {
            text.append(m.role.as_str());
        }
        text.append("\n");
        text.append(m.content.as_str());
        text.append("<turn|>\n");
        assert(text@ =~= turns(messages@, i + 1));
        i = i + 1;
    }
    text.append("<|turn>model\n<|channel>thought\n<channel|>");
    text
}

/// The tokens of a conversation, behind the token that begins a sequence.
pub fn build_prompt(tok: &Tokenizer, messages: &[ChatMessage]) -> (ids: Vec<u32>)
    ensures
        ids@ == seq![tok@.bos] + tok@.special_encoding(conversation(messages@)),
{
    let text = prompt_text(messages);
    prompt_ids(tok, text.as_str())
}

/// The tokens of a text, behind the token that begins a sequence.
pub fn prompt_ids(tok: &Tokenizer, text: &str) -> (ids: Vec<u32>)
    ensures
        ids@ == seq![tok@.bos] + tok@.special_encoding(text@),
{
    let mut ids: Vec<u32> = Vec::new();
    ids.push(tok.bos);
    let mut rest = tok.encode_with_specials(text);
    ids.append(&mut rest);
    assert(ids@ =~= seq![tok@.bos] + tok@.special_encoding(text@));
    ids
}

/// How many tokens an answer may have: what the request asks for, by the newer or
/// else by the older name of the field, or else 512; but never more than 4096.
pub open spec fn limit(max_completion: Option<usize>, max_tokens: Option<usize>) -> usize {
    let asked = match max_completion {
        Some(n) => n,
        None => match max_tokens {
            Some(n) => n,
            None => 512,
        },
    };
    if asked < 4096 {
        asked
    } else {
        4096
    }
}

/// How many tokens an answer may have.
pub fn completion_limit(max_completion: Option<usize>, max_tokens: Option<usize>) -> (n: usize)
    ensures
        n == limit(max_completion, max_tokens),
{
    let asked: usize = match max_completion {
        Some(n) => n,
        None => match max_tokens {
            Some(n) => n,
            None => 512,
        },
    };
    if asked < 4096 {
        asked
    } else {
        4096
    }
}

/// What a streamed answer sends next.
#[derive(Debug, PartialEq, Eq)]
pub enum StreamStep {
    /// A piece of text.
    Chunk(String),
    /// The mark that ends the answer.
    Last,
    /// Nothing more.
    End,
}

/// What a streamed answer sends next. `received` is what came from the worker: a
/// piece of text, the end of the answer, or nothing, where the worker is gone.
pub fn stream_step(done: bool, received: Option<Option<String>>) -> (r: StreamStep)
    ensures
        if done {
            r is End
        } else {
            match received {
                Some(Some(text)) => r == StreamStep::Chunk(text),
                _ => r is Last,
            }
        },
        r is End <==> done,
        r is Chunk <==> !done && received is Some && received->0 is Some,
        r is Chunk ==> r->Chunk_0@ == received->0->0@,
{
    if done {
        return StreamStep::End;
    }
    match received {
        Some(Some(text)) => StreamStep::Chunk(text),
        _ => StreamStep::Last,
    }
}

/// A token at which an answer ends.
pub fn is_stop(tok: &Tokenizer, token: u32) -> (r: bool)
    ensures
        r <==> token == tok@.eos || Some(token) == tok@.eot,
{
    let stop = match tok.eot {
        Some(t) => t == token,
        None => false,
    };
    token == tok.eos || stop
}

/// A conversation of one user turn is the prompt for that user.
pub proof fn one_turn_is_a_chat_prompt(messages: Seq<ChatMessage>)
    requires
        messages.len() == 1,
        messages[0].role@ == "user"@,
    ensures
        conversation(messages) == "<|turn>user\n"@ + messages[0].content@
            + "<turn|>\n<|turn>model\n<|channel>thought\n<channel|>"@,
{
    reveal_strlit("<|turn>");
    reveal_strlit("user");
    reveal_strlit("assistant");
    reveal_strlit("system");
    reveal_strlit("\n");
    reveal_strlit("<turn|>\n");
    reveal_strlit("<|turn>user\n");
    reveal_strlit("<|turn>model\n<|channel>thought\n<channel|>");
    reveal_strlit("<turn|>\n<|turn>model\n<|channel>thought\n<channel|>");
    reveal_with_fuel(turns, 2);
    assert("user"@[0] != "assistant"@[0]);
    assert("user"@[0] != "system"@[0]);
    assert(conversation(messages) =~= "<|turn>user\n"@ + messages[0].content@
        + "<turn|>\n<|turn>model\n<|channel>thought\n<channel|>"@);
}

/// A conversation of no turns is only the start of the model's turn, and each message
/// adds one turn before it: a mark, the role, a line break, the content as it is, and
/// the mark that ends the turn. An assistant is written as the model, the system as
/// the user, and any other role as it is.
pub proof fn each_message_adds_a_turn(messages: Seq<ChatMessage>, m: ChatMessage)
    ensures
        ({
            let ending = "<|turn>model\n<|channel>thought\n<channel|>"@;
            let before = conversation(messages);
            let after = conversation(messages.push(m));
            let role = after.subrange(
                before.len() - ending.len() + 7,
                after.len() - ending.len() - 8 - m.content@.len() - 1,
            );
            &&& messages.len() == 0 ==> before == ending
            &&& before.len() >= ending.len()
            &&& before.skip(before.len() - ending.len()) == ending
            &&& after == before.take(before.len() - ending.len()) + "<|turn>"@ + role + "\n"@
                + m.content@ + "<turn|>\n"@ + ending
            &&& m.role@ == "assistant"@ ==> role == "model"@
            &&& m.role@ == "system"@ ==> role == "user"@
            &&& m.role@ != "assistant"@ && m.role@ != "system"@ ==> role == m.role@
        }),
{
    let ending = "<|turn>model\n<|channel>thought\n<channel|>"@;
    reveal_strlit("<|turn>");
    reveal_strlit("\n");
    reveal_strlit("<turn|>\n");
    reveal_strlit("assistant");
    reveal_strlit("system");
    reveal_strlit("<|turn>model\n<|channel>thought\n<channel|>");
    assert("assistant"@[0] != "system"@[0]);
    let all = messages.push(m);
    let n = messages.len() as int;
    lemma_turns_of_prefix(messages, m, n);
    let head = turns(messages, n);
    let before = conversation(messages);
    let after = conversation(all);
    assert(all[n] == m);
    assert(before.take(before.len() - ending.len()) =~= head);
    assert(before.skip(before.len() - ending.len()) =~= ending);
    let name = role_name(m.role@);
    assert(after =~= head + "<|turn>"@ + name + "\n"@ + m.content@ + "<turn|>\n"@ + ending);
    assert(after.subrange(
        before.len() - ending.len() + 7,
        after.len() - ending.len() - 8 - m.content@.len() - 1,
    ) =~= name);
    if n == 0 {
        assert(before =~= ending);
    }
}

proof fn lemma_turns_of_prefix(messages: Seq<ChatMessage>, m: ChatMessage, n: int)
    requires
        n <= messages.len(),
    ensures
        turns(messages.push(m), n) == turns(messages, n),
    decreases n,
{
    if n > 0 {
        lemma_turns_of_prefix(messages, m, n - 1);
        assert(messages.push(m)[n - 1] == messages[n - 1]);
    }
}

/// What a request asks for is granted up to 4096 tokens. The newer name of the field goes
/// before the older one, and where neither is given it is 512.
pub proof fn answers_are_as_long_as_asked(a: usize, b: Option<usize>)
    ensures
        limit(Some(a), b) <= 4096,
        a <= 4096 ==> limit(Some(a), b) == a,
        a > 4096 ==> limit(Some(a), b) == 4096,
        limit(None, Some(a)) == limit(Some(a), b),
        limit(None, None) == 512,
{
}

} // verus!
