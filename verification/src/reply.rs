//! The bodies of the server's replies, as trees of names and values.

use vstd::prelude::*;

verus! {

/// A value of a reply.
#[derive(Debug, PartialEq, Eq)]
pub enum Json {
    Null,
    Number(u64),
    Text(String),
    List(Vec<Json>),
    Object(Vec<(String, Json)>),
}

/// What a value of a reply says.
pub ghost enum Tree {
    Null,
    Number(u64),
    Text(Seq<char>),
    List(Seq<Tree>),
    Object(Seq<(Seq<char>, Tree)>),
}

impl Json {
    /// What the value says.
    pub open spec fn tree(self) -> Tree
        decreases self,
    {
        match self {
            Json::Null => Tree::Null,
            Json::Number(n) => Tree::Number(n),
            Json::Text(s) => Tree::Text(s@),
            Json::List(v) => Tree::List(
                Seq::new(
                    v@.len(),
                    |i: int|
                        if 0 <= i < v@.len() {
                            v@[i].tree()
                        } else {
                            arbitrary()
                        },
                ),
            ),
            Json::Object(v) => Tree::Object(
                Seq::new(
                    v@.len(),
                    |i: int|
                        if 0 <= i < v@.len() {
                            (v@[i].0@, v@[i].1.tree())
                        } else {
                            arbitrary()
                        },
                ),
            ),
        }
    }
}

/// What the entries of an object say.
pub open spec fn entries(v: Seq<(String, Json)>) -> Seq<(Seq<char>, Tree)> {
    Seq::new(v.len(), |i: int| (v[i].0@, v[i].1.tree()))
}

/// The fields of an object that are being put together.
struct Fields {
    list: Vec<(String, Json)>,
}

impl Fields {
    fn new() -> (r: Fields)
        ensures
            entries(r.list@) == Seq::<(Seq<char>, Tree)>::empty(),
    {
        let r = Fields { list: Vec::new() };
        assert(entries(r.list@) =~= Seq::<(Seq<char>, Tree)>::empty());
        r
    }

    fn put(&mut self, name: &str, value: Json)
        ensures
            entries(final(self).list@) == entries(old(self).list@).push((name@, value.tree())),
    {
        let ghost before = self.list@;
        self.list.push((name.to_owned(), value));
        assert(entries(self.list@) =~= entries(before).push((name@, value.tree())));
    }

    fn text(&mut self, name: &str, value: &str)
        ensures
            entries(final(self).list@) == entries(old(self).list@).push(
                (name@, Tree::Text(value@)),
            ),
    {
        self.put(name, Json::Text(value.to_owned()));
    }

    fn number(&mut self, name: &str, value: u64)
        ensures
            entries(final(self).list@) == entries(old(self).list@).push(
                (name@, Tree::Number(value)),
            ),
    {
        self.put(name, Json::Number(value));
    }

    fn object(self) -> (r: Json)
        ensures
            r.tree() == Tree::Object(entries(self.list@)),
    {
        let r = Json::Object(self.list);
        assert(r.tree()->Object_0 =~= entries(self.list@));
        r
    }
}

/// A list of one value.
fn list_of(value: Json) -> (r: Json)
    ensures
        r.tree() == Tree::List(seq![value.tree()]),
{
    let mut v: Vec<Json> = Vec::new();
    v.push(value);
    let r = Json::List(v);
    assert(r.tree()->List_0 =~= seq![value.tree()]);
    r
}

/// The reply to a request that is answered at once.
pub open spec fn completion_tree(
    id: Seq<char>,
    created: u64,
    model: Seq<char>,
    text: Seq<char>,
) -> Tree {
    Tree::Object(
        seq![
            ("id"@, Tree::Text(id)),
            ("object"@, Tree::Text("chat.completion"@)),
            ("created"@, Tree::Number(created)),
            ("model"@, Tree::Text(model)),
            (
                "choices"@,
                Tree::List(
                    seq![
                        Tree::Object(
                            seq![
                                ("index"@, Tree::Number(0)),
                                (
                                    "message"@,
                                    Tree::Object(
                                        seq![
                                            ("role"@, Tree::Text("assistant"@)),
                                            ("content"@, Tree::Text(text)),
                                        ],
                                    ),
                                ),
                                ("finish_reason"@, Tree::Text("stop"@)),
                            ],
                        ),
                    ],
                ),
            ),
            (
                "usage"@,
                Tree::Object(
                    seq![
                        ("prompt_tokens"@, Tree::Number(0)),
                        ("completion_tokens"@, Tree::Number(0)),
                        ("total_tokens"@, Tree::Number(0)),
                    ],
                ),
            ),
        ],
    )
}

/// The reply to a request that is answered at once. Tokens are not counted.
pub fn completion(id: &str, created: u64, model: &str, text: &str) -> (r: Json)
    ensures
        r.tree() == completion_tree(id@, created, model@, text@),
{
    let mut message = Fields::new();
    message.text("role", "assistant");
    message.text("content", text);
    let mut choice = Fields::new();
    choice.number("index", 0);
    choice.put("message", message.object());
    choice.text("finish_reason", "stop");
    let mut usage = Fields::new();
    usage.number("prompt_tokens", 0);
    usage.number("completion_tokens", 0);
    usage.number("total_tokens", 0);
    let mut body = Fields::new();
    body.text("id", id);
    body.text("object", "chat.completion");
    body.number("created", created);
    body.text("model", model);
    body.put("choices", list_of(choice.object()));
    body.put("usage", usage.object());
    proof {
        let want = completion_tree(id@, created, model@, text@);
        assert(entries(message.list@) =~= seq![
            ("role"@, Tree::Text("assistant"@)),
            ("content"@, Tree::Text(text@)),
        ]);
        assert(entries(choice.list@) =~= seq![
            ("index"@, Tree::Number(0)),
            ("message"@, Tree::Object(entries(message.list@))),
            ("finish_reason"@, Tree::Text("stop"@)),
        ]);
        assert(entries(usage.list@) =~= seq![
            ("prompt_tokens"@, Tree::Number(0)),
            ("completion_tokens"@, Tree::Number(0)),
            ("total_tokens"@, Tree::Number(0)),
        ]);
        assert(entries(body.list@) =~= want->Object_0);
    }
    body.object()
}

/// A piece of a streamed answer.
pub open spec fn chunk_tree(
    id: Seq<char>,
    created: u64,
    model: Seq<char>,
    text: Seq<char>,
) -> Tree {
    Tree::Object(
        seq![
            ("id"@, Tree::Text(id)),
            ("object"@, Tree::Text("chat.completion.chunk"@)),
            ("created"@, Tree::Number(created)),
            ("model"@, Tree::Text(model)),
            (
                "choices"@,
                Tree::List(
                    seq![
                        Tree::Object(
                            seq![
                                ("index"@, Tree::Number(0)),
                                ("delta"@, Tree::Object(seq![("content"@, Tree::Text(text))])),
                                ("finish_reason"@, Tree::Null),
                            ],
                        ),
                    ],
                ),
            ),
        ],
    )
}

/// A piece of a streamed answer.
pub fn chunk(id: &str, created: u64, model: &str, text: &str) -> (r: Json)
    ensures
        r.tree() == chunk_tree(id@, created, model@, text@),
{
    let mut delta = Fields::new();
    delta.text("content", text);
    let mut choice = Fields::new();
    choice.number("index", 0);
    choice.put("delta", delta.object());
    choice.put("finish_reason", Json::Null);
    let mut body = Fields::new();
    body.text("id", id);
    body.text("object", "chat.completion.chunk");
    body.number("created", created);
    body.text("model", model);
    body.put("choices", list_of(choice.object()));
    proof {
        assert(entries(delta.list@) =~= seq![("content"@, Tree::Text(text@))]);
        assert(entries(choice.list@) =~= seq![
            ("index"@, Tree::Number(0)),
            ("delta"@, Tree::Object(entries(delta.list@))),
            ("finish_reason"@, Tree::Null),
        ]);
        assert(entries(body.list@) =~= chunk_tree(id@, created, model@, text@)->Object_0);
    }
    body.object()
}

/// The list of models, of which there is one.
pub open spec fn models_tree(model: Seq<char>, created: u64) -> Tree {
    Tree::Object(
        seq![
            ("object"@, Tree::Text("list"@)),
            (
                "data"@,
                Tree::List(
                    seq![
                        Tree::Object(
                            seq![
                                ("id"@, Tree::Text(model)),
                                ("object"@, Tree::Text("model"@)),
                                ("created"@, Tree::Number(created)),
                                ("owned_by"@, Tree::Text("freetoken-rs"@)),
                            ],
                        ),
                    ],
                ),
            ),
        ],
    )
}

/// The list of models, of which there is one.
pub fn models(model: &str, created: u64) -> (r: Json)
    ensures
        r.tree() == models_tree(model@, created),
{
    let mut entry = Fields::new();
    entry.text("id", model);
    entry.text("object", "model");
    entry.number("created", created);
    entry.text("owned_by", "freetoken-rs");
    let mut body = Fields::new();
    body.text("object", "list");
    body.put("data", list_of(entry.object()));
    proof {
        assert(entries(entry.list@) =~= seq![
            ("id"@, Tree::Text(model@)),
            ("object"@, Tree::Text("model"@)),
            ("created"@, Tree::Number(created)),
            ("owned_by"@, Tree::Text("freetoken-rs"@)),
        ]);
        assert(entries(body.list@) =~= models_tree(model@, created)->Object_0);
    }
    body.object()
}

/// A reply that is given at once says what it was asked to: its fields are these, in this
/// order.
pub proof fn completions_say_what_they_are_given(
    id: Seq<char>,
    created: u64,
    model: Seq<char>,
    text: Seq<char>,
)
    ensures
        ({
            let body = completion_tree(id, created, model, text)->Object_0;
            let choices = body[4].1->List_0;
            let choice = choices[0]->Object_0;
            let message = choice[1].1->Object_0;
            let usage = body[5].1->Object_0;
            &&& completion_tree(id, created, model, text) is Object
            &&& body.len() == 6
            &&& body[0] == ("id"@, Tree::Text(id))
            &&& body[1] == ("object"@, Tree::Text("chat.completion"@))
            &&& body[2] == ("created"@, Tree::Number(created))
            &&& body[3] == ("model"@, Tree::Text(model))
            &&& body[4].0 == "choices"@ && body[4].1 is List && choices.len() == 1
            &&& choices[0] is Object && choice.len() == 3
            &&& choice[0] == ("index"@, Tree::Number(0))
            &&& choice[1].0 == "message"@ && choice[1].1 is Object && message.len() == 2
            &&& message[0] == ("role"@, Tree::Text("assistant"@))
            &&& message[1] == ("content"@, Tree::Text(text))
            &&& choice[2] == ("finish_reason"@, Tree::Text("stop"@))
            &&& body[5].0 == "usage"@ && body[5].1 is Object && usage.len() == 3
            &&& usage[0] == ("prompt_tokens"@, Tree::Number(0))
            &&& usage[1] == ("completion_tokens"@, Tree::Number(0))
            &&& usage[2] == ("total_tokens"@, Tree::Number(0))
        }),
{
}

/// So does a piece of a streamed answer.
pub proof fn chunks_say_what_they_are_given(
    id: Seq<char>,
    created: u64,
    model: Seq<char>,
    text: Seq<char>,
)
    ensures
        ({
            let body = chunk_tree(id, created, model, text)->Object_0;
            let choices = body[4].1->List_0;
            let choice = choices[0]->Object_0;
            let delta = choice[1].1->Object_0;
            &&& chunk_tree(id, created, model, text) is Object
            &&& body.len() == 5
            &&& body[0] == ("id"@, Tree::Text(id))
            &&& body[1] == ("object"@, Tree::Text("chat.completion.chunk"@))
            &&& body[2] == ("created"@, Tree::Number(created))
            &&& body[3] == ("model"@, Tree::Text(model))
            &&& body[4].0 == "choices"@ && body[4].1 is List && choices.len() == 1
            &&& choices[0] is Object && choice.len() == 3
            &&& choice[0] == ("index"@, Tree::Number(0))
            &&& choice[1].0 == "delta"@ && choice[1].1 is Object && delta.len() == 1
            &&& delta[0] == ("content"@, Tree::Text(text))
            &&& choice[2] == ("finish_reason"@, Tree::Null)
        }),
{
}

/// So does the list of models.
pub proof fn lists_of_models_say_what_they_are_given(model: Seq<char>, created: u64)
    ensures
        ({
            let body = models_tree(model, created)->Object_0;
            let data = body[1].1->List_0;
            let entry = data[0]->Object_0;
            &&& models_tree(model, created) is Object
            &&& body.len() == 2
            &&& body[0] == ("object"@, Tree::Text("list"@))
            &&& body[1].0 == "data"@ && body[1].1 is List && data.len() == 1
            &&& data[0] is Object && entry.len() == 4
            &&& entry[0] == ("id"@, Tree::Text(model))
            &&& entry[1] == ("object"@, Tree::Text("model"@))
            &&& entry[2] == ("created"@, Tree::Number(created))
            &&& entry[3] == ("owned_by"@, Tree::Text("freetoken-rs"@))
        }),
{
}

/// A value of a reply says what it holds.
pub proof fn values_say_what_they_hold(
    n: u64,
    s: String,
    items: Vec<Json>,
    fields: Vec<(String, Json)>,
    i: int,
)
    ensures
        Json::Null.tree() == Tree::Null,
        Json::Number(n).tree() == Tree::Number(n),
        Json::Text(s).tree() == Tree::Text(s@),
        ({
            let list = Json::List(items).tree();
            &&& list is List
            &&& list->List_0.len() == items@.len()
            &&& 0 <= i < items@.len() ==> list->List_0[i] == items@[i].tree()
        }),
        ({
            let object = Json::Object(fields).tree();
            &&& object is Object
            &&& object->Object_0.len() == fields@.len()
            &&& 0 <= i < fields@.len() ==> object->Object_0[i] == (
                fields@[i].0@,
                fields@[i].1.tree(),
            )
        }),
{
}

} // verus!
