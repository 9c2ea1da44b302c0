use vstd::prelude::*;

verus! {

/// One message of a conversation: who speaks, and what is said.
pub struct Message {
    pub role: String,
    pub content: String,
}

/// The arguments of a chat completion request.
///
/// Generation parameters that are `None` are left out of the request body.
pub struct ChatArguments {
    pub model: String,
    pub messages: Vec<Message>,
    pub max_tokens: Option<u32>,
    pub n: Option<u32>,
    pub stream: Option<bool>,
    pub user: Option<String>,
}

impl ChatArguments {
    /// Arguments for `model` over `messages`, with every optional parameter left out.
    pub fn new(model: &str, messages: Vec<Message>) -> (r: ChatArguments)
        ensures
            r.model@ == model@,
            r.messages@ == messages@,
            r.max_tokens is None,
            r.n is None,
            r.stream is None,
            r.user is None,
    {
        ChatArguments {
            model: model.to_owned(),
            messages,
            max_tokens: None,
            n: None,
            stream: None,
            user: None,
        }
    }

    /// The same arguments with the streaming flag set, whatever it was before.
    pub fn into_streaming(self) -> (r: ChatArguments)
        ensures
            r.stream == Some(true),
            r.model == self.model,
            r.messages == self.messages,
            r.max_tokens == self.max_tokens,
            r.n == self.n,
            r.user == self.user,
    {
        let mut args = self;
        args.stream = Some(true);
        args
    }
}

/// The text of an optional string, as a sequence of characters.
pub open spec fn opt_text(o: Option<String>) -> Option<Seq<char>> {
    match o {
        Some(s) => Some(s@),
        None => None,
    }
}

/// The texts of a sequence of optional strings.
pub open spec fn opt_texts(v: Seq<Option<String>>) -> Seq<Option<Seq<char>>> {
    v.map_values(|o: Option<String>| opt_text(o))
}

/// One choice of a streamed chunk: the content fragment that its delta carries, if any.
pub struct ChunkChoice {
    pub content: Option<String>,
}

/// One decoded record of a streamed chat completion.
pub struct ChatCompletionChunk {
    pub choices: Vec<ChunkChoice>,
}

impl View for ChatCompletionChunk {
    type V = Seq<Option<Seq<char>>>;

    /// The content fragments of the choices, in order.
    open spec fn view(&self) -> Seq<Option<Seq<char>>> {
        self.choices@.map_values(|c: ChunkChoice| opt_text(c.content))
    }
}

impl ChatCompletionChunk {
    /// A chunk whose choices carry the given content fragments, in order.
    pub fn from_contents(contents: Vec<Option<String>>) -> (r: ChatCompletionChunk)
        ensures
            r@ == opt_texts(contents@),
    {
        let mut choices: Vec<ChunkChoice> = Vec::new();
        let mut rest = contents;
        while rest.len() > 0
            invariant
                opt_texts(contents@) == choices@.map_values(|c: ChunkChoice| opt_text(c.content))
                    + opt_texts(rest@),
            decreases rest.len(),
        {
            let c = rest.remove(0);
            choices.push(ChunkChoice { content: c });
        }
        ChatCompletionChunk { choices }
    }
}

} // verus!
