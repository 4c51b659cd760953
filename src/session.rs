//! The decisions of the token generation loop: which tokens feed each step,
//! which tokens the repeat penalty looks at, how the position cursor moves,
//! and when a turn ends. Tokenizing, the forward pass and sampling are done
//! by the caller, which hands the results back.
use vstd::prelude::*;
use crate::names::{placeholder, token_placeholder};

verus! {

/// Whether this process drives generation or serves layers.
#[derive(PartialEq, Eq, Structural, Debug, Clone, Copy)]
pub enum Mode {
    Master,
    Worker,
}

impl Default for Mode {
    fn default() -> (r: Mode)
        ensures
            r == Mode::Master,
    {
        Mode::Master
    }
}

/// A generated token.
pub struct Token {
    /// Numerical identifier.
    pub id: u32,
    /// Its text, or `None` if the tokenizer has none for it.
    pub text: Option<String>,
    /// Set when the token ends the stream.
    pub is_end_of_stream: bool,
}

/// The text shown for a token: its text, or `<token <id>>`.
pub open spec fn token_text(t: Token) -> Seq<char> {
    match t.text {
        Some(s) => s@,
        None => token_placeholder(t.id as nat),
    }
}

impl Token {
    /// The text shown for this token.
    pub fn to_text(&self) -> (r: String)
        ensures
            r@ == token_text(*self),
    {
        match &self.text {
            Some(s) => s.clone(),
            None => placeholder(self.id),
        }
    }
}

/// The tokens fed to one forward pass and the absolute position of the first.
pub struct StepInput {
    pub tokens: Vec<u32>,
    pub index_pos: usize,
}

/// The state of one dialog turn.
pub struct Session {
    /// Prompt tokens, then every generated token, in order.
    pub tokens: Vec<u32>,
    /// Absolute position of the next token to feed.
    pub index_pos: usize,
    /// How many tokens this turn has generated.
    pub generated: usize,
    /// Whether the attention cache keeps keys and values between steps.
    pub use_kv_cache: bool,
    /// The end-of-sequence id, if the model has one.
    pub eos_token_id: Option<u32>,
    /// How many trailing tokens the repeat penalty looks at.
    pub repeat_last_n: usize,
}

/// How many tokens step `index` feeds, for a session holding `n` tokens.
pub open spec fn context_len(use_kv_cache: bool, index: nat, n: nat) -> nat {
    if use_kv_cache && index > 0 {
        if n >= 1 { 1 } else { 0 }
    } else {
        n
    }
}

impl Session {
    /// An idle session.
    pub fn new(use_kv_cache: bool, eos_token_id: Option<u32>, repeat_last_n: usize) -> (r: Session)
        ensures
            r.tokens@.len() == 0,
            r.index_pos == 0,
            r.generated == 0,
            r.use_kv_cache == use_kv_cache,
            r.eos_token_id == eos_token_id,
            r.repeat_last_n == repeat_last_n,
    {
        Session { tokens: Vec::new(), index_pos: 0, generated: 0, use_kv_cache, eos_token_id, repeat_last_n }
    }

    /// Clears the turn: no tokens, cursor and counter at zero.
    pub fn reset(&mut self)
        ensures
            final(self).tokens@.len() == 0,
            final(self).index_pos == 0,
            final(self).generated == 0,
            final(self).use_kv_cache == old(self).use_kv_cache,
            final(self).eos_token_id == old(self).eos_token_id,
            final(self).repeat_last_n == old(self).repeat_last_n,
    {
        self.tokens = Vec::new();
        self.index_pos = 0;
        self.generated = 0;
    }

    /// Whether the next step is the first of the turn, which must first load
    /// the prompt.
    pub fn needs_prefill(&self) -> (r: bool)
        ensures
            r == (self.generated == 0),
    {
        self.generated == 0
    }

    /// Starts the turn on the tokens of the rendered prompt.
    pub fn start_prompt(&mut self, prompt: Vec<u32>)
        ensures
            final(self).tokens@ == prompt@,
            final(self).index_pos == 0,
            final(self).generated == old(self).generated,
            final(self).use_kv_cache == old(self).use_kv_cache,
            final(self).eos_token_id == old(self).eos_token_id,
            final(self).repeat_last_n == old(self).repeat_last_n,
    {
        self.tokens = prompt;
        self.index_pos = 0;
    }

    /// The input of step `index`: with caching on and past the first step,
    /// the last token at the cursor; otherwise every token, from position 0.
    pub fn context(&self, index: usize) -> (r: StepInput)
        ensures
            ({
                let n = self.tokens@.len();
                let c = context_len(self.use_kv_cache, index as nat, n);
                &&& r.tokens@ == self.tokens@.subrange(n - c, n as int)
                &&& r.index_pos == if self.use_kv_cache && index > 0 { self.index_pos } else { 0 }
            }),
    {
        let n = self.tokens.len();
        let (size, pos) = if self.use_kv_cache && index > 0 {
            (1usize, self.index_pos)
        } else {
            (n, 0usize)
        };
        let offset = n.saturating_sub(size);
        let mut out: Vec<u32> = Vec::new();
        let mut i: usize = offset;
        while i < n
            invariant
                offset <= i <= n,
                n == self.tokens@.len(),
                out@ == self.tokens@.subrange(offset as int, i as int),
            decreases n - i,
        {
            out.push(self.tokens[i]);
            i = i + 1;
            assert(out@ =~= self.tokens@.subrange(offset as int, i as int));
        }
        StepInput { tokens: out, index_pos: pos }
    }

    /// The trailing tokens that the repeat penalty looks at: the last
    /// `repeat_last_n`, or all when there are fewer.
    pub fn penalty_context(&self) -> (r: Vec<u32>)
        ensures
            ({
                let n = self.tokens@.len();
                let s = if n > self.repeat_last_n { n - self.repeat_last_n } else { 0 };
                r@ == self.tokens@.subrange(s as int, n as int)
            }),
    {
        let n = self.tokens.len();
        let start = n.saturating_sub(self.repeat_last_n);
        let mut out: Vec<u32> = Vec::new();
        let mut i: usize = start;
        while i < n
            invariant
                start <= i <= n,
                n == self.tokens@.len(),
                out@ == self.tokens@.subrange(start as int, i as int),
            decreases n - i,
        {
            out.push(self.tokens[i]);
            i = i + 1;
            assert(out@ =~= self.tokens@.subrange(start as int, i as int));
        }
        out
    }

    /// Whether step `index` can be accepted without a counter overflowing.
    pub open spec fn can_accept(&self, index: usize) -> bool {
        &&& self.index_pos + context_len(self.use_kv_cache, index as nat, self.tokens@.len()) <= usize::MAX
        &&& self.generated < usize::MAX
    }

    /// Takes in the token `sampled` at the end of step `index`, with its text:
    /// the cursor moves past the tokens the step fed, the counter grows by
    /// one, the token is appended. The token ends the stream iff it is the
    /// end-of-sequence id.
    pub fn accept(&mut self, index: usize, sampled: u32, text: Option<String>) -> (r: Token)
        requires
            old(self).can_accept(index),
        ensures
            final(self).index_pos == old(self).index_pos + context_len(
                old(self).use_kv_cache,
                index as nat,
                old(self).tokens@.len(),
            ),
            final(self).generated == old(self).generated + 1,
            final(self).tokens@ == old(self).tokens@.push(sampled),
            final(self).use_kv_cache == old(self).use_kv_cache,
            final(self).eos_token_id == old(self).eos_token_id,
            final(self).repeat_last_n == old(self).repeat_last_n,
            r.id == sampled,
            r.text == text,
            r.is_end_of_stream == (old(self).eos_token_id == Some(sampled)),
    {
        let n = self.tokens.len();
        let consumed: usize = if self.use_kv_cache && index > 0 {
            if n >= 1 { 1 } else { 0 }
        } else {
            n
        };
        self.index_pos = self.index_pos + consumed;
        self.generated = self.generated + 1;
        self.tokens.push(sampled);
        let is_end_of_stream = match self.eos_token_id {
            Some(e) => e == sampled,
            None => false,
        };
        Token { id: sampled, text, is_end_of_stream }
    }

    /// The number of tokens generated this turn.
    pub fn generated_tokens(&self) -> (r: usize)
        ensures
            r == self.generated,
    {
        self.generated
    }
}

/// What the generation loop does with a newly accepted token.
pub enum TurnAction {
    /// Stream `text` and run another step.
    Emit { text: String },
    /// Stream `text`; the sample-length cap is reached, so the turn ends.
    EmitLast { text: String },
    /// The token is the end-of-sequence id: stream nothing more; the turn ends.
    Finish,
}

/// The action for `token`, the `count`-th token generated this turn, with a
/// cap of `sample_len` tokens. The turn ends at the first end-of-sequence id
/// or at the cap, whichever comes first; the end-of-sequence token itself is
/// never streamed.
pub fn token_action(token: &Token, count: usize, sample_len: usize) -> (r: TurnAction)
    ensures
        token.is_end_of_stream ==> r is Finish,
        !token.is_end_of_stream && count >= sample_len ==> r is EmitLast && r->EmitLast_text@
            == token_text(*token),
        !token.is_end_of_stream && count < sample_len ==> r is Emit && r->Emit_text@ == token_text(
            *token,
        ),
{
    if token.is_end_of_stream {
        TurnAction::Finish
    } else if count >= sample_len {
        TurnAction::EmitLast { text: token.to_text() }
    } else {
        TurnAction::Emit { text: token.to_text() }
    }
}

/// The sampling strategy; the temperature and nucleus cutoff that go with
/// it stay with the caller.
#[derive(PartialEq, Eq, Structural, Debug, Clone, Copy)]
pub enum SamplingKind {
    /// Always the most likely token.
    ArgMax,
    /// From the whole tempered distribution.
    All,
    /// From the `k` most likely tokens.
    TopK { k: usize },
    /// From the smallest set whose probability reaches the cutoff.
    TopP,
    /// From the `k` most likely, then by the cutoff.
    TopKThenTopP { k: usize },
}

/// The strategy for the given settings: greedy when the temperature is not
/// positive, else by which of `top_k` and a nucleus cutoff are set.
pub fn choose_sampling(temperature_positive: bool, top_k: Option<usize>, has_top_p: bool) -> (r: SamplingKind)
    ensures
        !temperature_positive ==> r == SamplingKind::ArgMax,
        temperature_positive && top_k is None && !has_top_p ==> r == SamplingKind::All,
        temperature_positive && top_k is Some && !has_top_p ==> r == (SamplingKind::TopK { k: top_k->0 }),
        temperature_positive && top_k is None && has_top_p ==> r == SamplingKind::TopP,
        temperature_positive && top_k is Some && has_top_p ==> r == (SamplingKind::TopKThenTopP { k: top_k->0 }),
{
    if !temperature_positive {
        SamplingKind::ArgMax
    } else {
        match (top_k, has_top_p) {
            (None, false) => SamplingKind::All,
            (Some(k), false) => SamplingKind::TopK { k },
            (None, true) => SamplingKind::TopP,
            (Some(k), true) => SamplingKind::TopKThenTopP { k },
        }
    }
}

} // verus!
