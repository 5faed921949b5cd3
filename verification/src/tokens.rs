//! Token counters used by `sigil benchmark`.
//!
//! The default is the `bytes / 4` proxy: stable, infallible and free of any
//! vocabulary. The BPE variants count with `tiktoken-rs` (`cl100k_base`,
//! `o200k_base`, `p50k_base`).

use vstd::prelude::*;
use crate::text::{chars_vec, eq_lit};

verus! {

broadcast use vstd::string::group_string_axioms;

/// Which token counter to use.
#[derive(Debug, Clone, Copy, PartialEq, Eq, Structural)]
pub enum Tokenizer {
    /// `bytes / 4` heuristic. Always available.
    Proxy,
    /// OpenAI cl100k_base (GPT-3.5, GPT-4, GPT-4-turbo).
    Cl100k,
    /// OpenAI o200k_base (GPT-4o, o3).
    O200k,
    /// OpenAI p50k_base (legacy GPT-3.5 / codex).
    P50k,
}

impl Default for Tokenizer {
    fn default() -> (r: Self)
        ensures
            r == Tokenizer::Proxy,
    {
        Tokenizer::Proxy
    }
}

/// A BPE tokenizer could not encode the text; the proxy never fails.
#[derive(Debug, Clone, Copy, PartialEq, Eq, Structural)]
pub struct CountError {
    pub tokenizer: Tokenizer,
}

/// ASCII lower-casing of one character; everything else is kept.
pub open spec fn ascii_lower(c: char) -> char {
    if 'A' <= c && c <= 'Z' {
        ((c as u32) + 32) as char
    } else {
        c
    }
}

/// ASCII lower-casing of a whole text.
pub open spec fn ascii_lowered(s: Seq<char>) -> Seq<char> {
    s.map_values(|c: char| ascii_lower(c))
}

/// The tokenizer a (lower-cased) flag value names, if any.
pub open spec fn tokenizer_named(name: Seq<char>) -> Option<Tokenizer> {
    if name.len() == 0 || name == "proxy"@ || name == "bytes"@ {
        Some(Tokenizer::Proxy)
    } else if name == "cl100k_base"@ || name == "cl100k"@ {
        Some(Tokenizer::Cl100k)
    } else if name == "o200k_base"@ || name == "o200k"@ {
        Some(Tokenizer::O200k)
    } else if name == "p50k_base"@ || name == "p50k"@ {
        Some(Tokenizer::P50k)
    } else {
        None
    }
}

/// The proxy estimate for a text of `byte_len` UTF-8 bytes: one token per
/// started group of four bytes.
pub open spec fn proxy_estimate(byte_len: nat) -> nat {
    (byte_len + 3) / 4
}

/// What `cl100k_base` encodes `text` to (every special token allowed):
/// `Some` of its number of tokens, `None` when the split pattern reports
/// an error on the text.
pub uninterp spec fn cl100k_token_count(text: Seq<char>) -> Option<nat>;

/// What `o200k_base` encodes `text` to, as for `cl100k_token_count`.
pub uninterp spec fn o200k_token_count(text: Seq<char>) -> Option<nat>;

/// What `p50k_base` encodes `text` to, as for `cl100k_token_count`.
pub uninterp spec fn p50k_token_count(text: Seq<char>) -> Option<nat>;

/// The count a tokenizer gives for `text`: the proxy estimate for
/// `Proxy`, else the BPE count, `None` where encoding fails.
pub open spec fn token_count(tok: Tokenizer, text: &str) -> Option<nat> {
    match tok {
        Tokenizer::Proxy => Some(proxy_estimate(text.len() as nat)),
        Tokenizer::Cl100k => cl100k_token_count(text@),
        Tokenizer::O200k => o200k_token_count(text@),
        Tokenizer::P50k => p50k_token_count(text@),
    }
}

/// An optional count as a mathematical one.
pub open spec fn opt_count(r: Option<usize>) -> Option<nat> {
    match r {
        Some(m) => Some(m as nat),
        None => None,
    }
}

fn lower_char(c: char) -> (r: char)
    ensures
        r == ascii_lower(c),
{
    if 'A' <= c && c <= 'Z' {
        let b: u8 = c as u8;
        assert(b == c as u32);
        ((b + 32) as char)
    } else {
        c
    }
}

/// ASCII lower-casing of `v`.
pub fn lower_chars(v: &[char]) -> (r: Vec<char>)
    ensures
        r@ == ascii_lowered(v@),
{
    let mut out: Vec<char> = Vec::new();
    let mut i: usize = 0;
    while i < v.len()
        invariant
            i <= v@.len(),
            out@ == ascii_lowered(v@.take(i as int)),
        decreases v@.len() - i,
    {
        out.push(lower_char(v[i]));
        assert(v@.take(i + 1) == v@.take(i as int).push(v@[i as int]));
        i += 1;
    }
    assert(v@.take(v@.len() as int) == v@);
    out
}

/// The proxy tokenizer: one token per started group of four UTF-8 bytes.
pub fn proxy_count(s: &str) -> (r: usize)
    ensures
        r == proxy_estimate(s.len() as nat),
{
    let n = s.len();
    let q = n / 4;
    if n % 4 == 0 {
        q
    } else {
        q + 1
    }
}

/// `tiktoken-rs`: `cl100k_base_singleton().encode(text, special_tokens())`,
/// the number of tokens. The vocabulary is embedded in the crate, which
/// loads it once (its singleton unwraps the load), and the special-token
/// search cannot fail (its pattern is escaped literals, which
/// `fancy-regex` hands whole to `regex`). Claimed: the result is
/// `cl100k_token_count(text)`, `None` exactly when `encode` returns its
/// error (the split pattern failing on the text).
#[verifier::external_body]
fn cl100k_count(text: &str) -> (r: Option<usize>)
    ensures
        opt_count(r) == cl100k_token_count(text@),
{
    let bpe = tiktoken_rs::cl100k_base_singleton();
    match bpe.encode(text, &bpe.special_tokens()) {
        Ok((tokens, _)) => Some(tokens.len()),
        Err(_) => None,
    }
}

/// `tiktoken-rs`: `o200k_base_singleton().encode(text, special_tokens())`,
/// the number of tokens; as `cl100k_count`, over `o200k_token_count`.
#[verifier::external_body]
fn o200k_count(text: &str) -> (r: Option<usize>)
    ensures
        opt_count(r) == o200k_token_count(text@),
{
    let bpe = tiktoken_rs::o200k_base_singleton();
    match bpe.encode(text, &bpe.special_tokens()) {
        Ok((tokens, _)) => Some(tokens.len()),
        Err(_) => None,
    }
}

/// `tiktoken-rs`: `p50k_base_singleton().encode(text, special_tokens())`,
/// the number of tokens; as `cl100k_count`, over `p50k_token_count`.
#[verifier::external_body]
fn p50k_count(text: &str) -> (r: Option<usize>)
    ensures
        opt_count(r) == p50k_token_count(text@),
{
    let bpe = tiktoken_rs::p50k_base_singleton();
    match bpe.encode(text, &bpe.special_tokens()) {
        Ok((tokens, _)) => Some(tokens.len()),
        Err(_) => None,
    }
}

impl Tokenizer {
    /// Parse a CLI flag value, ASCII case-insensitively. `None` on an
    /// unknown value so the caller can list the valid options.
    pub fn parse(s: &str) -> (r: Option<Tokenizer>)
        ensures
            r == tokenizer_named(ascii_lowered(s@)),
    {
        let low = lower_chars(&chars_vec(s));
        if low.len() == 0 || eq_lit(&low, "proxy") || eq_lit(&low, "bytes") {
            Some(Tokenizer::Proxy)
        } else if eq_lit(&low, "cl100k_base") || eq_lit(&low, "cl100k") {
            Some(Tokenizer::Cl100k)
        } else if eq_lit(&low, "o200k_base") || eq_lit(&low, "o200k") {
            Some(Tokenizer::O200k)
        } else if eq_lit(&low, "p50k_base") || eq_lit(&low, "p50k") {
            Some(Tokenizer::P50k)
        } else {
            None
        }
    }

    /// Human-readable label for benchmark output.
    pub fn label(&self) -> (r: &'static str)
        ensures
            r@ == (match *self {
                Tokenizer::Proxy => "bytes/4 proxy"@,
                Tokenizer::Cl100k => "cl100k_base (GPT-3.5/4)"@,
                Tokenizer::O200k => "o200k_base (GPT-4o/o3)"@,
                Tokenizer::P50k => "p50k_base (legacy)"@,
            }),
    {
        match self {
            Tokenizer::Proxy => "bytes/4 proxy",
            Tokenizer::Cl100k => "cl100k_base (GPT-3.5/4)",
            Tokenizer::O200k => "o200k_base (GPT-4o/o3)",
            Tokenizer::P50k => "p50k_base (legacy)",
        }
    }

    /// Whether `count` uses a BPE vocabulary rather than the proxy.
    pub fn is_accurate(&self) -> (r: bool)
        ensures
            r == (*self != Tokenizer::Proxy),
    {
        match self {
            Tokenizer::Proxy => false,
            _ => true,
        }
    }

    /// Count the tokens of `text`: the proxy estimate, or the BPE count of
    /// the text with every special token allowed. Fails only where the
    /// BPE split pattern reports an error on the text; the proxy never fails.
    pub fn count(&self, text: &str) -> (r: Result<usize, CountError>)
        ensures
            match token_count(*self, text) {
                Some(n) => r matches Ok(m) && m == n,
                None => r == Err::<usize, CountError>(CountError { tokenizer: *self }),
            },
    {
        let counted = match self {
            Tokenizer::Proxy => {
                return Ok(proxy_count(text));
            },
            Tokenizer::Cl100k => cl100k_count(text),
            Tokenizer::O200k => o200k_count(text),
            Tokenizer::P50k => p50k_count(text),
        };
        match counted {
            Some(n) => Ok(n),
            None => Err(CountError { tokenizer: *self }),
        }
    }
}

} // verus!
