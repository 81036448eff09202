//! Token-bounded chunking of a document.
//!
//! The whole document is encoded once with the cl100k vocabulary; the token
//! stream is cut into consecutive windows of at most `max_tokens` tokens (the
//! last one may be shorter) and each window is decoded on its own. Windows are
//! chosen on the token stream only, never by re-splitting decoded text.

use vstd::prelude::*;
use vstd::utf8::{encode_utf8, is_ascii_chars, is_leading_byte_width_1, valid_utf8};
use tiktoken_rs::CoreBPE;
use crate::error::PipelineError;
use crate::text::{chars_of, is_white_space, white_space};

verus! {

#[verifier::external_type_specification]
#[verifier::external_body]
pub struct ExCoreBPE(tiktoken_rs::CoreBPE);

/// The cl100k token stream of a text, as `encode_ordinary` produces it.
pub uninterp spec fn cl100k_tokens(text: Seq<char>) -> Seq<usize>;

/// The bytes that one cl100k token stands for.
pub uninterp spec fn cl100k_token_bytes(token: usize) -> Seq<u8>;

/// The token belongs to the cl100k vocabulary of ordinary tokens.
pub uninterp spec fn cl100k_known(token: usize) -> bool;

/// The bytes a token stream stands for: those of each token, in order.
pub open spec fn stream_bytes(tokens: Seq<usize>) -> Seq<u8>
    decreases tokens.len(),
{
    if tokens.len() == 0 {
        Seq::empty()
    } else {
        cl100k_token_bytes(tokens[0]) + stream_bytes(tokens.drop_first())
    }
}

/// The longest run of characters of one kind (all white space, or none of
/// them white space) that the tokenizer is given. The cl100k pattern holds a
/// lookahead, so fancy-regex runs the whole pattern in its backtracking VM,
/// where each repetition (`\s+`, `\p{L}+`, `[^\s\p{L}\p{N}]+`, ...) keeps one
/// stack entry per character it takes; the VM fails, and the tokenizer
/// panics, once that stack holds 1,000,000 entries. Every repetition of the
/// pattern stays inside one such run, so runs are kept well under that.
pub const MAX_RUN: usize = 500000;

/// `s[i .. i + limit]` holds both a white-space character and one that is
/// not white space.
pub open spec fn mixed_within(s: Seq<char>, i: int, limit: nat) -> bool {
    &&& exists|k: int| i <= k < i + limit && is_white_space(#[trigger] s[k])
    &&& exists|k: int| i <= k < i + limit && !is_white_space(#[trigger] s[k])
}

/// Every `limit` consecutive characters of `s` hold both white space and
/// something else: no run of one kind is `limit` long.
pub open spec fn runs_below(s: Seq<char>, limit: nat) -> bool {
    forall|i: int| 0 <= i && i + limit <= s.len() ==> #[trigger] mixed_within(s, i, limit)
}

/// The tokenizer can take `text`: it has no run of [`MAX_RUN`] characters
/// that are all white space or all not white space.
pub open spec fn tokenizable(text: Seq<char>) -> bool {
    runs_below(text, MAX_RUN as nat)
}

/// Whether the tokenizer can take `text` (see [`tokenizable`]).
pub fn fits_tokenizer(text: &str) -> (r: bool)
    ensures
        r == tokenizable(text@),
{
    let v = chars_of(text);
    let n = v.len();
    let ghost lim = MAX_RUN as int;
    let mut run: usize = 0;
    let mut last_ws: bool = false;
    let mut i: usize = 0;
    while i < n
        invariant
            n == v@.len(),
            v@ == text@,
            lim == MAX_RUN,
            i <= n,
            run <= i,
            run < MAX_RUN,
            i > 0 ==> run >= 1,
            i > 0 ==> last_ws == is_white_space(v@[i - 1]),
            forall|k: int| i - run <= k < i ==> is_white_space(#[trigger] v@[k]) == last_ws,
            i - run > 0 ==> is_white_space(v@[i - run - 1]) != last_ws,
            forall|j: int| 0 <= j && j + lim <= i ==> #[trigger] mixed_within(v@, j, MAX_RUN as nat),
        decreases n - i,
    {
        let w = white_space(v[i]);
        if i > 0 && w == last_ws {
            run = run + 1;
            if run >= MAX_RUN {
                proof {
                    let j = i + 1 - lim;
                    assert(0 <= j);
                    if last_ws {
                        assert forall|k: int| j <= k < j + lim implies is_white_space(v@[k]) by {}
                    } else {
                        assert forall|k: int| j <= k < j + lim implies !is_white_space(v@[k]) by {}
                    }
                    assert(!mixed_within(v@, j, MAX_RUN as nat));
                    assert(!runs_below(text@, MAX_RUN as nat));
                }
                return false;
            }
            proof {
                assert forall|j: int| 0 <= j && j + lim <= i + 1 implies #[trigger] mixed_within(
                    v@,
                    j,
                    MAX_RUN as nat,
                ) by {
                    if j + lim == i + 1 {
                        let p = i - run;
                        assert(is_white_space(v@[p]) != is_white_space(v@[i as int]));
                    }
                }
            }
        } else {
            proof {
                assert forall|j: int| 0 <= j && j + lim <= i + 1 implies #[trigger] mixed_within(
                    v@,
                    j,
                    MAX_RUN as nat,
                ) by {
                    if j + lim == i + 1 {
                        assert(is_white_space(v@[i - 1]) != is_white_space(v@[i as int]));
                    }
                }
            }
            run = 1;
            last_ws = w;
        }
        i = i + 1;
    }
    true
}

/// Relies on tiktoken_rs::cl100k_base, which builds the cl100k tokenizer from
/// the vocabulary embedded in the crate.
#[verifier::external_body]
fn load_cl100k() -> (r: Option<CoreBPE>) {
    tiktoken_rs::cl100k_base().ok()
}

/// Relies on CoreBPE::encode_ordinary with the cl100k vocabulary: the result
/// depends on the text alone and every token comes from the vocabulary. The
/// encoding is lossless: the pieces that the cl100k pattern finds cover the
/// text, and byte-pair merging cuts each piece into vocabulary entries, so the
/// tokens' bytes, in order, are the text's UTF-8 bytes; an empty text has no
/// pieces and no tokens. It unwraps each match of the pattern, which fails on
/// a run of one kind of character too long for fancy-regex's stack (see
/// [`MAX_RUN`]), hence the `requires`.
#[verifier::external_body]
fn encode_ordinary(bpe: &CoreBPE, text: &str) -> (r: Vec<usize>)
    requires
        tokenizable(text@),
    ensures
        text@.len() == 0 ==> r@.len() == 0,
        r@ == cl100k_tokens(text@),
        forall|i: int| 0 <= i < r@.len() ==> cl100k_known(#[trigger] r@[i]),
        stream_bytes(r@) == encode_utf8(text@),
{
    bpe.encode_ordinary(text)
}

/// Relies on CoreBPE::decode with the cl100k vocabulary: it joins the bytes of
/// the tokens and succeeds exactly when they are valid UTF-8. It looks each
/// token up and panics on one outside the vocabulary, hence the `requires`.
#[verifier::external_body]
fn decode(bpe: &CoreBPE, tokens: Vec<usize>) -> (r: Option<String>)
    requires
        forall|i: int| 0 <= i < tokens@.len() ==> cl100k_known(#[trigger] tokens@[i]),
    ensures
        r is Some <==> valid_utf8(stream_bytes(tokens@)),
        r matches Some(s) ==> encode_utf8(s@) == stream_bytes(tokens@),
        r matches Some(s) ==> (tokens@.len() == 1 ==> encode_utf8(s@) == cl100k_token_bytes(
            tokens@[0],
        )),
{
    bpe.decode(tokens).ok()
}

/// Consecutive, non-overlapping windows of at most `n` tokens covering
/// `tokens`; only the last one may be shorter than `n`.
pub open spec fn windows(tokens: Seq<usize>, n: nat) -> Seq<Seq<usize>>
    decreases tokens.len(),
{
    if tokens.len() == 0 || n == 0 {
        Seq::empty()
    } else if tokens.len() <= n {
        seq![tokens]
    } else {
        seq![tokens.subrange(0, n as int)] + windows(tokens.subrange(n as int, tokens.len() as int), n)
    }
}

/// The concatenation of a sequence of sequences.
pub open spec fn flatten<T>(parts: Seq<Seq<T>>) -> Seq<T>
    decreases parts.len(),
{
    if parts.len() == 0 {
        Seq::empty()
    } else {
        parts[0] + flatten(parts.drop_first())
    }
}

/// Every window decodes to valid UTF-8.
pub open spec fn all_decodable(ws: Seq<Seq<usize>>) -> bool {
    forall|i: int| 0 <= i < ws.len() ==> valid_utf8(stream_bytes(#[trigger] ws[i]))
}

/// `chunks` is a decoding of the windows `ws`: one text per window whose
/// UTF-8 bytes are the window's bytes.
pub open spec fn decodes_windows(chunks: Seq<Seq<char>>, ws: Seq<Seq<usize>>) -> bool {
    &&& chunks.len() == ws.len()
    &&& forall|i: int| 0 <= i < ws.len() ==> encode_utf8(#[trigger] chunks[i]) == stream_bytes(ws[i])
}

proof fn lemma_windows_flatten(tokens: Seq<usize>, n: nat)
    requires
        n > 0,
    ensures
        flatten(windows(tokens, n)) == tokens,
    decreases tokens.len(),
{
    if tokens.len() == 0 {
    } else if tokens.len() <= n {
        let ws = seq![tokens];
        assert(ws.drop_first() =~= Seq::<Seq<usize>>::empty());
        assert(flatten(ws) =~= tokens + flatten(ws.drop_first()));
        assert(flatten(windows(tokens, n)) =~= tokens);
    } else {
        let rest = tokens.subrange(n as int, tokens.len() as int);
        lemma_windows_flatten(rest, n);
        let ws = windows(tokens, n);
        assert(ws.drop_first() =~= windows(rest, n));
        assert(tokens =~= tokens.subrange(0, n as int) + rest);
    }
}

proof fn lemma_stream_bytes_append(a: Seq<usize>, b: Seq<usize>)
    ensures
        stream_bytes(a + b) == stream_bytes(a) + stream_bytes(b),
    decreases a.len(),
{
    if a.len() == 0 {
        assert(a + b =~= b);
        assert(stream_bytes(a) + stream_bytes(b) =~= stream_bytes(b));
    } else {
        lemma_stream_bytes_append(a.drop_first(), b);
        assert((a + b).drop_first() =~= a.drop_first() + b);
        assert(stream_bytes(a + b) =~= stream_bytes(a) + stream_bytes(b));
    }
}

proof fn lemma_encode_utf8_append(a: Seq<char>, b: Seq<char>)
    ensures
        encode_utf8(a + b) == encode_utf8(a) + encode_utf8(b),
    decreases a.len(),
{
    if a.len() == 0 {
        assert(a + b =~= b);
        assert(encode_utf8(a) + encode_utf8(b) =~= encode_utf8(b));
    } else {
        lemma_encode_utf8_append(a.drop_first(), b);
        assert((a + b).drop_first() =~= a.drop_first() + b);
        assert(encode_utf8(a + b) =~= encode_utf8(a) + encode_utf8(b));
    }
}

/// Chunks that decode the windows of a token stream, joined in order, are
/// exactly the text whose UTF-8 bytes the whole stream stands for: cutting
/// the stream into windows loses and duplicates no token.
pub proof fn lemma_chunks_rejoin(tokens: Seq<usize>, max_tokens: nat, chunks: Seq<Seq<char>>)
    requires
        max_tokens > 0,
        decodes_windows(chunks, windows(tokens, max_tokens)),
    ensures
        encode_utf8(flatten(chunks)) == stream_bytes(tokens),
{
    lemma_decoded_parts(chunks, windows(tokens, max_tokens));
    lemma_windows_flatten(tokens, max_tokens);
}

proof fn lemma_decoded_parts(chunks: Seq<Seq<char>>, ws: Seq<Seq<usize>>)
    requires
        decodes_windows(chunks, ws),
    ensures
        encode_utf8(flatten(chunks)) == stream_bytes(flatten(ws)),
    decreases ws.len(),
{
    if ws.len() > 0 {
        lemma_decoded_parts(chunks.drop_first(), ws.drop_first());
        lemma_encode_utf8_append(chunks[0], flatten(chunks.drop_first()));
        lemma_stream_bytes_append(ws[0], flatten(ws.drop_first()));
    }
}

/// Every byte of `b` is an ASCII byte.
pub open spec fn ascii_bytes(b: Seq<u8>) -> bool {
    forall|i: int| 0 <= i < b.len() ==> is_leading_byte_width_1(#[trigger] b[i])
}

proof fn lemma_ascii_bytes_valid(b: Seq<u8>)
    requires
        ascii_bytes(b),
    ensures
        valid_utf8(b),
{
    assert(b.subrange(0, 0) =~= Seq::<u8>::empty());
    assert(valid_utf8(Seq::<u8>::empty()));
    vstd::utf8::partial_valid_utf8_extend_ascii_block(b, 0, b.len() as int);
    assert(b.subrange(0, b.len() as int) =~= b);
}

/// When a token stream stands for ASCII bytes, every window of it decodes:
/// no window ends inside a multi-byte character.
pub proof fn lemma_ascii_windows_decodable(tokens: Seq<usize>, max_tokens: nat)
    requires
        max_tokens > 0,
        ascii_bytes(stream_bytes(tokens)),
    ensures
        all_decodable(windows(tokens, max_tokens)),
    decreases tokens.len(),
{
    let ws = windows(tokens, max_tokens);
    if tokens.len() == 0 {
    } else if tokens.len() <= max_tokens {
        lemma_ascii_bytes_valid(stream_bytes(tokens));
        assert(ws[0] == tokens);
    } else {
        let a = tokens.subrange(0, max_tokens as int);
        let b = tokens.subrange(max_tokens as int, tokens.len() as int);
        assert(tokens =~= a + b);
        lemma_stream_bytes_append(a, b);
        let (ba, bb) = (stream_bytes(a), stream_bytes(b));
        assert forall|i: int| 0 <= i < ba.len() implies is_leading_byte_width_1(#[trigger] ba[i]) by {
            assert(stream_bytes(tokens)[i] == ba[i]);
        }
        assert forall|i: int| 0 <= i < bb.len() implies is_leading_byte_width_1(#[trigger] bb[i]) by {
            assert(stream_bytes(tokens)[ba.len() + i] == bb[i]);
        }
        lemma_ascii_bytes_valid(ba);
        lemma_ascii_windows_decodable(b, max_tokens);
        let wb = windows(b, max_tokens);
        assert(ws =~= seq![a] + wb);
        assert forall|i: int| 0 <= i < ws.len() implies valid_utf8(stream_bytes(#[trigger] ws[i])) by {
            if i > 0 {
                assert(ws[i] == wb[i - 1]);
            }
        }
    }
}

proof fn lemma_ascii_text_bytes(text: Seq<char>)
    requires
        is_ascii_chars(text),
    ensures
        ascii_bytes(encode_utf8(text)),
{
    vstd::utf8::is_ascii_chars_encode_utf8(text);
    let b = encode_utf8(text);
    assert forall|i: int| 0 <= i < b.len() implies is_leading_byte_width_1(#[trigger] b[i]) by {
        let c = text[i];
        assert('\0' <= c <= '\u{7f}');
        let u = c as u32;
        assert(u <= 0x7f);
        assert(c as u8 == b[i]);
        assert((u as u8) <= 0x7f) by (bit_vector)
            requires
                u <= 0x7f,
        ;
    }
}

/// A cl100k tokenizer.
pub struct Tokenizer {
    bpe: CoreBPE,
}

impl Tokenizer {
    /// The cl100k tokenizer; `None` if its vocabulary could not be loaded.
    pub fn cl100k() -> (r: Option<Tokenizer>) {
        match load_cl100k() {
            Some(bpe) => Some(Tokenizer { bpe }),
            None => None,
        }
    }

    /// The cl100k token stream of `text`.
    pub fn encode(&self, text: &str) -> (r: Vec<usize>)
        requires
            tokenizable(text@),
        ensures
            r@ == cl100k_tokens(text@),
    {
        encode_ordinary(&self.bpe, text)
    }

    /// Splits `document` into chunks of at most `max_tokens` tokens each: the
    /// document is encoded once, the stream cut into [`windows`], and each
    /// window decoded. Fails with `ChunkDecode` exactly when some window's
    /// bytes are not valid UTF-8. An empty document gives no chunks.
    pub fn chunk(&self, document: &str, max_tokens: usize) -> (r: Result<Vec<String>, PipelineError>)
        requires
            max_tokens > 0,
            tokenizable(document@),
        ensures
            document@.len() == 0 ==> (r matches Ok(cs) && cs@.len() == 0),
            is_ascii_chars(document@) ==> r is Ok,
            ({
                let ws = windows(cl100k_tokens(document@), max_tokens as nat);
                match r {
                    Ok(cs) => {
                        &&& all_decodable(ws)
                        &&& decodes_windows(crate::text::views(cs@), ws)
                        &&& flatten(crate::text::views(cs@)) == document@
                        &&& cl100k_tokens(flatten(crate::text::views(cs@))).len()
                            == cl100k_tokens(document@).len()
                    },
                    Err(e) => !all_decodable(ws) && e == PipelineError::ChunkDecode,
                }
            }),
    {
        let tokens = encode_ordinary(&self.bpe, document);
        let n = tokens.len();
        let ghost all = windows(tokens@, max_tokens as nat);
        let mut out: Vec<String> = Vec::new();
        let mut start: usize = 0;
        proof {
            assert(tokens@.subrange(0, n as int) =~= tokens@);
            if is_ascii_chars(document@) {
                lemma_ascii_text_bytes(document@);
                lemma_ascii_windows_decodable(tokens@, max_tokens as nat);
            }
        }
        while start < n
            invariant
                n == tokens@.len(),
                tokens@ == cl100k_tokens(document@),
                document@.len() == 0 ==> n == 0,
                is_ascii_chars(document@) ==> all_decodable(all),
                start <= n,
                max_tokens > 0,
                all == windows(tokens@, max_tokens as nat),
                forall|i: int| 0 <= i < n ==> cl100k_known(#[trigger] tokens@[i]),
                out@.len() + windows(tokens@.subrange(start as int, n as int), max_tokens as nat).len()
                    == all.len(),
                windows(tokens@.subrange(start as int, n as int), max_tokens as nat) =~= all.subrange(
                    out@.len() as int,
                    all.len() as int,
                ),
                decodes_windows(crate::text::views(out@), all.subrange(0, out@.len() as int)),
                all_decodable(all.subrange(0, out@.len() as int)),
            decreases n - start,
        {
            let end: usize = if n - start <= max_tokens {
                n
            } else {
                start + max_tokens
            };
            let mut window: Vec<usize> = Vec::new();
            let mut k: usize = start;
            while k < end
                invariant
                    start <= k <= end <= n,
                    n == tokens@.len(),
                    window@ == tokens@.subrange(start as int, k as int),
                decreases end - k,
            {
                window.push(tokens[k]);
                k = k + 1;
                assert(window@ =~= tokens@.subrange(start as int, k as int));
            }
            let ghost rest = tokens@.subrange(start as int, n as int);
            let ghost next = tokens@.subrange(end as int, n as int);
            proof {
                assert(window@ =~= rest.subrange(0, (end - start) as int));
                assert(next =~= rest.subrange((end - start) as int, rest.len() as int));
                assert(windows(rest, max_tokens as nat)[0] == window@);
                assert(windows(rest, max_tokens as nat) =~= seq![window@] + windows(next, max_tokens as nat));
                let wr = windows(rest, max_tokens as nat);
                assert(wr == all.subrange(out@.len() as int, all.len() as int));
                assert(wr.len() >= 1);
                assert(windows(next, max_tokens as nat) =~= wr.subrange(1, wr.len() as int));
                assert(windows(next, max_tokens as nat) =~= all.subrange(out@.len() as int + 1, all.len() as int));
                assert(all[out@.len() as int] == window@);
            }
            let ghost w = window@;
            match decode(&self.bpe, window) {
                Some(text) => {
                    let ghost before = out@;
                    out.push(text);
                    proof {
                        assert(crate::text::views(out@) =~= crate::text::views(before).push(text@));
                        assert(all.subrange(0, out@.len() as int) =~= all.subrange(0, before.len() as int).push(all[before.len() as int]));
                    }
                },
                None => {
                    proof {
                        assert(!valid_utf8(stream_bytes(w)));
                        assert(!valid_utf8(stream_bytes(all[out@.len() as int])));
                        assert(!all_decodable(all));
                    }
                    return Err(PipelineError::ChunkDecode);
                },
            }
            start = end;
        }
        proof {
            assert(all.subrange(0, out@.len() as int) =~= all);
            let joined = flatten(crate::text::views(out@));
            lemma_chunks_rejoin(tokens@, max_tokens as nat, crate::text::views(out@));
            vstd::utf8::encode_utf8_decode_utf8(joined);
            vstd::utf8::encode_utf8_decode_utf8(document@);
        }
        Ok(out)
    }
}

} // verus!
