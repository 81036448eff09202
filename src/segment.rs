//! Parsing of the segmenter's reply.
//!
//! The language model is asked to answer with the segments of a chunk joined
//! by the sentinel [`SEGMENT_DELIMITER`]. The reply is untrusted text: every
//! field between two delimiters becomes one segment, in reply order, and the
//! parser assumes no minimum or maximum number of fields. A reply without any
//! delimiter is a single segment.
//!
//! Empty fields (from a leading, trailing or doubled delimiter) are kept as
//! empty strings by [`split_reply`]; callers that want them gone use
//! [`drop_empty`].

use vstd::prelude::*;
use crate::error::PipelineError;
use crate::text::{chars_of, string_of, views};

verus! {

/// The sentinel that separates segments in the segmenter's reply.
pub const SEGMENT_DELIMITER: &'static str = "~>_^~";

/// The chat model that segments chunks.
pub const CHAT_MODEL: &'static str = "gpt-3.5-turbo-16k";

/// The bound on the length of the segmenter's reply, in tokens.
pub const MAX_REPLY_TOKENS: u16 = 7000;

/// The system-level directive sent with every segmentation request.
pub const SYSTEM_DIRECTIVE: &'static str = "As a dedicated assistant, your duty is to dissect the provided chapter text into clearer, bite-sized segments. To accomplish this, isolate each sentence and code snippet as independent entities. Remember, your task is not to provide a summary, but to split the original text into a texts sequence more granunlar, respecting the text's hierarchical markings and formatting as they contribute to the understanding of the text. Balance your interpretations with the original structure for an accurate representation. reply in this format: ```<sentence>~>_^~<sentence>~>_^~<sentence>```";

/// The part of the user message that precedes the chunk.
pub const PROMPT_HEAD: &'static str = "You are examining Chapter 1 of a book. Your mission is to dissect the provided information into short, logically divided segments to facilitate further processing afterwards. \n    Please adhere to the following steps:\n    1. Break down dense paragraphs into individual sentences, with each one functioning as a distinct chunk of information. \n    2. Consider code snippets as standalone entities and separate them from the accompanying text, break down long code snippets to chunks of less than 15 lines, please respect the programming language constructs that keep a group of codes together or separate one group of codes from another. \n    3. Take into account the original source's hierarchical markings and formatting specific to a book chapter. These elements can guide the logical segmentation process.\n    Keep in mind, the goal is not to summarize, but to restructure the information into more digestible, manageable units. Now, here is the text from the chapter:";

/// The part of the user message that follows the chunk.
pub const PROMPT_TAIL: &'static str = "\".\n    Please reply in this format:\n```\n<sentence>~>_^~<sentence>~>_^~<sentence>\n```";

/// Whether empty fields of a reply are kept as empty segments or dropped.
#[derive(Debug, Clone, Copy, PartialEq, Eq)]
pub enum EmptySegments {
    Keep,
    Drop,
}

/// The delimiter as a sequence of characters.
pub open spec fn delimiter() -> Seq<char> {
    seq!['~', '>', '_', '^', '~']
}

/// `d` occurs in `s` starting at position `i`.
pub open spec fn occurs_at(s: Seq<char>, d: Seq<char>, i: int) -> bool {
    0 <= i && i + d.len() <= s.len() && s.subrange(i, i + d.len()) == d
}

/// The first position at or after `i` where `d` occurs in `s`, or `s.len()`
/// when there is none.
pub open spec fn first_occurrence_from(s: Seq<char>, d: Seq<char>, i: nat) -> nat
    decreases s.len() - i,
{
    if i >= s.len() || i + d.len() > s.len() {
        s.len()
    } else if occurs_at(s, d, i as int) {
        i
    } else {
        first_occurrence_from(s, d, i + 1)
    }
}

/// The fields of `s` between the leftmost non-overlapping occurrences of a
/// non-empty delimiter `d`, in order.
pub open spec fn split_fields(s: Seq<char>, d: Seq<char>) -> Seq<Seq<char>>
    decreases s.len(),
{
    let k = first_occurrence_from(s, d, 0);
    if d.len() > 0 && k + d.len() <= s.len() {
        seq![s.subrange(0, k as int)] + split_fields(s.subrange((k + d.len()) as int, s.len() as int), d)
    } else {
        seq![s]
    }
}

/// The segments of a reply, every field kept.
pub open spec fn reply_segments(reply: Seq<char>) -> Seq<Seq<char>> {
    split_fields(reply, delimiter())
}

proof fn lemma_first_occurrence(s: Seq<char>, d: Seq<char>, j: nat, k: nat)
    requires
        j <= k,
        forall|m: int| j <= m < k ==> !occurs_at(s, d, m),
        occurs_at(s, d, k as int) || k + d.len() > s.len(),
    ensures
        first_occurrence_from(s, d, j) == if occurs_at(s, d, k as int) { k } else { s.len() },
    decreases k - j,
{
    if j < k {
        if j + d.len() <= s.len() {
            lemma_first_occurrence(s, d, j + 1, k);
        }
    }
}

proof fn lemma_occurs_shift(v: Seq<char>, d: Seq<char>, start: int, m: int)
    requires
        0 <= start <= v.len(),
        start <= m,
    ensures
        occurs_at(v.subrange(start, v.len() as int), d, m - start) == occurs_at(v, d, m),
{
    let s = v.subrange(start, v.len() as int);
    if m + d.len() <= v.len() {
        assert(s.subrange(m - start, m - start + d.len()) =~= v.subrange(m, m + d.len()));
    }
}

proof fn lemma_first_occurrence_found(s: Seq<char>, d: Seq<char>, i: nat)
    requires
        d.len() > 0,
    ensures
        first_occurrence_from(s, d, i) + d.len() <= s.len() ==> occurs_at(
            s,
            d,
            first_occurrence_from(s, d, i) as int,
        ),
    decreases s.len() - i,
{
    if !(i >= s.len() || i + d.len() > s.len()) && !occurs_at(s, d, i as int) {
        lemma_first_occurrence_found(s, d, i + 1);
    }
}

/// The reply holds no stray delimiter: it neither starts nor ends with one,
/// and no occurrence is followed at once by another.
pub open spec fn no_stray_delimiter(reply: Seq<char>) -> bool {
    &&& !occurs_at(reply, delimiter(), 0)
    &&& !occurs_at(reply, delimiter(), reply.len() - delimiter().len())
    &&& forall|i: int|
        #[trigger] occurs_at(reply, delimiter(), i) ==> !occurs_at(reply, delimiter(), i + 5)
}

/// A non-empty reply without a stray delimiter splits into non-empty
/// segments only.
pub proof fn lemma_segments_non_empty(reply: Seq<char>)
    requires
        reply.len() > 0,
        no_stray_delimiter(reply),
    ensures
        forall|i: int|
            0 <= i < reply_segments(reply).len() ==> (#[trigger] reply_segments(reply)[i]).len() > 0,
    decreases reply.len(),
{
    let d = delimiter();
    let k = first_occurrence_from(reply, d, 0) as int;
    lemma_first_occurrence_found(reply, d, 0);
    if k + 5 <= reply.len() {
        let n = reply.len() as int;
        let rest = reply.subrange(k + 5, n);
        assert(k != 0);
        assert(k + 5 != n);
        lemma_occurs_shift(reply, d, k + 5, k + 5);
        assert(!occurs_at(rest, d, 0));
        if rest.len() >= 5 {
            lemma_occurs_shift(reply, d, k + 5, n - 5);
            assert(rest.len() - 5 == n - 5 - (k + 5));
        }
        assert forall|i: int| #[trigger] occurs_at(rest, d, i) implies !occurs_at(rest, d, i + 5) by {
            lemma_occurs_shift(reply, d, k + 5, k + 5 + i);
            lemma_occurs_shift(reply, d, k + 5, k + 5 + i + 5);
        }
        lemma_segments_non_empty(rest);
        let segs = reply_segments(reply);
        assert(segs =~= seq![reply.subrange(0, k)] + reply_segments(rest));
        assert forall|i: int| 0 <= i < segs.len() implies (#[trigger] segs[i]).len() > 0 by {
            if i > 0 {
                assert(segs[i] == reply_segments(rest)[i - 1]);
            }
        }
    }
}

/// Whether the delimiter starts at position `i` of `v`.
fn delimiter_at(v: &Vec<char>, i: usize) -> (r: bool)
    ensures
        r == occurs_at(v@, delimiter(), i as int),
{
    if i <= v.len() && v.len() - i >= 5 {
        let r = v[i] == '~' && v[i + 1] == '>' && v[i + 2] == '_' && v[i + 3] == '^' && v[i + 4]
            == '~';
        assert(r == (v@.subrange(i as int, i + 5) =~= delimiter()));
        r
    } else {
        false
    }
}

/// Splits a segmenter reply on [`SEGMENT_DELIMITER`]. Every field is kept,
/// empty ones included, in reply order; a reply without a delimiter yields
/// itself as the only segment.
pub fn split_reply(reply: &str) -> (r: Vec<String>)
    ensures
        views(r@) == reply_segments(reply@),
        r@.len() >= 1,
{
    let v = chars_of(reply);
    let n = v.len();
    let ghost d = delimiter();
    let mut out: Vec<String> = Vec::new();
    let mut start: usize = 0;
    let mut i: usize = 0;
    proof {
        assert(views(out@) =~= Seq::<Seq<char>>::empty());
        assert(v@.subrange(0, n as int) =~= v@);
    }
    while i < n
        invariant
            n == v@.len(),
            v@ == reply@,
            d == delimiter(),
            start <= i <= n,
            views(out@) + split_fields(v@.subrange(start as int, n as int), d) == split_fields(
                v@,
                d,
            ),
            forall|m: int| start <= m < i ==> !occurs_at(v@, d, m),
        decreases n - i,
    {
        if delimiter_at(&v, i) {
            let ghost s = v@.subrange(start as int, n as int);
            proof {
                assert forall|m: int| 0 <= m < i - start implies !occurs_at(s, d, m) by {
                    lemma_occurs_shift(v@, d, start as int, m + start);
                }
                lemma_occurs_shift(v@, d, start as int, i as int);
                lemma_first_occurrence(s, d, 0, (i - start) as nat);
                assert(s.subrange(0, i - start) =~= v@.subrange(start as int, i as int));
                assert(s.subrange(i - start + 5, s.len() as int) =~= v@.subrange(
                    i + 5,
                    n as int,
                ));
            }
            let piece = string_of(reply, start, i);
            let ghost before = views(out@);
            out.push(piece);
            proof {
                assert(views(out@) =~= before.push(piece@));
            }
            i = i + 5;
            start = i;
            proof {
                assert(views(out@) + split_fields(v@.subrange(start as int, n as int), d) =~= before
                    + split_fields(s, d));
            }
        } else {
            i = i + 1;
        }
    }
    let ghost s = v@.subrange(start as int, n as int);
    proof {
        assert forall|m: int| 0 <= m < n - start implies !occurs_at(s, d, m) by {
            lemma_occurs_shift(v@, d, start as int, m + start);
        }
        lemma_first_occurrence(s, d, 0, s.len());
    }
    let last = string_of(reply, start, n);
    let ghost before = views(out@);
    out.push(last);
    proof {
        assert(views(out@) =~= before.push(last@));
        assert(split_fields(s, d) =~= seq![s]);
        assert(views(out@) =~= before + split_fields(s, d));
    }
    out
}

/// The user message asking the model to segment `chunk`: the fixed
/// instruction with the chunk's text embedded in it.
pub fn segment_request(chunk: &str) -> (r: String)
    ensures
        r@ == PROMPT_HEAD@ + chunk@ + PROMPT_TAIL@,
{
    let mut message = String::from_str(PROMPT_HEAD);
    message.append(chunk);
    message.append(PROMPT_TAIL);
    message
}

/// The non-empty sequences of `segs`, in order.
pub open spec fn non_empty(segs: Seq<Seq<char>>) -> Seq<Seq<char>>
    decreases segs.len(),
{
    if segs.len() == 0 {
        Seq::empty()
    } else if segs.last().len() > 0 {
        non_empty(segs.drop_last()).push(segs.last())
    } else {
        non_empty(segs.drop_last())
    }
}

/// The segments of `segs` that are not empty, in order.
pub fn drop_empty(segs: &Vec<String>) -> (r: Vec<String>)
    ensures
        views(r@) == non_empty(views(segs@)),
{
    let mut out: Vec<String> = Vec::new();
    let mut i: usize = 0;
    while i < segs.len()
        invariant
            i <= segs@.len(),
            views(out@) == non_empty(views(segs@).subrange(0, i as int)),
        decreases segs@.len() - i,
    {
        let ghost before = views(out@);
        let ghost prefix = views(segs@).subrange(0, i as int + 1);
        assert(prefix.drop_last() =~= views(segs@).subrange(0, i as int));
        if segs[i].as_str().unicode_len() > 0 {
            out.push(segs[i].clone());
            assert(views(out@) =~= before.push(segs@[i as int]@));
        }
        i = i + 1;
    }
    assert(views(segs@).subrange(0, i as int) =~= views(segs@));
    out
}

/// The segments of a reply under the given policy for empty fields.
pub open spec fn segments_under(reply: Seq<char>, policy: EmptySegments) -> Seq<Seq<char>> {
    match policy {
        EmptySegments::Keep => reply_segments(reply),
        EmptySegments::Drop => non_empty(reply_segments(reply)),
    }
}

/// The segments of the segmenter's reply. A reply without content fails with
/// `Segmentation`; otherwise it is split on the delimiter and its empty
/// fields kept or dropped as `policy` says.
pub fn parse_reply(content: Option<String>, policy: EmptySegments) -> (r: Result<
    Vec<String>,
    PipelineError,
>)
    ensures
        match content {
            Some(text) => r matches Ok(segs) && views(segs@) == segments_under(text@, policy),
            None => r matches Err(e) && e is Segmentation,
        },
{
    match content {
        Some(text) => {
            let all = split_reply(text.as_str());
            match policy {
                EmptySegments::Keep => Ok(all),
                EmptySegments::Drop => Ok(drop_empty(&all)),
            }
        },
        None => Err(PipelineError::Segmentation(String::from_str("the reply holds no text"))),
    }
}

} // verus!
