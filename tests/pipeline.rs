use chat_with_text::chunk::{fits_tokenizer, Tokenizer, MAX_RUN};
use chat_with_text::collection::PointStore;
use chat_with_text::embed::align_embeddings;
use chat_with_text::error::PipelineError;
use chat_with_text::ids::{first_distinct, gen_ids, offer, IdPool, RANDOM_POOL_SIZE};
use chat_with_text::segment::{
    drop_empty, parse_reply, segment_request, split_reply, EmptySegments, PROMPT_HEAD, PROMPT_TAIL,
    SEGMENT_DELIMITER,
};
use chat_with_text::store::{collection_uri, search_uri, upsert_uri};
use chat_with_text::text::trim;
use chat_with_text::types::CollectionCreateParams;
use chat_with_text::upload::build_points;
use std::collections::HashSet;

fn strings(v: &[&str]) -> Vec<String> {
    v.iter().map(|s| s.to_string()).collect()
}

#[test]
fn split_on_delimiter() {
    assert_eq!(split_reply("a~>_^~b~>_^~c"), strings(&["a", "b", "c"]));
}

#[test]
fn reply_without_delimiter_is_one_segment() {
    assert_eq!(split_reply("just one sentence."), strings(&["just one sentence."]));
}

#[test]
fn trailing_delimiter_keeps_empty_field() {
    assert_eq!(split_reply("a~>_^~"), strings(&["a", ""]));
    let kept = parse_reply(Some("a~>_^~".to_string()), EmptySegments::Keep).unwrap();
    assert_eq!(kept, strings(&["a", ""]));
    let dropped = parse_reply(Some("a~>_^~".to_string()), EmptySegments::Drop).unwrap();
    assert_eq!(dropped, strings(&["a"]));
}

#[test]
fn leading_and_doubled_delimiters() {
    assert_eq!(split_reply("~>_^~a~>_^~~>_^~b"), strings(&["", "a", "", "b"]));
    assert_eq!(split_reply(""), strings(&[""]));
    assert_eq!(drop_empty(&strings(&["", "a", "", "b"])), strings(&["a", "b"]));
}

#[test]
fn overlapping_delimiter_splits_leftmost() {
    assert_eq!(split_reply("a~~>_^~>_^~b"), strings(&["a~", ">_^~b"]));
    assert_eq!(split_reply("x ~>_^ y"), strings(&["x ~>_^ y"]));
}

#[test]
fn split_handles_non_ascii() {
    assert_eq!(split_reply("é~>_^~日本"), strings(&["é", "日本"]));
}

#[test]
fn reply_without_content_fails() {
    assert!(matches!(
        parse_reply(None, EmptySegments::Keep),
        Err(PipelineError::Segmentation(_))
    ));
}

#[test]
fn request_embeds_chunk() {
    let r = segment_request("CHUNK");
    assert_eq!(r, format!("{}CHUNK{}", PROMPT_HEAD, PROMPT_TAIL));
    assert!(r.contains(SEGMENT_DELIMITER));
}

#[test]
fn counter_pool_hands_out_increasing_ids() {
    let mut pool = IdPool::counter(3);
    assert_eq!(pool.len(), 3);
    assert_eq!(pool.take_one(), Ok(0));
    assert_eq!(pool.take_one(), Ok(1));
    assert_eq!(pool.take_one(), Ok(2));
    assert_eq!(pool.take_one(), Err(PipelineError::PoolExhausted));
}

#[test]
fn random_pool_has_distinct_ids() {
    let mut pool = IdPool::random(500).unwrap();
    assert_eq!(pool.len(), 500);
    let mut seen = HashSet::new();
    for _ in 0..500 {
        assert!(seen.insert(pool.take_one().unwrap()));
    }
    assert_eq!(pool.take_one(), Err(PipelineError::PoolExhausted));
}

#[test]
fn take_many_is_all_or_nothing() {
    let mut pool = IdPool::counter(5);
    assert_eq!(pool.take_many(3), Ok(vec![0, 1, 2]));
    assert_eq!(pool.take_many(3), Err(PipelineError::PoolExhausted));
    assert_eq!(pool.len(), 2);
    assert_eq!(pool.take_many(2), Ok(vec![3, 4]));
    assert_eq!(pool.take_many(0), Ok(vec![]));
}

#[test]
fn embeddings_align_with_inputs() {
    let items = vec![(0u32, vec![0.5f32, 1.0]), (1u32, vec![2.0f32, 3.0])];
    let v = align_embeddings(2, items).unwrap();
    assert_eq!(v.len(), 2);
    assert_eq!(v[1], vec![2.0f32, 3.0]);
    assert_eq!(v[0].len(), v[1].len());
}

#[test]
fn embeddings_count_mismatch_fails() {
    let items = vec![(0u32, vec![0.5f32])];
    assert!(matches!(align_embeddings(2, items), Err(PipelineError::Embedding(_))));
    let swapped = vec![(1u32, vec![0.5f32]), (0u32, vec![1.5f32])];
    assert!(matches!(align_embeddings(2, swapped), Err(PipelineError::Embedding(_))));
}

#[test]
fn arity_mismatch_fails_before_anything() {
    let ids = vec![1u64, 2, 3];
    let texts = strings(&["a", "b", "c"]);
    let vectors = vec![vec![0.0f32], vec![1.0f32]];
    assert!(matches!(
        build_points(ids, texts, vectors),
        Err(PipelineError::ArityMismatch)
    ));
}

#[test]
fn points_pair_by_position_and_trim() {
    let ids = vec![7u64, 9];
    let texts = strings(&["  first \n", "\tsecond"]);
    let vectors = vec![vec![1.0f32], vec![2.0f32]];
    let points = build_points(ids, texts, vectors).unwrap();
    assert_eq!(points.len(), 2);
    assert_eq!(points[0].id, 7);
    assert_eq!(points[0].text, "first");
    assert_eq!(points[0].vector, vec![1.0f32]);
    assert_eq!(points[1].id, 9);
    assert_eq!(points[1].text, "second");
}

#[test]
fn trim_matches_std() {
    for s in ["", "   ", " a b ", "\u{3000}x\u{a0}", "\u{85}y\t\n", "z"] {
        assert_eq!(trim(s), s.trim());
    }
}

#[test]
fn empty_document_has_no_chunks() {
    let t = Tokenizer::cl100k().unwrap();
    assert_eq!(t.chunk("", 4500), Ok(vec![]));
}

#[test]
fn chunks_rejoin_to_document() {
    let t = Tokenizer::cl100k().unwrap();
    let doc = "Rust is a systems language. ".repeat(200) + "Ünïcödé — 日本語 text.";
    let n = t.encode(&doc).len();
    let chunks = t.chunk(&doc, 7).unwrap();
    assert_eq!(chunks.len(), (n + 6) / 7);
    let joined: String = chunks.concat();
    assert_eq!(joined, doc);
    assert_eq!(t.encode(&joined).len(), n);
}

#[test]
fn twelve_thousand_tokens_make_three_chunks() {
    let t = Tokenizer::cl100k().unwrap();
    let doc = "a".to_string() + &" a".repeat(11999);
    assert_eq!(t.encode(&doc).len(), 12000);
    let chunks = t.chunk(&doc, 4500).unwrap();
    assert_eq!(chunks.len(), 3);
    assert_eq!(t.encode(&chunks[2]).len(), 3000);
    let mut pool = IdPool::counter(10000);
    let mut total = 0usize;
    let mut store: PointStore<Vec<f32>> = PointStore::new();
    for (i, chunk) in chunks.iter().enumerate() {
        let reply = format!("{}~>_^~segment {}", chunk.trim(), i);
        let segs = parse_reply(Some(reply), EmptySegments::Drop).unwrap();
        assert!(segs.iter().all(|s| !s.is_empty()));
        let ids = pool.take_many(segs.len()).unwrap();
        let vectors: Vec<Vec<f32>> = segs.iter().map(|_| vec![0.0f32; 4]).collect();
        total += segs.len();
        store.upload(ids, segs, vectors).unwrap();
    }
    assert!(total <= 10000);
    assert_eq!(store.len(), total);
}

#[test]
fn store_addresses() {
    let p = "http://127.0.0.1:6333/collections";
    assert_eq!(collection_uri(p, "book"), "http://127.0.0.1:6333/collections/book");
    assert_eq!(upsert_uri(p, "book"), "http://127.0.0.1:6333/collections/book/points?wait=true");
    assert_eq!(search_uri(p, "book"), "http://127.0.0.1:6333/collections/book/points/search");
}

#[test]
fn create_params() {
    let c = CollectionCreateParams::new(1536, "Cosine", 4, 2);
    assert_eq!(c.vectors.size, 1536);
    assert_eq!(c.vectors.distance, "Cosine");
    assert_eq!(c.optimizers_config.default_segment_number, 4);
    assert_eq!(c.replication_factor, 2);
}

#[test]
fn upload_twice_changes_nothing() {
    let mut store: PointStore<Vec<f32>> = PointStore::new();
    let ids = vec![1u64, 2, 3];
    let texts = strings(&[" one", "two ", "three"]);
    let vectors = vec![vec![1.0f32], vec![2.0f32], vec![3.0f32]];
    store.upload(ids.clone(), texts.clone(), vectors.clone()).unwrap();
    assert_eq!(store.len(), 3);
    assert_eq!(store.text_of(1), Some("one".to_string()));
    store.upload(ids, texts, vectors).unwrap();
    assert_eq!(store.len(), 3);
    assert_eq!(store.text_of(1), Some("one".to_string()));
    assert_eq!(store.text_of(2), Some("two".to_string()));
    assert_eq!(store.text_of(3), Some("three".to_string()));
    assert_eq!(store.text_of(4), None);
}

#[test]
fn upsert_overwrites_by_id() {
    let mut store: PointStore<Vec<f32>> = PointStore::new();
    store.upload(vec![5u64, 5], strings(&["old", "new"]), vec![vec![0.0f32], vec![1.0f32]]).unwrap();
    assert_eq!(store.len(), 1);
    assert_eq!(store.text_of(5), Some("new".to_string()));
}

#[test]
fn upload_arity_mismatch_stores_nothing() {
    let mut store: PointStore<Vec<f32>> = PointStore::new();
    let r = store.upload(vec![1u64, 2, 3], strings(&["a", "b", "c"]), vec![vec![0.0f32], vec![1.0f32]]);
    assert_eq!(r, Err(PipelineError::ArityMismatch));
    assert_eq!(store.len(), 0);
}

#[test]
fn generated_pool_has_full_size() {
    let pool = gen_ids().unwrap();
    assert_eq!(pool.len(), RANDOM_POOL_SIZE);
}

#[test]
fn offer_rejects_repeated_candidates() {
    let mut ids = Vec::new();
    assert!(offer(&mut ids, 42));
    assert!(offer(&mut ids, 7));
    assert!(!offer(&mut ids, 42));
    assert_eq!(ids, vec![42, 7]);
}

#[test]
fn long_white_space_runs_are_refused() {
    assert!(fits_tokenizer(""));
    assert!(fits_tokenizer("a b\n\tc"));
    let just_under = "x".to_string() + &" ".repeat(MAX_RUN - 1) + "y";
    assert!(fits_tokenizer(&just_under));
    let at_limit = "x".to_string() + &" ".repeat(MAX_RUN) + "y";
    assert!(!fits_tokenizer(&at_limit));
    let mixed = "\u{3000}".repeat(MAX_RUN);
    assert!(!fits_tokenizer(&mixed));
}

#[test]
fn long_runs_without_white_space_are_refused() {
    let letters = "a".repeat(MAX_RUN);
    assert!(!fits_tokenizer(&letters));
    let dashes = "-".repeat(MAX_RUN);
    assert!(!fits_tokenizer(&dashes));
    let words_under = " ".to_string() + &"b".repeat(MAX_RUN - 1) + " ";
    assert!(fits_tokenizer(&words_under));
    let mut spaced = String::new();
    for _ in 0..(MAX_RUN / 2) {
        spaced.push_str("z ");
    }
    assert!(fits_tokenizer(&spaced));
}

#[test]
fn ascii_document_always_chunks() {
    let t = Tokenizer::cl100k().unwrap();
    let doc = "\"fn main() { println!(\\\"hi\\\"); }\" \\u00e9 ".repeat(50);
    assert!(fits_tokenizer(&doc));
    let chunks = t.chunk(&doc, 3).unwrap();
    assert_eq!(chunks.concat(), doc);
}

#[test]
fn empty_random_pool_always_exists() {
    let mut pool = IdPool::random(0).unwrap();
    assert_eq!(pool.len(), 0);
    assert_eq!(pool.take_one(), Err(PipelineError::PoolExhausted));
}

#[test]
fn clean_reply_has_no_empty_segment() {
    let segs = split_reply("first~>_^~second one~>_^~third");
    assert_eq!(segs, strings(&["first", "second one", "third"]));
    assert!(segs.iter().all(|s| !s.is_empty()));
}

#[test]
fn first_distinct_keeps_first_draws_in_order() {
    let draws = vec![5u64, 3, 5, 9, 3, 7, 1];
    assert_eq!(first_distinct(&draws, 3), Some((vec![5, 3, 9], 4)));
    assert_eq!(first_distinct(&draws, 0), Some((vec![], 0)));
    assert_eq!(first_distinct(&draws, 5), Some((vec![5, 3, 9, 7, 1], 7)));
    assert_eq!(first_distinct(&draws, 6), None);
}
