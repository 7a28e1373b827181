use toktoktok::chunk::{TokenChunk, SENTINEL};
use toktoktok::hardcoded::generate_hardcoded_merges;
use toktoktok::reservoir::{process_batch_to_tokens, AddOutcome, Reservoir, TokenBatcher, MIN_CHUNK_SIZE};
use toktoktok::tokenizer::PreTokenizer;

fn pairs(chunk: &TokenChunk) -> Vec<(u32, u32, i32)> {
    let mut it = chunk.iter_pairs();
    let mut out = Vec::new();
    while let Some(p) = it.next() {
        out.push(p);
    }
    out
}

#[test]
fn chunk_segments_stop_at_sentinels() {
    let chunk = TokenChunk::new(vec![1, 2, 3, SENTINEL, 4, 5, SENTINEL, SENTINEL, 6]);
    assert_eq!(chunk.active_count, 6);
    assert_eq!(chunk.segment_heads, vec![0, 4, 8]);
    assert_eq!(pairs(&chunk), vec![(1, 2, 0), (2, 3, 1), (4, 5, 4)]);
}

#[test]
fn empty_chunk_has_no_pairs() {
    let chunk = TokenChunk::new(Vec::new());
    assert_eq!(chunk.active_count, 0);
    assert!(pairs(&chunk).is_empty());
}

#[test]
fn chunk_merge_is_greedy_left_to_right() {
    let mut chunk = TokenChunk::new(vec![7, 7, 7, SENTINEL, 7, 7]);
    chunk.apply_merge(7, 7, 9);
    assert_eq!(chunk.active_count, 3);
    assert_eq!(pairs(&chunk), vec![(9, 7, 0)]);
}

#[test]
fn chunk_counts_pairs_within_segments() {
    let chunk = TokenChunk::new(vec![1, 2, 1, 2, SENTINEL, 2, 1]);
    let counts = chunk.count_pairs();
    assert_eq!(counts.get(&(1, 2)), Some(&2));
    assert_eq!(counts.get(&(2, 1)), Some(&2));
    assert_eq!(counts.get(&(2, SENTINEL)), None);
    assert_eq!(counts.len(), 2);
}

#[test]
fn chunk_memory_size_formula() {
    let chunk = TokenChunk::new(vec![1, 2, SENTINEL, 3]);
    assert_eq!(chunk.memory_size(), 4 * 12 + 2 * 4 + 96 + std::mem::size_of::<TokenChunk>());
}

#[test]
fn reservoir_counts_and_merges_across_chunks() {
    let mut r = Reservoir::new(1 << 30);
    assert!(matches!(r.add(vec![1, 2, 1, 2]), AddOutcome::Stored));
    assert!(matches!(r.add(vec![1, 2, SENTINEL, 2, 1]), AddOutcome::Stored));
    let counts = r.count_pairs();
    assert_eq!(counts.get(&(1, 2)), Some(&3));
    assert_eq!(counts.get(&(2, 1)), Some(&2));
    r.apply_merge(1, 2, 50);
    let counts = r.count_pairs();
    assert_eq!(counts.get(&(50, 50)), Some(&1));
    assert_eq!(counts.get(&(1, 2)), None);
    assert_eq!(r.total_tokens(), 5);
    assert!(r.all_below(51));
    assert!(!r.all_below(50));
}

#[test]
fn reservoir_keeps_memory_accounts() {
    let mut r = Reservoir::new(1 << 30);
    assert!(matches!(r.add(Vec::new()), AddOutcome::Empty));
    assert_eq!(r.total_seen(), 0);
    r.add(vec![1, 2, 3]);
    let one = TokenChunk::new(vec![1, 2, 3]).memory_size();
    assert_eq!(r.memory_usage(), one);
    assert_eq!(r.total_seen(), 1);
    assert_eq!(r.chunks.len(), 1);
    assert!(r.memory_usage() <= r.max_bytes());
}

#[test]
fn reservoir_hands_back_what_does_not_fit() {
    let size = TokenChunk::new(vec![1, 2]).memory_size();
    let mut r = Reservoir::new(size + 10);
    assert!(matches!(r.add(vec![1, 2]), AddOutcome::Stored));
    match r.add(vec![3, 4, 5]) {
        AddOutcome::OverBudget(chunk) => {
            assert_eq!(chunk.tokens, vec![3, 4, 5]);
            assert_eq!(r.total_seen(), 2);
            assert_eq!(r.chunks.len(), 1);
            // Swapping it in would exceed the budget, so nothing changes.
            assert!(!r.replace_chunk(0, chunk));
            assert_eq!(r.memory_usage(), size);
            assert_eq!(r.total_tokens(), 2);
        }
        _ => panic!("the second batch should not fit"),
    }
    match r.add(vec![6, 7]) {
        AddOutcome::OverBudget(chunk) => {
            assert!(r.replace_chunk(0, chunk));
            assert_eq!(r.memory_usage(), size);
            assert_eq!(r.chunks[0].tokens, vec![6, 7]);
        }
        _ => panic!("the third batch should not fit beside the first"),
    }
    assert!(r.memory_usage() <= r.max_bytes());
}

#[test]
fn oversized_batch_is_never_stored() {
    let size = TokenChunk::new(vec![1, 2, 3]).memory_size();
    let mut r = Reservoir::new(size - 1);
    assert!(matches!(r.add(vec![1, 2, 3]), AddOutcome::OverBudget(_)));
    assert!(r.chunks.is_empty());
    assert_eq!(r.memory_usage(), 0);
}

#[test]
fn batcher_joins_with_sentinels_until_full() {
    let mut b = TokenBatcher::new();
    assert!(b.add(Vec::new()).is_none());
    assert!(b.add(vec![1, 2]).is_none());
    assert!(b.add(vec![3]).is_none());
    assert_eq!(b.flush(), Some(vec![1, 2, SENTINEL, 3]));
    assert_eq!(b.flush(), None);
    let big = vec![7u32; MIN_CHUNK_SIZE];
    let full = b.add(big.clone());
    assert_eq!(full, Some(big));
    assert_eq!(b.flush(), None);
}

#[test]
fn batch_of_lines_becomes_one_sentinel_separated_stream() {
    let pt = PreTokenizer::gpt4().unwrap();
    let (_, _, pair_to_id) = generate_hardcoded_merges();
    let mut byte_to_token = [0u32; 256];
    for i in 0..256 {
        byte_to_token[i] = i as u32;
    }
    let lines = vec!["12 ab".to_string(), "".to_string(), "x<|eot|>y".to_string()];
    let specials = vec!["<|eot|>".to_string()];
    let tokens = process_batch_to_tokens(&pt, &lines, &pair_to_id, &byte_to_token, &specials);
    assert_eq!(
        tokens,
        vec![256 + 12, SENTINEL, 32, 97, 98, SENTINEL, b'x' as u32, SENTINEL, b'y' as u32]
    );
    // Documents stay apart once the stream is a chunk.
    let chunk = TokenChunk::new(tokens);
    assert_eq!(pairs(&chunk), vec![(32, 97, 2), (97, 98, 3)]);
}

#[test]
fn chunk_links_stop_at_sentinels() {
    let c = TokenChunk::new(vec![1, 2, SENTINEL, 3]);
    assert_eq!(c.tokens, vec![1, 2, SENTINEL, 3]);
    assert_eq!(c.next, vec![1, -1, -1, -1]);
    assert_eq!(c.prev, vec![-1, 0, -1, -1]);
    assert_eq!(c.active_count, 3);
    assert_eq!(c.segment_heads, vec![0, 3]);
}

#[test]
fn pairs_follow_the_links() {
    let mut chunk = TokenChunk::new(vec![1, 2, 3, SENTINEL, 4, 5]);
    chunk.apply_merge(2, 3, 9);
    let ps = pairs(&chunk);
    assert_eq!(ps, vec![(1, 9, 0), (4, 5, 4)]);
    for (a, b, q) in ps {
        assert_eq!(chunk.tokens[q as usize], a);
        assert_eq!(chunk.tokens[chunk.next[q as usize] as usize], b);
    }
}
