use std::path::PathBuf;
use toktoktok::chunk::{TokenChunk, SENTINEL};
use toktoktok::config::{default_working_set, source_kind, thread_count_from, Config, SourceKind, WarmStart};
use toktoktok::hardcoded::{generate_hardcoded_merges, TRAINED_START};
use toktoktok::output::{merges_rebuildable, tiktoken_file_lines};
use toktoktok::reservoir::{AddOutcome, Reservoir};
use toktoktok::tiktoken::{format_line, read_entries, LoadError};
use toktoktok::trainer::{format_bytes_for_display, reconstruct_token_bytes, BpeTrainer, TrainedMerge};

fn config(warm: bool) -> Config {
    Config {
        output: "out.tiktoken".to_string(),
        working_set_mb: None,
        threads: None,
        verbose: false,
        special_tokens: None,
        warm_start: if warm { Some(WarmStart { file: PathBuf::from("base.tiktoken") }) } else { None },
        phases: Vec::new(),
    }
}

fn lines(v: &[&str]) -> Vec<String> {
    v.iter().map(|s| s.to_string()).collect()
}

#[test]
fn format_line_is_base64_space_rank() {
    assert_eq!(format_line(b"hi", 7), "aGk= 7");
    assert_eq!(format_line(&[0u8], 0), "AA== 0");
    assert_eq!(format_line(b"abc", 4294967295), "YWJj 4294967295");
}

#[test]
fn read_entries_skips_lines_without_two_fields() {
    let read = read_entries(&lines(&["aGk= 0", "", "   IA==   1  ", "lonely", "a b c"])).unwrap();
    assert_eq!(read.len(), 2);
    assert_eq!(read[0].bytes, b"hi".to_vec());
    assert_eq!(read[0].rank, 0);
    assert_eq!(read[1].bytes, b" ".to_vec());
    assert_eq!(read[1].rank, 1);
}

#[test]
fn read_entries_reports_bad_base64() {
    assert_eq!(read_entries(&lines(&["aGk= 0", "!!!! 1"])).err(), Some(LoadError::InvalidBase64));
}

#[test]
fn read_entries_reports_bad_rank() {
    assert_eq!(read_entries(&lines(&["aGk= x"])).err(), Some(LoadError::InvalidRank));
    assert_eq!(read_entries(&lines(&["aGk= -1"])).err(), Some(LoadError::InvalidRank));
    assert_eq!(read_entries(&lines(&["aGk= 4294967296"])).err(), Some(LoadError::InvalidRank));
    let plus = read_entries(&lines(&["aGk= +5"])).unwrap();
    assert_eq!(plus[0].rank, 5);
}

#[test]
fn warm_start_rejects_gaps_in_ranks() {
    let r = BpeTrainer::new(config(true), &lines(&["YQ== 0", "Yg== 2"]));
    assert_eq!(r.err(), Some(LoadError::NonContiguousRanks { expected: 1, found: 2 }));
}

#[test]
fn warm_start_rejects_repeated_ranks() {
    let r = BpeTrainer::new(config(true), &lines(&["YQ== 0", "Yg== 0"]));
    assert_eq!(r.err(), Some(LoadError::NonContiguousRanks { expected: 1, found: 0 }));
}

#[test]
fn warm_start_orders_tokens_by_rank() {
    let t = BpeTrainer::new(config(true), &lines(&["Yg== 1", "YQ== 0", "YWI= 2"])).unwrap();
    assert!(t.is_warm_start());
    assert_eq!(t.vocab_size(), 3);
    assert_eq!(t.base_vocab_size(), 3);
    assert_eq!(t.get_token_bytes(0), b"a".to_vec());
    assert_eq!(t.get_token_bytes(1), b"b".to_vec());
    assert_eq!(t.get_token_bytes(2), b"ab".to_vec());
    // "ab" is the merge of tokens 0 and 1.
    assert_eq!(t.pair_to_id().get(&(0, 1)), Some(&2));
    // Single bytes map to their tokens; a missing byte maps to itself.
    assert_eq!(t.byte_to_token()[b'a' as usize], 0);
    assert_eq!(t.byte_to_token()[b'b' as usize], 1);
    assert_eq!(t.byte_to_token()[b'z' as usize], b'z' as u32);
}

#[test]
fn warm_start_merge_table_keeps_lowest_token() {
    // "aaa" (rank 3) splits as a + aa and aa + a; "aa" (rank 1) as a + a.
    let t = BpeTrainer::new(config(true), &lines(&["YQ== 0", "YWE= 1", "Yg== 2", "YWFh 3"])).unwrap();
    assert_eq!(t.pair_to_id().get(&(0, 0)), Some(&1));
    assert_eq!(t.pair_to_id().get(&(0, 1)), Some(&3));
    assert_eq!(t.pair_to_id().get(&(1, 0)), Some(&3));
    assert_eq!(t.pair_to_id().len(), 3);
}

#[test]
fn cold_start_vocabulary() {
    let t = BpeTrainer::new(config(false), &Vec::new()).unwrap();
    assert!(!t.is_warm_start());
    assert_eq!(t.vocab_size(), TRAINED_START);
    assert_eq!(t.base_vocab_size(), TRAINED_START as usize);
    assert!(t.trained_merges().is_empty());
    assert_eq!(t.get_token_bytes(65), b"A".to_vec());
    assert_eq!(t.get_token_bytes(256), b"00".to_vec());
    for b in 0..256usize {
        assert_eq!(t.byte_to_token()[b], b as u32);
    }
}

#[test]
fn cold_start_output_lines() {
    let t = BpeTrainer::new(config(false), &Vec::new()).unwrap();
    let out = t.output_lines();
    assert_eq!(out.len(), TRAINED_START as usize);
    assert_eq!(out[0], "AA== 0");
    assert_eq!(out[65], "QQ== 65");
    assert_eq!(out[256], "MDA= 256");
    assert_eq!(out[1355], "OTk5 1355");
}

#[test]
fn written_vocabulary_reloads_unchanged() {
    let mut t = BpeTrainer::new(config(false), &Vec::new()).unwrap();
    let mut reservoir = Reservoir::new(1 << 30);
    let tokens: Vec<u32> = "abab cdcd abab".bytes().map(|b| b as u32).collect();
    assert!(matches!(reservoir.add(tokens), AddOutcome::Stored));
    t.train_phase(&mut reservoir, 3);
    let out = t.output_lines();
    let reloaded = BpeTrainer::new(config(true), &out).unwrap();
    assert_eq!(reloaded.vocab_size(), t.vocab_size());
    for id in 0..t.vocab_size() {
        assert_eq!(reloaded.get_token_bytes(id), t.get_token_bytes(id));
    }
    assert_eq!(reloaded.output_lines(), out);
}

#[test]
fn train_phase_merges_most_frequent_pair() {
    let mut t = BpeTrainer::new(config(false), &Vec::new()).unwrap();
    let mut reservoir = Reservoir::new(1 << 30);
    let tokens: Vec<u32> = vec![97, 98, 97, 98, SENTINEL, 97, 98];
    assert!(matches!(reservoir.add(tokens), AddOutcome::Stored));
    assert!(reservoir.all_below(t.vocab_size()));
    let done = t.train_phase(&mut reservoir, 5);
    // (a, b) occurs three times; after merging it, no pair occurs twice.
    assert_eq!(done, 1);
    let m = &t.trained_merges()[0];
    assert_eq!((m.left_token, m.right_token, m.new_token), (97, 98, TRAINED_START));
    assert_eq!(t.vocab_size(), TRAINED_START + 1);
    assert_eq!(t.get_token_bytes(TRAINED_START), b"ab".to_vec());
    assert_eq!(t.pair_to_id().get(&(97, 98)), Some(&TRAINED_START));
    assert_eq!(reservoir.total_tokens(), 3);
    let out = t.output_lines();
    assert_eq!(out[TRAINED_START as usize], format!("YWI= {}", TRAINED_START));
}

#[test]
fn train_phase_skips_pairs_that_exist() {
    let mut t = BpeTrainer::new(config(false), &Vec::new()).unwrap();
    let mut reservoir = Reservoir::new(1 << 30);
    // "12" is already a hardcoded token, so (49, 50) may not be merged again.
    let tokens: Vec<u32> = vec![49, 50, 49, 50, 49, 50];
    reservoir.add(tokens);
    let done = t.train_phase(&mut reservoir, 2);
    assert!(t.trained_merges().iter().all(|m| !(m.left_token == 49 && m.right_token == 50)));
    assert_eq!(done, t.trained_merges().len());
}

#[test]
fn warm_started_ids_survive_training() {
    let mut t = BpeTrainer::new(config(true), &lines(&["YQ== 0", "Yg== 1"])).unwrap();
    let mut reservoir = Reservoir::new(1 << 30);
    reservoir.add(vec![0, 1, 0, 1]);
    let done = t.train_phase(&mut reservoir, 1);
    assert_eq!(done, 1);
    assert_eq!(t.get_token_bytes(0), b"a".to_vec());
    assert_eq!(t.get_token_bytes(1), b"b".to_vec());
    assert_eq!(t.get_token_bytes(2), b"ab".to_vec());
    assert_eq!(t.output_lines(), lines(&["YQ== 0", "Yg== 1", "YWI= 2"]));
}

#[test]
fn tiktoken_file_lines_of_cold_vocabulary() {
    let (merges, _, _) = generate_hardcoded_merges();
    let trained = vec![TrainedMerge { left_token: 97, right_token: 98, new_token: TRAINED_START }];
    let out = tiktoken_file_lines(&merges, &trained);
    assert_eq!(out.len(), TRAINED_START as usize + 1);
    assert_eq!(out[1], "AQ== 1");
    assert_eq!(out[TRAINED_START as usize], format!("YWI= {}", TRAINED_START));
}

#[test]
fn reconstruct_rebuilds_trained_tokens() {
    let (merges, _, _) = generate_hardcoded_merges();
    let trained = vec![
        TrainedMerge { left_token: 97, right_token: 98, new_token: TRAINED_START },
        TrainedMerge { left_token: TRAINED_START, right_token: 256, new_token: TRAINED_START + 1 },
    ];
    assert_eq!(reconstruct_token_bytes(TRAINED_START + 1, &merges, &trained), b"ab00".to_vec());
    assert_eq!(reconstruct_token_bytes(7, &merges, &trained), vec![7u8]);
    assert_eq!(reconstruct_token_bytes(TRAINED_START + 5, &merges, &trained), Vec::<u8>::new());
}

#[test]
fn display_escapes_unprintable_bytes() {
    assert_eq!(format_bytes_for_display(b"a b\n\r\t\x01\xff"), "a b\\n\\r\\t\\x01\\xFF");
    assert_eq!(format_bytes_for_display(b""), "");
}

#[test]
fn working_set_and_threads() {
    let mut c = config(false);
    assert_eq!(default_working_set(), Some(1024));
    assert_eq!(c.get_working_set_bytes(), 1024 * 1024 * 1024);
    c.working_set_mb = Some(2);
    assert_eq!(c.get_working_set_bytes(), 2 * 1024 * 1024);
    c.threads = Some(3);
    assert_eq!(c.get_thread_count(), 3);
    c.threads = Some(-1);
    assert!(c.get_thread_count() >= 1);
}

#[test]
fn cold_vocabulary_has_no_repeated_bytes() {
    let mut t = BpeTrainer::new(config(false), &Vec::new()).unwrap();
    let mut reservoir = Reservoir::new(1 << 30);
    let tokens: Vec<u32> = "the cat and the hat and the bat".bytes().map(|b| b as u32).collect();
    reservoir.add(tokens);
    t.train_phase(&mut reservoir, 10);
    let mut seen = std::collections::HashSet::new();
    for id in 0..t.vocab_size() {
        assert!(seen.insert(t.get_token_bytes(id)), "token {} repeats earlier bytes", id);
    }
}

#[test]
fn phases_share_one_merge_history() {
    let mut t = BpeTrainer::new(config(false), &Vec::new()).unwrap();
    let mut first = Reservoir::new(1 << 30);
    first.add("xyxyxy".bytes().map(|b| b as u32).collect());
    assert_eq!(t.train_phase(&mut first, 1), 1);
    let before: Vec<Vec<u8>> = (0..t.vocab_size()).map(|id| t.get_token_bytes(id)).collect();
    let mut second = Reservoir::new(1 << 30);
    second.add("qzqzqz".bytes().map(|b| b as u32).collect());
    assert_eq!(t.train_phase(&mut second, 1), 1);
    for (id, bytes) in before.iter().enumerate() {
        assert_eq!(&t.get_token_bytes(id as u32), bytes);
    }
    assert_eq!(t.get_token_bytes(TRAINED_START + 1), b"qz".to_vec());
}

#[test]
fn data_files_are_chosen_by_extension() {
    assert_eq!(source_kind("txt"), Some(SourceKind::Text));
    assert_eq!(source_kind("parquet"), Some(SourceKind::Parquet));
    assert_eq!(source_kind("TXT"), None);
    assert_eq!(source_kind("csv"), None);
    assert_eq!(source_kind(""), None);
}

#[test]
fn text_column_is_found_by_name() {
    let names = |v: &[&str]| v.iter().map(|s| s.to_string()).collect::<Vec<String>>();
    assert_eq!(toktoktok::config::text_column(&names(&["id", "text", "text"])), Some(1));
    assert_eq!(toktoktok::config::text_column(&names(&["id", "Text"])), None);
    assert_eq!(toktoktok::config::text_column(&names(&[])), None);
}

#[test]
fn train_phase_records_merges_in_both_tables() {
    let mut t = BpeTrainer::new(config(false), &Vec::new()).unwrap();
    let before = t.pair_to_id().len();
    let mut reservoir = Reservoir::new(1 << 30);
    reservoir.add("abab".bytes().map(|b| b as u32).collect());
    assert_eq!(t.train_phase(&mut reservoir, 1), 1);
    assert_eq!(t.pair_to_id().len(), before + 1);
    assert_eq!(t.pair_to_id().get(&(97, 98)), Some(&TRAINED_START));
    let out = t.output_lines();
    let reloaded = BpeTrainer::new(config(true), &out).unwrap();
    assert_eq!(reloaded.pair_to_id().get(&(97, 98)), Some(&TRAINED_START));
}

fn pairs_of(chunk: &TokenChunk) -> Vec<(u32, u32, i32)> {
    let mut it = chunk.iter_pairs();
    let mut out = Vec::new();
    while let Some(p) = it.next() {
        out.push(p);
    }
    out
}

#[test]
fn reconstruct_follows_merges_naming_later_tokens() {
    let (merges, _, _) = generate_hardcoded_merges();
    let trained = vec![
        TrainedMerge { left_token: TRAINED_START + 1, right_token: 97, new_token: TRAINED_START },
        TrainedMerge { left_token: 97, right_token: 98, new_token: TRAINED_START + 1 },
    ];
    assert!(merges_rebuildable(&merges, &trained));
    assert_eq!(reconstruct_token_bytes(TRAINED_START, &merges, &trained), b"aba".to_vec());
    let out = tiktoken_file_lines(&merges, &trained);
    assert_eq!(out.len(), TRAINED_START as usize + 2);
    assert_eq!(out[TRAINED_START as usize], format!("YWJh {}", TRAINED_START));
    assert_eq!(out[TRAINED_START as usize + 1], format!("YWI= {}", TRAINED_START + 1));
}

#[test]
fn merges_rebuildable_refuses_cycles_and_missing_tokens() {
    let (merges, _, _) = generate_hardcoded_merges();
    let in_order = vec![TrainedMerge { left_token: 97, right_token: 98, new_token: TRAINED_START }];
    assert!(merges_rebuildable(&merges, &in_order));
    assert!(merges_rebuildable(&merges, &[]));
    let cycle = vec![
        TrainedMerge { left_token: TRAINED_START + 1, right_token: 97, new_token: TRAINED_START },
        TrainedMerge { left_token: TRAINED_START, right_token: 98, new_token: TRAINED_START + 1 },
    ];
    assert!(!merges_rebuildable(&merges, &cycle));
    let self_loop = vec![TrainedMerge { left_token: TRAINED_START, right_token: 97, new_token: TRAINED_START }];
    assert!(!merges_rebuildable(&merges, &self_loop));
    // Without the hardcoded merges, a token in their range has no bytes.
    let needs_hardcoded = vec![TrainedMerge { left_token: 300, right_token: 97, new_token: TRAINED_START }];
    assert!(!merges_rebuildable(&[], &needs_hardcoded));
    assert!(merges_rebuildable(&merges, &needs_hardcoded));
    // A merge that nothing written reaches is not rebuilt.
    let unused_cycle = vec![
        TrainedMerge { left_token: 97, right_token: 98, new_token: TRAINED_START },
        TrainedMerge { left_token: TRAINED_START + 1, right_token: 97, new_token: TRAINED_START },
    ];
    assert!(merges_rebuildable(&merges, &unused_cycle));
}

#[test]
fn train_phase_merges_inside_each_chunk() {
    let mut t = BpeTrainer::new(config(false), &Vec::new()).unwrap();
    let mut reservoir = Reservoir::new(1 << 30);
    assert!(matches!(reservoir.add(vec![97, 98, 97, 98]), AddOutcome::Stored));
    assert!(matches!(reservoir.add(vec![97, 98, SENTINEL, 97, 98, 99]), AddOutcome::Stored));
    assert_eq!(t.train_phase(&mut reservoir, 1), 1);
    assert_eq!(reservoir.chunks.len(), 2);
    assert_eq!(pairs_of(&reservoir.chunks[0]), vec![(TRAINED_START, TRAINED_START, 0)]);
    assert_eq!(pairs_of(&reservoir.chunks[1]), vec![(TRAINED_START, 99, 3)]);
}

#[test]
fn thread_count_takes_positive_setting_else_cpus() {
    assert_eq!(thread_count_from(Some(4), 8), 4);
    assert_eq!(thread_count_from(Some(0), 8), 8);
    assert_eq!(thread_count_from(Some(-1), 8), 8);
    assert_eq!(thread_count_from(None, 2), 2);
}
