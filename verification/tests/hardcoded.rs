use toktoktok::hardcoded::{apply_hardcoded_merges, generate_hardcoded_merges, HARDCODED_COUNT, TRAINED_START};

fn identity_bytes() -> [u32; 256] {
    let mut byte_to_token = [0u32; 256];
    for i in 0..256 {
        byte_to_token[i] = i as u32;
    }
    byte_to_token
}

#[test]
fn test_hardcoded_count() {
    let (merges, _, _) = generate_hardcoded_merges();
    assert_eq!(merges.len(), HARDCODED_COUNT as usize);
}

#[test]
fn test_two_digit_numbers() {
    let (_, bytes_to_id, _) = generate_hardcoded_merges();

    // Check "00" has ID 256
    assert_eq!(bytes_to_id.get(&vec![b'0', b'0']), Some(&256));
    // Check "99" has ID 355
    assert_eq!(bytes_to_id.get(&vec![b'9', b'9']), Some(&355));
}

#[test]
fn test_three_digit_numbers() {
    let (_, bytes_to_id, _) = generate_hardcoded_merges();

    // Check "000" has ID 356
    assert_eq!(bytes_to_id.get(&vec![b'0', b'0', b'0']), Some(&356));
    // Check "999" has ID 1355
    assert_eq!(bytes_to_id.get(&vec![b'9', b'9', b'9']), Some(&1355));
}

#[test]
fn test_apply_merges() {
    let (_, _, pair_to_id) = generate_hardcoded_merges();

    // Cold start: byte X maps to token X
    let byte_to_token = identity_bytes();

    // Test merging "12" -> should become single token
    let result = apply_hardcoded_merges(b"12", &pair_to_id, &byte_to_token);
    assert_eq!(result.len(), 1);
    assert_eq!(result[0], 256 + 12); // ID for "12"
}

#[test]
fn hardcoded_ids_are_consecutive_and_distinct() {
    let (merges, bytes_to_id, pair_to_id) = generate_hardcoded_merges();
    assert_eq!(bytes_to_id.len(), TRAINED_START as usize);
    assert_eq!(pair_to_id.len(), HARDCODED_COUNT as usize);
    for (i, m) in merges.iter().enumerate() {
        assert_eq!(m.token_id, 256 + i as u32);
        assert_eq!(bytes_to_id.get(&m.bytes), Some(&m.token_id));
        assert!(m.left_token < m.token_id && m.right_token < m.token_id);
        assert_eq!(pair_to_id.get(&(m.left_token, m.right_token)), Some(&m.token_id));
    }
}

#[test]
fn hardcoded_merge_joins_its_halves() {
    let (merges, _, _) = generate_hardcoded_merges();
    let bytes_of = |t: u32| -> Vec<u8> {
        if t < 256 {
            vec![t as u8]
        } else {
            merges[(t - 256) as usize].bytes.clone()
        }
    };
    for m in &merges {
        let mut joined = bytes_of(m.left_token);
        joined.extend(bytes_of(m.right_token));
        assert_eq!(joined, m.bytes);
    }
}

#[test]
fn apply_merges_runs_to_fixpoint() {
    let (_, bytes_to_id, pair_to_id) = generate_hardcoded_merges();
    let byte_to_token = identity_bytes();
    let result = apply_hardcoded_merges(b"123", &pair_to_id, &byte_to_token);
    assert_eq!(result, vec![*bytes_to_id.get(&b"123".to_vec()).unwrap()]);
    let spaces = apply_hardcoded_merges(b"    x", &pair_to_id, &byte_to_token);
    assert_eq!(spaces, vec![*bytes_to_id.get(&b"    ".to_vec()).unwrap(), b'x' as u32]);
}

#[test]
fn apply_merges_on_empty_input() {
    let (_, _, pair_to_id) = generate_hardcoded_merges();
    let result = apply_hardcoded_merges(b"", &pair_to_id, &identity_bytes());
    assert!(result.is_empty());
}

#[test]
fn apply_merges_leaves_unmergeable_bytes() {
    let (_, _, pair_to_id) = generate_hardcoded_merges();
    let result = apply_hardcoded_merges(b"ab", &pair_to_id, &identity_bytes());
    assert_eq!(result, vec![b'a' as u32, b'b' as u32]);
}

#[test]
fn merged_tokens_decode_to_the_input() {
    let (merges, _, pair_to_id) = generate_hardcoded_merges();
    let bytes_of = |t: u32| -> Vec<u8> {
        if t < 256 {
            vec![t as u8]
        } else {
            merges[(t - 256) as usize].bytes.clone()
        }
    };
    let text = b"  if (x != 10) { return 123; }\r\n\n\n...".to_vec();
    let tokens = apply_hardcoded_merges(&text, &pair_to_id, &identity_bytes());
    assert!(tokens.len() < text.len());
    let decoded: Vec<u8> = tokens.iter().flat_map(|&t| bytes_of(t)).collect();
    assert_eq!(decoded, text);
}
