use pure_onnx_ocr_sync::{
    CtcGreedyDecoder, CtcGreedyDecoderConfig, CtcGreedyDecoderError, CtcScores, RecDictionary,
};

/// The order key of a score, as the recognition stage computes it: equal keys
/// for equal scores, a larger key for a larger score, and the least key for
/// scores that can never be the greatest (NaN and negative infinity).
fn order_key(value: f32) -> i64 {
    if value.is_nan() || value == f32::NEG_INFINITY {
        return i64::MIN;
    }
    let value = if value == 0.0 { 0.0f32 } else { value };
    let bits = value.to_bits();
    if bits & 0x8000_0000 != 0 {
        -((bits & 0x7fff_ffff) as i64)
    } else {
        bits as i64
    }
}

fn scores_from(batch: usize, steps: usize, classes: usize, values: &[f32]) -> CtcScores {
    assert_eq!(values.len(), batch * steps * classes);
    let mut keys = Vec::new();
    for b in 0..batch {
        let mut rows = Vec::new();
        for t in 0..steps {
            let start = (b * steps + t) * classes;
            rows.push(values[start..start + classes].iter().map(|v| order_key(*v)).collect());
        }
        keys.push(rows);
    }
    CtcScores::new(steps, classes, keys).expect("scores are well shaped")
}

fn dictionary_from_tokens(tokens: &[&str]) -> RecDictionary {
    RecDictionary::parse_contents(&tokens.join("\n"), "tokens.txt").expect("dictionary parses")
}

#[test]
fn decodes_sequence_with_duplicates_and_blank() {
    let logits = scores_from(
        1,
        4,
        3,
        &[
            2.0, 0.5, -1.0, //
            2.5, 0.4, -2.0, //
            -0.2, -0.3, 3.0, //
            0.1, 2.2, -0.5, //
        ],
    );

    let decoder = CtcGreedyDecoder::new(CtcGreedyDecoderConfig { blank_id: 2 });
    let dictionary = dictionary_from_tokens(&["a", "b"]);
    let sequences = decoder.decode(&logits, &[4], &dictionary).expect("decoding should succeed");

    assert_eq!(sequences.len(), 1);
    let first = &sequences[0];
    assert_eq!(first.text, "ab");
    assert_eq!(first.token_indices, vec![0, 1]);
    assert_eq!(first.time_steps, vec![0, 3]);
}

#[test]
fn handles_all_blank_sequence() {
    let logits = scores_from(
        1,
        3,
        2,
        &[
            0.1, 1.0, //
            0.2, 1.1, //
            0.3, 1.2, //
        ],
    );

    let decoder = CtcGreedyDecoder::new(CtcGreedyDecoderConfig { blank_id: 1 });
    let dictionary = dictionary_from_tokens(&["a"]);
    let sequences = decoder.decode(&logits, &[3], &dictionary).expect("decoding should succeed");

    assert_eq!(sequences[0].text, "");
    assert!(sequences[0].token_indices.is_empty());
    assert!(sequences[0].time_steps.is_empty());
}

#[test]
fn error_when_blank_id_out_of_range() {
    let logits = scores_from(1, 1, 2, &[0.0, 0.0]);
    let decoder = CtcGreedyDecoder::new(CtcGreedyDecoderConfig { blank_id: 3 });
    let dictionary = dictionary_from_tokens(&["a"]);
    let error = match decoder.decode(&logits, &[1], &dictionary) {
        Err(e) => e,
        Ok(_) => panic!("blank id out of range should error"),
    };

    assert!(matches!(
        error,
        CtcGreedyDecoderError::BlankIdOutOfRange { blank_id: 3, class_count: 2 }
    ));
}

#[test]
fn empty_batch_is_an_error() {
    let logits = CtcScores::new(2, 3, Vec::new()).unwrap();
    let decoder = CtcGreedyDecoder::new(CtcGreedyDecoderConfig { blank_id: 0 });
    let dictionary = dictionary_from_tokens(&["a"]);
    let error = decoder.decode(&logits, &[], &dictionary).err().unwrap();
    assert_eq!(error, CtcGreedyDecoderError::EmptyBatch);
}

#[test]
fn timestep_count_must_match_batch() {
    let logits = scores_from(2, 1, 2, &[0.0, 1.0, 1.0, 0.0]);
    let decoder = CtcGreedyDecoder::new(CtcGreedyDecoderConfig { blank_id: 0 });
    let dictionary = dictionary_from_tokens(&["a", "b"]);
    let error = decoder.decode(&logits, &[1], &dictionary).err().unwrap();
    assert_eq!(error, CtcGreedyDecoderError::TimestepsLengthMismatch { expected: 2, actual: 1 });
}

#[test]
fn class_beyond_dictionary_is_an_error() {
    // class 2 wins at the second step, but the dictionary only has indices 0 and 1
    let logits = scores_from(1, 2, 3, &[5.0, 0.0, 0.0, 0.0, 0.0, 5.0]);
    let decoder = CtcGreedyDecoder::new(CtcGreedyDecoderConfig { blank_id: 1 });
    let dictionary = dictionary_from_tokens(&["a", "b"]);
    let error = decoder.decode(&logits, &[2], &dictionary).err().unwrap();
    assert_eq!(
        error,
        CtcGreedyDecoderError::DictionaryIndexMissing { index: 2, dictionary_size: 2 }
    );
}

#[test]
fn repeats_separated_by_blank_are_kept() {
    // a a _ a b b -> "aab"
    let logits = scores_from(
        1,
        6,
        3,
        &[
            9.0, 0.0, 0.0, //
            9.0, 0.0, 0.0, //
            0.0, 0.0, 9.0, //
            9.0, 0.0, 0.0, //
            0.0, 9.0, 0.0, //
            0.0, 9.0, 0.0, //
        ],
    );
    let decoder = CtcGreedyDecoder::new(CtcGreedyDecoderConfig { blank_id: 2 });
    let dictionary = dictionary_from_tokens(&["a", "b"]);
    let out = decoder.decode(&logits, &[6], &dictionary).unwrap();
    assert_eq!(out[0].text, "aab");
    assert_eq!(out[0].token_indices, vec![0, 0, 1]);
    assert_eq!(out[0].time_steps, vec![0, 3, 4]);
}

#[test]
fn valid_timesteps_cut_each_sample() {
    let logits = scores_from(
        2,
        2,
        3,
        &[
            9.0, 0.0, 0.0, 0.0, 9.0, 0.0, //
            0.0, 9.0, 0.0, 9.0, 0.0, 0.0, //
        ],
    );
    let decoder = CtcGreedyDecoder::new(CtcGreedyDecoderConfig { blank_id: 2 });
    let dictionary = dictionary_from_tokens(&["a", "b"]);
    let out = decoder.decode(&logits, &[1, 7], &dictionary).unwrap();
    assert_eq!(out.len(), 2);
    assert_eq!(out[0].text, "a");
    assert_eq!(out[1].text, "ba");
}

#[test]
fn ties_go_to_the_first_class_and_nan_never_wins() {
    let logits = scores_from(1, 2, 3, &[f32::NAN, 1.0, 1.0, f32::NAN, f32::NEG_INFINITY, f32::NAN]);
    let decoder = CtcGreedyDecoder::new(CtcGreedyDecoderConfig { blank_id: 2 });
    let dictionary = dictionary_from_tokens(&["a", "b"]);
    let out = decoder.decode(&logits, &[2], &dictionary).unwrap();
    assert_eq!(out[0].token_indices, vec![1, 0]);
    assert_eq!(out[0].text, "ba");
}

#[test]
fn ragged_scores_are_refused() {
    assert!(CtcScores::new(2, 2, vec![vec![vec![1, 2], vec![3]]]).is_none());
    assert!(CtcScores::new(2, 2, vec![vec![vec![1, 2]]]).is_none());
    assert_eq!(CtcScores::new(1, 2, vec![vec![vec![1, 2]]]).unwrap().batch_size(), 1);
}
