use pure_onnx_ocr_sync::recognition::{
    clamp_valid_steps, recognition_input_dims, recognition_output_steps, RecShapeError,
};

#[test]
fn input_shape_must_be_batch_by_3_by_48_by_width() {
    assert!(matches!(recognition_input_dims(&[2, 3, 48, 320]), Ok((2, 320))));
    match recognition_input_dims(&[3, 48, 320]) {
        Err(RecShapeError::InputRank { shape }) => assert_eq!(shape, vec![3, 48, 320]),
        other => panic!("unexpected {:?}", other),
    }
    match recognition_input_dims(&[1, 1, 48, 320]) {
        Err(RecShapeError::InputLayout { shape }) => assert_eq!(shape, vec![1, 1, 48, 320]),
        other => panic!("unexpected {:?}", other),
    }
    assert!(matches!(recognition_input_dims(&[1, 3, 32, 320]), Err(RecShapeError::InputLayout { .. })));
}

#[test]
fn output_shape_must_match_the_batch() {
    assert!(matches!(recognition_output_steps(2, &[2, 40, 6625]), Ok(40)));
    assert!(matches!(
        recognition_output_steps(2, &[1, 40, 6625]),
        Err(RecShapeError::BatchMismatch { input: 2, output: 1 })
    ));
    assert!(matches!(recognition_output_steps(1, &[1, 40]), Err(RecShapeError::OutputRank { .. })));
}

#[test]
fn valid_steps_stay_between_one_and_all() {
    assert_eq!(clamp_valid_steps(Some(12), 40), 12);
    assert_eq!(clamp_valid_steps(Some(0), 40), 1);
    assert_eq!(clamp_valid_steps(Some(-3), 40), 1);
    assert_eq!(clamp_valid_steps(Some(99), 40), 40);
    assert_eq!(clamp_valid_steps(None, 40), 40);
    assert_eq!(clamp_valid_steps(Some(5), 0), 0);
}
