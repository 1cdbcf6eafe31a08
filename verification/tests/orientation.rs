use pure_onnx_ocr_sync::doc_ori::best_document_rotation;
use pure_onnx_ocr_sync::text_line_ori::text_line_rotation;
use pure_onnx_ocr_sync::Rotation;

#[test]
fn document_rotation_takes_the_best_class() {
    // classifier outputs come as 0°, 270°, 180°, 90°
    assert_eq!(best_document_rotation([9, 1, 2, 3]), Rotation::Deg0);
    assert_eq!(best_document_rotation([1, 9, 2, 3]), Rotation::Deg270);
    assert_eq!(best_document_rotation([1, 2, 9, 3]), Rotation::Deg180);
    assert_eq!(best_document_rotation([1, 2, 3, 9]), Rotation::Deg90);
}

#[test]
fn document_rotation_ties_go_to_the_last_candidate() {
    assert_eq!(best_document_rotation([5, 5, 5, 5]), Rotation::Deg270);
    assert_eq!(best_document_rotation([5, 1, 1, 5]), Rotation::Deg90);
    assert_eq!(best_document_rotation([5, 1, 5, 5]), Rotation::Deg180);
}

#[test]
fn line_rotation_flips_upside_down_lines() {
    assert_eq!(text_line_rotation(Rotation::Deg0, Some(1), Some(2)), Rotation::Deg180);
    assert_eq!(text_line_rotation(Rotation::Deg90, Some(1), Some(2)), Rotation::Deg270);
    assert_eq!(text_line_rotation(Rotation::Deg90, Some(2), Some(1)), Rotation::Deg90);
    assert_eq!(text_line_rotation(Rotation::Deg0, Some(2), Some(2)), Rotation::Deg0);
    assert_eq!(text_line_rotation(Rotation::Deg0, None, Some(2)), Rotation::Deg0);
    assert_eq!(text_line_rotation(Rotation::Deg180, Some(1), None), Rotation::Deg180);
}

#[test]
fn correcting_a_detected_page_turn_brings_it_upright() {
    for scores in [[9, 1, 2, 3], [1, 9, 2, 3], [1, 2, 9, 3], [1, 2, 3, 9]] {
        let detected = best_document_rotation(scores);
        let back = Rotation::from_degrees(detected.shortest_rotation_to_zero());
        assert_eq!(detected.rotate_by(back.degrees()), Rotation::Deg0);
    }
}
