use pure_onnx_ocr_sync::TracedContour;
use pure_onnx_ocr_sync::postprocessing::{
    contour_doubled_area, contour_doubled_signed_area, contour_ring, extract_text_contours,
    keep_text_contours,
};

/// A probability map binarised at 0.5, as detection post-processing does.
fn mask_of(probabilities: &[f32]) -> Vec<u8> {
    probabilities.iter().map(|p| if p.clamp(0.0, 1.0) >= 0.5 { 255 } else { 0 }).collect()
}

#[test]
fn extracts_single_square_contour() {
    let mask = mask_of(&[
        0.0, 0.0, 0.0, 0.0, //
        0.0, 1.0, 1.0, 0.0, //
        0.0, 1.0, 1.0, 0.0, //
        0.0, 0.0, 0.0, 0.0, //
    ]);
    // a minimum area of 1 is a minimum doubled area of 2
    let contours = extract_text_contours(4, 4, mask, 2);
    assert_eq!(contours.len(), 1);

    let doubled = contour_doubled_area(&contours[0].points);
    assert!(doubled >= 2, "expected positive area, got {}", doubled as f64 / 2.0);
}

#[test]
fn filters_small_regions() {
    let mask = mask_of(&[
        0.0, 0.0, 0.0, 0.0, //
        0.0, 1.0, 0.0, 0.0, //
        0.0, 0.0, 0.0, 0.0, //
        0.0, 0.0, 0.0, 0.0, //
    ]);
    let contours = extract_text_contours(4, 4, mask, 10);
    assert!(contours.is_empty());
}

#[test]
fn larger_threshold_drops_the_square() {
    let mask = mask_of(&[
        0.0, 0.0, 0.0, 0.0, 0.0, //
        0.0, 1.0, 1.0, 1.0, 0.0, //
        0.0, 1.0, 1.0, 1.0, 0.0, //
        0.0, 1.0, 1.0, 1.0, 0.0, //
        0.0, 0.0, 0.0, 0.0, 0.0, //
    ]);
    let kept = extract_text_contours(5, 5, mask.clone(), 8);
    assert_eq!(kept.len(), 1);
    assert!(kept[0].outer);
    assert_eq!(kept[0].parent, None);
    assert_eq!(contour_doubled_area(&kept[0].points), 8);
    assert!(extract_text_contours(5, 5, mask, 9).is_empty());
}

#[test]
fn shoelace_areas() {
    let square = vec![(0, 0), (4, 0), (4, 4), (0, 4)];
    assert_eq!(contour_doubled_signed_area(&square), 32);
    let clockwise: Vec<(i32, i32)> = square.iter().rev().cloned().collect();
    assert_eq!(contour_doubled_signed_area(&clockwise), -32);
    assert_eq!(contour_doubled_area(&clockwise), 32);
    assert_eq!(contour_doubled_signed_area(&vec![(0, 0), (5, 5)]), 0);
    let far = vec![(i32::MIN, i32::MIN), (i32::MAX, i32::MIN), (i32::MAX, i32::MAX)];
    assert_eq!(contour_doubled_area(&far), (u32::MAX as u128) * (u32::MAX as u128));
}

#[test]
fn rings_are_closed_and_counter_clockwise() {
    assert!(contour_ring(&vec![(0, 0), (1, 1)]).is_none());
    let ring = contour_ring(&vec![(0, 0), (4, 0), (4, 4)]).unwrap();
    assert_eq!(ring, vec![(0, 0), (4, 0), (4, 4), (0, 0)]);
    let ring = contour_ring(&vec![(0, 0), (0, 4), (4, 4), (0, 0)]).unwrap();
    assert_eq!(ring, vec![(0, 0), (4, 4), (0, 4), (0, 0)]);
}

#[test]
fn filter_keeps_large_borders_in_order() {
    let border = |points: Vec<(i32, i32)>| TracedContour { points, outer: true, parent: None };
    let borders = vec![
        border(vec![(0, 0), (4, 0), (4, 4), (0, 4)]), // doubled area 32
        border(vec![(0, 0), (1, 0)]),                 // too few points
        border(vec![(0, 0), (2, 0), (2, 2)]),         // doubled area 4
        border(vec![(0, 0), (0, 3), (3, 3), (3, 0)]), // doubled area 18
    ];
    let kept = keep_text_contours(borders, 5);
    assert_eq!(kept.len(), 2);
    assert_eq!(kept[0].points.len(), 4);
    assert_eq!(kept[1].points, vec![(0, 0), (0, 3), (3, 3), (3, 0)]);
    assert!(keep_text_contours(Vec::new(), 0).is_empty());
}
