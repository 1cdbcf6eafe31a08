use pure_onnx_ocr_sync::preprocessing::{
    detection_input_dims, plan_recognition_crops, round_up_to_multiple, snap_detection_dims, snap_recognition_width,
    validate_text_regions, RecCropPlan,
};
use pure_onnx_ocr_sync::{
    DetPreProcessor, DetPreProcessorConfig, DetPreProcessorError, RecPreProcessorError, RecTextRegion, Rotation,
};

const TARGET_HEIGHT: u32 = 48;
const MAX_WIDTH: u32 = 320;

#[test]
fn recognition_region_out_of_bounds_is_error() {
    let regions = vec![RecTextRegion { x: 80, y: 10, width: 30, height: 20 }];
    let rotations = vec![Rotation::Deg0];
    let error =
        plan_recognition_crops((100, 50), &regions, &rotations, TARGET_HEIGHT, MAX_WIDTH).unwrap_err();
    assert!(matches!(error, RecPreProcessorError::RegionOutOfBounds { index: 0, .. }));
}

#[test]
fn recognition_zero_area_region_is_error() {
    let regions = vec![RecTextRegion { x: 10, y: 10, width: 0, height: 20 }];
    let rotations = vec![Rotation::Deg0];
    let error =
        plan_recognition_crops((100, 50), &regions, &rotations, TARGET_HEIGHT, MAX_WIDTH).unwrap_err();
    assert!(matches!(error, RecPreProcessorError::ZeroArea { index: 0 }));
}

#[test]
fn planning_checks_in_order() {
    let good = RecTextRegion { x: 0, y: 0, width: 10, height: 10 };
    let r = plan_recognition_crops((100, 50), &[], &[], TARGET_HEIGHT, MAX_WIDTH);
    assert!(matches!(r, Err(RecPreProcessorError::EmptyRegions)));
    let r = plan_recognition_crops((100, 50), &[good], &[], 0, MAX_WIDTH);
    assert!(matches!(r, Err(RecPreProcessorError::InvalidConfiguration)));
    let r = plan_recognition_crops((0, 50), &[good], &[], TARGET_HEIGHT, MAX_WIDTH);
    assert!(matches!(r, Err(RecPreProcessorError::EmptyImage)));
    let bad = RecTextRegion { x: 95, y: 0, width: 10, height: 10 };
    let r = plan_recognition_crops((100, 50), &[good, bad, good], &[], TARGET_HEIGHT, MAX_WIDTH);
    match r {
        Err(RecPreProcessorError::RegionOutOfBounds { index, image_dims, region }) => {
            assert_eq!(index, 1);
            assert_eq!(image_dims, (100, 50));
            assert_eq!(region, bad);
        }
        _ => panic!("expected an out-of-bounds region"),
    }
}

#[test]
fn planning_turns_quarter_rotated_crops() {
    let regions = vec![
        RecTextRegion { x: 0, y: 0, width: 120, height: 60 },
        RecTextRegion { x: 150, y: 40, width: 40, height: 80 },
        RecTextRegion { x: 10, y: 10, width: 30, height: 20 },
    ];
    let rotations = vec![Rotation::Deg0, Rotation::Deg90];
    let plans = plan_recognition_crops((320, 160), &regions, &rotations, TARGET_HEIGHT, MAX_WIDTH).unwrap();
    assert_eq!(
        plans,
        vec![
            RecCropPlan { region: regions[0], rotation: Rotation::Deg0, width: 120, height: 60 },
            RecCropPlan { region: regions[1], rotation: Rotation::Deg90, width: 80, height: 40 },
            RecCropPlan { region: regions[2], rotation: Rotation::Deg0, width: 30, height: 20 },
        ]
    );
}

#[test]
fn validation_accepts_regions_inside_the_image() {
    let regions = [
        RecTextRegion { x: 0, y: 0, width: 100, height: 50 },
        RecTextRegion { x: 99, y: 49, width: 1, height: 1 },
    ];
    assert!(validate_text_regions((100, 50), &regions).is_ok());
    let outside = [RecTextRegion { x: 100, y: 0, width: 1, height: 1 }];
    assert!(matches!(
        validate_text_regions((100, 50), &outside),
        Err(RecPreProcessorError::RegionOutOfBounds { index: 0, .. })
    ));
}

#[test]
fn widths_snap_to_multiples_of_32() {
    assert_eq!(snap_recognition_width(96, 320), 96);
    assert_eq!(snap_recognition_width(97, 320), 128);
    assert_eq!(snap_recognition_width(1, 320), 32);
    assert_eq!(snap_recognition_width(500, 320), 320);
    assert_eq!(snap_recognition_width(40, 20), 32);
    assert_eq!(snap_recognition_width(24, 320), 32);
    // rounding up past the cap falls back to the greatest multiple of 32 below it
    assert_eq!(snap_recognition_width(99, 100), 96);
    assert_eq!(snap_recognition_width(300, 310), 288);
    assert_eq!(snap_recognition_width(33, 40), 32);
}

#[test]
fn detection_dims_pad_to_multiples_of_32() {
    assert_eq!(snap_detection_dims(123, 77), (128, 96));
    assert_eq!(snap_detection_dims(800, 600), (800, 608));
    assert_eq!(snap_detection_dims(960, 540), (960, 544));
    assert_eq!(snap_detection_dims(1, 0), (32, 32));
}

#[test]
fn rounding_up_to_a_multiple() {
    assert_eq!(round_up_to_multiple(33, 32), 64);
    assert_eq!(round_up_to_multiple(64, 32), 64);
    assert_eq!(round_up_to_multiple(7, 0), 7);
    assert_eq!(round_up_to_multiple(0, 5), 0);
}

#[test]
fn detection_preprocessor_keeps_its_limit() {
    assert_eq!(DetPreProcessorConfig::default().limit_side_len, 960);
    let p = DetPreProcessor::new(DetPreProcessorConfig { limit_side_len: 320 });
    assert_eq!(p.limit_side_len(), 320);
}

#[test]
fn rotations_compose_by_degrees() {
    assert_eq!(Rotation::from_degrees(0), Rotation::Deg0);
    assert_eq!(Rotation::from_degrees(-90), Rotation::Deg270);
    assert_eq!(Rotation::from_degrees(450), Rotation::Deg90);
    assert_eq!(Rotation::from_degrees(-720), Rotation::Deg0);
    assert_eq!(Rotation::Deg270.degrees(), 270);
    assert_eq!(Rotation::Deg90.rotate_by(180), Rotation::Deg270);
    assert_eq!(Rotation::Deg270.rotate_by(180).rotate_by(180), Rotation::Deg270);
    assert_eq!(Rotation::Deg90.shortest_rotation_to_zero(), 270);
    assert_eq!(Rotation::Deg0.shortest_rotation_to_zero(), 0);
    for r in [Rotation::Deg0, Rotation::Deg90, Rotation::Deg180, Rotation::Deg270] {
        assert_eq!(r.rotate_by(r.shortest_rotation_to_zero()), Rotation::Deg0);
        assert_eq!(Rotation::from_degrees(r.degrees()), r);
        assert_eq!(r.rotate_by(360), r);
    }
}

#[test]
fn detection_input_refuses_empty_images() {
    assert!(matches!(detection_input_dims((0, 10), (0, 10)), Err(DetPreProcessorError::EmptyImage)));
    assert!(matches!(detection_input_dims((10, 0), (10, 0)), Err(DetPreProcessorError::EmptyImage)));
    assert!(matches!(detection_input_dims((1920, 1080), (960, 540)), Ok((960, 544))));
    assert!(matches!(detection_input_dims((123, 77), (123, 77)), Ok((128, 96))));
}
