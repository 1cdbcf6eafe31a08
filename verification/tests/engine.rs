use pure_onnx_ocr_sync::engine::{
    address_band, band_line_regions, check_builder_settings, detection_scale_limits, enhance_for_detection,
    region_from_bounds, BuilderError, BuilderField, BuilderSettings, DetectionAction,
    DetectionSearch, ScaleOutcome,
};
use pure_onnx_ocr_sync::preprocessing::validate_text_regions;
use pure_onnx_ocr_sync::RecTextRegion;

fn settings(det: bool, rec: bool, dictionary: bool, batch: usize) -> BuilderSettings {
    BuilderSettings {
        det_model_path: det,
        rec_model_path: rec,
        dictionary_path: dictionary,
        rec_batch_size: batch,
    }
}

#[test]
fn missing_det_model_path_returns_error() {
    match check_builder_settings(settings(false, true, true, 8)) {
        Err(BuilderError::MissingField { field }) => assert_eq!(field.name(), "det_model_path"),
        other => panic!("expected MissingField error, got {:?}", other),
    }
}

#[test]
fn missing_dictionary_path_returns_error() {
    match check_builder_settings(settings(true, true, false, 8)) {
        Err(BuilderError::MissingField { field }) => assert_eq!(field.name(), "dictionary_path"),
        other => panic!("expected MissingField error, got {:?}", other),
    }
}

#[test]
fn zero_recognition_batch_size_is_rejected() {
    match check_builder_settings(settings(true, true, true, 0)) {
        Err(e @ BuilderError::ZeroRecBatchSize) => {
            assert!(e.setting_name().contains("rec_batch_size"));
        }
        other => panic!("expected InvalidConfiguration error, got {:?}", other),
    }
}

#[test]
fn three_required_paths_and_a_batch_size_suffice() {
    // the detection model, recognition model and dictionary suffice; the
    // orientation models are optional
    assert_eq!(check_builder_settings(settings(true, true, true, 4)), Ok(()));
}

#[test]
fn required_settings_are_named_for_errors() {
    assert_eq!(check_builder_settings(settings(true, true, true, 6)), Ok(()));
    assert_eq!(BuilderField::DetModelPath.name(), "det_model_path");
    assert_eq!(BuilderField::RecModelPath.name(), "rec_model_path");
    assert_eq!(BuilderField::DictionaryPath.name(), "dictionary_path");
}

#[test]
fn builder_errors_come_in_order() {
    assert_eq!(
        check_builder_settings(settings(false, false, false, 0)),
        Err(BuilderError::MissingField { field: BuilderField::DetModelPath })
    );
    assert_eq!(
        check_builder_settings(settings(true, false, false, 0)),
        Err(BuilderError::MissingField { field: BuilderField::RecModelPath })
    );
    assert_eq!(
        BuilderError::MissingField { field: BuilderField::RecModelPath }.setting_name(),
        "rec_model_path"
    );
}

#[test]
fn scale_limits_are_sorted_and_deduplicated() {
    assert_eq!(detection_scale_limits(false, 960), vec![960, 800, 640, 480, 320]);
    assert_eq!(detection_scale_limits(false, 1024), vec![1024, 960, 800, 640, 480, 320]);
    assert_eq!(detection_scale_limits(false, 700), vec![960, 800, 700, 640, 480, 320]);
    assert_eq!(detection_scale_limits(false, 100), vec![960, 800, 640, 480, 320, 100]);
    assert_eq!(detection_scale_limits(true, 1024), vec![320]);
}

#[test]
fn search_stops_at_the_first_scale_with_text() {
    let mut search = DetectionSearch::new(false, 960, true);
    assert_eq!(search.step(None), DetectionAction::Detect { limit: 960, enhanced: false });
    assert_eq!(
        search.step(Some(ScaleOutcome::Failed)),
        DetectionAction::Detect { limit: 800, enhanced: false }
    );
    assert_eq!(
        search.step(Some(ScaleOutcome::Empty)),
        DetectionAction::Detect { limit: 640, enhanced: false }
    );
    assert_eq!(search.step(Some(ScaleOutcome::Found)), DetectionAction::Accept);
}

#[test]
fn search_retries_on_the_stretched_image() {
    let mut search = DetectionSearch::new(false, 960, true);
    let mut asked = Vec::new();
    let mut action = search.step(None);
    while let DetectionAction::Detect { limit, enhanced } = action {
        asked.push((limit, enhanced));
        action = search.step(Some(ScaleOutcome::Empty));
    }
    assert_eq!(action, DetectionAction::Exhausted);
    let limits = [960, 800, 640, 480, 320];
    let expected: Vec<(u32, bool)> = limits
        .iter()
        .map(|l| (*l, false))
        .chain(limits.iter().map(|l| (*l, true)))
        .collect();
    assert_eq!(asked, expected);
}

#[test]
fn fast_search_tries_one_scale_once() {
    let mut search = DetectionSearch::new(true, 960, true);
    assert_eq!(search.step(None), DetectionAction::Detect { limit: 320, enhanced: false });
    assert_eq!(search.step(Some(ScaleOutcome::Failed)), DetectionAction::Exhausted);
}

#[test]
fn polygon_bounds_are_clamped_into_the_image() {
    assert_eq!(region_from_bounds(3, 4, 10, 12, (100, 50)), RecTextRegion { x: 3, y: 4, width: 7, height: 8 });
    assert_eq!(region_from_bounds(-5, -2, 200, 80, (100, 50)), RecTextRegion { x: 0, y: 0, width: 100, height: 50 });
    // an empty span widens by one
    assert_eq!(region_from_bounds(7, 7, 7, 3, (100, 50)), RecTextRegion { x: 7, y: 7, width: 1, height: 1 });
    // a box past the far edge becomes the last unit before it
    assert_eq!(region_from_bounds(150, 60, 160, 70, (100, 50)), RecTextRegion { x: 99, y: 49, width: 1, height: 1 });
    // a zero-sized image counts as one pixel
    assert_eq!(region_from_bounds(0, 0, 5, 5, (0, 0)), RecTextRegion { x: 0, y: 0, width: 1, height: 1 });
    let r = region_from_bounds(i64::MIN, i64::MIN, i64::MAX, i64::MAX, (640, 480));
    assert!(validate_text_regions((640, 480), &[r]).is_ok());
}

#[test]
fn band_splits_into_lines() {
    let band = RecTextRegion { x: 26, y: 202, width: 1228, height: 302 };
    let lines = band_line_regions(band, 5);
    assert_eq!(lines.len(), 5);
    let ys: Vec<u32> = lines.iter().map(|l| l.y).collect();
    let hs: Vec<u32> = lines.iter().map(|l| l.height).collect();
    assert_eq!(ys, vec![202, 262, 322, 382, 442]);
    assert_eq!(hs, vec![60, 60, 60, 60, 62]);
    assert!(lines.iter().all(|l| l.x == 26 && l.width == 1228));
    assert_eq!(band_line_regions(band, 0).len(), 1);
    assert_eq!(band_line_regions(band, 0)[0], band);
}

#[test]
fn thin_bands_keep_their_strips_inside() {
    // a 13-row band (the band of a 64 x 32 image) in five lines
    let band = address_band((64, 32), 3, 9, 13);
    assert_eq!(band, RecTextRegion { x: 3, y: 9, width: 58, height: 13 });
    let lines = band_line_regions(band, 5);
    assert_eq!(lines.iter().map(|l| l.y).collect::<Vec<_>>(), vec![9, 11, 13, 15, 17]);
    assert_eq!(lines.iter().map(|l| l.height).collect::<Vec<_>>(), vec![2, 2, 2, 2, 5]);
    assert!(lines.iter().all(|l| l.y + l.height <= 22));
    assert!(validate_text_regions((64, 32), &lines).is_ok());
    // fewer rows than lines: still one strip per line, each one row high,
    // the surplus strips on the bottom row
    let tiny = band_line_regions(RecTextRegion { x: 0, y: 4, width: 10, height: 3 }, 5);
    assert_eq!(
        tiny.iter().map(|l| (l.y, l.height)).collect::<Vec<_>>(),
        vec![(4, 1), (5, 1), (6, 1), (6, 1), (6, 1)]
    );
    // a band of no height gives empty strips at its top
    let flat = band_line_regions(RecTextRegion { x: 0, y: 4, width: 10, height: 0 }, 2);
    assert_eq!(flat.iter().map(|l| (l.y, l.height)).collect::<Vec<_>>(), vec![(4, 0), (4, 0)]);
}

#[test]
fn address_band_stays_in_the_image() {
    assert_eq!(address_band((1280, 720), 51, 202, 302), RecTextRegion { x: 51, y: 202, width: 1178, height: 302 });
    // a top past the last row and a height past the bottom are cut
    assert_eq!(address_band((10, 10), 1, 12, 5), RecTextRegion { x: 1, y: 9, width: 8, height: 1 });
    assert_eq!(address_band((10, 10), 1, 7, 5), RecTextRegion { x: 1, y: 7, width: 8, height: 3 });
    // margins wider than the image leave a width of 1
    assert_eq!(address_band((4, 4), 3, 0, 2), RecTextRegion { x: 3, y: 0, width: 1, height: 2 });
    assert_eq!(address_band((0, 0), 0, 0, 0), RecTextRegion { x: 0, y: 0, width: 1, height: 1 });
}

/// The stretch as written with floats: scale to [0, 1], times 255, rounded.
fn float_stretch(v: u8, lo: u8, hi: u8) -> u8 {
    let range = (hi - lo) as f32;
    let normalized = (v.saturating_sub(lo) as f32) / range;
    (normalized * 255.0).round().clamp(0.0, 255.0) as u8
}

#[test]
fn stretch_agrees_with_float_rounding() {
    for lo in 0..=255u16 {
        for hi in (lo + 1)..=255u16 {
            let (lo, hi) = (lo as u8, hi as u8);
            // a two-pixel image holding the bounds in the red channel, then v
            for v in [lo, hi, lo + (hi - lo) / 2, lo + (hi - lo) / 3] {
                let out = enhance_for_detection(&[lo, 0, 0, 7, hi, 0, 0, 7, v, 0, 0, 7]);
                assert_eq!(out[8], float_stretch(v, lo, hi), "v={} lo={} hi={}", v, lo, hi);
            }
        }
    }
}

#[test]
fn stretch_spans_each_channel_and_keeps_alpha() {
    let rgba = vec![10, 50, 9, 1, 20, 50, 200, 2, 30, 50, 100, 3];
    let out = enhance_for_detection(&rgba);
    assert_eq!(out, vec![0, 50, 0, 1, 128, 50, 255, 2, 255, 50, 121, 3]);
    assert_eq!(enhance_for_detection(&out), out);
    assert!(enhance_for_detection(&[]).is_empty());
}
