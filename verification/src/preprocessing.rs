use vstd::prelude::*;

verus! {

/// A quarter-turn orientation of an image or a text line.
#[derive(Debug, Clone, Copy, PartialEq, Eq, Structural, Hash)]
pub enum Rotation {
    Deg0,
    Deg90,
    Deg180,
    Deg270,
}

/// The angle, in degrees, that a rotation stands for.
pub open spec fn rotation_degrees(r: Rotation) -> int {
    match r {
        Rotation::Deg0 => 0,
        Rotation::Deg90 => 90,
        Rotation::Deg180 => 180,
        Rotation::Deg270 => 270,
    }
}

/// The rotation that an angle in degrees stands for once reduced to `[0, 360)`;
/// an angle that is not a multiple of 90 degrees stands for none.
pub open spec fn rotation_of_angle(degrees: int) -> Option<Rotation> {
    let r = degrees % 360;
    if r == 0 {
        Some(Rotation::Deg0)
    } else if r == 90 {
        Some(Rotation::Deg90)
    } else if r == 180 {
        Some(Rotation::Deg180)
    } else if r == 270 {
        Some(Rotation::Deg270)
    } else {
        None
    }
}

impl Rotation {
    /// Maps an angle in degrees (any multiple of 90, negative ones included)
    /// to the rotation it stands for.
    pub fn from_degrees(degrees: i32) -> (r: Rotation)
        requires
            degrees % 90 == 0,
        ensures
            rotation_of_angle(degrees as int) == Some(r),
    {
        let norm: u32 = if degrees >= 0 {
            (degrees as u32) % 360
        } else {
            let back: u32 = ((-(degrees as i64)) as u64 % 360) as u32;
            if back == 0 {
                0
            } else {
                360 - back
            }
        };
        assert(norm == (degrees as int) % 360);
        if norm == 0 {
            Rotation::Deg0
        } else if norm == 90 {
            Rotation::Deg90
        } else if norm == 180 {
            Rotation::Deg180
        } else {
            Rotation::Deg270
        }
    }

    /// The angle of this rotation in degrees: 0, 90, 180 or 270.
    pub fn degrees(self) -> (d: i32)
        ensures
            d == rotation_degrees(self),
    {
        match self {
            Rotation::Deg0 => 0,
            Rotation::Deg90 => 90,
            Rotation::Deg180 => 180,
            Rotation::Deg270 => 270,
        }
    }

    /// The angle in `[0, 360)` that, added to this rotation, brings it back to `Deg0`.
    pub fn shortest_rotation_to_zero(&self) -> (d: i32)
        ensures
            d == (360 - rotation_degrees(*self)) % 360,
    {
        match self {
            Rotation::Deg0 => 0,
            Rotation::Deg90 => 270,
            Rotation::Deg180 => 180,
            Rotation::Deg270 => 90,
        }
    }

    /// This rotation turned further by `degrees` (a multiple of 90).
    pub fn rotate_by(self, degrees: i32) -> (r: Rotation)
        requires
            degrees % 90 == 0,
            rotation_degrees(self) + degrees <= i32::MAX,
        ensures
            rotation_of_angle(rotation_degrees(self) + degrees) == Some(r),
    {
        let base = self.degrees();
        Self::from_degrees(base + degrees)
    }
}

/// Every rotation is recovered from its angle.
pub proof fn law_rotation_degrees_roundtrip(r: Rotation)
    ensures
        rotation_of_angle(rotation_degrees(r)) == Some(r),
{
}

/// Every multiple of 90 degrees stands for exactly one rotation, and that
/// rotation's angle is the input reduced to `[0, 360)`.
pub proof fn law_angle_reduces_to_rotation(degrees: int)
    requires
        degrees % 90 == 0,
    ensures
        rotation_of_angle(degrees) is Some,
        rotation_degrees(rotation_of_angle(degrees).unwrap()) == degrees % 360,
{
    assert(degrees % 360 == 0 || degrees % 360 == 90 || degrees % 360 == 180 || degrees % 360
        == 270) by (nonlinear_arith)
        requires
            degrees % 90 == 0,
    ;
}

/// Turning by `a` and then by `b` is turning by `a + b`.
pub proof fn law_rotate_by_composes(r: Rotation, a: int, b: int)
    requires
        a % 90 == 0,
        b % 90 == 0,
    ensures
        rotation_of_angle(rotation_degrees(r) + a) is Some,
        rotation_of_angle(rotation_degrees(rotation_of_angle(rotation_degrees(r) + a).unwrap()) + b)
            == rotation_of_angle(rotation_degrees(r) + a + b),
{
    law_angle_reduces_to_rotation(rotation_degrees(r) + a);
    let m = rotation_degrees(rotation_of_angle(rotation_degrees(r) + a).unwrap());
    let x = rotation_degrees(r) + a;
    assert((m + b) % 360 == (x + b) % 360) by (nonlinear_arith)
        requires
            m == x % 360,
    ;
}

/// A full turn leaves a rotation unchanged.
pub proof fn law_full_turn_is_identity(r: Rotation, turns: int)
    ensures
        rotation_of_angle(rotation_degrees(r) + 360 * turns) == Some(r),
{
    let d = rotation_degrees(r);
    assert((d + 360 * turns) % 360 == d) by (nonlinear_arith)
        requires
            0 <= d < 360,
    ;
}

/// Turning a rotation by `shortest_rotation_to_zero` brings it back to `Deg0`.
pub proof fn law_shortest_rotation_returns_to_zero(r: Rotation)
    ensures
        0 <= (360 - rotation_degrees(r)) % 360 < 360,
        rotation_of_angle(rotation_degrees(r) + (360 - rotation_degrees(r)) % 360) == Some(
            Rotation::Deg0,
        ),
{
}


/// Whether `value` rounded up to a multiple of `multiple` still fits in a `u32`.
pub open spec fn round_up_fits(value: u32, multiple: u32) -> bool {
    multiple == 0 || value % multiple == 0 || value + multiple - value % multiple <= u32::MAX
}

/// `value` rounded up to a multiple of `multiple` (`value` itself when
/// `multiple` is zero).
pub open spec fn round_up(value: int, multiple: int) -> int {
    if multiple == 0 || value % multiple == 0 {
        value
    } else {
        value - value % multiple + multiple
    }
}

/// `r` is the least multiple of `multiple` that is at least `value` (`value`
/// itself when `multiple` is zero).
pub open spec fn is_round_up(value: int, multiple: int, r: int) -> bool {
    if multiple == 0 {
        r == value
    } else {
        r % multiple == 0 && value <= r < value + multiple
    }
}

/// Rounds `value` up to the next multiple of `multiple`.
pub fn round_up_to_multiple(value: u32, multiple: u32) -> (r: u32)
    requires
        round_up_fits(value, multiple),
    ensures
        r == round_up(value as int, multiple as int),
        is_round_up(value as int, multiple as int, r as int),
{
    if multiple == 0 {
        return value;
    }
    let remainder = value % multiple;
    if remainder == 0 {
        value
    } else {
        let r = value + (multiple - remainder);
        assert(r % multiple == 0) by (nonlinear_arith)
            requires
                multiple > 0,
                remainder == value % multiple,
                r == value + multiple - remainder,
        ;
        r
    }
}

/// The largest width whose rounding up to a multiple of 32 still fits in a `u32`.
pub open spec fn max_snappable_width() -> u32 {
    4294967264
}

/// The recognition width snapped to the tract-safe grid: `rounded` (the width,
/// at least 32, rounded up to a multiple of 32) when it is within `max_width`,
/// else the greatest multiple of 32 within `max_width`, and never below 32.
pub open spec fn snapped_width(max_width: u32, rounded: int) -> int {
    let capped = if rounded <= max_width { rounded } else { max_width - max_width % 32 };
    if capped < 32 { 32 } else { capped }
}

/// Snaps a recognition tensor width to a multiple of 32: the width (at least
/// 32) rounded up, or, where that exceeds `max_width`, the greatest multiple
/// of 32 not above `max_width`; never below 32.
pub fn snap_recognition_width(width: u32, max_width: u32) -> (r: u32)
    requires
        width <= max_snappable_width(),
    ensures
        r == snapped_width(max_width, round_up(if width < 32 { 32 } else { width as int }, 32)),
        r % 32 == 0,
        32 <= r,
        max_width >= 32 ==> r <= max_width,
        round_up(if width < 32 { 32 } else { width as int }, 32) <= max_width ==> r == round_up(
            if width < 32 { 32 } else { width as int },
            32,
        ),
{
    let base = if width < 32 { 32 } else { width };
    let up = round_up_to_multiple(base, 32);
    let capped = if up <= max_width { up } else { max_width - max_width % 32 };
    let r = if capped < 32 { 32 } else { capped };
    r
}

/// Detection tensor sides: the resized sides rounded up to multiples of 32,
/// and at least 32 each.
pub fn snap_detection_dims(resized_w: u32, resized_h: u32) -> (dims: (u32, u32))
    requires
        resized_w <= max_snappable_width(),
        resized_h <= max_snappable_width(),
    ensures
        dims.0 == (if round_up(resized_w as int, 32) < 32 { 32 } else { round_up(resized_w as int, 32) }),
        dims.1 == (if round_up(resized_h as int, 32) < 32 { 32 } else { round_up(resized_h as int, 32) }),
        dims.0 % 32 == 0 && dims.0 >= resized_w && dims.0 >= 32,
        dims.1 % 32 == 0 && dims.1 >= resized_h && dims.1 >= 32,
{
    let w = round_up_to_multiple(resized_w, 32);
    let h = round_up_to_multiple(resized_h, 32);
    let w = if w < 32 { 32 } else { w };
    let h = if h < 32 { 32 } else { h };
    (w, h)
}

/// Configuration parameters for `DetPreProcessor`.
#[derive(Debug, Clone, Copy)]
pub struct DetPreProcessorConfig {
    pub limit_side_len: u32,
}

impl Default for DetPreProcessorConfig {
    fn default() -> (config: Self)
        ensures
            config.limit_side_len == 960,
    {
        Self { limit_side_len: 960 }
    }
}

/// Error returned when detection preprocessing fails.
#[derive(Debug)]
pub enum DetPreProcessorError {
    /// The provided image has zero width or height.
    EmptyImage,
}

/// The detection tensor sides for an image: an empty image (a side of zero)
/// is refused; otherwise the sides it is resized to, each rounded up to a
/// multiple of 32 and at least 32.
pub fn detection_input_dims(image_dims: (u32, u32), resized_dims: (u32, u32)) -> (r: Result<(u32, u32), DetPreProcessorError>)
    requires
        resized_dims.0 <= max_snappable_width(),
        resized_dims.1 <= max_snappable_width(),
    ensures
        (image_dims.0 == 0 || image_dims.1 == 0) ==> r matches Err(DetPreProcessorError::EmptyImage),
        (image_dims.0 > 0 && image_dims.1 > 0) ==> (r matches Ok(d) && d.0 == (if round_up(resized_dims.0 as int, 32) < 32 { 32 } else { round_up(resized_dims.0 as int, 32) })
            && d.1 == (if round_up(resized_dims.1 as int, 32) < 32 { 32 } else { round_up(resized_dims.1 as int, 32) })),
{
    if image_dims.0 == 0 || image_dims.1 == 0 {
        return Err(DetPreProcessorError::EmptyImage);
    }
    Ok(snap_detection_dims(resized_dims.0, resized_dims.1))
}

/// DBNet detection preprocessor settings.
#[derive(Debug, Clone, Copy)]
pub struct DetPreProcessor {
    config: DetPreProcessorConfig,
}

impl DetPreProcessor {
    pub closed spec fn spec_config(&self) -> DetPreProcessorConfig {
        self.config
    }

    pub fn new(config: DetPreProcessorConfig) -> (p: Self)
        ensures
            p.spec_config() == config,
    {
        Self { config }
    }

    /// The long-side limit this preprocessor resizes to.
    pub fn limit_side_len(&self) -> (len: u32)
        ensures
            len == self.spec_config().limit_side_len,
    {
        self.config.limit_side_len
    }
}


/// Rectangle specifying the area to crop for recognition preprocessing.
#[derive(Debug, Clone, Copy, PartialEq, Eq, Structural)]
pub struct RecTextRegion {
    pub x: u32,
    pub y: u32,
    pub width: u32,
    pub height: u32,
}

/// Errors that can be produced by recognition preprocessing.
#[derive(Debug)]
pub enum RecPreProcessorError {
    /// The provided batch of regions is empty.
    EmptyRegions,
    /// The input image has zero width or height.
    EmptyImage,
    /// The configuration contains an invalid parameter (e.g. zero height/width).
    InvalidConfiguration,
    /// A region had zero width or height.
    ZeroArea { index: usize },
    /// A region extended beyond the bounds of the image.
    RegionOutOfBounds { index: usize, image_dims: (u32, u32), region: RecTextRegion },
}

/// The region has zero width or height.
pub open spec fn region_is_empty(r: RecTextRegion) -> bool {
    r.width == 0 || r.height == 0
}

/// The region starts inside the image and ends within it.
pub open spec fn region_fits(r: RecTextRegion, image_w: u32, image_h: u32) -> bool {
    r.x < image_w && r.y < image_h && r.x + r.width <= image_w && r.y + r.height <= image_h
}

/// The region is acceptable for cropping from an image of the given size.
pub open spec fn region_is_valid(r: RecTextRegion, image_w: u32, image_h: u32) -> bool {
    !region_is_empty(r) && region_fits(r, image_w, image_h)
}

/// The bounds check of a region adds its origin and extent in `u32`; this says
/// those sums, as far as the check evaluates them, do not overflow.
pub open spec fn region_sums_fit(r: RecTextRegion, image_w: u32, image_h: u32) -> bool {
    (!region_is_empty(r) && r.x < image_w && r.y < image_h) ==> (r.x + r.width <= u32::MAX && (
    r.x + r.width <= image_w ==> r.y + r.height <= u32::MAX))
}

/// Every region that the check reaches (all before it valid) has sums that fit.
pub open spec fn regions_checkable(regions: Seq<RecTextRegion>, image_w: u32, image_h: u32) -> bool {
    forall|i: int|
        0 <= i < regions.len() && (forall|j: int| 0 <= j < i ==> region_is_valid(
            #[trigger] regions[j],
            image_w,
            image_h,
        )) ==> region_sums_fit(#[trigger] regions[i], image_w, image_h)
}

/// The error reported for the region at `index`, given it is the first invalid one.
pub open spec fn region_error(index: int, r: RecTextRegion, image_w: u32, image_h: u32) -> RecPreProcessorError {
    if region_is_empty(r) {
        RecPreProcessorError::ZeroArea { index: index as usize }
    } else {
        RecPreProcessorError::RegionOutOfBounds {
            index: index as usize,
            image_dims: (image_w, image_h),
            region: r,
        }
    }
}

/// What checking a batch of regions against an image yields: the error for the
/// first thing wrong, in the order empty batch, empty image, then each region.
pub open spec fn regions_check(regions: Seq<RecTextRegion>, image_w: u32, image_h: u32) -> Result<(), RecPreProcessorError> {
    if regions.len() == 0 {
        Err(RecPreProcessorError::EmptyRegions)
    } else if image_w == 0 || image_h == 0 {
        Err(RecPreProcessorError::EmptyImage)
    } else if forall|i: int| 0 <= i < regions.len() ==> region_is_valid(#[trigger] regions[i], image_w, image_h) {
        Ok(())
    } else {
        let i = choose|i: int|
            0 <= i < regions.len() && !region_is_valid(regions[i], image_w, image_h) && (forall|j: int|
                0 <= j < i ==> region_is_valid(#[trigger] regions[j], image_w, image_h));
        Err(region_error(i, regions[i], image_w, image_h))
    }
}

/// Checks that every region is non-empty and lies inside an image of the given
/// size, reporting the first one that does not.
pub fn validate_text_regions(image_dims: (u32, u32), regions: &[RecTextRegion]) -> (res: Result<(), RecPreProcessorError>)
    requires
        regions_checkable(regions@, image_dims.0, image_dims.1),
    ensures
        res == regions_check(regions@, image_dims.0, image_dims.1),
{
    let (img_w, img_h) = image_dims;
    if regions.len() == 0 {
        return Err(RecPreProcessorError::EmptyRegions);
    }
    if img_w == 0 || img_h == 0 {
        return Err(RecPreProcessorError::EmptyImage);
    }
    let mut index: usize = 0;
    while index < regions.len()
        invariant
            0 <= index <= regions.len(),
            img_w == image_dims.0,
            img_h == image_dims.1,
            img_w > 0 && img_h > 0,
            regions_checkable(regions@, img_w, img_h),
            forall|j: int| 0 <= j < index ==> region_is_valid(#[trigger] regions@[j], img_w, img_h),
        decreases regions.len() - index,
    {
        let region = regions[index];
        assert(region_sums_fit(regions@[index as int], img_w, img_h));
        if region.width == 0 || region.height == 0 {
            proof {
                choose_first_invalid(regions@, img_w, img_h, index as int);
            }
            return Err(RecPreProcessorError::ZeroArea { index });
        }
        if region.x >= img_w || region.y >= img_h || region.x + region.width > img_w || region.y
            + region.height > img_h {
            proof {
                choose_first_invalid(regions@, img_w, img_h, index as int);
            }
            return Err(RecPreProcessorError::RegionOutOfBounds {
                index,
                image_dims: (img_w, img_h),
                region,
            });
        }
        index += 1;
    }
    Ok(())
}

/// The first invalid region is the one `choose` picks in `regions_check`.
proof fn choose_first_invalid(regions: Seq<RecTextRegion>, w: u32, h: u32, k: int)
    requires
        0 <= k < regions.len(),
        !region_is_valid(regions[k], w, h),
        forall|j: int| 0 <= j < k ==> region_is_valid(#[trigger] regions[j], w, h),
    ensures
        ({
            let i = choose|i: int|
                0 <= i < regions.len() && !region_is_valid(regions[i], w, h) && (forall|j: int|
                    0 <= j < i ==> region_is_valid(#[trigger] regions[j], w, h));
            i == k
        }),
{
    let i = choose|i: int|
        0 <= i < regions.len() && !region_is_valid(regions[i], w, h) && (forall|j: int|
            0 <= j < i ==> region_is_valid(#[trigger] regions[j], w, h));
    assert(0 <= i < regions.len() && !region_is_valid(regions[i], w, h) && (forall|j: int|
        0 <= j < i ==> region_is_valid(#[trigger] regions[j], w, h)));
    if i < k {
        assert(region_is_valid(regions[i], w, h));
    }
    if k < i {
        assert(region_is_valid(regions[k], w, h));
    }
}


/// How one region of a recognition batch is to be cropped: the region, the
/// rotation applied to the crop, and the crop's sides after that rotation.
#[derive(Debug, Clone, Copy, PartialEq, Eq, Structural)]
pub struct RecCropPlan {
    pub region: RecTextRegion,
    pub rotation: Rotation,
    pub width: u32,
    pub height: u32,
}

/// The rotation given for the region at `index`, or `Deg0` when none is given.
pub open spec fn rotation_for(rotations: Seq<Rotation>, index: int) -> Rotation {
    if index < rotations.len() {
        rotations[index]
    } else {
        Rotation::Deg0
    }
}

/// The crop of `region` turned by `rotation`: a quarter turn swaps its sides.
pub open spec fn crop_plan(region: RecTextRegion, rotation: Rotation) -> RecCropPlan {
    match rotation {
        Rotation::Deg90 | Rotation::Deg270 => RecCropPlan {
            region,
            rotation,
            width: region.height,
            height: region.width,
        },
        _ => RecCropPlan { region, rotation, width: region.width, height: region.height },
    }
}

/// A crop keeps its region and rotation; a quarter turn (either way) swaps
/// the crop's width and height, and an upright or half-turned crop keeps them.
pub proof fn law_crop_turns_with_its_rotation(region: RecTextRegion, rotation: Rotation)
    ensures
        crop_plan(region, rotation).region == region,
        crop_plan(region, rotation).rotation == rotation,
        (rotation == Rotation::Deg90 || rotation == Rotation::Deg270) ==> crop_plan(region, rotation).width
            == region.height && crop_plan(region, rotation).height == region.width,
        (rotation == Rotation::Deg0 || rotation == Rotation::Deg180) ==> crop_plan(region, rotation).width
            == region.width && crop_plan(region, rotation).height == region.height,
{
}

/// What planning a recognition batch yields: the checks of the batch (empty
/// batch first, then the configuration, then the image and each region), and
/// on success one crop plan per region.
pub open spec fn recognition_plan(
    image_w: u32,
    image_h: u32,
    regions: Seq<RecTextRegion>,
    rotations: Seq<Rotation>,
    target_height: u32,
    max_width: u32,
) -> Result<Seq<RecCropPlan>, RecPreProcessorError> {
    if regions.len() == 0 {
        Err(RecPreProcessorError::EmptyRegions)
    } else if target_height == 0 || max_width == 0 {
        Err(RecPreProcessorError::InvalidConfiguration)
    } else {
        match regions_check(regions, image_w, image_h) {
            Err(e) => Err(e),
            Ok(_) => Ok(
                Seq::new(regions.len(), |i: int| crop_plan(regions[i], rotation_for(rotations, i))),
            ),
        }
    }
}

/// Plans the crops of a recognition batch: checks the batch, the configuration
/// and every region as recognition preprocessing does, and gives for each region
/// the rotation to apply (`Deg0` where none is given) and the rotated crop's sides.
pub fn plan_recognition_crops(
    image_dims: (u32, u32),
    regions: &[RecTextRegion],
    rotations: &[Rotation],
    target_height: u32,
    max_width: u32,
) -> (res: Result<Vec<RecCropPlan>, RecPreProcessorError>)
    requires
        regions_checkable(regions@, image_dims.0, image_dims.1),
    ensures
        match recognition_plan(image_dims.0, image_dims.1, regions@, rotations@, target_height, max_width) {
            Ok(plans) => res matches Ok(v) && v@ == plans,
            Err(e) => res == Err::<Vec<RecCropPlan>, RecPreProcessorError>(e),
        },
        res matches Ok(v) ==> v@.len() == regions@.len() && forall|i: int|
            0 <= i < v@.len() ==> {
                &&& (#[trigger] v@[i]).region == regions@[i]
                &&& v@[i].rotation == (if i < rotations@.len() { rotations@[i] } else { Rotation::Deg0 })
                &&& (v@[i].rotation == Rotation::Deg90 || v@[i].rotation == Rotation::Deg270) ==> v@[i].width
                    == regions@[i].height && v@[i].height == regions@[i].width
                &&& (v@[i].rotation == Rotation::Deg0 || v@[i].rotation == Rotation::Deg180) ==> v@[i].width
                    == regions@[i].width && v@[i].height == regions@[i].height
            },
{
    if regions.len() == 0 {
        return Err(RecPreProcessorError::EmptyRegions);
    }
    if target_height == 0 || max_width == 0 {
        return Err(RecPreProcessorError::InvalidConfiguration);
    }
    match validate_text_regions(image_dims, regions) {
        Err(e) => {
            return Err(e);
        },
        Ok(()) => {},
    }
    let mut plans: Vec<RecCropPlan> = Vec::new();
    let mut index: usize = 0;
    while index < regions.len()
        invariant
            0 <= index <= regions.len(),
            plans@.len() == index,
            forall|j: int|
                0 <= j < index ==> plans@[j] == crop_plan(regions@[j], rotation_for(rotations@, j)),
        decreases regions.len() - index,
    {
        let region = regions[index];
        let rotation = if index < rotations.len() {
            rotations[index]
        } else {
            Rotation::Deg0
        };
        let plan = match rotation {
            Rotation::Deg90 | Rotation::Deg270 => RecCropPlan {
                region,
                rotation,
                width: region.height,
                height: region.width,
            },
            _ => RecCropPlan { region, rotation, width: region.width, height: region.height },
        };
        plans.push(plan);
        index += 1;
    }
    assert(plans@ =~= Seq::new(
        regions@.len(),
        |i: int| crop_plan(regions@[i], rotation_for(rotations@, i)),
    ));
    proof {
        assert forall|i: int| 0 <= i < plans@.len() implies {
            &&& (#[trigger] plans@[i]).region == regions@[i]
            &&& plans@[i].rotation == (if i < rotations@.len() { rotations@[i] } else { Rotation::Deg0 })
            &&& (plans@[i].rotation == Rotation::Deg90 || plans@[i].rotation == Rotation::Deg270) ==> plans@[i].width
                == regions@[i].height && plans@[i].height == regions@[i].width
            &&& (plans@[i].rotation == Rotation::Deg0 || plans@[i].rotation == Rotation::Deg180) ==> plans@[i].width
                == regions@[i].width && plans@[i].height == regions@[i].height
        } by {
            law_crop_turns_with_its_rotation(regions@[i], rotation_for(rotations@, i));
        }
    }
    Ok(plans)
}

} // verus!
