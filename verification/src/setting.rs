//! The settings of a brush and their names in brush files.
use crate::text::same_text;
use vstd::prelude::*;

verus! {

/// One parameter of a brush.
#[derive(Clone, Copy, Debug, PartialEq, Eq, Hash, Structural)]
pub enum BrushSetting {
    Opaque,
    OpaqueMultiply,
    OpaqueLinearize,
    Radius,
    Hardness,
    AntiAliasing,
    DabsPerBasicRadius,
    DabsPerActualRadius,
    DabsPerSecond,
    RadiusByRandom,
    Speed1Slowness,
    Speed2Slowness,
    Speed1Gamma,
    Speed2Gamma,
    OffsetByRandom,
    OffsetBySpeed,
    OffsetBySpeedSlowness,
    SlowTracking,
    SlowTrackingPerDab,
    TrackingNoise,
    ColorH,
    ColorS,
    ColorV,
    RestoreColor,
    ChangeColorH,
    ChangeColorL,
    ChangeColorHslS,
    ChangeColorV,
    ChangeColorHsvS,
    Smudge,
    SmudgeLength,
    SmudgeLengthLog,
    SmudgeRadiusLog,
    Eraser,
    StrokeThreshold,
    StrokeDurationLogarithmic,
    StrokeHoldtime,
    CustomInput,
    CustomInputSlowness,
    EllipticalDabRatio,
    EllipticalDabAngle,
    DirectionFilter,
    LockAlpha,
    Colorize,
    SnapToPixel,
    PressureGainLog,
    Posterize,
    PosterizeNum,
    Paint,
    SmudgeTransparency,
    OffsetY,
    OffsetX,
    OffsetAngle,
    OffsetAngleAsc,
    OffsetAngleView,
    OffsetAngle2,
    OffsetAngle2Asc,
    OffsetAngle2View,
    OffsetAngleAdj,
    OffsetMultiplier,
    GridmapScale,
    GridmapScaleX,
    GridmapScaleY,
}

/// How many variants [`BrushSetting`] has.
pub const NUM_SETTINGS: usize = 63;

impl BrushSetting {
    /// Every variant, in the order of its index.
    pub const ALL: [BrushSetting; 63] = [
        BrushSetting::Opaque,
        BrushSetting::OpaqueMultiply,
        BrushSetting::OpaqueLinearize,
        BrushSetting::Radius,
        BrushSetting::Hardness,
        BrushSetting::AntiAliasing,
        BrushSetting::DabsPerBasicRadius,
        BrushSetting::DabsPerActualRadius,
        BrushSetting::DabsPerSecond,
        BrushSetting::RadiusByRandom,
        BrushSetting::Speed1Slowness,
        BrushSetting::Speed2Slowness,
        BrushSetting::Speed1Gamma,
        BrushSetting::Speed2Gamma,
        BrushSetting::OffsetByRandom,
        BrushSetting::OffsetBySpeed,
        BrushSetting::OffsetBySpeedSlowness,
        BrushSetting::SlowTracking,
        BrushSetting::SlowTrackingPerDab,
        BrushSetting::TrackingNoise,
        BrushSetting::ColorH,
        BrushSetting::ColorS,
        BrushSetting::ColorV,
        BrushSetting::RestoreColor,
        BrushSetting::ChangeColorH,
        BrushSetting::ChangeColorL,
        BrushSetting::ChangeColorHslS,
        BrushSetting::ChangeColorV,
        BrushSetting::ChangeColorHsvS,
        BrushSetting::Smudge,
        BrushSetting::SmudgeLength,
        BrushSetting::SmudgeLengthLog,
        BrushSetting::SmudgeRadiusLog,
        BrushSetting::Eraser,
        BrushSetting::StrokeThreshold,
        BrushSetting::StrokeDurationLogarithmic,
        BrushSetting::StrokeHoldtime,
        BrushSetting::CustomInput,
        BrushSetting::CustomInputSlowness,
        BrushSetting::EllipticalDabRatio,
        BrushSetting::EllipticalDabAngle,
        BrushSetting::DirectionFilter,
        BrushSetting::LockAlpha,
        BrushSetting::Colorize,
        BrushSetting::SnapToPixel,
        BrushSetting::PressureGainLog,
        BrushSetting::Posterize,
        BrushSetting::PosterizeNum,
        BrushSetting::Paint,
        BrushSetting::SmudgeTransparency,
        BrushSetting::OffsetY,
        BrushSetting::OffsetX,
        BrushSetting::OffsetAngle,
        BrushSetting::OffsetAngleAsc,
        BrushSetting::OffsetAngleView,
        BrushSetting::OffsetAngle2,
        BrushSetting::OffsetAngle2Asc,
        BrushSetting::OffsetAngle2View,
        BrushSetting::OffsetAngleAdj,
        BrushSetting::OffsetMultiplier,
        BrushSetting::GridmapScale,
        BrushSetting::GridmapScaleX,
        BrushSetting::GridmapScaleY,
    ];

    /// The name that brush files use.
    pub open spec fn name(self) -> Seq<char> {
        match self {
            BrushSetting::Opaque => "opaque"@,
            BrushSetting::OpaqueMultiply => "opaque_multiply"@,
            BrushSetting::OpaqueLinearize => "opaque_linearize"@,
            BrushSetting::Radius => "radius_logarithmic"@,
            BrushSetting::Hardness => "hardness"@,
            BrushSetting::AntiAliasing => "anti_aliasing"@,
            BrushSetting::DabsPerBasicRadius => "dabs_per_basic_radius"@,
            BrushSetting::DabsPerActualRadius => "dabs_per_actual_radius"@,
            BrushSetting::DabsPerSecond => "dabs_per_second"@,
            BrushSetting::RadiusByRandom => "radius_by_random"@,
            BrushSetting::Speed1Slowness => "speed1_slowness"@,
            BrushSetting::Speed2Slowness => "speed2_slowness"@,
            BrushSetting::Speed1Gamma => "speed1_gamma"@,
            BrushSetting::Speed2Gamma => "speed2_gamma"@,
            BrushSetting::OffsetByRandom => "offset_by_random"@,
            BrushSetting::OffsetBySpeed => "offset_by_speed"@,
            BrushSetting::OffsetBySpeedSlowness => "offset_by_speed_slowness"@,
            BrushSetting::SlowTracking => "slow_tracking"@,
            BrushSetting::SlowTrackingPerDab => "slow_tracking_per_dab"@,
            BrushSetting::TrackingNoise => "tracking_noise"@,
            BrushSetting::ColorH => "color_h"@,
            BrushSetting::ColorS => "color_s"@,
            BrushSetting::ColorV => "color_v"@,
            BrushSetting::RestoreColor => "restore_color"@,
            BrushSetting::ChangeColorH => "change_color_h"@,
            BrushSetting::ChangeColorL => "change_color_l"@,
            BrushSetting::ChangeColorHslS => "change_color_hsl_s"@,
            BrushSetting::ChangeColorV => "change_color_v"@,
            BrushSetting::ChangeColorHsvS => "change_color_hsv_s"@,
            BrushSetting::Smudge => "smudge"@,
            BrushSetting::SmudgeLength => "smudge_length"@,
            BrushSetting::SmudgeLengthLog => "smudge_length_log"@,
            BrushSetting::SmudgeRadiusLog => "smudge_radius_log"@,
            BrushSetting::Eraser => "eraser"@,
            BrushSetting::StrokeThreshold => "stroke_threshold"@,
            BrushSetting::StrokeDurationLogarithmic => "stroke_duration_logarithmic"@,
            BrushSetting::StrokeHoldtime => "stroke_holdtime"@,
            BrushSetting::CustomInput => "custom_input"@,
            BrushSetting::CustomInputSlowness => "custom_input_slowness"@,
            BrushSetting::EllipticalDabRatio => "elliptical_dab_ratio"@,
            BrushSetting::EllipticalDabAngle => "elliptical_dab_angle"@,
            BrushSetting::DirectionFilter => "direction_filter"@,
            BrushSetting::LockAlpha => "lock_alpha"@,
            BrushSetting::Colorize => "colorize"@,
            BrushSetting::SnapToPixel => "snap_to_pixel"@,
            BrushSetting::PressureGainLog => "pressure_gain_log"@,
            BrushSetting::Posterize => "posterize"@,
            BrushSetting::PosterizeNum => "posterize_num"@,
            BrushSetting::Paint => "paint_mode"@,
            BrushSetting::SmudgeTransparency => "smudge_transparency"@,
            BrushSetting::OffsetY => "offset_y"@,
            BrushSetting::OffsetX => "offset_x"@,
            BrushSetting::OffsetAngle => "offset_angle"@,
            BrushSetting::OffsetAngleAsc => "offset_angle_asc"@,
            BrushSetting::OffsetAngleView => "offset_angle_view"@,
            BrushSetting::OffsetAngle2 => "offset_angle_2"@,
            BrushSetting::OffsetAngle2Asc => "offset_angle_2_asc"@,
            BrushSetting::OffsetAngle2View => "offset_angle_2_view"@,
            BrushSetting::OffsetAngleAdj => "offset_angle_adj"@,
            BrushSetting::OffsetMultiplier => "offset_multiplier"@,
            BrushSetting::GridmapScale => "gridmap_scale"@,
            BrushSetting::GridmapScaleX => "gridmap_scale_x"@,
            BrushSetting::GridmapScaleY => "gridmap_scale_y"@,
        }
    }

    pub open spec fn index_spec(self) -> usize {
        match self {
            BrushSetting::Opaque => 0,
            BrushSetting::OpaqueMultiply => 1,
            BrushSetting::OpaqueLinearize => 2,
            BrushSetting::Radius => 3,
            BrushSetting::Hardness => 4,
            BrushSetting::AntiAliasing => 5,
            BrushSetting::DabsPerBasicRadius => 6,
            BrushSetting::DabsPerActualRadius => 7,
            BrushSetting::DabsPerSecond => 8,
            BrushSetting::RadiusByRandom => 9,
            BrushSetting::Speed1Slowness => 10,
            BrushSetting::Speed2Slowness => 11,
            BrushSetting::Speed1Gamma => 12,
            BrushSetting::Speed2Gamma => 13,
            BrushSetting::OffsetByRandom => 14,
            BrushSetting::OffsetBySpeed => 15,
            BrushSetting::OffsetBySpeedSlowness => 16,
            BrushSetting::SlowTracking => 17,
            BrushSetting::SlowTrackingPerDab => 18,
            BrushSetting::TrackingNoise => 19,
            BrushSetting::ColorH => 20,
            BrushSetting::ColorS => 21,
            BrushSetting::ColorV => 22,
            BrushSetting::RestoreColor => 23,
            BrushSetting::ChangeColorH => 24,
            BrushSetting::ChangeColorL => 25,
            BrushSetting::ChangeColorHslS => 26,
            BrushSetting::ChangeColorV => 27,
            BrushSetting::ChangeColorHsvS => 28,
            BrushSetting::Smudge => 29,
            BrushSetting::SmudgeLength => 30,
            BrushSetting::SmudgeLengthLog => 31,
            BrushSetting::SmudgeRadiusLog => 32,
            BrushSetting::Eraser => 33,
            BrushSetting::StrokeThreshold => 34,
            BrushSetting::StrokeDurationLogarithmic => 35,
            BrushSetting::StrokeHoldtime => 36,
            BrushSetting::CustomInput => 37,
            BrushSetting::CustomInputSlowness => 38,
            BrushSetting::EllipticalDabRatio => 39,
            BrushSetting::EllipticalDabAngle => 40,
            BrushSetting::DirectionFilter => 41,
            BrushSetting::LockAlpha => 42,
            BrushSetting::Colorize => 43,
            BrushSetting::SnapToPixel => 44,
            BrushSetting::PressureGainLog => 45,
            BrushSetting::Posterize => 46,
            BrushSetting::PosterizeNum => 47,
            BrushSetting::Paint => 48,
            BrushSetting::SmudgeTransparency => 49,
            BrushSetting::OffsetY => 50,
            BrushSetting::OffsetX => 51,
            BrushSetting::OffsetAngle => 52,
            BrushSetting::OffsetAngleAsc => 53,
            BrushSetting::OffsetAngleView => 54,
            BrushSetting::OffsetAngle2 => 55,
            BrushSetting::OffsetAngle2Asc => 56,
            BrushSetting::OffsetAngle2View => 57,
            BrushSetting::OffsetAngleAdj => 58,
            BrushSetting::OffsetMultiplier => 59,
            BrushSetting::GridmapScale => 60,
            BrushSetting::GridmapScaleX => 61,
            BrushSetting::GridmapScaleY => 62,
        }
    }

    /// The name that brush files use.
    pub fn cname(self) -> (r: &'static str)
        ensures
            r@ == self.name(),
    {
        match self {
            BrushSetting::Opaque => "opaque",
            BrushSetting::OpaqueMultiply => "opaque_multiply",
            BrushSetting::OpaqueLinearize => "opaque_linearize",
            BrushSetting::Radius => "radius_logarithmic",
            BrushSetting::Hardness => "hardness",
            BrushSetting::AntiAliasing => "anti_aliasing",
            BrushSetting::DabsPerBasicRadius => "dabs_per_basic_radius",
            BrushSetting::DabsPerActualRadius => "dabs_per_actual_radius",
            BrushSetting::DabsPerSecond => "dabs_per_second",
            BrushSetting::RadiusByRandom => "radius_by_random",
            BrushSetting::Speed1Slowness => "speed1_slowness",
            BrushSetting::Speed2Slowness => "speed2_slowness",
            BrushSetting::Speed1Gamma => "speed1_gamma",
            BrushSetting::Speed2Gamma => "speed2_gamma",
            BrushSetting::OffsetByRandom => "offset_by_random",
            BrushSetting::OffsetBySpeed => "offset_by_speed",
            BrushSetting::OffsetBySpeedSlowness => "offset_by_speed_slowness",
            BrushSetting::SlowTracking => "slow_tracking",
            BrushSetting::SlowTrackingPerDab => "slow_tracking_per_dab",
            BrushSetting::TrackingNoise => "tracking_noise",
            BrushSetting::ColorH => "color_h",
            BrushSetting::ColorS => "color_s",
            BrushSetting::ColorV => "color_v",
            BrushSetting::RestoreColor => "restore_color",
            BrushSetting::ChangeColorH => "change_color_h",
            BrushSetting::ChangeColorL => "change_color_l",
            BrushSetting::ChangeColorHslS => "change_color_hsl_s",
            BrushSetting::ChangeColorV => "change_color_v",
            BrushSetting::ChangeColorHsvS => "change_color_hsv_s",
            BrushSetting::Smudge => "smudge",
            BrushSetting::SmudgeLength => "smudge_length",
            BrushSetting::SmudgeLengthLog => "smudge_length_log",
            BrushSetting::SmudgeRadiusLog => "smudge_radius_log",
            BrushSetting::Eraser => "eraser",
            BrushSetting::StrokeThreshold => "stroke_threshold",
            BrushSetting::StrokeDurationLogarithmic => "stroke_duration_logarithmic",
            BrushSetting::StrokeHoldtime => "stroke_holdtime",
            BrushSetting::CustomInput => "custom_input",
            BrushSetting::CustomInputSlowness => "custom_input_slowness",
            BrushSetting::EllipticalDabRatio => "elliptical_dab_ratio",
            BrushSetting::EllipticalDabAngle => "elliptical_dab_angle",
            BrushSetting::DirectionFilter => "direction_filter",
            BrushSetting::LockAlpha => "lock_alpha",
            BrushSetting::Colorize => "colorize",
            BrushSetting::SnapToPixel => "snap_to_pixel",
            BrushSetting::PressureGainLog => "pressure_gain_log",
            BrushSetting::Posterize => "posterize",
            BrushSetting::PosterizeNum => "posterize_num",
            BrushSetting::Paint => "paint_mode",
            BrushSetting::SmudgeTransparency => "smudge_transparency",
            BrushSetting::OffsetY => "offset_y",
            BrushSetting::OffsetX => "offset_x",
            BrushSetting::OffsetAngle => "offset_angle",
            BrushSetting::OffsetAngleAsc => "offset_angle_asc",
            BrushSetting::OffsetAngleView => "offset_angle_view",
            BrushSetting::OffsetAngle2 => "offset_angle_2",
            BrushSetting::OffsetAngle2Asc => "offset_angle_2_asc",
            BrushSetting::OffsetAngle2View => "offset_angle_2_view",
            BrushSetting::OffsetAngleAdj => "offset_angle_adj",
            BrushSetting::OffsetMultiplier => "offset_multiplier",
            BrushSetting::GridmapScale => "gridmap_scale",
            BrushSetting::GridmapScaleX => "gridmap_scale_x",
            BrushSetting::GridmapScaleY => "gridmap_scale_y",
        }
    }

    /// The variant with the given name, if there is one.
    pub fn from_cname(s: &str) -> (r: Option<BrushSetting>)
        ensures
            forall|x: BrushSetting| r == Some(x) <==> #[trigger] x.name() == s@,
    {
        let mut i: usize = 0;
        while i < NUM_SETTINGS
            invariant
                i <= NUM_SETTINGS,
                forall|x: BrushSetting| x.index_spec() < i ==> #[trigger] x.name() != s@,
            decreases NUM_SETTINGS - i,
        {
            let all = BrushSetting::ALL;
            let candidate = all[i];
            proof {
                lemma_all(i as int);
                assert forall|x: BrushSetting| x.index_spec() == i implies x == candidate by {
                    lemma_index(x, candidate);
                }
            }
            if same_text(candidate.cname(), s) {
                proof {
                    assert forall|x: BrushSetting| x.name() == s@ implies x == candidate by {
                        law_names_are_distinct(x, candidate);
                    }
                }
                return Some(candidate);
            }
            i += 1;
        }
        proof {
            assert forall|x: BrushSetting| x.index_spec() < NUM_SETTINGS by {
                lemma_index(x, x);
            }
        }
        None
    }

    /// The place of the variant in [`BrushSetting::ALL`].
    #[verifier::when_used_as_spec(index_spec)]
    pub fn index(self) -> (r: usize)
        ensures
            r == self.index_spec(),
            r < NUM_SETTINGS,
    {
        match self {
            BrushSetting::Opaque => 0,
            BrushSetting::OpaqueMultiply => 1,
            BrushSetting::OpaqueLinearize => 2,
            BrushSetting::Radius => 3,
            BrushSetting::Hardness => 4,
            BrushSetting::AntiAliasing => 5,
            BrushSetting::DabsPerBasicRadius => 6,
            BrushSetting::DabsPerActualRadius => 7,
            BrushSetting::DabsPerSecond => 8,
            BrushSetting::RadiusByRandom => 9,
            BrushSetting::Speed1Slowness => 10,
            BrushSetting::Speed2Slowness => 11,
            BrushSetting::Speed1Gamma => 12,
            BrushSetting::Speed2Gamma => 13,
            BrushSetting::OffsetByRandom => 14,
            BrushSetting::OffsetBySpeed => 15,
            BrushSetting::OffsetBySpeedSlowness => 16,
            BrushSetting::SlowTracking => 17,
            BrushSetting::SlowTrackingPerDab => 18,
            BrushSetting::TrackingNoise => 19,
            BrushSetting::ColorH => 20,
            BrushSetting::ColorS => 21,
            BrushSetting::ColorV => 22,
            BrushSetting::RestoreColor => 23,
            BrushSetting::ChangeColorH => 24,
            BrushSetting::ChangeColorL => 25,
            BrushSetting::ChangeColorHslS => 26,
            BrushSetting::ChangeColorV => 27,
            BrushSetting::ChangeColorHsvS => 28,
            BrushSetting::Smudge => 29,
            BrushSetting::SmudgeLength => 30,
            BrushSetting::SmudgeLengthLog => 31,
            BrushSetting::SmudgeRadiusLog => 32,
            BrushSetting::Eraser => 33,
            BrushSetting::StrokeThreshold => 34,
            BrushSetting::StrokeDurationLogarithmic => 35,
            BrushSetting::StrokeHoldtime => 36,
            BrushSetting::CustomInput => 37,
            BrushSetting::CustomInputSlowness => 38,
            BrushSetting::EllipticalDabRatio => 39,
            BrushSetting::EllipticalDabAngle => 40,
            BrushSetting::DirectionFilter => 41,
            BrushSetting::LockAlpha => 42,
            BrushSetting::Colorize => 43,
            BrushSetting::SnapToPixel => 44,
            BrushSetting::PressureGainLog => 45,
            BrushSetting::Posterize => 46,
            BrushSetting::PosterizeNum => 47,
            BrushSetting::Paint => 48,
            BrushSetting::SmudgeTransparency => 49,
            BrushSetting::OffsetY => 50,
            BrushSetting::OffsetX => 51,
            BrushSetting::OffsetAngle => 52,
            BrushSetting::OffsetAngleAsc => 53,
            BrushSetting::OffsetAngleView => 54,
            BrushSetting::OffsetAngle2 => 55,
            BrushSetting::OffsetAngle2Asc => 56,
            BrushSetting::OffsetAngle2View => 57,
            BrushSetting::OffsetAngleAdj => 58,
            BrushSetting::OffsetMultiplier => 59,
            BrushSetting::GridmapScale => 60,
            BrushSetting::GridmapScaleX => 61,
            BrushSetting::GridmapScaleY => 62,
        }
    }
}

/// The list of all variants is in index order and misses none.
pub proof fn law_all_is_complete(x: BrushSetting)
    ensures
        0 <= x.index_spec() < NUM_SETTINGS,
        BrushSetting::ALL@[x.index_spec() as int] == x,
{
    lemma_index(x, x);
    lemma_all(x.index_spec() as int);
    lemma_index(BrushSetting::ALL@[x.index_spec() as int], x);
}

pub proof fn lemma_all(i: int)
    requires
        0 <= i < NUM_SETTINGS,
    ensures
        BrushSetting::ALL@[i].index_spec() == i,
{
    assert(BrushSetting::ALL@[0] == BrushSetting::Opaque);
    assert(BrushSetting::ALL@[1] == BrushSetting::OpaqueMultiply);
    assert(BrushSetting::ALL@[2] == BrushSetting::OpaqueLinearize);
    assert(BrushSetting::ALL@[3] == BrushSetting::Radius);
    assert(BrushSetting::ALL@[4] == BrushSetting::Hardness);
    assert(BrushSetting::ALL@[5] == BrushSetting::AntiAliasing);
    assert(BrushSetting::ALL@[6] == BrushSetting::DabsPerBasicRadius);
    assert(BrushSetting::ALL@[7] == BrushSetting::DabsPerActualRadius);
    assert(BrushSetting::ALL@[8] == BrushSetting::DabsPerSecond);
    assert(BrushSetting::ALL@[9] == BrushSetting::RadiusByRandom);
    assert(BrushSetting::ALL@[10] == BrushSetting::Speed1Slowness);
    assert(BrushSetting::ALL@[11] == BrushSetting::Speed2Slowness);
    assert(BrushSetting::ALL@[12] == BrushSetting::Speed1Gamma);
    assert(BrushSetting::ALL@[13] == BrushSetting::Speed2Gamma);
    assert(BrushSetting::ALL@[14] == BrushSetting::OffsetByRandom);
    assert(BrushSetting::ALL@[15] == BrushSetting::OffsetBySpeed);
    assert(BrushSetting::ALL@[16] == BrushSetting::OffsetBySpeedSlowness);
    assert(BrushSetting::ALL@[17] == BrushSetting::SlowTracking);
    assert(BrushSetting::ALL@[18] == BrushSetting::SlowTrackingPerDab);
    assert(BrushSetting::ALL@[19] == BrushSetting::TrackingNoise);
    assert(BrushSetting::ALL@[20] == BrushSetting::ColorH);
    assert(BrushSetting::ALL@[21] == BrushSetting::ColorS);
    assert(BrushSetting::ALL@[22] == BrushSetting::ColorV);
    assert(BrushSetting::ALL@[23] == BrushSetting::RestoreColor);
    assert(BrushSetting::ALL@[24] == BrushSetting::ChangeColorH);
    assert(BrushSetting::ALL@[25] == BrushSetting::ChangeColorL);
    assert(BrushSetting::ALL@[26] == BrushSetting::ChangeColorHslS);
    assert(BrushSetting::ALL@[27] == BrushSetting::ChangeColorV);
    assert(BrushSetting::ALL@[28] == BrushSetting::ChangeColorHsvS);
    assert(BrushSetting::ALL@[29] == BrushSetting::Smudge);
    assert(BrushSetting::ALL@[30] == BrushSetting::SmudgeLength);
    assert(BrushSetting::ALL@[31] == BrushSetting::SmudgeLengthLog);
    assert(BrushSetting::ALL@[32] == BrushSetting::SmudgeRadiusLog);
    assert(BrushSetting::ALL@[33] == BrushSetting::Eraser);
    assert(BrushSetting::ALL@[34] == BrushSetting::StrokeThreshold);
    assert(BrushSetting::ALL@[35] == BrushSetting::StrokeDurationLogarithmic);
    assert(BrushSetting::ALL@[36] == BrushSetting::StrokeHoldtime);
    assert(BrushSetting::ALL@[37] == BrushSetting::CustomInput);
    assert(BrushSetting::ALL@[38] == BrushSetting::CustomInputSlowness);
    assert(BrushSetting::ALL@[39] == BrushSetting::EllipticalDabRatio);
    assert(BrushSetting::ALL@[40] == BrushSetting::EllipticalDabAngle);
    assert(BrushSetting::ALL@[41] == BrushSetting::DirectionFilter);
    assert(BrushSetting::ALL@[42] == BrushSetting::LockAlpha);
    assert(BrushSetting::ALL@[43] == BrushSetting::Colorize);
    assert(BrushSetting::ALL@[44] == BrushSetting::SnapToPixel);
    assert(BrushSetting::ALL@[45] == BrushSetting::PressureGainLog);
    assert(BrushSetting::ALL@[46] == BrushSetting::Posterize);
    assert(BrushSetting::ALL@[47] == BrushSetting::PosterizeNum);
    assert(BrushSetting::ALL@[48] == BrushSetting::Paint);
    assert(BrushSetting::ALL@[49] == BrushSetting::SmudgeTransparency);
    assert(BrushSetting::ALL@[50] == BrushSetting::OffsetY);
    assert(BrushSetting::ALL@[51] == BrushSetting::OffsetX);
    assert(BrushSetting::ALL@[52] == BrushSetting::OffsetAngle);
    assert(BrushSetting::ALL@[53] == BrushSetting::OffsetAngleAsc);
    assert(BrushSetting::ALL@[54] == BrushSetting::OffsetAngleView);
    assert(BrushSetting::ALL@[55] == BrushSetting::OffsetAngle2);
    assert(BrushSetting::ALL@[56] == BrushSetting::OffsetAngle2Asc);
    assert(BrushSetting::ALL@[57] == BrushSetting::OffsetAngle2View);
    assert(BrushSetting::ALL@[58] == BrushSetting::OffsetAngleAdj);
    assert(BrushSetting::ALL@[59] == BrushSetting::OffsetMultiplier);
    assert(BrushSetting::ALL@[60] == BrushSetting::GridmapScale);
    assert(BrushSetting::ALL@[61] == BrushSetting::GridmapScaleX);
    assert(BrushSetting::ALL@[62] == BrushSetting::GridmapScaleY);
}

proof fn lemma_index(x: BrushSetting, y: BrushSetting)
    ensures
        x.index_spec() < NUM_SETTINGS,
        x.index_spec() == y.index_spec() ==> x == y,
{
}

/// A number by which any two names differ.
spec fn fingerprint(s: Seq<char>) -> int {
    s.len() + 256 * (s[5] as int + 256 * (s[s.len() - 1] as int + 256 * (s[s.len() - 3] as int + 256
        * (s[s.len() - 5] as int))))
}

spec fn fingerprint_of(x: BrushSetting) -> int {
    match x {
        BrushSetting::Opaque => 482938807558,
        BrushSetting::OpaqueMultiply => 500103210255,
        BrushSetting::OpaqueLinearize => 418380080400,
        BrushSetting::Radius => 500051440402,
        BrushSetting::Hardness => 431198790920,
        BrushSetting::AntiAliasing => 418380210445,
        BrushSetting::DabsPerBasicRadius => 418381000725,
        BrushSetting::DabsPerActualRadius => 418381000726,
        BrushSetting::DabsPerSecond => 435660550159,
        BrushSetting::RadiusByRandom => 418296722192,
        BrushSetting::Speed1Slowness => 512803156239,
        BrushSetting::Speed2Slowness => 512803156495,
        BrushSetting::Speed1Gamma => 444216717580,
        BrushSetting::Speed2Gamma => 444216717836,
        BrushSetting::OffsetByRandom => 418296722448,
        BrushSetting::OffsetBySpeed => 495622321167,
        BrushSetting::OffsetBySpeedSlowness => 512803173400,
        BrushSetting::SlowTracking => 426970149901,
        BrushSetting::SlowTrackingPerDab => 491310445589,
        BrushSetting::TrackingNoise => 474214656270,
        BrushSetting::ColorH => 465775910663,
        BrushSetting::ColorS => 465776631559,
        BrushSetting::ColorV => 465776828167,
        BrushSetting::RestoreColor => 427021201933,
        BrushSetting::ChangeColorH => 465775912206,
        BrushSetting::ChangeColorL => 465776174350,
        BrushSetting::ChangeColorHslS => 448496100626,
        BrushSetting::ChangeColorV => 465776829710,
        BrushSetting::ChangeColorHsvS => 448663872786,
        BrushSetting::Smudge => 469835801862,
        BrushSetting::SmudgeLength => 435526591757,
        BrushSetting::SmudgeLengthLog => 448495314193,
        BrushSetting::SmudgeRadiusLog => 495739954449,
        BrushSetting::Eraser => 491563151878,
        BrushSetting::StrokeThreshold => 495790089488,
        BrushSetting::StrokeDurationLogarithmic => 500051436827,
        BrushSetting::StrokeHoldtime => 431264982287,
        BrushSetting::CustomInput => 452858244364,
        BrushSetting::CustomInputSlowness => 512803171605,
        BrushSetting::EllipticalDabRatio => 491579733012,
        BrushSetting::EllipticalDabAngle => 418346529812,
        BrushSetting::DirectionFilter => 452925223952,
        BrushSetting::LockAlpha => 418497257738,
        BrushSetting::Colorize => 478509623560,
        BrushSetting::SnapToPixel => 483056710669,
        BrushSetting::PressureGainLog => 474265122065,
        BrushSetting::Posterize => 435559952905,
        BrushSetting::PosterizeNum => 435644363277,
        BrushSetting::Paint => 409890807562,
        BrushSetting::SmudgeTransparency => 491479721235,
        BrushSetting::OffsetY => 495875355656,
        BrushSetting::OffsetX => 495875290120,
        BrushSetting::OffsetAngle => 418346529804,
        BrushSetting::OffsetAngleAsc => 435425604624,
        BrushSetting::OffsetAngleView => 409791329297,
        BrushSetting::OffsetAngle2 => 444079436814,
        BrushSetting::OffsetAngle2Asc => 216382272530,
        BrushSetting::OffsetAngle2View => 409791329299,
        BrushSetting::OffsetAngleAdj => 435426063376,
        BrushSetting::OffsetMultiplier => 482805445649,
        BrushSetting::GridmapScale => 495555272973,
        BrushSetting::GridmapScaleX => 418314215695,
        BrushSetting::GridmapScaleY => 418314281231,
    }
}

proof fn lemma_fingerprint(x: BrushSetting)
    ensures
        fingerprint(x.name()) == fingerprint_of(x),
{
    match x {
        BrushSetting::Opaque => {
            reveal_strlit("opaque");
        },
        BrushSetting::OpaqueMultiply => {
            reveal_strlit("opaque_multiply");
        },
        BrushSetting::OpaqueLinearize => {
            reveal_strlit("opaque_linearize");
        },
        BrushSetting::Radius => {
            reveal_strlit("radius_logarithmic");
        },
        BrushSetting::Hardness => {
            reveal_strlit("hardness");
        },
        BrushSetting::AntiAliasing => {
            reveal_strlit("anti_aliasing");
        },
        BrushSetting::DabsPerBasicRadius => {
            reveal_strlit("dabs_per_basic_radius");
        },
        BrushSetting::DabsPerActualRadius => {
            reveal_strlit("dabs_per_actual_radius");
        },
        BrushSetting::DabsPerSecond => {
            reveal_strlit("dabs_per_second");
        },
        BrushSetting::RadiusByRandom => {
            reveal_strlit("radius_by_random");
        },
        BrushSetting::Speed1Slowness => {
            reveal_strlit("speed1_slowness");
        },
        BrushSetting::Speed2Slowness => {
            reveal_strlit("speed2_slowness");
        },
        BrushSetting::Speed1Gamma => {
            reveal_strlit("speed1_gamma");
        },
        BrushSetting::Speed2Gamma => {
            reveal_strlit("speed2_gamma");
        },
        BrushSetting::OffsetByRandom => {
            reveal_strlit("offset_by_random");
        },
        BrushSetting::OffsetBySpeed => {
            reveal_strlit("offset_by_speed");
        },
        BrushSetting::OffsetBySpeedSlowness => {
            reveal_strlit("offset_by_speed_slowness");
        },
        BrushSetting::SlowTracking => {
            reveal_strlit("slow_tracking");
        },
        BrushSetting::SlowTrackingPerDab => {
            reveal_strlit("slow_tracking_per_dab");
        },
        BrushSetting::TrackingNoise => {
            reveal_strlit("tracking_noise");
        },
        BrushSetting::ColorH => {
            reveal_strlit("color_h");
        },
        BrushSetting::ColorS => {
            reveal_strlit("color_s");
        },
        BrushSetting::ColorV => {
            reveal_strlit("color_v");
        },
        BrushSetting::RestoreColor => {
            reveal_strlit("restore_color");
        },
        BrushSetting::ChangeColorH => {
            reveal_strlit("change_color_h");
        },
        BrushSetting::ChangeColorL => {
            reveal_strlit("change_color_l");
        },
        BrushSetting::ChangeColorHslS => {
            reveal_strlit("change_color_hsl_s");
        },
        BrushSetting::ChangeColorV => {
            reveal_strlit("change_color_v");
        },
        BrushSetting::ChangeColorHsvS => {
            reveal_strlit("change_color_hsv_s");
        },
        BrushSetting::Smudge => {
            reveal_strlit("smudge");
        },
        BrushSetting::SmudgeLength => {
            reveal_strlit("smudge_length");
        },
        BrushSetting::SmudgeLengthLog => {
            reveal_strlit("smudge_length_log");
        },
        BrushSetting::SmudgeRadiusLog => {
            reveal_strlit("smudge_radius_log");
        },
        BrushSetting::Eraser => {
            reveal_strlit("eraser");
        },
        BrushSetting::StrokeThreshold => {
            reveal_strlit("stroke_threshold");
        },
        BrushSetting::StrokeDurationLogarithmic => {
            reveal_strlit("stroke_duration_logarithmic");
        },
        BrushSetting::StrokeHoldtime => {
            reveal_strlit("stroke_holdtime");
        },
        BrushSetting::CustomInput => {
            reveal_strlit("custom_input");
        },
        BrushSetting::CustomInputSlowness => {
            reveal_strlit("custom_input_slowness");
        },
        BrushSetting::EllipticalDabRatio => {
            reveal_strlit("elliptical_dab_ratio");
        },
        BrushSetting::EllipticalDabAngle => {
            reveal_strlit("elliptical_dab_angle");
        },
        BrushSetting::DirectionFilter => {
            reveal_strlit("direction_filter");
        },
        BrushSetting::LockAlpha => {
            reveal_strlit("lock_alpha");
        },
        BrushSetting::Colorize => {
            reveal_strlit("colorize");
        },
        BrushSetting::SnapToPixel => {
            reveal_strlit("snap_to_pixel");
        },
        BrushSetting::PressureGainLog => {
            reveal_strlit("pressure_gain_log");
        },
        BrushSetting::Posterize => {
            reveal_strlit("posterize");
        },
        BrushSetting::PosterizeNum => {
            reveal_strlit("posterize_num");
        },
        BrushSetting::Paint => {
            reveal_strlit("paint_mode");
        },
        BrushSetting::SmudgeTransparency => {
            reveal_strlit("smudge_transparency");
        },
        BrushSetting::OffsetY => {
            reveal_strlit("offset_y");
        },
        BrushSetting::OffsetX => {
            reveal_strlit("offset_x");
        },
        BrushSetting::OffsetAngle => {
            reveal_strlit("offset_angle");
        },
        BrushSetting::OffsetAngleAsc => {
            reveal_strlit("offset_angle_asc");
        },
        BrushSetting::OffsetAngleView => {
            reveal_strlit("offset_angle_view");
        },
        BrushSetting::OffsetAngle2 => {
            reveal_strlit("offset_angle_2");
        },
        BrushSetting::OffsetAngle2Asc => {
            reveal_strlit("offset_angle_2_asc");
        },
        BrushSetting::OffsetAngle2View => {
            reveal_strlit("offset_angle_2_view");
        },
        BrushSetting::OffsetAngleAdj => {
            reveal_strlit("offset_angle_adj");
        },
        BrushSetting::OffsetMultiplier => {
            reveal_strlit("offset_multiplier");
        },
        BrushSetting::GridmapScale => {
            reveal_strlit("gridmap_scale");
        },
        BrushSetting::GridmapScaleX => {
            reveal_strlit("gridmap_scale_x");
        },
        BrushSetting::GridmapScaleY => {
            reveal_strlit("gridmap_scale_y");
        },
    }
}

/// No two variants share a name, so a name that is read back gives the
/// variant that was written.
pub proof fn law_names_are_distinct(x: BrushSetting, y: BrushSetting)
    requires
        x.name() == y.name(),
    ensures
        x == y,
{
    lemma_fingerprint(x);
    lemma_fingerprint(y);
}

/// Every setting has the name that brush files give it.
pub proof fn law_names_are_those_of_brush_files()
    ensures
        BrushSetting::Opaque.name() == "opaque"@,
        BrushSetting::OpaqueMultiply.name() == "opaque_multiply"@,
        BrushSetting::OpaqueLinearize.name() == "opaque_linearize"@,
        BrushSetting::Radius.name() == "radius_logarithmic"@,
        BrushSetting::Hardness.name() == "hardness"@,
        BrushSetting::AntiAliasing.name() == "anti_aliasing"@,
        BrushSetting::DabsPerBasicRadius.name() == "dabs_per_basic_radius"@,
        BrushSetting::DabsPerActualRadius.name() == "dabs_per_actual_radius"@,
        BrushSetting::DabsPerSecond.name() == "dabs_per_second"@,
        BrushSetting::RadiusByRandom.name() == "radius_by_random"@,
        BrushSetting::Speed1Slowness.name() == "speed1_slowness"@,
        BrushSetting::Speed2Slowness.name() == "speed2_slowness"@,
        BrushSetting::Speed1Gamma.name() == "speed1_gamma"@,
        BrushSetting::Speed2Gamma.name() == "speed2_gamma"@,
        BrushSetting::OffsetByRandom.name() == "offset_by_random"@,
        BrushSetting::OffsetBySpeed.name() == "offset_by_speed"@,
        BrushSetting::OffsetBySpeedSlowness.name() == "offset_by_speed_slowness"@,
        BrushSetting::SlowTracking.name() == "slow_tracking"@,
        BrushSetting::SlowTrackingPerDab.name() == "slow_tracking_per_dab"@,
        BrushSetting::TrackingNoise.name() == "tracking_noise"@,
        BrushSetting::ColorH.name() == "color_h"@,
        BrushSetting::ColorS.name() == "color_s"@,
        BrushSetting::ColorV.name() == "color_v"@,
        BrushSetting::RestoreColor.name() == "restore_color"@,
        BrushSetting::ChangeColorH.name() == "change_color_h"@,
        BrushSetting::ChangeColorL.name() == "change_color_l"@,
        BrushSetting::ChangeColorHslS.name() == "change_color_hsl_s"@,
        BrushSetting::ChangeColorV.name() == "change_color_v"@,
        BrushSetting::ChangeColorHsvS.name() == "change_color_hsv_s"@,
        BrushSetting::Smudge.name() == "smudge"@,
        BrushSetting::SmudgeLength.name() == "smudge_length"@,
        BrushSetting::SmudgeLengthLog.name() == "smudge_length_log"@,
        BrushSetting::SmudgeRadiusLog.name() == "smudge_radius_log"@,
        BrushSetting::Eraser.name() == "eraser"@,
        BrushSetting::StrokeThreshold.name() == "stroke_threshold"@,
        BrushSetting::StrokeDurationLogarithmic.name() == "stroke_duration_logarithmic"@,
        BrushSetting::StrokeHoldtime.name() == "stroke_holdtime"@,
        BrushSetting::CustomInput.name() == "custom_input"@,
        BrushSetting::CustomInputSlowness.name() == "custom_input_slowness"@,
        BrushSetting::EllipticalDabRatio.name() == "elliptical_dab_ratio"@,
        BrushSetting::EllipticalDabAngle.name() == "elliptical_dab_angle"@,
        BrushSetting::DirectionFilter.name() == "direction_filter"@,
        BrushSetting::LockAlpha.name() == "lock_alpha"@,
        BrushSetting::Colorize.name() == "colorize"@,
        BrushSetting::SnapToPixel.name() == "snap_to_pixel"@,
        BrushSetting::PressureGainLog.name() == "pressure_gain_log"@,
        BrushSetting::Posterize.name() == "posterize"@,
        BrushSetting::PosterizeNum.name() == "posterize_num"@,
        BrushSetting::Paint.name() == "paint_mode"@,
        BrushSetting::SmudgeTransparency.name() == "smudge_transparency"@,
        BrushSetting::OffsetY.name() == "offset_y"@,
        BrushSetting::OffsetX.name() == "offset_x"@,
        BrushSetting::OffsetAngle.name() == "offset_angle"@,
        BrushSetting::OffsetAngleAsc.name() == "offset_angle_asc"@,
        BrushSetting::OffsetAngleView.name() == "offset_angle_view"@,
        BrushSetting::OffsetAngle2.name() == "offset_angle_2"@,
        BrushSetting::OffsetAngle2Asc.name() == "offset_angle_2_asc"@,
        BrushSetting::OffsetAngle2View.name() == "offset_angle_2_view"@,
        BrushSetting::OffsetAngleAdj.name() == "offset_angle_adj"@,
        BrushSetting::OffsetMultiplier.name() == "offset_multiplier"@,
        BrushSetting::GridmapScale.name() == "gridmap_scale"@,
        BrushSetting::GridmapScaleX.name() == "gridmap_scale_x"@,
        BrushSetting::GridmapScaleY.name() == "gridmap_scale_y"@,
{
}

} // verus!
