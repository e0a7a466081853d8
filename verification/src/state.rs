//! What a brush remembers from one event to the next.
use crate::double::Double;
use crate::rng::BrushRng;
use crate::single::Single;
use crate::values::{lemma_settings_are_values, settings_with, SettingValues};
use vstd::prelude::*;

verus! {

pub const MINUS_ONE: u32 = 0xbf80_0000;

/// The memory of a brush.
#[derive(Clone, Copy, Debug)]
pub struct BrushState {
    /// The slow-tracked cursor.
    pub actual_x: Single,
    pub actual_y: Single,
    /// The centre of the dabs, which lags behind the cursor by `slow_tracking_per_dab`.
    pub actual_dab_x: Single,
    pub actual_dab_y: Single,
    /// The last event.
    pub last_event_x: Single,
    pub last_event_y: Single,
    pub last_event_time: Double,
    /// The radius of the last dab, before any random change; zero after a reset.
    pub actual_radius: Single,
    /// The smoothed velocity.
    pub norm_dx_slow: Single,
    pub norm_dy_slow: Single,
    /// The smoothed speeds.
    pub norm_speed1_slow: Single,
    pub norm_speed2_slow: Single,
    /// The smoothed motion, where a step and its reverse count as one direction.
    pub direction_dx: Single,
    pub direction_dy: Single,
    /// The smoothed motion.
    pub direction_angle_dx: Single,
    pub direction_angle_dy: Single,
    /// The smoothed `custom_input` setting, which the next dab sees as an input.
    pub custom_input: Single,
    /// 1 or -1 by turns, one dab after another.
    pub flip: Single,
    /// How far the cursor still has to go before an event counts again.
    pub skip_distance: Single,
    pub skip_last_x: Single,
    pub skip_last_y: Single,
    pub skipped_dtime: Double,
    /// The smoothed tilt, in degrees.
    pub ascension: Single,
    pub declination: Single,
    pub declination_x: Single,
    pub declination_y: Single,
    pub stroke_total_painting_time: Double,
    pub stroke_current_idling_time: Double,
    /// How far the stroke has come, by its own measure.
    pub stroke_state: Single,
    /// Whether the pressure has risen over `stroke_threshold`.
    pub stroke_started: bool,
    /// The part of a dab that is due already.
    pub dist_past_dab: Single,
    pub last_dab_x: Single,
    pub last_dab_y: Single,
    pub last_dab_time: Double,
    /// The colour of the last dab.
    pub actual_h: Single,
    pub actual_s: Single,
    pub actual_v: Single,
    /// The smudge bucket, premultiplied.
    pub smudge_ra: Single,
    pub smudge_ga: Single,
    pub smudge_ba: Single,
    pub smudge_a: Single,
    /// The colour that was last picked up from the canvas, and how recent it is.
    pub prev_col_r: Single,
    pub prev_col_g: Single,
    pub prev_col_b: Single,
    pub prev_col_a: Single,
    pub prev_col_recentness: Single,
    /// Dab densities, one step late; zero after a reset.
    pub dabs_per_actual_radius: Single,
    pub dabs_per_basic_radius: Single,
    pub dabs_per_second: Single,
    /// The shape of the last dab; zero after a reset.
    pub actual_elliptical_ratio: Single,
    pub actual_elliptical_angle: Single,
    /// The settings at the last step.
    pub prev_settings: SettingValues,
    pub rng: BrushRng,
    /// The pressure of the last event.
    pub last_pressure: Single,
    /// The random input of the next dab.
    pub random_input: Single,
    /// Whether there was an event yet.
    pub started: bool,
}

/// The memory of a brush that has not painted.
pub open spec fn fresh(rng: BrushRng, prev_settings: SettingValues) -> BrushState {
    BrushState {
        actual_x: Single { bits: 0 },
        actual_y: Single { bits: 0 },
        actual_dab_x: Single { bits: 0 },
        actual_dab_y: Single { bits: 0 },
        last_event_x: Single { bits: 0 },
        last_event_y: Single { bits: 0 },
        last_event_time: Double { bits: 0 },
        actual_radius: Single { bits: 0 },
        norm_dx_slow: Single { bits: 0 },
        norm_dy_slow: Single { bits: 0 },
        norm_speed1_slow: Single { bits: 0 },
        norm_speed2_slow: Single { bits: 0 },
        direction_dx: Single { bits: 0 },
        direction_dy: Single { bits: 0 },
        direction_angle_dx: Single { bits: 0 },
        direction_angle_dy: Single { bits: 0 },
        custom_input: Single { bits: 0 },
        flip: Single { bits: MINUS_ONE },
        skip_distance: Single { bits: 0 },
        skip_last_x: Single { bits: 0 },
        skip_last_y: Single { bits: 0 },
        skipped_dtime: Double { bits: 0 },
        ascension: Single { bits: 0 },
        declination: Single { bits: 0 },
        declination_x: Single { bits: 0 },
        declination_y: Single { bits: 0 },
        stroke_total_painting_time: Double { bits: 0 },
        stroke_current_idling_time: Double { bits: 0 },
        stroke_state: Single { bits: 0 },
        stroke_started: false,
        dist_past_dab: Single { bits: 0 },
        last_dab_x: Single { bits: 0 },
        last_dab_y: Single { bits: 0 },
        last_dab_time: Double { bits: 0 },
        actual_h: Single { bits: 0 },
        actual_s: Single { bits: 0 },
        actual_v: Single { bits: 0 },
        smudge_ra: Single { bits: 0 },
        smudge_ga: Single { bits: 0 },
        smudge_ba: Single { bits: 0 },
        smudge_a: Single { bits: 0 },
        prev_col_r: Single { bits: 0 },
        prev_col_g: Single { bits: 0 },
        prev_col_b: Single { bits: 0 },
        prev_col_a: Single { bits: 0 },
        prev_col_recentness: Single { bits: 0 },
        dabs_per_actual_radius: Single { bits: 0 },
        dabs_per_basic_radius: Single { bits: 0 },
        dabs_per_second: Single { bits: 0 },
        actual_elliptical_ratio: Single { bits: 0 },
        actual_elliptical_angle: Single { bits: 0 },
        prev_settings,
        rng,
        last_pressure: Single { bits: 0 },
        random_input: Single { bits: 0 },
        started: false,
    }
}

/// Settings that are all zero.
pub open spec fn no_settings() -> SettingValues {
    settings_with(|i: int| Single { bits: 0 })
}

/// The memory of a new brush.
pub open spec fn new_memory(seed: u32) -> BrushState {
    fresh(BrushRng::of_seed(seed), no_settings())
}

impl BrushState {
    pub open spec fn wf(&self) -> bool {
        self.rng.wf()
    }

    /// The memory of a new brush whose random numbers begin at a seed.
    pub fn new(seed: u32) -> (r: BrushState)
        ensures
            r.wf(),
            r == new_memory(seed),
    {
        let prev_settings = SettingValues::new();
        proof {
            lemma_settings_are_values(prev_settings, |i: int| Single { bits: 0 });
        }
        BrushState {
            actual_x: Single { bits: 0 },
            actual_y: Single { bits: 0 },
            actual_dab_x: Single { bits: 0 },
            actual_dab_y: Single { bits: 0 },
            last_event_x: Single { bits: 0 },
            last_event_y: Single { bits: 0 },
            last_event_time: Double { bits: 0 },
            actual_radius: Single { bits: 0 },
            norm_dx_slow: Single { bits: 0 },
            norm_dy_slow: Single { bits: 0 },
            norm_speed1_slow: Single { bits: 0 },
            norm_speed2_slow: Single { bits: 0 },
            direction_dx: Single { bits: 0 },
            direction_dy: Single { bits: 0 },
            direction_angle_dx: Single { bits: 0 },
            direction_angle_dy: Single { bits: 0 },
            custom_input: Single { bits: 0 },
            flip: Single { bits: MINUS_ONE },
            skip_distance: Single { bits: 0 },
            skip_last_x: Single { bits: 0 },
            skip_last_y: Single { bits: 0 },
            skipped_dtime: Double { bits: 0 },
            ascension: Single { bits: 0 },
            declination: Single { bits: 0 },
            declination_x: Single { bits: 0 },
            declination_y: Single { bits: 0 },
            stroke_total_painting_time: Double { bits: 0 },
            stroke_current_idling_time: Double { bits: 0 },
            stroke_state: Single { bits: 0 },
            stroke_started: false,
            dist_past_dab: Single { bits: 0 },
            last_dab_x: Single { bits: 0 },
            last_dab_y: Single { bits: 0 },
            last_dab_time: Double { bits: 0 },
            actual_h: Single { bits: 0 },
            actual_s: Single { bits: 0 },
            actual_v: Single { bits: 0 },
            smudge_ra: Single { bits: 0 },
            smudge_ga: Single { bits: 0 },
            smudge_ba: Single { bits: 0 },
            smudge_a: Single { bits: 0 },
            prev_col_r: Single { bits: 0 },
            prev_col_g: Single { bits: 0 },
            prev_col_b: Single { bits: 0 },
            prev_col_a: Single { bits: 0 },
            prev_col_recentness: Single { bits: 0 },
            dabs_per_actual_radius: Single { bits: 0 },
            dabs_per_basic_radius: Single { bits: 0 },
            dabs_per_second: Single { bits: 0 },
            actual_elliptical_ratio: Single { bits: 0 },
            actual_elliptical_angle: Single { bits: 0 },
            prev_settings,
            rng: BrushRng::new(seed),
            last_pressure: Single { bits: 0 },
            random_input: Single { bits: 0 },
            started: false,
        }
    }

    /// Forgets everything but where the random numbers have got to.
    pub fn reset(&mut self)
        requires
            old(self).wf(),
        ensures
            final(self).wf(),
            *final(self) == fresh(old(self).rng, no_settings()),
    {
        let mut forgotten = BrushState::new(0);
        forgotten.rng = self.rng;
        *self = forgotten;
    }
}

impl Default for BrushState {
    fn default() -> (r: BrushState)
        ensures
            r.wf(),
            r == new_memory(1000),
    {
        BrushState::new(1000)
    }
}

} // verus!
