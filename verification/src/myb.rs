//! Brush files: what a parsed file means as a brush, and what a brush is
//! written as.
//!
//! A file maps names of settings to a base value and, by names of inputs, to
//! curves.  Names that are not known here are kept, so that reading and
//! writing a file loses nothing.
use crate::brush::{text, Brush, BrushView, UnknownSetting, UnknownView};
use crate::color::{hsv_to_rgb_spec, Hsv};
use crate::dab::base_color;
use crate::input::{law_names_are_distinct, BrushInput, NUM_INPUTS};
use crate::mapping::{constant_view, curves, InputMapping, Knot, SettingValue, SettingView};
use crate::means::size;
use crate::range::{lemma_known, lemma_no_units, lemma_one};
use crate::setting::{BrushSetting, NUM_SETTINGS};
use crate::single::{Single, ONE};
use crate::text::{holds, NameMap};
use vstd::arithmetic::power2::*;
use vstd::prelude::*;

verus! {

/// A setting as it stands in a file.
#[derive(Clone, Debug)]
pub struct RawSetting {
    pub base_value: Single,
    pub inputs: NameMap<Vec<Knot>>,
}

impl View for RawSetting {
    type V = UnknownView;

    open spec fn view(&self) -> UnknownView {
        UnknownView { base: self.base_value, inputs: curves(self.inputs@) }
    }
}

/// A brush as it stands in a file.
#[derive(Clone, Debug)]
pub struct RawBrush {
    pub version: u32,
    pub group: Option<String>,
    pub parent_brush_name: Option<String>,
    pub comment: Option<String>,
    pub settings: NameMap<RawSetting>,
}

/// The contents of a file, as mathematics.
#[verifier::ext_equal]
pub struct RawView {
    pub version: u32,
    pub group: Option<Seq<char>>,
    pub parent_brush_name: Option<Seq<char>>,
    pub comment: Option<Seq<char>>,
    pub settings: Map<Seq<char>, UnknownView>,
}

impl View for RawBrush {
    type V = RawView;

    open spec fn view(&self) -> RawView {
        RawView {
            version: self.version,
            group: text(self.group),
            parent_brush_name: text(self.parent_brush_name),
            comment: text(self.comment),
            settings: self.settings@.map_values(|s: RawSetting| s@),
        }
    }
}

impl RawBrush {
    /// No name occurs twice.
    pub open spec fn wf(&self) -> bool {
        &&& self.settings.wf()
        &&& forall|i: int|
            0 <= i < self.settings.entries@.len() ==> (
            #[trigger] self.settings.entries@[i]).1.inputs.wf()
    }
}

/// The version of a file that does not say.
pub fn default_version() -> (v: u32)
    ensures
        v == 3,
{
    3
}

/// The inputs, in the order of their names.
pub const INPUTS_BY_NAME: [BrushInput; 19] = [
    BrushInput::AttackAngle,
    BrushInput::BarrelRotation,
    BrushInput::BrushRadius,
    BrushInput::Custom,
    BrushInput::Direction,
    BrushInput::DirectionAngle,
    BrushInput::GridmapX,
    BrushInput::GridmapY,
    BrushInput::Pressure,
    BrushInput::Random,
    BrushInput::Speed1,
    BrushInput::Speed2,
    BrushInput::Stroke,
    BrushInput::Tilt,
    BrushInput::TiltAscension,
    BrushInput::TiltDeclination,
    BrushInput::TiltDeclinationX,
    BrushInput::TiltDeclinationY,
    BrushInput::Viewzoom,
];

/// The place of an input among the sorted names.
pub open spec fn name_place(i: BrushInput) -> int {
    match i {
        BrushInput::AttackAngle => 0,
        BrushInput::BarrelRotation => 1,
        BrushInput::BrushRadius => 2,
        BrushInput::Custom => 3,
        BrushInput::Direction => 4,
        BrushInput::DirectionAngle => 5,
        BrushInput::GridmapX => 6,
        BrushInput::GridmapY => 7,
        BrushInput::Pressure => 8,
        BrushInput::Random => 9,
        BrushInput::Speed1 => 10,
        BrushInput::Speed2 => 11,
        BrushInput::Stroke => 12,
        BrushInput::Tilt => 13,
        BrushInput::TiltAscension => 14,
        BrushInput::TiltDeclination => 15,
        BrushInput::TiltDeclinationX => 16,
        BrushInput::TiltDeclinationY => 17,
        BrushInput::Viewzoom => 18,
    }
}

proof fn lemma_by_name(k: int)
    requires
        0 <= k < NUM_INPUTS,
    ensures
        name_place(INPUTS_BY_NAME@[k]) == k,
{
    assert(INPUTS_BY_NAME@[0] == BrushInput::AttackAngle);
    assert(INPUTS_BY_NAME@[1] == BrushInput::BarrelRotation);
    assert(INPUTS_BY_NAME@[2] == BrushInput::BrushRadius);
    assert(INPUTS_BY_NAME@[3] == BrushInput::Custom);
    assert(INPUTS_BY_NAME@[4] == BrushInput::Direction);
    assert(INPUTS_BY_NAME@[5] == BrushInput::DirectionAngle);
    assert(INPUTS_BY_NAME@[6] == BrushInput::GridmapX);
    assert(INPUTS_BY_NAME@[7] == BrushInput::GridmapY);
    assert(INPUTS_BY_NAME@[8] == BrushInput::Pressure);
    assert(INPUTS_BY_NAME@[9] == BrushInput::Random);
    assert(INPUTS_BY_NAME@[10] == BrushInput::Speed1);
    assert(INPUTS_BY_NAME@[11] == BrushInput::Speed2);
    assert(INPUTS_BY_NAME@[12] == BrushInput::Stroke);
    assert(INPUTS_BY_NAME@[13] == BrushInput::Tilt);
    assert(INPUTS_BY_NAME@[14] == BrushInput::TiltAscension);
    assert(INPUTS_BY_NAME@[15] == BrushInput::TiltDeclination);
    assert(INPUTS_BY_NAME@[16] == BrushInput::TiltDeclinationX);
    assert(INPUTS_BY_NAME@[17] == BrushInput::TiltDeclinationY);
    assert(INPUTS_BY_NAME@[18] == BrushInput::Viewzoom);
}

proof fn lemma_name_place(i: BrushInput)
    ensures
        0 <= name_place(i) < NUM_INPUTS,
        INPUTS_BY_NAME@[name_place(i)] == i,
{
    assert(INPUTS_BY_NAME@[0] == BrushInput::AttackAngle);
    assert(INPUTS_BY_NAME@[1] == BrushInput::BarrelRotation);
    assert(INPUTS_BY_NAME@[2] == BrushInput::BrushRadius);
    assert(INPUTS_BY_NAME@[3] == BrushInput::Custom);
    assert(INPUTS_BY_NAME@[4] == BrushInput::Direction);
    assert(INPUTS_BY_NAME@[5] == BrushInput::DirectionAngle);
    assert(INPUTS_BY_NAME@[6] == BrushInput::GridmapX);
    assert(INPUTS_BY_NAME@[7] == BrushInput::GridmapY);
    assert(INPUTS_BY_NAME@[8] == BrushInput::Pressure);
    assert(INPUTS_BY_NAME@[9] == BrushInput::Random);
    assert(INPUTS_BY_NAME@[10] == BrushInput::Speed1);
    assert(INPUTS_BY_NAME@[11] == BrushInput::Speed2);
    assert(INPUTS_BY_NAME@[12] == BrushInput::Stroke);
    assert(INPUTS_BY_NAME@[13] == BrushInput::Tilt);
    assert(INPUTS_BY_NAME@[14] == BrushInput::TiltAscension);
    assert(INPUTS_BY_NAME@[15] == BrushInput::TiltDeclination);
    assert(INPUTS_BY_NAME@[16] == BrushInput::TiltDeclinationX);
    assert(INPUTS_BY_NAME@[17] == BrushInput::TiltDeclinationY);
    assert(INPUTS_BY_NAME@[18] == BrushInput::Viewzoom);
}

/// Whether an input goes by a name.
pub open spec fn known_input(name: Seq<char>) -> bool {
    exists|i: BrushInput| #[trigger] i.name() == name
}

/// Whether a setting goes by a name.
pub open spec fn known_setting(name: Seq<char>) -> bool {
    exists|s: BrushSetting| #[trigger] s.name() == name
}

/// The curves of the inputs that are known, in the order of their names: of
/// those among the first `n` names.
pub open spec fn known_curves(m: Map<Seq<char>, Seq<Knot>>, n: nat) -> Seq<(
    BrushInput,
    Seq<Knot>,
)>
    decreases n,
{
    if n == 0 {
        Seq::empty()
    } else {
        let i = INPUTS_BY_NAME@[n - 1];
        let before = known_curves(m, (n - 1) as nat);
        if m.contains_key(i.name()) {
            before.push((i, m[i.name()]))
        } else {
            before
        }
    }
}

/// The curves of the inputs that are not known.
pub open spec fn unknown_curves(m: Map<Seq<char>, Seq<Knot>>) -> Map<Seq<char>, Seq<Knot>> {
    Map::new(|k: Seq<char>| m.contains_key(k) && !known_input(k), |k: Seq<char>| m[k])
}

/// What a setting in a file means.
pub open spec fn read_setting(r: UnknownView) -> SettingView {
    SettingView {
        base: r.base,
        inputs: known_curves(r.inputs, NUM_INPUTS as nat),
        unknown: unknown_curves(r.inputs),
    }
}

/// The base value of a setting that a file leaves out, if that is not what
/// new brushes have.
pub open spec fn default_base_spec(s: BrushSetting) -> Option<Single> {
    match s {
        BrushSetting::Opaque => Some(Single { bits: 0x3f80_0000 }),
        BrushSetting::OpaqueLinearize => Some(Single { bits: 0x3f66_6666 }),
        BrushSetting::Radius => Some(Single { bits: 0x4000_0000 }),
        BrushSetting::Hardness => Some(Single { bits: 0x3f4c_cccd }),
        BrushSetting::AntiAliasing => Some(Single { bits: 0x3f80_0000 }),
        BrushSetting::DabsPerActualRadius => Some(Single { bits: 0x4000_0000 }),
        BrushSetting::Speed1Slowness => Some(Single { bits: 0x3d23_d70a }),
        BrushSetting::Speed2Slowness => Some(Single { bits: 0x3f4c_cccd }),
        BrushSetting::Speed1Gamma => Some(Single { bits: 0x4080_0000 }),
        BrushSetting::Speed2Gamma => Some(Single { bits: 0x4080_0000 }),
        BrushSetting::OffsetBySpeedSlowness => Some(Single { bits: 0x3f80_0000 }),
        BrushSetting::SmudgeLength => Some(Single { bits: 0x3f00_0000 }),
        BrushSetting::StrokeDurationLogarithmic => Some(Single { bits: 0x4080_0000 }),
        BrushSetting::EllipticalDabRatio => Some(Single { bits: 0x3f80_0000 }),
        BrushSetting::EllipticalDabAngle => Some(Single { bits: 0x42b4_0000 }),
        BrushSetting::DirectionFilter => Some(Single { bits: 0x4000_0000 }),
        BrushSetting::GridmapScaleX => Some(Single { bits: 0x3f80_0000 }),
        BrushSetting::GridmapScaleY => Some(Single { bits: 0x3f80_0000 }),
        BrushSetting::PosterizeNum => Some(Single { bits: 0x3d4c_cccd }),
        BrushSetting::Paint => Some(Single { bits: 0x0000_0000 }),
        _ => None,
    }
}

#[verifier::when_used_as_spec(default_base_spec)]
pub fn default_base(s: BrushSetting) -> (r: Option<Single>)
    ensures
        r == default_base_spec(s),
{
    match s {
        BrushSetting::Opaque => Some(Single { bits: 0x3f80_0000 }),
        BrushSetting::OpaqueLinearize => Some(Single { bits: 0x3f66_6666 }),
        BrushSetting::Radius => Some(Single { bits: 0x4000_0000 }),
        BrushSetting::Hardness => Some(Single { bits: 0x3f4c_cccd }),
        BrushSetting::AntiAliasing => Some(Single { bits: 0x3f80_0000 }),
        BrushSetting::DabsPerActualRadius => Some(Single { bits: 0x4000_0000 }),
        BrushSetting::Speed1Slowness => Some(Single { bits: 0x3d23_d70a }),
        BrushSetting::Speed2Slowness => Some(Single { bits: 0x3f4c_cccd }),
        BrushSetting::Speed1Gamma => Some(Single { bits: 0x4080_0000 }),
        BrushSetting::Speed2Gamma => Some(Single { bits: 0x4080_0000 }),
        BrushSetting::OffsetBySpeedSlowness => Some(Single { bits: 0x3f80_0000 }),
        BrushSetting::SmudgeLength => Some(Single { bits: 0x3f00_0000 }),
        BrushSetting::StrokeDurationLogarithmic => Some(Single { bits: 0x4080_0000 }),
        BrushSetting::EllipticalDabRatio => Some(Single { bits: 0x3f80_0000 }),
        BrushSetting::EllipticalDabAngle => Some(Single { bits: 0x42b4_0000 }),
        BrushSetting::DirectionFilter => Some(Single { bits: 0x4000_0000 }),
        BrushSetting::GridmapScaleX => Some(Single { bits: 0x3f80_0000 }),
        BrushSetting::GridmapScaleY => Some(Single { bits: 0x3f80_0000 }),
        BrushSetting::PosterizeNum => Some(Single { bits: 0x3d4c_cccd }),
        BrushSetting::Paint => Some(Single { bits: 0x0000_0000 }),
        _ => None,
    }
}

/// The line through the origin and `(1, 1)`.
pub open spec fn diagonal() -> Seq<Knot> {
    let zero = Single { bits: 0 };
    let one = Single { bits: ONE };
    seq![(zero, zero), (one, one)]
}

/// A setting that was left alone.
pub open spec fn blank(v: SettingView) -> bool {
    &&& v.base.same_spec(Single { bits: 0 })
    &&& v.inputs.len() == 0
    &&& v.unknown == Map::<Seq<char>, Seq<Knot>>::empty()
}

fn is_blank(v: &SettingValue) -> (r: bool)
    ensures
        r == blank(v@),
{
    v.base_value.same(Single { bits: 0 }) && v.inputs.len() == 0 && no_curves(&v.unknown_inputs)
}

fn no_curves(inputs: &NameMap<Vec<Knot>>) -> (r: bool)
    ensures
        r == (curves(inputs@) == Map::<Seq<char>, Seq<Knot>>::empty()),
{
    let r: bool = inputs.is_empty();
    proof {
        let m = inputs@;
        if m == Map::<Seq<char>, Vec<Knot>>::empty() {
            assert(curves(m) =~= Map::<Seq<char>, Seq<Knot>>::empty());
        }
        if curves(m) == Map::<Seq<char>, Seq<Knot>>::empty() {
            assert forall|k: Seq<char>| !m.contains_key(k) by {
                assert(!curves(m).contains_key(k));
            }
            assert(m =~= Map::<Seq<char>, Vec<Knot>>::empty());
        }
    }
    r
}

/// A setting with its default value where it was left alone.  By default
/// `opaque_multiply` follows the pressure.
pub open spec fn defaulted(s: BrushSetting, v: SettingView) -> SettingView {
    if !blank(v) {
        v
    } else if s == BrushSetting::OpaqueMultiply {
        SettingView {
            base: Single { bits: 0 },
            inputs: seq![(BrushInput::Pressure, diagonal())],
            unknown: Map::empty(),
        }
    } else {
        match default_base_spec(s) {
            Some(d) => constant_view(d),
            None => v,
        }
    }
}

/// The value of a setting that a file leaves out.
pub open spec fn absent(s: BrushSetting) -> SettingView {
    defaulted(s, constant_view(Single { bits: 0 }))
}

fn pressure_setting() -> (v: SettingValue)
    ensures
        v.wf(),
        v@ == (SettingView {
            base: Single { bits: 0 },
            inputs: seq![(BrushInput::Pressure, diagonal())],
            unknown: Map::empty(),
        }),
{
    let zero = Single { bits: 0 };
    let one = Single { bits: ONE };
    let mut v = SettingValue::constant(zero);
    let mut points: Vec<Knot> = Vec::new();
    points.push((zero, zero));
    points.push((one, one));
    assert(points@ =~= diagonal());
    let m = InputMapping { input: BrushInput::Pressure, points };
    v.inputs.push(m);
    assert(v@.inputs =~= seq![(BrushInput::Pressure, diagonal())]);
    v
}

/// A setting that a file need not hold: it was left alone, and it is read so
/// where the file leaves it out.
pub open spec fn omitted(s: BrushSetting, v: SettingView) -> bool {
    blank(v) && blank(absent(s))
}

fn is_omitted(s: BrushSetting, v: &SettingValue) -> (r: bool)
    ensures
        r == omitted(s, v@),
{
    let zero = Single { bits: 0 };
    assert(blank(constant_view(zero)));
    if s == BrushSetting::OpaqueMultiply {
        false
    } else {
        match default_base(s) {
            Some(d) => d.same(zero) && is_blank(v),
            None => is_blank(v),
        }
    }
}

/// Gives every setting that was left alone its default value.
pub fn apply_defaults(brush: &mut Brush)
    requires
        old(brush).wf(),
    ensures
        final(brush).wf(),
        final(brush)@ == (BrushView {
            settings: Seq::new(
                NUM_SETTINGS as nat,
                |i: int| defaulted(BrushSetting::ALL@[i], old(brush)@.settings[i]),
            ),
            ..old(brush)@
        }),
{
    let ghost before = brush@;
    let mut i: usize = 0;
    while i < NUM_SETTINGS
        invariant
            i <= NUM_SETTINGS,
            brush.wf(),
            before.settings.len() == NUM_SETTINGS,
            brush@ == (BrushView { settings: brush@.settings, ..before }),
            brush@.settings.len() == NUM_SETTINGS,
            forall|j: int|
                0 <= j < NUM_SETTINGS ==> #[trigger] brush@.settings[j] == (if j < i {
                    defaulted(BrushSetting::ALL@[j], before.settings[j])
                } else {
                    before.settings[j]
                }),
        decreases NUM_SETTINGS - i,
    {
        let all = BrushSetting::ALL;
        let s = all[i];
        proof {
            crate::setting::lemma_all(i as int);
        }
        if is_blank(brush.get(s)) {
            if s == BrushSetting::OpaqueMultiply {
                brush.set(s, pressure_setting());
            } else {
                match default_base(s) {
                    Some(d) => {
                        brush.set(s, SettingValue::constant(d));
                    },
                    None => {},
                }
            }
        }
        i += 1;
    }
    assert(brush@.settings =~= Seq::new(
        NUM_SETTINGS as nat,
        |i: int| defaulted(BrushSetting::ALL@[i], before.settings[i]),
    ));
}

/// What a file means.
pub open spec fn read(raw: RawView) -> BrushView {
    BrushView {
        version: raw.version,
        group: raw.group,
        parent_brush_name: raw.parent_brush_name,
        comment: raw.comment,
        settings: Seq::new(
            NUM_SETTINGS as nat,
            |i: int|
                {
                    let s = BrushSetting::ALL@[i];
                    if raw.settings.contains_key(s.name()) {
                        read_setting(raw.settings[s.name()])
                    } else {
                        absent(s)
                    }
                },
        ),
        unknown: Map::new(
            |k: Seq<char>| raw.settings.contains_key(k) && !known_setting(k),
            |k: Seq<char>| raw.settings[k],
        ),
    }
}

fn copy_points(v: &Vec<Knot>) -> (r: Vec<Knot>)
    ensures
        r@ == v@,
{
    let mut r: Vec<Knot> = Vec::new();
    let mut i: usize = 0;
    while i < v.len()
        invariant
            i <= v@.len(),
            r@ == v@.take(i as int),
        decreases v@.len() - i,
    {
        r.push(v[i]);
        assert(r@ =~= v@.take(i + 1));
        i += 1;
    }
    assert(r@ =~= v@);
    r
}

/// The curves of known inputs.
fn known_inputs(inputs: &NameMap<Vec<Knot>>) -> (r: Vec<InputMapping>)
    requires
        inputs.wf(),
    ensures
        r@.map_values(|m: InputMapping| m@) == known_curves(curves(inputs@), NUM_INPUTS as nat),
{
    let mut r: Vec<InputMapping> = Vec::new();
    let ghost m = curves(inputs@);
    let f = Ghost(|m: InputMapping| m@);
    let mut n: usize = 0;
    assert(r@.map_values(f@) =~= known_curves(m, 0));
    while n < NUM_INPUTS
        invariant
            n <= NUM_INPUTS,
            inputs.wf(),
            m == curves(inputs@),
            f@ == (|m: InputMapping| m@),
            r@.map_values(f@) == known_curves(m, n as nat),
        decreases NUM_INPUTS - n,
    {
        let all = INPUTS_BY_NAME;
        let input = all[n];
        let ghost before = r@;
        match inputs.get(input.cname()) {
            Some(points) => {
                let mapping = InputMapping { input, points: copy_points(points) };
                r.push(mapping);
                assert(r@.map_values(f@) =~= before.map_values(f@).push(mapping@));
            },
            None => {},
        }
        n += 1;
    }
    r
}

/// The curves of unknown inputs.
fn unknown_inputs(inputs: &NameMap<Vec<Knot>>) -> (r: NameMap<Vec<Knot>>)
    requires
        inputs.wf(),
    ensures
        r.wf(),
        curves(r@) == unknown_curves(curves(inputs@)),
{
    let mut r: NameMap<Vec<Knot>> = NameMap::new();
    let mut i: usize = 0;
    let ghost entries = inputs.entries@;
    while i < inputs.entries.len()
        invariant
            i <= entries.len(),
            entries == inputs.entries@,
            inputs.wf(),
            r.wf(),
            forall|k: Seq<char>| #[trigger]
                r@.contains_key(k) <==> holds(entries, i as int, k) && !known_input(k),
            forall|j: int|
                0 <= j < i && !known_input((#[trigger] entries[j]).0@) ==> r@[entries[j].0@]@
                    == entries[j].1@,
        decreases entries.len() - i,
    {
        let ghost before = r@;
        let name = &inputs.entries[i].0;
        proof {
            lemma_holds_next(entries, i as int);
        }
        match BrushInput::from_cname(name.as_str()) {
            Some(x) => {
                assert(x.name() == name@);
            },
            None => {
                assert(!known_input(name@)) by {
                    if known_input(name@) {
                        let x = choose|x: BrushInput| #[trigger] x.name() == name@;
                    }
                }
                r.insert(name.clone(), copy_points(&inputs.entries[i].1));
            },
        }
        i += 1;
    }
    proof {
        assert forall|k: Seq<char>| #[trigger]
            curves(r@).contains_key(k) == unknown_curves(curves(inputs@)).contains_key(k) by {
            assert(r@.contains_key(k) <==> holds(entries, entries.len() as int, k)
                && !known_input(k));
        }
        assert forall|k: Seq<char>| curves(r@).contains_key(k) implies #[trigger] curves(r@)[k]
            == unknown_curves(curves(inputs@))[k] by {
            assert(r@.contains_key(k));
            let j = choose|j: int| 0 <= j < entries.len() && (#[trigger] entries[j]).0@ == k;
            inputs.lemma_entry(j);
        }
        assert(curves(r@) =~= unknown_curves(curves(inputs@)));
    }
    r
}

proof fn lemma_holds_next<T>(entries: Seq<(String, T)>, i: int)
    requires
        0 <= i < entries.len(),
    ensures
        forall|k: Seq<char>| #[trigger]
            holds(entries, i + 1, k) <==> holds(entries, i, k) || entries[i].0@ == k,
{
    assert forall|k: Seq<char>| #[trigger] holds(entries, i + 1, k) <==> holds(entries, i, k)
        || entries[i].0@ == k by {
        if holds(entries, i, k) {
            let j = choose|j: int| 0 <= j < i && (#[trigger] entries[j]).0@ == k;
            assert(0 <= j < i + 1 && entries[j].0@ == k);
        }
    }
}

/// Reads one setting.
fn setting_from_raw(raw: &RawSetting) -> (v: SettingValue)
    requires
        raw.inputs.wf(),
    ensures
        v.wf(),
        v@ == read_setting(raw@),
{
    SettingValue {
        base_value: raw.base_value,
        inputs: known_inputs(&raw.inputs),
        unknown_inputs: unknown_inputs(&raw.inputs),
    }
}

fn copy_curves(m: &NameMap<Vec<Knot>>) -> (r: NameMap<Vec<Knot>>)
    requires
        m.wf(),
    ensures
        r.wf(),
        curves(r@) == curves(m@),
{
    let mut r: NameMap<Vec<Knot>> = NameMap::new();
    add_curves(&mut r, m);
    assert(curves(r@) =~= curves(m@));
    r
}

/// Puts the curves of `m` over those of `r`.
fn add_curves(r: &mut NameMap<Vec<Knot>>, m: &NameMap<Vec<Knot>>)
    requires
        old(r).wf(),
        m.wf(),
    ensures
        final(r).wf(),
        curves(final(r)@) == curves(old(r)@).union_prefer_right(curves(m@)),
{
    let ghost first = r@;
    let ghost entries = m.entries@;
    let mut i: usize = 0;
    while i < m.entries.len()
        invariant
            i <= entries.len(),
            entries == m.entries@,
            m.wf(),
            r.wf(),
            forall|k: Seq<char>| #[trigger]
                r@.contains_key(k) <==> first.contains_key(k) || holds(entries, i as int, k),
            forall|j: int| 0 <= j < i ==> r@[(#[trigger] entries[j]).0@]@ == entries[j].1@,
            forall|k: Seq<char>|
                first.contains_key(k) && !holds(entries, i as int, k) ==> #[trigger] r@[k]
                    == first[k],
        decreases entries.len() - i,
    {
        proof {
            lemma_holds_next(entries, i as int);
        }
        r.insert(m.entries[i].0.clone(), copy_points(&m.entries[i].1));
        i += 1;
    }
    proof {
        let whole = curves(first).union_prefer_right(curves(m@));
        assert forall|k: Seq<char>| #[trigger]
            curves(r@).contains_key(k) == whole.contains_key(k) by {
            assert(r@.contains_key(k) <==> first.contains_key(k) || holds(
                entries,
                entries.len() as int,
                k,
            ));
        }
        assert forall|k: Seq<char>| curves(r@).contains_key(k) implies #[trigger] curves(r@)[k]
            == whole[k] by {
            if holds(entries, entries.len() as int, k) {
                let j = choose|j: int| 0 <= j < entries.len() && (#[trigger] entries[j]).0@ == k;
                m.lemma_entry(j);
                assert(curves(m@).contains_key(k));
            } else {
                assert(!curves(m@).contains_key(k));
                assert(r@[k] == first[k]);
            }
        }
        assert(curves(r@) =~= whole);
    }
}

/// The settings that are not known.
fn unknown_settings(raw: &RawBrush) -> (r: NameMap<UnknownSetting>)
    requires
        raw.wf(),
    ensures
        r.wf(),
        forall|i: int| 0 <= i < r.entries@.len() ==> (#[trigger] r.entries@[i]).1.inputs.wf(),
        r@.map_values(|u: UnknownSetting| u@) == read(raw@).unknown,
{
    let mut r: NameMap<UnknownSetting> = NameMap::new();
    let mut i: usize = 0;
    let ghost entries = raw.settings.entries@;
    while i < raw.settings.entries.len()
        invariant
            i <= entries.len(),
            entries == raw.settings.entries@,
            raw.wf(),
            r.wf(),
            forall|k: Seq<char>| r@.contains_key(k) ==> (#[trigger] r@[k]).inputs.wf(),
            forall|k: Seq<char>| #[trigger]
                r@.contains_key(k) <==> holds(entries, i as int, k) && !known_setting(k),
            forall|j: int|
                0 <= j < i && !known_setting((#[trigger] entries[j]).0@) ==> r@[entries[j].0@]@
                    == entries[j].1@,
        decreases entries.len() - i,
    {
        let name = &raw.settings.entries[i].0;
        proof {
            lemma_holds_next(entries, i as int);
        }
        match BrushSetting::from_cname(name.as_str()) {
            Some(x) => {
                assert(x.name() == name@);
            },
            None => {
                assert(!known_setting(name@)) by {
                    if known_setting(name@) {
                        let x = choose|x: BrushSetting| #[trigger] x.name() == name@;
                    }
                }
                let s = &raw.settings.entries[i].1;
                let u = UnknownSetting {
                    base_value: s.base_value,
                    inputs: copy_curves(&s.inputs),
                };
                r.insert(name.clone(), u);
            },
        }
        i += 1;
    }
    proof {
        assert forall|j: int| 0 <= j < r.entries@.len() implies (
        #[trigger] r.entries@[j]).1.inputs.wf() by {
            r.lemma_entry(j);
        }
        let seen = r@.map_values(|u: UnknownSetting| u@);
        let whole = read(raw@).unknown;
        assert forall|k: Seq<char>| #[trigger]
            seen.contains_key(k) == whole.contains_key(k) by {
            assert(r@.contains_key(k) <==> holds(entries, entries.len() as int, k)
                && !known_setting(k));
        }
        assert forall|k: Seq<char>| seen.contains_key(k) implies #[trigger] seen[k]
            == whole[k] by {
            assert(r@.contains_key(k));
            let j = choose|j: int| 0 <= j < entries.len() && (#[trigger] entries[j]).0@ == k;
            raw.settings.lemma_entry(j);
        }
        assert(seen =~= whole);
    }
    r
}

fn copy_text(s: &Option<String>) -> (r: Option<String>)
    ensures
        text(r) == text(*s),
{
    match s {
        Some(t) => Some(t.clone()),
        None => None,
    }
}

/// Reads the contents of a file.
pub fn brush_from_raw(raw: &RawBrush) -> (brush: Brush)
    requires
        raw.wf(),
    ensures
        brush.wf(),
        brush@ == read(raw@),
{
    let mut brush = Brush::new();
    brush.version = raw.version;
    brush.group = copy_text(&raw.group);
    brush.parent_brush_name = copy_text(&raw.parent_brush_name);
    brush.comment = copy_text(&raw.comment);
    apply_defaults(&mut brush);
    let ghost names = BrushView { settings: Seq::empty(), ..brush@ };
    let ghost goal = read(raw@).settings;
    let mut i: usize = 0;
    while i < NUM_SETTINGS
        invariant
            i <= NUM_SETTINGS,
            raw.wf(),
            brush.wf(),
            (BrushView { settings: Seq::empty(), ..brush@ }) == names,
            brush@.settings.len() == NUM_SETTINGS,
            goal == read(raw@).settings,
            forall|j: int|
                0 <= j < NUM_SETTINGS ==> #[trigger] brush@.settings[j] == (if j < i {
                    goal[j]
                } else {
                    absent(BrushSetting::ALL@[j])
                }),
        decreases NUM_SETTINGS - i,
    {
        let all = BrushSetting::ALL;
        let s = all[i];
        proof {
            crate::setting::lemma_all(i as int);
        }
        match raw.settings.get(s.cname()) {
            Some(r) => {
                proof {
                    let j = choose|j: int|
                        0 <= j < raw.settings.entries@.len() && (
                        #[trigger] raw.settings.entries@[j]).0@ == s.name();
                    raw.settings.lemma_entry(j);
                }
                brush.set(s, setting_from_raw(r));
            },
            None => {},
        }
        i += 1;
    }
    brush.unknown_settings = unknown_settings(raw);
    assert(brush@.settings =~= goal);
    assert(brush@ =~= read(raw@));
    brush
}

/// The curves of mapped inputs by their names; of two for one input the
/// later.
pub open spec fn input_map(s: Seq<(BrushInput, Seq<Knot>)>) -> Map<Seq<char>, Seq<Knot>>
    decreases s.len(),
{
    if s.len() == 0 {
        Map::empty()
    } else {
        input_map(s.drop_last()).insert(s.last().0.name(), s.last().1)
    }
}

/// What a setting is written as.
pub open spec fn write_setting(v: SettingView) -> UnknownView {
    UnknownView { base: v.base, inputs: input_map(v.inputs).union_prefer_right(v.unknown) }
}

/// What the first `n` settings are written as.  Settings that were left alone
/// are not written, unless a file without them would be read otherwise.
pub open spec fn written(settings: Seq<SettingView>, n: nat) -> Map<Seq<char>, UnknownView>
    decreases n,
{
    if n == 0 {
        Map::empty()
    } else {
        let before = written(settings, (n - 1) as nat);
        let v = settings[n - 1];
        let s = BrushSetting::ALL@[n - 1];
        if omitted(s, v) {
            before
        } else {
            before.insert(s.name(), write_setting(v))
        }
    }
}

/// What a brush is written as.
pub open spec fn write(b: BrushView) -> RawView {
    RawView {
        version: b.version,
        group: b.group,
        parent_brush_name: b.parent_brush_name,
        comment: b.comment,
        settings: written(b.settings, NUM_SETTINGS as nat).union_prefer_right(b.unknown),
    }
}

/// Writes one setting.
fn setting_to_raw(v: &SettingValue) -> (r: RawSetting)
    requires
        v.wf(),
    ensures
        r.inputs.wf(),
        r@ == write_setting(v@),
{
    let mut inputs: NameMap<Vec<Knot>> = NameMap::new();
    let mut i: usize = 0;
    let ghost all = v@.inputs;
    assert(curves(inputs@) =~= input_map(all.take(0)));
    while i < v.inputs.len()
        invariant
            i <= v.inputs@.len(),
            all == v@.inputs,
            inputs.wf(),
            curves(inputs@) == input_map(all.take(i as int)),
        decreases v.inputs@.len() - i,
    {
        let m = &v.inputs[i];
        let ghost before = inputs@;
        let points: Vec<Knot> = copy_points(&m.points);
        inputs.insert(m.input.cname().to_string(), points);
        proof {
            assert(all[i as int] == m@);
            let next = all.take(i + 1);
            assert(next.drop_last() =~= all.take(i as int));
            assert(next.last() == m@);
            assert(curves(inputs@) =~= curves(before).insert(m.input.name(), points@));
        }
        i += 1;
    }
    assert(all.take(i as int) =~= all);
    add_curves(&mut inputs, &v.unknown_inputs);
    RawSetting { base_value: v.base_value, inputs }
}

/// Writes a brush.
pub fn brush_to_raw(brush: &Brush) -> (raw: RawBrush)
    requires
        brush.wf(),
    ensures
        raw.wf(),
        raw@ == write(brush@),
{
    let mut settings: NameMap<RawSetting> = NameMap::new();
    let f = Ghost(|s: RawSetting| s@);
    let mut i: usize = 0;
    assert(settings@.map_values(f@) =~= written(brush@.settings, 0));
    while i < NUM_SETTINGS
        invariant
            i <= NUM_SETTINGS,
            brush.wf(),
            f@ == (|s: RawSetting| s@),
            settings.wf(),
            forall|k: Seq<char>|
                settings@.contains_key(k) ==> (#[trigger] settings@[k]).inputs.wf(),
            settings@.map_values(f@) == written(brush@.settings, i as nat),
        decreases NUM_SETTINGS - i,
    {
        let all = BrushSetting::ALL;
        let s = all[i];
        let v: &SettingValue = &brush.settings()[i];
        assert(v@ == brush@.settings[i as int]);
        if !is_omitted(s, v) {
            let ghost before = settings@;
            let r = setting_to_raw(v);
            settings.insert(s.cname().to_string(), r);
            assert(settings@.map_values(f@) =~= before.map_values(f@).insert(s.name(), r@));
        }
        i += 1;
    }
    add_unknown(&mut settings, &brush.unknown_settings);
    proof {
        assert forall|j: int| 0 <= j < settings.entries@.len() implies (
        #[trigger] settings.entries@[j]).1.inputs.wf() by {
            settings.lemma_entry(j);
        }
    }
    RawBrush {
        version: brush.version,
        group: copy_text(&brush.group),
        parent_brush_name: copy_text(&brush.parent_brush_name),
        comment: copy_text(&brush.comment),
        settings,
    }
}

/// Puts the unknown settings over the known ones.
fn add_unknown(r: &mut NameMap<RawSetting>, m: &NameMap<UnknownSetting>)
    requires
        old(r).wf(),
        forall|k: Seq<char>| old(r)@.contains_key(k) ==> (#[trigger] old(r)@[k]).inputs.wf(),
        m.wf(),
        forall|i: int| 0 <= i < m.entries@.len() ==> (#[trigger] m.entries@[i]).1.inputs.wf(),
    ensures
        final(r).wf(),
        forall|k: Seq<char>| final(r)@.contains_key(k) ==> (#[trigger] final(r)@[k]).inputs.wf(),
        final(r)@.map_values(|s: RawSetting| s@) == old(r)@.map_values(
            |s: RawSetting| s@,
        ).union_prefer_right(m@.map_values(|u: UnknownSetting| u@)),
{
    let ghost first = r@;
    let ghost entries = m.entries@;
    let mut i: usize = 0;
    while i < m.entries.len()
        invariant
            i <= entries.len(),
            entries == m.entries@,
            m.wf(),
            forall|i: int| 0 <= i < entries.len() ==> (#[trigger] entries[i]).1.inputs.wf(),
            r.wf(),
            forall|k: Seq<char>| r@.contains_key(k) ==> (#[trigger] r@[k]).inputs.wf(),
            forall|k: Seq<char>| #[trigger]
                r@.contains_key(k) <==> first.contains_key(k) || holds(entries, i as int, k),
            forall|j: int| 0 <= j < i ==> r@[(#[trigger] entries[j]).0@]@ == entries[j].1@,
            forall|k: Seq<char>|
                first.contains_key(k) && !holds(entries, i as int, k) ==> #[trigger] r@[k]
                    == first[k],
        decreases entries.len() - i,
    {
        proof {
            lemma_holds_next(entries, i as int);
        }
        let u = &m.entries[i].1;
        let s = RawSetting { base_value: u.base_value, inputs: copy_curves(&u.inputs) };
        r.insert(m.entries[i].0.clone(), s);
        i += 1;
    }
    proof {
        let seen = r@.map_values(|s: RawSetting| s@);
        let over = m@.map_values(|u: UnknownSetting| u@);
        let whole = first.map_values(|s: RawSetting| s@).union_prefer_right(over);
        assert forall|k: Seq<char>| #[trigger]
            seen.contains_key(k) == whole.contains_key(k) by {
            assert(r@.contains_key(k) <==> first.contains_key(k) || holds(
                entries,
                entries.len() as int,
                k,
            ));
        }
        assert forall|k: Seq<char>| seen.contains_key(k) implies #[trigger] seen[k]
            == whole[k] by {
            if holds(entries, entries.len() as int, k) {
                let j = choose|j: int| 0 <= j < entries.len() && (#[trigger] entries[j]).0@ == k;
                m.lemma_entry(j);
                assert(over.contains_key(k));
            } else {
                assert(!over.contains_key(k));
                assert(r@[k] == first[k]);
            }
        }
        assert(seen =~= whole);
    }
}

/// Whether a name is that of an input among the first `n`.
spec fn known_before(name: Seq<char>, n: int) -> bool {
    exists|i: BrushInput| #[trigger] i.name() == name && name_place(i) < n
}

proof fn lemma_known_curves(m: Map<Seq<char>, Seq<Knot>>, n: nat)
    requires
        n <= NUM_INPUTS,
    ensures
        forall|name: Seq<char>| #[trigger]
            input_map(known_curves(m, n)).contains_key(name) <==> m.contains_key(name)
                && known_before(name, n as int),
        forall|name: Seq<char>|
            m.contains_key(name) && known_before(name, n as int) ==> #[trigger] input_map(
                known_curves(m, n),
            )[name] == m[name],
    decreases n,
{
    if n == 0 {
        assert forall|name: Seq<char>| !#[trigger] known_before(name, 0) by {
            if known_before(name, 0) {
                let i = choose|i: BrushInput| #[trigger] i.name() == name && name_place(i) < 0;
                lemma_name_place(i);
            }
        }
    } else {
        lemma_known_curves(m, (n - 1) as nat);
        let i = INPUTS_BY_NAME@[n - 1];
        lemma_by_name(n - 1);
        let before = known_curves(m, (n - 1) as nat);
        assert forall|name: Seq<char>| #[trigger] known_before(name, n as int) <==> known_before(
            name,
            n - 1,
        ) || name == i.name() by {
            if known_before(name, n as int) {
                let x = choose|x: BrushInput| #[trigger]
                    x.name() == name && name_place(x) < n as int;
                lemma_name_place(x);
                if name_place(x) < n - 1 {
                    assert(x.name() == name && name_place(x) < n - 1);
                }
            }
            if known_before(name, n - 1) {
                let x = choose|x: BrushInput| #[trigger] x.name() == name && name_place(x) < n - 1;
                assert(x.name() == name && name_place(x) < n as int);
            }
            if name == i.name() {
                assert(i.name() == name && name_place(i) < n as int);
            }
        }
        if m.contains_key(i.name()) {
            let c = before.push((i, m[i.name()]));
            assert(c.drop_last() =~= before);
            assert(c.last() == (i, m[i.name()]));
            assert(input_map(c) == input_map(before).insert(i.name(), m[i.name()]));
        }
        let now = input_map(known_curves(m, n));
        let last = input_map(before);
        assert forall|name: Seq<char>| #[trigger] now.contains_key(name) <==> m.contains_key(name)
            && known_before(name, n as int) by {
            assert(last.contains_key(name) <==> m.contains_key(name) && known_before(
                name,
                n - 1,
            ));
            assert(known_before(name, n as int) <==> known_before(name, n - 1) || name
                == i.name());
        }
        assert forall|name: Seq<char>|
            m.contains_key(name) && known_before(name, n as int) implies #[trigger] now[name]
            == m[name] by {
            if name != i.name() {
                assert(known_before(name, n - 1));
                assert(last[name] == m[name]);
            }
        }
    }
}

/// A setting in a file is written as it was read.
pub proof fn law_setting_round_trip(r: UnknownView)
    ensures
        write_setting(read_setting(r)) == r,
{
    let m = r.inputs;
    let n = NUM_INPUTS as nat;
    lemma_known_curves(m, n);
    let w = write_setting(read_setting(r)).inputs;
    assert forall|name: Seq<char>| #[trigger] known_before(name, n as int) <==> known_input(
        name,
    ) by {
        if known_input(name) {
            let x = choose|x: BrushInput| #[trigger] x.name() == name;
            lemma_name_place(x);
            assert(x.name() == name && name_place(x) < n as int);
        }
        if known_before(name, n as int) {
            let x = choose|x: BrushInput| #[trigger] x.name() == name && name_place(x) < n as int;
            assert(x.name() == name);
        }
    }
    assert forall|name: Seq<char>| #[trigger] w.contains_key(name) <==> m.contains_key(name) by {
        assert(known_before(name, n as int) <==> known_input(name));
        assert(input_map(known_curves(m, n)).contains_key(name) <==> m.contains_key(name)
            && known_before(name, n as int));
    }
    assert forall|name: Seq<char>| w.contains_key(name) implies #[trigger] w[name] == m[name] by {
        assert(known_before(name, n as int) <==> known_input(name));
        if known_input(name) {
            assert(!unknown_curves(m).contains_key(name));
            assert(input_map(known_curves(m, n))[name] == m[name]);
        }
    }
    assert(w =~= m);
}

proof fn lemma_no_curves(n: nat)
    ensures
        known_curves(Map::empty(), n) == Seq::<(BrushInput, Seq<Knot>)>::empty(),
    decreases n,
{
    if n > 0 {
        lemma_no_curves((n - 1) as nat);
    }
}

proof fn lemma_one_curve(i: BrushInput, c: Seq<Knot>, n: nat)
    requires
        n <= NUM_INPUTS,
    ensures
        known_curves(Map::empty().insert(i.name(), c), n) == (if n <= name_place(i) {
            Seq::<(BrushInput, Seq<Knot>)>::empty()
        } else {
            seq![(i, c)]
        }),
    decreases n,
{
    lemma_name_place(i);
    if n > 0 {
        lemma_one_curve(i, c, (n - 1) as nat);
        lemma_by_name(n - 1);
        let x = INPUTS_BY_NAME@[n - 1];
        let m = Map::<Seq<char>, Seq<Knot>>::empty().insert(i.name(), c);
        if m.contains_key(x.name()) {
            law_names_are_distinct(x, i);
            assert(Seq::<(BrushInput, Seq<Knot>)>::empty().push((i, c)) =~= seq![(i, c)]);
        } else {
            assert(x != i);
        }
    }
}

/// A default value is read as it is written.
proof fn lemma_absent_round_trip(s: BrushSetting)
    ensures
        read_setting(write_setting(absent(s))) == absent(s),
{
    let v = absent(s);
    let w = write_setting(v);
    let nothing = Map::<Seq<char>, Seq<Knot>>::empty();
    if s == BrushSetting::OpaqueMultiply && blank(constant_view(Single { bits: 0 })) {
        let i = BrushInput::Pressure;
        let one = seq![(i, diagonal())];
        assert(one.drop_last() =~= Seq::<(BrushInput, Seq<Knot>)>::empty());
        assert(one.last() == (i, diagonal()));
        let m = nothing.insert(i.name(), diagonal());
        assert(input_map(one.drop_last()) == nothing);
        assert(input_map(one) == m);
        assert(m.union_prefer_right(nothing) =~= m);
        assert(w.inputs == m);
        lemma_one_curve(i, diagonal(), NUM_INPUTS as nat);
        lemma_name_place(i);
        assert(known_input(i.name()));
        assert(unknown_curves(m) =~= nothing);
    } else {
        assert(v.inputs.len() == 0 && v.unknown == nothing);
        assert(w.inputs =~= nothing);
        lemma_no_curves(NUM_INPUTS as nat);
        assert(unknown_curves(nothing) =~= nothing);
        assert(v.inputs =~= Seq::<(BrushInput, Seq<Knot>)>::empty());
    }
}

proof fn lemma_written(settings: Seq<SettingView>, n: nat)
    requires
        n <= NUM_SETTINGS,
    ensures
        forall|s: BrushSetting| #[trigger]
            written(settings, n).contains_key(s.name()) <==> s.index_spec() < n
                && !omitted(s, settings[s.index_spec() as int]),
        forall|s: BrushSetting|
            s.index_spec() < n && !omitted(s, settings[s.index_spec() as int])
                ==> #[trigger] written(settings, n)[s.name()] == write_setting(
                settings[s.index_spec() as int],
            ),
        forall|name: Seq<char>| #[trigger]
            written(settings, n).contains_key(name) ==> known_setting(name),
    decreases n,
{
    if n > 0 {
        lemma_written(settings, (n - 1) as nat);
        let x = BrushSetting::ALL@[n - 1];
        crate::setting::lemma_all(n - 1);
        let v = settings[n - 1];
        let before = written(settings, (n - 1) as nat);
        let after = written(settings, n);
        assert(known_setting(x.name()));
        assert forall|s: BrushSetting| #[trigger] after.contains_key(s.name()) <==> s.index_spec()
            < n && !omitted(s, settings[s.index_spec() as int]) by {
            crate::setting::law_all_is_complete(s);
            if s.name() == x.name() {
                crate::setting::law_names_are_distinct(s, x);
            }
            assert(before.contains_key(s.name()) <==> s.index_spec() < n - 1
                && !omitted(s, settings[s.index_spec() as int]));
        }
        assert forall|s: BrushSetting|
            s.index_spec() < n && !omitted(s, settings[s.index_spec() as int])
            implies #[trigger] after[s.name()] == write_setting(
            settings[s.index_spec() as int],
        ) by {
            crate::setting::law_all_is_complete(s);
            if s.name() == x.name() {
                crate::setting::law_names_are_distinct(s, x);
            } else {
                assert(s.index_spec() < n - 1);
                assert(before[s.name()] == write_setting(settings[s.index_spec() as int]));
            }
        }
    }
}

/// Settings that are not known are written as they were read.
pub proof fn law_unknown_settings_are_kept(raw: RawView, name: Seq<char>)
    requires
        raw.settings.contains_key(name),
        !known_setting(name),
    ensures
        write(read(raw)).settings.contains_key(name),
        write(read(raw)).settings[name] == raw.settings[name],
{
    assert(read(raw).unknown.contains_key(name));
}

/// Known settings are written as they were read, unless they are ones that a
/// file need not hold.
pub proof fn law_known_settings_are_kept(raw: RawView, s: BrushSetting)
    requires
        raw.settings.contains_key(s.name()),
        !omitted(s, read_setting(raw.settings[s.name()])),
    ensures
        write(read(raw)).settings.contains_key(s.name()),
        write(read(raw)).settings[s.name()] == raw.settings[s.name()],
{
    let b = read(raw);
    let n = NUM_SETTINGS as nat;
    crate::setting::law_all_is_complete(s);
    assert(known_setting(s.name()));
    assert(!b.unknown.contains_key(s.name()));
    assert(b.settings[s.index_spec() as int] == read_setting(raw.settings[s.name()]));
    lemma_written(b.settings, n);
    assert(written(b.settings, n).contains_key(s.name()));
    assert(written(b.settings, n)[s.name()] == write_setting(b.settings[s.index_spec() as int]));
    law_setting_round_trip(raw.settings[s.name()]);
}

/// A setting that is blank where a file leaves it out is zero there.
proof fn lemma_blank_absent(s: BrushSetting)
    requires
        blank(absent(s)),
    ensures
        absent(s) == constant_view(Single { bits: 0 }),
{
    assert(blank(constant_view(Single { bits: 0 })));
    match default_base_spec(s) {
        Some(d) => {
            lemma_no_units(d);
            lemma_no_units(Single { bits: 0 });
        },
        None => {},
    }
}

/// Reading, writing and reading again gives the same brush, but that a
/// negative zero of a setting without curves may come back as zero.
pub proof fn law_file_round_trip(raw: RawView)
    ensures
        ({
            let b = read(raw);
            let again = read(write(b));
            &&& again == (BrushView { settings: again.settings, ..b })
            &&& again.settings.len() == b.settings.len()
            &&& forall|i: int|
                0 <= i < b.settings.len() ==> #[trigger] again.settings[i] == b.settings[i] || (
                blank(b.settings[i]) && again.settings[i] == constant_view(Single { bits: 0 }))
            &&& (forall|i: int|
                0 <= i < b.settings.len() && blank(#[trigger] b.settings[i])
                    ==> b.settings[i].base == (Single { bits: 0 })) ==> again == b
        }),
{
    let b = read(raw);
    let w = write(b);
    let n = NUM_SETTINGS as nat;
    lemma_written(b.settings, n);
    let known = written(b.settings, n);
    assert forall|i: int| 0 <= i < n implies #[trigger] read(w).settings[i] == b.settings[i] || (
    blank(b.settings[i]) && read(w).settings[i] == constant_view(Single { bits: 0 })) by {
        let s = BrushSetting::ALL@[i];
        crate::setting::lemma_all(i);
        let v = b.settings[i];
        assert(v == b.settings[s.index_spec() as int]);
        assert(known_setting(s.name()));
        assert(!b.unknown.contains_key(s.name()));
        assert(known.contains_key(s.name()) <==> !omitted(s, v));
        assert(w.settings.contains_key(s.name()) <==> !omitted(s, v));
        if !omitted(s, v) {
            assert(known[s.name()] == write_setting(v));
            assert(w.settings[s.name()] == write_setting(v));
            if raw.settings.contains_key(s.name()) {
                law_setting_round_trip(raw.settings[s.name()]);
            } else {
                lemma_absent_round_trip(s);
            }
        } else {
            lemma_blank_absent(s);
        }
    }
    assert forall|name: Seq<char>| #[trigger]
        read(w).unknown.contains_key(name) <==> b.unknown.contains_key(name) by {
        if b.unknown.contains_key(name) {
            assert(w.settings.contains_key(name));
        }
        if read(w).unknown.contains_key(name) {
            assert(w.settings.contains_key(name));
            assert(!known.contains_key(name));
        }
    }
    assert(read(w).unknown =~= b.unknown);
    if forall|i: int|
        0 <= i < n && blank(#[trigger] b.settings[i]) ==> b.settings[i].base == (Single {
            bits: 0,
        }) {
        assert forall|i: int| 0 <= i < n implies #[trigger] read(w).settings[i] == b.settings[i] by {
            assert(blank(b.settings[i]) ==> b.settings[i].inputs =~= constant_view(
                Single { bits: 0 },
            ).inputs);
        }
        assert(read(w).settings =~= b.settings);
    }
}

/// A setting that a file lists under its name has what the file says there, and
/// no other entry of the file has a part in it.
pub proof fn law_setting_is_read_from_its_entry(raw: RawView, other: RawView, s: BrushSetting)
    requires
        raw.settings.contains_key(s.name()),
        other.settings.contains_key(s.name()),
        raw.settings[s.name()] == other.settings[s.name()],
    ensures
        read(raw).base(s) == raw.settings[s.name()].base,
        read(raw).settings[s.index_spec() as int] == read(other).settings[s.index_spec() as int],
{
    crate::setting::law_all_is_complete(s);
}

/// The colour of a brush is the hue, the saturation and the value that its file
/// lists as `color_h`, `color_s` and `color_v`.
pub proof fn law_file_colour_is_hue_saturation_value(raw: RawView)
    requires
        raw.settings.contains_key("color_h"@),
        raw.settings.contains_key("color_s"@),
        raw.settings.contains_key("color_v"@),
    ensures
        base_color(read(raw)) == hsv_to_rgb_spec(
            Hsv {
                h: raw.settings["color_h"@].base,
                s: raw.settings["color_s"@].base,
                v: raw.settings["color_v"@].base,
            },
        ),
{
    crate::setting::law_names_are_those_of_brush_files();
    law_setting_is_read_from_its_entry(raw, raw, BrushSetting::ColorH);
    law_setting_is_read_from_its_entry(raw, raw, BrushSetting::ColorS);
    law_setting_is_read_from_its_entry(raw, raw, BrushSetting::ColorV);
}

/// What the curves of the first `n` inputs by name are.
proof fn lemma_curves_of_inputs(m: Map<Seq<char>, Seq<Knot>>, n: nat)
    requires
        n <= NUM_INPUTS,
    ensures
        forall|i: int|
            0 <= i < known_curves(m, n).len() ==> m.contains_key(
                (#[trigger] known_curves(m, n)[i]).0.name(),
            ) && known_curves(m, n)[i].1 == m[known_curves(m, n)[i].0.name()],
        forall|x: BrushInput| #[trigger]
            m.contains_key(x.name()) && name_place(x) < n ==> exists|i: int|
                0 <= i < known_curves(m, n).len() && (#[trigger] known_curves(m, n)[i]).0 == x,
    decreases n,
{
    if n > 0 {
        lemma_curves_of_inputs(m, (n - 1) as nat);
        let last = INPUTS_BY_NAME@[n - 1];
        let before = known_curves(m, (n - 1) as nat);
        let after = known_curves(m, n);
        assert forall|i: int| 0 <= i < after.len() implies m.contains_key(
            (#[trigger] after[i]).0.name(),
        ) && after[i].1 == m[after[i].0.name()] by {
            if i < before.len() {
                assert(after[i] == before[i]);
            }
        }
        assert forall|x: BrushInput| #[trigger]
            m.contains_key(x.name()) && name_place(x) < n implies exists|i: int|
            0 <= i < after.len() && (#[trigger] after[i]).0 == x by {
            lemma_name_place(x);
            if name_place(x) == n - 1 {
                assert(after[after.len() - 1].0 == x);
            } else {
                let i = choose|i: int|
                    0 <= i < before.len() && (#[trigger] before[i]).0 == x;
                assert(after[i] == before[i]);
            }
        }
    }
}

/// A curve that a file lists under the name of an input is evaluated over that
/// input, and over no other.
pub proof fn law_curve_is_read_for_its_input(r: UnknownView, x: BrushInput)
    ensures
        r.inputs.contains_key(x.name()) <==> exists|i: int|
            0 <= i < read_setting(r).inputs.len() && (#[trigger] read_setting(r).inputs[i]).0 == x,
        forall|i: int|
            0 <= i < read_setting(r).inputs.len() ==> r.inputs.contains_key(
                (#[trigger] read_setting(r).inputs[i]).0.name(),
            ) && read_setting(r).inputs[i].1 == r.inputs[read_setting(r).inputs[i].0.name()],
        read_setting(r).base == r.base,
{
    lemma_curves_of_inputs(r.inputs, NUM_INPUTS as nat);
    lemma_name_place(x);
}

/// Whether a number is the one nearest to a ratio, or almost.
pub open spec fn is_ratio(v: Single, num: int, den: int) -> bool {
    v.finite() && size(0x100_0000 * (den * v.value() - num * pow2(149))) <= size(
        num * pow2(149),
    )
}

/// What settings are that a file leaves out: these are their values, every other
/// one is zero, and of all of them only `opaque_multiply` has a curve, along
/// which it follows the pressure.
pub proof fn law_settings_that_are_left_out(s: BrushSetting)
    ensures
        ({
            &&& is_ratio(absent(BrushSetting::Opaque).base, 1, 1)
            &&& is_ratio(absent(BrushSetting::OpaqueLinearize).base, 9, 10)
            &&& is_ratio(absent(BrushSetting::Radius).base, 2, 1)
            &&& is_ratio(absent(BrushSetting::Hardness).base, 4, 5)
            &&& is_ratio(absent(BrushSetting::AntiAliasing).base, 1, 1)
            &&& is_ratio(absent(BrushSetting::DabsPerActualRadius).base, 2, 1)
            &&& is_ratio(absent(BrushSetting::Speed1Slowness).base, 1, 25)
            &&& is_ratio(absent(BrushSetting::Speed2Slowness).base, 4, 5)
            &&& is_ratio(absent(BrushSetting::Speed1Gamma).base, 4, 1)
            &&& is_ratio(absent(BrushSetting::Speed2Gamma).base, 4, 1)
            &&& is_ratio(absent(BrushSetting::OffsetBySpeedSlowness).base, 1, 1)
            &&& is_ratio(absent(BrushSetting::SmudgeLength).base, 1, 2)
            &&& is_ratio(absent(BrushSetting::StrokeDurationLogarithmic).base, 4, 1)
            &&& is_ratio(absent(BrushSetting::EllipticalDabRatio).base, 1, 1)
            &&& is_ratio(absent(BrushSetting::EllipticalDabAngle).base, 90, 1)
            &&& is_ratio(absent(BrushSetting::DirectionFilter).base, 2, 1)
            &&& is_ratio(absent(BrushSetting::GridmapScaleX).base, 1, 1)
            &&& is_ratio(absent(BrushSetting::GridmapScaleY).base, 1, 1)
            &&& is_ratio(absent(BrushSetting::PosterizeNum).base, 1, 20)
            &&& is_ratio(absent(BrushSetting::Paint).base, 0, 1)
            &&& s == BrushSetting::OpaqueMultiply ==> is_ratio(absent(s).base, 0, 1)
                && absent(s).inputs.len() == 1 && absent(s).inputs[0].0 == BrushInput::Pressure
            &&& s != BrushSetting::OpaqueMultiply ==> absent(s).inputs.len() == 0
            &&& s != BrushSetting::Opaque && s != BrushSetting::OpaqueLinearize && s != BrushSetting::Radius && s != BrushSetting::Hardness && s != BrushSetting::AntiAliasing && s != BrushSetting::DabsPerActualRadius && s != BrushSetting::Speed1Slowness && s != BrushSetting::Speed2Slowness && s != BrushSetting::Speed1Gamma && s != BrushSetting::Speed2Gamma && s != BrushSetting::OffsetBySpeedSlowness && s != BrushSetting::SmudgeLength && s != BrushSetting::StrokeDurationLogarithmic && s != BrushSetting::EllipticalDabRatio && s != BrushSetting::EllipticalDabAngle && s != BrushSetting::DirectionFilter && s != BrushSetting::GridmapScaleX && s != BrushSetting::GridmapScaleY && s != BrushSetting::PosterizeNum && s != BrushSetting::Paint ==> is_ratio(
                absent(s).base,
                0,
                1,
            )
        }),
{
    lemma_one();
    assert(pow2(17) == 131072 && pow2(21) == 2097152 && pow2(22) == 4194304 && pow2(23) == 8388608 && pow2(24) == 16777216 && pow2(28) == 268435456) by {
        lemma2_to64();
    }
    lemma_known(0x3d23_d70a, 0xa3_d70a, 121);
    lemma_known(0x3d4c_cccd, 0xcc_cccd, 121);
    lemma_known(0x3f00_0000, 0x80_0000, 125);
    lemma_known(0x3f4c_cccd, 0xcc_cccd, 125);
    lemma_known(0x3f66_6666, 0xe6_6666, 125);
    lemma_known(0x3f80_0000, 0x80_0000, 126);
    lemma_known(0x4000_0000, 0x80_0000, 127);
    lemma_known(0x4080_0000, 0x80_0000, 128);
    lemma_known(0x42b4_0000, 0xb4_0000, 132);
    lemma_pow2_adds(28, 121);
    lemma_pow2_pos(121);
    lemma_pow2_adds(24, 125);
    lemma_pow2_pos(125);
    lemma_pow2_adds(23, 126);
    lemma_pow2_pos(126);
    lemma_pow2_adds(22, 127);
    lemma_pow2_pos(127);
    lemma_pow2_adds(21, 128);
    lemma_pow2_pos(128);
    lemma_pow2_adds(17, 132);
    lemma_pow2_pos(132);
    assert(blank(constant_view(Single { bits: 0 })));
    assert(is_ratio(absent(BrushSetting::Opaque).base, 1, 1));
    assert(is_ratio(absent(BrushSetting::OpaqueLinearize).base, 9, 10));
    assert(is_ratio(absent(BrushSetting::Radius).base, 2, 1));
    assert(is_ratio(absent(BrushSetting::Hardness).base, 4, 5));
    assert(is_ratio(absent(BrushSetting::AntiAliasing).base, 1, 1));
    assert(is_ratio(absent(BrushSetting::DabsPerActualRadius).base, 2, 1));
    assert(is_ratio(absent(BrushSetting::Speed1Slowness).base, 1, 25));
    assert(is_ratio(absent(BrushSetting::Speed2Slowness).base, 4, 5));
    assert(is_ratio(absent(BrushSetting::Speed1Gamma).base, 4, 1));
    assert(is_ratio(absent(BrushSetting::Speed2Gamma).base, 4, 1));
    assert(is_ratio(absent(BrushSetting::OffsetBySpeedSlowness).base, 1, 1));
    assert(is_ratio(absent(BrushSetting::SmudgeLength).base, 1, 2));
    assert(is_ratio(absent(BrushSetting::StrokeDurationLogarithmic).base, 4, 1));
    assert(is_ratio(absent(BrushSetting::EllipticalDabRatio).base, 1, 1));
    assert(is_ratio(absent(BrushSetting::EllipticalDabAngle).base, 90, 1));
    assert(is_ratio(absent(BrushSetting::DirectionFilter).base, 2, 1));
    assert(is_ratio(absent(BrushSetting::GridmapScaleX).base, 1, 1));
    assert(is_ratio(absent(BrushSetting::GridmapScaleY).base, 1, 1));
    assert(is_ratio(absent(BrushSetting::PosterizeNum).base, 1, 20));
    assert(is_ratio(absent(BrushSetting::Paint).base, 0, 1));
}

/// What a file says of itself is kept: its version, its group, its parent and
/// its comment.
pub proof fn law_file_header_is_kept(raw: RawView)
    ensures
        ({
            let w = write(read(raw));
            &&& read(raw).version == raw.version
            &&& read(raw).comment == raw.comment
            &&& w.version == raw.version
            &&& w.group == raw.group
            &&& w.parent_brush_name == raw.parent_brush_name
            &&& w.comment == raw.comment
        }),
{
}

} // verus!
