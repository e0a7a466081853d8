//! Per-setting mappings from inputs to values: piecewise-linear curves.
use crate::input::BrushInput;
use crate::single::Single;
use crate::text::NameMap;
use vstd::prelude::*;

verus! {

/// `(input value, output offset)`.
pub type Knot = (Single, Single);

/// The line through two knots, at `x`.  Where the knots share a coordinate
/// the value is that of the first one.
pub open spec fn between(first: Knot, second: Knot, x: Single) -> Single {
    if first.0.same_spec(second.0) || first.1.same_spec(second.1) {
        first.1
    } else {
        second.1.times_spec(x.minus_spec(first.0)).plus_spec(
            first.1.times_spec(second.0.minus_spec(x)),
        ).over_spec(second.0.minus_spec(first.0))
    }
}

/// The end of the segment that serves `x`: the first knot from `i` on that
/// `x` does not exceed, or else the last one.
pub open spec fn segment_end(points: Seq<Knot>, x: Single, i: int) -> int
    decreases points.len() - i,
{
    if i + 1 >= points.len() || x.le_spec(points[i].0) {
        i
    } else {
        segment_end(points, x, i + 1)
    }
}

/// The curve through the knots, at `x`.
pub open spec fn curve(points: Seq<Knot>, x: Single) -> Single {
    if points.len() == 0 {
        Single { bits: 0 }
    } else if points.len() == 1 {
        points[0].1
    } else {
        let i = segment_end(points, x, 1);
        between(points[i - 1], points[i], x)
    }
}

/// What an input adds to a setting.
#[derive(Clone, Debug, PartialEq, Eq)]
pub struct InputMapping {
    pub input: BrushInput,
    /// The knots.  The curve is meant to have ascending input values.
    pub points: Vec<Knot>,
}

impl View for InputMapping {
    type V = (BrushInput, Seq<Knot>);

    open spec fn view(&self) -> (BrushInput, Seq<Knot>) {
        (self.input, self.points@)
    }
}

impl InputMapping {
    pub fn new(input: BrushInput) -> (r: InputMapping)
        ensures
            r@ == (input, Seq::<Knot>::empty()),
    {
        InputMapping { input, points: Vec::new() }
    }

    /// The curve at `x`.  Outside the knots the first or last segment goes
    /// on.
    pub fn eval(&self, x: Single) -> (r: Single)
        ensures
            r == curve(self.points@, x),
    {
        let n: usize = self.points.len();
        if n == 0 {
            return Single { bits: 0 };
        }
        if n == 1 {
            return self.points[0].1;
        }
        let mut i: usize = 1;
        while i + 1 < n && !x.le(self.points[i].0)
            invariant
                1 <= i < n,
                n == self.points@.len(),
                segment_end(self.points@, x, 1) == segment_end(self.points@, x, i as int),
            decreases n - i,
        {
            i += 1;
        }
        let (x0, y0): (Single, Single) = self.points[i - 1];
        let (x1, y1): (Single, Single) = self.points[i];
        if x0.same(x1) || y0.same(y1) {
            y0
        } else {
            y1.times(x.minus(x0)).plus(y0.times(x1.minus(x))).over(x1.minus(x0))
        }
    }
}

impl Default for InputMapping {
    fn default() -> (r: InputMapping)
        ensures
            r@ == (BrushInput::Pressure, Seq::<Knot>::empty()),
    {
        InputMapping::new(BrushInput::Pressure)
    }
}

pub proof fn lemma_segment_end(points: Seq<Knot>, x: Single, i: int)
    requires
        1 <= i < points.len(),
    ensures
        i <= segment_end(points, x, i) < points.len(),
        segment_end(points, x, i) < points.len() - 1 ==> x.le_spec(
            points[segment_end(points, x, i)].0,
        ),
        forall|j: int|
            i <= j < segment_end(points, x, i) ==> !x.le_spec((#[trigger] points[j]).0),
    decreases points.len() - i,
{
    if i + 1 < points.len() && !x.le_spec(points[i].0) {
        lemma_segment_end(points, x, i + 1);
    }
}

/// The segment that serves a number between the first and the last knot is
/// one that holds it, and no earlier segment does.
pub proof fn law_segment_brackets(points: Seq<Knot>, x: Single)
    requires
        points.len() >= 2,
        points[0].0.le_spec(x),
        x.le_spec(points[points.len() - 1].0),
        forall|i: int| 0 <= i < points.len() ==> !(#[trigger] points[i]).0.nan(),
    ensures
        ({
            let i = segment_end(points, x, 1);
            &&& 1 <= i < points.len()
            &&& points[i - 1].0.le_spec(x)
            &&& x.le_spec(points[i].0)
            &&& forall|j: int| 1 <= j < i ==> (#[trigger] points[j]).0.lt_spec(x)
        }),
{
    lemma_segment_end(points, x, 1);
    let i = segment_end(points, x, 1);
    if i > 1 {
        assert(!x.le_spec(points[i - 1].0));
    }
}

/// A curve whose knots all have one height is flat everywhere, outside its
/// knots too.
pub proof fn law_level_knots_make_a_flat_curve(points: Seq<Knot>, x: Single, y: Single)
    requires
        points.len() >= 1,
        forall|i: int| 0 <= i < points.len() ==> (#[trigger] points[i]).1 == y,
        !y.nan(),
    ensures
        curve(points, x) == y,
{
    if points.len() >= 2 {
        lemma_segment_end(points, x, 1);
        let i = segment_end(points, x, 1);
        assert(points[i - 1].1 == y && points[i].1 == y);
    }
}

/// The value of a setting, as mathematics: base value, mapped inputs in
/// order, curves of unknown inputs.
#[verifier::ext_equal]
pub struct SettingView {
    pub base: Single,
    pub inputs: Seq<(BrushInput, Seq<Knot>)>,
    pub unknown: Map<Seq<char>, Seq<Knot>>,
}

/// The curves of a name map, as mathematics.
pub open spec fn curves(m: Map<Seq<char>, Vec<Knot>>) -> Map<Seq<char>, Seq<Knot>> {
    m.map_values(|v: Vec<Knot>| v@)
}

/// The base value of a setting and what inputs add to it.
#[derive(Clone, Debug)]
pub struct SettingValue {
    pub base_value: Single,
    pub inputs: Vec<InputMapping>,
    /// Curves for inputs that are not known here, kept for the brush file;
    /// they take no part in evaluation.
    pub unknown_inputs: NameMap<Vec<Knot>>,
}

impl View for SettingValue {
    type V = SettingView;

    open spec fn view(&self) -> SettingView {
        SettingView {
            base: self.base_value,
            inputs: self.inputs@.map_values(|m: InputMapping| m@),
            unknown: curves(self.unknown_inputs@),
        }
    }
}

/// A setting that nothing changes.
pub open spec fn constant_view(v: Single) -> SettingView {
    SettingView { base: v, inputs: Seq::empty(), unknown: Map::empty() }
}

impl SettingValue {
    pub open spec fn wf(&self) -> bool {
        self.unknown_inputs.wf()
    }

    pub fn constant(v: Single) -> (r: SettingValue)
        ensures
            r.wf(),
            r@ == constant_view(v),
    {
        let r = SettingValue {
            base_value: v,
            inputs: Vec::new(),
            unknown_inputs: NameMap::new(),
        };
        assert(r@ =~= constant_view(v));
        r
    }
}

impl Default for SettingValue {
    fn default() -> (r: SettingValue)
        ensures
            r.wf(),
            r@ == constant_view(Single { bits: 0 }),
    {
        SettingValue::constant(Single { bits: 0 })
    }
}

} // verus!
