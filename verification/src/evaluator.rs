//! Setting evaluation: base value plus the mapped inputs.
use crate::brush::Brush;
use crate::input::{BrushInput, NUM_INPUTS};
use crate::mapping::{curve, Knot, SettingValue, SettingView};
use crate::setting::NUM_SETTINGS;
use crate::single::Single;
pub use crate::values::{InputValues, SettingValues};
use vstd::prelude::*;

verus! {

/// A base value and the first `n` mapped inputs, added up from the left.
pub open spec fn added(
    base: Single,
    inputs: Seq<(BrushInput, Seq<Knot>)>,
    values: Seq<Single>,
    n: nat,
) -> Single
    decreases n,
{
    if n == 0 {
        base
    } else {
        let m = inputs[n - 1];
        added(base, inputs, values, (n - 1) as nat).plus_spec(
            curve(m.1, values[m.0.index_spec() as int]),
        )
    }
}

/// The value of a setting at the given inputs.
pub open spec fn evaluated(s: SettingView, values: Seq<Single>) -> Single {
    added(s.base, s.inputs, values, s.inputs.len())
}

fn evaluate_setting(s: &SettingValue, inputs: &InputValues) -> (r: Single)
    ensures
        r == evaluated(s@, inputs@),
{
    let mut v = s.base_value;
    let mut i: usize = 0;
    while i < s.inputs.len()
        invariant
            i <= s.inputs@.len(),
            v == added(s@.base, s@.inputs, inputs@, i as nat),
        decreases s.inputs@.len() - i,
    {
        let m = &s.inputs[i];
        assert(s@.inputs[i as int] == m@);
        v = v.plus(m.eval(inputs.get(m.input)));
        i += 1;
    }
    v
}

/// Evaluates every setting of a brush at the given inputs.  Nothing is held
/// to a range here.
pub fn evaluate(brush: &Brush, inputs: &InputValues) -> (r: SettingValues)
    requires
        brush.wf(),
    ensures
        forall|i: int|
            0 <= i < NUM_SETTINGS ==> #[trigger] r@[i] == evaluated(brush@.settings[i], inputs@),
{
    let mut out = SettingValues::new();
    let settings = brush.settings();
    let mut i: usize = 0;
    while i < NUM_SETTINGS
        invariant
            i <= NUM_SETTINGS,
            settings@.len() == NUM_SETTINGS,
            settings@.map_values(|s: SettingValue| s@) == brush@.settings,
            forall|j: int|
                0 <= j < i ==> #[trigger] out@[j] == evaluated(brush@.settings[j], inputs@),
        decreases NUM_SETTINGS - i,
    {
        assert(brush@.settings[i as int] == settings@[i as int]@);
        let ghost before = out@;
        out.values[i] = evaluate_setting(&settings[i], inputs);
        assert(out@ =~= before.update(i as int, evaluated(brush@.settings[i as int], inputs@)));
        i += 1;
    }
    out
}

/// A setting without mapped inputs has its base value whatever the inputs
/// are.
pub proof fn law_unmapped_setting_is_its_base(s: SettingView, values: Seq<Single>)
    requires
        s.inputs.len() == 0,
    ensures
        evaluated(s, values) == s.base,
{
}

/// Evaluation depends on an input only where a mapping names it.
pub proof fn law_unmapped_input_is_ignored(
    s: SettingView,
    values: Seq<Single>,
    input: BrushInput,
    v: Single,
)
    requires
        values.len() == NUM_INPUTS,
        forall|i: int| 0 <= i < s.inputs.len() ==> (#[trigger] s.inputs[i]).0 != input,
    ensures
        evaluated(s, values.update(input.index_spec() as int, v)) == evaluated(s, values),
{
    lemma_ignored(s, values, input, v, s.inputs.len());
}

proof fn lemma_ignored(
    s: SettingView,
    values: Seq<Single>,
    input: BrushInput,
    v: Single,
    n: nat,
)
    requires
        n <= s.inputs.len(),
        values.len() == NUM_INPUTS,
        forall|i: int| 0 <= i < s.inputs.len() ==> (#[trigger] s.inputs[i]).0 != input,
    ensures
        added(s.base, s.inputs, values.update(input.index_spec() as int, v), n) == added(
            s.base,
            s.inputs,
            values,
            n,
        ),
    decreases n,
{
    if n > 0 {
        lemma_ignored(s, values, input, v, (n - 1) as nat);
        crate::input::law_all_is_complete(input);
        crate::input::law_all_is_complete(s.inputs[n - 1].0);
    }
}

} // verus!
