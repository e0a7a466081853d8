//! Arrays of input and setting values, one place for every variant.
use crate::input::{BrushInput, NUM_INPUTS};
use crate::setting::{BrushSetting, NUM_SETTINGS};
use crate::single::Single;
use vstd::prelude::*;

verus! {

/// Input values, in index order.
#[derive(Clone, Copy, Debug)]
pub struct InputValues {
    pub values: [Single; 19],
}

impl View for InputValues {
    type V = Seq<Single>;

    open spec fn view(&self) -> Seq<Single> {
        self.values@
    }
}

impl InputValues {
    pub fn new() -> (r: InputValues)
        ensures
            r@ == Seq::new(NUM_INPUTS as nat, |i: int| Single { bits: 0 }),
    {
        let zero = Single { bits: 0 };
        let values: [Single; 19] = [zero; 19];
        let r = InputValues { values };
        assert(r@ =~= Seq::new(NUM_INPUTS as nat, |i: int| Single { bits: 0 }));
        r
    }

    pub fn get(&self, input: BrushInput) -> (r: Single)
        ensures
            r == self@[input.index_spec() as int],
    {
        self.values[input.index()]
    }

    pub fn set(&mut self, input: BrushInput, v: Single)
        ensures
            final(self)@ == old(self)@.update(input.index_spec() as int, v),
    {
        self.values[input.index()] = v;
    }
}

impl Default for InputValues {
    fn default() -> (r: InputValues)
        ensures
            r@ == Seq::new(NUM_INPUTS as nat, |i: int| Single { bits: 0 }),
    {
        InputValues::new()
    }
}

/// Setting values, in index order.
#[derive(Clone, Copy, Debug)]
pub struct SettingValues {
    pub values: [Single; 63],
}

impl View for SettingValues {
    type V = Seq<Single>;

    open spec fn view(&self) -> Seq<Single> {
        self.values@
    }
}

impl SettingValues {
    pub fn new() -> (r: SettingValues)
        ensures
            r@ == Seq::new(NUM_SETTINGS as nat, |i: int| Single { bits: 0 }),
    {
        let zero = Single { bits: 0 };
        let values: [Single; 63] = [zero; 63];
        let r = SettingValues { values };
        assert(r@ =~= Seq::new(NUM_SETTINGS as nat, |i: int| Single { bits: 0 }));
        r
    }

    pub open spec fn get_spec(&self, s: BrushSetting) -> Single {
        self@[s.index_spec() as int]
    }

    #[verifier::when_used_as_spec(get_spec)]
    pub fn get(&self, s: BrushSetting) -> (r: Single)
        ensures
            r == self.get_spec(s),
    {
        self.values[s.index()]
    }
}

impl Default for SettingValues {
    fn default() -> (r: SettingValues)
        ensures
            r@ == Seq::new(NUM_SETTINGS as nat, |i: int| Single { bits: 0 }),
    {
        SettingValues::new()
    }
}

/// The values that a function gives for the settings, by index.
#[verifier::opaque]
pub open spec fn settings_with(f: spec_fn(int) -> Single) -> SettingValues {
    SettingValues {
        values: [
            f(0), f(1), f(2), f(3), f(4), f(5), f(6), f(7), f(8), f(9), f(10), f(11), f(12), f(13),
            f(14), f(15), f(16), f(17), f(18), f(19), f(20), f(21), f(22), f(23), f(24), f(25),
            f(26), f(27), f(28), f(29), f(30), f(31), f(32), f(33), f(34), f(35), f(36), f(37),
            f(38), f(39), f(40), f(41), f(42), f(43), f(44), f(45), f(46), f(47), f(48), f(49),
            f(50), f(51), f(52), f(53), f(54), f(55), f(56), f(57), f(58), f(59), f(60), f(61),
            f(62),
        ],
    }
}

/// Settings can have any values.
pub proof fn lemma_settings_with(f: spec_fn(int) -> Single, i: int)
    requires
        0 <= i < NUM_SETTINGS,
    ensures
        settings_with(f)@[i] == f(i),
{
    reveal(settings_with);
}

/// Settings are no more than their values.
pub proof fn lemma_settings_are_values(v: SettingValues, f: spec_fn(int) -> Single)
    requires
        forall|i: int| 0 <= i < NUM_SETTINGS ==> #[trigger] v@[i] == f(i),
    ensures
        v == settings_with(f),
{
    let w = settings_with(f);
    assert forall|i: int| 0 <= i < 63 implies v.values[i] == w.values[i] by {
        lemma_settings_with(f, i);
        assert(v@[i] == f(i));
    }
    assert(v.values =~= w.values);
}

} // verus!
