//! The brush: a full configuration for the stroke engine.
use crate::mapping::{constant_view, curves, Knot, SettingValue, SettingView};
use crate::setting::{BrushSetting, NUM_SETTINGS};
use crate::single::Single;
use crate::text::NameMap;
use vstd::prelude::*;

verus! {

/// The contents of a setting that is not known here, as mathematics.
#[verifier::ext_equal]
pub struct UnknownView {
    pub base: Single,
    pub inputs: Map<Seq<char>, Seq<Knot>>,
}

/// A setting that is not known here, kept for the brush file.
#[derive(Clone, Debug)]
pub struct UnknownSetting {
    pub base_value: Single,
    pub inputs: NameMap<Vec<Knot>>,
}

impl View for UnknownSetting {
    type V = UnknownView;

    open spec fn view(&self) -> UnknownView {
        UnknownView { base: self.base_value, inputs: curves(self.inputs@) }
    }
}

/// The characters of an optional text.
pub open spec fn text(s: Option<String>) -> Option<Seq<char>> {
    match s {
        Some(t) => Some(t@),
        None => None,
    }
}

/// A brush, as mathematics: one value for every setting, in index order.
#[verifier::ext_equal]
pub struct BrushView {
    pub version: u32,
    pub group: Option<Seq<char>>,
    pub parent_brush_name: Option<Seq<char>>,
    pub comment: Option<Seq<char>>,
    pub settings: Seq<SettingView>,
    pub unknown: Map<Seq<char>, UnknownView>,
}

#[derive(Clone, Debug)]
pub struct Brush {
    pub version: u32,
    pub group: Option<String>,
    pub parent_brush_name: Option<String>,
    pub comment: Option<String>,
    pub unknown_settings: NameMap<UnknownSetting>,
    /// One value for every setting, in index order.
    pub settings: Vec<SettingValue>,
}

impl BrushView {
    /// The base value of a setting.
    pub open spec fn base(self, s: BrushSetting) -> Single {
        self.settings[s.index_spec() as int].base
    }

    /// Whether any input is mapped to a setting.
    pub open spec fn mapped(self, s: BrushSetting) -> bool {
        self.settings[s.index_spec() as int].inputs.len() > 0
    }
}

impl View for Brush {
    type V = BrushView;

    open spec fn view(&self) -> BrushView {
        BrushView {
            version: self.version,
            group: text(self.group),
            parent_brush_name: text(self.parent_brush_name),
            comment: text(self.comment),
            settings: self.settings@.map_values(|s: SettingValue| s@),
            unknown: self.unknown_settings@.map_values(|u: UnknownSetting| u@),
        }
    }
}

impl Brush {
    /// One value for every setting, and no name twice among the unknown
    /// ones.
    pub open spec fn wf(&self) -> bool {
        &&& self.settings@.len() == NUM_SETTINGS
        &&& forall|i: int| 0 <= i < NUM_SETTINGS ==> (#[trigger] self.settings@[i]).wf()
        &&& self.unknown_settings.wf()
        &&& forall|i: int|
            0 <= i < self.unknown_settings.entries@.len() ==> (
            #[trigger] self.unknown_settings.entries@[i]).1.inputs.wf()
    }

    /// A brush with every setting at zero.
    pub fn new() -> (r: Brush)
        ensures
            r.wf(),
            r@ == (BrushView {
                version: 3,
                group: None,
                parent_brush_name: None,
                comment: None,
                settings: Seq::new(
                    NUM_SETTINGS as nat,
                    |i: int| constant_view(Single { bits: 0 }),
                ),
                unknown: Map::empty(),
            }),
    {
        let mut settings: Vec<SettingValue> = Vec::new();
        let mut i: usize = 0;
        while i < NUM_SETTINGS
            invariant
                i <= NUM_SETTINGS,
                settings@.len() == i,
                forall|j: int|
                    0 <= j < i ==> (#[trigger] settings@[j]).wf() && settings@[j]@
                        == constant_view(Single { bits: 0 }),
            decreases NUM_SETTINGS - i,
        {
            settings.push(SettingValue::constant(Single { bits: 0 }));
            i += 1;
        }
        let r = Brush {
            version: 3,
            group: None,
            parent_brush_name: None,
            comment: None,
            unknown_settings: NameMap::new(),
            settings,
        };
        assert(r@.settings =~= Seq::new(
            NUM_SETTINGS as nat,
            |i: int| constant_view(Single { bits: 0 }),
        ));
        assert(r@.unknown =~= Map::empty());
        r
    }

    /// The base value of a setting.
    pub fn base(&self, s: BrushSetting) -> (r: Single)
        requires
            self.wf(),
        ensures
            r == self@.base(s),
    {
        self.get(s).base_value
    }

    /// Whether any input is mapped to a setting.
    pub fn is_mapped(&self, s: BrushSetting) -> (r: bool)
        requires
            self.wf(),
        ensures
            r == self@.mapped(s),
    {
        self.get(s).inputs.len() > 0
    }

    /// The value of a setting.
    pub fn get(&self, s: BrushSetting) -> (r: &SettingValue)
        requires
            self.wf(),
        ensures
            r.wf(),
            r@ == self@.settings[s.index_spec() as int],
    {
        &self.settings[s.index()]
    }

    /// The value of a setting, for changing it.
    pub fn get_mut(&mut self, s: BrushSetting) -> (r: &mut SettingValue)
        requires
            old(self).wf(),
        ensures
            r.wf(),
            r@ == old(self)@.settings[s.index_spec() as int],
            final(r).wf() ==> final(self).wf(),
            final(self)@ == (BrushView {
                settings: old(self)@.settings.update(s.index_spec() as int, final(r)@),
                ..old(self)@
            }),
    {
        &mut self.settings[s.index()]
    }

    /// Gives a setting a value.
    pub fn set(&mut self, s: BrushSetting, v: SettingValue)
        requires
            old(self).wf(),
            v.wf(),
        ensures
            final(self).wf(),
            final(self)@ == (BrushView {
                settings: old(self)@.settings.update(s.index_spec() as int, v@),
                ..old(self)@
            }),
    {
        self.settings[s.index()] = v;
        assert(self@.settings =~= old(self)@.settings.update(s.index_spec() as int, v@));
    }

    /// The values of all settings, in index order.
    pub fn settings(&self) -> (r: &[SettingValue])
        requires
            self.wf(),
        ensures
            r@.len() == NUM_SETTINGS,
            forall|i: int| 0 <= i < NUM_SETTINGS ==> (#[trigger] r@[i]).wf(),
            r@.map_values(|s: SettingValue| s@) == self@.settings,
    {
        self.settings.as_slice()
    }
}

impl Default for Brush {
    fn default() -> (r: Brush)
        ensures
            r.wf(),
            r@.settings == Seq::new(
                NUM_SETTINGS as nat,
                |i: int| constant_view(Single { bits: 0 }),
            ),
            r@.unknown == Map::<Seq<char>, UnknownView>::empty(),
            r@.version == 3,
            r@.group is None,
            r@.parent_brush_name is None,
            r@.comment is None,
    {
        Brush::new()
    }
}

} // verus!
