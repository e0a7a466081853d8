//! The inputs that drive brush settings and their names in brush files.
use crate::text::same_text;
use vstd::prelude::*;

verus! {

/// A quantity that an application or the stroke itself feeds to a brush.
#[derive(Clone, Copy, Debug, PartialEq, Eq, Hash, Structural)]
pub enum BrushInput {
    Pressure,
    Speed1,
    Speed2,
    Random,
    Stroke,
    Direction,
    Tilt,
    TiltDeclination,
    TiltAscension,
    DirectionAngle,
    AttackAngle,
    GridmapX,
    GridmapY,
    Custom,
    TiltDeclinationX,
    TiltDeclinationY,
    Viewzoom,
    BarrelRotation,
    BrushRadius,
}

/// How many variants [`BrushInput`] has.
pub const NUM_INPUTS: usize = 19;

impl BrushInput {
    /// Every variant, in the order of its index.
    pub const ALL: [BrushInput; 19] = [
        BrushInput::Pressure,
        BrushInput::Speed1,
        BrushInput::Speed2,
        BrushInput::Random,
        BrushInput::Stroke,
        BrushInput::Direction,
        BrushInput::Tilt,
        BrushInput::TiltDeclination,
        BrushInput::TiltAscension,
        BrushInput::DirectionAngle,
        BrushInput::AttackAngle,
        BrushInput::GridmapX,
        BrushInput::GridmapY,
        BrushInput::Custom,
        BrushInput::TiltDeclinationX,
        BrushInput::TiltDeclinationY,
        BrushInput::Viewzoom,
        BrushInput::BarrelRotation,
        BrushInput::BrushRadius,
    ];

    /// The name that brush files use.
    pub open spec fn name(self) -> Seq<char> {
        match self {
            BrushInput::Pressure => "pressure"@,
            BrushInput::Speed1 => "speed1"@,
            BrushInput::Speed2 => "speed2"@,
            BrushInput::Random => "random"@,
            BrushInput::Stroke => "stroke"@,
            BrushInput::Direction => "direction"@,
            BrushInput::Tilt => "tilt"@,
            BrushInput::TiltDeclination => "tilt_declination"@,
            BrushInput::TiltAscension => "tilt_ascension"@,
            BrushInput::DirectionAngle => "direction_angle"@,
            BrushInput::AttackAngle => "attack_angle"@,
            BrushInput::GridmapX => "gridmap_x"@,
            BrushInput::GridmapY => "gridmap_y"@,
            BrushInput::Custom => "custom"@,
            BrushInput::TiltDeclinationX => "tilt_declinationx"@,
            BrushInput::TiltDeclinationY => "tilt_declinationy"@,
            BrushInput::Viewzoom => "viewzoom"@,
            BrushInput::BarrelRotation => "barrel_rotation"@,
            BrushInput::BrushRadius => "brush_radius"@,
        }
    }

    pub open spec fn index_spec(self) -> usize {
        match self {
            BrushInput::Pressure => 0,
            BrushInput::Speed1 => 1,
            BrushInput::Speed2 => 2,
            BrushInput::Random => 3,
            BrushInput::Stroke => 4,
            BrushInput::Direction => 5,
            BrushInput::Tilt => 6,
            BrushInput::TiltDeclination => 7,
            BrushInput::TiltAscension => 8,
            BrushInput::DirectionAngle => 9,
            BrushInput::AttackAngle => 10,
            BrushInput::GridmapX => 11,
            BrushInput::GridmapY => 12,
            BrushInput::Custom => 13,
            BrushInput::TiltDeclinationX => 14,
            BrushInput::TiltDeclinationY => 15,
            BrushInput::Viewzoom => 16,
            BrushInput::BarrelRotation => 17,
            BrushInput::BrushRadius => 18,
        }
    }

    /// The name that brush files use.
    pub fn cname(self) -> (r: &'static str)
        ensures
            r@ == self.name(),
    {
        match self {
            BrushInput::Pressure => "pressure",
            BrushInput::Speed1 => "speed1",
            BrushInput::Speed2 => "speed2",
            BrushInput::Random => "random",
            BrushInput::Stroke => "stroke",
            BrushInput::Direction => "direction",
            BrushInput::Tilt => "tilt",
            BrushInput::TiltDeclination => "tilt_declination",
            BrushInput::TiltAscension => "tilt_ascension",
            BrushInput::DirectionAngle => "direction_angle",
            BrushInput::AttackAngle => "attack_angle",
            BrushInput::GridmapX => "gridmap_x",
            BrushInput::GridmapY => "gridmap_y",
            BrushInput::Custom => "custom",
            BrushInput::TiltDeclinationX => "tilt_declinationx",
            BrushInput::TiltDeclinationY => "tilt_declinationy",
            BrushInput::Viewzoom => "viewzoom",
            BrushInput::BarrelRotation => "barrel_rotation",
            BrushInput::BrushRadius => "brush_radius",
        }
    }

    /// The variant with the given name, if there is one.
    pub fn from_cname(s: &str) -> (r: Option<BrushInput>)
        ensures
            forall|x: BrushInput| r == Some(x) <==> #[trigger] x.name() == s@,
    {
        let mut i: usize = 0;
        while i < NUM_INPUTS
            invariant
                i <= NUM_INPUTS,
                forall|x: BrushInput| x.index_spec() < i ==> #[trigger] x.name() != s@,
            decreases NUM_INPUTS - i,
        {
            let all = BrushInput::ALL;
            let candidate = all[i];
            proof {
                lemma_all(i as int);
                assert forall|x: BrushInput| x.index_spec() == i implies x == candidate by {
                    lemma_index(x, candidate);
                }
            }
            if same_text(candidate.cname(), s) {
                proof {
                    assert forall|x: BrushInput| x.name() == s@ implies x == candidate by {
                        law_names_are_distinct(x, candidate);
                    }
                }
                return Some(candidate);
            }
            i += 1;
        }
        proof {
            assert forall|x: BrushInput| x.index_spec() < NUM_INPUTS by {
                lemma_index(x, x);
            }
        }
        None
    }

    /// The place of the variant in [`BrushInput::ALL`].
    #[verifier::when_used_as_spec(index_spec)]
    pub fn index(self) -> (r: usize)
        ensures
            r == self.index_spec(),
            r < NUM_INPUTS,
    {
        match self {
            BrushInput::Pressure => 0,
            BrushInput::Speed1 => 1,
            BrushInput::Speed2 => 2,
            BrushInput::Random => 3,
            BrushInput::Stroke => 4,
            BrushInput::Direction => 5,
            BrushInput::Tilt => 6,
            BrushInput::TiltDeclination => 7,
            BrushInput::TiltAscension => 8,
            BrushInput::DirectionAngle => 9,
            BrushInput::AttackAngle => 10,
            BrushInput::GridmapX => 11,
            BrushInput::GridmapY => 12,
            BrushInput::Custom => 13,
            BrushInput::TiltDeclinationX => 14,
            BrushInput::TiltDeclinationY => 15,
            BrushInput::Viewzoom => 16,
            BrushInput::BarrelRotation => 17,
            BrushInput::BrushRadius => 18,
        }
    }
}

impl Default for BrushInput {
    fn default() -> (r: BrushInput)
        ensures
            r == BrushInput::Pressure,
    {
        BrushInput::Pressure
    }
}

/// The list of all variants is in index order and misses none.
pub proof fn law_all_is_complete(x: BrushInput)
    ensures
        0 <= x.index_spec() < NUM_INPUTS,
        BrushInput::ALL@[x.index_spec() as int] == x,
{
    lemma_index(x, x);
    lemma_all(x.index_spec() as int);
    lemma_index(BrushInput::ALL@[x.index_spec() as int], x);
}

proof fn lemma_all(i: int)
    requires
        0 <= i < NUM_INPUTS,
    ensures
        BrushInput::ALL@[i].index_spec() == i,
{
    assert(BrushInput::ALL@[0] == BrushInput::Pressure);
    assert(BrushInput::ALL@[1] == BrushInput::Speed1);
    assert(BrushInput::ALL@[2] == BrushInput::Speed2);
    assert(BrushInput::ALL@[3] == BrushInput::Random);
    assert(BrushInput::ALL@[4] == BrushInput::Stroke);
    assert(BrushInput::ALL@[5] == BrushInput::Direction);
    assert(BrushInput::ALL@[6] == BrushInput::Tilt);
    assert(BrushInput::ALL@[7] == BrushInput::TiltDeclination);
    assert(BrushInput::ALL@[8] == BrushInput::TiltAscension);
    assert(BrushInput::ALL@[9] == BrushInput::DirectionAngle);
    assert(BrushInput::ALL@[10] == BrushInput::AttackAngle);
    assert(BrushInput::ALL@[11] == BrushInput::GridmapX);
    assert(BrushInput::ALL@[12] == BrushInput::GridmapY);
    assert(BrushInput::ALL@[13] == BrushInput::Custom);
    assert(BrushInput::ALL@[14] == BrushInput::TiltDeclinationX);
    assert(BrushInput::ALL@[15] == BrushInput::TiltDeclinationY);
    assert(BrushInput::ALL@[16] == BrushInput::Viewzoom);
    assert(BrushInput::ALL@[17] == BrushInput::BarrelRotation);
    assert(BrushInput::ALL@[18] == BrushInput::BrushRadius);
}

proof fn lemma_index(x: BrushInput, y: BrushInput)
    ensures
        x.index_spec() < NUM_INPUTS,
        x.index_spec() == y.index_spec() ==> x == y,
{
}

/// A number by which any two names differ.
spec fn fingerprint(s: Seq<char>) -> int {
    s.len() + 256 * (s[0] as int + 256 * (s[s.len() - 1] as int))
}

spec fn fingerprint_of(x: BrushInput) -> int {
    match x {
        BrushInput::Pressure => 6647816,
        BrushInput::Speed1 => 3240710,
        BrushInput::Speed2 => 3306246,
        BrushInput::Random => 7172614,
        BrushInput::Stroke => 6648582,
        BrushInput::Direction => 7234569,
        BrushInput::Tilt => 7631876,
        BrushInput::TiltDeclination => 7238672,
        BrushInput::TiltAscension => 7238670,
        BrushInput::DirectionAngle => 6644751,
        BrushInput::AttackAngle => 6643980,
        BrushInput::GridmapX => 7890697,
        BrushInput::GridmapY => 7956233,
        BrushInput::Custom => 7168774,
        BrushInput::TiltDeclinationX => 7894033,
        BrushInput::TiltDeclinationY => 7959569,
        BrushInput::Viewzoom => 7173640,
        BrushInput::BarrelRotation => 7234063,
        BrushInput::BrushRadius => 7561740,
    }
}

proof fn lemma_fingerprint(x: BrushInput)
    ensures
        fingerprint(x.name()) == fingerprint_of(x),
{
    match x {
        BrushInput::Pressure => {
            reveal_strlit("pressure");
        },
        BrushInput::Speed1 => {
            reveal_strlit("speed1");
        },
        BrushInput::Speed2 => {
            reveal_strlit("speed2");
        },
        BrushInput::Random => {
            reveal_strlit("random");
        },
        BrushInput::Stroke => {
            reveal_strlit("stroke");
        },
        BrushInput::Direction => {
            reveal_strlit("direction");
        },
        BrushInput::Tilt => {
            reveal_strlit("tilt");
        },
        BrushInput::TiltDeclination => {
            reveal_strlit("tilt_declination");
        },
        BrushInput::TiltAscension => {
            reveal_strlit("tilt_ascension");
        },
        BrushInput::DirectionAngle => {
            reveal_strlit("direction_angle");
        },
        BrushInput::AttackAngle => {
            reveal_strlit("attack_angle");
        },
        BrushInput::GridmapX => {
            reveal_strlit("gridmap_x");
        },
        BrushInput::GridmapY => {
            reveal_strlit("gridmap_y");
        },
        BrushInput::Custom => {
            reveal_strlit("custom");
        },
        BrushInput::TiltDeclinationX => {
            reveal_strlit("tilt_declinationx");
        },
        BrushInput::TiltDeclinationY => {
            reveal_strlit("tilt_declinationy");
        },
        BrushInput::Viewzoom => {
            reveal_strlit("viewzoom");
        },
        BrushInput::BarrelRotation => {
            reveal_strlit("barrel_rotation");
        },
        BrushInput::BrushRadius => {
            reveal_strlit("brush_radius");
        },
    }
}

/// No two variants share a name, so a name that is read back gives the
/// variant that was written.
pub proof fn law_names_are_distinct(x: BrushInput, y: BrushInput)
    requires
        x.name() == y.name(),
    ensures
        x == y,
{
    lemma_fingerprint(x);
    lemma_fingerprint(y);
}

/// Every input has the name that brush files give it.
pub proof fn law_names_are_those_of_brush_files()
    ensures
        BrushInput::Pressure.name() == "pressure"@,
        BrushInput::Speed1.name() == "speed1"@,
        BrushInput::Speed2.name() == "speed2"@,
        BrushInput::Random.name() == "random"@,
        BrushInput::Stroke.name() == "stroke"@,
        BrushInput::Direction.name() == "direction"@,
        BrushInput::Tilt.name() == "tilt"@,
        BrushInput::TiltDeclination.name() == "tilt_declination"@,
        BrushInput::TiltAscension.name() == "tilt_ascension"@,
        BrushInput::DirectionAngle.name() == "direction_angle"@,
        BrushInput::AttackAngle.name() == "attack_angle"@,
        BrushInput::GridmapX.name() == "gridmap_x"@,
        BrushInput::GridmapY.name() == "gridmap_y"@,
        BrushInput::Custom.name() == "custom"@,
        BrushInput::TiltDeclinationX.name() == "tilt_declinationx"@,
        BrushInput::TiltDeclinationY.name() == "tilt_declinationy"@,
        BrushInput::Viewzoom.name() == "viewzoom"@,
        BrushInput::BarrelRotation.name() == "barrel_rotation"@,
        BrushInput::BrushRadius.name() == "brush_radius"@,
{
}

} // verus!
