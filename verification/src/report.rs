//! Reports on how close two sets of renderings are.
use crate::elementary::{Answers, Elementary, Narrow, Wide};
use crate::double::Double;
use crate::render::{diff_mad, mean_apart, Script};
use crate::single::{Single, NAN, TWO};
use vstd::prelude::*;

verus! {

/// 0.5 and 5.
pub const CLOSE: u32 = 0x3f00_0000;

pub const NEAR: u32 = 0x40a0_0000;

/// How close two renderings are.
#[derive(Clone, Copy, Debug, PartialEq, Eq, Structural)]
pub enum Verdict {
    Pass,
    Warn,
    Fail,
    /// There was nothing to compare.
    Missing,
}

pub open spec fn verdict_spec(mad: Single) -> Verdict {
    if mad.nan() {
        Verdict::Missing
    } else if mad.le(Single { bits: CLOSE }) {
        Verdict::Pass
    } else if mad.le(Single { bits: NEAR }) {
        Verdict::Warn
    } else {
        Verdict::Fail
    }
}

/// The verdict on a mean difference.
#[verifier::when_used_as_spec(verdict_spec)]
pub fn verdict(mad: Single) -> (r: Verdict)
    ensures
        r == verdict_spec(mad),
{
    if mad.is_nan() {
        Verdict::Missing
    } else if mad.le(Single { bits: CLOSE }) {
        Verdict::Pass
    } else if mad.le(Single { bits: NEAR }) {
        Verdict::Warn
    } else {
        Verdict::Fail
    }
}

/// The mean difference of two buffers; not a number when they differ in
/// length.
pub fn mad_bytes(a: &[u8], b: &[u8]) -> (r: Single)
    requires
        255 * a@.len() <= u64::MAX,
    ensures
        r == (if a@.len() == b@.len() {
            mean_apart(a@, b@)
        } else {
            Single { bits: NAN }
        }),
{
    if a.len() != b.len() {
        return Single { bits: NAN };
    }
    diff_mad(a, b)
}

/// Whether a buffer has the length of an image of the given size.
pub fn right_length(len: usize, w: u32, h: u32) -> (r: bool)
    ensures
        r == (len == 4 * (w * h)),
{
    proof {
        assert(w * h <= 0xffff_ffff * 0xffff_ffff) by (nonlinear_arith)
            requires
                w <= 0xffff_ffff,
                h <= 0xffff_ffff,
        ;
    }
    len as u128 == 4 * (w as u128 * h as u128)
}

/// A line of a report.
#[derive(Clone, Debug)]
pub struct Row {
    pub label: String,
    pub mad: Single,
}

/// How many lines have a verdict.
pub open spec fn count(rows: Seq<Row>, v: Verdict) -> nat
    decreases rows.len(),
{
    if rows.len() == 0 {
        0
    } else {
        count(rows.drop_last(), v) + (if verdict_spec(rows.last().mad) == v {
            1nat
        } else {
            0nat
        })
    }
}

/// The numbers of lines that pass, that are near, and that fail or have
/// nothing to compare.
pub fn tally(rows: &Vec<Row>) -> (r: (usize, usize, usize))
    ensures
        r.0 == count(rows@, Verdict::Pass),
        r.1 == count(rows@, Verdict::Warn),
        r.2 == count(rows@, Verdict::Fail) + count(rows@, Verdict::Missing),
        r.0 + r.1 + r.2 == rows@.len(),
{
    let mut passing: usize = 0;
    let mut near: usize = 0;
    let mut failing: usize = 0;
    let mut i: usize = 0;
    while i < rows.len()
        invariant
            i <= rows@.len(),
            passing == count(rows@.take(i as int), Verdict::Pass),
            near == count(rows@.take(i as int), Verdict::Warn),
            failing == count(rows@.take(i as int), Verdict::Fail) + count(
                rows@.take(i as int),
                Verdict::Missing,
            ),
            passing + near + failing == i,
        decreases rows@.len() - i,
    {
        proof {
            let next = rows@.take(i + 1);
            assert(next.drop_last() =~= rows@.take(i as int));
            assert(next.last() == rows@[i as int]);
        }
        match verdict(rows[i].mad) {
            Verdict::Pass => {
                passing += 1;
            },
            Verdict::Warn => {
                near += 1;
            },
            _ => {
                failing += 1;
            },
        }
        i += 1;
    }
    assert(rows@.take(i as int) =~= rows@);
    (passing, near, failing)
}

/// Lines in order: none stands right behind one with a smaller difference.
pub open spec fn ranked(rows: Seq<Row>) -> bool {
    forall|i: int|
        0 <= i < rows.len() - 1 ==> !(#[trigger] rows[i]).mad.lt_spec(rows[i + 1].mad)
}

/// The lines of one difference.
pub open spec fn of_mad(rows: Seq<Row>, mad: Single) -> Seq<Row> {
    rows.filter(|r: Row| r.mad.same_spec(mad))
}

/// The lines with nothing to compare.
pub open spec fn missing(rows: Seq<Row>) -> Seq<Row> {
    rows.filter(|r: Row| r.mad.nan())
}

/// Whether two lists have the same lines, those of one difference in the same
/// order, and those with nothing to compare too.
pub open spec fn rearranged(a: Seq<Row>, b: Seq<Row>) -> bool {
    &&& a.to_multiset() == b.to_multiset()
    &&& forall|mad: Single| #[trigger] of_mad(a, mad) == of_mad(b, mad)
    &&& missing(a) == missing(b)
}

/// Puts the largest differences first.
pub fn rank(rows: &mut Vec<Row>)
    ensures
        rearranged(final(rows)@, old(rows)@),
        ranked(final(rows)@),
{
    let ghost all = rows@;
    let mut n: usize = 0;
    while n < rows.len()
        invariant
            n <= rows@.len(),
            rearranged(rows@, all),
            ranked(rows@.take(n as int)),
        decreases rows@.len() - n,
    {
        sink(rows, n);
        n += 1;
    }
    assert(rows@.take(n as int) =~= rows@);
}

/// Lines but for one: in order on both sides of `i`, and across it.
spec fn ranked_but(rows: Seq<Row>, i: int) -> bool {
    &&& forall|j: int|
        0 <= j < rows.len() - 1 && j != i - 1 && j != i ==> !(#[trigger] rows[j]).mad.lt_spec(
            rows[j + 1].mad,
        )
    &&& i + 1 < rows.len() ==> rows[i + 1].mad.lt_spec(rows[i].mad)
    &&& 0 < i && i + 1 < rows.len() ==> !rows[i - 1].mad.lt_spec(rows[i + 1].mad)
}

/// Moves the line at `n` up to its place among those before it.
fn sink(rows: &mut Vec<Row>, n: usize)
    requires
        n < old(rows)@.len(),
        ranked(old(rows)@.take(n as int)),
    ensures
        final(rows)@.len() == old(rows)@.len(),
        rearranged(final(rows)@, old(rows)@),
        ranked(final(rows)@.take(n + 1)),
{
    let ghost all = rows@;
    let ghost len = rows@.len();
    let mut i: usize = n;
    proof {
        let t = rows@.take(n + 1);
        assert forall|j: int| 0 <= j < t.len() - 1 && j != n - 1 && j != n implies !(
        #[trigger] t[j]).mad.lt_spec(t[j + 1].mad) by {
            let s = rows@.take(n as int);
            assert(s[j] == t[j] && s[j + 1] == t[j + 1]);
        }
    }
    while i > 0 && rows[i - 1].mad.lt(rows[i].mad)
        invariant
            i <= n < rows@.len(),
            rows@.len() == len,
            rearranged(rows@, all),
            ranked_but(rows@.take(n + 1), i as int),
        decreases i,
    {
        let ghost before = rows@;
        proof {
            assert(before.take(n + 1)[i as int] == before[i as int]);
            assert(before.take(n + 1)[i - 1] == before[i - 1]);
        }
        let row: Row = rows.remove(i);
        rows.insert(i - 1, row);
        proof {
            lemma_swapped(before, rows@, i as int);
            let t = before.take(n + 1);
            assert(rows@.take(n + 1) =~= t.update(i as int, t[i - 1]).update(i - 1, t[i as int]));
            lemma_still_ranked_but(before.take(n + 1), rows@.take(n + 1), i as int);
        }
        i -= 1;
    }
    proof {
        let t = rows@.take(n + 1);
        assert forall|j: int| 0 <= j < t.len() - 1 implies !(#[trigger] t[j]).mad.lt_spec(
            t[j + 1].mad,
        ) by {
            if j == i - 1 {
                assert(t[j] == rows@[j] && t[j + 1] == rows@[j + 1]);
            } else if j == i {
                assert(t[i + 1].mad.lt_spec(t[i as int].mad));
            }
        }
    }
}

proof fn lemma_swapped(before: Seq<Row>, after: Seq<Row>, i: int)
    requires
        0 < i < before.len(),
        before[i - 1].mad.lt_spec(before[i].mad),
        after == before.remove(i).insert(i - 1, before[i]),
    ensures
        after == before.update(i, before[i - 1]).update(i - 1, before[i]),
        rearranged(after, before),
{
    assert forall|mad: Single| #[trigger] of_mad(after, mad) == of_mad(before, mad) by {
        lemma_filter_swapped(before, after, i, |r: Row| r.mad.same_spec(mad));
    }
    lemma_filter_swapped(before, after, i, |r: Row| r.mad.nan());
    assert(after =~= before.update(i, before[i - 1]).update(i - 1, before[i]));
    broadcast use vstd::seq_lib::group_to_multiset_ensures;

    assert(before.remove(i).to_multiset() == before.to_multiset().remove(before[i]));
    assert(before.contains(before[i]));
    assert(before.to_multiset().contains(before[i]));
    assert(after.to_multiset() =~= before.to_multiset());
}

proof fn lemma_filter_swapped(before: Seq<Row>, after: Seq<Row>, i: int, f: spec_fn(Row) -> bool)
    requires
        0 < i < before.len(),
        after == before.remove(i).insert(i - 1, before[i]),
        !(f(before[i - 1]) && f(before[i])),
    ensures
        after.filter(f) == before.filter(f),
{
    let a = before.take(i - 1);
    let x = seq![before[i - 1]];
    let y = seq![before[i]];
    let b = before.skip(i + 1);
    assert(before =~= a + x + y + b);
    assert(after =~= a + y + x + b);
    Seq::filter_distributes_over_add(a, x, f);
    Seq::filter_distributes_over_add(a + x, y, f);
    Seq::filter_distributes_over_add(a + x + y, b, f);
    Seq::filter_distributes_over_add(a, y, f);
    Seq::filter_distributes_over_add(a + y, x, f);
    Seq::filter_distributes_over_add(a + y + x, b, f);
    reveal(Seq::filter);
    assert(x.drop_last() =~= Seq::<Row>::empty());
    assert(y.drop_last() =~= Seq::<Row>::empty());
    reveal_with_fuel(Seq::filter, 2);
    assert(before.filter(f) =~= after.filter(f));
}

proof fn lemma_still_ranked_but(before: Seq<Row>, after: Seq<Row>, i: int)
    requires
        0 < i < before.len(),
        ranked_but(before, i),
        before[i - 1].mad.lt_spec(before[i].mad),
        after == before.update(i, before[i - 1]).update(i - 1, before[i]),
    ensures
        ranked_but(after, i - 1),
{
    assert forall|j: int| 0 <= j < after.len() - 1 && j != i - 2 && j != i - 1 implies !(
    #[trigger] after[j]).mad.lt_spec(after[j + 1].mad) by {
        if j == i {
            assert(after[i] == before[i - 1]);
            assert(after[i + 1] == before[i + 1]);
        } else {
            assert(after[j] == before[j]);
            assert(after[j + 1] == before[j + 1]);
        }
    }
    if i > 1 {
        let j = i - 2;
        assert(!before[j].mad.lt_spec(before[j + 1].mad));
    }
}

/// The single nearest to the ratio of a circle's circumference to its
/// diameter.
pub const PI_SINGLE: u32 = 0x4049_0fdb;

/// An event of the sample stroke: place, pressure and time.  The stroke is
/// one period of a wave, with the pressure rising and falling once.
pub open spec fn sample_event(i: int, m: Answers) -> Seq<Single> {
    let pi = Single { bits: PI_SINGLE };
    let t = Single::of(i).over(Single { bits: 0x4220_0000 });
    seq![
        (Single { bits: 0x41a0_0000 }).plus((Single { bits: 0x4370_0000 }).times(t)),
        (Single { bits: 0x42a0_0000 }).plus(
            m.sin(t.times(pi).times(Single { bits: TWO })).times(Single { bits: 0x41f0_0000 }),
        ),
        m.sin(t.times(pi)).max(Single { bits: 0x3d4c_cccd }),
        Single { bits: 0x3ca3_d70a },
    ]
}

/// The stroke that brushes are compared by: forty-one events on a canvas of
/// 320 by 160 pixels.
pub fn make_sample_script<N: Fn(Narrow) -> Single, W: Fn(Wide) -> Double>(
    math: &Elementary<N, W>,
) -> (s: Script)
    requires
        math.wf(),
    ensures
        s.width == 320,
        s.height == 160,
        s.events@.len() == 41,
        forall|i: int| 0 <= i < 41 ==> (#[trigger] s.events@[i])@ == sample_event(i, math.answers()),
{
    let pi = Single { bits: PI_SINGLE };
    let mut events: Vec<[Single; 4]> = Vec::new();
    let mut i: u32 = 0;
    while i < 41
        invariant
            i <= 41,
            math.wf(),
            pi == (Single { bits: PI_SINGLE }),
            events@.len() == i,
            forall|j: int|
                0 <= j < i ==> (#[trigger] events@[j])@ == sample_event(j, math.answers()),
        decreases 41 - i,
    {
        let t = Single::from_u32(i).over(Single { bits: 0x4220_0000 });
        let x = (Single { bits: 0x41a0_0000 }).plus((Single { bits: 0x4370_0000 }).times(t));
        let wave = math.sin(t.times(pi).times(Single { bits: TWO }));
        let y = (Single { bits: 0x42a0_0000 }).plus(wave.times(Single { bits: 0x41f0_0000 }));
        let p = math.sin(t.times(pi)).max(Single { bits: 0x3d4c_cccd });
        let e: [Single; 4] = [x, y, p, Single { bits: 0x3ca3_d70a }];
        events.push(e);
        assert(e@ =~= sample_event(i as int, math.answers()));
        i += 1;
    }
    Script { width: 320, height: 160, events }
}

/// Ranked lines that all have a difference are sorted, the largest first.
pub proof fn law_ranked_is_sorted(rows: Seq<Row>, i: int, j: int)
    requires
        ranked(rows),
        forall|k: int| 0 <= k < rows.len() ==> !(#[trigger] rows[k]).mad.nan(),
        0 <= i <= j < rows.len(),
    ensures
        rows[j].mad.le_spec(rows[i].mad),
    decreases j - i,
{
    if i < j {
        law_ranked_is_sorted(rows, i, j - 1);
        assert(!rows[j - 1].mad.lt_spec(rows[j - 1 + 1].mad));
    }
}

} // verus!
