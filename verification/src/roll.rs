use rand::Rng;
use vstd::prelude::*;

verus! {

use crate::DiceExpression;

/// The outcome of rolling several dice: the individual die values in the
/// order rolled, the modifier, and the aggregate total.
#[derive(Debug, Clone, PartialEq, Eq)]
pub struct RollResult {
    pub values: Vec<u32>,
    pub modifier: i32,
    pub total: i128,
}

/// The sum of a sequence of die values.
pub open spec fn seq_sum(s: Seq<u32>) -> int
    decreases s.len(),
{
    if s.len() == 0 {
        0
    } else {
        seq_sum(s.drop_last()) + s.last()
    }
}

impl RollResult {
    /// Every die value lies in [1, sides], and the total is the sum of the
    /// values plus the modifier, recomputed, never cached elsewhere.
    pub open spec fn wf(&self, sides: int) -> bool {
        &&& forall|i: int| 0 <= i < self.values@.len() ==> 1 <= #[trigger] self.values@[i] <= sides
        &&& self.total == seq_sum(self.values@) + self.modifier
    }
}

/// Relies on rand::Rng::gen_range on rand::thread_rng: returns a value in the
/// given inclusive range (it panics only on an empty range, which the
/// precondition rules out). Nothing more is assumed of the drawn value.
#[verifier::external_body]
fn uniform(low: u32, high: u32) -> (r: u32)
    requires
        low <= high,
    ensures
        low <= r && r <= high,
{
    rand::thread_rng().gen_range(low..=high)
}

/// Roll one die with `num_sides` sides and add `modifier`:
/// returns (roll, modifier, roll + modifier).
pub fn dice_roll(num_sides: u32, modifier: i32) -> (r: (u32, i32, i64))
    requires
        num_sides >= 1,
    ensures
        1 <= r.0 <= num_sides,
        r.1 == modifier,
        r.2 == r.0 + modifier,
{
    let roll = uniform(1, num_sides);
    (roll, modifier, roll as i64 + modifier as i64)
}

/// Roll `num_dice` dice with `num_sides` sides each, in order, and add
/// `modifier` once to the aggregate sum.
pub fn multi_dice_roll(num_dice: u32, num_sides: u32, modifier: i32) -> (r: RollResult)
    requires
        num_dice >= 1,
        num_sides >= 1,
    ensures
        r.wf(num_sides as int),
        r.values@.len() == num_dice,
        r.modifier == modifier,
{
    let mut values: Vec<u32> = Vec::new();
    let mut i: u32 = 0;
    while i < num_dice
        invariant
            i <= num_dice,
            num_sides >= 1,
            values@.len() == i,
            forall|j: int| 0 <= j < i ==> 1 <= #[trigger] values@[j] <= num_sides,
        decreases num_dice - i,
    {
        let (roll, _m, _t) = dice_roll(num_sides, 0);
        values.push(roll);
        i = i + 1;
    }
    let mut acc: i128 = 0;
    let mut j: usize = 0;
    while j < values.len()
        invariant
            j <= values@.len(),
            values@.len() == num_dice,
            forall|k: int| 0 <= k < values@.len() ==> 1 <= #[trigger] values@[k] <= num_sides,
            acc == seq_sum(values@.take(j as int)),
            0 <= acc <= j * 4294967295,
        decreases values@.len() - j,
    {
        proof {
            assert(values@.take(j + 1).drop_last() =~= values@.take(j as int));
            assert(values@.take(j + 1).last() == values@[j as int]);
        }
        acc = acc + values[j] as i128;
        j = j + 1;
    }
    proof {
        assert(values@.take(values@.len() as int) =~= values@);
    }
    let total = acc + modifier as i128;
    RollResult { values, modifier, total }
}

/// A roll report, shaped as it is printed: a lone die gets a single-roll
/// report, several dice get the list of values.
#[derive(Debug, Clone, PartialEq, Eq)]
pub enum RollReport {
    Single(u32, i32, i64),
    Multi(RollResult),
}

/// The report `rep` is one that a correct run of the expression `e` can
/// produce: the right shape for the count, every die value in range, the
/// expression's modifier, and the total recomputed from the values.
pub open spec fn report_matches(e: DiceExpression, rep: RollReport) -> bool {
    match rep {
        RollReport::Single(roll, m, total) => {
            &&& e.count == 1
            &&& 1 <= roll <= e.sides
            &&& m == e.modifier
            &&& total == roll + m
        },
        RollReport::Multi(res) => {
            &&& e.count != 1
            &&& res.values@.len() == e.count
            &&& res.modifier == e.modifier
            &&& res.wf(e.sides as int)
        },
    }
}

/// Run a well-formed dice expression: one die rolls once, several dice roll
/// in order and sum, and the modifier is applied once to the total.
pub fn run_expression(e: &DiceExpression) -> (r: RollReport)
    requires
        e.wf(),
    ensures
        report_matches(*e, r),
{
    if e.count == 1 {
        let t = dice_roll(e.sides, e.modifier);
        RollReport::Single(t.0, t.1, t.2)
    } else {
        RollReport::Multi(multi_dice_roll(e.count, e.sides, e.modifier))
    }
}

} // verus!
