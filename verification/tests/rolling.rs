use dice_roller::roll::{dice_roll, multi_dice_roll, run_expression, RollReport};
use dice_roller::DiceExpression;

#[test]
fn single_roll_stays_in_range() {
    for _ in 0..200 {
        let (roll, modifier, total) = dice_roll(20, 0);
        assert!((1..=20).contains(&roll));
        assert_eq!(modifier, 0);
        assert_eq!(total, roll as i64);
    }
}

#[test]
fn single_roll_applies_modifier() {
    for _ in 0..100 {
        let (roll, modifier, total) = dice_roll(6, 3);
        assert!((1..=6).contains(&roll));
        assert_eq!(modifier, 3);
        assert_eq!(total, roll as i64 + 3);
    }
}

#[test]
fn one_sided_die_always_rolls_one() {
    let (roll, modifier, total) = dice_roll(1, 5);
    assert_eq!(roll, 1);
    assert_eq!(modifier, 5);
    assert_eq!(total, 6);
}

#[test]
fn multi_roll_sums_values_plus_modifier() {
    for _ in 0..100 {
        let res = multi_dice_roll(5, 6, 2);
        assert_eq!(res.values.len(), 5);
        assert!(res.values.iter().all(|v| (1..=6).contains(v)));
        assert_eq!(res.modifier, 2);
        let sum: i128 = res.values.iter().map(|v| *v as i128).sum();
        assert_eq!(res.total, sum + 2);
    }
}

#[test]
fn multi_roll_of_one_sided_dice_is_exact() {
    let res = multi_dice_roll(3, 1, -2);
    assert_eq!(res.values, vec![1, 1, 1]);
    assert_eq!(res.modifier, -2);
    assert_eq!(res.total, 1);
}

#[test]
fn run_expression_picks_single_report_for_one_die() {
    let e = DiceExpression { count: 1, sides: 20, modifier: 0 };
    match run_expression(&e) {
        RollReport::Single(roll, modifier, total) => {
            assert!((1..=20).contains(&roll));
            assert_eq!(modifier, 0);
            assert_eq!(total, roll as i64);
        }
        RollReport::Multi(_) => panic!("one die must give a single-roll report"),
    }
}

#[test]
fn run_expression_picks_multi_report_for_several_dice() {
    let e = DiceExpression { count: 4, sides: 6, modifier: -1 };
    match run_expression(&e) {
        RollReport::Single(_, _, _) => panic!("several dice must give a multi-roll report"),
        RollReport::Multi(res) => {
            assert_eq!(res.values.len(), 4);
            assert!(res.values.iter().all(|v| (1..=6).contains(v)));
            assert_eq!(res.modifier, -1);
            let sum: i128 = res.values.iter().map(|v| *v as i128).sum();
            assert_eq!(res.total, sum - 1);
        }
    }
}
