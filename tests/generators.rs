use dice_nom::dice::Dice;
use dice_nom::generators::{
    ArithOp, ArithTermGenerator, ComparisonOp, ExprGenerator, Generator, HitsGenerator,
    PoolGenerator, PoolOp, SuccGenerator, SuccessOp, TargetOp, TermGenerator,
};
use dice_nom::results::{Pool, Value};
use dice_nom::{parse, roller};

fn single_pool(count: i32, range: i32, op: Option<PoolOp>) -> ExprGenerator {
    ExprGenerator {
        terms: vec![ArithTermGenerator {
            op: ArithOp::ImplicitAdd,
            term: TermGenerator::Pool(PoolGenerator { count, range, op }),
        }],
    }
}

fn roll(text: &str, faces: Vec<i32>) -> dice_nom::results::Results {
    let gen = parse(text).unwrap();
    assert!(gen.valid());
    let mut dice = Dice::scripted(faces);
    gen.generate(&mut dice)
}

#[test]
fn test_generator() {
    let gen = Generator {
        succ: SuccGenerator {
            hits: HitsGenerator { expr: single_pool(12, 6, None), op: None },
            op: None,
        },
        op: None,
    };
    let mut dice = Dice::new();
    let results = gen.generate(&mut dice);
    assert_eq!(results.lhs.count(), 12);
    assert!(results.rhs.is_none());
}

#[test]
fn roller_builds_pool_generator() {
    let r = roller(3, 6, Some("**"));
    assert_eq!(r.count, 3);
    assert_eq!(r.range, 6);
    assert_eq!(r.op, Some(PoolOp::ExplodeEachUntil(None)));
    let mut dice = Dice::new();
    let pool = r.generate(&mut dice);
    assert!(pool.count() >= 3);
    assert!(pool.sum() >= 3);
    assert_eq!(roller(2, 8, Some("?")).op, None);
    assert_eq!(roller(2, 8, None).op, None);
}

#[test]
fn parse_comparison_has_rhs() {
    let gen = parse("2d4! + 2d6! < 3d8!");
    assert!(gen.is_ok());
    let gen = gen.unwrap();
    let mut dice = Dice::new();
    let results = gen.generate(&mut dice);
    assert!(results.rhs.is_some());
}

#[test]
fn hits_generator_counts_hits() {
    let gen = HitsGenerator { expr: single_pool(12, 6, None), op: Some(TargetOp::TargetHigh(4)) };
    let mut dice = Dice::scripted(vec![1, 2, 3, 4, 5, 6, 1, 2, 3, 4, 5, 6]);
    let pool = gen.generate(&mut dice);
    assert_eq!(pool.hits(), 6);
    assert_eq!(pool.sum(), 6);
}

#[test]
fn hits_below_target() {
    let results = roll("4d6(3)", vec![1, 4, 3, 6]);
    assert_eq!(results.lhs.hits(), 2);
    assert_eq!(results.sum(), 2);
}

#[test]
fn pool_generator_explode_each() {
    let gen = PoolGenerator { count: 3, range: 6, op: Some(PoolOp::ExplodeEach(None)) };
    let mut dice = Dice::new();
    let pool = gen.generate(&mut dice);
    assert!(pool.count() >= 3);
    let mut dice = Dice::scripted(vec![6, 2, 3, 6, 6]);
    let pool = gen.generate(&mut dice);
    assert_eq!(pool.count(), 5);
    assert_eq!(pool.bonus(), 2);
    assert_eq!(pool.sum(), 23);
}

#[test]
fn apply_last_examples() {
    let val = Value::random_with_value(6, 6, false);
    let mut dice = Dice::new();

    let mut pool = Pool::new_with_values(vec![val]);
    PoolOp::ExplodeEach(None).apply_last(&mut pool, &mut dice);
    assert_eq!(pool.count(), 2);
    assert_eq!(pool.bonus(), 1);
    assert_eq!(pool.kept(), 2);
    assert!(pool.sum() > 6);

    let mut pool = Pool::new_with_values(vec![val]);
    PoolOp::ExplodeEachUntil(None).apply_last(&mut pool, &mut dice);
    assert!(pool.count() >= 2);

    let mut pool = Pool::new_with_values(vec![val]);
    PoolOp::AddEach(Some(4)).apply_last(&mut pool, &mut dice);
    assert_eq!(pool.sum(), 10);
    assert_eq!(pool.values[0].modifier(), 4);
    assert_eq!(pool.values[0].sum(), 10);

    let mut pool = Pool::new_with_values(vec![val]);
    PoolOp::SubEach(Some(4)).apply_last(&mut pool, &mut dice);
    assert_eq!(pool.sum(), 2);
    assert_eq!(pool.values[0].modifier(), -4);
    assert_eq!(pool.values[0].sum(), 2);
}

#[test]
fn explode_each_until_follows_script() {
    let mut pool = Pool::new_with_values(vec![Value::random_with_value(6, 6, false)]);
    let mut dice = Dice::scripted(vec![6, 6, 3]);
    PoolOp::ExplodeEachUntil(None).apply_last(&mut pool, &mut dice);
    assert_eq!(pool.count(), 4);
    assert_eq!(pool.bonus(), 3);
    assert_eq!(pool.sum(), 21);
}

#[test]
fn apply_all_examples() {
    let val1 = Value::random_with_value(6, 6, false);
    let val2 = Value::random_with_value(5, 6, false);
    let val3 = Value::random_with_value(1, 6, false);
    let val4 = Value::random_with_value(6, 6, false);
    let val5 = Value::random_with_value(1, 6, false);
    let mut dice = Dice::new();

    let mut pool = Pool::new_with_values(vec![val1, val2]);
    PoolOp::Explode(Some(5)).apply_all(&mut pool, &mut dice);
    assert_eq!(pool.count(), 4);
    assert_eq!(pool.bonus(), 2);
    assert_eq!(pool.kept(), 4);
    assert!(pool.sum() >= 13);

    let mut pool = Pool::new_with_values(vec![val1, val2]);
    PoolOp::ExplodeUntil(Some(5)).apply_all(&mut pool, &mut dice);
    assert!(pool.count() >= 4);
    assert!(pool.bonus() >= 2);
    assert!(pool.kept() >= 4);
    assert!(pool.sum() >= 13);

    let mut pool = Pool::new_with_values(vec![val1, val2, val3, val4]);
    PoolOp::TakeHigh(2).apply_all(&mut pool, &mut dice);
    assert_eq!(pool.count(), 4);
    assert_eq!(pool.bonus(), 0);
    assert_eq!(pool.kept(), 2);
    assert_eq!(pool.sum(), 12);

    let mut pool = Pool::new_with_values(vec![val1, val2, val3, val4]);
    PoolOp::TakeLow(2).apply_all(&mut pool, &mut dice);
    assert_eq!(pool.count(), 4);
    assert_eq!(pool.bonus(), 0);
    assert_eq!(pool.kept(), 2);
    assert_eq!(pool.sum(), 6);

    let mut pool = Pool::new_with_values(vec![val1, val2, val3, val4]);
    PoolOp::TakeMid(2).apply_all(&mut pool, &mut dice);
    assert_eq!(pool.count(), 4);
    assert_eq!(pool.bonus(), 0);
    assert_eq!(pool.kept(), 2);
    assert_eq!(pool.sum(), 11);

    let mut pool = Pool::new_with_values(vec![val1, val2, val3]);
    let old_sum = pool.sum();
    PoolOp::Advantage.apply_all(&mut pool, &mut dice);
    assert_eq!(pool.count(), 6);
    assert_eq!(pool.bonus(), 3);
    assert_eq!(pool.kept(), 3);
    assert!(old_sum <= pool.sum());

    let mut pool = Pool::new_with_values(vec![val1, val2, val3]);
    let old_sum = pool.sum();
    PoolOp::Disadvantage.apply_all(&mut pool, &mut dice);
    assert_eq!(pool.count(), 6);
    assert_eq!(pool.bonus(), 3);
    assert_eq!(pool.kept(), 3);
    assert!(old_sum >= pool.sum());

    let mut pool = Pool::new_with_values(vec![val1, val2, val3, val4, val5]);
    PoolOp::BestGroup.apply_all(&mut pool, &mut dice);
    assert_eq!(pool.count(), 5);
    assert_eq!(pool.bonus(), 0);
    assert_eq!(pool.kept(), 2);
    assert_eq!(pool.sum(), 12);

    let mut pool = Pool::new_with_values(vec![val2, val3, val4, val5]);
    PoolOp::BestGroup.apply_all(&mut pool, &mut dice);
    assert_eq!(pool.sum(), 2);
}

#[test]
fn operators_leave_empty_pool_alone() {
    for op in [
        PoolOp::Explode(None),
        PoolOp::ExplodeUntil(None),
        PoolOp::ExplodeEach(None),
        PoolOp::ExplodeEachUntil(None),
        PoolOp::AddEach(None),
        PoolOp::SubEach(None),
        PoolOp::TakeMid(1),
        PoolOp::TakeLow(1),
        PoolOp::TakeHigh(1),
        PoolOp::Disadvantage,
        PoolOp::Advantage,
        PoolOp::BestGroup,
    ] {
        let mut pool = Pool::new();
        let mut scripted = Dice::scripted(vec![2]);
        op.apply_last(&mut pool, &mut scripted);
        op.apply_all(&mut pool, &mut scripted);
        assert_eq!(pool.count(), 0);
        assert_eq!(scripted.draw(6), 2);
        let mut pool = Pool::new_with_values(vec![Value::random_with_value(3, 6, false)]);
        let mut scripted = Dice::scripted(vec![2]);
        match op {
            PoolOp::ExplodeEach(_) | PoolOp::ExplodeEachUntil(_) | PoolOp::AddEach(_) | PoolOp::SubEach(_) => {}
            _ => {
                op.apply_last(&mut pool, &mut scripted);
                assert_eq!(pool.count(), 1);
                assert_eq!(pool.sum(), 3);
                assert_eq!(scripted.draw(6), 2);
            }
        }
    }
}

#[test]
fn plain_pool_three_d_six() {
    let mut dice = Dice::new();
    let gen = roller(3, 6, None);
    for _ in 0..500 {
        let pool = gen.generate(&mut dice);
        assert_eq!(pool.count(), 3);
        assert_eq!(pool.kept(), 3);
        assert!(pool.sum() >= 3 && pool.sum() <= 18);
    }
}

#[test]
fn keep_higher_of_two_dice() {
    let results = roll("2d6^1", vec![3, 5]);
    assert_eq!(results.lhs.count(), 2);
    assert_eq!(results.lhs.kept(), 1);
    assert_eq!(results.sum(), 5);
    let results = roll("2d6^1", vec![6, 2]);
    assert_eq!(results.lhs.kept(), 1);
    assert_eq!(results.sum(), 6);
    let mut dice = Dice::new();
    let gen = parse("2d6^1").unwrap();
    for _ in 0..200 {
        let r = gen.generate(&mut dice);
        let a = r.lhs.values[0].value;
        let b = r.lhs.values[1].value;
        assert_eq!(r.lhs.kept(), 1);
        assert_eq!(r.sum(), a.max(b) as i128);
    }
}

#[test]
fn explode_on_forced_max_face() {
    let results = roll("1d6!", vec![6, 4]);
    assert_eq!(results.lhs.count(), 2);
    assert_eq!(results.lhs.bonus(), 1);
    assert_eq!(results.sum(), 10);
    assert!(results.sum() > 6);
    let results = roll("1d6!", vec![5]);
    assert_eq!(results.lhs.count(), 1);
}

#[test]
fn explode_until_on_whole_pool() {
    let results = roll("1d6!!", vec![6, 6, 2]);
    assert_eq!(results.lhs.count(), 3);
    assert_eq!(results.sum(), 14);
}

#[test]
fn success_counting() {
    let results = roll("(4d4**) {0}", vec![1, 2, 3, 1]);
    assert_eq!(results.lhs.sum(), 7);
    assert_eq!(results.sum(), 8);
    let results = roll("3d6{20}", vec![1, 1, 1]);
    assert_eq!(results.sum(), 0);
    let results = roll("3d6{3}", vec![1, 1, 1]);
    assert_eq!(results.sum(), 1);
    let results = roll("3d6{4, 2}", vec![6, 6, 6]);
    assert_eq!(results.sum(), 8);
    let results = roll("3d6{4, 2}", vec![1, 1, 1]);
    assert_eq!(results.sum(), 0);
}

#[test]
fn best_group_keeps_three_sixes() {
    let results = roll("5d6Y", vec![6, 6, 1, 6, 1]);
    let pool = &results.lhs;
    assert_eq!(pool.count(), 5);
    assert_eq!(pool.kept(), 3);
    assert_eq!(pool.sum(), 18);
    for v in pool.values.iter() {
        assert_eq!(!v.is_discarded(), v.value == 6);
    }
    let results = roll("3d6Y", vec![1, 2, 3]);
    assert_eq!(results.lhs.kept(), 1);
    assert_eq!(results.sum(), 3);
    let results = roll("1d6Y", vec![4]);
    assert_eq!(results.lhs.kept(), 1);
    assert_eq!(results.sum(), 4);
    let results = roll("4d6Y", vec![2, 5, 2, 5]);
    assert_eq!(results.lhs.kept(), 2);
    assert_eq!(results.sum(), 10);
}

#[test]
fn comparison_of_two_pools() {
    let results = roll("3d8 > 4d6", vec![8, 8, 8, 1, 1, 1, 1]);
    assert!(results.rhs.is_some());
    assert_eq!(results.value, 1);
    assert_eq!(results.sum(), 1);
    let results = roll("3d8 > 4d6", vec![1, 1, 1, 6, 6, 6, 6]);
    assert_eq!(results.value, 0);
    let results = roll("3d8 > 4d6", vec![1, 1, 2, 1, 1, 1, 1]);
    assert_eq!(results.value, 0);
    let mut dice = Dice::new();
    let gen = parse("3d8 > 4d6").unwrap();
    for _ in 0..200 {
        let r = gen.generate(&mut dice);
        let rhs = r.rhs.as_ref().unwrap();
        assert_eq!(r.value == 1, r.lhs.value() > rhs.value());
    }
}

#[test]
fn three_way_comparison() {
    assert_eq!(roll("1d6 <=> 1d6", vec![1, 2]).value, -1);
    assert_eq!(roll("1d6 <=> 1d6", vec![2, 2]).value, 0);
    assert_eq!(roll("1d6 <=> 1d6", vec![3, 2]).value, 1);
    assert_eq!(roll("1d6 >= 1d6", vec![2, 2]).value, 1);
    assert_eq!(roll("1d6 <= 1d6", vec![3, 2]).value, 0);
    assert_eq!(roll("1d6 = 1d6", vec![2, 2]).value, 1);
    assert_eq!(roll("1d6 < 1d6", vec![1, 2]).value, 1);
}

#[test]
fn no_comparison_outcome_is_left_pool() {
    let results = roll("3d6 + 4 - 1d4", vec![1, 2, 3, 2]);
    assert!(results.rhs.is_none());
    assert_eq!(results.value, 8);
    assert_eq!(results.sum(), 8);
    let results = roll("7", vec![]);
    assert_eq!(results.value, 7);
    assert_eq!(results.value, results.lhs.value());
}

#[test]
fn subtracted_discarded_value_stays_out() {
    let results = roll("- 2d6^1", vec![2, 5]);
    assert_eq!(results.lhs.kept(), 1);
    assert_eq!(results.sum(), -5);
}

#[test]
fn add_and_sub_each() {
    assert_eq!(roll("3d6++2", vec![1, 2, 3]).sum(), 12);
    assert_eq!(roll("3d6--", vec![1, 2, 3]).sum(), 3);
}

#[test]
fn advantage_and_disadvantage() {
    let r = roll("2d6 ADV", vec![1, 1, 6, 6]);
    assert_eq!(r.lhs.count(), 4);
    assert_eq!(r.lhs.kept(), 2);
    assert_eq!(r.sum(), 12);
    let r = roll("2d6 DIS", vec![1, 1, 6, 6]);
    assert_eq!(r.sum(), 2);
    let r = roll("2d6 ADV", vec![3, 3, 1, 5]);
    assert_eq!(r.sum(), 6);
    assert!(!r.lhs.values[0].is_discarded());
}

#[test]
fn validity_of_trees() {
    assert!(!parse("3d6{4, 0}").unwrap().valid());
    assert!(parse("3d6{4, 1}").unwrap().valid());
    assert!(!parse("3d0").unwrap().valid());
    assert!(parse("0d0").unwrap().valid());
    assert!(!parse("3d6**1").unwrap().valid());
    assert!(!parse("3d6!!0").unwrap().valid());
    assert!(!parse("3d1!!").unwrap().valid());
    assert!(!parse("3d1**").unwrap().valid());
    assert!(parse("3d6**2").unwrap().valid());
    assert!(parse("3d6!!").unwrap().valid());
    assert!(parse("3d1!").unwrap().valid());
}

#[test]
fn zero_dice_pool_rolls_nothing() {
    let r = roll("0d0", vec![]);
    assert_eq!(r.lhs.count(), 0);
    assert_eq!(r.sum(), 0);
}

#[test]
fn negative_success_step_rounds_toward_zero() {
    let gen = SuccGenerator {
        hits: HitsGenerator { expr: single_pool(3, 6, None), op: None },
        op: Some(SuccessOp::TargetSuccNext(4, -4)),
    };
    assert!(gen.valid());
    let mut dice = Dice::scripted(vec![6, 6, 6]);
    let pool = gen.generate(&mut dice);
    assert_eq!(pool.sum(), 18);
    assert_eq!(pool.value(), -2);
}

#[test]
fn constant_terms_make_no_draw() {
    let r = roll("5 + 1d6 + 2", vec![3, 4]);
    assert_eq!(r.sum(), 10);
    let gen = parse("5").unwrap();
    let mut dice = Dice::scripted(vec![2]);
    gen.generate(&mut dice);
    assert_eq!(dice.draw(6), 2);
}

#[test]
fn scripted_faces_are_used_in_order() {
    let r = roll("2d6 + 1d8 > 1d4", vec![1, 2, 8, 4]);
    let faces: Vec<i32> = r.lhs.values.iter().map(|v| v.value).collect();
    assert_eq!(faces, vec![1, 2, 8]);
    assert_eq!(r.rhs.as_ref().unwrap().values[0].value, 4);
}

#[test]
fn random_draws_stay_in_range() {
    let mut dice = Dice::new();
    let mut below_max = false;
    for _ in 0..300 {
        let v = dice.draw(6);
        assert!((1..=6).contains(&v));
        if v < 6 {
            below_max = true;
        }
    }
    assert!(below_max);
}

#[test]
fn scripted_faces_out_of_range_are_redrawn() {
    let mut dice = Dice::scripted(vec![9, 3]);
    let a = dice.draw(6);
    assert!((1..=6).contains(&a));
    assert_eq!(dice.draw(6), 3);
}

#[test]
fn comparison_op_variants() {
    let gen = parse("1d4 >= 2").unwrap();
    assert!(matches!(gen.op, Some(ComparisonOp::GE(_))));
    let gen = parse("1d4 {3}").unwrap();
    assert_eq!(gen.succ.op, Some(SuccessOp::TargetSucc(3)));
}

#[test]
fn operators_outside_their_part_are_accepted() {
    let mut dice = Dice::scripted(vec![5]);
    let mut pool = Pool::new_with_values(vec![Value::random_with_value(1, 1, false)]);
    PoolOp::ExplodeUntil(Some(0)).apply_last(&mut pool, &mut dice);
    PoolOp::SubEach(Some(i32::MIN)).apply_all(&mut pool, &mut dice);
    PoolOp::ExplodeEachUntil(Some(1)).apply_all(&mut pool, &mut dice);
    assert_eq!(pool.count(), 1);
    assert_eq!(pool.sum(), 1);
    assert_eq!(dice.draw(6), 5);
}

#[test]
fn same_script_same_results() {
    let script = vec![6, 6, 2, 5, 1, 3, 6, 4, 2, 2, 1, 5, 3, 3, 6, 1];
    for text in [
        "3d6! + 2d6** - 1d8 > 2d6^1",
        "4d6~2 + 3 <=> 3d6 ADV",
        "(5d6Y)[4]{2, 2}",
        "2d6!! = 1d20--2",
        "2d6 DIS + 1",
    ] {
        let a = roll(text, script.clone());
        let b = roll(text, script.clone());
        assert_eq!(a.lhs.values, b.lhs.values, "{}", text);
        assert_eq!(a.lhs.value(), b.lhs.value(), "{}", text);
        assert_eq!(a.rhs.as_ref().map(|p| p.values.clone()), b.rhs.as_ref().map(|p| p.values.clone()), "{}", text);
        assert_eq!(a.value, b.value, "{}", text);
    }
}

#[test]
fn outcome_without_comparison_is_left_outcome() {
    let r = roll("3d6{4}", vec![6, 6, 6]);
    assert!(r.rhs.is_none());
    assert_eq!(r.value, 15);
    assert_eq!(r.value, r.lhs.value());
    assert_eq!(r.to_string(), "6, 6, 6 = 18 {15}");
}
