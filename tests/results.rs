use dice_nom::results::{Pool, Results, Value};
use dice_nom::roller::Op;

#[test]
fn value_text_marks_bonus_and_discard() {
    let mut v = Value::random_with_value(4, 6, true);
    assert_eq!(v.to_string(), "4*");
    v.mark_discarded();
    assert_eq!(v.to_string(), "4*-");
    assert_eq!(v.sum(), 0);
    let mut w = Value::random_with_value(3, 6, false);
    w.set_modifier(2);
    assert_eq!(w.to_string(), "5");
    w.mark_discarded();
    assert_eq!(w.to_string(), "5-");
}

#[test]
fn discarded_value_contributes_nothing() {
    let mut v = Value::random_with_value(5, 6, false);
    v.mark_discarded();
    v.mark_penalty();
    v.set_modifier(3);
    v.mark_hit();
    assert_eq!(v.sum(), 0);
    assert!(!v.is_hit());
    assert!(v.is_discarded());
}

#[test]
fn value_flags() {
    let c = Value::constant(7);
    assert!(c.is_const());
    assert!(!c.is_random());
    assert_eq!(c.range, 7);
    assert_eq!(c.sum(), 7);
    let mut v = Value::random_with_value(2, 6, false);
    assert!(v.is_random());
    assert!(!v.is_bonus());
    v.mark_bonus();
    assert!(v.is_bonus());
    v.mark_penalty();
    assert_eq!(v.sum(), -2);
    v.set_hit(true);
    assert!(v.is_hit());
    assert_eq!(v.sum(), -1);
    v.set_hit(false);
    assert_eq!(v.sum(), 0);
}

#[test]
fn pool_queries_and_text() {
    let mut pool = Pool::new_with_values(vec![
        Value::random_with_value(6, 6, false),
        Value::random_with_value(5, 8, false),
        Value::constant(3),
    ]);
    assert_eq!(pool.count(), 3);
    assert_eq!(pool.range(), 8);
    assert_eq!(pool.sum(), 14);
    assert_eq!(pool.value(), 14);
    assert_eq!(pool.to_string(), "6, 5, 3 = 14");
    pool.set_value(2);
    assert_eq!(pool.value(), 2);
    assert_eq!(pool.sum(), 14);
    assert_eq!(pool.to_string(), "6, 5, 3 = 14 {2}");
    assert_eq!(Pool::new().range(), 0);
    assert_eq!(Pool::new_with_values(vec![Value::constant(4)]).range(), 0);
}

#[test]
fn results_outcome_and_text() {
    let lhs = Pool::new_with_values(vec![Value::random_with_value(4, 6, false)]);
    let rhs = Pool::new_with_values(vec![Value::random_with_value(2, 6, false)]);
    let r = Results { lhs, rhs: Some(rhs), value: 1 };
    assert_eq!(r.sum(), 1);
    assert_eq!(r.to_string(), "4 = 4 <> 2 = 2 = 1");
    let lhs = Pool::new_with_values(vec![Value::random_with_value(4, 6, false)]);
    let r = Results { lhs, rhs: None, value: 4 };
    assert_eq!(r.sum(), 4);
    assert_eq!(r.to_string(), "4 = 4");
}

#[test]
fn op_symbols() {
    assert_eq!(Op::ExplodeEach.to_string(), "!!");
    assert_eq!(Op::Critical.to_string(), "$");
    assert_eq!(Op::TakeLow.to_string(), "`");
}

#[test]
fn default_pool_is_empty() {
    let pool = Pool::default();
    assert_eq!(pool.count(), 0);
    assert_eq!(pool.sum(), 0);
    assert_eq!(pool.value(), 0);
}
