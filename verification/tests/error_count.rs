use lib::arithmetic::{Arithmetic, MoreArithmetic};
use lib::ids::{ArithmeticId, MoreArithmeticId};
use lib::stage::{RealAnimationStageChanging, StageChanging};
use lib::animation::{Animation, RealAnimationPart};
use lib::storage2::Storage2;
use lib::unique_id::UniqueId;

fn aid(n: usize) -> ArithmeticId {
    ArithmeticId(UniqueId(n))
}

/// 0: named Sum(1, None); 1: inline Mul(2, 3); 2: inline constant; 3: inline Sum(None, None).
fn sample() -> Storage2<Arithmetic> {
    let mut s: Storage2<Arithmetic> = Storage2::new();
    s.push_default();
    let mut a = None;
    s.toggle_inline(&mut a);
    let mut b = None;
    s.toggle_inline(&mut b);
    let mut c = None;
    s.toggle_inline(&mut c);
    assert_eq!((a, b, c), (Some(aid(1)), Some(aid(2)), Some(aid(3))));
    s.set(aid(0), Arithmetic::Sum(Some(aid(1)), None));
    s.set(aid(1), Arithmetic::Mul(Some(aid(2)), Some(aid(3))));
    s.set(aid(3), Arithmetic::Sum(None, None));
    s
}

#[test]
fn errors_add_up_through_inline_fields() {
    let s = sample();
    // Missing operand of 0, plus the two missing operands of 3 reached through 1.
    assert_eq!(s.errors_count_id(aid(0), &()), 3);
    assert_eq!(s.errors_inline(aid(1), &()), 2);
    assert_eq!(s.errors_inline(aid(2), &()), 0);
    assert_eq!(s.errors_count_all(&()), 3);
}

#[test]
fn named_entry_counts_nothing_as_field() {
    let s = sample();
    assert_eq!(s.errors_inline(aid(0), &()), 0);
    assert_eq!(s.errors_count_id(aid(0), &()), 3);
}

#[test]
fn missing_entry_counts_one() {
    let s = sample();
    assert_eq!(s.errors_inline(aid(42), &()), 1);
    assert_eq!(s.errors_count_id(aid(42), &()), 1);
}

#[test]
fn cycles_are_counted_once_along_a_chain() {
    let mut s: Storage2<Arithmetic> = Storage2::new();
    s.push_default();
    let mut a = None;
    s.toggle_inline(&mut a); // 1
    let mut b = None;
    s.toggle_inline(&mut b); // 2
    s.set(aid(0), Arithmetic::Sum(Some(aid(1)), Some(aid(1))));
    s.set(aid(1), Arithmetic::Mul(Some(aid(2)), None));
    s.set(aid(2), Arithmetic::Sum(Some(aid(1)), None));
    // 1 -> 2 -> 1 stops at the repeated 1: each visit of 1 counts 1 (its None) + 1 (2's None).
    assert_eq!(s.errors_inline(aid(1), &()), 2);
    // 0 reaches 1 twice, and counts it each time.
    assert_eq!(s.errors_count_id(aid(0), &()), 4);
}

#[test]
fn more_arithmetic_counts_missing_argument() {
    let mut s: Storage2<MoreArithmetic> = Storage2::new();
    s.push_default();
    s.push_default();
    s.set(MoreArithmeticId(UniqueId(1)), MoreArithmetic::Cos(Some(aid(5))));
    s.set(MoreArithmeticId(UniqueId(0)), MoreArithmetic::Sin(None));
    assert_eq!(s.errors_count_all(&()), 1);
    assert_eq!(s.errors_count_id(MoreArithmeticId(UniqueId(1)), &()), 0);
}

#[test]
fn stages_count_errors_of_replacements() {
    let s = sample();
    let mut stage: StageChanging<Arithmetic> = StageChanging::new();
    stage.set(7, Animation::Changed(Some(aid(1))));
    stage.set(8, Animation::ProvidedToUser);
    stage.set(9, Animation::ChangedAndToUser(Some(aid(3))));
    stage.set(10, Animation::Changed(None));
    assert_eq!(stage.errors_count(&s, &()), 4);

    let mut real: RealAnimationStageChanging<Arithmetic> = RealAnimationStageChanging::new();
    real.set(7, RealAnimationPart::Changed(Some(aid(2))));
    real.set(8, RealAnimationPart::CopyPrev);
    real.set(9, RealAnimationPart::Changed(Some(aid(0))));
    real.set(10, RealAnimationPart::Changed(Some(aid(99))));
    // Constant: 0; named entry as a field: 0; missing entry: 1.
    assert_eq!(real.errors_count(&s, &()), 1);
}
