use lib::animation::{Animation, RealAnimationPart};
use lib::arithmetic::Arithmetic;
use lib::ids::ArithmeticId;
use lib::stage::{DevStageChanging, RealAnimationStageChanging, StageChanging};
use lib::storage2::Storage2;
use lib::unique_id::UniqueId;
use std::collections::BTreeMap;

fn id(n: usize) -> ArithmeticId {
    ArithmeticId(UniqueId(n))
}

fn all(s: &Storage2<Arithmetic>) -> Vec<usize> {
    s.all_ids().into_iter().map(|i| i.0 .0).collect()
}

fn value(s: &Storage2<Arithmetic>, n: usize) -> Option<Arithmetic> {
    s.get_original(id(n)).copied()
}

fn setup() -> Storage2<Arithmetic> {
    let mut s: Storage2<Arithmetic> = Storage2::new();
    s.push_default(); // 0
    s.push_default(); // 1
    let mut field = None;
    s.toggle_inline(&mut field); // 2, inline
    s.set(id(2), Arithmetic::Float(7));
    s
}

#[test]
fn stage_init_copies_replacements_and_dev_values() {
    let mut s = setup();
    let mut dev = DevStageChanging(BTreeMap::new());
    dev.copy(&s);
    assert_eq!(dev.0.keys().copied().collect::<Vec<_>>(), vec![0, 1]);
    let mut stage: StageChanging<Arithmetic> = StageChanging::new();
    stage.set(0, Animation::Changed(Some(id(2))));
    stage.set(1, Animation::FromDev);
    assert!(matches!(stage.get(1), Some(Animation::FromDev)));
    assert!(stage.get(5).is_none());
    s.set(id(1), Arithmetic::Float(3));
    stage.init_stage(&mut s, &dev);
    assert_eq!(value(&s, 0), Some(Arithmetic::Float(7)));
    assert_eq!(value(&s, 1), Some(Arithmetic::Float(0)));
    stage.remove(&mut s);
    assert_eq!(all(&s), vec![0, 1]);
}

#[test]
fn dev_stage_puts_values_back() {
    let mut s = setup();
    let mut dev = DevStageChanging(BTreeMap::new());
    dev.copy(&s);
    s.set(id(0), Arithmetic::Float(9));
    s.set(id(1), Arithmetic::Sum(None, None));
    dev.init_stage(&mut s);
    assert_eq!(value(&s, 0), Some(Arithmetic::Float(0)));
    assert_eq!(value(&s, 1), Some(Arithmetic::Float(0)));
    assert_eq!(value(&s, 2), Some(Arithmetic::Float(7)));
}

#[test]
fn real_animation_changes() {
    let mut s = setup();
    let mut anim: RealAnimationStageChanging<Arithmetic> = RealAnimationStageChanging::new();
    anim.set(1, RealAnimationPart::Changed(Some(id(2))));
    anim.set(0, RealAnimationPart::CopyPrev);
    s.set(id(0), Arithmetic::Float(4));
    anim.init_stage(&mut s);
    assert_eq!(value(&s, 0), Some(Arithmetic::Float(4)));
    assert_eq!(value(&s, 1), Some(Arithmetic::Float(7)));
    anim.set(1, RealAnimationPart::CopyPrev);
    anim.remove(&mut s);
    assert_eq!(all(&s), vec![0, 1, 2]);
    anim.set(1, RealAnimationPart::Changed(Some(id(2))));
    anim.remove(&mut s);
    assert_eq!(all(&s), vec![0, 1]);
}
