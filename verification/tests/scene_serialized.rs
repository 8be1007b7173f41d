use lib::animation::CurrentStage;
use lib::arithmetic::Arithmetic;
use lib::ids::{AnimationId, ArithmeticId, RealAnimationId};
use lib::scene_serialized::{current_stage_from_ser, current_stage_to_ser, from_tree, to_tree, CurrentStageSer, TreeRef};
use lib::storage2::Storage2;
use lib::unique_id::UniqueId;

fn named(names: &[&str]) -> Storage2<Arithmetic> {
    let mut s: Storage2<Arithmetic> = Storage2::new();
    for (k, n) in names.iter().enumerate() {
        s.push_default();
        s.rename(ArithmeticId(UniqueId(k)), (*n).to_owned());
    }
    s
}

#[test]
fn current_stage_is_saved_by_name_and_read_back() {
    let stages = named(&["intro", "outro"]);
    let anims = named(&["fly"]);
    let saved = current_stage_to_ser(CurrentStage::Animation(AnimationId(UniqueId(1))), &stages, &anims);
    assert_eq!(saved, CurrentStageSer::Animation("outro".to_owned()));
    assert_eq!(current_stage_from_ser(saved, &stages, &anims), CurrentStage::Animation(AnimationId(UniqueId(1))));
    let saved = current_stage_to_ser(CurrentStage::RealAnimation(RealAnimationId(UniqueId(0))), &stages, &anims);
    assert_eq!(saved, CurrentStageSer::RealAnimation("fly".to_owned()));
    assert_eq!(current_stage_to_ser(CurrentStage::Dev, &stages, &anims), CurrentStageSer::Dev);
}

#[test]
fn unknown_stage_names_fall_back() {
    let stages = named(&["intro"]);
    let anims = named(&[]);
    assert_eq!(
        current_stage_to_ser(CurrentStage::Animation(AnimationId(UniqueId(9))), &stages, &anims),
        CurrentStageSer::Animation("?".to_owned())
    );
    assert_eq!(current_stage_from_ser(CurrentStageSer::Animation("nope".to_owned()), &stages, &anims), CurrentStage::Dev);
    assert_eq!(current_stage_from_ser(CurrentStageSer::RealAnimation("intro".to_owned()), &stages, &anims), CurrentStage::Dev);
}

#[test]
fn elements_are_saved_by_name_or_inline_with_cycles_cut() {
    let mut s: Storage2<Arithmetic> = Storage2::new();
    s.push_default(); // 0, named "id0"
    let mut a = None;
    s.toggle_inline(&mut a); // 1, anonymous
    let mut b = None;
    s.toggle_inline(&mut b); // 2, anonymous
    let id = |n: usize| ArithmeticId(UniqueId(n));
    s.set(id(1), Arithmetic::Sum(Some(id(0)), Some(id(2))));
    s.set(id(2), Arithmetic::Mul(Some(id(1)), None));
    let mut visited = Vec::new();
    assert_eq!(to_tree(&s, id(0), &mut visited), Some(TreeRef::Named("id0".to_owned())));
    let tree = to_tree(&s, id(1), &mut visited);
    assert!(visited.is_empty());
    let expected = TreeRef::Inline(
        Arithmetic::Sum(Some(id(0)), Some(id(2))),
        vec![
            Some(TreeRef::Named("id0".to_owned())),
            Some(TreeRef::Inline(Arithmetic::Mul(Some(id(1)), None), vec![None])),
        ],
    );
    assert_eq!(tree, Some(expected));
    assert_eq!(to_tree(&s, id(7), &mut visited), None);
    // An entry already being saved is cut off.
    let mut on_path = vec![2];
    assert_eq!(to_tree(&s, id(2), &mut on_path), None);
    assert_eq!(on_path, vec![2]);
}

#[test]
fn saved_elements_are_read_back_as_new_anonymous_entries() {
    let id = |n: usize| ArithmeticId(UniqueId(n));
    let tree = TreeRef::Inline(
        Arithmetic::Sum(Some(id(0)), Some(id(2))),
        vec![
            Some(TreeRef::Named("id0".to_owned())),
            Some(TreeRef::Inline(Arithmetic::Mul(Some(id(1)), None), vec![None])),
        ],
    );
    let mut s: Storage2<Arithmetic> = Storage2::new();
    s.push_default(); // 0, named "id0"
    assert_eq!(from_tree(&mut s, tree), Some(id(2)));
    assert_eq!(s.get_original(id(1)), Some(&Arithmetic::Mul(None, None)));
    assert_eq!(s.get_name(id(1)), Some(None));
    assert_eq!(s.get_original(id(2)), Some(&Arithmetic::Sum(Some(id(0)), Some(id(1)))));
    assert_eq!(s.get_name(id(2)), Some(None));
    assert_eq!(s.len(), 1);
    // Names that are not there, and copies whose saved fields do not fit, give nothing.
    assert_eq!(from_tree(&mut s, TreeRef::Named("nope".to_owned())), None);
    assert_eq!(from_tree(&mut s, TreeRef::Inline(Arithmetic::Float(0), vec![None])), None);
    assert_eq!(s.get_name(id(3)), None);
}

#[test]
fn saving_then_reading_back_copies_anonymous_entries() {
    let id = |n: usize| ArithmeticId(UniqueId(n));
    let mut s: Storage2<Arithmetic> = Storage2::new();
    s.push_default(); // 0, named "id0"
    let mut a = None;
    s.toggle_inline(&mut a); // 1, anonymous
    s.set(id(1), Arithmetic::Mul(Some(id(0)), None));
    let tree = to_tree(&s, id(1), &mut Vec::new()).unwrap();
    assert_eq!(from_tree(&mut s, tree), Some(id(2)));
    assert_eq!(s.get_original(id(2)), Some(&Arithmetic::Mul(Some(id(0)), None)));
}

#[test]
fn named_entries_read_back_as_themselves() {
    let id = |n: usize| ArithmeticId(UniqueId(n));
    let mut s = named(&["a", "b"]);
    let tree = to_tree(&s, id(1), &mut Vec::new()).unwrap();
    assert_eq!(tree, TreeRef::Named("b".to_owned()));
    assert_eq!(from_tree(&mut s, tree), Some(id(1)));
    assert_eq!(s.all_ids().len(), 2);
}
