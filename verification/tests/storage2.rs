use lib::arithmetic::{Arithmetic, MoreArithmetic};
use lib::combo_box::{apply_choice, ComboBoxChoosable};
use lib::easing::Easing;
use lib::ids::{ArithmeticId, TextureId};
use lib::storage2::{Storage2, StorageElem2};

type Node = Arithmetic;
use lib::texture::TextureName;
use lib::unique_id::UniqueId;


fn id(n: usize) -> ArithmeticId {
    ArithmeticId(UniqueId(n))
}

fn names(s: &Storage2<Node>) -> Vec<(usize, String)> {
    s.visible_elements().into_iter().map(|(i, n)| (i.0 .0, n.to_owned())).collect()
}

fn all(s: &Storage2<Node>) -> Vec<usize> {
    s.all_ids().into_iter().map(|i| i.0 .0).collect()
}

#[test]
fn push_default_names_by_id() {
    let mut s: Storage2<Node> = Storage2::default();
    s.push_default();
    s.push_default();
    s.push_default();
    assert_eq!(s.len(), 3);
    assert_eq!(names(&s), vec![(0, "id0".to_owned()), (1, "id1".to_owned()), (2, "id2".to_owned())]);
    assert_eq!(s.find_id("id1"), Some(id(1)));
    assert_eq!(s.find_id("nope"), None);
    assert_eq!(s.lookup_name("id2"), Some(id(2)));
    assert_eq!(s.get_name(id(0)), Some(Some("id0")));
    assert_eq!(s.get_name(id(7)), None);
}

#[test]
fn move_up_and_down_reorder() {
    let mut s: Storage2<Node> = Storage2::new();
    s.push_default();
    s.push_default();
    s.push_default();
    s.move_up(2);
    assert_eq!(names(&s).iter().map(|x| x.0).collect::<Vec<_>>(), vec![0, 2, 1]);
    s.move_down(0);
    assert_eq!(names(&s).iter().map(|x| x.0).collect::<Vec<_>>(), vec![2, 0, 1]);
    assert_eq!(s.find_id("id0"), Some(id(0)));
}

#[test]
fn toggle_inline_creates_and_removes() {
    let mut s: Storage2<Node> = Storage2::new();
    s.push_default();
    let mut field = None;
    s.toggle_inline(&mut field);
    assert_eq!(field, Some(id(1)));
    assert_eq!(s.get_name(id(1)), Some(None));
    assert_eq!(s.len(), 1);
    assert_eq!(all(&s), vec![0, 1]);
    s.toggle_inline(&mut field);
    assert_eq!(field, None);
    assert_eq!(all(&s), vec![0]);
    // A field referring to a named element becomes a fresh inline one.
    let mut named = Some(id(0));
    s.toggle_inline(&mut named);
    assert_eq!(named, Some(id(1)));
    assert_eq!(all(&s), vec![0, 1]);
}

#[test]
fn removing_removes_inline_fields_recursively() {
    let mut s: Storage2<Node> = Storage2::new();
    s.push_default(); // 0, named
    s.push_default(); // 1, named
    let mut a = None;
    s.toggle_inline(&mut a); // 2, inline
    let mut b = None;
    s.toggle_inline(&mut b); // 3, inline
    let mut c = None;
    s.toggle_inline(&mut c); // 4, inline
    s.set(id(0), Arithmetic::Sum(Some(id(2)), Some(id(1))));
    s.set(id(2), Arithmetic::Mul(Some(id(3)), Some(id(2))));
    s.set(id(3), Arithmetic::Sum(Some(id(2)), None));
    assert_eq!(s.get_original(id(2)).unwrap().field_ids(), vec![id(3), id(2)]);
    assert_eq!(all(&s), vec![0, 1, 2, 3, 4]);
    s.remove_by_pos(0);
    // 0 goes, inline 2 and 3 with it; named 1 and unrelated inline 4 stay.
    assert_eq!(all(&s), vec![1, 4]);
    assert_eq!(names(&s), vec![(1, "id1".to_owned())]);
    // Freed identifiers are handed out again, smallest first.
    s.push_default();
    assert_eq!(names(&s), vec![(1, "id1".to_owned()), (0, "id0".to_owned())]);
}

#[test]
fn remove_as_field_keeps_named() {
    let mut s: Storage2<Node> = Storage2::new();
    s.push_default();
    s.remove_as_field(id(0));
    assert_eq!(all(&s), vec![0]);
    let mut a = None;
    s.toggle_inline(&mut a);
    s.remove_as_field(id(1));
    assert_eq!(all(&s), vec![0]);
}

#[test]
fn set_and_set_id_copy_values() {
    let mut s: Storage2<Node> = Storage2::new();
    s.push_default();
    s.push_default();
    s.set(id(0), Arithmetic::Mul(Some(id(5)), None));
    assert_eq!(s.get_original(id(0)), Some(&Arithmetic::Mul(Some(id(5)), None)));
    s.set_id(id(1), id(0));
    assert_eq!(s.get_original(id(1)), Some(&Arithmetic::Mul(Some(id(5)), None)));
    assert_eq!(s.get_name(id(1)), Some(Some("id1")));
    s.set(id(9), Arithmetic::default());
    assert_eq!(s.get_original(id(9)), None);
    let mut gone = Some(id(9));
    assert!(s.forget_missing(&mut gone));
    assert_eq!(gone, None);
    let mut here = Some(id(1));
    assert!(!s.forget_missing(&mut here));
    assert_eq!(here, Some(id(1)));
}

#[test]
fn texture_storage() {
    let mut s: Storage2<TextureName> = Storage2::new();
    s.push_default();
    assert_eq!(s.get_original(TextureId(UniqueId(0))).map(|t| t.0.clone()), Some("scenes/monoportal.png".to_owned()));
    assert_eq!(TextureName::name("wall"), "wall_tex");
}

#[test]
fn more_arithmetic_removes_its_argument() {
    let mut args: Storage2<Node> = Storage2::new();
    let mut a = None;
    args.toggle_inline(&mut a);
    let f = MoreArithmetic::Cos(a);
    assert_eq!(f.errors_count(), 0);
    assert_eq!(MoreArithmetic::default().errors_count(), 1);
    f.remove_from(&mut args);
    assert_eq!(all(&args), Vec::<usize>::new());
}

#[test]
fn combo_box_choices() {
    let mut e = Easing::default();
    assert_eq!(e.get_number(), 0);
    assert_eq!(Easing::variants().len(), 6);
    assert!(apply_choice(&mut e, 4));
    assert_eq!(e, Easing::InOutFast);
    assert!(!apply_choice(&mut e, 4));
    let mut m = MoreArithmetic::Sin(Some(id(3)));
    assert!(apply_choice(&mut m, 1));
    assert_eq!(m, MoreArithmetic::Cos(None));
    assert_eq!(MoreArithmetic::variants(), &["sin(x)", "cos(x)"]);
}

#[test]
fn push_default_then_remove_restores() {
    let mut s: Storage2<Node> = Storage2::new();
    s.push_default();
    s.push_default();
    s.move_up(1);
    let before_names = names(&s);
    let before_all = all(&s);
    s.push_default();
    assert_eq!(s.len(), 3);
    s.remove_by_pos(2);
    assert_eq!(names(&s), before_names);
    assert_eq!(all(&s), before_all);
    // The freed identifier is handed out again.
    s.push_default();
    assert_eq!(names(&s)[2], (2, "id2".to_owned()));
}

#[test]
fn remap_ids_moves_entries_and_their_fields() {
    let mut s: Storage2<Node> = Storage2::new();
    s.push_default(); // 0, named "id0"
    let mut a = None;
    s.toggle_inline(&mut a); // 1, anonymous
    s.push_default(); // 2, named "id2"
    s.set(id(0), Arithmetic::Sum(Some(id(1)), None));
    s.set(id(1), Arithmetic::Mul(Some(id(2)), Some(id(0))));
    let mut map = std::collections::BTreeMap::new();
    map.insert(0, 5);
    map.insert(1, 3);
    let mut r = s.remap_ids(&map);
    assert_eq!(names(&r), vec![(5, "id0".to_owned()), (2, "id2".to_owned())]);
    assert_eq!(r.get_original(id(5)), Some(&Arithmetic::Sum(Some(id(3)), None)));
    assert_eq!(r.get_original(id(3)), Some(&Arithmetic::Mul(Some(id(2)), Some(id(5)))));
    assert_eq!(r.get_name(id(3)), Some(None));
    assert_eq!(r.get_name(id(0)), None);
    assert_eq!(all(&r), vec![2, 3, 5]);
    // The identifiers left free are handed out again, smallest first.
    r.push_default();
    assert_eq!(r.get_name(id(0)), Some(Some("id0")));
    r.push_default();
    assert_eq!(r.get_name(id(1)), Some(Some("id1")));
    r.push_default();
    assert_eq!(r.get_name(id(4)), Some(Some("id4")));
}
