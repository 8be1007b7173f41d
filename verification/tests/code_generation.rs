use lib::code_generation::{apply_template, ErrId, LineNumbersByKey, StringStorage};
use lib::common::{add_line_numbers, ShaderErrors, WhatChanged};
use lib::ids::{MaterialId, ObjectId, Wrapper};
use lib::unique_id::UniqueId;

#[test]
fn gui_test() {
    let mut s1 = StringStorage::default();
    s1.add_string("1\n2\n3\n");
    s1.add_identifier_string(ErrId(1), "\n4\n5\n");

    assert_eq!(s1.storage, "1\n2\n3\n\n4\n5\n".to_owned());
    assert_eq!(s1.current_line_no(), 7);
    assert_eq!(s1.line_numbers, LineNumbersByKey::from_entries(vec![(ErrId(1), 4..8)]));

    let mut s2 = StringStorage::default();
    s2.add_string("a\nb");
    s2.add_identifier_string(ErrId(2), "c\nd");

    assert_eq!(s2.storage, "a\nbc\nd".to_owned());
    assert_eq!(s2.current_line_no(), 3);
    assert_eq!(s2.line_numbers, LineNumbersByKey::from_entries(vec![(ErrId(2), 2..4)]));

    let storages = vec![("s1".to_owned(), s1), ("s2".to_owned(), s2)];

    let s = apply_template("abc\n//%s2//%\n\ne\nf\n//%s1//%\n9", storages);

    assert_eq!(s.storage, "abc\na\nbc\nd\n\ne\nf\n1\n2\n3\n\n4\n5\n\n9".to_owned());
    assert_eq!(s.current_line_no(), 15);
    assert_eq!(
        s.line_numbers,
        LineNumbersByKey::from_entries(vec![(ErrId(1), 11..15), (ErrId(2), 3..5)])
    );
    assert_eq!(s.line_numbers.entries(), vec![(ErrId(1), 11, 15), (ErrId(2), 3, 5)]);
}

#[test]
fn line_numbers_offset_moves_all_ranges() {
    let mut l = LineNumbersByKey::from_entries(vec![(ErrId(5), 1..3), (ErrId(2), 10..12)]);
    l.offset(4);
    assert_eq!(l.entries(), vec![(ErrId(2), 14, 16), (ErrId(5), 5, 7)]);
}

#[test]
fn line_numbers_get_identifier_finds_local_line() {
    let l = LineNumbersByKey::from_entries(vec![(ErrId(7), 4..8), (ErrId(3), 10..12)]);
    assert_eq!(l.get_identifier(4), Some((ErrId(7), 1)));
    assert_eq!(l.get_identifier(7), Some((ErrId(7), 4)));
    assert_eq!(l.get_identifier(8), None);
    assert_eq!(l.get_identifier(11), Some((ErrId(3), 2)));
    assert_eq!(l.get_identifier(0), None);
}

#[test]
fn line_numbers_overlap_picks_smallest_identifier() {
    let l = LineNumbersByKey::from_entries(vec![(ErrId(9), 1..10), (ErrId(4), 5..6)]);
    assert_eq!(l.get_identifier(5), Some((ErrId(4), 1)));
    assert_eq!(l.get_identifier(6), Some((ErrId(9), 6)));
}

#[test]
fn line_numbers_extend_adds_all() {
    let mut a = LineNumbersByKey::from_entries(vec![(ErrId(1), 1..2)]);
    let b = LineNumbersByKey::from_entries(vec![(ErrId(3), 3..4), (ErrId(0), 0..1)]);
    a.extend(b);
    assert_eq!(a.entries(), vec![(ErrId(0), 0, 1), (ErrId(1), 1, 2), (ErrId(3), 3, 4)]);
}

#[test]
fn add_string_storage_moves_ranges() {
    let mut a = StringStorage::new();
    a.add_string("x\ny\n");
    let mut b = StringStorage::new();
    b.add_identifier_string(ErrId(4), "p\nq");
    a.add_string_storage(b);
    assert_eq!(a.storage, "x\ny\np\nq");
    assert_eq!(a.current_line_no(), 4);
    assert_eq!(a.line_numbers.entries(), vec![(ErrId(4), 3, 5)]);
}

#[test]
fn apply_template_without_names_copies_text() {
    let s = apply_template("plain\ntext", vec![]);
    assert_eq!(s.storage, "plain\ntext");
    assert_eq!(s.current_line_no(), 2);
    assert_eq!(s.line_numbers.entries(), vec![]);
}

#[test]
fn add_line_numbers_numbers_each_line() {
    assert_eq!(add_line_numbers("a\nb\n"), "1|a\n2|b\n3|");
    assert_eq!(add_line_numbers(""), "1|");
    let many: String = (0..12).map(|_| "x\n").collect();
    let numbered = add_line_numbers(&many);
    assert!(numbered.starts_with("1|x\n2|x\n"));
    assert!(numbered.ends_with("\n12|x\n13|"));
}

#[test]
fn what_changed_combines() {
    let mut c = WhatChanged::from_uniform(true);
    assert_eq!(c, WhatChanged { uniform: true, shader: false });
    c |= WhatChanged::from_shader(true);
    assert_eq!(c, WhatChanged { uniform: true, shader: true });
    let mut d = WhatChanged::default();
    d |= WhatChanged::from_shader(false);
    assert_eq!(d, WhatChanged { uniform: false, shader: false });
}

#[test]
fn shader_errors_are_kept_per_kind_and_identifier() {
    let mut errors = ShaderErrors::default();
    assert_eq!(errors.get(ObjectId(UniqueId(3))), None);
    errors.push_t(ObjectId(UniqueId(3)), (2, "first".to_owned()));
    errors.push_t(ObjectId(UniqueId(3)), (5, "second".to_owned()));
    errors.push((MaterialId::kind(), UniqueId(3)), (1, "material".to_owned()));
    assert_eq!(
        errors.get(ObjectId(UniqueId(3))),
        Some(&[(2, "first".to_owned()), (5, "second".to_owned())][..])
    );
    // Same raw identifier, another kind: filed apart.
    assert_eq!(errors.get(MaterialId(UniqueId(3))), Some(&[(1, "material".to_owned())][..]));
    assert_eq!(errors.get(ObjectId(UniqueId(4))), None);
}
