use lib::unique_id::{UniqueId, UniqueIds};

fn state(ids: &UniqueIds) -> (Vec<UniqueId>, usize) {
    (ids.available(), ids.max())
}

#[test]
fn unique_id_test() {
    let mut ids = UniqueIds::default();
    assert_eq!(ids.get_unique().0, 0);
    assert_eq!(ids.get_unique().0, 1);
    assert_eq!(ids.get_unique().0, 2);
    assert_eq!(ids.get_unique().0, 3);
    ids.remove_existing(UniqueId(2));
    assert_eq!(state(&ids), (vec![UniqueId(2)], 4));
    ids.remove_existing(UniqueId(3));
    assert_eq!(state(&ids), (vec![], 2));
    ids.remove_existing(UniqueId(1));
    assert_eq!(state(&ids), (vec![], 1));
    assert_eq!(ids.get_unique().0, 1);
    ids.remove_existing(UniqueId(0));
    assert_eq!(ids.get_unique().0, 0);
}

#[test]
fn get_unique_returns_smallest_free_id() {
    let mut ids = UniqueIds::new();
    for i in 0..6 {
        assert_eq!(ids.get_unique(), UniqueId(i));
    }
    ids.remove_existing(UniqueId(4));
    ids.remove_existing(UniqueId(1));
    assert_eq!(state(&ids), (vec![UniqueId(1), UniqueId(4)], 6));
    assert_eq!(ids.get_unique(), UniqueId(1));
    assert_eq!(ids.get_unique(), UniqueId(4));
    assert_eq!(ids.get_unique(), UniqueId(6));
}

#[test]
fn freeing_everything_resets_the_pool() {
    let mut ids = UniqueIds::new();
    let a = ids.get_unique();
    let b = ids.get_unique();
    let c = ids.get_unique();
    ids.remove_existing(b);
    ids.remove_existing(a);
    ids.remove_existing(c);
    assert_eq!(ids, UniqueIds::new());
}

#[test]
fn get_then_remove_restores_state() {
    let mut ids = UniqueIds::new();
    for _ in 0..5 {
        ids.get_unique();
    }
    ids.remove_existing(UniqueId(2));
    let before = state(&ids);
    let id = ids.get_unique();
    assert_eq!(id, UniqueId(2));
    ids.remove_existing(id);
    assert_eq!(state(&ids), before);
    let id = {
        let mut fresh = UniqueIds::new();
        fresh.get_unique();
        fresh.get_unique()
    };
    assert_eq!(id, UniqueId(1));
}
