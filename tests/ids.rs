use set_genome::{Id, IdGenerator};

#[test]
fn get_new_id() {
    let mut test_id_manager = IdGenerator::default();

    assert_eq!(test_id_manager.next_id(), Id(0));
    assert_eq!(test_id_manager.next_id(), Id(1));
    assert_eq!(test_id_manager.next_id(), Id(2));
}

#[test]
fn iter_cached_ids() {
    let mut test_id_manager = IdGenerator::default();

    let mut test_id_iter_0 = test_id_manager.cached_id_iter((Id(4), Id(2)));

    assert_eq!(test_id_iter_0.next(&mut test_id_manager), Some(Id(0)));
    assert_eq!(test_id_iter_0.next(&mut test_id_manager), Some(Id(1)));

    let mut test_id_iter_1 = test_id_manager.cached_id_iter((Id(4), Id(2)));

    assert_eq!(test_id_iter_1.next(&mut test_id_manager), Some(Id(0))); // cached entry
    assert_eq!(test_id_iter_1.next(&mut test_id_manager), Some(Id(1))); // cached entry
    assert_eq!(test_id_iter_1.next(&mut test_id_manager), Some(Id(2))); // new entry
}

#[test]
fn cached_ids_advance_the_counter() {
    let mut ids = IdGenerator::new();
    let mut iter = ids.cached_id_iter((Id(9), Id(9)));
    assert_eq!(iter.next(&mut ids), Some(Id(0)));
    assert_eq!(ids.next_id(), Id(1));
    let mut iter = ids.cached_id_iter((Id(9), Id(9)));
    assert_eq!(iter.next(&mut ids), Some(Id(0)));
    assert_eq!(iter.next(&mut ids), Some(Id(2)));
}

#[test]
fn cached_id_skips_to_index() {
    let mut ids = IdGenerator::new();
    assert_eq!(ids.cached_id((Id(1), Id(2)), 2), Id(2));
    assert_eq!(ids.cached_id((Id(1), Id(2)), 0), Id(0));
    assert_eq!(ids.cached_id((Id(3), Id(4)), 0), Id(3));
    assert_eq!(ids.room(), u64::MAX - 4);
}

#[test]
fn cached_id_avoiding_taken_ones() {
    let mut ids = IdGenerator::new();
    let taken = vec![Id(0), Id(1)];
    assert_eq!(ids.cached_id_avoiding((Id(7), Id(7)), &taken), Id(2));
    assert_eq!(ids.cached_id_avoiding((Id(7), Id(7)), &vec![]), Id(0));
}
