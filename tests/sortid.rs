use std::cmp;
use taskboard::service::moved_sort_id;
use taskboard::sortid::SortId;

fn midpoint_sorts_correctly_impl(a: SortId, b: SortId) -> bool {
    let r = SortId::between(&a, &b);
    match a.cmp(&b) {
        cmp::Ordering::Equal => r == a && r == b,
        cmp::Ordering::Less => a < r && r < b,
        cmp::Ordering::Greater => b < r && r < a,
    }
}

#[test]
fn sortid_cmp() {
    for (a, b, r) in [
        (vec![], vec![], cmp::Ordering::Equal),
        (vec![0x00], vec![0x00], cmp::Ordering::Equal),
        (vec![0x7f], vec![0x7f], cmp::Ordering::Equal),
        (vec![0x80], vec![0x80], cmp::Ordering::Equal),
        (vec![0xff], vec![0xff], cmp::Ordering::Equal),
        (vec![0x00], vec![], cmp::Ordering::Less),
        (vec![0x7f], vec![], cmp::Ordering::Less),
        (vec![0x80], vec![], cmp::Ordering::Greater),
        (vec![0xff], vec![], cmp::Ordering::Greater),
        (vec![0x010, 0x00], vec![0x010], cmp::Ordering::Less),
        (vec![0x010, 0x7f], vec![0x010], cmp::Ordering::Less),
        (vec![0x010, 0x80], vec![0x010], cmp::Ordering::Greater),
        (vec![0x010, 0xff], vec![0x010], cmp::Ordering::Greater),
        (vec![0x00], vec![0x00, 122], cmp::Ordering::Greater),
        (vec![228, 1], vec![227, 128], cmp::Ordering::Greater),
    ] {
        assert_eq!(SortId::from(a).cmp(&SortId::from(b)), r);
    }
}

#[test]
fn midpoint_sorts_correctly_manual() {
    for (a, b) in [
        (vec![], vec![]),
        (vec![0x00], vec![0x00, 0x00]),
        (vec![0x00], vec![0x00, 0x00, 0x00]),
        (vec![0x80], vec![0x80]),
        (vec![0x00], vec![0x00]),
        (vec![0x00], vec![]),
        (vec![0x00], vec![0xff]),
        (vec![0x01, 0x0a], vec![0x02, 0xff]),
        (vec![0x01, 0x00], vec![0x02, 0x40]),
        (vec![0x01, 0xff], vec![0x02, 0x00]),
        (vec![0x01, 0xff, 0xff], vec![0x02, 0x00, 0x00]),
        (vec![0x01, 0xff], vec![0x02, 0x00, 0x00]),
        (vec![0x01, 0xff, 0xff], vec![0x02, 0x00]),
        (vec![0xff], vec![]),
        // found by the quickcheck in the past
        (vec![0x00], vec![0x00, 122]),
        (vec![228, 1], vec![227, 128]),
        (vec![0x00, 127], vec![0]),
        (vec![252, 128], vec![253, 128]),
        (vec![0, 128], vec![1, 0]),
    ] {
        assert!(
            midpoint_sorts_correctly_impl(SortId::from(a.clone()), SortId::from(b.clone()),),
            "{a:?}, {b:?}"
        );
    }
}

#[test]
fn cmp_raw_vectors() {
    assert_eq!(SortId::cmp_raw(&[], &[]), cmp::Ordering::Equal);
    assert_eq!(SortId::cmp_raw(&[0x7f], &[]), cmp::Ordering::Less);
    assert_eq!(SortId::cmp_raw(&[0x80], &[]), cmp::Ordering::Greater);
}

#[test]
fn between_distant_bytes_takes_their_mean() {
    let r = SortId::between(&SortId::from(vec![0x00]), &SortId::from(vec![0xff]));
    assert_eq!(r.as_bytes(), &[0x7f]);
    assert!(SortId::from(vec![0x00]) < r && r < SortId::from(vec![0xff]));
}

#[test]
fn between_adjacent_bytes_carries() {
    let a = SortId::from(vec![0x01, 0xff]);
    let b = SortId::from(vec![0x02, 0x00]);
    let r = SortId::between(&a, &b);
    assert_eq!(r.as_bytes(), &[0x01, 0xff, 0xa0]);
    assert!(a < r && r < b);
}

#[test]
fn between_is_symmetric_in_order() {
    let a = SortId::from(vec![0x10, 0x20]);
    let b = SortId::from(vec![0x10, 0x90, 0x01]);
    let r1 = SortId::between(&a, &b);
    let r2 = SortId::between(&b, &a);
    assert_eq!(r1, r2);
    assert!(a < r1 && r1 < b);
}

#[test]
fn between_equal_keys_is_that_key() {
    let a = SortId::from(vec![0x33, 0x44]);
    assert_eq!(SortId::between(&a, &a.clone()), a);
}

#[test]
fn in_front_and_at_the_end_of_nothing_are_empty() {
    assert_eq!(SortId::in_front(None).as_bytes(), &[] as &[u8]);
    assert_eq!(SortId::at_the_end(None).as_bytes(), &[] as &[u8]);
}

#[test]
fn in_front_halves_first_nonzero_byte() {
    let k = SortId::from(vec![0x01]);
    let r = SortId::in_front(Some(&k));
    assert_eq!(r.as_bytes(), &[0x00]);
    assert!(r < k);
    let zeros = SortId::from(vec![0x00, 0x00]);
    let r = SortId::in_front(Some(&zeros));
    assert_eq!(r.as_bytes(), &[0x00, 0x00, 0x40]);
    assert!(r < zeros);
    let empty = SortId::from(vec![]);
    let r = SortId::in_front(Some(&empty));
    assert_eq!(r.as_bytes(), &[0x40]);
    assert!(r < empty);
}

#[test]
fn at_the_end_lifts_first_byte_below_ff() {
    let k = SortId::from(vec![0xff, 0x10, 0x20]);
    let r = SortId::at_the_end(Some(&k));
    assert_eq!(r.as_bytes(), &[0xff, 0x88]);
    assert!(k < r);
    let ones = SortId::from(vec![0xff]);
    let r = SortId::at_the_end(Some(&ones));
    assert_eq!(r.as_bytes(), &[0xff, 0xa0]);
    assert!(ones < r);
    let empty = SortId::from(vec![]);
    let r = SortId::at_the_end(Some(&empty));
    assert_eq!(r.as_bytes(), &[0xa0]);
    assert!(empty < r);
}

#[test]
fn boundary_keys_for_many_inputs() {
    for k in [
        vec![],
        vec![0x00],
        vec![0x7f],
        vec![0x80],
        vec![0xff],
        vec![0x00, 0x00, 0x01],
        vec![0xff, 0xff, 0xfe],
        vec![0x12, 0x34, 0x56],
    ] {
        let k = SortId::from(k);
        assert!(SortId::in_front(Some(&k)) < k);
        assert!(SortId::at_the_end(Some(&k)) > k);
    }
}

#[test]
fn repeated_bisection_keeps_progressing() {
    let low = SortId::from(vec![0x10]);
    let mut high = SortId::from(vec![0x11]);
    for _ in 0..10_000 {
        let mid = SortId::between(&low, &high);
        assert!(low < mid && mid < high);
        assert_ne!(mid, low);
        assert_ne!(mid, high);
        high = mid;
    }
    let mut low = SortId::from(vec![0x10]);
    let high = SortId::from(vec![0x11]);
    for _ in 0..10_000 {
        let mid = SortId::between(&low, &high);
        assert!(low < mid && mid < high);
        low = mid;
    }
}

#[test]
fn moved_between_neighbours() {
    let prev = SortId::from(vec![0x10]);
    let next = SortId::from(vec![0x20]);
    let curr = SortId::from(vec![0x90]);
    let r = moved_sort_id(&curr, Some(&prev), Some(&next)).unwrap();
    assert_eq!(r.as_bytes(), &[0x18]);
    let r = moved_sort_id(&curr, Some(&prev), None).unwrap();
    assert_eq!(r.as_bytes(), &[0x88]);
    let r = moved_sort_id(&curr, None, Some(&next)).unwrap();
    assert_eq!(r.as_bytes(), &[0x10]);
    assert!(moved_sort_id(&curr, None, None).is_none());
}

#[test]
fn moved_to_its_own_key_writes_nothing() {
    let prev = SortId::from(vec![0x10]);
    let next = SortId::from(vec![0x20]);
    let curr = SortId::from(vec![0x18]);
    assert!(moved_sort_id(&curr, Some(&prev), Some(&next)).is_none());
}
