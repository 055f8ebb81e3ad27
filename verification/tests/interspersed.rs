use ualfmt::AroundsItem;
use ualfmt::Interspersed;

#[test]
fn betweens() {
    let mut container = Interspersed::<i32, i32>::from_rest_and_last(vec![(1, 2), (3, 4)], 5);
    assert_eq!(container.betweens_mut(), vec![(1, 2, 3), (3, 4, 5)]);
}

#[test]
fn betweens_single() {
    let mut container = Interspersed::<i32, i32>::from_rest_and_last(Vec::new(), 1);
    assert_eq!(container.betweens_mut(), vec![]);
}

#[test]
fn arounds() {
    let mut container = Interspersed::<i32, i32>::from_rest_and_last(vec![(1, 2), (3, 4)], 5);
    assert_eq!(
        container.arounds_mut(),
        vec![
            AroundsItem::First(1, 2),
            AroundsItem::Inner(2, 3, 4),
            AroundsItem::Last(4, 5)
        ]
    );
}

#[test]
fn arounds_single() {
    let mut container = Interspersed::<i32, i32>::from_rest_and_last(Vec::new(), 1);
    assert_eq!(container.arounds_mut(), vec![AroundsItem::Single(1)]);
}

#[test]
fn into_tuple_forms() {
    assert_eq!(AroundsItem::<i32, i32>::First(1, 2).into_tuple(), (None, 1, Some(2)));
    assert_eq!(AroundsItem::<i32, i32>::Inner(2, 3, 4).into_tuple(), (Some(2), 3, Some(4)));
    assert_eq!(AroundsItem::<i32, i32>::Last(4, 5).into_tuple(), (Some(4), 5, None));
    assert_eq!(AroundsItem::<i32, i32>::Single(1).into_tuple(), (None, 1, None));
}

#[test]
fn mutation_through_setters() {
    let mut container = Interspersed::<i32, i32>::from_rest_and_last(vec![(1, 2), (3, 4)], 5);
    container.set_between(1, 40);
    container.set_around(2, 50);
    assert_eq!(container.betweens_mut(), vec![(1, 2, 3), (3, 40, 50)]);
}

#[test]
fn iter_all_alternates() {
    let container = Interspersed::<i32, i32>::from_rest_and_last(vec![(1, 2)], 3);
    let items = container.iter_all();
    assert_eq!(items.len(), 3);
    assert!(matches!(items[0], ualfmt::AroundOrBetween::Around(1)));
    assert!(matches!(items[1], ualfmt::AroundOrBetween::Between(2)));
    assert!(matches!(items[2], ualfmt::AroundOrBetween::Around(3)));
}
