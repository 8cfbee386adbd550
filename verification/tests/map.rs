use exclusions::band::{Above, Band, Fitting, Holding};
use exclusions::exclusions::Size;
use exclusions::map::{BeforeTheStart, Bearing, ByKey, Comparator, PastTheEnd, SplayMap};
use exclusions::node::Node;
use exclusions::units::MAX_AU;

fn sample() -> SplayMap<u8> {
    let mut map: SplayMap<u8> = SplayMap::new();
    for (key, value) in [(50, 5), (10, 1), (40, 4), (20, 2), (30, 3)] {
        assert_eq!(map.insert(key, value), None);
    }
    map
}

#[test]
fn insert_keeps_keys_in_order() {
    let mut map: SplayMap<u8> = SplayMap::new();
    assert!(map.is_empty());
    assert_eq!(map.insert(5, 1), None);
    assert_eq!(map.insert(3, 2), None);
    assert_eq!(map.insert(9, 3), None);
    assert!(!map.is_empty());
    assert_eq!(map.to_vec(), vec![(3, 2), (5, 1), (9, 3)]);
}

#[test]
fn insert_overwrites_and_returns_the_prior_value() {
    let mut map = sample();
    assert_eq!(map.insert(30, 33), Some(3));
    assert_eq!(map.to_vec(), vec![(10, 1), (20, 2), (30, 33), (40, 4), (50, 5)]);
}

#[test]
fn get_finds_exactly_the_key() {
    let map = sample();
    assert_eq!(map.get(40), Some(&4));
    assert_eq!(map.get(41), None);
    assert_eq!(map.get(-1), None);
    let empty: SplayMap<u8> = SplayMap::new();
    assert_eq!(empty.get(0), None);
}

#[test]
fn remove_returns_the_value_and_closes_the_gap() {
    let mut map = sample();
    assert_eq!(map.remove(30), Some(3));
    assert_eq!(map.remove(30), None);
    assert_eq!(map.remove(10), Some(1));
    assert_eq!(map.remove(50), Some(5));
    assert_eq!(map.to_vec(), vec![(20, 2), (40, 4)]);
    assert_eq!(map.remove(20), Some(2));
    assert_eq!(map.remove(40), Some(4));
    assert!(map.is_empty());
    assert_eq!(map.remove(40), None);
}

#[test]
fn search_returns_the_entry_called_equal() {
    let mut map = sample();
    assert_eq!(map.get_with(&ByKey { key: 20 }), Some(&(20, 2)));
    assert_eq!(map.get_with(&ByKey { key: 25 }), None);
    assert_eq!(map.get_with(&PastTheEnd), None);
    assert_eq!(map.get_with(&BeforeTheStart), None);
    assert_eq!(map.to_vec(), vec![(10, 1), (20, 2), (30, 3), (40, 4), (50, 5)]);
}

#[test]
fn lower_bound_is_the_first_entry_not_before_the_target() {
    let mut map = sample();
    assert_eq!(map.lower_bound_with(&ByKey { key: 20 }), Some(&(20, 2)));
    assert_eq!(map.lower_bound_with(&ByKey { key: 21 }), Some(&(30, 3)));
    assert_eq!(map.lower_bound_with(&ByKey { key: 5 }), Some(&(10, 1)));
    assert_eq!(map.lower_bound_with(&ByKey { key: 50 }), Some(&(50, 5)));
    assert_eq!(map.lower_bound_with(&ByKey { key: 51 }), None);
    assert_eq!(map.lower_bound_with(&BeforeTheStart), Some(&(10, 1)));
    assert_eq!(map.lower_bound_with(&PastTheEnd), None);
    let mut empty: SplayMap<u8> = SplayMap::new();
    assert_eq!(empty.lower_bound_with(&ByKey { key: 1 }), None);
    assert_eq!(map.to_vec(), vec![(10, 1), (20, 2), (30, 3), (40, 4), (50, 5)]);
}

#[test]
fn mutable_search_writes_through() {
    let mut map = sample();
    match map.get_with_mut(&ByKey { key: 40 }) {
        Some((key, value)) => {
            assert_eq!(key, 40);
            *value = 44;
        }
        None => panic!("40 is a key"),
    }
    assert!(map.get_with_mut(&ByKey { key: 45 }).is_none());
    match map.lower_bound_with_mut(&ByKey { key: 45 }) {
        Some((key, value)) => {
            assert_eq!(key, 50);
            *value = 55;
        }
        None => panic!("50 follows 45"),
    }
    assert!(map.lower_bound_with_mut(&ByKey { key: 60 }).is_none());
    assert_eq!(map.to_vec(), vec![(10, 1), (20, 2), (30, 3), (40, 44), (50, 55)]);
}

#[test]
fn clone_is_a_tree_of_its_own() {
    let map = sample();
    let mut copy = map.clone();
    copy.insert(35, 9);
    copy.remove(10);
    assert_eq!(map.to_vec(), vec![(10, 1), (20, 2), (30, 3), (40, 4), (50, 5)]);
    assert_eq!(copy.to_vec(), vec![(20, 2), (30, 3), (35, 9), (40, 4), (50, 5)]);
}

#[test]
fn many_keys_in_and_out() {
    let mut map: SplayMap<i32> = SplayMap::new();
    let mut expected: Vec<(i32, i32)> = Vec::new();
    for round in 0..500 {
        let key: i32 = (round * 37 + 11) % 1009;
        assert_eq!(map.insert(key, round), None);
        expected.push((key, round));
    }
    expected.sort();
    assert_eq!(map.to_vec(), expected);
    for (index, (key, value)) in expected.iter().enumerate() {
        if index % 3 == 0 {
            assert_eq!(map.remove(*key), Some(*value));
        }
    }
    let rest: Vec<(i32, i32)> = expected
        .iter()
        .enumerate()
        .filter(|(index, _)| index % 3 != 0)
        .map(|(_, entry)| *entry)
        .collect();
    assert_eq!(map.to_vec(), rest);
    for (key, value) in rest {
        assert_eq!(map.get(key), Some(&value));
    }
}

#[test]
fn node_hands_out_its_children() {
    let low = Node::new(1, 'a', None, None);
    let high = Node::new(3, 'c', None, None);
    let mut node = Node::new(2, 'b', Some(low), Some(high));
    assert_eq!(node.key_value, (2, 'b'));
    let left = node.pop_left();
    assert_eq!(left.map(|child| child.key_value), Some((1, 'a')));
    assert!(node.left.is_none());
    assert!(node.pop_left().is_none());
    let right = node.take_right();
    assert_eq!(right.key_value, (3, 'c'));
    assert!(node.right.is_none());
    assert!(node.pop_right().is_none());
    node.left = Some(right);
    let back = node.take_left();
    assert_eq!(back.key_value, (3, 'c'));
    node.right = Some(back);
    let copy = node.clone();
    assert_eq!(copy.key_value, (2, 'b'));
    assert_eq!(copy.right.map(|child| child.key_value), Some((3, 'c')));
    assert_eq!(node.pop_right().map(|child| child.key_value), Some((3, 'c')));
}

#[test]
fn band_accessors() {
    let mut band = Band::new(-30, -10, 20);
    assert_eq!(band, Band { left: -30, right: -10, length: 20 });
    assert_eq!(band.available_size(100), 60);
    assert_eq!(band.get(exclusions::exclusions::Side::Left), -30);
    assert_eq!(band.get(exclusions::exclusions::Side::Right), -10);
    band.set(exclusions::exclusions::Side::Left, -5);
    band.set(exclusions::exclusions::Side::Right, -6);
    assert_eq!(band, Band { left: -5, right: -6, length: 20 });
    let deep = Band::new(-MAX_AU, -MAX_AU, 1);
    assert_eq!(deep.available_size(0), -MAX_AU);
    assert_eq!(deep.available_size(MAX_AU), -MAX_AU);
    assert_eq!(Band::new(0, 0, 1).available_size(MAX_AU), MAX_AU);
}

#[test]
fn band_comparators() {
    let band = Band::new(-30, -10, 20);
    let last = Band::new(0, 0, MAX_AU - 40);
    let fitting = |inline: i32| Fitting { size: Size::new(inline, 5), inline_size: 100 };
    assert_eq!(fitting(60).compare(0, &band), Bearing::Less);
    assert_eq!(fitting(61).compare(0, &band), Bearing::Greater);
    assert_eq!(fitting(100).compare(40, &last), Bearing::Less);
    assert_eq!(fitting(101).compare(40, &last), Bearing::Equal);
    assert_eq!(
        exclusions::band::compare_inline_size(40, &last, &Size::new(101, 5), 100),
        Bearing::Equal
    );
    assert_eq!(Holding { position: 9 }.compare(10, &band), Bearing::Less);
    assert_eq!(Holding { position: 10 }.compare(10, &band), Bearing::Equal);
    assert_eq!(Holding { position: 29 }.compare(10, &band), Bearing::Equal);
    assert_eq!(Holding { position: 30 }.compare(10, &band), Bearing::Greater);
    assert_eq!(Above { position: 10 }.compare(10, &band), Bearing::Less);
    assert_eq!(Above { position: 11 }.compare(10, &band), Bearing::Equal);
    assert_eq!(Above { position: 30 }.compare(10, &band), Bearing::Equal);
    assert_eq!(Above { position: 31 }.compare(10, &band), Bearing::Greater);
}
