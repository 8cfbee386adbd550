use exclusions::arrange::{place_all, place_next, ExcludedArea, Exclusion};
use exclusions::band::Band;
use exclusions::exclusions::{Exclusions, Placement, Point, Side, Size};
use exclusions::units::MAX_AU;

fn left(inline: i32, block: i32) -> Exclusion {
    Exclusion { side: Side::Left, size: Size::new(inline, block) }
}

fn right(inline: i32, block: i32) -> Exclusion {
    Exclusion { side: Side::Right, size: Size::new(inline, block) }
}

fn origins(areas: &[ExcludedArea]) -> Vec<(i32, i32)> {
    areas.iter().map(|area| (area.origin.inline, area.origin.block)).collect()
}

fn band(start: i32, left: i32, right: i32, length: i32) -> (i32, Band) {
    (start, Band { left, right, length })
}

/// Runs the objects through one zone and returns the zone with the origins.
fn run(inline_size: i32, list: &[Exclusion]) -> (Exclusions, Vec<(i32, i32)>) {
    let mut zone = Exclusions::new(inline_size);
    let mut found = Vec::new();
    for exclusion in list {
        let area = place_next(&mut zone, exclusion);
        found.push((area.origin.inline, area.origin.block));
    }
    (zone, found)
}

#[test]
fn empty_zone_is_one_band() {
    assert!(place_all(100, vec![]).is_empty());
    let zone = Exclusions::new(100);
    assert_eq!(zone.inline_size(), 100);
    assert_eq!(zone.bands(), vec![band(0, 0, 0, MAX_AU)]);
}

#[test]
fn single_left() {
    let areas = place_all(100, vec![left(30, 20)]);
    assert_eq!(origins(&areas), vec![(0, 0)]);
    let (zone, found) = run(100, &[left(30, 20)]);
    assert_eq!(found, vec![(0, 0)]);
    assert_eq!(zone.bands(), vec![band(0, -30, 0, 20), band(20, 0, 0, MAX_AU - 20)]);
}

#[test]
fn two_left_stack_horizontally() {
    let areas = place_all(100, vec![left(30, 20), left(40, 20)]);
    assert_eq!(origins(&areas), vec![(0, 0), (30, 0)]);
    let (zone, _) = run(100, &[left(30, 20), left(40, 20)]);
    assert_eq!(zone.bands(), vec![band(0, -70, 0, 20), band(20, 0, 0, MAX_AU - 20)]);
}

#[test]
fn two_left_second_too_wide_stacks_vertically() {
    let areas = place_all(100, vec![left(60, 20), left(60, 20)]);
    assert_eq!(origins(&areas), vec![(0, 0), (0, 20)]);
    let (zone, _) = run(100, &[left(60, 20), left(60, 20)]);
    assert_eq!(zone.bands(), vec![band(0, -60, 0, 40), band(40, 0, 0, MAX_AU - 40)]);
}

#[test]
fn left_and_right_share_row() {
    let areas = place_all(100, vec![left(30, 20), right(40, 20)]);
    assert_eq!(origins(&areas), vec![(0, 0), (60, 0)]);
    let (zone, _) = run(100, &[left(30, 20), right(40, 20)]);
    assert_eq!(zone.bands(), vec![band(0, -30, -40, 20), band(20, 0, 0, MAX_AU - 20)]);
}

#[test]
fn right_objects_half_the_zone_wide_share_a_row() {
    // The second object is as wide as the room beside the first, so it fits there.
    let list = vec![right(50, 10), right(50, 10), right(50, 10)];
    let areas = place_all(100, list.clone());
    assert_eq!(origins(&areas), vec![(50, 0), (0, 0), (50, 10)]);
    let (zone, _) = run(100, &list);
    assert_eq!(
        zone.bands(),
        vec![band(0, 0, -100, 10), band(10, 0, -50, 10), band(20, 0, 0, MAX_AU - 20)]
    );
}

#[test]
fn right_objects_too_wide_to_share_a_row_merge_into_one_band() {
    let list = vec![right(60, 10), right(60, 10), right(60, 10)];
    let areas = place_all(100, list.clone());
    assert_eq!(origins(&areas), vec![(40, 0), (40, 10), (40, 20)]);
    let (zone, _) = run(100, &list);
    assert_eq!(zone.bands(), vec![band(0, 0, -60, 30), band(30, 0, 0, MAX_AU - 30)]);
}

#[test]
fn place_reports_the_room_of_the_band() {
    let mut zone = Exclusions::new(100);
    zone.exclude(Side::Left, &Size::new(30, 20));
    zone.exclude(Side::Right, &Size::new(10, 50));
    assert_eq!(
        zone.bands(),
        vec![band(0, -30, -10, 20), band(20, 0, -10, 30), band(50, 0, 0, MAX_AU - 50)]
    );
    assert_eq!(
        zone.place(Side::Left, &Size::new(60, 5)),
        Placement { origin: Point::new(30, 0), available_inline_size: 60 }
    );
    assert_eq!(
        zone.place(Side::Right, &Size::new(60, 5)),
        Placement { origin: Point::new(30, 0), available_inline_size: 60 }
    );
    assert_eq!(
        zone.place(Side::Left, &Size::new(61, 5)),
        Placement { origin: Point::new(0, 20), available_inline_size: 90 }
    );
    assert_eq!(
        zone.place(Side::Right, &Size::new(95, 5)),
        Placement { origin: Point::new(5, 50), available_inline_size: 100 }
    );
    // Placing changes no band.
    assert_eq!(
        zone.bands(),
        vec![band(0, -30, -10, 20), band(20, 0, -10, 30), band(50, 0, 0, MAX_AU - 50)]
    );
}

#[test]
fn what_fits_nowhere_goes_into_the_last_band() {
    let mut zone = Exclusions::new(100);
    zone.exclude(Side::Left, &Size::new(30, 20));
    assert_eq!(
        zone.place(Side::Left, &Size::new(150, 5)),
        Placement { origin: Point::new(0, 20), available_inline_size: 100 }
    );
    assert_eq!(
        zone.place(Side::Right, &Size::new(150, 5)),
        Placement { origin: Point::new(-50, 20), available_inline_size: 100 }
    );
}

#[test]
fn exclusions_wider_than_the_zone_leave_negative_room() {
    let mut zone = Exclusions::new(100);
    zone.exclude(Side::Left, &Size::new(80, 10));
    zone.exclude(Side::Right, &Size::new(70, 10));
    assert_eq!(zone.bands(), vec![band(0, -80, -70, 10), band(10, 0, 0, MAX_AU - 10)]);
    assert_eq!(
        zone.place(Side::Left, &Size::new(-60, 5)),
        Placement { origin: Point::new(80, 0), available_inline_size: -50 }
    );
}

#[test]
fn sums_stay_within_app_units() {
    let mut zone = Exclusions::new(0);
    zone.exclude(Side::Left, &Size::new(MAX_AU, 10));
    zone.exclude(Side::Right, &Size::new(MAX_AU, 10));
    // 0 - MAX_AU - MAX_AU is below what app units represent.
    let placement = zone.place(Side::Right, &Size::new(-MAX_AU, 5));
    assert_eq!(placement.available_inline_size, -MAX_AU);
    assert_eq!(placement.origin, Point::new(0, 0));
    let placement = zone.place(Side::Right, &Size::new(MAX_AU, 5));
    assert_eq!(placement.origin, Point::new(-MAX_AU, 10));
}

#[test]
fn excluding_nothing_changes_nothing() {
    let mut zone = Exclusions::new(100);
    zone.exclude(Side::Left, &Size::new(30, 20));
    let bands = zone.bands();
    zone.exclude(Side::Left, &Size::new(0, 40));
    assert_eq!(zone.bands(), bands);
    zone.exclude(Side::Right, &Size::new(40, 0));
    assert_eq!(zone.bands(), bands);
}

#[test]
fn exclusion_at_a_band_start_cuts_nothing() {
    let mut zone = Exclusions::new(100);
    zone.exclude(Side::Left, &Size::new(30, 20));
    zone.exclude(Side::Right, &Size::new(10, 20));
    assert_eq!(zone.bands(), vec![band(0, -30, -10, 20), band(20, 0, 0, MAX_AU - 20)]);
}

#[test]
fn narrower_exclusion_stops_at_a_deeper_band() {
    let mut zone = Exclusions::new(100);
    zone.exclude(Side::Left, &Size::new(50, 10));
    zone.exclude(Side::Left, &Size::new(20, 30));
    assert_eq!(
        zone.bands(),
        vec![band(0, -50, 0, 10), band(10, -20, 0, 20), band(30, 0, 0, MAX_AU - 30)]
    );
    // Inside the deeper band the cut stays, with the same insets on both sides.
    zone.exclude(Side::Left, &Size::new(20, 5));
    assert_eq!(
        zone.bands(),
        vec![
            band(0, -50, 0, 5),
            band(5, -50, 0, 5),
            band(10, -20, 0, 20),
            band(30, 0, 0, MAX_AU - 30)
        ]
    );
}

#[test]
fn wider_exclusion_merges_the_bands_it_levels() {
    let mut zone = Exclusions::new(100);
    zone.exclude(Side::Left, &Size::new(10, 10));
    zone.exclude(Side::Left, &Size::new(5, 20));
    zone.exclude(Side::Right, &Size::new(7, 15));
    assert_eq!(
        zone.bands(),
        vec![
            band(0, -10, -7, 10),
            band(10, -5, -7, 5),
            band(15, -5, 0, 5),
            band(20, 0, 0, MAX_AU - 20)
        ]
    );
    zone.exclude(Side::Left, &Size::new(40, 18));
    assert_eq!(
        zone.bands(),
        vec![
            band(0, -40, -7, 15),
            band(15, -40, 0, 3),
            band(18, -5, 0, 2),
            band(20, 0, 0, MAX_AU - 20)
        ]
    );
}

#[test]
fn object_without_inline_size_extends_the_inset_below_it() {
    let list = vec![left(30, 20), left(0, 100), left(80, 5)];
    let areas = place_all(100, list.clone());
    assert_eq!(origins(&areas), vec![(0, 0), (30, 0), (0, 100)]);
    let (zone, _) = run(100, &list[..2]);
    assert_eq!(zone.bands(), vec![band(0, -30, 0, 100), band(100, 0, 0, MAX_AU - 100)]);
}

#[test]
fn object_without_inline_size_can_leave_two_bands_alike() {
    let (zone, found) = run(100, &[left(30, 20), left(0, 10)]);
    assert_eq!(found, vec![(0, 0), (30, 0)]);
    assert_eq!(
        zone.bands(),
        vec![band(0, -30, 0, 10), band(10, -30, 0, 10), band(20, 0, 0, MAX_AU - 20)]
    );
}

#[test]
fn objects_are_made_to_fit_the_zone() {
    let areas = place_all(100, vec![left(250, 10), right(250, 10)]);
    assert_eq!(areas[0].exclusion, left(100, 10));
    assert_eq!(areas[1].exclusion, right(100, 10));
    assert_eq!(origins(&areas), vec![(0, 0), (0, 10)]);
}

#[test]
fn areas_overlap_when_each_starts_before_the_other_ends() {
    let a = ExcludedArea::new(&left(30, 20), &Point::new(0, 0));
    let b = ExcludedArea::new(&left(30, 20), &Point::new(29, 19));
    let c = ExcludedArea::new(&left(30, 20), &Point::new(30, 0));
    let d = ExcludedArea::new(&left(30, 20), &Point::new(0, 20));
    assert!(a.intersects(&b));
    assert!(b.intersects(&a));
    assert!(!a.intersects(&c));
    assert!(!c.intersects(&a));
    assert!(!a.intersects(&d));
    assert!(!d.intersects(&a));
}

#[test]
fn a_cloned_zone_goes_its_own_way() {
    let mut zone = Exclusions::new(100);
    zone.exclude(Side::Left, &Size::new(30, 20));
    let mut copy = zone.clone();
    copy.exclude(Side::Right, &Size::new(10, 5));
    assert_eq!(zone.bands(), vec![band(0, -30, 0, 20), band(20, 0, 0, MAX_AU - 20)]);
    assert_eq!(
        copy.bands(),
        vec![band(0, -30, -10, 5), band(5, -30, 0, 15), band(20, 0, 0, MAX_AU - 20)]
    );
}

#[test]
fn max_au_is_the_largest_length_of_app_units() {
    assert_eq!(MAX_AU, app_units::MAX_AU.0);
    assert_eq!(-MAX_AU, app_units::MIN_AU.0);
}

#[test]
fn an_object_may_end_right_above_the_bottom_of_the_zone() {
    let mut zone = Exclusions::new(100);
    let area = place_next(&mut zone, &left(30, MAX_AU - 1));
    assert_eq!((area.origin.inline, area.origin.block), (0, 0));
    assert_eq!(zone.bands(), vec![band(0, -30, 0, MAX_AU - 1), band(MAX_AU - 1, 0, 0, 1)]);
    let placement = zone.place(Side::Left, &Size::new(80, 1));
    assert_eq!(placement.origin, Point::new(0, MAX_AU - 1));
}

#[test]
fn objects_side_by_side_need_not_add_up_below_the_bottom() {
    let tall = MAX_AU / 2 + 1;
    let areas = place_all(100, vec![left(30, tall), right(30, tall), left(30, tall)]);
    assert_eq!(origins(&areas), vec![(0, 0), (70, 0), (30, 0)]);
}
