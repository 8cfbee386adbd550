use exclusions::arrange::{place_all, place_next, ExcludedArea, Exclusion};
use exclusions::band::Band;
use exclusions::exclusions::{Exclusions, Side, Size};
use exclusions::units::MAX_AU;
use quickcheck::{Arbitrary, Gen, QuickCheck};

/// The inline size of a zone.
#[derive(Clone, Copy, Debug)]
struct InlineSize(i32);

impl Arbitrary for InlineSize {
    fn arbitrary(gen: &mut Gen) -> InlineSize {
        InlineSize((i32::arbitrary(gen) % 200).abs())
    }
}

/// An object of modest size, so that many of them fit above `MAX_AU`.
#[derive(Clone, Copy, Debug)]
struct Object(Exclusion);

impl Arbitrary for Object {
    fn arbitrary(gen: &mut Gen) -> Object {
        Object(Exclusion {
            side: if bool::arbitrary(gen) { Side::Left } else { Side::Right },
            size: Size {
                inline: (i32::arbitrary(gen) % 250).abs(),
                block: (i32::arbitrary(gen) % 100).abs(),
            },
        })
    }
}

fn arrange(inline_size: InlineSize, objects: &[Object]) -> Vec<ExcludedArea> {
    place_all(inline_size.0, objects.iter().map(|object| object.0).collect())
}

fn check(property: fn(InlineSize, Vec<Object>) -> bool) {
    QuickCheck::new()
        .rng(Gen::from_size_and_seed(60, 0x5eed))
        .tests(300)
        .quickcheck(property);
}

fn no_overflow(inline_size: InlineSize, objects: Vec<Object>) -> bool {
    arrange(inline_size, &objects).iter().all(|area| {
        area.origin.block >= 0
            && area.origin.inline >= 0
            && area.origin.inline + area.exclusion.size.inline <= inline_size.0
    })
}

fn no_overlap(inline_size: InlineSize, objects: Vec<Object>) -> bool {
    let areas = arrange(inline_size, &objects);
    areas
        .iter()
        .enumerate()
        .all(|(i, a)| areas[i + 1..].iter().all(|b| !a.intersects(b) && !b.intersects(a)))
}

fn vertical_packing(inline_size: InlineSize, objects: Vec<Object>) -> bool {
    let areas = arrange(inline_size, &objects);
    areas.iter().enumerate().all(|(i, a)| {
        a.origin.block == 0
            || areas[..i]
                .iter()
                .any(|b| a.origin.block == b.origin.block + b.exclusion.size.block)
    })
}

fn left_float_rules(inline_size: InlineSize, objects: Vec<Object>) -> bool {
    let areas = arrange(inline_size, &objects);
    areas.iter().enumerate().all(|(i, a)| {
        a.exclusion.side != Side::Left
            || areas[i + 1..].iter().all(|b| {
                b.exclusion.side != Side::Left
                    || b.origin.inline >= a.origin.inline + a.exclusion.size.inline
                    || b.origin.block >= a.origin.block + a.exclusion.size.block
            })
    })
}

fn right_float_rules(inline_size: InlineSize, objects: Vec<Object>) -> bool {
    let areas = arrange(inline_size, &objects);
    areas.iter().enumerate().all(|(i, a)| {
        a.exclusion.side != Side::Right
            || areas[i + 1..].iter().all(|b| {
                b.exclusion.side != Side::Right
                    || b.origin.inline + b.exclusion.size.inline <= a.origin.inline
                    || b.origin.block >= a.origin.block + a.exclusion.size.block
            })
    })
}

/// The bands tile the block axis, step down and end clear; with `merged`, no
/// band looks like the one below it either.
fn is_outline(bands: &[(i32, Band)], merged: bool) -> bool {
    let last = bands.len() - 1;
    bands[0].0 == 0
        && bands[last].0 + bands[last].1.length == MAX_AU
        && bands[last].1.left == 0
        && bands[last].1.right == 0
        && bands.iter().all(|(_, band)| band.length > 0 && band.left <= 0 && band.right <= 0)
        && bands.windows(2).all(|pair| {
            let ((start, band), (next_start, next)) = (pair[0], pair[1]);
            start + band.length == next_start
                && band.left <= next.left
                && band.right <= next.right
                && (!merged || band.left != next.left || band.right != next.right)
        })
}

fn bands_stay_an_outline(inline_size: InlineSize, objects: Vec<Object>) -> bool {
    let mut zone = Exclusions::new(inline_size.0);
    let mut merged = true;
    for object in objects {
        let area = place_next(&mut zone, &object.0);
        // An object without inline size but with block size may cut a band in two.
        merged = merged && (area.exclusion.size.inline > 0 || area.exclusion.size.block == 0);
        if !is_outline(&zone.bands(), merged) {
            return false;
        }
    }
    true
}

fn any_exclusion_leaves_an_outline(inline_size: InlineSize, objects: Vec<Object>) -> bool {
    let mut zone = Exclusions::new(inline_size.0);
    for object in objects {
        zone.exclude(object.0.side, &object.0.size);
        let before = zone.bands();
        let placement = zone.place(object.0.side, &object.0.size);
        if zone.bands() != before || !is_outline(&before, false) {
            return false;
        }
        let first_fit = before
            .iter()
            .find(|(start, band)| {
                object.0.size.inline <= band.available_size(inline_size.0)
                    || start + band.length == MAX_AU
            })
            .unwrap();
        if placement.origin.block != first_fit.0 {
            return false;
        }
    }
    true
}

#[test]
fn check_overflow() {
    check(no_overflow);
}

#[test]
fn check_overlap() {
    check(no_overlap);
}

#[test]
fn check_vertical_packing() {
    check(vertical_packing);
}

#[test]
fn check_left_float_rules() {
    check(left_float_rules);
}

#[test]
fn check_right_float_rules() {
    check(right_float_rules);
}

#[test]
fn check_band_invariants() {
    check(bands_stay_an_outline);
}

#[test]
fn check_exclusions_of_any_size() {
    check(any_exclusion_leaves_an_outline);
}

/// The zone, row by row: what is excluded at the left and at the right of each row.
struct Rows {
    left: Vec<i32>,
    right: Vec<i32>,
    /// The first row from which on nothing is excluded.
    clear_from: usize,
}

impl Rows {
    fn new(count: usize) -> Rows {
        Rows { left: vec![0; count], right: vec![0; count], clear_from: 0 }
    }

    fn exclude(&mut self, side: Side, size: &Size) {
        if size.inline == 0 || size.block == 0 {
            return;
        }
        let rows = match side {
            Side::Left => &mut self.left,
            Side::Right => &mut self.right,
        };
        for row in rows.iter_mut().take(size.block as usize) {
            *row = (*row).max(size.inline);
        }
        self.clear_from = self.clear_from.max(size.block as usize);
    }

    /// The first row with room for the width, or the first clear row where no row has room.
    fn place(&self, inline_size: i32, width: i32) -> usize {
        (0..self.left.len())
            .find(|&row| width <= inline_size - self.left[row] - self.right[row])
            .unwrap_or(self.clear_from)
    }
}

fn zone_matches_rows(inline_size: InlineSize, objects: Vec<Object>) -> bool {
    let mut zone = Exclusions::new(inline_size.0);
    let mut rows = Rows::new(101);
    for object in objects {
        zone.exclude(object.0.side, &object.0.size);
        rows.exclude(object.0.side, &object.0.size);
        for (start, band) in zone.bands() {
            let end = (start + band.length).min(101);
            for row in start..end {
                if -band.left != rows.left[row as usize] || -band.right != rows.right[row as usize]
                {
                    return false;
                }
            }
        }
        let width = object.0.size.inline / 2 + 1;
        let row = rows.place(inline_size.0, width);
        let placement = zone.place(object.0.side, &Size::new(width, 1));
        let expected = match object.0.side {
            Side::Left => rows.left[row],
            Side::Right => inline_size.0 - rows.right[row] - width,
        };
        if placement.origin.block != row as i32
            || placement.origin.inline != expected
            || placement.available_inline_size
                != inline_size.0 - rows.left[row] - rows.right[row]
        {
            return false;
        }
    }
    true
}

#[test]
fn check_zone_against_rows() {
    check(zone_matches_rows);
}
