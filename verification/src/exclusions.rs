//! The zone that tracks exclusions and places objects beside them, after the
//! float rules of CSS 2.1 § 9.5.1.

use vstd::prelude::*;
use crate::band::Band;
use crate::band::meets_next;
use crate::band::well_shaped;
use crate::band::band_at;
use crate::band::cut;
use crate::band::cut_index;
use crate::band::excluded;
use crate::band::has_start;
use crate::band::reached;
use crate::band::tiling;
use crate::band::Above;
use crate::band::lemma_above_partitions;
use crate::band::holds;
use crate::band::Fitting;
use crate::band::Holding;
use crate::band::lemma_covered;
use crate::band::lemma_cut;
use crate::band::lemma_holding_partitions;
use crate::band::lemma_fitting_partitions;
use crate::band::lemma_tiling_bounds;
use crate::band::lemma_room_grows;
use crate::band::merged;
use crate::band::outline;
use crate::map::Bearing;
use crate::map::Comparator;
use crate::map::SplayMap;
use crate::map::is_hit;
use crate::map::is_lower_bound;
use crate::walk::lemma_above_hit;
use crate::walk::lemma_above_miss;
use crate::walk::lemma_cut_tidy;
use crate::walk::lemma_done_insets;
use crate::walk::lemma_done_merged;
use crate::walk::lemma_done_starts;
use crate::walk::lemma_done_stepped;
use crate::walk::lemma_edge_differs;
use crate::walk::lemma_walk_merge;
use crate::walk::lemma_walk_plain;
use crate::walk::lemma_walk_start;
use crate::walk::tidy;
use crate::walk::walked;
use crate::units::au_add;
use crate::units::au_neg;
use crate::units::au_sub;
use crate::units::clamped;
use crate::units::in_range;
use crate::units::MAX_AU;

verus! {

/// Left or right.
#[derive(Clone, Copy, PartialEq, Eq, Debug, Structural)]
pub enum Side {
    Left,
    Right,
}

/// A logical point.
#[derive(Clone, Copy, Debug, PartialEq, Eq, Structural)]
pub struct Point {
    /// The origin in the inline direction (normally horizontal).
    pub inline: i32,
    /// The origin in the block direction (normally vertical).
    pub block: i32,
}

impl Point {
    /// Creates a new logical point.
    pub fn new(inline: i32, block: i32) -> (point: Point)
        ensures
            point == (Point { inline, block }),
    {
        Point { inline: inline, block: block }
    }
}

/// A logical size.
#[derive(Clone, Copy, Debug, PartialEq, Eq, Structural)]
pub struct Size {
    /// The size in the inline direction (normally horizontal).
    pub inline: i32,
    /// The size in the block direction (normally vertical).
    pub block: i32,
}

impl Size {
    /// Creates a new logical size.
    pub fn new(inline: i32, block: i32) -> (size: Size)
        ensures
            size == (Size { inline, block }),
    {
        Size { inline: inline, block: block }
    }
}

/// Where an object should be placed to avoid overlapping any excluded area.
#[derive(Clone, Copy, Debug, PartialEq, Eq, Structural)]
pub struct Placement {
    /// The distance from the top left of the zone to the top left of the object.
    pub origin: Point,
    /// How much space is available for the object without overlapping any exclusions.
    pub available_inline_size: i32,
}

impl Placement {
    /// Creates a placement.
    pub fn new(origin: &Point, available_inline_size: i32) -> (placement: Placement)
        ensures
            placement == (Placement { origin: *origin, available_inline_size }),
    {
        Placement { origin: *origin, available_inline_size: available_inline_size }
    }
}

/// Tracks exclusions and allows objects to be placed adjacent to them.
#[derive(Debug)]
pub struct Exclusions {
    bands: SplayMap<Band>,
    inline_size: i32,
}

impl View for Exclusions {
    type V = Seq<(i32, Band)>;

    /// The bands of the zone from the top down, each with the block position at
    /// which it starts.
    closed spec fn view(&self) -> Seq<(i32, Band)> {
        self.bands@
    }
}

/// Band `i` of `s` is where an object `width` wide goes in a zone
/// `inline_size` wide: it is the topmost band with room for the object, or the
/// last band where no band has room.
pub open spec fn is_first_fit(s: Seq<(i32, Band)>, inline_size: i32, width: i32, i: int) -> bool {
    &&& 0 <= i < s.len()
    &&& width <= s[i].1.spec_available_size(inline_size as int) || i == s.len() - 1
    &&& forall|j: int|
        0 <= j < i ==> width > (#[trigger] s[j]).1.spec_available_size(inline_size as int)
}

/// The placement of an object `width` wide at `alignment` in the band `band`
/// that starts at `start`, in a zone `inline_size` wide.
pub open spec fn placement_in(
    start: i32,
    band: Band,
    inline_size: i32,
    alignment: Side,
    width: i32,
) -> Placement {
    Placement {
        origin: Point {
            inline: match alignment {
                Side::Left => (-band.left) as i32,
                Side::Right => clamped(clamped(inline_size + band.right) - width) as i32,
            },
            block: start,
        },
        available_inline_size: band.spec_available_size(inline_size as int) as i32,
    }
}

/// An object goes into one band: `is_first_fit` holds of no two.
pub proof fn lemma_first_fit_unique(
    s: Seq<(i32, Band)>,
    inline_size: i32,
    width: i32,
    i: int,
    j: int,
)
    requires
        is_first_fit(s, inline_size, width, i),
        is_first_fit(s, inline_size, width, j),
    ensures
        i == j,
{
    if i < j {
        assert(width > s[i].1.spec_available_size(inline_size as int));
    }
    if j < i {
        assert(width > s[j].1.spec_available_size(inline_size as int));
    }
}

impl Exclusions {
    /// The inline size of the zone.
    pub closed spec fn spec_inline_size(&self) -> i32 {
        self.inline_size
    }

    /// What holds of every zone between two operations: the bands are the
    /// outline of a zone whose inline size is a length that is not negative.
    pub open spec fn wf(&self) -> bool {
        &&& 0 <= self.spec_inline_size() <= MAX_AU
        &&& outline(self@)
    }

    /// Creates a new rectangular exclusion zone infinitely long in the block direction with the
    /// given inline size.
    ///
    /// The zone starts out with no exclusions in it.
    pub fn new(inline_size: i32) -> (zone: Exclusions)
        requires
            0 <= inline_size <= MAX_AU,
        ensures
            zone.wf(),
            merged(zone@),
            zone.spec_inline_size() == inline_size,
            zone@ == seq![(0i32, Band { left: 0, right: 0, length: MAX_AU })],
    {
        let mut bands: SplayMap<Band> = SplayMap::new();
        bands.insert(0, Band::new(0, 0, MAX_AU));
        proof {
            let s = bands@;
            assert(s =~= seq![(0i32, Band { left: 0, right: 0, length: MAX_AU })]);
            assert(well_shaped(s, 0));
            assert(meets_next(s, 0));
        }
        Exclusions { bands: bands, inline_size: inline_size }
    }

    /// The inline size of the zone.
    pub fn inline_size(&self) -> (inline_size: i32)
        ensures
            inline_size == self.spec_inline_size(),
    {
        self.inline_size
    }

    /// The bands of the zone from the top down, each with the block position at
    /// which it starts.
    pub fn bands(&self) -> (bands: Vec<(i32, Band)>)
        ensures
            bands@ == self@,
    {
        self.bands.to_vec()
    }

    /// Places an object so that it does not overlap any exclusions according to the CSS float
    /// placement rules.
    ///
    /// The object is aligned either to the left or right, depending on the side. It goes
    /// into the topmost band with room for its inline size, or into the last band where no
    /// band has room. The bands stay as they are; the tree that holds them is reshaped.
    pub fn place(&mut self, alignment: Side, size: &Size) -> (placement: Placement)
        requires
            old(self).wf(),
            in_range(size.inline as int),
        ensures
            final(self).wf(),
            final(self)@ == old(self)@,
            final(self).spec_inline_size() == old(self).spec_inline_size(),
            exists|i: int|
                is_first_fit(old(self)@, old(self).spec_inline_size(), size.inline, i)
                    && placement == placement_in(
                    old(self)@[i].0,
                    old(self)@[i].1,
                    old(self).spec_inline_size(),
                    alignment,
                    size.inline,
                ),
            0 <= placement.origin.block < MAX_AU,
            0 <= size.inline <= old(self).spec_inline_size() ==> 0 <= placement.origin.inline
                && placement.origin.inline + size.inline <= old(self).spec_inline_size()
                && size.inline <= placement.available_inline_size,
    {
        let ghost s = self@;
        let fitting = Fitting { size: *size, inline_size: self.inline_size };
        proof {
            lemma_fitting_partitions(s, fitting);
            lemma_tiling_bounds(s, s.len() - 1);
        }
        let (block_position, band) = match self.bands.lower_bound_with(&fitting) {
            Some(entry) => (entry.0, entry.1),
            None => {
                proof {
                    assert(fitting.verdict(s[s.len() - 1].0, s[s.len() - 1].1)
                        == Bearing::Greater);
                }
                unreached()
            },
        };
        let ghost i = choose|i: int|
            is_lower_bound(&fitting, s, i) && s[i] == (block_position, band);
        proof {
            lemma_tiling_bounds(s, i);
            assert(well_shaped(s, i));
            assert(is_first_fit(s, self.inline_size, size.inline, i)) by {
                if i < s.len() - 1 {
                    assert(s[i].0 < s[s.len() - 1].0);
                }
            }
            lemma_room_grows(s, self.inline_size, i, s.len() - 1);
        }
        let inline_position = match alignment {
            Side::Left => au_neg(band.left),
            Side::Right => au_sub(au_add(self.inline_size, band.right), size.inline),
        };
        let origin = Point::new(inline_position, block_position);
        Placement::new(&origin, band.available_size(self.inline_size))
    }

    /// Splits the band spanning the given block position in two at that point.
    ///
    ///  ┌───────────────┐     ┌───────────────┐
    ///  │               │     │               │
    ///  ├────────────┬──┘     ├────────────┬──┘
    ///  │            │        │            │
    ///  ├┄┄┄┄┄┄┄┄┄┄┄┄┼┄┄┄  →  ├────────────┤
    ///  │            │        │            │
    ///  ├───┬────────┘        ├───┬────────┘
    ///  │   │                 │   │
    ///  ├───┘                 ├───┘
    ///  │                     │
    ///
    /// Where a band starts at the position already, the bands stay as they are.
    fn split(&mut self, block_position: i32)
        requires
            old(self).wf(),
            0 <= block_position < MAX_AU,
        ensures
            final(self).wf(),
            final(self).spec_inline_size() == old(self).spec_inline_size(),
            exists|i: int|
                holds(old(self)@, i, block_position as int) && final(self)@ == cut(
                    old(self)@,
                    i,
                    block_position,
                ),
    {
        let ghost s = self@;
        let holding = Holding { position: block_position };
        proof {
            lemma_holding_partitions(s, holding);
        }
        let (floor, left_size, right_size, Ghost(start), Ghost(upper)) =
            match self.bands.get_with_mut(&holding) {
            Some((upper_block_position, upper_band)) => {
                let ghost upper = *upper_band;
                proof {
                    let i = choose|i: int|
                        is_hit(&holding, s, i) && s[i] == (
                            upper_block_position,
                            *upper_band,
                        );
                    lemma_tiling_bounds(s, i);
                }
                let floor: i32 = au_add(upper_block_position, upper_band.length);
                upper_band.length = au_sub(block_position, upper_block_position);
                (
                    floor,
                    upper_band.left,
                    upper_band.right,
                    Ghost(upper_block_position),
                    Ghost(upper),
                )
            },
            None => {
                proof {
                    let i = lemma_covered(s, block_position as int, 0);
                    lemma_tiling_bounds(s, i);
                    assert(holding.verdict(s[i].0, s[i].1) == Bearing::Equal);
                }
                unreached()
            },
        };
        let ghost i = choose|i: int| is_hit(&holding, s, i) && s[i] == (start, upper);
        let ghost shortened = s.update(
            i,
            (start, Band { length: (block_position - start) as i32, ..upper }),
        );
        proof {
            lemma_tiling_bounds(s, i);
            assert(self.bands@ == shortened);
            assert(holds(s, i, block_position as int));
            assert forall|a: int, b: int|
                #![trigger shortened[a], shortened[b]]
                0 <= a < b < shortened.len() implies shortened[a].0 < shortened[b].0 by {
                assert(s[a].0 < s[b].0);
            }
        }
        let lower_band = Band::new(left_size, right_size, au_sub(floor, block_position));
        let prior = self.bands.insert(block_position, lower_band);
        proof {
            let t = self.bands@;
            match prior {
                Some(before) => {
                    let k = choose|k: int|
                        0 <= k < shortened.len() && shortened[k] == (block_position, before)
                            && t == shortened.update(k, (block_position, lower_band));
                    if k != i {
                        lemma_tiling_bounds(s, k);
                        if k < i {
                            assert(s[k].0 < s[i].0);
                        }
                    }
                    assert(t =~= s);
                },
                None => {
                    let k = choose|k: int|
                        0 <= k <= shortened.len() && t == shortened.insert(
                            k,
                            (block_position, lower_band),
                        );
                    assert(shortened[i].0 != block_position);
                    assert(t[k].0 == block_position);
                    if k <= i {
                        assert(t[i + 1] == shortened[i]);
                        assert(t[k].0 < t[i + 1].0);
                    }
                    if k > i + 1 {
                        assert(t[i + 1] == shortened[i + 1]);
                        assert(t[i + 1].0 < t[k].0);
                    }
                    assert(t =~= cut(s, i, block_position));
                },
            }
            lemma_cut(s, i, block_position);
        }
    }

    /// Excludes a rectangular area of the given size, preventing any objects from being placed
    /// within it.
    ///
    /// The excluded area touches the top left or top right of the zone, depending on the side.
    /// An area without inline size or without block size excludes nothing.
    pub fn exclude(&mut self, side: Side, size: &Size)
        requires
            old(self).wf(),
            0 <= size.inline <= MAX_AU,
            0 <= size.block < MAX_AU,
        ensures
            final(self).wf(),
            final(self).spec_inline_size() == old(self).spec_inline_size(),
            size.inline == 0 || size.block == 0 ==> final(self)@ == old(self)@,
            size.inline > 0 && size.block > 0 ==> excluded(old(self)@, final(self)@, side, *size),
            merged(old(self)@) && (has_start(old(self)@, size.block as int) || -band_at(
                old(self)@,
                size.block - 1,
            ).spec_get(side) < size.inline) ==> merged(final(self)@),
    {
        if size.inline == 0 || size.block == 0 {
            return ;
        }
        let ghost before = self@;
        let ghost neat = merged(before) && (has_start(before, size.block as int) || -band_at(
            before,
            size.block - 1,
        ).spec_get(side) < size.inline);

        self.split(size.block);

        let ghost holder = choose|i: int|
            holds(before, i, size.block as int) && self@ == cut(before, i, size.block);
        let ghost opened = self@;
        let ghost edge = cut_index(before, holder, size.block);
        let ghost mut at = edge;
        let ghost mut edge_now = edge;
        proof {
            lemma_cut(before, holder, size.block);
            lemma_walk_start(opened, side, size.inline, edge);
            if neat {
                lemma_cut_tidy(before, holder, size.block);
            }
        }
        let mut last_block_position: i32 = size.block;
        let mut last_band: Option<Band> = None;
        loop
            invariant
                0 < size.inline <= MAX_AU,
                0 < size.block < MAX_AU,
                outline(before),
                holds(before, holder, size.block as int),
                opened == cut(before, holder, size.block),
                edge == cut_index(before, holder, size.block),
                neat == (merged(before) && (has_start(before, size.block as int) || -band_at(
                    before,
                    size.block - 1,
                ).spec_get(side) < size.inline)),
                self.inline_size == old(self).inline_size,
                tiling(self.bands@),
                walked(opened, self.bands@, side, size.inline, at, edge, edge_now),
                last_block_position == self.bands@[at].0,
                last_band == (if at < edge_now {
                    Some(self.bands@[at].1)
                } else {
                    None
                }),
                neat ==> tidy(self.bands@, at),
            ensures
                at == 0 || !reached(self.bands@[at - 1].1, side, size.inline),
            decreases at,
        {
            let ghost now = self.bands@;
            let mut band_to_delete: Option<i32> = None;
            let above = Above { position: last_block_position };
            proof {
                lemma_above_partitions(now, above);
            }
            match self.bands.get_with_mut(&above) {
                Some((block_position, band)) => {
                    let ghost found = *band;
                    proof {
                        let i = choose|i: int|
                            is_hit(&above, now, i) && now[i] == (block_position, found);
                        lemma_above_hit(now, at, i);
                        lemma_tiling_bounds(now, at - 1);
                        lemma_tiling_bounds(now, at);
                        assert(well_shaped(now, at - 1));
                        assert(now.update(at - 1, now[at - 1]) =~= now);
                    }
                    if au_neg(band.get(side)) <= size.inline {
                        // Extend this band.
                        //
                        //  ┌────────────────┐
                        //  │                │
                        //  ├───────┬────┬───┘
                        //  │       │ ─→ ┆
                        //  ├───┬───┴┄┄┄┄┘
                        //  │   │
                        //  ├───┘
                        //  │
                        band.set(side, au_neg(size.inline));

                        // Merge with the next band if we can.
                        //
                        //  ┌───────────────┐
                        //  │               │
                        //  ├───────────┬───┘
                        //  │           │
                        //  ├┄┄┄┄┄┄┄┄┄┄┄┤
                        //  │     ↓     │
                        //  ├───┬───────┘
                        //  │   │
                        //  ├───┘
                        //  │
                        match last_band {
                            Some(below) => {
                                if band.left == below.left && band.right == below.right {
                                    proof {
                                        lemma_walk_merge(
                                            opened,
                                            now,
                                            side,
                                            size.inline,
                                            at,
                                            edge,
                                            edge_now,
                                        );
                                    }
                                    band.length = au_add(band.length, below.length);
                                    band_to_delete = Some(last_block_position)
                                }
                            },
                            None => {},
                        }

                        last_block_position = block_position;
                        last_band = Some(*band);
                    } else {
                        break ;
                    }
                },
                None => {
                    proof {
                        lemma_above_miss(now, at);
                    }
                    break ;
                },
            }

            // Delete the old band if we merged bands above.
            //
            //  ┌───────────────┐     ┌───────────────┐
            //  │               │     │               │
            //  ├────────────┬──┘     ├────────────┬──┘
            //  │            │        │            │
            //  ├┄┄┄┄┄┄┄┄┄┄┄┄┤     →  │            │
            //  │  (delete)  │        │            │
            //  ├───┬────────┘        ├───┬────────┘
            //  │   │                 │   │
            //  ├───┘                 ├───┘
            //  │                     │
            let ghost widened_band = now[at - 1].1.spec_set(side, (-size.inline) as i32);
            match band_to_delete {
                Some(band_to_delete) => {
                    let ghost grown = self.bands@;
                    proof {
                        assert(grown == now.update(
                            at - 1,
                            (
                                now[at - 1].0,
                                Band {
                                    length: (now[at - 1].1.length + now[at].1.length) as i32,
                                    ..widened_band
                                },
                            ),
                        ));
                        assert forall|a: int, b: int|
                            #![trigger grown[a], grown[b]]
                            0 <= a < b < grown.len() implies grown[a].0 < grown[b].0 by {
                            assert(now[a].0 < now[b].0);
                        }
                    }
                    let gone = self.bands.remove(band_to_delete);
                    proof {
                        let next = lemma_walk_merge(
                            opened,
                            now,
                            side,
                            size.inline,
                            at,
                            edge,
                            edge_now,
                        );
                        match gone {
                            Some(value) => {
                                let i = choose|i: int|
                                    0 <= i < grown.len() && grown[i] == (band_to_delete, value)
                                        && self.bands@ == grown.remove(i);
                                if i != at {
                                    assert(grown[i].0 < grown[at].0 || grown[at].0 < grown[i].0);
                                }
                            },
                            None => {
                                assert(grown[at].0 == band_to_delete);
                            },
                        }
                        assert(self.bands@ == next);
                        at = at - 1;
                        edge_now = edge_now - 1;
                    }
                },
                None => {
                    proof {
                        if at == edge_now && neat {
                            lemma_edge_differs(before, holder, side, *size);
                        }
                        let next = lemma_walk_plain(
                            opened,
                            now,
                            side,
                            size.inline,
                            at,
                            edge,
                            edge_now,
                        );
                        assert(self.bands@ == next);
                        at = at - 1;
                    }
                },
            }
        }
        proof {
            let now = self.bands@;
            lemma_done_stepped(opened, now, side, size.inline, at, edge, edge_now);
            lemma_done_insets(before, holder, now, side, *size, at, edge_now);
            lemma_done_starts(before, holder, now, side, *size, at, edge_now);
            if neat {
                lemma_done_merged(before, holder, now, side, *size, at, edge_now);
            }
        }
    }
}

impl Clone for Exclusions {
    /// A zone with the same inline size and the same bands, in a tree of its
    /// own.
    fn clone(&self) -> (copy: Exclusions)
        ensures
            copy@ == self@,
            copy.spec_inline_size() == self.spec_inline_size(),
    {
        Exclusions { bands: self.bands.clone(), inline_size: self.inline_size }
    }
}

} // verus!
