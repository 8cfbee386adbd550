//! Placing a list of objects one after the other in a fresh zone.
//!
//! Each object is placed where the zone has room for it and becomes an
//! exclusion for those that follow: the area from the edge at its side to its
//! far edge, and from the top of the zone to its lower edge.

use vstd::prelude::*;
use crate::band::band_at;
use crate::band::excluded;
use crate::band::has_start;
use crate::band::holds;
use crate::band::lemma_covered;
use crate::band::lemma_index_at;
use crate::band::lemma_tiling_bounds;
use crate::band::merged;
use crate::band::meets_next;
use crate::band::outline;
use crate::band::well_shaped;
use crate::band::Band;
use crate::band::lemma_excluded_unique;
use crate::exclusions::is_first_fit;
use crate::exclusions::lemma_first_fit_unique;
use crate::exclusions::placement_in;
use crate::exclusions::Exclusions;
use crate::exclusions::Point;
use crate::exclusions::Side;
use crate::exclusions::Size;
use crate::units::au_add;
use crate::units::au_sub;
use crate::units::in_range;
use crate::units::MAX_AU;

verus! {

/// An object to place: the side it goes to and its size.
#[derive(Clone, Copy, Debug, PartialEq, Eq, Structural)]
pub struct Exclusion {
    pub side: Side,
    pub size: Size,
}

/// An object that has been placed: what it is and where its top left corner
/// came to lie.
#[derive(Clone, Copy, Debug, PartialEq, Eq, Structural)]
pub struct ExcludedArea {
    pub exclusion: Exclusion,
    pub origin: Point,
}

impl ExcludedArea {
    /// The inline position at which the area ends.
    pub open spec fn far_edge(&self) -> int {
        self.origin.inline + self.exclusion.size.inline
    }

    /// The block position at which the area ends.
    pub open spec fn bottom(&self) -> int {
        self.origin.block + self.exclusion.size.block
    }

    /// The two areas overlap: each starts before the other ends, in both
    /// directions.
    pub open spec fn spec_intersects(&self, other: &ExcludedArea) -> bool {
        &&& self.origin.inline < other.far_edge()
        &&& other.origin.inline < self.far_edge()
        &&& self.origin.block < other.bottom()
        &&& other.origin.block < self.bottom()
    }

    /// Records that `exclusion` was placed at `origin`.
    pub fn new(exclusion: &Exclusion, origin: &Point) -> (area: ExcludedArea)
        ensures
            area == (ExcludedArea { exclusion: *exclusion, origin: *origin }),
    {
        ExcludedArea { exclusion: *exclusion, origin: *origin }
    }

    /// Whether the two areas overlap.
    pub fn intersects(&self, other: &ExcludedArea) -> (overlap: bool)
        requires
            in_range(self.far_edge()),
            in_range(self.bottom()),
            in_range(other.far_edge()),
            in_range(other.bottom()),
        ensures
            overlap == self.spec_intersects(other),
    {
        let this_left = self.origin.inline;
        let other_left = other.origin.inline;
        let this_right = au_add(this_left, self.exclusion.size.inline);
        let other_right = au_add(other_left, other.exclusion.size.inline);
        if this_right <= other_left || other_right <= this_left {
            return false;
        }
        let this_top = self.origin.block;
        let other_top = other.origin.block;
        let this_bottom = au_add(this_top, self.exclusion.size.block);
        let other_bottom = au_add(other_top, other.exclusion.size.block);
        if this_bottom <= other_top || other_bottom <= this_top {
            return false;
        }
        true
    }
}

/// How far the area reaches into a zone `inline_size` wide, from the edge at
/// its side.
pub open spec fn reach_of(inline_size: i32, area: ExcludedArea) -> int {
    match area.exclusion.side {
        Side::Left => area.far_edge(),
        Side::Right => inline_size - area.origin.inline,
    }
}

/// The object as it is placed in a zone `inline_size` wide: no wider than the
/// zone.
pub open spec fn fitted(inline_size: i32, exclusion: Exclusion) -> Exclusion {
    Exclusion {
        side: exclusion.side,
        size: Size {
            inline: if exclusion.size.inline <= inline_size {
                exclusion.size.inline
            } else {
                inline_size
            },
            block: exclusion.size.block,
        },
    }
}

/// `area` is where `exclusion` goes in a zone `inline_size` wide with the
/// outline `bands`: the object, made to fit the zone, in the topmost band with
/// room for it.
pub open spec fn placed(
    bands: Seq<(i32, Band)>,
    inline_size: i32,
    exclusion: Exclusion,
    area: ExcludedArea,
) -> bool {
    &&& area.exclusion == fitted(inline_size, exclusion)
    &&& exists|i: int|
        is_first_fit(bands, inline_size, area.exclusion.size.inline, i) && area.origin
            == placement_in(
            (#[trigger] bands[i]).0,
            bands[i].1,
            inline_size,
            exclusion.side,
            area.exclusion.size.inline,
        ).origin
}

/// `after` is the outline `before` once `area` counts as excluded: from the
/// edge at its side to its far edge, and from the top of the zone to its
/// bottom. An area that ends at that edge or at the top excludes nothing.
pub open spec fn registered(
    before: Seq<(i32, Band)>,
    after: Seq<(i32, Band)>,
    inline_size: i32,
    area: ExcludedArea,
) -> bool {
    if reach_of(inline_size, area) > 0 && area.bottom() > 0 {
        excluded(
            before,
            after,
            area.exclusion.side,
            Size { inline: reach_of(inline_size, area) as i32, block: area.bottom() as i32 },
        )
    } else {
        after == before
    }
}

/// The outline of a zone in which nothing is excluded.
pub open spec fn clear() -> Seq<(i32, Band)> {
    seq![(0i32, Band { left: 0, right: 0, length: MAX_AU })]
}

/// `areas` is where the objects of `list` go, one after the other, in a zone
/// `inline_size` wide that starts out clear, and `bands` is the outline of the
/// zone after the last of them.
pub open spec fn arranged(
    inline_size: i32,
    list: Seq<Exclusion>,
    areas: Seq<ExcludedArea>,
    bands: Seq<(i32, Band)>,
) -> bool
    decreases list.len(),
{
    if list.len() == 0 {
        areas.len() == 0 && bands == clear()
    } else {
        &&& areas.len() == list.len()
        &&& exists|earlier: Seq<(i32, Band)>|
            {
                &&& arranged(inline_size, list.drop_last(), areas.drop_last(), earlier)
                &&& #[trigger] placed(earlier, inline_size, list.last(), areas.last())
                &&& registered(earlier, bands, inline_size, areas.last())
            }
    }
}

/// Wherever the object is placed in the outline, it ends above `MAX_AU`, the
/// bottom of the zone.
pub open spec fn ends_in_zone(
    bands: Seq<(i32, Band)>,
    inline_size: i32,
    exclusion: Exclusion,
) -> bool {
    forall|area: ExcludedArea|
        #[trigger] placed(bands, inline_size, exclusion, area) ==> area.bottom() < MAX_AU
}

/// Every object of the list ends above `MAX_AU` where it is placed after the
/// objects before it.
pub open spec fn all_end_in_zone(inline_size: i32, list: Seq<Exclusion>) -> bool {
    forall|k: int, areas: Seq<ExcludedArea>, bands: Seq<(i32, Band)>|
        0 <= k < list.len() && #[trigger] arranged(inline_size, list.take(k), areas, bands)
            ==> ends_in_zone(bands, inline_size, list[k])
}

/// The block sizes of the objects, added up.
pub open spec fn total_block(list: Seq<Exclusion>) -> int
    decreases list.len(),
{
    if list.len() == 0 {
        0
    } else {
        total_block(list.drop_last()) + list.last().size.block
    }
}

/// Every band of `bands` that starts above the bottom of `area` has excluded
/// at least what the area takes at its side.
pub(crate) open spec fn covered(bands: Seq<(i32, Band)>, inline_size: i32, area: ExcludedArea) -> bool {
    forall|i: int|
        0 <= i < bands.len() && bands[i].0 < area.bottom() ==> -(#[trigger] bands[i]).1.spec_get(
            area.exclusion.side,
        ) >= reach_of(inline_size, area)
}

/// `later` lies below `earlier` or beside it, away from the edge at the side
/// of `earlier`.
pub open spec fn apart(earlier: ExcludedArea, later: ExcludedArea) -> bool {
    ||| later.origin.block >= earlier.bottom()
    ||| match earlier.exclusion.side {
        Side::Left => later.origin.inline >= earlier.far_edge(),
        Side::Right => later.far_edge() <= earlier.origin.inline,
    }
}

/// A band starts at the top of the zone or at the bottom of one of the first
/// `count` areas.
pub(crate) open spec fn grounded(areas: Seq<ExcludedArea>, count: int, start: int) -> bool {
    start == 0 || exists|j: int| 0 <= j < count && (#[trigger] areas[j]).bottom() == start
}

/// Where an object that is no wider than the zone goes, it has room: it
/// starts at the inset of its own side or beyond it and ends at the inset of
/// the other side or before it.
pub(crate) proof fn lemma_hug(bands: Seq<(i32, Band)>, inline_size: i32, side: Side, width: i32, i: int)
    requires
        outline(bands),
        0 <= width <= inline_size <= MAX_AU,
        is_first_fit(bands, inline_size, width, i),
    ensures
        placement_in(bands[i].0, bands[i].1, inline_size, side, width).origin.block == bands[i].0,
        -bands[i].1.left <= placement_in(
            bands[i].0,
            bands[i].1,
            inline_size,
            side,
            width,
        ).origin.inline,
        placement_in(bands[i].0, bands[i].1, inline_size, side, width).origin.inline + width
            <= inline_size + bands[i].1.right,
        side == Side::Left ==> placement_in(
            bands[i].0,
            bands[i].1,
            inline_size,
            side,
            width,
        ).origin.inline == -bands[i].1.left,
        side == Side::Right ==> placement_in(
            bands[i].0,
            bands[i].1,
            inline_size,
            side,
            width,
        ).origin.inline + width == inline_size + bands[i].1.right,
        bands[i].0 <= bands.last().0,
{
    let last = bands.len() - 1;
    assert(well_shaped(bands, i));
    assert(well_shaped(bands, last));
    if i < last {
        assert(bands[i].0 < bands[last].0);
    }
}

/// An object that is placed in an outline in which an earlier area is covered
/// comes to lie below that area or beside it.
pub(crate) proof fn lemma_apart(
    bands: Seq<(i32, Band)>,
    inline_size: i32,
    earlier: ExcludedArea,
    later: ExcludedArea,
    i: int,
)
    requires
        outline(bands),
        covered(bands, inline_size, earlier),
        0 <= later.exclusion.size.inline <= inline_size <= MAX_AU,
        is_first_fit(bands, inline_size, later.exclusion.size.inline, i),
        later.origin == placement_in(
            bands[i].0,
            bands[i].1,
            inline_size,
            later.exclusion.side,
            later.exclusion.size.inline,
        ).origin,
    ensures
        apart(earlier, later),
{
    lemma_hug(bands, inline_size, later.exclusion.side, later.exclusion.size.inline, i);
    if later.origin.block < earlier.bottom() {
        assert(-bands[i].1.spec_get(earlier.exclusion.side) >= reach_of(inline_size, earlier));
    }
}

/// An area that is covered stays covered when more is excluded.
pub(crate) proof fn lemma_covered_after(
    before: Seq<(i32, Band)>,
    after: Seq<(i32, Band)>,
    inline_size: i32,
    area: ExcludedArea,
    side: Side,
    size: Size,
)
    requires
        outline(before),
        covered(before, inline_size, area),
        excluded(before, after, side, size),
        0 <= size.inline,
    ensures
        covered(after, inline_size, area),
{
    assert forall|i: int| 0 <= i < after.len() && after[i].0 < area.bottom() implies -(
    #[trigger] after[i]).1.spec_get(area.exclusion.side) >= reach_of(inline_size, area) by {
        lemma_tiling_bounds(after, i);
        let start = after[i].0 as int;
        let k = lemma_covered(before, start, 0);
        lemma_index_at(before, k, start);
        assert(-before[k].1.spec_get(area.exclusion.side) >= reach_of(inline_size, area));
    }
}

/// An area is covered once it is excluded.
pub(crate) proof fn lemma_covered_new(
    before: Seq<(i32, Band)>,
    after: Seq<(i32, Band)>,
    inline_size: i32,
    area: ExcludedArea,
)
    requires
        outline(before),
        registered(before, after, inline_size, area),
        reach_of(inline_size, area) <= MAX_AU,
        area.bottom() <= MAX_AU,
    ensures
        covered(after, inline_size, area),
{
    if reach_of(inline_size, area) > 0 && area.bottom() > 0 {
        assert forall|i: int| 0 <= i < after.len() && after[i].0 < area.bottom() implies -(
        #[trigger] after[i]).1.spec_get(area.exclusion.side) >= reach_of(inline_size, area) by {
            lemma_tiling_bounds(after, i);
        }
    } else {
        assert forall|i: int| 0 <= i < after.len() && after[i].0 < area.bottom() implies -(
        #[trigger] after[i]).1.spec_get(area.exclusion.side) >= reach_of(inline_size, area) by {
            lemma_tiling_bounds(after, i);
            assert(well_shaped(after, i));
        }
    }
}

/// The sum of the block sizes grows by the block size of each further object.
pub(crate) proof fn lemma_total_step(list: Seq<Exclusion>, count: int)
    requires
        0 <= count < list.len(),
        forall|i: int| 0 <= i < list.len() ==> (#[trigger] list[i]).size.block >= 0,
    ensures
        total_block(list.take(count + 1)) == total_block(list.take(count))
            + list[count].size.block,
        0 <= total_block(list.take(count)),
        total_block(list.take(count + 1)) <= total_block(list),
    decreases list.len() - count,
{
    assert(list.take(count + 1).drop_last() =~= list.take(count));
    lemma_total_sign(list.take(count));
    if count + 1 < list.len() {
        lemma_total_step(list, count + 1);
        assert(list.take(count + 2).drop_last() =~= list.take(count + 1));
    } else {
        assert(list.take(count + 1) =~= list);
    }
}

/// The sum of block sizes that are not negative is not negative.
pub(crate) proof fn lemma_total_sign(list: Seq<Exclusion>)
    requires
        forall|i: int| 0 <= i < list.len() ==> (#[trigger] list[i]).size.block >= 0,
    ensures
        0 <= total_block(list),
    decreases list.len(),
{
    if list.len() > 0 {
        lemma_total_sign(list.drop_last());
    }
}

/// Places one object in the zone, made to fit the inline size of the zone, and
/// excludes the area that it takes: from the edge at its side to its far edge,
/// and from the top of the zone to its bottom.
///
/// The outline stays written with as few bands as it takes where the object
/// has an inline size or has no block size; an object without inline size can
/// cut a band in two that stay alike.
pub fn place_next(exclusions: &mut Exclusions, exclusion: &Exclusion) -> (area: ExcludedArea)
    requires
        old(exclusions).wf(),
        0 <= exclusion.size.inline,
        0 <= exclusion.size.block,
        ends_in_zone(old(exclusions)@, old(exclusions).spec_inline_size(), *exclusion),
    ensures
        final(exclusions).wf(),
        final(exclusions).spec_inline_size() == old(exclusions).spec_inline_size(),
        placed(old(exclusions)@, old(exclusions).spec_inline_size(), *exclusion, area),
        registered(old(exclusions)@, final(exclusions)@, old(exclusions).spec_inline_size(), area),
        0 <= area.origin.inline,
        area.far_edge() <= old(exclusions).spec_inline_size(),
        0 <= area.origin.block,
        has_start(old(exclusions)@, area.origin.block as int),
        merged(old(exclusions)@) && (area.exclusion.size.inline > 0 || exclusion.size.block == 0)
            ==> merged(final(exclusions)@),
{
    let ghost before = exclusions@;
    let inline_size = exclusions.inline_size();
    let mut fitted = *exclusion;
    if fitted.size.inline > inline_size {
        fitted.size.inline = inline_size;
    }
    let origin = exclusions.place(fitted.side, &fitted.size).origin;
    let ghost i = choose|i: int|
        is_first_fit(before, inline_size, fitted.size.inline, i) && origin == placement_in(
            before[i].0,
            before[i].1,
            inline_size,
            fitted.side,
            fitted.size.inline,
        ).origin;
    proof {
        lemma_hug(before, inline_size, fitted.side, fitted.size.inline, i);
        lemma_tiling_bounds(before, i);
        assert(well_shaped(before, i));
        assert(placed(
            before,
            inline_size,
            *exclusion,
            ExcludedArea { exclusion: fitted, origin },
        ));
    }
    let exclusion_inline_size = match fitted.side {
        Side::Left => au_add(origin.inline, fitted.size.inline),
        Side::Right => au_sub(inline_size, origin.inline),
    };
    let extent = Size::new(exclusion_inline_size, au_add(origin.block, fitted.size.block));
    proof {
        if merged(before) && (fitted.size.inline > 0 || fitted.size.block == 0) && extent.inline > 0
            && extent.block > 0 {
            lemma_edge_widened(before, i, fitted.side, extent);
        }
    }
    exclusions.exclude(fitted.side, &extent);
    ExcludedArea::new(&fitted, &origin)
}

/// An exclusion that reaches beyond the inset of band `i` and down to a
/// position below the start of that band widens the band right above its lower
/// edge; one that ends where band `i` starts ends where a band starts.
pub(crate) proof fn lemma_edge_widened(bands: Seq<(i32, Band)>, i: int, side: Side, size: Size)
    requires
        outline(bands),
        0 <= i < bands.len(),
        bands[i].0 <= size.block < MAX_AU,
        0 < size.block,
        -bands[i].1.spec_get(side) < size.inline || bands[i].0 == size.block,
    ensures
        has_start(bands, size.block as int) || -band_at(bands, size.block - 1).spec_get(side)
            < size.inline,
{
    if bands[i].0 < size.block {
        let k = lemma_covered(bands, size.block - 1, i);
        lemma_index_at(bands, k, size.block - 1);
        if i < k {
            assert(bands[i].1.left <= bands[k].1.left && bands[i].1.right <= bands[k].1.right);
        }
    }
}

/// Every band of the outline starts at the top of the zone or at the bottom
/// of one of the first `count` areas.
pub(crate) open spec fn settled_on(bands: Seq<(i32, Band)>, areas: Seq<ExcludedArea>, count: int) -> bool {
    forall|i: int| 0 <= i < bands.len() ==> grounded(areas, count, (#[trigger] bands[i]).0 as int)
}

/// The area lies inside a zone `inline_size` wide.
pub open spec fn inside(inline_size: i32, area: ExcludedArea) -> bool {
    &&& 0 <= area.origin.block
    &&& 0 <= area.origin.inline
    &&& area.far_edge() <= inline_size
}

/// The area lies at the top of the zone or right below one of the areas
/// before it.
pub open spec fn packed(areas: Seq<ExcludedArea>, k: int) -> bool {
    areas[k].origin.block > 0 ==> exists|j: int|
        0 <= j < k && (#[trigger] areas[j]).bottom() == areas[k].origin.block
}

/// Placing one more object keeps the bands on the bottoms of the areas.
pub(crate) proof fn lemma_settled_after(
    before: Seq<(i32, Band)>,
    after: Seq<(i32, Band)>,
    inline_size: i32,
    areas: Seq<ExcludedArea>,
    area: ExcludedArea,
)
    requires
        settled_on(before, areas, areas.len() as int),
        registered(before, after, inline_size, area),
        i32::MIN <= area.bottom() <= i32::MAX,
    ensures
        settled_on(after, areas.push(area), (areas.len() + 1) as int),
{
    let more = areas.push(area);
    assert forall|i: int| 0 <= i < after.len() implies grounded(
        more,
        (areas.len() + 1) as int,
        (#[trigger] after[i]).0 as int,
    ) by {
        let start = after[i].0 as int;
        assert(has_start(after, start));
        if has_start(before, start) {
            let k = choose|k: int| 0 <= k < before.len() && (#[trigger] before[k]).0 == start;
            assert(grounded(areas, areas.len() as int, before[k].0 as int));
            if start != 0 {
                let j = choose|j: int|
                    0 <= j < areas.len() && (#[trigger] areas[j]).bottom() == start;
                assert(more[j] == areas[j]);
            }
        } else {
            assert(start == area.bottom());
            assert(more[areas.len() as int] == area);
        }
    }
}

/// After a run of objects whose block sizes are not negative and add up to
/// less than `MAX_AU`, no band starts further down than that sum.
pub(crate) proof fn lemma_run_starts(
    inline_size: i32,
    list: Seq<Exclusion>,
    areas: Seq<ExcludedArea>,
    bands: Seq<(i32, Band)>,
)
    requires
        arranged(inline_size, list, areas, bands),
        forall|i: int| 0 <= i < list.len() ==> (#[trigger] list[i]).size.block >= 0,
        total_block(list) < MAX_AU,
    ensures
        forall|i: int| 0 <= i < bands.len() ==> 0 <= (#[trigger] bands[i]).0 <= total_block(list),
    decreases list.len(),
{
    if list.len() > 0 {
        let earlier = choose|earlier: Seq<(i32, Band)>|
            {
                &&& arranged(inline_size, list.drop_last(), areas.drop_last(), earlier)
                &&& #[trigger] placed(earlier, inline_size, list.last(), areas.last())
                &&& registered(earlier, bands, inline_size, areas.last())
            };
        let area = areas.last();
        lemma_total_sign(list.drop_last());
        lemma_run_starts(inline_size, list.drop_last(), areas.drop_last(), earlier);
        let first = choose|i: int|
            is_first_fit(earlier, inline_size, area.exclusion.size.inline, i) && area.origin
                == placement_in(
                (#[trigger] earlier[i]).0,
                earlier[i].1,
                inline_size,
                list.last().side,
                area.exclusion.size.inline,
            ).origin;
        assert(0 <= earlier[first].0 <= total_block(list.drop_last()));
        assert forall|i: int| 0 <= i < bands.len() implies 0 <= (#[trigger] bands[i]).0
            <= total_block(list) by {
            let start = bands[i].0 as int;
            assert(has_start(bands, start));
            if has_start(earlier, start) {
                let k = choose|k: int| 0 <= k < earlier.len() && (#[trigger] earlier[k]).0 == start;
                assert(0 <= earlier[k].0 <= total_block(list.drop_last()));
            }
        }
    }
}

/// Objects whose block sizes are not negative and add up to less than `MAX_AU`
/// all end above `MAX_AU`, wherever they are placed.
pub proof fn lemma_short_list_ends_in_zone(inline_size: i32, list: Seq<Exclusion>)
    requires
        forall|i: int| 0 <= i < list.len() ==> (#[trigger] list[i]).size.block >= 0,
        total_block(list) < MAX_AU,
    ensures
        all_end_in_zone(inline_size, list),
{
    assert forall|k: int, areas: Seq<ExcludedArea>, bands: Seq<(i32, Band)>|
        0 <= k < list.len() && #[trigger] arranged(
            inline_size,
            list.take(k),
            areas,
            bands,
        ) implies ends_in_zone(bands, inline_size, list[k]) by {
        lemma_total_step(list, k);
        lemma_run_starts(inline_size, list.take(k), areas, bands);
        assert forall|area: ExcludedArea| #[trigger]
            placed(bands, inline_size, list[k], area) implies area.bottom() < MAX_AU by {
            let first = choose|i: int|
                is_first_fit(bands, inline_size, area.exclusion.size.inline, i) && area.origin
                    == placement_in(
                    (#[trigger] bands[i]).0,
                    bands[i].1,
                    inline_size,
                    list[k].side,
                    area.exclusion.size.inline,
                ).origin;
            assert(bands[first].0 <= total_block(list.take(k)));
        }
    }
}

/// An object that ends above `MAX_AU` when it starts where the last band
/// does ends above `MAX_AU` wherever it is placed.
pub proof fn lemma_ends_in_zone(bands: Seq<(i32, Band)>, inline_size: i32, exclusion: Exclusion)
    requires
        outline(bands),
        bands.last().0 + exclusion.size.block < MAX_AU,
    ensures
        ends_in_zone(bands, inline_size, exclusion),
{
    assert forall|area: ExcludedArea| #[trigger]
        placed(bands, inline_size, exclusion, area) implies area.bottom() < MAX_AU by {
        let first = choose|i: int|
            is_first_fit(bands, inline_size, area.exclusion.size.inline, i) && area.origin
                == placement_in(
                (#[trigger] bands[i]).0,
                bands[i].1,
                inline_size,
                exclusion.side,
                area.exclusion.size.inline,
            ).origin;
        if first < bands.len() - 1 {
            assert(bands[first].0 < bands[bands.len() - 1].0);
        }
    }
}

/// A run goes on by one object: by where it is placed in the outline that the
/// run has left, and by the outline that excluding it leaves.
pub(crate) proof fn lemma_arranged_step(
    inline_size: i32,
    list: Seq<Exclusion>,
    areas: Seq<ExcludedArea>,
    earlier: Seq<(i32, Band)>,
    bands: Seq<(i32, Band)>,
)
    requires
        list.len() > 0,
        areas.len() == list.len(),
        arranged(inline_size, list.drop_last(), areas.drop_last(), earlier),
        placed(earlier, inline_size, list.last(), areas.last()),
        registered(earlier, bands, inline_size, areas.last()),
    ensures
        arranged(inline_size, list, areas, bands),
{
}

/// A list of objects is arranged in one way: `arranged` holds of one list of
/// areas and of one outline.
pub proof fn lemma_arranged_unique(
    inline_size: i32,
    list: Seq<Exclusion>,
    one: Seq<ExcludedArea>,
    one_bands: Seq<(i32, Band)>,
    other: Seq<ExcludedArea>,
    other_bands: Seq<(i32, Band)>,
)
    requires
        arranged(inline_size, list, one, one_bands),
        arranged(inline_size, list, other, other_bands),
    ensures
        one == other,
        one_bands == other_bands,
    decreases list.len(),
{
    if list.len() == 0 {
        assert(one =~= other);
    } else {
        let first = choose|earlier: Seq<(i32, Band)>|
            {
                &&& arranged(inline_size, list.drop_last(), one.drop_last(), earlier)
                &&& #[trigger] placed(earlier, inline_size, list.last(), one.last())
                &&& registered(earlier, one_bands, inline_size, one.last())
            };
        let second = choose|earlier: Seq<(i32, Band)>|
            {
                &&& arranged(inline_size, list.drop_last(), other.drop_last(), earlier)
                &&& #[trigger] placed(earlier, inline_size, list.last(), other.last())
                &&& registered(earlier, other_bands, inline_size, other.last())
            };
        lemma_arranged_unique(
            inline_size,
            list.drop_last(),
            one.drop_last(),
            first,
            other.drop_last(),
            second,
        );
        let width = fitted(inline_size, list.last()).size.inline;
        let i = choose|i: int|
            is_first_fit(first, inline_size, width, i) && one.last().origin == placement_in(
                (#[trigger] first[i]).0,
                first[i].1,
                inline_size,
                list.last().side,
                width,
            ).origin;
        let j = choose|j: int|
            is_first_fit(first, inline_size, width, j) && other.last().origin == placement_in(
                (#[trigger] first[j]).0,
                first[j].1,
                inline_size,
                list.last().side,
                width,
            ).origin;
        lemma_first_fit_unique(first, inline_size, width, i, j);
        assert(one.last() == other.last());
        assert(one =~= one.drop_last().push(one.last()));
        assert(other =~= other.drop_last().push(other.last()));
        if reach_of(inline_size, one.last()) > 0 && one.last().bottom() > 0 {
            lemma_excluded_unique(
                first,
                one_bands,
                other_bands,
                one.last().exclusion.side,
                Size {
                    inline: reach_of(inline_size, one.last()) as i32,
                    block: one.last().bottom() as i32,
                },
            );
        }
    }
}

/// The run of a list goes through the run of every shorter list: what makes
/// every object of the list end in the zone does so for the list without its
/// last object.
pub(crate) proof fn lemma_all_end_prefix(inline_size: i32, list: Seq<Exclusion>)
    requires
        list.len() > 0,
        all_end_in_zone(inline_size, list),
    ensures
        all_end_in_zone(inline_size, list.drop_last()),
{
    let shorter = list.drop_last();
    assert forall|k: int, areas: Seq<ExcludedArea>, bands: Seq<(i32, Band)>|
        0 <= k < shorter.len() && #[trigger] arranged(
            inline_size,
            shorter.take(k),
            areas,
            bands,
        ) implies ends_in_zone(bands, inline_size, shorter[k]) by {
        assert(shorter.take(k) =~= list.take(k));
    }
}

/// What holds after a run: the bands are an outline that starts its bands on
/// the bottoms of the areas and covers every area; every area lies inside the
/// zone, at the top or right below an earlier one; and of two areas the later
/// lies below the earlier or beside it.
pub(crate) proof fn lemma_run_facts(
    inline_size: i32,
    list: Seq<Exclusion>,
    areas: Seq<ExcludedArea>,
    bands: Seq<(i32, Band)>,
)
    requires
        0 <= inline_size <= MAX_AU,
        forall|i: int|
            0 <= i < list.len() ==> (#[trigger] list[i]).size.inline >= 0 && list[i].size.block
                >= 0,
        all_end_in_zone(inline_size, list),
        arranged(inline_size, list, areas, bands),
    ensures
        areas.len() == list.len(),
        outline(bands),
        settled_on(bands, areas, areas.len() as int),
        forall|j: int| 0 <= j < areas.len() ==> covered(bands, inline_size, #[trigger] areas[j]),
        forall|k: int| 0 <= k < areas.len() ==> inside(inline_size, #[trigger] areas[k]),
        forall|k: int| 0 <= k < areas.len() ==> (#[trigger] areas[k]).bottom() < MAX_AU,
        forall|k: int| 0 <= k < areas.len() ==> #[trigger] packed(areas, k),
        forall|j: int, k: int|
            0 <= j < k < areas.len() ==> apart(#[trigger] areas[j], #[trigger] areas[k]),
    decreases list.len(),
{
    if list.len() == 0 {
        assert(well_shaped(bands, 0));
        assert(meets_next(bands, 0));
    } else {
        let before = choose|earlier: Seq<(i32, Band)>|
            {
                &&& arranged(inline_size, list.drop_last(), areas.drop_last(), earlier)
                &&& #[trigger] placed(earlier, inline_size, list.last(), areas.last())
                &&& registered(earlier, bands, inline_size, areas.last())
            };
        let so_far = areas.drop_last();
        let area = areas.last();
        let count = so_far.len() as int;
        lemma_all_end_prefix(inline_size, list);
        lemma_run_facts(inline_size, list.drop_last(), so_far, before);
        assert(list.take(count) =~= list.drop_last());
        assert(ends_in_zone(before, inline_size, list[count]));
        let first = choose|i: int|
            is_first_fit(before, inline_size, area.exclusion.size.inline, i) && area.origin
                == placement_in(
                (#[trigger] before[i]).0,
                before[i].1,
                inline_size,
                list.last().side,
                area.exclusion.size.inline,
            ).origin;
        lemma_hug(before, inline_size, list.last().side, area.exclusion.size.inline, first);
        lemma_tiling_bounds(before, first);
        assert(grounded(so_far, count, before[first].0 as int));
        assert(areas =~= so_far.push(area));
        // The bands stay on the bottoms of the areas.
        lemma_settled_after(before, bands, inline_size, so_far, area);
        // Every area is covered in the new outline.
        assert forall|j: int| 0 <= j < areas.len() implies covered(
            bands,
            inline_size,
            #[trigger] areas[j],
        ) by {
            if j < count {
                assert(areas[j] == so_far[j]);
                if reach_of(inline_size, area) > 0 && area.bottom() > 0 {
                    lemma_covered_after(
                        before,
                        bands,
                        inline_size,
                        so_far[j],
                        area.exclusion.side,
                        Size {
                            inline: reach_of(inline_size, area) as i32,
                            block: area.bottom() as i32,
                        },
                    );
                }
            } else {
                lemma_covered_new(before, bands, inline_size, area);
            }
        }
        // The new area lies below or beside every earlier one.
        assert forall|j: int, k: int| 0 <= j < k < areas.len() implies apart(
            #[trigger] areas[j],
            #[trigger] areas[k],
        ) by {
            assert(areas[j] == so_far[j]);
            if k < count {
                assert(areas[k] == so_far[k]);
            } else {
                lemma_apart(before, inline_size, so_far[j], area, first);
            }
        }
        assert forall|k: int| 0 <= k < areas.len() implies #[trigger] packed(areas, k) by {
            if k < count {
                assert(packed(so_far, k));
                if so_far[k].origin.block > 0 {
                    let j = choose|j: int|
                        0 <= j < k && (#[trigger] so_far[j]).bottom() == so_far[k].origin.block;
                    assert(areas[j] == so_far[j]);
                }
                assert(areas[k] == so_far[k]);
            } else {
                if area.origin.block > 0 {
                    let j = choose|j: int|
                        0 <= j < count && (#[trigger] so_far[j]).bottom() == area.origin.block;
                    assert(areas[j] == so_far[j]);
                }
            }
        }
        assert forall|k: int| 0 <= k < areas.len() implies inside(
            inline_size,
            #[trigger] areas[k],
        ) && areas[k].bottom() < MAX_AU by {
            if k < count {
                assert(areas[k] == so_far[k]);
            }
        }
    }
}

/// Every run of a list leaves the bands an outline and its areas inside the
/// zone, each at the top of the zone or right below an earlier one.
pub proof fn lemma_areas_inside(
    inline_size: i32,
    list: Seq<Exclusion>,
    areas: Seq<ExcludedArea>,
    bands: Seq<(i32, Band)>,
)
    requires
        0 <= inline_size <= MAX_AU,
        forall|i: int|
            0 <= i < list.len() ==> (#[trigger] list[i]).size.inline >= 0 && list[i].size.block
                >= 0,
        all_end_in_zone(inline_size, list),
        arranged(inline_size, list, areas, bands),
    ensures
        outline(bands),
        forall|k: int| 0 <= k < areas.len() ==> inside(inline_size, #[trigger] areas[k]),
        forall|k: int| 0 <= k < areas.len() ==> #[trigger] packed(areas, k),
{
    lemma_run_facts(inline_size, list, areas, bands);
}

/// Of two areas of a run, the later lies below the earlier or beside it, away
/// from the edge at the side of the earlier. So the two do not overlap; two
/// areas at the left run to the right or downward, and two at the right run to
/// the left or downward.
pub proof fn lemma_areas_apart(
    inline_size: i32,
    list: Seq<Exclusion>,
    areas: Seq<ExcludedArea>,
    bands: Seq<(i32, Band)>,
    j: int,
    k: int,
)
    requires
        0 <= inline_size <= MAX_AU,
        forall|i: int|
            0 <= i < list.len() ==> (#[trigger] list[i]).size.inline >= 0 && list[i].size.block
                >= 0,
        all_end_in_zone(inline_size, list),
        arranged(inline_size, list, areas, bands),
        0 <= j < k < areas.len(),
    ensures
        apart(areas[j], areas[k]),
        !areas[j].spec_intersects(&areas[k]),
        areas[j].exclusion.side == Side::Left && areas[k].exclusion.side == Side::Left
            ==> areas[k].origin.inline >= areas[j].far_edge() || areas[k].origin.block
            >= areas[j].bottom(),
        areas[j].exclusion.side == Side::Right && areas[k].exclusion.side == Side::Right
            ==> areas[k].far_edge() <= areas[j].origin.inline || areas[k].origin.block
            >= areas[j].bottom(),
{
    lemma_run_facts(inline_size, list, areas, bands);
    assert(apart(areas[j], areas[k]));
}

/// Places the objects of `exclusion_info` one after the other in a zone
/// `inline_size` wide, each where `place_next` puts it, and returns where they
/// have come to lie.
///
/// Every area lies inside the zone. Every area lies at the top of the zone or
/// right below an earlier one. Of two areas, the later lies below the earlier
/// or beside it, away from the edge at the side of the earlier; so no two
/// overlap, and areas at the same side run away from their edge or downward.
pub fn place_all(inline_size: i32, exclusion_info: Vec<Exclusion>) -> (areas: Vec<ExcludedArea>)
    requires
        0 <= inline_size <= MAX_AU,
        forall|i: int|
            0 <= i < exclusion_info@.len() ==> (#[trigger] exclusion_info@[i]).size.inline >= 0
                && exclusion_info@[i].size.block >= 0,
        all_end_in_zone(inline_size, exclusion_info@),
    ensures
        areas@.len() == exclusion_info@.len(),
        exists|bands: Seq<(i32, Band)>| arranged(inline_size, exclusion_info@, areas@, bands),
        forall|k: int| 0 <= k < areas@.len() ==> inside(inline_size, #[trigger] areas@[k]),
        forall|k: int| 0 <= k < areas@.len() ==> #[trigger] packed(areas@, k),
        forall|j: int, k: int|
            0 <= j < k < areas@.len() ==> apart(#[trigger] areas@[j], #[trigger] areas@[k]),
        forall|j: int, k: int|
            #![trigger areas@[j], areas@[k]]
            0 <= j < k < areas@.len() ==> !areas@[j].spec_intersects(&areas@[k]),
        forall|j: int, k: int|
            0 <= j < k < areas@.len() && (#[trigger] areas@[j]).exclusion.side == Side::Left && (
            #[trigger] areas@[k]).exclusion.side == Side::Left ==> areas@[k].origin.inline
                >= areas@[j].far_edge() || areas@[k].origin.block >= areas@[j].bottom(),
        forall|j: int, k: int|
            0 <= j < k < areas@.len() && (#[trigger] areas@[j]).exclusion.side == Side::Right && (
            #[trigger] areas@[k]).exclusion.side == Side::Right ==> areas@[k].far_edge()
                <= areas@[j].origin.inline || areas@[k].origin.block >= areas@[j].bottom(),
{
    let ghost list = exclusion_info@;
    let mut areas: Vec<ExcludedArea> = Vec::with_capacity(exclusion_info.len());
    let mut exclusions = Exclusions::new(inline_size);
    let mut count: usize = 0;
    proof {
        assert(list.take(0) =~= Seq::<Exclusion>::empty());
    }
    while count < exclusion_info.len()
        invariant
            list == exclusion_info@,
            forall|i: int|
                0 <= i < list.len() ==> (#[trigger] list[i]).size.inline >= 0
                    && list[i].size.block >= 0,
            all_end_in_zone(inline_size, list),
            count <= list.len(),
            areas@.len() == count,
            exclusions.wf(),
            exclusions.spec_inline_size() == inline_size,
            arranged(inline_size, list.take(count as int), areas@, exclusions@),
        decreases list.len() - count,
    {
        let ghost before = exclusions@;
        let ghost so_far = areas@;
        let exclusion = exclusion_info[count];
        let area = place_next(&mut exclusions, &exclusion);
        proof {
            let longer = list.take(count + 1);
            let more = so_far.push(area);
            assert(longer.drop_last() =~= list.take(count as int));
            assert(more.drop_last() =~= so_far);
            lemma_arranged_step(inline_size, longer, more, before, exclusions@);
        }
        areas.push(area);
        count = count + 1;
    }
    proof {
        assert(list.take(count as int) =~= list);
        lemma_run_facts(inline_size, list, areas@, exclusions@);
        assert forall|j: int, k: int|
            #![trigger areas@[j], areas@[k]]
            0 <= j < k < areas@.len() implies !areas@[j].spec_intersects(&areas@[k]) by {
            assert(apart(areas@[j], areas@[k]));
        }
        assert forall|j: int, k: int|
            0 <= j < k < areas@.len() && (#[trigger] areas@[j]).exclusion.side == Side::Left && (
            #[trigger] areas@[k]).exclusion.side == Side::Left implies areas@[k].origin.inline
            >= areas@[j].far_edge() || areas@[k].origin.block >= areas@[j].bottom() by {
            assert(apart(areas@[j], areas@[k]));
        }
        assert forall|j: int, k: int|
            0 <= j < k < areas@.len() && (#[trigger] areas@[j]).exclusion.side == Side::Right && (
            #[trigger] areas@[k]).exclusion.side == Side::Right implies areas@[k].far_edge()
            <= areas@[j].origin.inline || areas@[k].origin.block >= areas@[j].bottom() by {
            assert(apart(areas@[j], areas@[k]));
        }
    }
    areas
}

} // verus!
