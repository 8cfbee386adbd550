//! Bands: horizontal slices of a zone in which the free space has one shape.
//!
//! The outline of everything excluded so far is a list of bands from the top
//! of the zone down. Each band starts where the one before it ends, and the
//! last one ends at `MAX_AU`, which stands for a zone without a bottom.

use vstd::prelude::*;
use crate::exclusions::Side;
use crate::exclusions::Size;
use crate::map::ascending;
use crate::map::partitions;
use crate::map::Bearing;
use crate::map::Comparator;
use crate::units::au_add;
use crate::units::clamped;
use crate::units::in_range;
use crate::units::MAX_AU;

verus! {

/// One band: how far the free space is set in from either edge, and how far
/// the band reaches in the block direction. Insets are stored as lengths that
/// are zero or negative: `left == -30` says that 30 units at the left edge are
/// taken.
#[derive(Clone, Copy, Debug, PartialEq, Eq, Structural)]
pub struct Band {
    pub left: i32,
    pub right: i32,
    pub length: i32,
}

impl Band {
    /// All three lengths are lengths that app units represent.
    pub open spec fn in_range(&self) -> bool {
        in_range(self.left as int) && in_range(self.right as int) && in_range(self.length as int)
    }

    /// The inline size that is free in this band of a zone `inline_size` wide.
    pub open spec fn spec_available_size(&self, inline_size: int) -> int {
        clamped(clamped(inline_size + self.left) + self.right)
    }

    /// The inset at `side`.
    pub open spec fn spec_get(&self, side: Side) -> i32 {
        match side {
            Side::Left => self.left,
            Side::Right => self.right,
        }
    }

    /// The inset at the side across from `side`.
    pub open spec fn across(&self, side: Side) -> i32 {
        match side {
            Side::Left => self.right,
            Side::Right => self.left,
        }
    }

    /// This band with the inset at `side` replaced.
    pub open spec fn spec_set(&self, side: Side, inset: i32) -> Band {
        match side {
            Side::Left => Band { left: inset, ..*self },
            Side::Right => Band { right: inset, ..*self },
        }
    }

    /// Creates a band.
    pub fn new(left: i32, right: i32, length: i32) -> (band: Band)
        ensures
            band == (Band { left, right, length }),
    {
        Band { left: left, right: right, length: length }
    }

    /// The inline size that is free in this band of a zone `inline_size` wide.
    pub fn available_size(&self, inline_size: i32) -> (available: i32)
        requires
            self.in_range(),
            in_range(inline_size as int),
        ensures
            available == self.spec_available_size(inline_size as int),
    {
        au_add(au_add(inline_size, self.left), self.right)
    }

    /// The inset at `side`.
    pub fn get(&self, side: Side) -> (inset: i32)
        ensures
            inset == self.spec_get(side),
    {
        match side {
            Side::Left => self.left,
            Side::Right => self.right,
        }
    }

    /// Replaces the inset at `side`.
    pub fn set(&mut self, side: Side, inline_size: i32)
        ensures
            *final(self) == old(self).spec_set(side, inline_size),
    {
        match side {
            Side::Left => self.left = inline_size,
            Side::Right => self.right = inline_size,
        }
    }
}

/// Where the topmost band with room for `width` lies, seen from the band
/// `band` that starts at `start`: before it or at it where the band has room;
/// at it where it has none but is the last band, which takes what fits nowhere;
/// after it otherwise.
pub open spec fn fit_bearing(start: i32, band: Band, width: i32, inline_size: i32) -> Bearing {
    if width <= band.spec_available_size(inline_size as int) {
        Bearing::Less
    } else if clamped(start + band.length) == MAX_AU {
        Bearing::Equal
    } else {
        Bearing::Greater
    }
}

/// Computes `fit_bearing` for an object of size `exclusion_size`.
pub fn compare_inline_size(
    band_block_start: i32,
    band: &Band,
    exclusion_size: &Size,
    inline_size: i32,
) -> (bearing: Bearing)
    requires
        in_range(band_block_start as int),
        band.in_range(),
        in_range(inline_size as int),
    ensures
        bearing == fit_bearing(band_block_start, *band, exclusion_size.inline, inline_size),
{
    if exclusion_size.inline <= band.available_size(inline_size) {
        Bearing::Less
    } else if au_add(band_block_start, band.length) == MAX_AU {
        Bearing::Equal
    } else {
        Bearing::Greater
    }
}

/// The search for the topmost band with room for an object.
pub struct Fitting {
    pub size: Size,
    pub inline_size: i32,
}

impl Comparator<Band> for Fitting {
    open spec fn defined_on(&self, key: i32, value: Band) -> bool {
        in_range(key as int) && value.in_range() && in_range(self.inline_size as int)
    }

    open spec fn verdict(&self, key: i32, value: Band) -> Bearing {
        fit_bearing(key, value, self.size.inline, self.inline_size)
    }

    fn compare(&self, key: i32, value: &Band) -> (bearing: Bearing) {
        compare_inline_size(key, value, &self.size, self.inline_size)
    }
}

/// The search for the band that holds a block position: the band that starts
/// at it or before it and ends after it.
pub struct Holding {
    pub position: i32,
}

impl Comparator<Band> for Holding {
    open spec fn defined_on(&self, key: i32, value: Band) -> bool {
        in_range(key as int) && in_range(value.length as int)
    }

    open spec fn verdict(&self, key: i32, value: Band) -> Bearing {
        if self.position < key {
            Bearing::Less
        } else if self.position >= clamped(key + value.length) {
            Bearing::Greater
        } else {
            Bearing::Equal
        }
    }

    fn compare(&self, key: i32, value: &Band) -> (bearing: Bearing) {
        if self.position < key {
            Bearing::Less
        } else if self.position >= au_add(key, value.length) {
            Bearing::Greater
        } else {
            Bearing::Equal
        }
    }
}

/// The search for the band that lies right above a block position: the band
/// that starts before it and ends at it or after it.
pub struct Above {
    pub position: i32,
}

impl Comparator<Band> for Above {
    open spec fn defined_on(&self, key: i32, value: Band) -> bool {
        in_range(key as int) && in_range(value.length as int)
    }

    open spec fn verdict(&self, key: i32, value: Band) -> Bearing {
        if self.position <= key {
            Bearing::Less
        } else if self.position > clamped(key + value.length) {
            Bearing::Greater
        } else {
            Bearing::Equal
        }
    }

    fn compare(&self, key: i32, value: &Band) -> (bearing: Bearing) {
        if self.position <= key {
            Bearing::Less
        } else if self.position > au_add(key, value.length) {
            Bearing::Greater
        } else {
            Bearing::Equal
        }
    }
}

/// Where band `i` of `s` ends.
pub open spec fn end_of(s: Seq<(i32, Band)>, i: int) -> int {
    s[i].0 + s[i].1.length
}

/// Band `i` of `s` ends where the next band starts, or at `MAX_AU` where it is
/// the last.
pub open spec fn meets_next(s: Seq<(i32, Band)>, i: int) -> bool {
    end_of(s, i) == if i + 1 < s.len() {
        s[i + 1].0 as int
    } else {
        MAX_AU as int
    }
}

/// Band `i` of `s` has a positive length and insets that are zero or negative.
pub open spec fn well_shaped(s: Seq<(i32, Band)>, i: int) -> bool {
    &&& s[i].1.length > 0
    &&& -MAX_AU <= s[i].1.left <= 0
    &&& -MAX_AU <= s[i].1.right <= 0
}

/// The bands of `s` tile the block axis: they start at block position 0, each
/// ends where the next starts, and the last ends at `MAX_AU`.
pub open spec fn tiling(s: Seq<(i32, Band)>) -> bool {
    &&& s.len() > 0
    &&& s[0].0 == 0
    &&& ascending(s)
    &&& forall|i: int| 0 <= i < s.len() ==> #[trigger] well_shaped(s, i)
    &&& forall|i: int| 0 <= i < s.len() ==> #[trigger] meets_next(s, i)
}

/// What is excluded at either side never grows from a band of `s` to a band
/// below it, and nothing is excluded in the last band.
pub open spec fn stepped(s: Seq<(i32, Band)>) -> bool {
    &&& forall|i: int, j: int|
        #![trigger s[i], s[j]]
        0 <= i < j < s.len() ==> s[i].1.left <= s[j].1.left && s[i].1.right <= s[j].1.right
    &&& s.len() > 0 ==> s.last().1.left == 0 && s.last().1.right == 0
}

/// `s` is the outline of a zone: bands from block position 0 down to `MAX_AU`
/// without gap or overlap, with no more excluded in a band than in the bands
/// above it, and nothing excluded in the last band.
pub open spec fn outline(s: Seq<(i32, Band)>) -> bool {
    tiling(s) && stepped(s)
}

/// The two bands leave the same free space: their insets are the same.
pub open spec fn same_insets(a: Band, b: Band) -> bool {
    a.left == b.left && a.right == b.right
}

/// Band `i` of `s` and the band below it leave different free space.
pub open spec fn differs_from_next(s: Seq<(i32, Band)>, i: int) -> bool {
    !same_insets(s[i].1, s[i + 1].1)
}

/// No band of `s` has the insets of the band below it: the outline is written
/// with as few bands as it takes.
pub open spec fn merged(s: Seq<(i32, Band)>) -> bool {
    forall|i: int| 0 <= i < s.len() - 1 ==> #[trigger] differs_from_next(s, i)
}

/// Every band of a tiling starts inside the zone and ends inside it, after
/// its start, and no later than any band below it starts.
pub proof fn lemma_tiling_bounds(s: Seq<(i32, Band)>, i: int)
    requires
        tiling(s),
        0 <= i < s.len(),
    ensures
        0 <= s[i].0 < MAX_AU,
        s[i].0 < end_of(s, i) <= MAX_AU,
        s[i].1.in_range(),
        i > 0 ==> end_of(s, i - 1) == s[i].0,
        i + 1 < s.len() ==> end_of(s, i) == s[i + 1].0,
        i + 1 == s.len() ==> end_of(s, i) == MAX_AU,
        forall|j: int| i < j < s.len() ==> end_of(s, i) <= (#[trigger] s[j]).0,
{
    let last = s.len() - 1;
    assert(well_shaped(s, i));
    assert(meets_next(s, i));
    assert(well_shaped(s, last));
    assert(meets_next(s, last));
    if i > 0 {
        assert(s[0].0 < s[i].0);
        assert(meets_next(s, i - 1));
    }
    if i < last {
        assert(s[i].0 < s[last].0);
        assert(s[i + 1].0 <= s[last].0) by {
            if i + 1 < last {
                assert(s[i + 1].0 < s[last].0);
            }
        }
    }
    assert forall|j: int| i < j < s.len() implies end_of(s, i) <= (#[trigger] s[j]).0 by {
        if i + 1 < j {
            assert(s[i + 1].0 < s[j].0);
        }
    }
}

/// The free inline size never shrinks from a band of an outline to a band
/// below it.
pub(crate) proof fn lemma_room_grows(s: Seq<(i32, Band)>, inline_size: i32, i: int, j: int)
    requires
        outline(s),
        0 <= i <= j < s.len(),
    ensures
        s[i].1.spec_available_size(inline_size as int) <= s[j].1.spec_available_size(
            inline_size as int,
        ),
{
    if i < j {
        assert(s[i].1.left <= s[j].1.left && s[i].1.right <= s[j].1.right);
    }
}

/// The search for room splits an outline in order.
pub proof fn lemma_fitting_partitions(s: Seq<(i32, Band)>, fitting: Fitting)
    requires
        outline(s),
        in_range(fitting.inline_size as int),
    ensures
        partitions(&fitting, s),
{
    assert forall|i: int| 0 <= i < s.len() implies fitting.defined_on((#[trigger] s[i]).0, s[i].1) by {
        lemma_tiling_bounds(s, i);
    }
    assert forall|i: int, j: int|
        #![trigger s[i], s[j]]
        0 <= i < j < s.len() && fitting.verdict(s[j].0, s[j].1)
            != Bearing::Less implies fitting.verdict(s[i].0, s[i].1) == Bearing::Greater by {
        lemma_room_grows(s, fitting.inline_size, i, j);
        lemma_tiling_bounds(s, i);
        lemma_tiling_bounds(s, j);
    }
}

/// The search for the band that holds a position splits a tiling in order.
pub proof fn lemma_holding_partitions(s: Seq<(i32, Band)>, holding: Holding)
    requires
        tiling(s),
    ensures
        partitions(&holding, s),
{
    assert forall|i: int| 0 <= i < s.len() implies holding.defined_on((#[trigger] s[i]).0, s[i].1) by {
        lemma_tiling_bounds(s, i);
    }
    assert forall|i: int, j: int|
        #![trigger s[i], s[j]]
        0 <= i < j < s.len() && holding.verdict(s[j].0, s[j].1)
            != Bearing::Less implies holding.verdict(s[i].0, s[i].1) == Bearing::Greater by {
        lemma_tiling_bounds(s, i);
        lemma_tiling_bounds(s, j);
    }
}

/// The search for the band right above a position splits a tiling in order.
pub proof fn lemma_above_partitions(s: Seq<(i32, Band)>, above: Above)
    requires
        tiling(s),
    ensures
        partitions(&above, s),
{
    assert forall|i: int| 0 <= i < s.len() implies above.defined_on((#[trigger] s[i]).0, s[i].1) by {
        lemma_tiling_bounds(s, i);
    }
    assert forall|i: int, j: int|
        #![trigger s[i], s[j]]
        0 <= i < j < s.len() && above.verdict(s[j].0, s[j].1)
            != Bearing::Less implies above.verdict(s[i].0, s[i].1) == Bearing::Greater by {
        lemma_tiling_bounds(s, i);
        lemma_tiling_bounds(s, j);
    }
}

/// Every block position inside the zone lies in a band of the tiling, at or
/// below band `from` where it does not lie above that band.
pub(crate) proof fn lemma_covered(s: Seq<(i32, Band)>, position: int, from: int) -> (i: int)
    requires
        tiling(s),
        0 <= from < s.len(),
        s[from].0 <= position < MAX_AU,
    ensures
        from <= i < s.len(),
        s[i].0 <= position < end_of(s, i),
    decreases s.len() - from,
{
    lemma_tiling_bounds(s, from);
    assert(meets_next(s, from));
    if position < end_of(s, from) {
        from
    } else {
        lemma_covered(s, position, from + 1)
    }
}

/// Band `i` of `s` holds the block position: it starts at it or before it and
/// ends after it.
pub open spec fn holds(s: Seq<(i32, Band)>, i: int, position: int) -> bool {
    0 <= i < s.len() && s[i].0 <= position < end_of(s, i)
}

/// `s` with band `i` cut in two at `position`, so that a band starts there.
/// Where band `i` starts at `position` itself, nothing changes.
pub open spec fn cut(s: Seq<(i32, Band)>, i: int, position: i32) -> Seq<(i32, Band)> {
    let start = s[i].0;
    let band = s[i].1;
    if start == position {
        s
    } else {
        s.update(i, (start, Band { length: (position - start) as i32, ..band })).insert(
            i + 1,
            (position, Band { length: (start + band.length - position) as i32, ..band }),
        )
    }
}

/// The index at which a band starts at `position` after the cut.
pub open spec fn cut_index(s: Seq<(i32, Band)>, i: int, position: i32) -> int {
    if s[i].0 == position {
        i
    } else {
        i + 1
    }
}

/// A cut leaves a tiling a tiling and keeps the steps of the insets; the band
/// below the cut starts at the position, and every other band keeps its start
/// and its insets.
pub(crate) proof fn lemma_cut(s: Seq<(i32, Band)>, i: int, position: i32)
    requires
        tiling(s),
        holds(s, i, position as int),
    ensures
        tiling(cut(s, i, position)),
        stepped(s) ==> stepped(cut(s, i, position)),
        cut(s, i, position)[cut_index(s, i, position)].0 == position,
        cut(s, i, position).len() == s.len() + cut_index(s, i, position) - i,
{
    let t = cut(s, i, position);
    lemma_tiling_bounds(s, i);
    if s[i].0 != position {
        assert forall|a: int| 0 <= a < t.len() implies #[trigger] well_shaped(t, a) by {
            let sa = if a <= i { a } else { a - 1 };
            assert(well_shaped(s, sa));
        }
        assert forall|a: int| 0 <= a < t.len() implies #[trigger] meets_next(t, a) by {
            let sa = if a <= i { a } else { a - 1 };
            assert(meets_next(s, sa));
        }
        assert(t[0].0 == 0);
        assert forall|a: int, b: int| #![trigger t[a], t[b]] 0 <= a < b < t.len() implies t[a].0
            < t[b].0 by {
            let sa = if a <= i { a } else { a - 1 };
            let sb = if b <= i { b } else { b - 1 };
            if sa < sb {
                assert(s[sa].0 < s[sb].0);
                lemma_tiling_bounds(s, sa);
            }
        }
        if stepped(s) {
            assert forall|a: int, b: int|
                #![trigger t[a], t[b]]
                0 <= a < b < t.len() implies t[a].1.left <= t[b].1.left && t[a].1.right
                <= t[b].1.right by {
                let sa = if a <= i { a } else { a - 1 };
                let sb = if b <= i { b } else { b - 1 };
                if sa < sb {
                    assert(s[sa].1.left <= s[sb].1.left && s[sa].1.right <= s[sb].1.right);
                }
            }
            assert(t.last().1.left == s.last().1.left);
            assert(t.last().1.right == s.last().1.right);
        }
    }
}

/// The index of the band of `s` that holds the block position.
pub open spec fn index_at(s: Seq<(i32, Band)>, position: int) -> int {
    choose|i: int| holds(s, i, position)
}

/// The band of `s` that holds the block position.
pub open spec fn band_at(s: Seq<(i32, Band)>, position: int) -> Band {
    s[index_at(s, position)].1
}

/// A band starts at the block position.
pub open spec fn has_start(s: Seq<(i32, Band)>, position: int) -> bool {
    exists|i: int| 0 <= i < s.len() && (#[trigger] s[i]).0 == position
}

/// In a tiling one band at most holds a block position.
pub(crate) proof fn lemma_index_at(s: Seq<(i32, Band)>, i: int, position: int)
    requires
        tiling(s),
        holds(s, i, position),
    ensures
        index_at(s, position) == i,
{
    let k = index_at(s, position);
    assert(holds(s, k, position));
    lemma_tiling_bounds(s, i);
    lemma_tiling_bounds(s, k);
}

/// An exclusion `width` wide at `side` reaches a band: what the band has
/// excluded at that side is no wider.
pub open spec fn reached(band: Band, side: Side, width: i32) -> bool {
    -band.spec_get(side) <= width
}

/// What a band becomes under an exclusion `width` wide at `side` that spans it.
pub open spec fn widened(band: Band, side: Side, width: i32) -> Band {
    if reached(band, side, width) {
        band.spec_set(side, (-width) as i32)
    } else {
        band
    }
}

/// The start of a band at `position` goes away under an exclusion of `size` at
/// `side`: the exclusion reaches both the band that starts there and the band
/// that ends there, and leaves them with the same insets.
pub open spec fn absorbed(s: Seq<(i32, Band)>, side: Side, size: Size, position: int) -> bool {
    &&& 0 < position < size.block
    &&& reached(band_at(s, position), side, size.inline)
    &&& reached(band_at(s, position - 1), side, size.inline)
    &&& band_at(s, position).across(side) == band_at(s, position - 1).across(side)
}

/// `after` is the outline `before` with one more exclusion of `size` at `side`:
/// the exclusion widens every band above its lower edge that it reaches and
/// leaves every other band as it was; a band starts at its lower edge; and of
/// the bands it has widened, those that have come to look like the band above
/// them are one with that band.
pub open spec fn excluded(
    before: Seq<(i32, Band)>,
    after: Seq<(i32, Band)>,
    side: Side,
    size: Size,
) -> bool {
    &&& outline(after)
    &&& forall|position: int|
        #![trigger has_start(after, position)]
        has_start(after, position) <==> (has_start(before, position) || position == size.block)
            && !absorbed(before, side, size, position)
    &&& forall|i: int|
        0 <= i < after.len() ==> same_insets(
            (#[trigger] after[i]).1,
            if after[i].0 < size.block {
                widened(band_at(before, after[i].0 as int), side, size.inline)
            } else {
                band_at(before, after[i].0 as int)
            },
        )
}

/// Two tilings in which bands start at the same positions have the same
/// number of bands, and their bands start at the same positions one by one.
proof fn lemma_same_starts(one: Seq<(i32, Band)>, other: Seq<(i32, Band)>, i: int)
    requires
        tiling(one),
        tiling(other),
        forall|position: int|
            #![trigger has_start(one, position)]
            has_start(one, position) <==> has_start(other, position),
        0 <= i < one.len(),
    ensures
        i < other.len(),
        one[i].0 == other[i].0,
        (i + 1 == one.len()) == (i + 1 == other.len()),
    decreases i,
{
    if i > 0 {
        lemma_same_starts(one, other, i - 1);
        // Band `i` of either tiling starts where a band of the other does,
        // which cannot be above band `i` there.
        lemma_start_index(one, other, i);
        lemma_start_index(other, one, i);
    }
    if i + 1 < one.len() {
        lemma_start_index(one, other, i + 1);
    }
    if i + 1 < other.len() {
        lemma_start_index(other, one, i + 1);
        if i + 1 == one.len() {
            let j = choose|j: int| 0 <= j < one.len() && (#[trigger] one[j]).0 == other[i + 1].0;
            assert(other[i].0 < other[i + 1].0);
            if j < i {
                assert(one[j].0 < one[i].0);
            }
        }
    }
}

/// Band `i` of `one` starts where a band of `other` does.
proof fn lemma_start_index(one: Seq<(i32, Band)>, other: Seq<(i32, Band)>, i: int)
    requires
        forall|position: int|
            #![trigger has_start(one, position)]
            has_start(one, position) <==> has_start(other, position),
        0 <= i < one.len(),
    ensures
        has_start(other, one[i].0 as int),
{
    assert(has_start(one, one[i].0 as int));
}

/// An outline and an exclusion leave one outline: `excluded` holds of no two.
pub proof fn lemma_excluded_unique(
    before: Seq<(i32, Band)>,
    one: Seq<(i32, Band)>,
    other: Seq<(i32, Band)>,
    side: Side,
    size: Size,
)
    requires
        excluded(before, one, side, size),
        excluded(before, other, side, size),
    ensures
        one == other,
{
    assert forall|position: int| #![trigger has_start(one, position)] has_start(one, position)
        <==> has_start(other, position) by {}
    lemma_same_starts(one, other, one.len() - 1);
    assert forall|i: int| 0 <= i < one.len() implies one[i] == other[i] by {
        lemma_same_starts(one, other, i);
        assert(meets_next(one, i));
        assert(meets_next(other, i));
        if i + 1 < one.len() {
            lemma_same_starts(one, other, i + 1);
        }
        assert(same_insets(one[i].1, other[i].1));
    }
    assert(one =~= other);
}

/// A position below the start of band `i` of a tiling and above its end is
/// where no band starts.
proof fn lemma_no_start_inside(s: Seq<(i32, Band)>, i: int, position: int)
    requires
        tiling(s),
        0 <= i < s.len(),
        s[i].0 < position < end_of(s, i),
    ensures
        !has_start(s, position),
{
    if has_start(s, position) {
        let k = choose|k: int| 0 <= k < s.len() && (#[trigger] s[k]).0 == position;
        lemma_tiling_bounds(s, i);
        if k < i {
            assert(s[k].0 < s[i].0);
        }
    }
}

/// The bands of `before` from the one that holds the start of band `i` of
/// `after` down to band `j`, which starts in band `i` too, come out of the
/// exclusion alike; there is more than one of them only above the lower edge
/// of the exclusion.
proof fn lemma_excluded_chain(
    before: Seq<(i32, Band)>,
    after: Seq<(i32, Band)>,
    side: Side,
    size: Size,
    i: int,
    first: int,
    j: int,
)
    requires
        outline(before),
        excluded(before, after, side, size),
        0 <= i < after.len(),
        holds(before, first, after[i].0 as int),
        first <= j < before.len(),
        before[j].0 < end_of(after, i),
    ensures
        first < j ==> after[i].0 < size.block,
        same_insets(
            widened(before[j].1, side, size.inline),
            widened(before[first].1, side, size.inline),
        ),
    decreases j - first,
{
    if first < j {
        let start = before[j].0 as int;
        lemma_tiling_bounds(before, j);
        lemma_tiling_bounds(before, j - 1);
        lemma_tiling_bounds(before, first);
        if first < j - 1 {
            assert(before[first].0 < before[j - 1].0);
        }
        assert(before[j - 1].0 < before[j].0);
        lemma_excluded_chain(before, after, side, size, i, first, j - 1);
        // Band `j` starts inside band `i` of `after`, where no band starts
        // any more: the exclusion has absorbed its start.
        assert(after[i].0 < start) by {
            assert(before[first].0 < before[j].0);
        }
        lemma_no_start_inside(after, i, start);
        assert(has_start(before, start));
        assert(absorbed(before, side, size, start));
        lemma_index_at(before, j, start);
        lemma_index_at(before, j - 1, start - 1);
    }
}

/// At every block position the exclusion leaves what it says: above its lower
/// edge the band that was there, widened where the exclusion reaches it, and
/// from its lower edge down the band that was there.
pub proof fn lemma_excluded_at(
    before: Seq<(i32, Band)>,
    after: Seq<(i32, Band)>,
    side: Side,
    size: Size,
    position: int,
)
    requires
        outline(before),
        excluded(before, after, side, size),
        0 <= position < MAX_AU,
    ensures
        same_insets(
            band_at(after, position),
            if position < size.block {
                widened(band_at(before, position), side, size.inline)
            } else {
                band_at(before, position)
            },
        ),
{
    let i = lemma_covered(after, position, 0);
    lemma_index_at(after, i, position);
    lemma_tiling_bounds(after, i);
    let start = after[i].0 as int;
    let first = lemma_covered(before, start, 0);
    lemma_index_at(before, first, start);
    let j = lemma_covered(before, position, first);
    lemma_index_at(before, j, position);
    lemma_excluded_chain(before, after, side, size, i, first, j);
    // A band starts at the lower edge of the exclusion, so band `i` lies
    // above that edge or below it as a whole.
    if start < size.block <= position {
        assert(has_start(after, size.block as int));
        lemma_no_start_inside(after, i, size.block as int);
    }
}

} // verus!
