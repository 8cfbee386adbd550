//! The state of one exclusion while it works its way up through the bands.
//!
//! Excluding an area first cuts the outline at the lower edge of the area and
//! goes up from there, band by band. Each band that the area reaches is widened
//! and made one with the band below where both have come to look the same.
//! `walked` says what holds between two steps; the lemmas carry it through a
//! step and say what it amounts to when the walk is over.

use vstd::prelude::*;
use crate::band::absorbed;
use crate::band::band_at;
use crate::band::cut;
use crate::band::cut_index;
use crate::band::differs_from_next;
use crate::band::end_of;
use crate::band::has_start;
use crate::band::holds;
use crate::band::lemma_cut;
use crate::band::lemma_index_at;
use crate::band::lemma_tiling_bounds;
use crate::band::meets_next;
use crate::band::merged;
use crate::band::outline;
use crate::band::reached;
use crate::band::same_insets;
use crate::band::stepped;
use crate::band::tiling;
use crate::band::well_shaped;
use crate::band::widened;
use crate::band::Above;
use crate::band::Band;
use crate::exclusions::Side;
use crate::exclusions::Size;
use crate::map::is_hit;
use crate::map::no_hit;
use crate::map::Bearing;
use crate::map::Comparator;
use crate::units::MAX_AU;

verus! {

/// A band of `opened` between `low` and `high` starts at `start`.
pub(crate) open spec fn sourced(opened: Seq<(i32, Band)>, low: int, high: int, start: i32) -> bool {
    exists|k: int| low <= k < high && (#[trigger] opened[k]).0 == start
}

/// A band of `now` between `low` and `high` holds the start of `entry` and has
/// its inset across from `side`.
pub(crate) open spec fn housed(
    now: Seq<(i32, Band)>,
    low: int,
    high: int,
    entry: (i32, Band),
    side: Side,
) -> bool {
    exists|i: int|
        low <= i < high && holds(now, i, entry.0 as int) && (#[trigger] now[i]).1.across(side)
            == entry.1.across(side)
}

/// The walk of an exclusion `width` wide at `side` stands at band `at`.
///
/// `opened` is the outline as it was cut at the lower edge of the exclusion, where
/// its band `edge` starts; `now` is the outline as the walk has left it, where
/// that band has the index `edge_now`. Above `at` nothing has changed, and
/// nothing has from the lower edge down. In between, every band has been
/// widened, starts where a band of `opened` did and differs from the band below
/// it; and every band of `opened` lies in one that has its inset across.
pub(crate) open spec fn walked(
    opened: Seq<(i32, Band)>,
    now: Seq<(i32, Band)>,
    side: Side,
    width: i32,
    at: int,
    edge: int,
    edge_now: int,
) -> bool {
    &&& 0 <= at <= edge < opened.len()
    &&& at <= edge_now < now.len()
    &&& (at == edge) == (at == edge_now)
    &&& now.len() - edge_now == opened.len() - edge
    &&& now[at].0 == opened[at].0
    &&& forall|i: int| 0 <= i < at ==> (#[trigger] now[i]) == opened[i]
    &&& forall|i: int| edge_now <= i < now.len() ==> (#[trigger] now[i]) == opened[i - edge_now + edge]
    &&& forall|k: int| at <= k < edge ==> reached((#[trigger] opened[k]).1, side, width)
    &&& forall|i: int| at <= i < edge_now ==> (#[trigger] now[i]).1.spec_get(side) == -width
    &&& forall|i: int| at <= i < edge_now ==> #[trigger] sourced(opened, at, edge, now[i].0)
    &&& forall|k: int| at <= k < edge ==> #[trigger] housed(now, at, edge_now, opened[k], side)
    &&& forall|i: int| at <= i < edge_now - 1 ==> #[trigger] differs_from_next(now, i)
}

/// Every band of `now` but the one right above `at` differs from the band
/// below it.
pub(crate) open spec fn tidy(now: Seq<(i32, Band)>, at: int) -> bool {
    forall|i: int| 0 <= i < now.len() - 1 && i != at - 1 ==> #[trigger] differs_from_next(now, i)
}

/// The band right above band `at` of a tiling is the one that the search for
/// the band above the start of band `at` finds.
pub(crate) proof fn lemma_above_hit(now: Seq<(i32, Band)>, at: int, i: int)
    requires
        tiling(now),
        0 <= at < now.len(),
        is_hit(&Above { position: now[at].0 }, now, i),
    ensures
        i == at - 1,
{
    lemma_tiling_bounds(now, i);
    lemma_tiling_bounds(now, at);
    if i >= at {
        if i > at {
            assert(now[at].0 < now[i].0);
        }
    } else if i < at - 1 {
        assert(now[at - 1].0 < now[at].0);
    }
}

/// The search for the band above the start of band `at` of a tiling finds
/// nothing only at the top of the zone.
pub(crate) proof fn lemma_above_miss(now: Seq<(i32, Band)>, at: int)
    requires
        tiling(now),
        0 <= at < now.len(),
        no_hit(&Above { position: now[at].0 }, now),
    ensures
        at == 0,
{
    if at > 0 {
        lemma_tiling_bounds(now, at);
        lemma_tiling_bounds(now, at - 1);
        assert(now[at - 1].0 < now[at].0);
        assert((Above { position: now[at].0 }).verdict(now[at - 1].0, now[at - 1].1)
            == Bearing::Equal);
    }
}

/// The walk starts at the lower edge with nothing done.
pub(crate) proof fn lemma_walk_start(opened: Seq<(i32, Band)>, side: Side, width: i32, edge: int)
    requires
        0 <= edge < opened.len(),
    ensures
        walked(opened, opened, side, width, edge, edge, edge),
{
}

/// One step of the walk that widens the band above `at` and leaves it a band
/// of its own.
pub(crate) proof fn lemma_walk_plain(
    opened: Seq<(i32, Band)>,
    now: Seq<(i32, Band)>,
    side: Side,
    width: i32,
    at: int,
    edge: int,
    edge_now: int,
) -> (next: Seq<(i32, Band)>)
    requires
        tiling(now),
        walked(opened, now, side, width, at, edge, edge_now),
        0 <= width <= MAX_AU,
        at > 0,
        reached(now[at - 1].1, side, width),
        at < edge_now ==> !same_insets(now[at - 1].1.spec_set(side, (-width) as i32), now[at].1),
    ensures
        next == now.update(at - 1, (now[at - 1].0, now[at - 1].1.spec_set(side, (-width) as i32))),
        tiling(next),
        walked(opened, next, side, width, at - 1, edge, edge_now),
        tidy(now, at) && (at < edge_now || differs_from_next(next, at - 1)) ==> tidy(next, at - 1),
{
    let band = now[at - 1].1.spec_set(side, (-width) as i32);
    let next = now.update(at - 1, (now[at - 1].0, band));
    assert forall|i: int| 0 <= i < next.len() implies #[trigger] well_shaped(next, i) by {
        assert(well_shaped(now, i));
    }
    assert forall|i: int| 0 <= i < next.len() implies #[trigger] meets_next(next, i) by {
        assert(meets_next(now, i));
    }
    assert forall|a: int, b: int| #![trigger next[a], next[b]] 0 <= a < b < next.len() implies next[a].0
        < next[b].0 by {
        assert(now[a].0 < now[b].0);
    }
    assert(now[at - 1] == opened[at - 1]);
    assert forall|i: int| edge_now <= i < next.len() implies (#[trigger] next[i]) == opened[i
        - edge_now + edge] by {
        assert(now[i] == opened[i - edge_now + edge]);
    }
    assert forall|k: int| at - 1 <= k < edge implies reached(
        (#[trigger] opened[k]).1,
        side,
        width,
    ) by {}
    assert forall|i: int| at - 1 <= i < edge_now implies #[trigger] sourced(
        opened,
        at - 1,
        edge,
        next[i].0,
    ) by {
        if i >= at {
            assert(sourced(opened, at, edge, now[i].0));
            let k = choose|k: int| at <= k < edge && (#[trigger] opened[k]).0 == now[i].0;
            assert(opened[k].0 == next[i].0);
        } else {
            assert(opened[at - 1].0 == next[i].0);
        }
    }
    assert forall|k: int| at - 1 <= k < edge implies #[trigger] housed(
        next,
        at - 1,
        edge_now,
        opened[k],
        side,
    ) by {
        if k >= at {
            assert(housed(now, at, edge_now, opened[k], side));
            let i = choose|i: int|
                at <= i < edge_now && holds(now, i, opened[k].0 as int) && (#[trigger] now[i]).1.across(
                    side,
                ) == opened[k].1.across(side);
            assert(next[i] == now[i]);
            assert(holds(next, i, opened[k].0 as int));
        } else {
            lemma_tiling_bounds(next, at - 1);
            assert(holds(next, at - 1, opened[k].0 as int));
            assert(next[at - 1].1.across(side) == opened[k].1.across(side));
        }
    }
    assert forall|i: int| at - 1 <= i < edge_now - 1 implies #[trigger] differs_from_next(
        next,
        i,
    ) by {
        if i >= at {
            assert(differs_from_next(now, i));
        }
    }
    if tidy(now, at) && (at < edge_now || differs_from_next(next, at - 1)) {
        assert forall|i: int| 0 <= i < next.len() - 1 && i != at - 2 implies #[trigger] differs_from_next(
            next,
            i,
        ) by {
            if i != at - 1 {
                assert(differs_from_next(now, i));
            }
        }
    }
    next
}

/// One step of the walk that widens the band above `at` and makes band `at`,
/// which has come to look the same, one with it.
pub(crate) proof fn lemma_walk_merge(
    opened: Seq<(i32, Band)>,
    now: Seq<(i32, Band)>,
    side: Side,
    width: i32,
    at: int,
    edge: int,
    edge_now: int,
) -> (next: Seq<(i32, Band)>)
    requires
        tiling(now),
        walked(opened, now, side, width, at, edge, edge_now),
        0 <= width <= MAX_AU,
        at > 0,
        at < edge_now,
        reached(now[at - 1].1, side, width),
        same_insets(now[at - 1].1.spec_set(side, (-width) as i32), now[at].1),
    ensures
        next == now.update(
            at - 1,
            (
                now[at - 1].0,
                Band {
                    length: (now[at - 1].1.length + now[at].1.length) as i32,
                    ..now[at - 1].1.spec_set(side, (-width) as i32)
                },
            ),
        ).remove(at),
        now[at - 1].1.length + now[at].1.length <= MAX_AU,
        tiling(next),
        walked(opened, next, side, width, at - 1, edge, edge_now - 1),
        tidy(now, at) ==> tidy(next, at - 1),
{
    let band = Band {
        length: (now[at - 1].1.length + now[at].1.length) as i32,
        ..now[at - 1].1.spec_set(side, (-width) as i32)
    };
    let next = now.update(at - 1, (now[at - 1].0, band)).remove(at);
    lemma_tiling_bounds(now, at - 1);
    lemma_tiling_bounds(now, at);
    assert(next.len() == now.len() - 1);
    assert forall|i: int| 0 <= i < next.len() implies #[trigger] well_shaped(next, i) by {
        if i < at {
            assert(well_shaped(now, i));
        } else {
            assert(well_shaped(now, i + 1));
        }
    }
    assert forall|i: int| 0 <= i < next.len() implies #[trigger] meets_next(next, i) by {
        if i < at - 1 {
            assert(meets_next(now, i));
        } else if i == at - 1 {
            assert(meets_next(now, at));
        } else {
            assert(meets_next(now, i + 1));
        }
    }
    assert forall|a: int, b: int| #![trigger next[a], next[b]] 0 <= a < b < next.len() implies next[a].0
        < next[b].0 by {
        let na = if a < at { a } else { a + 1 };
        let nb = if b < at { b } else { b + 1 };
        assert(now[na].0 < now[nb].0);
    }
    assert(now[at - 1] == opened[at - 1]);
    assert forall|i: int| edge_now - 1 <= i < next.len() implies (#[trigger] next[i]) == opened[i - (
    edge_now - 1) + edge] by {
        assert(now[i + 1] == opened[i + 1 - edge_now + edge]);
    }
    assert forall|k: int| at - 1 <= k < edge implies reached(
        (#[trigger] opened[k]).1,
        side,
        width,
    ) by {}
    assert forall|i: int| at - 1 <= i < edge_now - 1 implies (#[trigger] next[i]).1.spec_get(side)
        == -width by {
        if i >= at {
            assert(now[i + 1].1.spec_get(side) == -width);
        }
    }
    assert forall|i: int| at - 1 <= i < edge_now - 1 implies #[trigger] sourced(
        opened,
        at - 1,
        edge,
        next[i].0,
    ) by {
        if i >= at {
            assert(sourced(opened, at, edge, now[i + 1].0));
            let k = choose|k: int| at <= k < edge && (#[trigger] opened[k]).0 == now[i + 1].0;
            assert(opened[k].0 == next[i].0);
        } else {
            assert(opened[at - 1].0 == next[i].0);
        }
    }
    assert forall|k: int| at - 1 <= k < edge implies #[trigger] housed(
        next,
        at - 1,
        edge_now - 1,
        opened[k],
        side,
    ) by {
        if k >= at {
            assert(housed(now, at, edge_now, opened[k], side));
            let i = choose|i: int|
                at <= i < edge_now && holds(now, i, opened[k].0 as int) && (#[trigger] now[i]).1.across(
                    side,
                ) == opened[k].1.across(side);
            if i == at {
                assert(holds(next, at - 1, opened[k].0 as int));
                assert(next[at - 1].1.across(side) == opened[k].1.across(side));
            } else {
                assert(next[i - 1] == now[i]);
                assert(holds(next, i - 1, opened[k].0 as int));
            }
        } else {
            assert(holds(next, at - 1, opened[k].0 as int));
            assert(next[at - 1].1.across(side) == opened[k].1.across(side));
        }
    }
    assert forall|i: int| at - 1 <= i < edge_now - 2 implies #[trigger] differs_from_next(
        next,
        i,
    ) by {
        assert(differs_from_next(now, i + 1));
    }
    if tidy(now, at) {
        assert forall|i: int| 0 <= i < next.len() - 1 && i != at - 2 implies #[trigger] differs_from_next(
            next,
            i,
        ) by {
            if i < at - 1 {
                assert(differs_from_next(now, i));
            } else {
                assert(differs_from_next(now, i + 1));
            }
        }
    }
    next
}

/// The band of `s` that band `a` of the cut outline goes back to.
pub(crate) open spec fn origin(s: Seq<(i32, Band)>, i: int, position: i32, a: int) -> int {
    if s[i].0 != position && a > i {
        a - 1
    } else {
        a
    }
}

/// Band `a` of the cut outline has the insets of the band that it goes back
/// to, which held its start before the cut; that is the band that started
/// there, but for the band that the cut has made.
pub(crate) proof fn lemma_cut_entry(s: Seq<(i32, Band)>, i: int, position: i32, a: int)
    requires
        tiling(s),
        holds(s, i, position as int),
        0 <= a < cut(s, i, position).len(),
    ensures
        0 <= origin(s, i, position, a) < s.len(),
        same_insets(cut(s, i, position)[a].1, s[origin(s, i, position, a)].1),
        holds(s, origin(s, i, position, a), cut(s, i, position)[a].0 as int),
        a != cut_index(s, i, position) ==> cut(s, i, position)[a].0 == s[origin(
            s,
            i,
            position,
            a,
        )].0,
        a == cut_index(s, i, position) ==> cut(s, i, position)[a].0 == position,
        band_at(s, cut(s, i, position)[a].0 as int) == s[origin(s, i, position, a)].1,
{
    let t = cut(s, i, position);
    let o = origin(s, i, position, a);
    lemma_tiling_bounds(s, i);
    if s[i].0 != position {
        if a < i {
            assert(t[a] == s[a]);
        } else if a > i + 1 {
            assert(t[a] == s[a - 1]);
        }
    }
    lemma_tiling_bounds(s, o);
    lemma_index_at(s, o, t[a].0 as int);
}

/// The band above band `a` of the cut outline has the insets of the band that
/// held the position right above the start of band `a` before the cut.
pub(crate) proof fn lemma_cut_above(s: Seq<(i32, Band)>, i: int, position: i32, a: int)
    requires
        tiling(s),
        holds(s, i, position as int),
        1 <= a < cut(s, i, position).len(),
    ensures
        same_insets(band_at(s, cut(s, i, position)[a].0 - 1), cut(s, i, position)[a - 1].1),
{
    let t = cut(s, i, position);
    lemma_cut(s, i, position);
    lemma_cut_entry(s, i, position, a - 1);
    lemma_cut_entry(s, i, position, a);
    let above = origin(s, i, position, a - 1);
    lemma_tiling_bounds(t, a);
    lemma_tiling_bounds(t, a - 1);
    lemma_tiling_bounds(s, above);
    lemma_tiling_bounds(s, i);
    assert(t[a - 1].0 < t[a].0);
    // The band above ends where band `a` starts, in the cut outline; before
    // the cut the band that it goes back to ended there or further down.
    assert(end_of(s, above) >= t[a].0) by {
        if s[i].0 != position && a - 1 == i {
            assert(t[a].0 == position);
        } else if s[i].0 != position && a - 1 == i + 1 {
            assert(above == i);
            assert(t[a] == s[a - 1]);
            assert(end_of(t, a - 1) == end_of(s, i));
        } else {
            assert(end_of(t, a - 1) == end_of(s, above));
        }
    }
    lemma_index_at(s, above, t[a].0 - 1);
}

/// A band of the cut outline starts where one did before, or at the cut.
pub(crate) proof fn lemma_cut_starts(s: Seq<(i32, Band)>, i: int, position: i32)
    requires
        tiling(s),
        holds(s, i, position as int),
    ensures
        forall|start: int|
            #![trigger has_start(cut(s, i, position), start)]
            has_start(cut(s, i, position), start) <==> has_start(s, start) || start == position,
{
    let t = cut(s, i, position);
    let fresh = s[i].0 != position;
    lemma_cut(s, i, position);
    assert forall|start: int| #![trigger has_start(t, start)] has_start(t, start) <==> has_start(
        s,
        start,
    ) || start == position by {
        if has_start(t, start) {
            let a = choose|a: int| 0 <= a < t.len() && (#[trigger] t[a]).0 == start;
            lemma_cut_entry(s, i, position, a);
            if a != cut_index(s, i, position) {
                assert(s[origin(s, i, position, a)].0 == start);
            }
        }
        if has_start(s, start) {
            let sa = choose|sa: int| 0 <= sa < s.len() && (#[trigger] s[sa]).0 == start;
            let a = if fresh && sa > i { sa + 1 } else { sa };
            lemma_cut_entry(s, i, position, a);
            if a == cut_index(s, i, position) {
                lemma_edge_start(s, i, position);
            }
            assert(t[a].0 == start);
        }
        if start == position {
            assert(t[cut_index(s, i, position)].0 == start);
        }
    }
}

/// No two neighbours of the cut outline look the same but for the two bands
/// that the cut has made, where none did before.
pub(crate) proof fn lemma_cut_tidy(s: Seq<(i32, Band)>, i: int, position: i32)
    requires
        tiling(s),
        holds(s, i, position as int),
        merged(s),
    ensures
        tidy(cut(s, i, position), cut_index(s, i, position)),
        s[i].0 == position ==> merged(cut(s, i, position)),
{
    let t = cut(s, i, position);
    lemma_cut(s, i, position);
    assert forall|a: int| 0 <= a < t.len() - 1 && a != cut_index(s, i, position)
        - 1 implies #[trigger] differs_from_next(t, a) by {
        lemma_cut_entry(s, i, position, a);
        lemma_cut_entry(s, i, position, a + 1);
        assert(differs_from_next(s, origin(s, i, position, a)));
    }
}

/// Where the walk stands, the band that it has left at `i` between `at` and
/// the lower edge starts where band `k` of the cut outline did, has its inset
/// across from `side`, and was reached.
pub(crate) proof fn lemma_walk_source(
    opened: Seq<(i32, Band)>,
    now: Seq<(i32, Band)>,
    side: Side,
    width: i32,
    at: int,
    edge: int,
    edge_now: int,
    i: int,
) -> (k: int)
    requires
        tiling(now),
        walked(opened, now, side, width, at, edge, edge_now),
        at <= i < edge_now,
    ensures
        at <= k < edge,
        opened[k].0 == now[i].0,
        opened[k].1.across(side) == now[i].1.across(side),
        reached(opened[k].1, side, width),
        now[i].1.spec_get(side) == -width,
{
    assert(sourced(opened, at, edge, now[i].0));
    let k = choose|k: int| at <= k < edge && (#[trigger] opened[k]).0 == now[i].0;
    assert(housed(now, at, edge_now, opened[k], side));
    let h = choose|h: int|
        at <= h < edge_now && holds(now, h, opened[k].0 as int) && (#[trigger] now[h]).1.across(side)
            == opened[k].1.across(side);
    lemma_tiling_bounds(now, i);
    lemma_index_at(now, i, now[i].0 as int);
    lemma_index_at(now, h, now[i].0 as int);
    assert(reached(opened[k].1, side, width));
    k
}

/// When the walk is over, no band has more excluded than the bands above it,
/// as before.
pub(crate) proof fn lemma_done_stepped(
    opened: Seq<(i32, Band)>,
    now: Seq<(i32, Band)>,
    side: Side,
    width: i32,
    at: int,
    edge: int,
    edge_now: int,
)
    requires
        tiling(opened),
        stepped(opened),
        tiling(now),
        walked(opened, now, side, width, at, edge, edge_now),
        at == 0 || !reached(now[at - 1].1, side, width),
    ensures
        stepped(now),
{
    assert forall|a: int, b: int| #![trigger now[a], now[b]] 0 <= a < b < now.len() implies now[a].1.left
        <= now[b].1.left && now[a].1.right <= now[b].1.right by {
        // The band of the cut outline that each of the two goes back to.
        let ka = if a < at {
            a
        } else if a < edge_now {
            lemma_walk_source(opened, now, side, width, at, edge, edge_now, a)
        } else {
            a - edge_now + edge
        };
        let kb = if b < at {
            b
        } else if b < edge_now {
            lemma_walk_source(opened, now, side, width, at, edge, edge_now, b)
        } else {
            b - edge_now + edge
        };
        assert(now[a].0 == opened[ka].0 && now[a].1.across(side) == opened[ka].1.across(side));
        assert(now[b].0 == opened[kb].0 && now[b].1.across(side) == opened[kb].1.across(side));
        assert(now[a].0 < now[b].0);
        if ka >= kb {
            if ka > kb {
                assert(opened[kb].0 < opened[ka].0);
            }
            assert(false);
        }
        assert(opened[ka].1.left <= opened[kb].1.left && opened[ka].1.right <= opened[kb].1.right);
        if a < at && at <= b < edge_now {
            assert(now[at - 1] == opened[at - 1]);
            if a < at - 1 {
                assert(opened[a].1.left <= opened[at - 1].1.left && opened[a].1.right <= opened[at
                    - 1].1.right);
            }
        }
    }
    assert(now.last() == opened.last()) by {
        assert(now[now.len() - 1] == opened[now.len() - 1 - edge_now + edge]);
    }
}

/// When the walk is over, every band has the insets that the exclusion leaves
/// at its start.
pub(crate) proof fn lemma_done_insets(
    before: Seq<(i32, Band)>,
    holder: int,
    now: Seq<(i32, Band)>,
    side: Side,
    size: Size,
    at: int,
    edge_now: int,
)
    requires
        outline(before),
        holds(before, holder, size.block as int),
        tiling(now),
        walked(
            cut(before, holder, size.block),
            now,
            side,
            size.inline,
            at,
            cut_index(before, holder, size.block),
            edge_now,
        ),
        at == 0 || !reached(now[at - 1].1, side, size.inline),
    ensures
        forall|i: int|
            0 <= i < now.len() ==> same_insets(
                (#[trigger] now[i]).1,
                if now[i].0 < size.block {
                    widened(band_at(before, now[i].0 as int), side, size.inline)
                } else {
                    band_at(before, now[i].0 as int)
                },
            ),
{
    let opened = cut(before, holder, size.block);
    let edge = cut_index(before, holder, size.block);
    lemma_cut(before, holder, size.block);
    assert forall|i: int| 0 <= i < now.len() implies same_insets(
        (#[trigger] now[i]).1,
        if now[i].0 < size.block {
            widened(band_at(before, now[i].0 as int), side, size.inline)
        } else {
            band_at(before, now[i].0 as int)
        },
    ) by {
        if i < at {
            assert(now[i] == opened[i]);
            assert(now[at - 1] == opened[at - 1]);
            assert(opened[i].0 < opened[edge].0);
            if i < at - 1 {
                assert(opened[i].1.left <= opened[at - 1].1.left && opened[i].1.right <= opened[at
                    - 1].1.right);
            }
            lemma_cut_entry(before, holder, size.block, i);
        } else if i < edge_now {
            let k = lemma_walk_source(opened, now, side, size.inline, at, edge, edge_now, i);
            assert(opened[k].0 < opened[edge].0);
            lemma_cut_entry(before, holder, size.block, k);
        } else {
            let k = i - edge_now + edge;
            assert(now[i] == opened[k]);
            if k > edge {
                assert(opened[edge].0 < opened[k].0);
            }
            lemma_cut_entry(before, holder, size.block, k);
        }
    }
}

/// When the walk is over, no band starts at a position that the exclusion has
/// absorbed.
pub(crate) proof fn lemma_done_kept(
    before: Seq<(i32, Band)>,
    holder: int,
    now: Seq<(i32, Band)>,
    side: Side,
    size: Size,
    at: int,
    edge_now: int,
    i: int,
)
    requires
        outline(before),
        holds(before, holder, size.block as int),
        tiling(now),
        walked(
            cut(before, holder, size.block),
            now,
            side,
            size.inline,
            at,
            cut_index(before, holder, size.block),
            edge_now,
        ),
        at == 0 || !reached(now[at - 1].1, side, size.inline),
        0 <= i < now.len(),
    ensures
        has_start(cut(before, holder, size.block), now[i].0 as int),
        !absorbed(before, side, size, now[i].0 as int),
{
    let opened = cut(before, holder, size.block);
    let edge = cut_index(before, holder, size.block);
    let width = size.inline;
    lemma_cut(before, holder, size.block);
    lemma_tiling_bounds(now, i);
    if i < at {
        assert(now[i] == opened[i]);
        assert(now[at - 1] == opened[at - 1]);
        if i < at - 1 {
            assert(opened[i].1.left <= opened[at - 1].1.left && opened[i].1.right <= opened[at - 1].1.right);
        }
        lemma_cut_entry(before, holder, size.block, i);
    } else if i < edge_now {
        let k = lemma_walk_source(opened, now, side, width, at, edge, edge_now, i);
        assert(opened[at].0 == now[at].0);
        if i == at {
            if k != at {
                assert(opened[at].0 < opened[k].0 || opened[k].0 < opened[at].0);
            }
            if at > 0 {
                assert(now[at - 1] == opened[at - 1]);
                lemma_cut_above(before, holder, size.block, at);
            }
        } else {
            // The band above is one that the walk has widened too.
            assert(now[at].0 < now[i].0);
            if k <= at {
                if k < at {
                    assert(opened[k].0 < opened[at].0);
                }
                assert(false);
            }
            let above = lemma_walk_above(opened, now, side, width, at, edge, edge_now, i, k);
            assert(differs_from_next(now, i - 1));
            assert(now[i - 1].1.spec_get(side) == -width);
            assert(now[i].1.spec_get(side) == -width);
            lemma_cut_entry(before, holder, size.block, k);
            lemma_cut_above(before, holder, size.block, k);
        }
    } else {
        let k = i - edge_now + edge;
        assert(now[i] == opened[k]);
        if k > edge {
            assert(opened[edge].0 < opened[k].0);
        }
    }
}

/// Where band `i` that the walk has left starts where band `k` of the cut
/// outline did, below the band at which the walk stands, the band above `i`
/// holds the start of band `k - 1` and has its inset across from `side`.
pub(crate) proof fn lemma_walk_above(
    opened: Seq<(i32, Band)>,
    now: Seq<(i32, Band)>,
    side: Side,
    width: i32,
    at: int,
    edge: int,
    edge_now: int,
    i: int,
    k: int,
)
    requires
        tiling(opened),
        tiling(now),
        walked(opened, now, side, width, at, edge, edge_now),
        at < i < edge_now,
        at < k < edge,
        opened[k].0 == now[i].0,
    ensures
        now[i - 1].1.across(side) == opened[k - 1].1.across(side),
{
    assert(housed(now, at, edge_now, opened[k - 1], side));
    let h = choose|h: int|
        at <= h < edge_now && holds(now, h, opened[k - 1].0 as int) && (#[trigger] now[h]).1.across(
            side,
        ) == opened[k - 1].1.across(side);
    assert(opened[k - 1].0 < opened[k].0);
    lemma_tiling_bounds(opened, k);
    lemma_tiling_bounds(now, h);
    lemma_tiling_bounds(now, i - 1);
    if h >= i {
        if h > i {
            assert(now[i].0 < now[h].0);
        }
        assert(false);
    }
    if h < i - 1 {
        // The band below `h` would start strictly between two neighbours of
        // the cut outline.
        let q = lemma_walk_source(opened, now, side, width, at, edge, edge_now, h + 1);
        assert(now[h + 1].0 < now[i].0);
        if q >= k {
            if q > k {
                assert(opened[k].0 < opened[q].0);
            }
        } else if q < k - 1 {
            assert(opened[q].0 < opened[k - 1].0);
        }
        assert(false);
    }
}

/// When the walk is over, a band starts wherever one did in the cut outline,
/// but for the positions that the exclusion has absorbed.
pub(crate) proof fn lemma_done_unabsorbed(
    before: Seq<(i32, Band)>,
    holder: int,
    now: Seq<(i32, Band)>,
    side: Side,
    size: Size,
    at: int,
    edge_now: int,
    k: int,
)
    requires
        outline(before),
        holds(before, holder, size.block as int),
        tiling(now),
        walked(
            cut(before, holder, size.block),
            now,
            side,
            size.inline,
            at,
            cut_index(before, holder, size.block),
            edge_now,
        ),
        0 <= k < cut(before, holder, size.block).len(),
        !absorbed(before, side, size, cut(before, holder, size.block)[k].0 as int),
    ensures
        has_start(now, cut(before, holder, size.block)[k].0 as int),
{
    let opened = cut(before, holder, size.block);
    let edge = cut_index(before, holder, size.block);
    let width = size.inline;
    let position = opened[k].0;
    lemma_cut(before, holder, size.block);
    if k < at {
        assert(now[k] == opened[k]);
    } else if k == at {
        assert(now[at].0 == position);
    } else if k >= edge {
        assert(now[k - edge + edge_now] == opened[k]);
    } else {
        lemma_tiling_bounds(opened, k);
        assert(opened[k].0 < opened[edge].0);
        assert(reached(opened[k].1, side, width));
        assert(reached(opened[k - 1].1, side, width));
        lemma_cut_entry(before, holder, size.block, k);
        lemma_cut_above(before, holder, size.block, k);
        assert(opened[k].1.across(side) != opened[k - 1].1.across(side));
        assert(housed(now, at, edge_now, opened[k], side));
        let h = choose|h: int|
            at <= h < edge_now && holds(now, h, opened[k].0 as int) && (#[trigger] now[h]).1.across(
                side,
            ) == opened[k].1.across(side);
        if now[h].0 != position {
            // Band `h` would hold the band above `k` as well.
            let q = lemma_walk_source(opened, now, side, width, at, edge, edge_now, h);
            if q >= k {
                if q > k {
                    assert(opened[k].0 < opened[q].0);
                }
                assert(false);
            }
            if q < k - 1 {
                assert(opened[q].0 < opened[k - 1].0);
            }
            assert(opened[k - 1].0 < opened[k].0);
            assert(holds(now, h, opened[k - 1].0 as int));
            assert(housed(now, at, edge_now, opened[k - 1], side));
            let g = choose|g: int|
                at <= g < edge_now && holds(now, g, opened[k - 1].0 as int) && (
                #[trigger] now[g]).1.across(side) == opened[k - 1].1.across(side);
            lemma_index_at(now, h, opened[k - 1].0 as int);
            lemma_index_at(now, g, opened[k - 1].0 as int);
            assert(false);
        }
        assert(now[h].0 == position);
    }
}

/// When the walk is over, the bands start where they did before and at the
/// lower edge of the exclusion, but for the starts that the exclusion has
/// absorbed.
pub(crate) proof fn lemma_done_starts(
    before: Seq<(i32, Band)>,
    holder: int,
    now: Seq<(i32, Band)>,
    side: Side,
    size: Size,
    at: int,
    edge_now: int,
)
    requires
        outline(before),
        holds(before, holder, size.block as int),
        tiling(now),
        walked(
            cut(before, holder, size.block),
            now,
            side,
            size.inline,
            at,
            cut_index(before, holder, size.block),
            edge_now,
        ),
        at == 0 || !reached(now[at - 1].1, side, size.inline),
    ensures
        forall|position: int|
            #![trigger has_start(now, position)]
            has_start(now, position) <==> (has_start(before, position) || position == size.block)
                && !absorbed(before, side, size, position),
{
    let opened = cut(before, holder, size.block);
    lemma_cut_starts(before, holder, size.block);
    assert forall|position: int| #![trigger has_start(now, position)] has_start(now, position)
        <==> (has_start(before, position) || position == size.block) && !absorbed(
        before,
        side,
        size,
        position,
    ) by {
        if has_start(now, position) {
            let i = choose|i: int| 0 <= i < now.len() && (#[trigger] now[i]).0 == position;
            lemma_done_kept(before, holder, now, side, size, at, edge_now, i);
            assert(has_start(opened, position));
        }
        if (has_start(before, position) || position == size.block) && !absorbed(
            before,
            side,
            size,
            position,
        ) {
            assert(has_start(opened, position));
            let k = choose|k: int| 0 <= k < opened.len() && (#[trigger] opened[k]).0 == position;
            lemma_done_unabsorbed(before, holder, now, side, size, at, edge_now, k);
        }
    }
}

/// When the walk is over and the outline was written with as few bands as it
/// takes before, it is so again, where the exclusion has widened the band
/// right above its lower edge or a band started at that edge before.
pub(crate) proof fn lemma_done_merged(
    before: Seq<(i32, Band)>,
    holder: int,
    now: Seq<(i32, Band)>,
    side: Side,
    size: Size,
    at: int,
    edge_now: int,
)
    requires
        outline(before),
        merged(before),
        has_start(before, size.block as int) || -band_at(before, size.block - 1).spec_get(side)
            < size.inline,
        0 < size.block,
        holds(before, holder, size.block as int),
        tiling(now),
        walked(
            cut(before, holder, size.block),
            now,
            side,
            size.inline,
            at,
            cut_index(before, holder, size.block),
            edge_now,
        ),
        at == 0 || !reached(now[at - 1].1, side, size.inline),
        tidy(now, at),
    ensures
        merged(now),
{
    let opened = cut(before, holder, size.block);
    let edge = cut_index(before, holder, size.block);
    lemma_cut(before, holder, size.block);
    lemma_cut_tidy(before, holder, size.block);
    assert forall|i: int| 0 <= i < now.len() - 1 implies #[trigger] differs_from_next(now, i) by {
        if i == at - 1 {
            assert(now[at - 1] == opened[at - 1]);
            if at < edge_now {
                assert(now[at].1.spec_get(side) == -size.inline);
            } else {
                assert(now[at] == opened[at]);
                lemma_edge_start(before, holder, size.block);
                lemma_cut_above(before, holder, size.block, edge);
                assert(differs_from_next(opened, edge - 1)) by {
                    if has_start(before, size.block as int) {
                        assert(merged(opened));
                    }
                }
            }
        }
    }
}

/// A band of a tiling that holds a position at which a band starts is that
/// band, so the cut there changes nothing.
pub(crate) proof fn lemma_edge_start(s: Seq<(i32, Band)>, i: int, position: i32)
    requires
        tiling(s),
        holds(s, i, position as int),
    ensures
        has_start(s, position as int) ==> s[i].0 == position,
{
    if has_start(s, position as int) {
        let k = choose|k: int| 0 <= k < s.len() && (#[trigger] s[k]).0 == position;
        lemma_tiling_bounds(s, k);
        lemma_index_at(s, k, position as int);
        lemma_index_at(s, i, position as int);
    }
}

/// The band right above the lower edge of an exclusion differs from the band
/// below the edge once it is widened, where the outline was written with as
/// few bands as it takes and the exclusion widens that band in earnest or a
/// band started at the edge before.
pub(crate) proof fn lemma_edge_differs(s: Seq<(i32, Band)>, i: int, side: Side, size: Size)
    requires
        outline(s),
        merged(s),
        0 < size.block,
        holds(s, i, size.block as int),
        has_start(s, size.block as int) || -band_at(s, size.block - 1).spec_get(side)
            < size.inline,
        reached(cut(s, i, size.block)[cut_index(s, i, size.block) - 1].1, side, size.inline),
    ensures
        cut_index(s, i, size.block) > 0,
        !same_insets(
            cut(s, i, size.block)[cut_index(s, i, size.block) - 1].1.spec_set(
                side,
                (-size.inline) as i32,
            ),
            cut(s, i, size.block)[cut_index(s, i, size.block)].1,
        ),
{
    let t = cut(s, i, size.block);
    let edge = cut_index(s, i, size.block);
    lemma_cut(s, i, size.block);
    lemma_cut_tidy(s, i, size.block);
    lemma_edge_start(s, i, size.block);
    lemma_tiling_bounds(s, i);
    if edge == 0 {
        assert(t[0].0 == 0);
    }
    lemma_cut_above(s, i, size.block, edge);
    assert(t[edge - 1].1.left <= t[edge].1.left && t[edge - 1].1.right <= t[edge].1.right);
    if -t[edge - 1].1.spec_get(side) == size.inline {
        assert(merged(t));
        assert(differs_from_next(t, edge - 1));
    }
}

} // verus!
