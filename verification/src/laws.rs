//! What holds of the distance field over many ticks: it never rises, it
//! settles on the true hop count to the nearest office, and it stays at the
//! sentinel where no office can be reached.

use vstd::prelude::*;
use crate::building::{Cell, BIG_DIST};
use crate::grid::{
    cell_index, coord_of, in_bounds, is_grid, lemma_coord_of_index, lemma_index_of_coord,
};
use crate::rules::{
    cells_after, is_no_further, keeps_layout, lemma_step_at, nearest_offer, offered_at,
    relaxed_distance, total_jobs, total_workers, unresolved,
};

verus! {

/// Whether a road lies at `(x, y)`.
pub open spec fn is_road_at(cells: Seq<Cell>, size: int, x: int, y: int) -> bool {
    in_bounds(size, x, y) && cells[cell_index(size, x, y)].building is Road
}

/// Whether an office lies at `(x, y)`.
pub open spec fn is_office_at(cells: Seq<Cell>, size: int, x: int, y: int) -> bool {
    in_bounds(size, x, y) && cells[cell_index(size, x, y)].building is Office
}

/// Whether one of the four neighbours of `(x, y)` is an office.
pub open spec fn beside_office(cells: Seq<Cell>, size: int, x: int, y: int) -> bool {
    ||| is_office_at(cells, size, x, y - 1)
    ||| is_office_at(cells, size, x - 1, y)
    ||| is_office_at(cells, size, x + 1, y)
    ||| is_office_at(cells, size, x, y + 1)
}

/// Whether `b` is one of the four neighbours of `a`.
pub open spec fn adjacent(a: (int, int), b: (int, int)) -> bool {
    ||| b == (a.0, a.1 - 1)
    ||| b == (a.0 - 1, a.1)
    ||| b == (a.0 + 1, a.1)
    ||| b == (a.0, a.1 + 1)
}

/// Whether the road after the `i`-th of `route` lies beside it.
pub open spec fn is_hop(route: Seq<(int, int)>, i: int) -> bool {
    adjacent(route[i], route[i + 1])
}

/// A route to work: roads, each beside the next, the last one beside an
/// office. Its length is the number of hops from its first road to that
/// office.
pub open spec fn is_route(cells: Seq<Cell>, size: int, route: Seq<(int, int)>) -> bool {
    &&& route.len() >= 1
    &&& forall|i: int|
        0 <= i < route.len() ==> is_road_at(cells, size, (#[trigger] route[i]).0, route[i].1)
    &&& forall|i: int| 0 <= i < route.len() - 1 ==> #[trigger] is_hop(route, i)
    &&& beside_office(cells, size, route.last().0, route.last().1)
}

/// A route to work that starts at `(x, y)`.
pub open spec fn is_route_from(
    cells: Seq<Cell>,
    size: int,
    route: Seq<(int, int)>,
    x: int,
    y: int,
) -> bool {
    is_route(cells, size, route) && route[0] == (x, y)
}

/// Whether `hops` is the true distance of `(x, y)` to the nearest office:
/// some route from there has that many hops, and none has fewer.
pub open spec fn is_hop_distance(cells: Seq<Cell>, size: int, x: int, y: int, hops: int) -> bool {
    &&& exists|route: Seq<(int, int)>|
        #[trigger] is_route_from(cells, size, route, x, y) && route.len() == hops
    &&& forall|route: Seq<(int, int)>|
        #[trigger] is_route_from(cells, size, route, x, y) ==> route.len() >= hops
}

/// Whether no route leads from `(x, y)` to any office.
pub open spec fn is_cut_off(cells: Seq<Cell>, size: int, x: int, y: int) -> bool {
    forall|route: Seq<(int, int)>| !#[trigger] is_route_from(cells, size, route, x, y)
}

/// Where a route leads from `(x, y)` to an office, a shortest one does: the
/// true distance exists, and it is at most the length of the route given.
pub proof fn lemma_hop_distance_exists(
    cells: Seq<Cell>,
    size: int,
    x: int,
    y: int,
    route: Seq<(int, int)>,
) -> (hops: int)
    requires
        is_route_from(cells, size, route, x, y),
    ensures
        is_hop_distance(cells, size, x, y, hops),
        1 <= hops <= route.len(),
    decreases route.len(),
{
    if exists|shorter: Seq<(int, int)>|
        #[trigger] is_route_from(cells, size, shorter, x, y) && shorter.len() < route.len() {
        let shorter = choose|shorter: Seq<(int, int)>|
            #[trigger] is_route_from(cells, size, shorter, x, y) && shorter.len() < route.len();
        lemma_hop_distance_exists(cells, size, x, y, shorter)
    } else {
        route.len() as int
    }
}

/// A position has one true distance at most.
pub proof fn lemma_hop_distance_is_unique(
    cells: Seq<Cell>,
    size: int,
    x: int,
    y: int,
    one: int,
    other: int,
)
    requires
        is_hop_distance(cells, size, x, y, one),
        is_hop_distance(cells, size, x, y, other),
    ensures
        one == other,
{
}

/// The distance held at `(x, y)` after `ticks` ticks from `start`: a road's
/// distance, the sentinel for any other building.
pub open spec fn distance_after(start: Seq<Cell>, size: int, ticks: nat, x: int, y: int) -> int {
    cells_after(start, size, ticks)[cell_index(size, x, y)].building.road_distance()
}

/// Ticking moves no building and changes no population and no jobs: after
/// any number of ticks each cell holds the kind and payload that it started
/// with. Only a road's distance may differ.
pub proof fn lemma_layout_is_static(start: Seq<Cell>, size: int, ticks: nat)
    requires
        is_grid(start, size),
    ensures
        is_grid(cells_after(start, size, ticks), size),
        keeps_layout(cells_after(start, size, ticks), start),
    decreases ticks,
{
    if ticks > 0 {
        let before = cells_after(start, size, (ticks - 1) as nat);
        let after = cells_after(start, size, ticks);
        lemma_layout_is_static(start, size, (ticks - 1) as nat);
        assert forall|i: int| 0 <= i < after.len() implies (#[trigger] after[i])
            .building.same_layout(start[i].building) by {
            lemma_coord_of_index(size, i);
            assert(before[i].building.same_layout(start[i].building));
        }
    }
}

/// The buildings found at a coordinate after any number of ticks are of the
/// kind found there at the start.
pub proof fn lemma_kind_is_static(start: Seq<Cell>, size: int, ticks: nat, x: int, y: int)
    requires
        is_grid(start, size),
    ensures
        is_road_at(cells_after(start, size, ticks), size, x, y) == is_road_at(start, size, x, y),
        is_office_at(cells_after(start, size, ticks), size, x, y) == is_office_at(
            start,
            size,
            x,
            y,
        ),
{
    lemma_layout_is_static(start, size, ticks);
    if in_bounds(size, x, y) {
        lemma_index_of_coord(size, x, y);
        let i = cell_index(size, x, y);
        assert(cells_after(start, size, ticks)[i].building.same_layout(start[i].building));
    }
}

/// No offer is negative, and a relaxed distance lies between 1 and the
/// sentinel, whatever the neighbours hold.
proof fn lemma_offer_in_range(cells: Seq<Cell>, size: int, x: int, y: int)
    ensures
        0 <= offered_at(cells, size, x, y),
        0 <= nearest_offer(cells, size, x, y),
        1 <= relaxed_distance(cells, size, x, y) <= BIG_DIST,
{
    assert(0 <= offered_at(cells, size, x, y - 1));
    assert(0 <= offered_at(cells, size, x - 1, y));
    assert(0 <= offered_at(cells, size, x + 1, y));
    assert(0 <= offered_at(cells, size, x, y + 1));
}

/// The distance of a road after one more tick is the relaxed distance of the
/// frame before.
pub proof fn lemma_distance_step(start: Seq<Cell>, size: int, ticks: nat, x: int, y: int)
    requires
        is_grid(start, size),
        is_road_at(start, size, x, y),
    ensures
        distance_after(start, size, ticks + 1, x, y) == relaxed_distance(
            cells_after(start, size, ticks),
            size,
            x,
            y,
        ),
        1 <= distance_after(start, size, ticks + 1, x, y) <= BIG_DIST,
{
    let before = cells_after(start, size, ticks);
    lemma_kind_is_static(start, size, ticks, x, y);
    lemma_step_at(before, size, x, y);
    lemma_offer_in_range(before, size, x, y);
}

/// No distance ever exceeds the sentinel.
pub proof fn lemma_distance_is_capped(start: Seq<Cell>, size: int, ticks: nat, x: int, y: int)
    requires
        is_grid(start, size),
        unresolved(start),
        in_bounds(size, x, y),
    ensures
        distance_after(start, size, ticks, x, y) <= BIG_DIST,
{
    lemma_index_of_coord(size, x, y);
    lemma_kind_is_static(start, size, ticks, x, y);
    if is_road_at(start, size, x, y) {
        if ticks > 0 {
            lemma_distance_step(start, size, (ticks - 1) as nat, x, y);
        } else {
            assert(start[cell_index(size, x, y)].building is Road);
        }
    }
}

/// The smallest offer is no larger than the offer of any one neighbour.
proof fn lemma_nearest_is_least(cells: Seq<Cell>, size: int, x: int, y: int, p: (int, int))
    requires
        adjacent((x, y), p),
    ensures
        nearest_offer(cells, size, x, y) <= offered_at(cells, size, p.0, p.1),
{
}

/// The smallest offer is the offer of one of the four neighbours.
proof fn lemma_nearest_is_offered(cells: Seq<Cell>, size: int, x: int, y: int) -> (p: (int, int))
    ensures
        adjacent((x, y), p),
        nearest_offer(cells, size, x, y) == offered_at(cells, size, p.0, p.1),
{
    let least = nearest_offer(cells, size, x, y);
    if least == offered_at(cells, size, x, y - 1) {
        (x, y - 1)
    } else if least == offered_at(cells, size, x - 1, y) {
        (x - 1, y)
    } else if least == offered_at(cells, size, x + 1, y) {
        (x + 1, y)
    } else {
        (x, y + 1)
    }
}

/// A road beside an office is offered the distance 0.
proof fn lemma_office_offers_zero(cells: Seq<Cell>, size: int, x: int, y: int)
    requires
        beside_office(cells, size, x, y),
    ensures
        nearest_offer(cells, size, x, y) == 0,
{
    lemma_offer_in_range(cells, size, x, y);
}

/// A road beside a road is offered no more than that road's distance.
proof fn lemma_road_offers_its_distance(
    cells: Seq<Cell>,
    size: int,
    x: int,
    y: int,
    p: (int, int),
)
    requires
        adjacent((x, y), p),
        is_road_at(cells, size, p.0, p.1),
    ensures
        nearest_offer(cells, size, x, y) <= cells[cell_index(
            size,
            p.0,
            p.1,
        )].building.road_distance(),
{
    lemma_nearest_is_least(cells, size, x, y, p);
}

/// A position beside an office stays beside an office.
proof fn lemma_beside_office_is_static(start: Seq<Cell>, size: int, ticks: nat, x: int, y: int)
    requires
        is_grid(start, size),
    ensures
        beside_office(cells_after(start, size, ticks), size, x, y) == beside_office(
            start,
            size,
            x,
            y,
        ),
{
    lemma_kind_is_static(start, size, ticks, x, y - 1);
    lemma_kind_is_static(start, size, ticks, x - 1, y);
    lemma_kind_is_static(start, size, ticks, x + 1, y);
    lemma_kind_is_static(start, size, ticks, x, y + 1);
}

/// What is left of a route after its first road is a route again.
proof fn lemma_rest_of_route(cells: Seq<Cell>, size: int, route: Seq<(int, int)>)
    requires
        is_route(cells, size, route),
        route.len() >= 2,
    ensures
        is_route_from(
            cells,
            size,
            route.subrange(1, route.len() as int),
            route[1].0,
            route[1].1,
        ),
        route.subrange(1, route.len() as int).len() == route.len() - 1,
        adjacent(route[0], route[1]),
{
    let rest = route.subrange(1, route.len() as int);
    assert(is_hop(route, 0));
    assert(rest.last() == route.last());
    assert forall|i: int| 0 <= i < rest.len() implies is_road_at(
        cells,
        size,
        (#[trigger] rest[i]).0,
        rest[i].1,
    ) by {
        assert(rest[i] == route[i + 1]);
    }
    assert forall|i: int| 0 <= i < rest.len() - 1 implies #[trigger] is_hop(rest, i) by {
        assert(rest[i] == route[i + 1]);
        assert(rest[i + 1] == route[i + 1 + 1]);
        assert(is_hop(route, i + 1));
    }
}

/// A route of at most `ticks` hops bounds the distance of its first road
/// after `ticks` ticks: once a route has had the time to be walked, the
/// distance is no larger than the route is long.
pub proof fn lemma_route_bounds_distance(
    start: Seq<Cell>,
    size: int,
    route: Seq<(int, int)>,
    ticks: nat,
)
    requires
        is_grid(start, size),
        is_route(start, size, route),
        route.len() <= ticks,
    ensures
        distance_after(start, size, ticks, route[0].0, route[0].1) <= route.len(),
    decreases ticks,
{
    let x = route[0].0;
    let y = route[0].1;
    let earlier = (ticks - 1) as nat;
    let before = cells_after(start, size, earlier);
    assert(is_road_at(start, size, route[0].0, route[0].1));
    lemma_distance_step(start, size, earlier, x, y);
    if route.len() == 1 {
        assert(route.last() == route[0]);
        lemma_beside_office_is_static(start, size, earlier, x, y);
        lemma_office_offers_zero(before, size, x, y);
    } else {
        let rest = route.subrange(1, route.len() as int);
        let p = route[1];
        lemma_rest_of_route(start, size, route);
        lemma_route_bounds_distance(start, size, rest, earlier);
        lemma_kind_is_static(start, size, earlier, p.0, p.1);
        lemma_road_offers_its_distance(before, size, x, y, p);
    }
}

/// A distance below the sentinel is the length of a route: the distance
/// field never claims a path that is not there, nor one that the ticks made
/// so far could not have walked.
pub proof fn lemma_distance_has_route(
    start: Seq<Cell>,
    size: int,
    ticks: nat,
    x: int,
    y: int,
) -> (route: Seq<(int, int)>)
    requires
        is_grid(start, size),
        unresolved(start),
        is_road_at(start, size, x, y),
        distance_after(start, size, ticks, x, y) < BIG_DIST,
    ensures
        is_route_from(start, size, route, x, y),
        route.len() == distance_after(start, size, ticks, x, y),
        route.len() <= ticks,
    decreases ticks,
{
    lemma_index_of_coord(size, x, y);
    if ticks == 0 {
        assert(start[cell_index(size, x, y)].building is Road);
        assert(false);
        Seq::empty()
    } else {
        let earlier = (ticks - 1) as nat;
        let before = cells_after(start, size, earlier);
        lemma_distance_step(start, size, earlier, x, y);
        let p = lemma_nearest_is_offered(before, size, x, y);
        let least = nearest_offer(before, size, x, y);
        assert(least + 1 < BIG_DIST);
        assert(offered_at(before, size, p.0, p.1) == least);
        lemma_kind_is_static(start, size, earlier, p.0, p.1);
        assert(in_bounds(size, p.0, p.1));
        let neighbour = before[cell_index(size, p.0, p.1)].building;
        if neighbour is Office {
            assert(is_office_at(start, size, p.0, p.1));
            let route = seq![(x, y)];
            assert(route.last() == (x, y));
            assert(beside_office(start, size, x, y));
            assert(is_route(start, size, route));
            route
        } else {
            assert(neighbour is Road);
            assert(is_road_at(start, size, p.0, p.1));
            assert(distance_after(start, size, earlier, p.0, p.1) == least);
            let rest = lemma_distance_has_route(start, size, earlier, p.0, p.1);
            let route = seq![(x, y)] + rest;
            assert(route[0] == (x, y));
            assert(route.last() == rest.last());
            assert forall|i: int| 0 <= i < route.len() implies is_road_at(
                start,
                size,
                (#[trigger] route[i]).0,
                route[i].1,
            ) by {
                if i > 0 {
                    assert(route[i] == rest[i - 1]);
                }
            }
            assert forall|i: int| 0 <= i < route.len() - 1 implies #[trigger] is_hop(
                route,
                i,
            ) by {
                assert(route[i + 1] == rest[i]);
                if i > 0 {
                    assert(route[i] == rest[i - 1]);
                    assert(is_hop(rest, i - 1));
                }
            }
            assert(is_route(start, size, route));
            route
        }
    }
}

/// A road beside an office is one hop from work after the first tick, and
/// after every later one.
pub proof fn lemma_road_beside_office(start: Seq<Cell>, size: int, x: int, y: int, ticks: nat)
    requires
        is_grid(start, size),
        is_road_at(start, size, x, y),
        beside_office(start, size, x, y),
        ticks >= 1,
    ensures
        distance_after(start, size, ticks, x, y) == 1,
{
    let earlier = (ticks - 1) as nat;
    lemma_distance_step(start, size, earlier, x, y);
    lemma_beside_office_is_static(start, size, earlier, x, y);
    lemma_office_offers_zero(cells_after(start, size, earlier), size, x, y);
}

/// For a fixed layout no distance ever rises: after each tick every road is
/// at most as far from work as it was before the tick.
pub proof fn lemma_distance_never_increases(start: Seq<Cell>, size: int, ticks: nat)
    requires
        is_grid(start, size),
        unresolved(start),
    ensures
        forall|x: int, y: int|
            in_bounds(size, x, y) ==> #[trigger] distance_after(start, size, ticks + 1, x, y)
                <= distance_after(start, size, ticks, x, y),
        is_no_further(cells_after(start, size, ticks + 1), cells_after(start, size, ticks)),
{
    let before = cells_after(start, size, ticks);
    let after = cells_after(start, size, ticks + 1);
    lemma_layout_is_static(start, size, ticks);
    lemma_layout_is_static(start, size, ticks + 1);
    assert forall|x: int, y: int| in_bounds(size, x, y) implies #[trigger] distance_after(
        start,
        size,
        ticks + 1,
        x,
        y,
    ) <= distance_after(start, size, ticks, x, y) by {
        lemma_kind_is_static(start, size, ticks, x, y);
        lemma_kind_is_static(start, size, ticks + 1, x, y);
        lemma_distance_is_capped(start, size, ticks + 1, x, y);
        if is_road_at(start, size, x, y) && distance_after(start, size, ticks, x, y) < BIG_DIST {
            let route = lemma_distance_has_route(start, size, ticks, x, y);
            lemma_route_bounds_distance(start, size, route, ticks + 1);
        }
    }
    assert forall|i: int| 0 <= i < after.len() implies (#[trigger] after[i])
        .building.road_distance() <= before[i].building.road_distance() by {
        lemma_coord_of_index(size, i);
        let (x, y) = coord_of(size, i);
        assert(distance_after(start, size, ticks + 1, x, y) <= distance_after(
            start,
            size,
            ticks,
            x,
            y,
        ));
    }
}

/// The distance field settles on the true distance. A road whose shortest
/// route to an office has `hops` hops, `hops` no larger than the sentinel,
/// stays at the sentinel for the first `hops - 1` ticks and holds exactly
/// `hops` from tick `hops` on.
pub proof fn lemma_distance_converges(
    start: Seq<Cell>,
    size: int,
    x: int,
    y: int,
    hops: int,
    ticks: nat,
)
    requires
        is_grid(start, size),
        unresolved(start),
        is_hop_distance(start, size, x, y, hops),
        hops <= BIG_DIST,
    ensures
        1 <= hops,
        ticks >= hops ==> distance_after(start, size, ticks, x, y) == hops,
        ticks < hops ==> distance_after(start, size, ticks, x, y) == BIG_DIST,
{
    let shortest = choose|route: Seq<(int, int)>|
        #[trigger] is_route_from(start, size, route, x, y) && route.len() == hops;
    assert(is_road_at(start, size, shortest[0].0, shortest[0].1));
    lemma_distance_is_capped(start, size, ticks, x, y);
    if distance_after(start, size, ticks, x, y) < BIG_DIST {
        let route = lemma_distance_has_route(start, size, ticks, x, y);
        assert(route.len() >= hops);
    }
    if ticks >= hops {
        lemma_route_bounds_distance(start, size, shortest, ticks);
    }
}

/// A road whose shortest route to an office has more hops than the sentinel
/// can count is held at the sentinel: the distance saturates, it never wraps.
pub proof fn lemma_far_road_stays_unresolved(
    start: Seq<Cell>,
    size: int,
    x: int,
    y: int,
    hops: int,
    ticks: nat,
)
    requires
        is_grid(start, size),
        unresolved(start),
        is_hop_distance(start, size, x, y, hops),
        hops > BIG_DIST,
    ensures
        distance_after(start, size, ticks, x, y) == BIG_DIST,
{
    let shortest = choose|route: Seq<(int, int)>|
        #[trigger] is_route_from(start, size, route, x, y) && route.len() == hops;
    assert(is_road_at(start, size, shortest[0].0, shortest[0].1));
    lemma_distance_is_capped(start, size, ticks, x, y);
    if distance_after(start, size, ticks, x, y) < BIG_DIST {
        let route = lemma_distance_has_route(start, size, ticks, x, y);
        assert(route.len() >= hops);
    }
}

/// On its way to the true distance a road's distance drops: where the true
/// distance `hops` lies below the sentinel, the tick numbered `hops` lowers
/// the distance, from the sentinel to `hops`.
pub proof fn lemma_distance_drops(start: Seq<Cell>, size: int, x: int, y: int, hops: int)
    requires
        is_grid(start, size),
        unresolved(start),
        is_hop_distance(start, size, x, y, hops),
        hops < BIG_DIST,
    ensures
        1 <= hops,
        distance_after(start, size, hops as nat, x, y) < distance_after(
            start,
            size,
            (hops - 1) as nat,
            x,
            y,
        ),
{
    lemma_distance_converges(start, size, x, y, hops, hops as nat);
    lemma_distance_converges(start, size, x, y, hops, (hops - 1) as nat);
}

/// A road from which no route leads to any office stays at the sentinel,
/// however many ticks are made.
pub proof fn lemma_cut_off_stays_unresolved(
    start: Seq<Cell>,
    size: int,
    x: int,
    y: int,
    ticks: nat,
)
    requires
        is_grid(start, size),
        unresolved(start),
        in_bounds(size, x, y),
        is_cut_off(start, size, x, y),
    ensures
        distance_after(start, size, ticks, x, y) == BIG_DIST,
{
    lemma_distance_is_capped(start, size, ticks, x, y);
    lemma_kind_is_static(start, size, ticks, x, y);
    if is_road_at(start, size, x, y) && distance_after(start, size, ticks, x, y) < BIG_DIST {
        let route = lemma_distance_has_route(start, size, ticks, x, y);
        assert(is_route_from(start, size, route, x, y));
    }
}

/// Cells of one layout add up to the same jobs and the same workers.
pub proof fn lemma_totals_follow_layout(later: Seq<Cell>, earlier: Seq<Cell>)
    requires
        keeps_layout(later, earlier),
    ensures
        total_jobs(later) == total_jobs(earlier),
        total_workers(later) == total_workers(earlier),
    decreases later.len(),
{
    if later.len() > 0 {
        let last = later.len() - 1;
        assert(later[last].building.same_layout(earlier[last].building));
        assert forall|i: int| 0 <= i < last implies (#[trigger] later.drop_last()[i])
            .building.same_layout(earlier.drop_last()[i].building) by {
            assert(later[i].building.same_layout(earlier[i].building));
        }
        lemma_totals_follow_layout(later.drop_last(), earlier.drop_last());
    }
}

/// For a fixed layout the counters are fixed: over the cells of any tick the
/// jobs and the workers add up to what they add up to at the start.
pub proof fn lemma_totals_are_static(start: Seq<Cell>, size: int, ticks: nat)
    requires
        is_grid(start, size),
    ensures
        total_jobs(cells_after(start, size, ticks)) == total_jobs(start),
        total_workers(cells_after(start, size, ticks)) == total_workers(start),
{
    lemma_layout_is_static(start, size, ticks);
    lemma_totals_follow_layout(cells_after(start, size, ticks), start);
}

/// The routes of a layout are the routes of every later frame: ticking
/// opens no route and closes none.
pub proof fn lemma_routes_are_static(
    start: Seq<Cell>,
    size: int,
    ticks: nat,
    route: Seq<(int, int)>,
)
    requires
        is_grid(start, size),
    ensures
        is_route(cells_after(start, size, ticks), size, route) == is_route(start, size, route),
{
    let later = cells_after(start, size, ticks);
    if route.len() >= 1 {
        lemma_beside_office_is_static(start, size, ticks, route.last().0, route.last().1);
        assert forall|i: int| 0 <= i < route.len() implies is_road_at(
            later,
            size,
            (#[trigger] route[i]).0,
            route[i].1,
        ) == is_road_at(start, size, route[i].0, route[i].1) by {
            lemma_kind_is_static(start, size, ticks, route[i].0, route[i].1);
        }
    }
}

/// The true distance of a road is a matter of the layout alone: it is the
/// same in every frame.
pub proof fn lemma_hop_distance_is_static(
    start: Seq<Cell>,
    size: int,
    ticks: nat,
    x: int,
    y: int,
    hops: int,
)
    requires
        is_grid(start, size),
    ensures
        is_hop_distance(cells_after(start, size, ticks), size, x, y, hops) == is_hop_distance(
            start,
            size,
            x,
            y,
            hops,
        ),
        is_cut_off(cells_after(start, size, ticks), size, x, y) == is_cut_off(start, size, x, y),
{
    let later = cells_after(start, size, ticks);
    assert forall|route: Seq<(int, int)>|
        #![trigger is_route_from(later, size, route, x, y)]
        #![trigger is_route_from(start, size, route, x, y)]
        is_route_from(later, size, route, x, y) == is_route_from(start, size, route, x, y) by {
        lemma_routes_are_static(start, size, ticks, route);
    }
}

} // verus!
