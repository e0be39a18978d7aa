use vstd::prelude::*;
use vstd::seq_lib::lemma_multiset_commutative;
use rand::rngs::StdRng;
use crate::point::Point;
use crate::random::random_index;
use crate::cost::{route_cost, objective, total_cost};
use crate::solution::{
    copy_route, copy_routes, interior, routes_view, route_ok, solution_ok, visited, ids_below,
    lemma_visited_update, all_points, lemma_all_points_update,
};

verus! {

broadcast use {vstd::multiset::group_multiset_axioms, vstd::seq_lib::group_to_multiset_ensures};

/// Insertion moves a customer from route `r1` to route `r2`: it needs two
/// distinct routes, a customer in the first and a slot in the second.
pub open spec fn insertion_applies(routes: Seq<Seq<Point>>, r1: int, r2: int) -> bool {
    r1 != r2 && routes[r1].len() >= 3 && routes[r2].len() >= 2
}

/// The customer at position `ci` of route `r1` removed and put at position
/// `ii` of route `r2`.
pub open spec fn inserted(routes: Seq<Seq<Point>>, r1: int, r2: int, ci: int, ii: int) -> Seq<Seq<Point>> {
    let a = routes[r1];
    let b = routes[r2];
    routes.update(r1, a.remove(ci)).update(r2, b.insert(ii, a[ci]))
}

/// Positions that insertion may pick once it applies.
pub open spec fn insertion_picks_ok(routes: Seq<Seq<Point>>, r1: int, r2: int, ci: int, ii: int) -> bool {
    1 <= ci < routes[r1].len() - 1 && 1 <= ii < routes[r2].len()
}

/// Swap exchanges one customer of route `r1` with one of route `r2`: it
/// needs two distinct routes with at least two customers each.
pub open spec fn swap_applies(routes: Seq<Seq<Point>>, r1: int, r2: int) -> bool {
    r1 != r2 && routes[r1].len() >= 4 && routes[r2].len() >= 4
}

pub open spec fn swapped(routes: Seq<Seq<Point>>, r1: int, r2: int, c1: int, c2: int) -> Seq<Seq<Point>> {
    let a = routes[r1];
    let b = routes[r2];
    routes.update(r1, a.update(c1, b[c2])).update(r2, b.update(c2, a[c1]))
}

pub open spec fn swap_picks_ok(routes: Seq<Seq<Point>>, r1: int, r2: int, c1: int, c2: int) -> bool {
    1 <= c1 < routes[r1].len() - 1 && 1 <= c2 < routes[r2].len() - 1
}

/// Inversion reverses a stretch of one route: it needs three customers.
pub open spec fn inversion_applies(routes: Seq<Seq<Point>>, k: int) -> bool {
    routes[k].len() > 4
}

/// The route with positions `start ..= start + count` in reverse order.
pub open spec fn reversed_segment(route: Seq<Point>, start: int, count: int) -> Seq<Point> {
    Seq::new(
        route.len(),
        |i: int| if start <= i <= start + count { route[2 * start + count - i] } else { route[i] },
    )
}

pub open spec fn inverted(routes: Seq<Seq<Point>>, k: int, start: int, count: int) -> Seq<Seq<Point>> {
    routes.update(k, reversed_segment(routes[k], start, count))
}

pub open spec fn inversion_picks_ok(routes: Seq<Seq<Point>>, k: int, start: int, count: int) -> bool {
    1 <= start < routes[k].len() - 3 && 2 <= count < routes[k].len() - 1 - start
}

/// What insertion returns for the given picks: a copy when it does not apply.
pub open spec fn insertion_result(routes: Seq<Seq<Point>>, r1: int, r2: int, ci: int, ii: int) -> Seq<Seq<Point>> {
    if insertion_applies(routes, r1, r2) { inserted(routes, r1, r2, ci, ii) } else { routes }
}

pub open spec fn swap_result(routes: Seq<Seq<Point>>, r1: int, r2: int, c1: int, c2: int) -> Seq<Seq<Point>> {
    if swap_applies(routes, r1, r2) { swapped(routes, r1, r2, c1, c2) } else { routes }
}

pub open spec fn inversion_result(routes: Seq<Seq<Point>>, k: int, start: int, count: int) -> Seq<Seq<Point>> {
    if inversion_applies(routes, k) { inverted(routes, k, start, count) } else { routes }
}

/// A move whose precondition fails returns its input route for route, so
/// every route cost, the total and the objective stay as they were.
pub proof fn lemma_noop_moves_keep_costs(
    routes: Seq<Seq<Point>>,
    m: Seq<Vec<u64>>,
    r1: int,
    r2: int,
    i: int,
    j: int,
)
    ensures
        !insertion_applies(routes, r1, r2) ==> {
            let r = insertion_result(routes, r1, r2, i, j);
            &&& r == routes
            &&& forall|k: int| 0 <= k < routes.len() ==> route_cost(#[trigger] r[k], m) == route_cost(routes[k], m)
            &&& objective(r, m) == objective(routes, m)
            &&& total_cost(r, m) == total_cost(routes, m)
        },
        !swap_applies(routes, r1, r2) ==> {
            let r = swap_result(routes, r1, r2, i, j);
            &&& r == routes
            &&& forall|k: int| 0 <= k < routes.len() ==> route_cost(#[trigger] r[k], m) == route_cost(routes[k], m)
            &&& objective(r, m) == objective(routes, m)
            &&& total_cost(r, m) == total_cost(routes, m)
        },
        !inversion_applies(routes, r1) ==> {
            let r = inversion_result(routes, r1, i, j);
            &&& r == routes
            &&& forall|k: int| 0 <= k < routes.len() ==> route_cost(#[trigger] r[k], m) == route_cost(routes[k], m)
            &&& objective(r, m) == objective(routes, m)
            &&& total_cost(r, m) == total_cost(routes, m)
        },
{
}

/// Every solution that random insertion may return from `routes`.
pub open spec fn insertion_outcome(routes: Seq<Seq<Point>>, r: Seq<Seq<Point>>) -> bool {
    r == routes || exists|r1: int, r2: int, ci: int, ii: int|
        0 <= r1 < routes.len() && 0 <= r2 < routes.len() && insertion_applies(routes, r1, r2)
            && insertion_picks_ok(routes, r1, r2, ci, ii) && r == #[trigger] inserted(routes, r1, r2, ci, ii)
}

pub open spec fn swap_outcome(routes: Seq<Seq<Point>>, r: Seq<Seq<Point>>) -> bool {
    r == routes || exists|r1: int, r2: int, c1: int, c2: int|
        0 <= r1 < routes.len() && 0 <= r2 < routes.len() && swap_applies(routes, r1, r2)
            && swap_picks_ok(routes, r1, r2, c1, c2) && r == #[trigger] swapped(routes, r1, r2, c1, c2)
}

pub open spec fn inversion_outcome(routes: Seq<Seq<Point>>, r: Seq<Seq<Point>>) -> bool {
    r == routes || exists|k: int, start: int, count: int|
        0 <= k < routes.len() && inversion_applies(routes, k)
            && inversion_picks_ok(routes, k, start, count) && r == #[trigger] inverted(routes, k, start, count)
}

/// The move keeps every well-formed solution well formed, for any depot.
pub open spec fn keeps_shape(routes: Seq<Seq<Point>>, r: Seq<Seq<Point>>) -> bool {
    forall|depot: Point, n: nat| solution_ok(routes, depot, n) ==> #[trigger] solution_ok(r, depot, n)
}

proof fn lemma_ms_insert(s: Seq<Point>, i: int, x: Point)
    requires
        0 <= i <= s.len(),
    ensures
        s.insert(i, x).to_multiset() =~= s.to_multiset().insert(x),
{
    let t = s.insert(i, x);
    assert(t.remove(i) =~= s);
    assert(t[i] == x);
    assert(t.to_multiset().count(x) > 0);
}

proof fn lemma_ms_update(s: Seq<Point>, i: int, y: Point)
    requires
        0 <= i < s.len(),
    ensures
        s.update(i, y).to_multiset() =~= s.to_multiset().remove(s[i]).insert(y),
{
    let t = s.update(i, y);
    assert(t.remove(i) =~= s.remove(i));
    assert(t[i] == y);
    assert(t.to_multiset().count(y) > 0);
}

/// A valid insertion keeps the depot at both ends and the visited customers.
pub proof fn lemma_insertion_preserves(routes: Seq<Seq<Point>>, r1: int, r2: int, ci: int, ii: int)
    requires
        0 <= r1 < routes.len(),
        0 <= r2 < routes.len(),
        insertion_applies(routes, r1, r2),
        insertion_picks_ok(routes, r1, r2, ci, ii),
    ensures
        visited(inserted(routes, r1, r2, ci, ii)) == visited(routes),
        all_points(inserted(routes, r1, r2, ci, ii)) == all_points(routes),
        keeps_shape(routes, inserted(routes, r1, r2, ci, ii)),
{
    let a = routes[r1];
    let b = routes[r2];
    let a2 = a.remove(ci);
    let b2 = b.insert(ii, a[ci]);
    let mid = routes.update(r1, a2);
    assert(interior(a2) =~= interior(a).remove(ci - 1));
    assert(interior(a)[ci - 1] == a[ci]);
    assert(interior(b2) =~= interior(b).insert(ii - 1, a[ci]));
    lemma_ms_insert(interior(b), ii - 1, a[ci]);
    lemma_visited_update(routes, r1, a2);
    assert(mid[r2] == b);
    lemma_visited_update(mid, r2, b2);
    let res = inserted(routes, r1, r2, ci, ii);
    let x = a[ci];
    assert(interior(a).to_multiset() =~= interior(a2).to_multiset().insert(x)) by {
        assert(interior(a).to_multiset().count(x) > 0);
    }
    assert forall|p: Point| visited(res).count(p) == visited(routes).count(p) by {
        assert(visited(res).add(interior(b).to_multiset()).count(p) == visited(mid).add(
            interior(b2).to_multiset(),
        ).count(p));
        assert(visited(mid).add(interior(a).to_multiset()).count(p) == visited(routes).add(
            interior(a2).to_multiset(),
        ).count(p));
    }
    assert(visited(res) =~= visited(routes));
    assert(a.to_multiset() =~= a2.to_multiset().insert(x)) by {
        assert(a.to_multiset().count(x) > 0);
    }
    lemma_ms_insert(b, ii, x);
    lemma_all_points_update(routes, r1, a2);
    lemma_all_points_update(mid, r2, b2);
    assert forall|p: Point| all_points(res).count(p) == all_points(routes).count(p) by {
        assert(all_points(res).add(b.to_multiset()).count(p) == all_points(mid).add(
            b2.to_multiset(),
        ).count(p));
        assert(all_points(mid).add(a.to_multiset()).count(p) == all_points(routes).add(
            a2.to_multiset(),
        ).count(p));
    }
    assert(all_points(res) =~= all_points(routes));
    assert forall|depot: Point, n: nat| solution_ok(routes, depot, n) implies #[trigger] solution_ok(
        res,
        depot,
        n,
    ) by {
        assert(route_ok(routes[r1], depot, n));
        assert(route_ok(routes[r2], depot, n));
        assert forall|k: int| 0 <= k < res.len() implies route_ok(#[trigger] res[k], depot, n) by {
            if k == r1 {
                assert(ids_below(a2, n)) by {
                    assert forall|i: int| 0 <= i < a2.len() implies (#[trigger] a2[i]).id < n by {
                        if i < ci { assert(a2[i] == a[i]); } else { assert(a2[i] == a[i + 1]); }
                    }
                }
            } else if k == r2 {
                assert(ids_below(b2, n)) by {
                    assert forall|i: int| 0 <= i < b2.len() implies (#[trigger] b2[i]).id < n by {
                        if i < ii { assert(b2[i] == b[i]); } else if i > ii { assert(b2[i] == b[i - 1]); }
                    }
                }
            } else {
                assert(res[k] == routes[k]);
            }
        }
    }
}

/// A valid swap keeps the depot at both ends and the visited customers.
pub proof fn lemma_swap_preserves(routes: Seq<Seq<Point>>, r1: int, r2: int, c1: int, c2: int)
    requires
        0 <= r1 < routes.len(),
        0 <= r2 < routes.len(),
        swap_applies(routes, r1, r2),
        swap_picks_ok(routes, r1, r2, c1, c2),
    ensures
        visited(swapped(routes, r1, r2, c1, c2)) == visited(routes),
        all_points(swapped(routes, r1, r2, c1, c2)) == all_points(routes),
        keeps_shape(routes, swapped(routes, r1, r2, c1, c2)),
{
    let a = routes[r1];
    let b = routes[r2];
    let a2 = a.update(c1, b[c2]);
    let b2 = b.update(c2, a[c1]);
    let mid = routes.update(r1, a2);
    assert(interior(a2) =~= interior(a).update(c1 - 1, b[c2]));
    assert(interior(b2) =~= interior(b).update(c2 - 1, a[c1]));
    lemma_ms_update(interior(a), c1 - 1, b[c2]);
    lemma_ms_update(interior(b), c2 - 1, a[c1]);
    assert(interior(a).to_multiset().count(a[c1]) > 0) by {
        assert(interior(a)[c1 - 1] == a[c1]);
    }
    assert(interior(b).to_multiset().count(b[c2]) > 0) by {
        assert(interior(b)[c2 - 1] == b[c2]);
    }
    lemma_visited_update(routes, r1, a2);
    assert(mid[r2] == b);
    lemma_visited_update(mid, r2, b2);
    let res = swapped(routes, r1, r2, c1, c2);
    lemma_ms_update(a, c1, b[c2]);
    lemma_ms_update(b, c2, a[c1]);
    assert(a.to_multiset().count(a[c1]) > 0);
    assert(b.to_multiset().count(b[c2]) > 0);
    lemma_all_points_update(routes, r1, a2);
    lemma_all_points_update(mid, r2, b2);
    assert forall|p: Point| all_points(res).count(p) == all_points(routes).count(p) by {
        assert(all_points(res).add(b.to_multiset()).count(p) == all_points(mid).add(
            b2.to_multiset(),
        ).count(p));
        assert(all_points(mid).add(a.to_multiset()).count(p) == all_points(routes).add(
            a2.to_multiset(),
        ).count(p));
    }
    assert(all_points(res) =~= all_points(routes));
    assert forall|p: Point| visited(res).count(p) == visited(routes).count(p) by {
        assert(visited(res).add(interior(b).to_multiset()).count(p) == visited(mid).add(
            interior(b2).to_multiset(),
        ).count(p));
        assert(visited(mid).add(interior(a).to_multiset()).count(p) == visited(routes).add(
            interior(a2).to_multiset(),
        ).count(p));
    }
    assert(visited(res) =~= visited(routes));
    assert forall|depot: Point, n: nat| solution_ok(routes, depot, n) implies #[trigger] solution_ok(
        res,
        depot,
        n,
    ) by {
        assert(route_ok(routes[r1], depot, n));
        assert(route_ok(routes[r2], depot, n));
        assert forall|k: int| 0 <= k < res.len() implies route_ok(#[trigger] res[k], depot, n) by {
            if k == r1 {
                assert(ids_below(a2, n)) by {
                    assert forall|i: int| 0 <= i < a2.len() implies (#[trigger] a2[i]).id < n by {
                        if i == c1 { assert(b[c2].id < n); }
                    }
                }
            } else if k == r2 {
                assert(ids_below(b2, n)) by {
                    assert forall|i: int| 0 <= i < b2.len() implies (#[trigger] b2[i]).id < n by {
                        if i == c2 { assert(a[c1].id < n); }
                    }
                }
            } else {
                assert(res[k] == routes[k]);
            }
        }
    }
}

/// A valid inversion keeps the depot at both ends and the visited customers.
pub proof fn lemma_inversion_preserves(routes: Seq<Seq<Point>>, k: int, start: int, count: int)
    requires
        0 <= k < routes.len(),
        inversion_applies(routes, k),
        inversion_picks_ok(routes, k, start, count),
    ensures
        visited(inverted(routes, k, start, count)) == visited(routes),
        all_points(inverted(routes, k, start, count)) == all_points(routes),
        keeps_shape(routes, inverted(routes, k, start, count)),
{
    let a = routes[k];
    let a2 = reversed_segment(a, start, count);
    let ia = interior(a);
    let pre = ia.subrange(0, start - 1);
    let seg = ia.subrange(start - 1, start + count);
    let post = ia.subrange(start + count, ia.len() as int);
    assert(ia =~= pre + seg + post);
    assert(interior(a2) =~= pre + seg.reverse() + post);
    seg.lemma_reverse_to_multiset();
    lemma_multiset_commutative(pre, seg);
    lemma_multiset_commutative(pre + seg, post);
    lemma_multiset_commutative(pre, seg.reverse());
    lemma_multiset_commutative(pre + seg.reverse(), post);
    lemma_visited_update(routes, k, a2);
    let res = inverted(routes, k, start, count);
    assert(interior(a2).to_multiset() =~= ia.to_multiset());
    let wpre = a.subrange(0, start);
    let wseg = a.subrange(start, start + count + 1);
    let wpost = a.subrange(start + count + 1, a.len() as int);
    assert(a =~= wpre + wseg + wpost);
    assert(a2 =~= wpre + wseg.reverse() + wpost);
    wseg.lemma_reverse_to_multiset();
    lemma_multiset_commutative(wpre, wseg);
    lemma_multiset_commutative(wpre + wseg, wpost);
    lemma_multiset_commutative(wpre, wseg.reverse());
    lemma_multiset_commutative(wpre + wseg.reverse(), wpost);
    assert(a2.to_multiset() =~= a.to_multiset());
    lemma_all_points_update(routes, k, a2);
    assert forall|p: Point| all_points(res).count(p) == all_points(routes).count(p) by {
        assert(all_points(res).add(a.to_multiset()).count(p) == all_points(routes).add(
            a2.to_multiset(),
        ).count(p));
    }
    assert(all_points(res) =~= all_points(routes));
    assert forall|p: Point| visited(res).count(p) == visited(routes).count(p) by {
        assert(visited(res).add(ia.to_multiset()).count(p) == visited(routes).add(
            interior(a2).to_multiset(),
        ).count(p));
    }
    assert(visited(res) =~= visited(routes));
    assert forall|depot: Point, n: nat| solution_ok(routes, depot, n) implies #[trigger] solution_ok(
        res,
        depot,
        n,
    ) by {
        assert(route_ok(routes[k], depot, n));
        assert forall|j: int| 0 <= j < res.len() implies route_ok(#[trigger] res[j], depot, n) by {
            if j == k {
                assert(ids_below(a2, n)) by {
                    assert forall|i: int| 0 <= i < a2.len() implies (#[trigger] a2[i]).id < n by {
                        if start <= i <= start + count {
                            assert(a[2 * start + count - i].id < n);
                        }
                    }
                }
            } else {
                assert(res[j] == routes[j]);
            }
        }
    }
}

/// Insertion with its random picks given: moves the customer at position
/// `ci` of route `r1` to position `ii` of route `r2`, or returns an
/// unchanged copy when the move does not apply.
pub fn insertion_move(routes: &Vec<Vec<Point>>, r1: usize, r2: usize, ci: usize, ii: usize) -> (r: Vec<Vec<Point>>)
    requires
        r1 < routes@.len(),
        r2 < routes@.len(),
        insertion_applies(routes_view(routes@), r1 as int, r2 as int) ==> insertion_picks_ok(
            routes_view(routes@),
            r1 as int,
            r2 as int,
            ci as int,
            ii as int,
        ),
    ensures
        routes_view(r@) == insertion_result(routes_view(routes@), r1 as int, r2 as int, ci as int, ii as int),
{
    let mut result = copy_routes(routes);
    assert(routes_view(result@)[r1 as int] == result@[r1 as int]@);
    if r1 == r2 || routes[r1].len() < 3 || routes[r2].len() < 2 {
        return result;
    }
    let mut first = copy_route(&routes[r1]);
    let mut second = copy_route(&routes[r2]);
    let customer = first.remove(ci);
    second.insert(ii, customer);
    result[r1] = first;
    result[r2] = second;
    assert(routes_view(result@) =~= inserted(routes_view(routes@), r1 as int, r2 as int, ci as int, ii as int));
    result
}

/// Swap with its random picks given: exchanges the customer at position `c1`
/// of route `r1` with the one at `c2` of route `r2`, or returns an unchanged
/// copy when the move does not apply.
pub fn swap_move(routes: &Vec<Vec<Point>>, r1: usize, r2: usize, c1: usize, c2: usize) -> (r: Vec<Vec<Point>>)
    requires
        r1 < routes@.len(),
        r2 < routes@.len(),
        swap_applies(routes_view(routes@), r1 as int, r2 as int) ==> swap_picks_ok(
            routes_view(routes@),
            r1 as int,
            r2 as int,
            c1 as int,
            c2 as int,
        ),
    ensures
        routes_view(r@) == swap_result(routes_view(routes@), r1 as int, r2 as int, c1 as int, c2 as int),
{
    let mut result = copy_routes(routes);
    if r1 == r2 || routes[r1].len() <= 3 || routes[r2].len() <= 3 {
        return result;
    }
    let mut first = copy_route(&routes[r1]);
    let mut second = copy_route(&routes[r2]);
    let x = first[c1];
    let y = second[c2];
    first.set(c1, y);
    second.set(c2, x);
    result[r1] = first;
    result[r2] = second;
    assert(routes_view(result@) =~= swapped(routes_view(routes@), r1 as int, r2 as int, c1 as int, c2 as int));
    result
}

/// Inversion with its random picks given: reverses positions
/// `start ..= start + count` of route `k`, or returns an unchanged copy when
/// the route is too short.
pub fn inversion_move(routes: &Vec<Vec<Point>>, k: usize, start: usize, count: usize) -> (r: Vec<Vec<Point>>)
    requires
        k < routes@.len(),
        inversion_applies(routes_view(routes@), k as int) ==> inversion_picks_ok(
            routes_view(routes@),
            k as int,
            start as int,
            count as int,
        ),
    ensures
        routes_view(r@) == inversion_result(routes_view(routes@), k as int, start as int, count as int),
{
    let mut result = copy_routes(routes);
    let route = &routes[k];
    if route.len() <= 4 {
        return result;
    }
    let ghost want = reversed_segment(route@, start as int, count as int);
    let mut reversed: Vec<Point> = Vec::new();
    let mut i: usize = 0;
    while i < route.len()
        invariant
            i <= route@.len(),
            want == reversed_segment(route@, start as int, count as int),
            1 <= start,
            start + count < route@.len() - 1,
            reversed@ == want.subrange(0, i as int),
        decreases route.len() - i,
    {
        if start <= i && i <= start + count {
            reversed.push(route[start + (start + count - i)]);
        } else {
            reversed.push(route[i]);
        }
        i = i + 1;
        assert(reversed@ =~= want.subrange(0, i as int));
    }
    assert(reversed@ =~= want);
    result[k] = reversed;
    assert(routes_view(result@) =~= inverted(routes_view(routes@), k as int, start as int, count as int));
    result
}

/// Random insertion: picks two routes, and, when the move applies, a
/// customer of the first and a position in the second.
pub fn mutate_insertion(route_list: &Vec<Vec<Point>>, rng: &mut StdRng) -> (r: Vec<Vec<Point>>)
    requires
        route_list@.len() >= 1,
    ensures
        insertion_outcome(routes_view(route_list@), routes_view(r@)),
        visited(routes_view(r@)) == visited(routes_view(route_list@)),
        all_points(routes_view(r@)) == all_points(routes_view(route_list@)),
        keeps_shape(routes_view(route_list@), routes_view(r@)),
{
    let ghost rs = routes_view(route_list@);
    let len = route_list.len();
    let r1 = random_index(rng, 0, len);
    let r2 = random_index(rng, 0, len);
    assert(rs[r1 as int] == route_list@[r1 as int]@);
    assert(rs[r2 as int] == route_list@[r2 as int]@);
    if r1 == r2 || route_list[r1].len() < 3 || route_list[r2].len() < 2 {
        return insertion_move(route_list, r1, r2, 0, 0);
    }
    let ci = random_index(rng, 1, route_list[r1].len() - 1);
    let ii = random_index(rng, 1, route_list[r2].len());
    let r = insertion_move(route_list, r1, r2, ci, ii);
    proof {
        lemma_insertion_preserves(rs, r1 as int, r2 as int, ci as int, ii as int);
    }
    r
}

/// Random swap: picks two routes, and, when the move applies, one customer
/// of each.
pub fn mutate_swap(route_list: &Vec<Vec<Point>>, rng: &mut StdRng) -> (r: Vec<Vec<Point>>)
    requires
        route_list@.len() >= 1,
    ensures
        swap_outcome(routes_view(route_list@), routes_view(r@)),
        visited(routes_view(r@)) == visited(routes_view(route_list@)),
        all_points(routes_view(r@)) == all_points(routes_view(route_list@)),
        keeps_shape(routes_view(route_list@), routes_view(r@)),
{
    let ghost rs = routes_view(route_list@);
    let len = route_list.len();
    let r1 = random_index(rng, 0, len);
    let r2 = random_index(rng, 0, len);
    assert(rs[r1 as int] == route_list@[r1 as int]@);
    assert(rs[r2 as int] == route_list@[r2 as int]@);
    if r1 == r2 || route_list[r1].len() <= 3 || route_list[r2].len() <= 3 {
        return swap_move(route_list, r1, r2, 0, 0);
    }
    let c1 = random_index(rng, 1, route_list[r1].len() - 1);
    let c2 = random_index(rng, 1, route_list[r2].len() - 1);
    let r = swap_move(route_list, r1, r2, c1, c2);
    proof {
        lemma_swap_preserves(rs, r1 as int, r2 as int, c1 as int, c2 as int);
    }
    r
}

/// Random inversion: picks a route, and, when it is long enough, a stretch
/// of at least three customers strictly inside it.
pub fn mutate_inversion(route_list: &Vec<Vec<Point>>, rng: &mut StdRng) -> (r: Vec<Vec<Point>>)
    requires
        route_list@.len() >= 1,
    ensures
        inversion_outcome(routes_view(route_list@), routes_view(r@)),
        visited(routes_view(r@)) == visited(routes_view(route_list@)),
        all_points(routes_view(r@)) == all_points(routes_view(route_list@)),
        keeps_shape(routes_view(route_list@), routes_view(r@)),
{
    let ghost rs = routes_view(route_list@);
    let k = random_index(rng, 0, route_list.len());
    assert(rs[k as int] == route_list@[k as int]@);
    let len = route_list[k].len();
    if len <= 4 {
        return inversion_move(route_list, k, 0, 0);
    }
    let start = random_index(rng, 1, len - 3);
    let count = random_index(rng, 2, len - 1 - start);
    let r = inversion_move(route_list, k, start, count);
    proof {
        lemma_inversion_preserves(rs, k as int, start as int, count as int);
    }
    r
}

/// The move that `choice` names (0 insertion, 1 swap, 2 inversion) applied
/// with the picks `a`, `b`, `x`, `y`; inversion uses route `a` and the
/// segment `x`, `y`.
pub open spec fn neighbour_result(routes: Seq<Seq<Point>>, choice: int, a: int, b: int, x: int, y: int) -> Seq<Seq<Point>> {
    if choice == 0 {
        insertion_result(routes, a, b, x, y)
    } else if choice == 1 {
        swap_result(routes, a, b, x, y)
    } else {
        inversion_result(routes, a, x, y)
    }
}

/// The picks index routes, and fit the chosen move whenever it applies.
pub open spec fn neighbour_picks_ok(routes: Seq<Seq<Point>>, choice: int, a: int, b: int, x: int, y: int) -> bool {
    &&& 0 <= choice < 3
    &&& 0 <= a < routes.len()
    &&& 0 <= b < routes.len()
    &&& choice == 0 && insertion_applies(routes, a, b) ==> insertion_picks_ok(routes, a, b, x, y)
    &&& choice == 1 && swap_applies(routes, a, b) ==> swap_picks_ok(routes, a, b, x, y)
    &&& choice == 2 && inversion_applies(routes, a) ==> inversion_picks_ok(routes, a, x, y)
}

/// Every move keeps the number of routes, the visited customers and the
/// depot at both ends of every route.
pub proof fn lemma_neighbour_preserves(routes: Seq<Seq<Point>>, choice: int, a: int, b: int, x: int, y: int)
    requires
        neighbour_picks_ok(routes, choice, a, b, x, y),
    ensures
        neighbour_result(routes, choice, a, b, x, y).len() == routes.len(),
        visited(neighbour_result(routes, choice, a, b, x, y)) == visited(routes),
        all_points(neighbour_result(routes, choice, a, b, x, y)) == all_points(routes),
        keeps_shape(routes, neighbour_result(routes, choice, a, b, x, y)),
{
    if choice == 0 && insertion_applies(routes, a, b) {
        lemma_insertion_preserves(routes, a, b, x, y);
    } else if choice == 1 && swap_applies(routes, a, b) {
        lemma_swap_preserves(routes, a, b, x, y);
    } else if choice == 2 && inversion_applies(routes, a) {
        lemma_inversion_preserves(routes, a, x, y);
    }
}

/// One neighbourhood move with the operator and its picks given.
pub fn neighbour_move(routes: &Vec<Vec<Point>>, choice: usize, a: usize, b: usize, x: usize, y: usize) -> (r: Vec<Vec<Point>>)
    requires
        neighbour_picks_ok(routes_view(routes@), choice as int, a as int, b as int, x as int, y as int),
    ensures
        routes_view(r@) == neighbour_result(routes_view(routes@), choice as int, a as int, b as int, x as int, y as int),
{
    if choice == 0 {
        insertion_move(routes, a, b, x, y)
    } else if choice == 1 {
        swap_move(routes, a, b, x, y)
    } else {
        inversion_move(routes, a, x, y)
    }
}

/// Draws picks for the move `choice`, re-reading the lengths of the routes
/// drawn; positions are only drawn when the move applies.
fn draw_picks(routes: &Vec<Vec<Point>>, choice: usize, rng: &mut StdRng) -> (r: (usize, usize, usize, usize))
    requires
        routes@.len() >= 1,
        choice < 3,
    ensures
        neighbour_picks_ok(routes_view(routes@), choice as int, r.0 as int, r.1 as int, r.2 as int, r.3 as int),
{
    let ghost rs = routes_view(routes@);
    let len = routes.len();
    let a = random_index(rng, 0, len);
    assert(rs[a as int] == routes@[a as int]@);
    if choice == 2 {
        let l = routes[a].len();
        if l <= 4 {
            return (a, 0, 0, 0);
        }
        let start = random_index(rng, 1, l - 3);
        let count = random_index(rng, 2, l - 1 - start);
        return (a, 0, start, count);
    }
    let b = random_index(rng, 0, len);
    assert(rs[b as int] == routes@[b as int]@);
    let la = routes[a].len();
    let lb = routes[b].len();
    if choice == 0 {
        if a == b || la < 3 || lb < 2 {
            return (a, b, 0, 0);
        }
        let ci = random_index(rng, 1, la - 1);
        let ii = random_index(rng, 1, lb);
        (a, b, ci, ii)
    } else {
        if a == b || la <= 3 || lb <= 3 {
            return (a, b, 0, 0);
        }
        let c1 = random_index(rng, 1, la - 1);
        let c2 = random_index(rng, 1, lb - 1);
        (a, b, c1, c2)
    }
}

/// Draws one of the three moves with equal chance, then its picks, and
/// applies it.
pub fn get_neighbour(route_list: &Vec<Vec<Point>>, rng: &mut StdRng) -> (r: Vec<Vec<Point>>)
    requires
        route_list@.len() >= 1,
    ensures
        exists|choice: int, a: int, b: int, x: int, y: int|
            neighbour_picks_ok(routes_view(route_list@), choice, a, b, x, y)
            && routes_view(r@) == #[trigger] neighbour_result(routes_view(route_list@), choice, a, b, x, y),
        r@.len() == route_list@.len(),
        visited(routes_view(r@)) == visited(routes_view(route_list@)),
        all_points(routes_view(r@)) == all_points(routes_view(route_list@)),
        keeps_shape(routes_view(route_list@), routes_view(r@)),
{
    let choice = random_index(rng, 0, 3);
    let picks = draw_picks(route_list, choice, rng);
    let r = neighbour_move(route_list, choice, picks.0, picks.1, picks.2, picks.3);
    proof {
        lemma_neighbour_preserves(
            routes_view(route_list@),
            choice as int,
            picks.0 as int,
            picks.1 as int,
            picks.2 as int,
            picks.3 as int,
        );
    }
    r
}

} // verus!
