use vstd::prelude::*;
use vstd::seq_lib::lemma_multiset_commutative;
use rand::rngs::StdRng;
use crate::point::Point;
use crate::random::shuffle_points;
use crate::solution::{copy_route, interior, routes_view, solution_ok, visited, ids_below, lemma_visited_push, lemma_interior_of_wrapped};

verus! {

broadcast use {vstd::multiset::group_multiset_axioms, vstd::seq_lib::group_to_multiset_ensures};

/// Where the `k`-th of `v` groups starts when `n` customers are split as
/// evenly as possible, the first `n % v` groups taking one extra customer.
pub open spec fn group_start(n: nat, v: nat, k: nat) -> nat {
    k * (n / v) + if k < n % v { k } else { n % v }
}

/// The `k`-th route of the even split of `customers` into `v` routes.
pub open spec fn group_route(customers: Seq<Point>, v: nat, depot: Point, k: nat) -> Seq<Point> {
    let n = customers.len();
    seq![depot] + customers.subrange(group_start(n, v, k) as int, group_start(n, v, k + 1) as int)
        + seq![depot]
}

/// The whole even split of `customers` into `v` depot-bounded routes.
pub open spec fn split(customers: Seq<Point>, v: nat, depot: Point) -> Seq<Seq<Point>> {
    Seq::new(v, |j: int| group_route(customers, v, depot, j as nat))
}

proof fn lemma_group_start_step(n: nat, v: nat, k: nat)
    requires
        v > 0,
        k < v,
    ensures
        group_start(n, v, k) <= group_start(n, v, k + 1) <= n,
        group_start(n, v, k + 1) == group_start(n, v, k) + n / v + if k < n % v { 1int } else { 0 },
        group_start(n, v, v) == n,
{
    let q = n / v;
    let r = n % v;
    assert((k + 1) * q == k * q + q) by (nonlinear_arith);
    assert(n == v * q + r) by {
        vstd::arithmetic::div_mod::lemma_fundamental_div_mod(n as int, v as int);
    }
    assert(r < v) by {
        vstd::arithmetic::div_mod::lemma_mod_bound(n as int, v as int);
    }
    assert((k + 1) * q <= v * q) by (nonlinear_arith)
        requires k + 1 <= v;
    assert(v * q == q * v) by (nonlinear_arith);
}

/// Splits `customers`, in order, into `no_of_vehicle` routes, each wrapped
/// in the depot; the sizes differ by at most one, so every customer is placed.
pub fn partition_routes(customers: &Vec<Point>, no_of_vehicle: usize, depo: Point) -> (r: Vec<Vec<Point>>)
    requires
        no_of_vehicle >= 1,
    ensures
        r@.len() == no_of_vehicle,
        forall|k: int| 0 <= k < no_of_vehicle ==>
            (#[trigger] r@[k])@ == group_route(customers@, no_of_vehicle as nat, depo, k as nat),
        routes_view(r@) == split(customers@, no_of_vehicle as nat, depo),
{
    let n = customers.len();
    let q = n / no_of_vehicle;
    let rem = n % no_of_vehicle;
    let mut routes: Vec<Vec<Point>> = Vec::new();
    let mut pos: usize = 0;
    let mut k: usize = 0;
    while k < no_of_vehicle
        invariant
            n == customers@.len(),
            no_of_vehicle >= 1,
            q == n / no_of_vehicle,
            rem == n % no_of_vehicle,
            k <= no_of_vehicle,
            pos == group_start(n as nat, no_of_vehicle as nat, k as nat),
            routes@.len() == k,
            forall|j: int| 0 <= j < k ==>
                (#[trigger] routes@[j])@ == group_route(customers@, no_of_vehicle as nat, depo, j as nat),
        decreases no_of_vehicle - k,
    {
        proof {
            lemma_group_start_step(n as nat, no_of_vehicle as nat, k as nat);
        }
        let size: usize = if k < rem { q + 1 } else { q };
        let mut route: Vec<Point> = Vec::new();
        route.push(depo);
        let mut i: usize = 0;
        while i < size
            invariant
                n == customers@.len(),
                pos + size <= n,
                i <= size,
                route@ == seq![depo] + customers@.subrange(pos as int, pos + i),
            decreases size - i,
        {
            route.push(customers[pos + i]);
            i = i + 1;
            assert(route@ =~= seq![depo] + customers@.subrange(pos as int, pos + i));
        }
        route.push(depo);
        routes.push(route);
        pos = pos + size;
        k = k + 1;
    }
    assert(routes_view(routes@) =~= split(customers@, no_of_vehicle as nat, depo));
    routes
}

/// The customers that the first `k` routes of the split visit.
proof fn lemma_split_visits(customers: Seq<Point>, v: nat, depot: Point, k: nat)
    requires
        v >= 1,
        k <= v,
    ensures
        visited(Seq::new(k, |j: int| group_route(customers, v, depot, j as nat)))
            =~= customers.subrange(0, group_start(customers.len(), v, k) as int).to_multiset(),
    decreases k,
{
    let n = customers.len();
    let s = Seq::new(k, |j: int| group_route(customers, v, depot, j as nat));
    if k == 0 {
        assert(customers.subrange(0, 0) =~= Seq::<Point>::empty());
        assert(s =~= Seq::<Seq<Point>>::empty());
    } else {
        let p = (k - 1) as nat;
        lemma_group_start_step(n, v, p);
        lemma_split_visits(customers, v, depot, p);
        let prev = Seq::new(p, |j: int| group_route(customers, v, depot, j as nat));
        assert(s =~= prev.push(group_route(customers, v, depot, p)));
        lemma_visited_push(prev, group_route(customers, v, depot, p));
        let a = group_start(n, v, p) as int;
        let b = group_start(n, v, k) as int;
        lemma_interior_of_wrapped(depot, customers.subrange(a, b));
        assert(customers.subrange(0, b) =~= customers.subrange(0, a) + customers.subrange(a, b));
        lemma_multiset_commutative(customers.subrange(0, a), customers.subrange(a, b));
    }
}

/// Every route of the split is a depot-bounded route, and together the
/// routes visit exactly the given customers.
pub proof fn lemma_partition_covers(customers: Seq<Point>, v: nat, depot: Point, n: nat)
    requires
        v >= 1,
        depot.id < n,
        ids_below(customers, n),
    ensures
        solution_ok(split(customers, v, depot), depot, n),
        visited(split(customers, v, depot))
            =~= customers.to_multiset(),
{
    lemma_split_visits(customers, v, depot, v);
    lemma_group_start_step(customers.len(), v, (v - 1) as nat);
    assert(customers.subrange(0, customers.len() as int) =~= customers);
    let s = split(customers, v, depot);
    assert forall|k: int| 0 <= k < v implies crate::solution::route_ok(#[trigger] s[k], depot, n) by {
        lemma_group_start_step(customers.len(), v, k as nat);
        let g = group_route(customers, v, depot, k as nat);
        assert forall|i: int| 0 <= i < g.len() implies (#[trigger] g[i]).id < n by {
            if 0 < i < g.len() - 1 {
                assert(g[i] == customers[group_start(customers.len(), v, k as nat) + i - 1]);
            }
        }
    }
}

/// Builds the starting solution: shuffles the customers, then splits them
/// into `no_of_vehicle` depot-bounded routes.
pub fn generate_random_route_list(
    no_of_vehicle: usize,
    depo: Point,
    customer_list: &Vec<Point>,
    rng: &mut StdRng,
) -> (r: Vec<Vec<Point>>)
    requires
        no_of_vehicle >= 1,
    ensures
        r@.len() == no_of_vehicle,
        exists|shuffled: Seq<Point>|
            shuffled.to_multiset() == customer_list@.to_multiset()
            && #[trigger] split(shuffled, no_of_vehicle as nat, depo) == routes_view(r@),
{
    let mut customers = copy_route(customer_list);
    shuffle_points(rng, &mut customers);
    let r = partition_routes(&customers, no_of_vehicle, depo);
    assert(split(customers@, no_of_vehicle as nat, depo) == routes_view(r@));
    r
}

} // verus!
