use vstd::prelude::*;
use crate::solver::{
    completion, dist, full_mask, next_hop, scan, solution, tour_from, visits, with_city,
    MAX_CITIES,
};

verus! {

/// City `j` can be visited next from a state with visited set `mask`.
pub open spec fn eligible(mask: u32, j: int) -> bool {
    !visits(mask, j) && with_city(mask, j) > mask
}

/// Cost of going from `cur` to `j` and completing the tour from there.
pub open spec fn candidate(d: Seq<Vec<i64>>, n: nat, mask: u32, cur: int, j: int) -> int {
    dist(d, cur, j) + completion(d, n, with_city(mask, j), j)
}

/// Cost of leaving `cur`, visiting the cities of `p` in order, and going back
/// to city 0.
pub open spec fn path_cost(d: Seq<Vec<i64>>, cur: int, p: Seq<int>) -> int
    decreases p.len(),
{
    if p.len() == 0 {
        dist(d, cur, 0)
    } else {
        dist(d, cur, p[0]) + path_cost(d, p[0], p.drop_first())
    }
}

/// `t` visits each of the cities `[0, n)` exactly once, starting with city 0.
pub open spec fn is_tour(n: nat, t: Seq<int>) -> bool {
    &&& t.len() == n
    &&& t[0] == 0
    &&& t.no_duplicates()
    &&& forall|i: int| 0 <= i < t.len() ==> 0 <= #[trigger] t[i] < n
}

/// Cost of the closed cycle that follows `t` and returns to its first city.
pub open spec fn cycle_cost(d: Seq<Vec<i64>>, t: Seq<int>) -> int {
    path_cost(d, t[0], t.drop_first())
}

/// The cities of `p` are distinct, in `[0, n)` and not yet visited.
spec fn fresh(mask: u32, n: nat, p: Seq<int>) -> bool {
    &&& p.no_duplicates()
    &&& forall|i: int| 0 <= i < p.len() ==> 0 <= #[trigger] p[i] < n && !visits(mask, p[i])
}

/// Every city of `[0, n)` is visited or in `p`.
spec fn covers(mask: u32, n: nat, p: Seq<int>) -> bool {
    forall|k: int| 0 <= k < n ==> visits(mask, k) || #[trigger] p.contains(k)
}

proof fn lemma_visits_with(mask: u32, j: u32, k: u32)
    requires
        j < 32,
        k < 32,
    ensures
        (mask & (1u32 << k) != 0u32 || k == j) == ((mask | (1u32 << j)) & (1u32 << k) != 0u32),
{
    assert((mask & (1u32 << k) != 0u32 || k == j) == ((mask | (1u32 << j)) & (1u32 << k)
        != 0u32)) by (bit_vector)
        requires
            j < 32,
            k < 32,
    ;
}

proof fn lemma_full_visits(n: u32, k: u32)
    requires
        k < n <= 20,
    ensures
        !(0xffff_ffffu32 << n) & (1u32 << k) != 0u32,
{
    assert(!(0xffff_ffffu32 << n) & (1u32 << k) != 0u32) by (bit_vector)
        requires
            k < n <= 20,
    ;
}

proof fn lemma_prefix_visited(mask: u32, k: u32)
    requires
        k <= 20,
        forall|i: int| 0 <= i < k ==> #[trigger] visits(mask, i),
    ensures
        mask & !(0xffff_ffffu32 << k) == !(0xffff_ffffu32 << k),
    decreases k,
{
    if k == 0 {
        assert(mask & !(0xffff_ffffu32 << 0u32) == !(0xffff_ffffu32 << 0u32)) by (bit_vector);
    } else {
        let p = (k - 1) as u32;
        lemma_prefix_visited(mask, p);
        assert(visits(mask, p as int));
        assert(mask & (1u32 << p) != 0u32);
        assert(mask & !(0xffff_ffffu32 << k) == !(0xffff_ffffu32 << k)) by (bit_vector)
            requires
                mask & !(0xffff_ffffu32 << p) == !(0xffff_ffffu32 << p),
                mask & (1u32 << p) != 0u32,
                p + 1 == k,
                k <= 20,
        ;
    }
}

/// A visited set within `[0, n)` that holds every city is the full set.
proof fn lemma_all_visited(mask: u32, n: nat)
    requires
        n <= 20,
        mask <= full_mask(n),
        forall|i: int| 0 <= i < n ==> #[trigger] visits(mask, i),
    ensures
        mask == full_mask(n),
{
    let m = n as u32;
    lemma_prefix_visited(mask, m);
    assert(mask == !(0xffff_ffffu32 << m)) by (bit_vector)
        requires
            mask & !(0xffff_ffffu32 << m) == !(0xffff_ffffu32 << m),
            mask <= !(0xffff_ffffu32 << m),
    ;
}

proof fn lemma_eligible(mask: u32, n: nat, j: int)
    requires
        n <= 20,
        mask <= full_mask(n),
        0 <= j < n,
        !visits(mask, j),
    ensures
        eligible(mask, j),
        with_city(mask, j) <= full_mask(n),
{
    let jj = j as u32;
    let m = n as u32;
    assert(mask & (1u32 << jj) == 0u32);
    assert((mask | (1u32 << jj)) > mask && (mask | (1u32 << jj)) <= !(0xffff_ffffu32 << m))
        by (bit_vector)
        requires
            jj < m,
            m <= 20,
            mask <= !(0xffff_ffffu32 << m),
            mask & (1u32 << jj) == 0u32,
    ;
}

/// What scanning the first `k` candidates finds: none of them eligible, or
/// an eligible one of least cost that no lower-indexed candidate matches.
proof fn lemma_scan_choice(d: Seq<Vec<i64>>, n: nat, mask: u32, cur: int, k: nat)
    ensures
        scan(d, n, mask, cur, k) is None ==> forall|j: int| 0 <= j < k ==> !#[trigger] eligible(mask, j),
        scan(d, n, mask, cur, k) matches Some(p) ==> {
            &&& 0 <= p.1 < k
            &&& eligible(mask, p.1)
            &&& p.0 == candidate(d, n, mask, cur, p.1)
            &&& forall|j: int|
                0 <= j < k && #[trigger] eligible(mask, j) ==> candidate(d, n, mask, cur, j) >= p.0
                    && (j < p.1 ==> candidate(d, n, mask, cur, j) > p.0)
        },
    decreases k,
{
    if k > 0 {
        lemma_scan_choice(d, n, mask, cur, (k - 1) as nat);
    }
}

/// Tie-break: from a state below the full set, the chosen next city is
/// unvisited, gives the completion cost, no other unvisited city is cheaper,
/// and every unvisited city of lower index is strictly more expensive.
pub proof fn lemma_tie_break(d: Seq<Vec<i64>>, n: nat, mask: u32, cur: int)
    requires
        2 <= n <= MAX_CITIES,
        1 <= mask < full_mask(n),
    ensures
        0 <= next_hop(d, n, mask, cur) < n,
        eligible(mask, next_hop(d, n, mask, cur)),
        completion(d, n, mask, cur) == candidate(d, n, mask, cur, next_hop(d, n, mask, cur)),
        forall|j: int|
            0 <= j < n && !#[trigger] visits(mask, j) ==> candidate(d, n, mask, cur, j)
                >= completion(d, n, mask, cur) && (j < next_hop(d, n, mask, cur) ==> candidate(
                d,
                n,
                mask,
                cur,
                j,
            ) > completion(d, n, mask, cur)),
{
    lemma_scan_choice(d, n, mask, cur, n);
    if scan(d, n, mask, cur, n) is None {
        assert forall|i: int| 0 <= i < n implies #[trigger] visits(mask, i) by {
            if !visits(mask, i) {
                lemma_eligible(mask, n, i);
            }
        }
        lemma_all_visited(mask, n);
    }
    assert forall|j: int| 0 <= j < n && !#[trigger] visits(mask, j) implies candidate(
        d,
        n,
        mask,
        cur,
        j,
    ) >= completion(d, n, mask, cur) && (j < next_hop(d, n, mask, cur) ==> candidate(
        d,
        n,
        mask,
        cur,
        j,
    ) > completion(d, n, mask, cur)) by {
        lemma_eligible(mask, n, j);
    }
}

/// Any way of finishing the tour from state `(mask, cur)` costs at least the
/// completion cost of that state.
proof fn lemma_lower_bound(d: Seq<Vec<i64>>, n: nat, mask: u32, cur: int, p: Seq<int>)
    requires
        2 <= n <= MAX_CITIES,
        1 <= mask <= full_mask(n),
        fresh(mask, n, p),
        covers(mask, n, p),
    ensures
        path_cost(d, cur, p) >= completion(d, n, mask, cur),
    decreases p.len(),
{
    if p.len() == 0 {
        assert forall|i: int| 0 <= i < n implies #[trigger] visits(mask, i) by {
            assert(visits(mask, i) || p.contains(i));
        }
        lemma_all_visited(mask, n);
    } else {
        let j = p[0];
        let rest = p.drop_first();
        let nm = with_city(mask, j);
        lemma_eligible(mask, n, j);
        if mask == full_mask(n) {
            lemma_full_visits(n as u32, j as u32);
        }
        assert(mask != full_mask(n));
        assert forall|i: int| 0 <= i < rest.len() implies 0 <= #[trigger] rest[i] < n && !visits(
            nm,
            rest[i],
        ) by {
            assert(rest[i] == p[i + 1]);
            lemma_visits_with(mask, j as u32, rest[i] as u32);
        }
        assert forall|k: int| 0 <= k < n implies visits(nm, k) || #[trigger] rest.contains(k) by {
            lemma_visits_with(mask, j as u32, k as u32);
            if !visits(mask, k) && k != j {
                assert(visits(mask, k) || p.contains(k));
                let i = choose|i: int| 0 <= i < p.len() && p[i] == k;
                assert(rest[i - 1] == k);
            }
        }
        lemma_lower_bound(d, n, nm, j, rest);
        lemma_tie_break(d, n, mask, cur);
    }
}

/// Following the chosen next cities from state `(mask, cur)` visits every
/// unvisited city once, and costs exactly the completion cost.
proof fn lemma_tour_realizes(d: Seq<Vec<i64>>, n: nat, mask: u32, cur: int)
    requires
        2 <= n <= MAX_CITIES,
        1 <= mask <= full_mask(n),
    ensures
        fresh(mask, n, tour_from(d, n, mask, cur)),
        covers(mask, n, tour_from(d, n, mask, cur)),
        path_cost(d, cur, tour_from(d, n, mask, cur)) == completion(d, n, mask, cur),
    decreases 0xffff_ffffint - mask,
{
    let t = tour_from(d, n, mask, cur);
    if mask == full_mask(n) {
        assert forall|k: int| 0 <= k < n implies visits(mask, k) || #[trigger] t.contains(k) by {
            lemma_full_visits(n as u32, k as u32);
        }
    } else {
        lemma_tie_break(d, n, mask, cur);
        let j = next_hop(d, n, mask, cur);
        let nm = with_city(mask, j);
        lemma_eligible(mask, n, j);
        lemma_tour_realizes(d, n, nm, j);
        let rest = tour_from(d, n, nm, j);
        assert(t == seq![j] + rest);
        assert(t.drop_first() =~= rest);
        assert forall|i: int| 0 <= i < t.len() implies 0 <= #[trigger] t[i] < n && !visits(
            mask,
            t[i],
        ) by {
            if i > 0 {
                assert(t[i] == rest[i - 1]);
                lemma_visits_with(mask, j as u32, rest[i - 1] as u32);
            }
        }
        assert(t.no_duplicates()) by {
            assert forall|a: int, b: int| 0 <= a < b < t.len() implies t[a] != t[b] by {
                if a == 0 {
                    assert(t[b] == rest[b - 1]);
                    lemma_visits_with(mask, j as u32, j as u32);
                } else {
                    assert(t[a] == rest[a - 1]);
                    assert(t[b] == rest[b - 1]);
                }
            }
        }
        assert forall|k: int| 0 <= k < n implies visits(mask, k) || #[trigger] t.contains(k) by {
            lemma_visits_with(mask, j as u32, k as u32);
            if !visits(mask, k) {
                if k == j {
                    assert(t[0] == k);
                } else {
                    assert(rest.contains(k));
                    let i = choose|i: int| 0 <= i < rest.len() && rest[i] == k;
                    assert(t[i + 1] == k);
                }
            }
        }
    }
}

/// The reported order is a tour of all cities from city 0, and closing it
/// back to city 0 costs exactly the reported cost.
pub proof fn lemma_solution_is_tour(d: Seq<Vec<i64>>)
    requires
        2 <= d.len() <= MAX_CITIES,
    ensures
        is_tour(d.len(), solution(d).1),
        cycle_cost(d, solution(d).1) == solution(d).0,
{
    let n = d.len();
    lemma_full_mask_one(n);
    lemma_tour_realizes(d, n, 1, 0);
    let rest = tour_from(d, n, 1, 0);
    let t = solution(d).1;
    assert(t == seq![0int] + rest);
    assert(t.drop_first() =~= rest);
    assert forall|i: int| 0 <= i < t.len() implies 0 <= #[trigger] t[i] < n by {
        if i > 0 {
            assert(t[i] == rest[i - 1]);
        }
    }
    assert(t.no_duplicates()) by {
        assert forall|a: int, b: int| 0 <= a < b < t.len() implies t[a] != t[b] by {
            if a == 0 {
                assert(t[b] == rest[b - 1]);
                assert(visits(1, 0)) by {
                    assert(1u32 & (1u32 << 0u32) != 0u32) by (bit_vector);
                }
            } else {
                assert(t[a] == rest[a - 1]);
                assert(t[b] == rest[b - 1]);
            }
        }
    }
    // every city but 0 is in the rest, so the tour has exactly n cities
    assert(t.len() == n) by {
        let s = t.to_set();
        assert forall|k: int| 0 <= k < n implies #[trigger] s.contains(k) by {
            if k == 0 {
                assert(t[0] == 0);
            } else {
                assert(!visits(1, k)) by {
                    let kk = k as u32;
                    assert(1u32 & (1u32 << kk) == 0u32) by (bit_vector)
                        requires
                            0 < kk < 32,
                    ;
                }
                assert(rest.contains(k));
                let i = choose|i: int| 0 <= i < rest.len() && rest[i] == k;
                assert(t[i + 1] == k);
            }
        }
        lemma_tour_size(t, n);
    }
}

proof fn lemma_full_mask_one(n: nat)
    requires
        2 <= n <= MAX_CITIES,
    ensures
        1 < full_mask(n),
{
    let m = n as u32;
    assert(1u32 < !(0xffff_ffffu32 << m)) by (bit_vector)
        requires
            2 <= m <= 20,
    ;
}

/// A duplicate-free sequence of cities in `[0, n)` that holds all of them has
/// length `n`.
proof fn lemma_tour_size(t: Seq<int>, n: nat)
    requires
        t.no_duplicates(),
        forall|i: int| 0 <= i < t.len() ==> 0 <= #[trigger] t[i] < n,
        forall|k: int| 0 <= k < n ==> #[trigger] t.to_set().contains(k),
    ensures
        t.len() == n,
{
    let s = t.to_set();
    let r = vstd::set_lib::set_int_range(0, n as int);
    assert(s =~= r) by {
        assert forall|k: int| s.contains(k) implies r.contains(k) by {
            let i = choose|i: int| 0 <= i < t.len() && t[i] == k;
        }
        assert forall|k: int| r.contains(k) implies s.contains(k) by {
            assert(t.to_set().contains(k));
        }
    }
    t.unique_seq_to_set();
    vstd::set_lib::lemma_int_range(0, n as int);
}

/// Optimality: no tour of all cities from city 0 costs less than the
/// reported cost, so it is the least over all orders of cities `1..n`.
pub proof fn lemma_optimal(d: Seq<Vec<i64>>, t: Seq<int>)
    requires
        2 <= d.len() <= MAX_CITIES,
        is_tour(d.len(), t),
    ensures
        solution(d).0 <= cycle_cost(d, t),
{
    let n = d.len();
    let p = t.drop_first();
    lemma_full_mask_one(n);
    assert forall|i: int| 0 <= i < p.len() implies 0 <= #[trigger] p[i] < n && !visits(1, p[i]) by {
        assert(p[i] == t[i + 1]);
        assert(t[i + 1] != t[0]);
        let kk = p[i] as u32;
        assert(1u32 & (1u32 << kk) == 0u32) by (bit_vector)
            requires
                0 < kk < 32,
        ;
    }
    assert(p.no_duplicates()) by {
        assert forall|a: int, b: int| 0 <= a < b < p.len() implies p[a] != p[b] by {
            assert(p[a] == t[a + 1]);
            assert(p[b] == t[b + 1]);
        }
    }
    assert forall|k: int| 0 <= k < n implies visits(1, k) || #[trigger] p.contains(k) by {
        if k == 0 {
            assert(1u32 & (1u32 << 0u32) != 0u32) by (bit_vector);
        } else {
            lemma_tour_onto(t, n, k);
            let i = choose|i: int| 0 <= i < t.len() && t[i] == k;
            assert(i != 0);
            assert(p[i - 1] == k);
        }
    }
    lemma_lower_bound(d, n, 1, 0, p);
}

/// A tour of `n` cities holds each city of `[0, n)`.
proof fn lemma_tour_onto(t: Seq<int>, n: nat, k: int)
    requires
        t.no_duplicates(),
        t.len() == n,
        forall|i: int| 0 <= i < t.len() ==> 0 <= #[trigger] t[i] < n,
        0 <= k < n,
    ensures
        t.contains(k),
{
    let s = t.to_set();
    let r = vstd::set_lib::set_int_range(0, n as int);
    t.unique_seq_to_set();
    vstd::set_lib::lemma_int_range(0, n as int);
    assert(s.subset_of(r)) by {
        assert forall|x: int| s.contains(x) implies r.contains(x) by {
            let i = choose|i: int| 0 <= i < t.len() && t[i] == x;
        }
    }
    if !t.contains(k) {
        assert(!s.contains(k)) by {
            if s.contains(k) {
                let i = choose|i: int| 0 <= i < t.len() && t[i] == k;
                assert(t.contains(k));
            }
        }
        assert(s.subset_of(r.remove(k)));
        assert(r.contains(k));
        assert(r.remove(k).len() == r.len() - 1) by {
            broadcast use vstd::set::group_set_axioms;
        }
        assert(r.remove(k).finite()) by {
            broadcast use vstd::set::group_set_axioms;
        }
        vstd::set_lib::lemma_len_subset(s, r.remove(k));
    }
}

/// Determinism: results that both meet the contract of solving the same
/// matrix are equal.
pub proof fn lemma_deterministic(
    d: Seq<Vec<i64>>,
    c1: u128,
    t1: Seq<usize>,
    c2: u128,
    t2: Seq<usize>,
)
    requires
        c1 as int == solution(d).0,
        t1.map_values(|v: usize| v as int) == solution(d).1,
        c2 as int == solution(d).0,
        t2.map_values(|v: usize| v as int) == solution(d).1,
    ensures
        c1 == c2,
        t1 == t2,
{
    let m1 = t1.map_values(|v: usize| v as int);
    let m2 = t2.map_values(|v: usize| v as int);
    assert(t1.len() == m1.len());
    assert forall|i: int| 0 <= i < t1.len() implies t1[i] == t2[i] by {
        assert(m1[i] == t1[i] as int);
        assert(m2[i] == t2[i] as int);
    }
    assert(t1 =~= t2);
}

/// The visited set after adding the cities of `p` to `mask`, in order.
pub open spec fn mask_after(mask: u32, p: Seq<int>) -> u32
    decreases p.len(),
{
    if p.len() == 0 {
        mask
    } else {
        mask_after(with_city(mask, p[0]), p.drop_first())
    }
}

/// City `k` of the order followed from `(mask, cur)` is the choice made from
/// the state reached just before it.
spec fn step_follows(d: Seq<Vec<i64>>, n: nat, mask: u32, cur: int, k: int) -> bool {
    let t = tour_from(d, n, mask, cur);
    let m = mask_after(mask, t.take(k));
    let c = if k == 0 { cur } else { t[k - 1] };
    &&& 1 <= m < full_mask(n)
    &&& t[k] == next_hop(d, n, m, c)
}

/// Step `k` of the reported order of `d`: from the state reached after its
/// first `k + 1` cities, the next city is the chosen one, it gives the least
/// completion cost, and every unvisited city of lower index costs strictly
/// more.
pub open spec fn step_is_tie_broken(d: Seq<Vec<i64>>, k: int) -> bool {
    let n = d.len();
    let t = solution(d).1;
    let m = mask_after(1, t.subrange(1, k + 1));
    &&& 1 <= m < full_mask(n)
    &&& t[k + 1] == next_hop(d, n, m, t[k])
    &&& completion(d, n, m, t[k]) == candidate(d, n, m, t[k], t[k + 1])
    &&& forall|j: int|
        0 <= j < n && !#[trigger] visits(m, j) ==> candidate(d, n, m, t[k], j) >= completion(
            d,
            n,
            m,
            t[k],
        ) && (j < t[k + 1] ==> candidate(d, n, m, t[k], j) > completion(d, n, m, t[k]))
}

/// Along the order that follows the chosen next cities from `(mask, cur)`,
/// each city is the choice made from the state reached just before it.
proof fn lemma_tour_steps(d: Seq<Vec<i64>>, n: nat, mask: u32, cur: int)
    requires
        2 <= n <= MAX_CITIES,
        1 <= mask <= full_mask(n),
    ensures
        forall|k: int|
            0 <= k < tour_from(d, n, mask, cur).len() ==> #[trigger] step_follows(d, n, mask, cur, k),
    decreases 0xffff_ffffint - mask,
{
    let t = tour_from(d, n, mask, cur);
    if mask != full_mask(n) {
        lemma_tie_break(d, n, mask, cur);
        let j = next_hop(d, n, mask, cur);
        let nm = with_city(mask, j);
        lemma_eligible(mask, n, j);
        lemma_tour_steps(d, n, nm, j);
        let rest = tour_from(d, n, nm, j);
        assert(t == seq![j] + rest);
        assert forall|k: int| 0 <= k < t.len() implies #[trigger] step_follows(d, n, mask, cur, k) by {
            if k == 0 {
                assert(t.take(0) =~= Seq::<int>::empty());
            } else {
                assert(step_follows(d, n, nm, j, k - 1));
                assert(t.take(k).drop_first() =~= rest.take(k - 1));
                assert(t.take(k)[0] == j);
                assert(t[k] == rest[k - 1]);
                if k >= 2 {
                    assert(t[k - 1] == rest[k - 2]);
                }
            }
        }
    }
}

/// Tie-break along the whole tour: at every step the reported order goes to
/// the next city chosen from the state reached so far. That city gives the
/// least completion cost, and every unvisited city of lower index costs
/// strictly more, so among equally cheap choices the lowest index is taken.
pub proof fn lemma_tour_tie_break(d: Seq<Vec<i64>>)
    requires
        2 <= d.len() <= MAX_CITIES,
    ensures
        forall|k: int| 0 <= k < d.len() - 1 ==> #[trigger] step_is_tie_broken(d, k),
{
    let n = d.len();
    lemma_full_mask_one(n);
    lemma_solution_is_tour(d);
    lemma_tour_steps(d, n, 1, 0);
    let rest = tour_from(d, n, 1, 0);
    let t = solution(d).1;
    assert(t == seq![0int] + rest);
    assert forall|k: int| 0 <= k < n - 1 implies #[trigger] step_is_tie_broken(d, k) by {
        assert(t.subrange(1, k + 1) =~= rest.take(k));
        assert(t[k + 1] == rest[k]);
        if k > 0 {
            assert(t[k] == rest[k - 1]);
        }
        let m = mask_after(1, rest.take(k));
        assert(step_follows(d, n, 1, 0, k));
        lemma_tie_break(d, n, m, t[k]);
    }
}

} // verus!
