use vstd::prelude::*;

verus! {

/// Largest number of cities the exact solver accepts.
pub const MAX_CITIES: usize = 20;

/// Distance from city `i` to city `j`.
pub open spec fn dist(d: Seq<Vec<i64>>, i: int, j: int) -> int {
    d[i]@[j] as int
}

/// Every row has one entry per city.
pub open spec fn is_square(d: Seq<Vec<i64>>) -> bool {
    forall|i: int| 0 <= i < d.len() ==> (#[trigger] d[i])@.len() == d.len()
}

/// No distance is negative.
pub open spec fn is_nonnegative(d: Seq<Vec<i64>>) -> bool {
    forall|i: int, j: int| 0 <= i < d.len() && 0 <= j < d[i]@.len() ==> 0 <= #[trigger] d[i]@[j]
}

/// The visited set holding every city of `[0, n)`.
pub open spec fn full_mask(n: nat) -> u32 {
    !(0xffff_ffffu32 << (n as u32))
}

/// City `j` is in the visited set `mask`.
pub open spec fn visits(mask: u32, j: int) -> bool {
    mask & (1u32 << (j as u32)) != 0u32
}

/// The visited set `mask` with city `j` added.
pub open spec fn with_city(mask: u32, j: int) -> u32 {
    mask | (1u32 << (j as u32))
}

/// Best choice among the first `k` candidate next cities from state `(mask, cur)`:
/// the cost of the cheapest completion through one of them, and that city.
/// Candidates are tried in ascending order and only a strictly cheaper one
/// replaces the current best, so among equal costs the lowest index wins.
pub open spec fn scan(d: Seq<Vec<i64>>, n: nat, mask: u32, cur: int, k: nat) -> Option<(int, int)>
    decreases 0xffff_ffffint - mask, k,
{
    if k == 0 {
        None
    } else {
        let prev = scan(d, n, mask, cur, (k - 1) as nat);
        let j = k - 1;
        let nm = with_city(mask, j);
        if visits(mask, j) || nm <= mask {
            prev
        } else {
            let c = dist(d, cur, j) + completion(d, n, nm, j);
            match prev {
                None => Some((c, j)),
                Some(p) => if c < p.0 {
                    Some((c, j))
                } else {
                    prev
                },
            }
        }
    }
}

/// Least cost of leaving `cur`, having visited `mask`, visiting every other
/// city once and returning to city 0.
pub open spec fn completion(d: Seq<Vec<i64>>, n: nat, mask: u32, cur: int) -> int
    decreases 0xffff_ffffint - mask, n + 1,
{
    if mask == full_mask(n) {
        dist(d, cur, 0)
    } else {
        match scan(d, n, mask, cur, n) {
            Some(p) => p.0,
            None => 0,
        }
    }
}

/// The next city chosen from state `(mask, cur)`.
pub open spec fn next_hop(d: Seq<Vec<i64>>, n: nat, mask: u32, cur: int) -> int {
    match scan(d, n, mask, cur, n) {
        Some(p) => p.1,
        None => 0,
    }
}

/// The cities visited after `cur` when following the chosen next cities from
/// state `(mask, cur)` until every city is visited.
pub open spec fn tour_from(d: Seq<Vec<i64>>, n: nat, mask: u32, cur: int) -> Seq<int>
    decreases 0xffff_ffffint - mask,
{
    let j = next_hop(d, n, mask, cur);
    let nm = with_city(mask, j);
    if mask == full_mask(n) || visits(mask, j) || nm <= mask {
        Seq::empty()
    } else {
        seq![j] + tour_from(d, n, nm, j)
    }
}

/// The cost and the visiting order that solving the matrix `d` yields.
pub open spec fn solution(d: Seq<Vec<i64>>) -> (int, Seq<int>) {
    if d.len() == 0 {
        (0, Seq::empty())
    } else if d.len() == 1 {
        (0, seq![0])
    } else {
        (completion(d, d.len(), 1, 0), seq![0int] + tour_from(d, d.len(), 1, 0))
    }
}

/// A cost bound that leaves room for one more edge with every city added.
pub open spec fn cost_bound(mask: u32) -> int {
    (0x1_0000_0000int - mask) * 0xffff_ffff_ffff_ffffint
}

/// Position of state `(mask, cur)` in the flat tables.
pub open spec fn slot(n: nat, mask: u32, cur: int) -> int {
    mask * n + cur
}

/// The table entries of state `(mask, cur)` hold its completion cost and
/// next city, and that cost is within bounds.
pub open spec fn entry_ok(
    memo: Seq<u128>,
    parent: Seq<usize>,
    d: Seq<Vec<i64>>,
    n: nat,
    mask: u32,
    cur: int,
) -> bool {
    &&& memo[slot(n, mask, cur)] == completion(d, n, mask, cur)
    &&& parent[slot(n, mask, cur)] == next_hop(d, n, mask, cur)
    &&& 0 <= completion(d, n, mask, cur) <= cost_bound(mask)
}


proof fn lemma_add_city(mask: u32, j: u32, n: u32)
    requires
        j < n <= 20,
        mask <= !(0xffff_ffffu32 << n),
        mask & (1u32 << j) == 0u32,
    ensures
        (mask | (1u32 << j)) > mask,
        (mask | (1u32 << j)) <= !(0xffff_ffffu32 << n),
{
    assert((mask | (1u32 << j)) > mask && (mask | (1u32 << j)) <= !(0xffff_ffffu32 << n))
        by (bit_vector)
        requires
            j < n <= 20,
            mask <= !(0xffff_ffffu32 << n),
            mask & (1u32 << j) == 0u32,
    ;
}

proof fn lemma_full_mask(n: u32)
    requires
        n <= 20,
    ensures
        !(0xffff_ffffu32 << n) < 0x10_0000u32,
        1u32 <= !(0xffff_ffffu32 << n) || n == 0,
        n >= 2 ==> 3u32 <= !(0xffff_ffffu32 << n),
{
    assert(!(0xffff_ffffu32 << n) < 0x10_0000u32) by (bit_vector)
        requires
            n <= 20,
    ;
    assert(1u32 <= !(0xffff_ffffu32 << n) || n == 0) by (bit_vector);
    assert(n >= 2 ==> 3u32 <= !(0xffff_ffffu32 << n)) by (bit_vector)
        requires
            n <= 20,
    ;
}

proof fn lemma_slot(n: nat, m1: u32, c1: int, m2: u32, c2: int, f: u32)
    requires
        0 <= c1 < n,
        0 <= c2 < n,
        m1 <= f,
        m2 <= f,
    ensures
        0 <= slot(n, m1, c1) < (f + 1) * n,
        (m1 != m2 || c1 != c2) ==> slot(n, m1, c1) != slot(n, m2, c2),
{
    assert(0 <= m1 * n + c1 < (f + 1) * n) by (nonlinear_arith)
        requires
            0 <= c1 < n,
            m1 <= f,
            0 <= m1,
    ;
    if m1 < m2 {
        assert(m1 * n + c1 < m2 * n + c2) by (nonlinear_arith)
            requires
                0 <= c1 < n,
                0 <= c2,
                m1 < m2,
        ;
    } else if m2 < m1 {
        assert(m2 * n + c2 < m1 * n + c1) by (nonlinear_arith)
            requires
                0 <= c2 < n,
                0 <= c1,
                m2 < m1,
        ;
    }
}

proof fn lemma_bound_step(nm: u32, mask: u32, e: int, c: int)
    requires
        nm > mask,
        0 <= e <= 0xffff_ffff_ffff_ffff,
        0 <= c <= cost_bound(nm),
    ensures
        0 <= e + c <= cost_bound(mask),
{
    assert(0 <= e + c <= cost_bound(mask)) by (nonlinear_arith)
        requires
            nm > mask,
            0 <= e <= 0xffff_ffff_ffff_ffff,
            0 <= c <= (0x1_0000_0000int - nm) * 0xffff_ffff_ffff_ffffint,
            cost_bound(mask) == (0x1_0000_0000int - mask) * 0xffff_ffff_ffff_ffffint,
            nm <= 0xffff_ffff,
    ;
}

proof fn lemma_scan_range(d: Seq<Vec<i64>>, n: nat, mask: u32, cur: int, k: nat)
    ensures
        scan(d, n, mask, cur, k) matches Some(p) ==> 0 <= p.1 < k,
    decreases k,
{
    if k > 0 {
        lemma_scan_range(d, n, mask, cur, (k - 1) as nat);
    }
}

/// Number of cities in the visited set `mask`.
pub open spec fn popcount(mask: u32) -> nat
    decreases mask,
{
    if mask == 0 {
        0
    } else {
        (mask % 2) as nat + popcount(mask / 2)
    }
}

/// A state of the search that is reached from the start `({0}, 0)` and has at
/// most three cities visited: the states that the diagnostic trace lists.
pub open spec fn traced_state(n: nat, mask: u32, cur: int) -> bool {
    &&& 1 <= mask < full_mask(n)
    &&& 0 <= cur < n
    &&& visits(mask, 0)
    &&& visits(mask, cur)
    &&& (cur != 0 || mask == 1)
    &&& popcount(mask) <= 3
}

proof fn lemma_popcount_bound(mask: u32)
    ensures
        popcount(mask) <= mask,
    decreases mask,
{
    if mask > 0 {
        lemma_popcount_bound((mask / 2) as u32);
    }
}

/// Counts the cities in a visited set.
pub fn count_bits(mask: u32) -> (r: u32)
    ensures
        r == popcount(mask),
{
    proof {
        lemma_popcount_bound(mask);
    }
    let mut m: u32 = mask;
    let mut count: u32 = 0;
    while m > 0
        invariant
            count + popcount(m) == popcount(mask),
            popcount(mask) <= mask,
        decreases m,
    {
        assert(m & 1 == m % 2 && m >> 1 == m / 2) by (bit_vector);
        count = count + (m & 1);
        m = m >> 1;
    }
    count
}

/// Exact Held-Karp solver for the travelling salesman problem on a complete
/// directed graph, with city 0 as the fixed origin of the tour.
pub struct TSPSolver {
    distance_matrix: Vec<Vec<i64>>,
    n: usize,
    memo: Vec<u128>,
    parent: Vec<usize>,
}

impl TSPSolver {
    /// The distance matrix this solver was built with.
    pub closed spec fn matrix(&self) -> Seq<Vec<i64>> {
        self.distance_matrix@
    }

    /// The city count matches the matrix.
    pub closed spec fn wf(&self) -> bool {
        self.n == self.distance_matrix.len()
    }

    /// The tables hold every state below the full set.
    spec fn tables_ready(&self) -> bool {
        let d = self.distance_matrix@;
        let n = self.n as nat;
        let f = full_mask(n);
        &&& self.wf()
        &&& 2 <= n <= MAX_CITIES
        &&& is_square(d)
        &&& is_nonnegative(d)
        &&& self.memo.len() == (f + 1) * n
        &&& self.parent.len() == (f + 1) * n
        &&& forall|m: u32, c: int|
            1 <= m < f && 0 <= c < n ==> #[trigger] entry_ok(self.memo@, self.parent@, d, n, m, c)
    }

    /// Solves the instance: the least cost of a cycle through every city
    /// starting and ending at city 0, and the order in which it visits the
    /// cities, starting with 0. The closing edge back to city 0 is part of
    /// the cost but not repeated in the order. Among cycles of equal cost the
    /// one whose next city has the lowest index at each step is reported.
    pub fn solve(&mut self) -> (r: (u128, Vec<usize>))
        requires
            old(self).wf(),
            old(self).matrix().len() <= MAX_CITIES,
            is_square(old(self).matrix()),
            is_nonnegative(old(self).matrix()),
        ensures
            final(self).wf(),
            final(self).matrix() == old(self).matrix(),
            r.0 as int == solution(old(self).matrix()).0,
            r.1@.map_values(|v: usize| v as int) == solution(old(self).matrix()).1,
    {
        let n = self.n;
        if n == 0 {
            let path: Vec<usize> = Vec::new();
            assert(path@.map_values(|v: usize| v as int) =~= Seq::<int>::empty());
            return (0, path);
        }
        if n == 1 {
            let mut path: Vec<usize> = Vec::new();
            path.push(0);
            assert(path@.map_values(|v: usize| v as int) =~= seq![0int]);
            return (0, path);
        }
        self.dp();
        proof {
            lemma_full_mask(n as u32);
            lemma_slot(n as nat, 1, 0, 1, 0, full_mask(n as nat));
            assert(entry_ok(self.memo@, self.parent@, self.distance_matrix@, n as nat, 1, 0));
        }
        let min_cost = self.memo[n];
        let path = self.reconstruct_path();
        (min_cost, path)
    }

    /// Diagnostic trace of the search: for each state reached from the start
    /// with at most three cities visited, its visited set, its city and its
    /// completion cost, in increasing order of visited set and then city.
    pub fn dp_trace(&mut self) -> (r: Vec<(u32, usize, u128)>)
        requires
            old(self).wf(),
            2 <= old(self).matrix().len() <= MAX_CITIES,
            is_square(old(self).matrix()),
            is_nonnegative(old(self).matrix()),
        ensures
            final(self).wf(),
            final(self).matrix() == old(self).matrix(),
            forall|i: int|
                0 <= i < r.len() ==> traced_state(old(self).matrix().len(), (#[trigger] r@[i]).0, r@[i].1 as int)
                    && r@[i].2 as int == completion(
                    old(self).matrix(),
                    old(self).matrix().len(),
                    r@[i].0,
                    r@[i].1 as int,
                ),
            forall|m: u32, c: int|
                #[trigger] traced_state(old(self).matrix().len(), m, c) ==> exists|i: int|
                    0 <= i < r.len() && r@[i].0 == m && r@[i].1 == c,
            forall|i: int, j: int|
                0 <= i < j < r.len() ==> (#[trigger] r@[i]).0 < (#[trigger] r@[j]).0 || (r@[i].0
                    == r@[j].0 && r@[i].1 < r@[j].1),
    {
        self.dp();
        let n = self.n;
        let ghost d = self.distance_matrix@;
        let ghost nn = n as nat;
        let full: u32 = !(0xffff_ffffu32 << (n as u32));
        proof {
            lemma_full_mask(n as u32);
        }
        let mut out: Vec<(u32, usize, u128)> = Vec::new();
        let mut mask: u32 = 1;
        while mask < full
            invariant
                self.tables_ready(),
                n == self.n,
                nn == n,
                d == self.distance_matrix@,
                full == full_mask(nn),
                full < 0x10_0000,
                1 <= mask <= full,
                forall|i: int|
                    0 <= i < out.len() ==> traced_state(nn, (#[trigger] out@[i]).0, out@[i].1 as int)
                        && out@[i].2 as int == completion(d, nn, out@[i].0, out@[i].1 as int)
                        && out@[i].0 < mask,
                forall|m: u32, c: int|
                    #[trigger] traced_state(nn, m, c) && m < mask ==> exists|i: int|
                        0 <= i < out.len() && out@[i].0 == m && out@[i].1 == c,
                forall|i: int, j: int|
                    0 <= i < j < out.len() ==> (#[trigger] out@[i]).0 < (#[trigger] out@[j]).0 || (
                    out@[i].0 == out@[j].0 && out@[i].1 < out@[j].1),
            decreases full - mask,
        {
            let bits = count_bits(mask);
            let mut cur: usize = 0;
            while cur < n
                invariant
                    self.tables_ready(),
                    n == self.n,
                    nn == n,
                    d == self.distance_matrix@,
                    full == full_mask(nn),
                    full < 0x10_0000,
                    1 <= mask < full,
                    bits == popcount(mask),
                    cur <= n,
                    forall|i: int|
                        0 <= i < out.len() ==> traced_state(nn, (#[trigger] out@[i]).0, out@[i].1 as int)
                            && out@[i].2 as int == completion(d, nn, out@[i].0, out@[i].1 as int)
                            && (out@[i].0 < mask || (out@[i].0 == mask && out@[i].1 < cur)),
                    forall|m: u32, c: int|
                        #[trigger] traced_state(nn, m, c) && (m < mask || (m == mask && c < cur)) ==> exists|i: int|
                            0 <= i < out.len() && out@[i].0 == m && out@[i].1 == c,
                    forall|i: int, j: int|
                        0 <= i < j < out.len() ==> (#[trigger] out@[i]).0 < (#[trigger] out@[j]).0 || (
                        out@[i].0 == out@[j].0 && out@[i].1 < out@[j].1),
                decreases n - cur,
            {
                if mask & 1 != 0 && mask & (1u32 << (cur as u32)) != 0 && (cur != 0 || mask == 1)
                    && bits <= 3 {
                    proof {
                        lemma_slot(nn, mask, cur as int, mask, cur as int, full);
                        assert(entry_ok(self.memo@, self.parent@, d, nn, mask, cur as int));
                        assert(1u32 << 0u32 == 1u32) by (bit_vector);
                    }
                    let v = self.memo[mask as usize * n + cur];
                    let ghost before = out@;
                    out.push((mask, cur, v));
                    assert forall|m: u32, c: int|
                        #[trigger] traced_state(nn, m, c) && (m < mask || (m == mask && c < cur + 1)) implies exists|i: int|
                            0 <= i < out.len() && out@[i].0 == m && out@[i].1 == c by {
                        if m == mask && c == cur {
                            assert(out@[before.len() as int].0 == m);
                        } else {
                            let i = choose|i: int| 0 <= i < before.len() && before[i].0 == m && before[i].1 == c;
                            assert(out@[i] == before[i]);
                        }
                    }
                } else {
                    proof {
                        assert(1u32 << 0u32 == 1u32) by (bit_vector);
                    }
                    assert forall|m: u32, c: int|
                        #[trigger] traced_state(nn, m, c) && (m < mask || (m == mask && c < cur + 1)) implies exists|i: int|
                            0 <= i < out.len() && out@[i].0 == m && out@[i].1 == c by {
                        if m == mask && c == cur {
                            assert(false);
                        }
                    }
                }
                cur += 1;
            }
            mask += 1;
        }
        assert forall|m: u32, c: int| #[trigger] traced_state(nn, m, c) implies exists|i: int|
            0 <= i < out.len() && out@[i].0 == m && out@[i].1 == c by {
            assert(m < mask);
        }
        out
    }

    /// Follows the recorded next cities from the start state `({0}, 0)`.
    fn reconstruct_path(&self) -> (path: Vec<usize>)
        requires
            self.tables_ready(),
        ensures
            path@.map_values(|v: usize| v as int) == seq![0int] + tour_from(
                self.distance_matrix@,
                self.n as nat,
                1,
                0,
            ),
    {
        let n = self.n;
        let ghost d = self.distance_matrix@;
        let ghost nn = n as nat;
        let full: u32 = !(0xffff_ffffu32 << (n as u32));
        proof {
            lemma_full_mask(n as u32);
        }
        let mut path: Vec<usize> = Vec::new();
        path.push(0);
        let mut mask: u32 = 1;
        let mut cur: usize = 0;
        assert(path@.map_values(|v: usize| v as int) =~= seq![0int]);
        loop
            invariant
                self.tables_ready(),
                n == self.n,
                nn == n,
                d == self.distance_matrix@,
                full == full_mask(nn),
                full < 0x10_0000,
                1 <= mask <= full,
                cur < n,
                path@.map_values(|v: usize| v as int) + tour_from(d, nn, mask, cur as int)
                    == seq![0int] + tour_from(d, nn, 1, 0),
            ensures
                path@.map_values(|v: usize| v as int) == seq![0int] + tour_from(d, nn, 1, 0),
            decreases 0xffff_ffffint - mask,
        {
            if mask == full {
                assert(tour_from(d, nn, mask, cur as int) =~= Seq::<int>::empty());
                assert(path@.map_values(|v: usize| v as int) + Seq::<int>::empty()
                    =~= path@.map_values(|v: usize| v as int));
                break;
            }
            proof {
                lemma_slot(nn, mask, cur as int, mask, cur as int, full);
                assert(entry_ok(self.memo@, self.parent@, d, nn, mask, cur as int));
                lemma_scan_range(d, nn, mask, cur as int, nn);
            }
            let j = self.parent[mask as usize * n + cur];
            if mask & (1u32 << (j as u32)) != 0 {
                assert(tour_from(d, nn, mask, cur as int) =~= Seq::<int>::empty());
                assert(path@.map_values(|v: usize| v as int) + Seq::<int>::empty()
                    =~= path@.map_values(|v: usize| v as int));
                break;
            }
            proof {
                lemma_add_city(mask, j as u32, n as u32);
            }
            let ghost before = path@.map_values(|v: usize| v as int);
            let ghost t = tour_from(d, nn, mask, cur as int);
            let nm: u32 = mask | (1u32 << (j as u32));
            assert(t == seq![j as int] + tour_from(d, nn, nm, j as int));
            path.push(j);
            assert(path@.map_values(|v: usize| v as int) =~= before.push(j as int));
            assert(before + t =~= before.push(j as int) + tour_from(d, nn, nm, j as int));
            mask = nm;
            cur = j;
        }
        path
    }

    pub fn new(distance_matrix: Vec<Vec<i64>>) -> (r: Self)
        ensures
            r.wf(),
            r.matrix() == distance_matrix@,
    {
        let n = distance_matrix.len();
        TSPSolver { distance_matrix, n, memo: Vec::new(), parent: Vec::new() }
    }

    /// Fills the cost and next-city tables for every state `(mask, cur)`
    /// with `mask` below the full set, sweeping masks downwards so that
    /// every larger mask a state depends on is already known.
    fn dp(&mut self)
        requires
            old(self).wf(),
            2 <= old(self).n <= MAX_CITIES,
            is_square(old(self).distance_matrix@),
            is_nonnegative(old(self).distance_matrix@),
        ensures
            final(self).tables_ready(),
            final(self).wf(),
            final(self).distance_matrix == old(self).distance_matrix,
            final(self).n == old(self).n,
    {
        let n = self.n;
        let ghost d = self.distance_matrix@;
        let ghost nn = n as nat;
        let full: u32 = !(0xffff_ffffu32 << (n as u32));
        proof {
            lemma_full_mask(n as u32);
        }
        assert((full as int + 1) * n <= 0x10_0000 * 20) by (nonlinear_arith)
            requires
                full < 0x10_0000,
                n <= 20,
        ;
        let size: usize = (full as usize + 1) * n;
        let mut memo: Vec<u128> = Vec::new();
        let mut parent: Vec<usize> = Vec::new();
        let mut i: usize = 0;
        while i < size
            invariant
                i <= size,
                memo.len() == i,
                parent.len() == i,
            decreases size - i,
        {
            memo.push(0);
            parent.push(0);
            i += 1;
        }
        let mut mask: u32 = full;
        while mask > 1
            invariant
                n == self.n,
                nn == n,
                2 <= n <= MAX_CITIES,
                d == self.distance_matrix@,
                d.len() == n,
                is_square(d),
                is_nonnegative(d),
                full == full_mask(nn),
                full < 0x10_0000,
                size == (full + 1) * n,
                1 <= mask <= full,
                memo.len() == size,
                parent.len() == size,
                forall|m: u32, c: int|
                    mask <= m < full && 0 <= c < nn ==> #[trigger] entry_ok(memo@, parent@, d, nn, m, c),
            decreases mask,
        {
            mask = mask - 1;
            let mut cur: usize = 0;
            while cur < n
                invariant
                    n == self.n,
                    nn == n,
                    2 <= n <= MAX_CITIES,
                    d == self.distance_matrix@,
                    d.len() == n,
                    is_square(d),
                    is_nonnegative(d),
                    full == full_mask(nn),
                    full < 0x10_0000,
                    size == (full + 1) * n,
                    1 <= mask < full,
                    cur <= n,
                    memo.len() == size,
                    parent.len() == size,
                    forall|m: u32, c: int|
                        ((mask < m < full && 0 <= c < nn) || (m == mask && 0 <= c < cur)) ==> #[trigger] entry_ok(memo@, parent@, d, nn, m, c),
                decreases n - cur,
            {
                let row = &self.distance_matrix[cur];
                assert(row@.len() == n) by {
                    assert(d[cur as int]@.len() == d.len());
                }
                let mut found = false;
                let mut min_cost: u128 = 0;
                let mut best_next: usize = 0;
                let mut next: usize = 0;
                while next < n
                    invariant
                        n == self.n,
                        nn == n,
                        2 <= n <= MAX_CITIES,
                        d == self.distance_matrix@,
                        d.len() == n,
                        is_square(d),
                        is_nonnegative(d),
                        full == full_mask(nn),
                        full < 0x10_0000,
                        size == (full + 1) * n,
                        1 <= mask < full,
                        cur < n,
                        next <= n,
                        row@ == d[cur as int]@,
                        row@.len() == n,
                        memo.len() == size,
                        parent.len() == size,
                        forall|m: u32, c: int|
                            ((mask < m < full && 0 <= c < nn) || (m == mask && 0 <= c < cur)) ==> #[trigger] entry_ok(memo@, parent@, d, nn, m, c),
                        found <==> scan(d, nn, mask, cur as int, next as nat) is Some,
                        found ==> scan(d, nn, mask, cur as int, next as nat) == Some(
                            (min_cost as int, best_next as int),
                        ),
                        found ==> min_cost <= cost_bound(mask),
                        !found ==> best_next == 0,
                        best_next < n,
                    decreases n - next,
                {
                    proof {
                        reveal_with_fuel(scan, 1);
                    }
                    if mask & (1u32 << (next as u32)) == 0 {
                        let nm: u32 = mask | (1u32 << (next as u32));
                        proof {
                            lemma_add_city(mask, next as u32, n as u32);
                        }
                        let rest: u128;
                        if nm == full {
                            assert(d[next as int]@.len() == d.len());
                            let back = self.distance_matrix[next][0];
                            assert(0 <= d[next as int]@[0]);
                            rest = back as u128;
                            assert(completion(d, nn, nm, next as int) == dist(d, next as int, 0));
                            assert(rest <= cost_bound(nm)) by (nonlinear_arith)
                                requires
                                    rest <= 0x7fff_ffff_ffff_ffffu64,
                                    nm <= 0xffff_ffffu32,
                            ;
                        } else {
                            proof {
                                lemma_slot(nn, nm, next as int, nm, next as int, full);
                            }
                            rest = memo[nm as usize * n + next];
                            assert(entry_ok(memo@, parent@, d, nn, nm, next as int));
                        }
                        let edge = row[next];
                        assert(0 <= d[cur as int]@[next as int]);
                        proof {
                            lemma_bound_step(nm, mask, edge as int, rest as int);
                        }
                        let c: u128 = edge as u128 + rest;
                        assert(c == dist(d, cur as int, next as int) + completion(d, nn, nm, next as int));
                        if !found || c < min_cost {
                            found = true;
                            min_cost = c;
                            best_next = next;
                        }
                    }
                    next = next + 1;
                }
                proof {
                    lemma_slot(nn, mask, cur as int, mask, cur as int, full);
                }
                let idx: usize = mask as usize * n + cur;
                let value: u128 = if found { min_cost } else { 0 };
                let ghost memo0 = memo@;
                let ghost parent0 = parent@;
                assert(mask != full_mask(nn));
                assert(value == completion(d, nn, mask, cur as int));
                assert(best_next == next_hop(d, nn, mask, cur as int));
                memo.set(idx, value);
                parent.set(idx, best_next);
                assert forall|m: u32, c: int|
                    ((mask < m < full && 0 <= c < nn) || (m == mask && 0 <= c < cur + 1)) implies
                    #[trigger] entry_ok(memo@, parent@, d, nn, m, c) by {
                    lemma_slot(nn, m, c, mask, cur as int, full);
                    if m == mask && c == cur {
                    } else {
                        assert(entry_ok(memo0, parent0, d, nn, m, c));
                        assert(memo@[slot(nn, m, c)] == memo0[slot(nn, m, c)]);
                        assert(parent@[slot(nn, m, c)] == parent0[slot(nn, m, c)]);
                    }
                }
                cur = cur + 1;
            }
        }
        self.memo = memo;
        self.parent = parent;
    }
}

} // verus!
