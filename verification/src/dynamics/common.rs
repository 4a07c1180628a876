//! What the exchange dynamics share: the table of bonds, and the reservoirs
//! coupled to the left and right boundary columns.

use crate::dynamics::ReservoirType;
use crate::ising_model::IsingModel;
use crate::lattice::{
    bottom_of, exchange_delta, flip_delta, flipped, grid_neighbors, lemma_seq_sum_update,
    lemma_side_fits, lemma_site_row_col, side_fits, spins_valid, top_of,
};
use crate::random::{shuffle_values, toss};
use rand::distr::Bernoulli;
use rand::rngs::SmallRng;
use vstd::arithmetic::div_mod::{lemma_add_mod_noop_right, lemma_small_mod};
use vstd::prelude::*;

verus! {

broadcast use vstd::seq_lib::group_to_multiset_ensures;

/// The number of horizontal bonds: each row's `l - 1` bonds inside the row.
pub open spec fn num_horizontal(l: int) -> int {
    l * (l - 1)
}

/// The number of bonds inside the lattice: horizontal ones, and one vertical
/// bond below every site, the bottom row's wrapping to the top row.
pub open spec fn num_internal(l: int) -> int {
    l * (l - 1) + l * l
}

/// The number of all bonds: the internal ones and one reservoir bond at each
/// end of every row.
pub open spec fn num_bonds(l: int) -> int {
    l * (l - 1) + l * l + 2 * l
}

/// Bond `r` of the table. An internal bond is the pair of its sites; a
/// reservoir bond is its boundary site and its side, 0 for the left reservoir
/// and 1 for the right one.
pub open spec fn edge_spec(l: int, r: int) -> (int, int) {
    if r < num_horizontal(l) {
        let a = (r / (l - 1)) * l + r % (l - 1);
        (a, a + 1)
    } else if r < num_internal(l) {
        let a = r - num_horizontal(l);
        (a, bottom_of(l, a))
    } else {
        let k = r - num_internal(l);
        let y = k / 2;
        if k % 2 == 0 {
            (y * l, 0)
        } else {
            ((y + 1) * l - 1, 1)
        }
    }
}

/// `edges` is the bond table of an `l x l` lattice.
pub open spec fn edges_built(l: int, edges: Seq<[u32; 2]>) -> bool {
    &&& edges.len() == num_bonds(l)
    &&& forall|r: int|
        #![trigger edges[r]]
        0 <= r < edges.len() ==> edges[r][0] as int == edge_spec(l, r).0 && edges[r][1] as int
            == edge_spec(l, r).1
}

/// The number of reservoir spins in each quenched reservoir sequence.
pub const RESERVOIR_SIZE: usize = 10000;

/// How far one sweep can move the stored energy, a demon or a current: at
/// most 20 for each of at most `4 * l * l` bond visits, and 40 for each row's
/// pair of reservoir bonds.
pub open spec fn sweep_drift(l: int) -> int {
    80 * (l * l) + 40 * l
}

/// Every entry of `v` lies in `-b ..= b`.
pub open spec fn all_within(v: Seq<i32>, b: int) -> bool {
    forall|i: int| 0 <= i < v.len() ==> -b <= #[trigger] v[i] <= b
}

/// `a` and `b` have one length, and each entry of `a` lies within `d` of the
/// same entry of `b`.
pub open spec fn seqs_near(a: Seq<i32>, b: Seq<i32>, d: int) -> bool {
    &&& a.len() == b.len()
    &&& forall|i: int| 0 <= i < a.len() ==> -d <= #[trigger] a[i] - b[i] <= d
}

/// Nearness adds up along a chain.
pub proof fn lemma_seqs_near_trans(a: Seq<i32>, b: Seq<i32>, c: Seq<i32>, d1: int, d2: int)
    requires
        seqs_near(a, b, d1),
        seqs_near(b, c, d2),
    ensures
        seqs_near(a, c, d1 + d2),
{
    assert forall|i: int| 0 <= i < a.len() implies -(d1 + d2) <= #[trigger] a[i] - c[i] <= d1 + d2 by {
        assert(-d1 <= a[i] - b[i] <= d1);
        assert(-d2 <= b[i] - c[i] <= d2);
    }
}

/// What lies near bounded entries is bounded by the sum.
pub proof fn lemma_within_near(a: Seq<i32>, b: Seq<i32>, bound: int, d: int)
    requires
        all_within(b, bound),
        seqs_near(a, b, d),
    ensures
        all_within(a, bound + d),
{
    assert forall|i: int| 0 <= i < a.len() implies -(bound + d) <= #[trigger] a[i] <= bound + d by {
        assert(-bound <= b[i] <= bound);
        assert(-d <= a[i] - b[i] <= d);
    }
}

/// Changing entry `i` of `a` by at most `d` leaves it near `a`.
pub proof fn lemma_seqs_near_update(a: Seq<i32>, i: int, v: i32, d: int)
    requires
        0 <= i < a.len(),
        -d <= v - a[i] <= d,
        d >= 0,
    ensures
        seqs_near(a.update(i, v), a, d),
{
}

/// `x` lies within `d` of `x0` or of some entry of `pool`.
pub open spec fn near_or_pool(x: i32, x0: i32, pool: Seq<i32>, d: int) -> bool {
    (-d <= x - x0 <= d) || exists|j: int| 0 <= j < pool.len() && -d <= x - #[trigger] pool[j] <= d
}

/// `a` and `b` have one length, and each entry of `a` lies within `d` of the
/// same entry of `b` or of some entry of `pool`.
pub open spec fn seqs_near_or_pool(a: Seq<i32>, b: Seq<i32>, pool: Seq<i32>, d: int) -> bool {
    &&& a.len() == b.len()
    &&& forall|i: int| 0 <= i < a.len() ==> near_or_pool(#[trigger] a[i], b[i], pool, d)
}

/// Nearness to the old entry or to the pool adds up along a chain.
pub proof fn lemma_near_or_pool_trans(
    a: Seq<i32>,
    b: Seq<i32>,
    c: Seq<i32>,
    pool: Seq<i32>,
    d1: int,
    d2: int,
)
    requires
        seqs_near_or_pool(a, b, pool, d1),
        seqs_near_or_pool(b, c, pool, d2),
        d1 >= 0,
        d2 >= 0,
    ensures
        seqs_near_or_pool(a, c, pool, d1 + d2),
{
    assert forall|i: int| 0 <= i < a.len() implies near_or_pool(#[trigger] a[i], c[i], pool, d1 + d2) by {
        assert(near_or_pool(a[i], b[i], pool, d1));
        assert(near_or_pool(b[i], c[i], pool, d2));
        if -d1 <= a[i] - b[i] <= d1 {
            if !(-d2 <= b[i] - c[i] <= d2) {
                let j = choose|j: int| 0 <= j < pool.len() && -d2 <= b[i] - #[trigger] pool[j] <= d2;
                assert(-(d1 + d2) <= a[i] - pool[j] <= d1 + d2);
            }
        } else {
            let j = choose|j: int| 0 <= j < pool.len() && -d1 <= a[i] - #[trigger] pool[j] <= d1;
            assert(-(d1 + d2) <= a[i] - pool[j] <= d1 + d2);
        }
    }
}

/// What lies near bounded entries or a bounded pool is bounded by the sum.
pub proof fn lemma_near_or_pool_within(a: Seq<i32>, b: Seq<i32>, pool: Seq<i32>, bound: int, d: int)
    requires
        all_within(b, bound),
        all_within(pool, bound),
        seqs_near_or_pool(a, b, pool, d),
    ensures
        all_within(a, bound + d),
{
    assert forall|i: int| 0 <= i < a.len() implies -(bound + d) <= #[trigger] a[i] <= bound + d by {
        assert(near_or_pool(a[i], b[i], pool, d));
        if !(-d <= a[i] - b[i] <= d) {
            let j = choose|j: int| 0 <= j < pool.len() && -d <= a[i] - #[trigger] pool[j] <= d;
            assert(-bound <= pool[j] <= bound);
        }
    }
}

/// Being near the old entries is one way of being near them or the pool.
pub proof fn lemma_near_gives_near_or_pool(a: Seq<i32>, b: Seq<i32>, pool: Seq<i32>, d: int)
    requires
        seqs_near(a, b, d),
    ensures
        seqs_near_or_pool(a, b, pool, d),
{
    assert forall|i: int| 0 <= i < a.len() implies near_or_pool(#[trigger] a[i], b[i], pool, d) by {
        assert(-d <= a[i] - b[i] <= d);
    }
}

/// Replacing entry `i` of `a` by an entry of `pool` leaves it near `a`.
pub proof fn lemma_near_or_pool_replace(a: Seq<i32>, pool: Seq<i32>, i: int, j: int, d: int)
    requires
        0 <= i < a.len(),
        0 <= j < pool.len(),
        d >= 0,
    ensures
        seqs_near_or_pool(a.update(i, pool[j]), a, pool, d),
{
    let a2 = a.update(i, pool[j]);
    assert forall|k: int| 0 <= k < a2.len() implies near_or_pool(#[trigger] a2[k], a[k], pool, d) by {
        if k == i {
            assert(-d <= a2[k] - pool[j] <= d);
        }
    }
}

/// The spin that a site holding `current` ends with when it is set towards the
/// reservoir spin `s`: flipped when it differs from `s`.
pub open spec fn set_toward(current: i32, s: i32) -> i32 {
    if current != s {
        (-current) as i32
    } else {
        current
    }
}

/// The coin that decides a reservoir flip: coin 0 (probability `(1 + m) / 2`)
/// when the boundary spin points the way its reservoir pushes away from, coin
/// 1 (probability `(1 - m) / 2`) otherwise. The left reservoir has
/// magnetisation `-m` and the right one `m`.
pub open spec fn reservoir_coin(side: int, spin: int) -> int {
    if (side == 0) == (spin == 1) {
        0
    } else {
        1
    }
}

/// The horizontal bonds of row `y` that start in the columns of parity `sx`,
/// left to right, as indices into the bond table.
pub open spec fn row_h_bonds(l: int, sx: int, y: int) -> Seq<int> {
    Seq::new(((l - sx) / 2) as nat, |k: int| y * (l - 1) + sx + 2 * k)
}

/// The horizontal bonds of rows `0 .. rows` that start in the columns of
/// parity `sx`, row by row.
pub open spec fn h_pass_bonds(l: int, sx: int, rows: int) -> Seq<int>
    decreases rows,
{
    if rows <= 0 {
        Seq::empty()
    } else {
        h_pass_bonds(l, sx, rows - 1) + row_h_bonds(l, sx, rows - 1)
    }
}

/// The vertical bonds of row `y`, left to right.
pub open spec fn row_v_bonds(l: int, y: int) -> Seq<int> {
    Seq::new(l as nat, |x: int| num_horizontal(l) + y * l + x)
}

/// The vertical bonds of the first `k` rows of parity `sy`, row by row.
pub open spec fn v_pass_bonds(l: int, sy: int, k: int) -> Seq<int>
    decreases k,
{
    if k <= 0 {
        Seq::empty()
    } else {
        v_pass_bonds(l, sy, k - 1) + row_v_bonds(l, sy + 2 * (k - 1))
    }
}

/// The order in which a checkerboard sweep visits the internal bonds: the
/// horizontal bonds from even columns, then from odd columns, then the
/// vertical bonds from even rows, then from odd rows.
pub open spec fn checkerboard_bonds(l: int) -> Seq<int> {
    h_pass_bonds(l, 0, l) + h_pass_bonds(l, 1, l) + v_pass_bonds(l, 0, (l + 1) / 2) + v_pass_bonds(
        l,
        1,
        l / 2,
    )
}

/// Step `i` of `trace` is the visit of place `order[i]` (a bond or a site).
pub open spec fn path_link<S>(step: spec_fn(S, S, int) -> bool, trace: Seq<S>, order: Seq<int>, i: int) -> bool {
    step(trace[i + 1], trace[i], order[i])
}

/// `trace` leads from `before` to `after` by visiting the places of `order`
/// in turn, each visit a `step`.
pub open spec fn visit_path<S>(
    step: spec_fn(S, S, int) -> bool,
    trace: Seq<S>,
    before: S,
    after: S,
    order: Seq<int>,
) -> bool {
    &&& trace.len() == order.len() + 1
    &&& trace[0] == before
    &&& trace[order.len() as int] == after
    &&& forall|i: int| 0 <= i < order.len() ==> #[trigger] path_link(step, trace, order, i)
}

/// Extending a path by one more visit.
pub proof fn lemma_visit_path_push<S>(
    step: spec_fn(S, S, int) -> bool,
    trace: Seq<S>,
    before: S,
    mid: S,
    after: S,
    order: Seq<int>,
    r: int,
)
    requires
        visit_path(step, trace, before, mid, order),
        step(after, mid, r),
    ensures
        visit_path(step, trace.push(after), before, after, order.push(r)),
{
    let t = trace.push(after);
    let o = order.push(r);
    assert forall|i: int| 0 <= i < o.len() implies #[trigger] path_link(step, t, o, i) by {
        if i < order.len() {
            assert(path_link(step, trace, order, i));
            assert(t[i + 1] == trace[i + 1]);
        }
    }
}

/// One path followed by another.
pub proof fn lemma_visit_path_concat<S>(
    step: spec_fn(S, S, int) -> bool,
    t1: Seq<S>,
    t2: Seq<S>,
    a: S,
    b: S,
    c: S,
    o1: Seq<int>,
    o2: Seq<int>,
)
    requires
        visit_path(step, t1, a, b, o1),
        visit_path(step, t2, b, c, o2),
    ensures
        visit_path(step, t1 + t2.skip(1), a, c, o1 + o2),
{
    let t = t1 + t2.skip(1);
    let o = o1 + o2;
    let n1 = o1.len() as int;
    assert(t.len() == o.len() + 1);
    assert forall|i: int| 0 <= i < o.len() implies #[trigger] path_link(step, t, o, i) by {
        if i < n1 {
            assert(path_link(step, t1, o1, i));
            assert(t[i] == t1[i]);
            assert(t[i + 1] == t1[i + 1]);
        } else {
            assert(path_link(step, t2, o2, i - n1));
            assert(t[i + 1] == t2[i + 1 - n1]);
            if i == n1 {
                assert(t[i] == t1[n1]);
            } else {
                assert(t[i] == t2[i - n1]);
            }
        }
    }
    if o2.len() == 0 {
        assert(t[o.len() as int] == t1[n1]);
    } else {
        assert(t[o.len() as int] == t2[o2.len() as int]);
    }
}

/// The horizontal bond from row `y`, column `x` to column `x + 1` is bond
/// `y * (l - 1) + x` of the table.
pub proof fn lemma_horizontal_bond_index(l: int, y: int, x: int)
    requires
        0 <= y < l,
        0 <= x,
        x + 1 < l,
    ensures
        0 <= y * (l - 1) + x < num_horizontal(l),
        edge_spec(l, y * (l - 1) + x) == (y * l + x, y * l + x + 1),
{
    assert(y * (l - 1) + x < l * (l - 1)) by (nonlinear_arith)
        requires
            0 <= y < l,
            0 <= x,
            x + 1 < l,
    ;
    assert(0 <= y * (l - 1)) by (nonlinear_arith)
        requires
            0 <= y,
            1 < l,
    ;
    lemma_site_row_col(l - 1, y, x);
}

/// The vertical bond from row `y`, column `x` to the row below (the bottom
/// row's wrapping to the top row) is bond `num_horizontal(l) + y * l + x` of
/// the table.
pub proof fn lemma_vertical_bond_index(l: int, y: int, x: int)
    requires
        0 <= y < l,
        0 <= x < l,
    ensures
        num_horizontal(l) <= num_horizontal(l) + y * l + x < num_internal(l),
        edge_spec(l, num_horizontal(l) + y * l + x) == (y * l + x, if y == l - 1 {
            x
        } else {
            y * l + x + l
        }),
{
    assert(y * l + x < l * l) by (nonlinear_arith)
        requires
            0 <= y < l,
            0 <= x < l,
    ;
    assert(0 <= y * l) by (nonlinear_arith)
        requires
            0 <= y,
            0 < l,
    ;
    if y == l - 1 {
        assert(y * l == l * l - l) by (nonlinear_arith)
            requires
                y == l - 1,
        ;
    } else {
        assert(y * l + x + l < l * l) by (nonlinear_arith)
            requires
                0 <= y,
                y + 1 < l,
                0 <= x < l,
        ;
    }
}

/// The bounds of the sites that a bond of the table names.
pub proof fn lemma_edge_sites(l: int, nb: Seq<[usize; 4]>, r: int)
    requires
        side_fits(l),
        l >= 1,
        grid_neighbors(l, nb),
        0 <= r < num_bonds(l),
    ensures
        ({
            let (a, b) = edge_spec(l, r);
            &&& 0 <= a < l * l
            &&& r < num_horizontal(l) ==> {
                &&& b == a + 1
                &&& 0 <= a % l < l - 1
                &&& b == nb[a][1]
                &&& a == nb[b][3]
                &&& b < l * l
            }
            &&& num_horizontal(l) <= r < num_internal(l) ==> {
                &&& b == nb[a][2]
                &&& a == nb[b][0]
                &&& 0 <= b < l * l
            }
            &&& num_internal(l) <= r ==> (b == 0 || b == 1)
        }),
{
    lemma_side_fits(l);
    let (a, b) = edge_spec(l, r);
    assert(l * (l - 1) == l * l - l) by (nonlinear_arith);
    if r < num_horizontal(l) {
        assert(l >= 2) by (nonlinear_arith)
            requires
                r < l * (l - 1),
                l >= 1,
                r >= 0,
        ;
        let y = r / (l - 1);
        let x = r % (l - 1);
        assert(r == y * (l - 1) + x && 0 <= x < l - 1 && 0 <= y) by {
            vstd::arithmetic::div_mod::lemma_fundamental_div_mod(r, l - 1);
            assert(y * (l - 1) == (l - 1) * y) by (nonlinear_arith);
        }
        assert(y < l) by (nonlinear_arith)
            requires
                r == y * (l - 1) + x,
                0 <= x,
                r < l * (l - 1),
                l >= 2,
        ;
        lemma_site_row_col(l, y, x);
        lemma_site_row_col(l, y, x + 1);
        assert(y * l + l <= l * l) by (nonlinear_arith)
            requires
                y < l,
                l >= 0,
        ;
        assert(y * l >= 0) by (nonlinear_arith)
            requires
                y >= 0,
                l >= 0,
        ;
        assert(nb[a][1] == a + 1);
        assert(nb[b][3] == b - 1);
    } else if r < num_internal(l) {
        assert(nb[a][2] == bottom_of(l, a));
        assert(top_of(l, bottom_of(l, a)) == a);
        assert(nb[b][0] == top_of(l, b));
    } else {
        let k = r - num_internal(l);
        let y = k / 2;
        assert(y < l);
        assert(y * l + l <= l * l) by (nonlinear_arith)
            requires
                y < l,
                l >= 0,
        ;
        assert(y * l >= 0) by (nonlinear_arith)
            requires
                y >= 0,
                l >= 0,
        ;
        assert((y + 1) * l == y * l + l) by (nonlinear_arith);
    }
}

/// The bond table of an `l x l` lattice, and the number of horizontal bonds,
/// of internal bonds and of all bonds.
pub fn build_edges(l: usize) -> (res: (Vec<[u32; 2]>, usize, usize, usize))
    requires
        side_fits(l as int),
        l >= 1,
    ensures
        res.1 == num_horizontal(l as int),
        res.2 == num_internal(l as int),
        res.3 == num_bonds(l as int),
        edges_built(l as int, res.0@),
{
    proof {
        lemma_side_fits(l as int);
        assert(l * (l - 1) == l * l - l) by (nonlinear_arith);
    }
    let n_horizontal = l * (l - 1);
    let n_vertical = l * l;
    let n_reservoir = 2 * l;
    let n_internal = n_horizontal + n_vertical;
    let n_total = n_internal + n_reservoir;
    let ghost li = l as int;
    let mut edges: Vec<[u32; 2]> = Vec::with_capacity(n_total);
    let mut y: usize = 0;
    while y < l
        invariant
            side_fits(li),
            li == l,
            l >= 1,
            0 <= y <= l,
            n_horizontal == l * (l - 1),
            n_total == num_bonds(li),
            edges@.len() == y * (l - 1),
            forall|r: int|
                #![trigger edges@[r]]
                0 <= r < edges@.len() ==> edges@[r][0] as int == edge_spec(li, r).0
                    && edges@[r][1] as int == edge_spec(li, r).1,
        decreases l - y,
    {
        proof {
            assert((y + 1) * (l - 1) == y * (l - 1) + (l - 1)) by (nonlinear_arith);
            assert(y * l + l <= l * l) by (nonlinear_arith)
                requires
                    y < l,
            ;
        }
        let mut x: usize = 0;
        while x < l - 1
            invariant
                side_fits(li),
                li == l,
                l >= 1,
                0 <= y < l,
                0 <= x <= l - 1,
                y * l + l <= l * l,
                n_horizontal == l * (l - 1),
                n_total == num_bonds(li),
                edges@.len() == y * (l - 1) + x,
                forall|r: int|
                    #![trigger edges@[r]]
                    0 <= r < edges@.len() ==> edges@[r][0] as int == edge_spec(li, r).0
                        && edges@[r][1] as int == edge_spec(li, r).1,
            decreases l - 1 - x,
        {
            let idx1 = (y * l + x) as u32;
            proof {
                let r = y * (l - 1) + x;
                lemma_site_row_col(li - 1, y as int, x as int);
                assert(r < l * (l - 1)) by (nonlinear_arith)
                    requires
                        r == y * (l - 1) + x,
                        x < l - 1,
                        y < l,
                ;
                assert(edge_spec(li, r as int).0 == y * l + x);
            }
            let ghost prev = edges@;
            edges.push([idx1, idx1 + 1]);
            proof {
                assert forall|r: int|
                    #![trigger edges@[r]]
                    0 <= r < edges@.len() implies edges@[r][0] as int == edge_spec(li, r).0
                        && edges@[r][1] as int == edge_spec(li, r).1 by {
                    if r < prev.len() {
                        assert(edges@[r] == prev[r]);
                    }
                }
            }
            x = x + 1;
        }
        y = y + 1;
    }
    proof {
        assert(edges@.len() == n_horizontal) by (nonlinear_arith)
            requires
                edges@.len() == y * (l - 1),
                y == l,
                n_horizontal == l * (l - 1),
        ;
    }
    let mut k: usize = 0;
    while k < n_vertical
        invariant
            side_fits(li),
            li == l,
            l >= 1,
            n_horizontal == l * (l - 1),
            n_vertical == l * l,
            n_horizontal + n_vertical + 2 * l == n_total,
            n_total == num_bonds(li),
            0 <= k <= n_vertical,
            edges@.len() == n_horizontal + k,
            forall|r: int|
                #![trigger edges@[r]]
                0 <= r < edges@.len() ==> edges@[r][0] as int == edge_spec(li, r).0
                    && edges@[r][1] as int == edge_spec(li, r).1,
        decreases n_vertical - k,
    {
        let idx1 = k as u32;
        proof {
            lemma_side_fits(li);
            let r = n_horizontal + k;
            assert(num_horizontal(li) == n_horizontal);
            assert(num_internal(li) == n_horizontal + n_vertical);
            assert(edge_spec(li, r as int) == (k as int, bottom_of(li, k as int)));
        }
        let idx2 = if k + l >= n_vertical {
            (k + l - n_vertical) as u32
        } else {
            idx1 + l as u32
        };
        let ghost prev = edges@;
        edges.push([idx1, idx2]);
        proof {
            assert forall|r: int|
                #![trigger edges@[r]]
                0 <= r < edges@.len() implies edges@[r][0] as int == edge_spec(li, r).0
                    && edges@[r][1] as int == edge_spec(li, r).1 by {
                if r < prev.len() {
                    assert(edges@[r] == prev[r]);
                }
            }
        }
        k = k + 1;
    }
    let mut y: usize = 0;
    while y < l
        invariant
            side_fits(li),
            li == l,
            l >= 1,
            n_horizontal == l * (l - 1),
            n_vertical == l * l,
            n_internal == n_horizontal + n_vertical,
            n_internal + 2 * l == n_total,
            n_total == num_bonds(li),
            0 <= y <= l,
            edges@.len() == n_internal + 2 * y,
            forall|r: int|
                #![trigger edges@[r]]
                0 <= r < edges@.len() ==> edges@[r][0] as int == edge_spec(li, r).0
                    && edges@[r][1] as int == edge_spec(li, r).1,
        decreases l - y,
    {
        proof {
            assert(y * l + l <= l * l) by (nonlinear_arith)
                requires
                    y < l,
            ;
            assert((y + 1) * l == y * l + l) by (nonlinear_arith);
        }
        let ghost prev = edges@;
        edges.push([(y * l) as u32, 0]);
        edges.push([((y + 1) * l - 1) as u32, 1]);
        proof {
            assert forall|r: int|
                #![trigger edges@[r]]
                0 <= r < edges@.len() implies edges@[r][0] as int == edge_spec(li, r).0
                    && edges@[r][1] as int == edge_spec(li, r).1 by {
                if r < prev.len() {
                    assert(edges@[r] == prev[r]);
                }
            }
        }
        y = y + 1;
    }
    (edges, n_horizontal, n_internal, n_total)
}

/// `r` is a reservoir of `size` spins of which `min(n_up, size)` point up and
/// the rest down, in any order.
pub open spec fn reservoir_holds(r: Seq<i32>, size: int, n_up: int) -> bool {
    let up = if n_up < size {
        n_up
    } else {
        size
    };
    &&& r.len() == size
    &&& spins_valid(r)
    &&& r.to_multiset().count(1i32) == up
    &&& r.to_multiset().count(-1i32) == size - up
}

/// A reservoir of `size` spins, `min(n_up, size)` of them up and the rest
/// down, in an order that `rng` shuffles.
pub fn build_reservoir(size: usize, n_up: usize, rng: &mut SmallRng) -> (arr: Vec<i32>)
    ensures
        reservoir_holds(arr@, size as int, n_up as int),
{
    let n_up = if n_up < size {
        n_up
    } else {
        size
    };
    let mut arr: Vec<i32> = Vec::with_capacity(size);
    let mut i: usize = 0;
    while i < n_up
        invariant
            0 <= i <= n_up <= size,
            arr@.len() == i,
            spins_valid(arr@),
            arr@.to_multiset().count(1i32) == i,
            arr@.to_multiset().count(-1i32) == 0,
        decreases n_up - i,
    {
        arr.push(1);
        i = i + 1;
    }
    while i < size
        invariant
            0 <= n_up <= i <= size,
            arr@.len() == i,
            spins_valid(arr@),
            arr@.to_multiset().count(1i32) == n_up,
            arr@.to_multiset().count(-1i32) == i - n_up,
        decreases size - i,
    {
        arr.push(-1);
        i = i + 1;
    }
    let ghost before = arr@;
    shuffle_values(&mut arr, rng);
    proof {
        assert forall|j: int| 0 <= j < arr@.len() implies (arr@[j] == 1 || arr@[j] == -1) by {
            let v = arr@[j];
            assert(arr@.contains(v));
            assert(arr@.to_multiset().count(v) > 0);
            assert(before.to_multiset().count(v) > 0);
            assert(before.contains(v));
        }
    }
    arr
}

/// Whether every entry of `v` lies in `-b ..= b`.
pub fn entries_within(v: &Vec<i32>, b: i64) -> (ok: bool)
    ensures
        ok == all_within(v@, b as int),
{
    if b < 0 {
        if v.len() > 0 {
            assert(!(-b <= v@[0] <= b));
        }
        return v.len() == 0;
    }
    let mut i: usize = 0;
    while i < v.len()
        invariant
            0 <= i <= v@.len(),
            0 <= b,
            forall|j: int| 0 <= j < i ==> -b <= #[trigger] v@[j] <= b,
        decreases v@.len() - i,
    {
        let x = v[i] as i64;
        if x < -b || x > b {
            return false;
        }
        i = i + 1;
    }
    true
}

/// The drift of one sweep of an `l x l` lattice (see `sweep_drift`).
pub fn sweep_drift_of(l: usize) -> (d: i64)
    requires
        side_fits(l as int),
    ensures
        d == sweep_drift(l as int),
{
    proof {
        lemma_side_fits(l as int);
    }
    let n = (l * l) as i64;
    80 * n + 40 * (l as i64)
}

/// The index of the coin that decides a reservoir flip of a site on `side`
/// holding `spin`.
pub fn reservoir_coin_index(side: u32, spin: i32) -> (c: usize)
    ensures
        c == reservoir_coin(side as int, spin as int),
{
    if (side == 0) == (spin == 1) {
        0
    } else {
        1
    }
}

impl IsingModel {
    /// `self` is `before` with site `idx` flipped and its flip delta added to
    /// the stored energy.
    pub open spec fn flipped_from(&self, before: &IsingModel, idx: int) -> bool {
        &&& self.l == before.l
        &&& self.neighbors@ == before.neighbors@
        &&& self.lattice@ == flipped(before.lattice@, idx)
        &&& self.energy == before.energy + flip_delta(before.lattice@, before.neighbors@, idx)
    }

    /// `self` is `before` with the spins of sites `a` and `b` exchanged (both
    /// flipped) and the exchange delta added to the stored energy.
    pub open spec fn exchanged_from(&self, before: &IsingModel, a: int, b: int) -> bool {
        &&& self.l == before.l
        &&& self.neighbors@ == before.neighbors@
        &&& self.lattice@ == flipped(flipped(before.lattice@, a), b)
        &&& self.energy == before.energy + exchange_delta(before.lattice@, before.neighbors@, a, b)
    }

    /// `self` holds the same spins, energy and neighbours as `before`.
    pub open spec fn same_as(&self, before: &IsingModel) -> bool {
        &&& self.l == before.l
        &&& self.neighbors@ == before.neighbors@
        &&& self.lattice@ == before.lattice@
        &&& self.energy == before.energy
    }
}

/// Exchanging two opposite spins keeps the total spin.
pub proof fn lemma_exchange_keeps_spin(after: IsingModel, before: IsingModel, a: int, b: int)
    requires
        before.wf(),
        after.wf(),
        0 <= a < before.l * before.l,
        0 <= b < before.l * before.l,
        before.lattice@[a] != before.lattice@[b],
        after.exchanged_from(&before, a, b),
    ensures
        after.total_spin == before.total_spin,
{
    let lat = before.lattice@;
    let lat1 = flipped(lat, a);
    lemma_seq_sum_update(lat, a, (-lat[a]) as i32);
    lemma_seq_sum_update(lat1, b, (-lat1[b]) as i32);
}

/// `after`, with cursors `cl1` and `cr1`, is `before`, with cursors `cl0` and
/// `cr0`, after boundary site `site` was coupled to the reservoir on `side`
/// (0 left, 1 right): either nothing changed or the site flipped. An annealed
/// reservoir leaves the cursors; a quenched one sets the site to the spin
/// under the side's cursor, which moves on by one, wrapping.
pub open spec fn reservoir_visit(
    after: IsingModel,
    before: IsingModel,
    site: int,
    side: int,
    reservoir_type: ReservoirType,
    left: Seq<i32>,
    right: Seq<i32>,
    cl0: int,
    cr0: int,
    cl1: int,
    cr1: int,
) -> bool {
    &&& after.same_as(&before) || after.flipped_from(&before, site)
    &&& match reservoir_type {
        ReservoirType::Annealed => cl1 == cl0 && cr1 == cr0,
        ReservoirType::Quenched => if side == 0 {
            &&& after.lattice@[site] == set_toward(before.lattice@[site], left[cl0])
            &&& cl1 == (cl0 + 1) % (left.len() as int)
            &&& cr1 == cr0
        } else {
            &&& after.lattice@[site] == set_toward(before.lattice@[site], right[cr0])
            &&& cr1 == (cr0 + 1) % (right.len() as int)
            &&& cl1 == cl0
        },
    }
}

/// Couples boundary site `site` to an annealed reservoir whose coin came up
/// `heads`: heads flips the site and adds its flip delta to the stored
/// energy, tails leaves the model as it was.
pub fn couple_annealed(model: &mut IsingModel, site: usize, heads: bool)
    requires
        old(model).wf(),
        site < old(model).l * old(model).l,
        old(model).energy_room(8),
    ensures
        final(model).wf(),
        heads ==> final(model).flipped_from(old(model), site as int),
        !heads ==> final(model).same_as(old(model)),
        -8 <= final(model).energy - old(model).energy <= 8,
        old(model).is_periodic() && old(model).l >= 2 && old(model).energy_consistent()
            ==> final(model).energy_consistent(),
{
    if heads {
        let delta = model.flip_energy_delta(site);
        model.flip(site, delta);
    }
}

/// Couples one row's first site `idx_l` to the left annealed reservoir and
/// its last site `idx_r` to the right one, the two coins having come up
/// `heads_l` and `heads_r`: first `idx_l` flips on heads, then `idx_r` does.
pub fn couple_annealed_row(
    model: &mut IsingModel,
    idx_l: usize,
    idx_r: usize,
    heads_l: bool,
    heads_r: bool,
)
    requires
        old(model).wf(),
        idx_l < old(model).l * old(model).l,
        idx_r < old(model).l * old(model).l,
        old(model).energy_room(16),
    ensures
        final(model).wf(),
        exists|mid: IsingModel|
            {
                &&& #[trigger] mid.wf()
                &&& heads_l ==> mid.flipped_from(old(model), idx_l as int)
                &&& !heads_l ==> mid.same_as(old(model))
                &&& heads_r ==> final(model).flipped_from(&mid, idx_r as int)
                &&& !heads_r ==> final(model).same_as(&mid)
            },
        -16 <= final(model).energy - old(model).energy <= 16,
        old(model).is_periodic() && old(model).l >= 2 && old(model).energy_consistent()
            ==> final(model).energy_consistent(),
{
    couple_annealed(model, idx_l, heads_l);
    let ghost mid = *model;
    couple_annealed(model, idx_r, heads_r);
    assert(mid.wf());
}

/// Couples boundary site `site` to the reservoir on `side` (0 left, 1 right).
/// An annealed reservoir flips the site when its coin came up `heads`; a
/// quenched one sets the site to the next spin of its sequence, whose cursor
/// then moves on, wrapping, and `heads` plays no part.
pub fn couple_reservoir_bond(
    model: &mut IsingModel,
    site: usize,
    side: u32,
    reservoir_type: ReservoirType,
    reservoir_left: &[i32],
    reservoir_right: &[i32],
    cursor_left: &mut usize,
    cursor_right: &mut usize,
    heads: bool,
)
    requires
        old(model).wf(),
        site < old(model).l * old(model).l,
        side <= 1,
        old(model).energy_room(8),
        reservoir_type == ReservoirType::Quenched && side == 0 ==> *old(cursor_left)
            < reservoir_left@.len(),
        reservoir_type == ReservoirType::Quenched && side == 1 ==> *old(cursor_right)
            < reservoir_right@.len(),
    ensures
        final(model).wf(),
        reservoir_visit(
            *final(model),
            *old(model),
            site as int,
            side as int,
            reservoir_type,
            reservoir_left@,
            reservoir_right@,
            *old(cursor_left) as int,
            *old(cursor_right) as int,
            *final(cursor_left) as int,
            *final(cursor_right) as int,
        ),
        final(model).same_as(old(model)) || final(model).flipped_from(old(model), site as int),
        -8 <= final(model).energy - old(model).energy <= 8,
        old(model).is_periodic() && old(model).l >= 2 && old(model).energy_consistent()
            ==> final(model).energy_consistent(),
        reservoir_type == ReservoirType::Annealed ==> *final(cursor_left) == *old(cursor_left)
            && *final(cursor_right) == *old(cursor_right),
        reservoir_type == ReservoirType::Annealed && heads ==> final(model).flipped_from(
            old(model),
            site as int,
        ),
        reservoir_type == ReservoirType::Annealed && !heads ==> final(model).same_as(old(model)),
        reservoir_type == ReservoirType::Quenched && side == 0 ==> {
            &&& final(model).lattice@[site as int] == set_toward(
                old(model).lattice@[site as int],
                reservoir_left@[*old(cursor_left) as int],
            )
            &&& *final(cursor_left) == (*old(cursor_left) + 1) % (reservoir_left@.len() as int)
            &&& *final(cursor_right) == *old(cursor_right)
        },
        reservoir_type == ReservoirType::Quenched && side == 1 ==> {
            &&& final(model).lattice@[site as int] == set_toward(
                old(model).lattice@[site as int],
                reservoir_right@[*old(cursor_right) as int],
            )
            &&& *final(cursor_right) == (*old(cursor_right) + 1) % (reservoir_right@.len() as int)
            &&& *final(cursor_left) == *old(cursor_left)
        },
{
    match reservoir_type {
        ReservoirType::Annealed => {
            couple_annealed(model, site, heads);
        },
        ReservoirType::Quenched => {
            let reservoir_spin = if side == 0 {
                let s = reservoir_left[*cursor_left];
                *cursor_left = (*cursor_left + 1) % reservoir_left.len();
                s
            } else {
                let s = reservoir_right[*cursor_right];
                *cursor_right = (*cursor_right + 1) % reservoir_right.len();
                s
            };
            if model.lattice[site] != reservoir_spin {
                let delta = model.flip_energy_delta(site);
                model.flip(site, delta);
            }
        },
    }
}

/// Couples boundary site `site` to the annealed reservoir on `side` (0
/// left, 1 right): tosses coin 0 of `reservoir_flip` when the site's spin
/// times `1 - 2 * side` is 1 (an up spin on the left, a down spin on the
/// right) and coin 1 otherwise, and flips the site exactly on heads. Returns
/// the coin tossed and how it came up.
pub fn toss_annealed_reservoir(
    model: &mut IsingModel,
    site: usize,
    side: u32,
    reservoir_flip: &[Bernoulli],
    rng: &mut SmallRng,
) -> (tossed: (usize, bool))
    requires
        old(model).wf(),
        site < old(model).l * old(model).l,
        side <= 1,
        old(model).energy_room(8),
        reservoir_flip@.len() == 2,
    ensures
        tossed.0 == (if (1 - 2 * side) * old(model).lattice@[site as int] == 1 {
            0int
        } else {
            1int
        }),
        tossed.1 ==> final(model).flipped_from(old(model), site as int),
        !tossed.1 ==> final(model).same_as(old(model)),
        final(model).wf(),
        -8 <= final(model).energy - old(model).energy <= 8,
        old(model).is_periodic() && old(model).l >= 2 && old(model).energy_consistent()
            ==> final(model).energy_consistent(),
{
    let coin = reservoir_coin_index(side, model.lattice[site]);
    let heads = toss(rng, &reservoir_flip[coin]);
    couple_annealed(model, site, heads);
    (coin, heads)
}

/// Couples boundary site `site` to the reservoir on `side` (0 left, 1 right).
/// An annealed reservoir tosses the coin that `reservoir_coin` picks from
/// `reservoir_flip` and flips the site on heads (see
/// `toss_annealed_reservoir`); a quenched one sets the site to the next spin
/// of its sequence, whose cursor then moves on, wrapping, and draws nothing
/// from `rng` (see `couple_reservoir_bond`).
pub fn process_reservoir_bond(
    model: &mut IsingModel,
    site: usize,
    side: u32,
    reservoir_type: ReservoirType,
    reservoir_flip: &[Bernoulli],
    reservoir_left: &[i32],
    reservoir_right: &[i32],
    cursor_left: &mut usize,
    cursor_right: &mut usize,
    rng: &mut SmallRng,
)
    requires
        old(model).wf(),
        site < old(model).l * old(model).l,
        side <= 1,
        old(model).energy_room(8),
        reservoir_type == ReservoirType::Annealed ==> reservoir_flip@.len() == 2,
        reservoir_type == ReservoirType::Quenched && side == 0 ==> *old(cursor_left)
            < reservoir_left@.len(),
        reservoir_type == ReservoirType::Quenched && side == 1 ==> *old(cursor_right)
            < reservoir_right@.len(),
    ensures
        final(model).wf(),
        reservoir_type == ReservoirType::Quenched ==> *final(rng) == *old(rng),
        reservoir_visit(
            *final(model),
            *old(model),
            site as int,
            side as int,
            reservoir_type,
            reservoir_left@,
            reservoir_right@,
            *old(cursor_left) as int,
            *old(cursor_right) as int,
            *final(cursor_left) as int,
            *final(cursor_right) as int,
        ),
        final(model).same_as(old(model)) || final(model).flipped_from(old(model), site as int),
        -8 <= final(model).energy - old(model).energy <= 8,
        old(model).is_periodic() && old(model).l >= 2 && old(model).energy_consistent()
            ==> final(model).energy_consistent(),
        reservoir_type == ReservoirType::Annealed ==> *final(cursor_left) == *old(cursor_left)
            && *final(cursor_right) == *old(cursor_right),
        reservoir_type == ReservoirType::Quenched && side == 0 ==> {
            &&& final(model).lattice@[site as int] == set_toward(
                old(model).lattice@[site as int],
                reservoir_left@[*old(cursor_left) as int],
            )
            &&& *final(cursor_left) == (*old(cursor_left) + 1) % (reservoir_left@.len() as int)
            &&& *final(cursor_right) == *old(cursor_right)
        },
        reservoir_type == ReservoirType::Quenched && side == 1 ==> {
            &&& final(model).lattice@[site as int] == set_toward(
                old(model).lattice@[site as int],
                reservoir_right@[*old(cursor_right) as int],
            )
            &&& *final(cursor_right) == (*old(cursor_right) + 1) % (reservoir_right@.len() as int)
            &&& *final(cursor_left) == *old(cursor_left)
        },
{
    match reservoir_type {
        ReservoirType::Annealed => {
            toss_annealed_reservoir(model, site, side, reservoir_flip, rng);
        },
        ReservoirType::Quenched => {
            couple_reservoir_bond(
                model,
                site,
                side,
                reservoir_type,
                reservoir_left,
                reservoir_right,
                cursor_left,
                cursor_right,
                false,
            );
        },
    }
}

/// The first site of row `i`.
pub open spec fn row_first(l: int, i: int) -> int {
    i * l
}

/// The last site of row `i`.
pub open spec fn row_last(l: int, i: int) -> int {
    (i + 1) * l - 1
}

/// `after` is `before` with site `site` either left alone or flipped, its
/// flip delta added to the stored energy.
pub open spec fn flip_or_stay(after: IsingModel, before: IsingModel, site: int) -> bool {
    after.same_as(&before) || after.flipped_from(&before, site)
}

/// `flip_or_stay` as a relation to follow along a path of sites.
pub open spec fn flip_step() -> spec_fn(IsingModel, IsingModel, int) -> bool {
    |after: IsingModel, before: IsingModel, site: int| flip_or_stay(after, before, site)
}

/// The boundary sites in the order in which the reservoirs are coupled to
/// them: row by row, the first site, then the last one.
pub open spec fn boundary_sites(l: int) -> Seq<int> {
    Seq::new(
        (2 * l) as nat,
        |k: int|
            if k % 2 == 0 {
                row_first(l, k / 2)
            } else {
                row_last(l, k / 2)
            },
    )
}

/// The two sites `a` and `b`, in that order.
pub open spec fn site_pair(a: int, b: int) -> Seq<int> {
    seq![a, b]
}

/// `after`, with cursors `cl1` and `cr1`, is `before`, with cursors `cl0`
/// and `cr0`, after every row's first site was coupled to the left reservoir
/// and its last site to the right one: each boundary site in turn was left
/// alone or flipped. Annealed reservoirs leave the cursors. Quenched ones
/// set the first site of row `i` to the left spin `i` places after the left
/// cursor and its last site to the right spin `i` places after the right
/// cursor, and both cursors move on by `l`, wrapping.
pub open spec fn reservoirs_coupled(
    after: IsingModel,
    before: IsingModel,
    reservoir_type: ReservoirType,
    left: Seq<i32>,
    right: Seq<i32>,
    cl0: int,
    cr0: int,
    cl1: int,
    cr1: int,
) -> bool {
    let l = before.l as int;
    &&& exists|trace: Seq<IsingModel>|
        #[trigger] visit_path(flip_step(), trace, before, after, boundary_sites(l))
    &&& match reservoir_type {
        ReservoirType::Annealed => cl1 == cl0 && cr1 == cr0,
        ReservoirType::Quenched => {
            &&& cl1 == (cl0 + l) % (left.len() as int)
            &&& cr1 == (cr0 + l) % (right.len() as int)
            &&& l >= 2 ==> forall|i: int|
                0 <= i < l ==> {
                    &&& #[trigger] after.lattice@[row_first(l, i)] == set_toward(
                        before.lattice@[row_first(l, i)],
                        left[(cl0 + i) % (left.len() as int)],
                    )
                    &&& after.lattice@[row_last(l, i)] == set_toward(
                        before.lattice@[row_last(l, i)],
                        right[(cr0 + i) % (right.len() as int)],
                    )
                }
            &&& l == 1 ==> after.lattice@[0] == set_toward(
                set_toward(before.lattice@[0], left[cl0]),
                right[cr0],
            )
        },
    }
}

/// In rows `0 .. n` of `lat`, the first site holds that of `lat0` set toward
/// the left spin `r` places after `cl0`, and the last site that of `lat0` set
/// toward the right spin `r` places after `cr0`.
pub open spec fn rows_set_toward(
    lat: Seq<i32>,
    lat0: Seq<i32>,
    l: int,
    n: int,
    left: Seq<i32>,
    right: Seq<i32>,
    cl0: int,
    cr0: int,
) -> bool {
    forall|r: int|
        0 <= r < n ==> {
            &&& #[trigger] lat[row_first(l, r)] == set_toward(
                lat0[row_first(l, r)],
                left[(cl0 + r) % (left.len() as int)],
            )
            &&& lat[row_last(l, r)] == set_toward(
                lat0[row_last(l, r)],
                right[(cr0 + r) % (right.len() as int)],
            )
        }
}

/// Setting the ends of row `i` extends `rows_set_toward` by that row.
proof fn lemma_quenched_rows_extend(
    l: int,
    i: int,
    lat0: Seq<i32>,
    lat_row: Seq<i32>,
    lat: Seq<i32>,
    left: Seq<i32>,
    right: Seq<i32>,
    cl0: int,
    cr0: int,
)
    requires
        l >= 2,
        0 <= i < l,
        lat_row.len() == l * l,
        lat.len() == l * l,
        rows_set_toward(lat_row, lat0, l, i, left, right, cl0, cr0),
        forall|idx: int|
            0 <= idx < l * l && idx != row_first(l, i) && idx != row_last(l, i)
                ==> #[trigger] lat[idx] == lat_row[idx],
        lat_row[row_first(l, i)] == lat0[row_first(l, i)],
        lat_row[row_last(l, i)] == lat0[row_last(l, i)],
        lat[row_first(l, i)] == set_toward(lat_row[row_first(l, i)], left[(cl0 + i) % (left.len() as int)]),
        lat[row_last(l, i)] == set_toward(lat_row[row_last(l, i)], right[(cr0 + i) % (right.len() as int)]),
    ensures
        rows_set_toward(lat, lat0, l, i + 1, left, right, cl0, cr0),
{
    assert forall|r: int| 0 <= r < i + 1 implies {
        &&& #[trigger] lat[row_first(l, r)] == set_toward(
            lat0[row_first(l, r)],
            left[(cl0 + r) % (left.len() as int)],
        )
        &&& lat[row_last(l, r)] == set_toward(
            lat0[row_last(l, r)],
            right[(cr0 + r) % (right.len() as int)],
        )
    } by {
        if r < i {
            assert((r + 1) * l <= i * l) by (nonlinear_arith)
                requires
                    r + 1 <= i,
                    l >= 0,
            ;
            assert(r * l >= 0) by (nonlinear_arith)
                requires
                    r >= 0,
                    l >= 0,
            ;
            assert(i * l + l <= l * l) by (nonlinear_arith)
                requires
                    0 <= i < l,
                    l >= 0,
            ;
            assert((r + 1) * l == r * l + l) by (nonlinear_arith);
            assert((i + 1) * l == i * l + l) by (nonlinear_arith);
            assert(row_first(l, r) < row_first(l, i) && row_last(l, r) < row_first(l, i));
            assert(lat[row_first(l, r)] == lat_row[row_first(l, r)]);
            assert(lat[row_last(l, r)] == lat_row[row_last(l, r)]);
        }
    }
}

/// Couples one row's first site `idx_l` to the left reservoir and its last
/// site `idx_r` to the right one; both coins are tossed, or both reservoir
/// spins read, before either site flips.
fn process_reservoir_row(
    model: &mut IsingModel,
    idx_l: usize,
    idx_r: usize,
    reservoir_type: ReservoirType,
    reservoir_flip: &[Bernoulli],
    reservoir_left: &[i32],
    reservoir_right: &[i32],
    cursor_left: &mut usize,
    cursor_right: &mut usize,
    rng: &mut SmallRng,
) -> (tossed: Option<((usize, bool), (usize, bool))>)
    requires
        old(model).wf(),
        idx_l < old(model).l * old(model).l,
        idx_r < old(model).l * old(model).l,
        old(model).energy_room(16),
        reservoir_type == ReservoirType::Annealed ==> reservoir_flip@.len() == 2,
        reservoir_type == ReservoirType::Quenched ==> *old(cursor_left) < reservoir_left@.len()
            && *old(cursor_right) < reservoir_right@.len(),
    ensures
        exists|t: Seq<IsingModel>|
            #[trigger] visit_path(
                flip_step(),
                t,
                *old(model),
                *final(model),
                site_pair(idx_l as int, idx_r as int),
            ),
        final(model).wf(),
        reservoir_type == ReservoirType::Quenched ==> tossed is None,
        reservoir_type == ReservoirType::Annealed ==> (tossed matches Some(((cl, hl), (cr, hr))) && {
            &&& cl == (if old(model).lattice@[idx_l as int] == 1 {
                0int
            } else {
                1int
            })
            &&& cr == (if old(model).lattice@[idx_r as int] == -1 {
                0int
            } else {
                1int
            })
            &&& exists|mid: IsingModel|
                {
                    &&& #[trigger] mid.wf()
                    &&& hl ==> mid.flipped_from(old(model), idx_l as int)
                    &&& !hl ==> mid.same_as(old(model))
                    &&& hr ==> final(model).flipped_from(&mid, idx_r as int)
                    &&& !hr ==> final(model).same_as(&mid)
                }
        }),
        reservoir_type == ReservoirType::Quenched ==> *final(rng) == *old(rng),
        final(model).l == old(model).l,
        final(model).neighbors@ == old(model).neighbors@,
        -16 <= final(model).energy - old(model).energy <= 16,
        old(model).is_periodic() && old(model).l >= 2 && old(model).energy_consistent()
            ==> final(model).energy_consistent(),
        forall|idx: int|
            0 <= idx < old(model).l * old(model).l && idx != idx_l && idx != idx_r
                ==> #[trigger] final(model).lattice@[idx] == old(model).lattice@[idx],
        reservoir_type == ReservoirType::Annealed ==> *final(cursor_left) == *old(cursor_left)
            && *final(cursor_right) == *old(cursor_right),
        reservoir_type == ReservoirType::Quenched ==> {
            &&& *final(cursor_left) == (*old(cursor_left) + 1) % (reservoir_left@.len() as int)
            &&& *final(cursor_right) == (*old(cursor_right) + 1) % (reservoir_right@.len() as int)
        },
        reservoir_type == ReservoirType::Quenched && idx_l != idx_r ==> {
            &&& final(model).lattice@[idx_l as int] == set_toward(
                old(model).lattice@[idx_l as int],
                reservoir_left@[*old(cursor_left) as int],
            )
            &&& final(model).lattice@[idx_r as int] == set_toward(
                old(model).lattice@[idx_r as int],
                reservoir_right@[*old(cursor_right) as int],
            )
        },
        reservoir_type == ReservoirType::Quenched && idx_l == idx_r ==> final(model).lattice@[idx_l as int]
            == set_toward(
            set_toward(old(model).lattice@[idx_l as int], reservoir_left@[*old(cursor_left) as int]),
            reservoir_right@[*old(cursor_right) as int],
        ),
{
    match reservoir_type {
        ReservoirType::Annealed => {
            let coin_l = reservoir_coin_index(0, model.lattice[idx_l]);
            let coin_r = reservoir_coin_index(1, model.lattice[idx_r]);
            let heads_l = toss(rng, &reservoir_flip[coin_l]);
            let heads_r = toss(rng, &reservoir_flip[coin_r]);
            let ghost m0 = *model;
            couple_annealed_row(model, idx_l, idx_r, heads_l, heads_r);
            proof {
                let m1 = choose|mid: IsingModel|
                    {
                        &&& #[trigger] mid.wf()
                        &&& heads_l ==> mid.flipped_from(&m0, idx_l as int)
                        &&& !heads_l ==> mid.same_as(&m0)
                        &&& heads_r ==> model.flipped_from(&mid, idx_r as int)
                        &&& !heads_r ==> model.same_as(&mid)
                    };
                let t = seq![m0, m1, *model];
                let o = site_pair(idx_l as int, idx_r as int);
                assert(path_link(flip_step(), t, o, 0));
                assert(path_link(flip_step(), t, o, 1));
                assert(visit_path(flip_step(), t, m0, *model, o));
            }
            Some(((coin_l, heads_l), (coin_r, heads_r)))
        },
        ReservoirType::Quenched => {
            let s_l = reservoir_left[*cursor_left];
            *cursor_left = (*cursor_left + 1) % reservoir_left.len();
            let s_r = reservoir_right[*cursor_right];
            *cursor_right = (*cursor_right + 1) % reservoir_right.len();
            let ghost m0 = *model;
            if model.lattice[idx_l] != s_l {
                let delta = model.flip_energy_delta(idx_l);
                model.flip(idx_l, delta);
            }
            let ghost m1 = *model;
            if model.lattice[idx_r] != s_r {
                let delta = model.flip_energy_delta(idx_r);
                model.flip(idx_r, delta);
            }
            proof {
                let t = seq![m0, m1, *model];
                let o = site_pair(idx_l as int, idx_r as int);
                assert(path_link(flip_step(), t, o, 0));
                assert(path_link(flip_step(), t, o, 1));
                assert(visit_path(flip_step(), t, m0, *model, o));
            }
            None
        },
    }
}

/// One pass over the rows, top to bottom: each row's first site is coupled to
/// the left reservoir and its last site to the right one. For annealed
/// reservoirs the two coins that `reservoir_coin` picks for a row are tossed
/// before either site flips, and each site flips on heads (see
/// `couple_annealed_row`); quenched ones read both reservoir spins first and
/// draw nothing from `rng`.
#[verifier::spinoff_prover]
pub fn process_reservoirs(
    model: &mut IsingModel,
    reservoir_type: ReservoirType,
    reservoir_flip: &[Bernoulli],
    reservoir_left: &[i32],
    reservoir_right: &[i32],
    cursor_left: &mut usize,
    cursor_right: &mut usize,
    rng: &mut SmallRng,
)
    requires
        old(model).wf(),
        old(model).energy_room(16 * old(model).l),
        reservoir_type == ReservoirType::Annealed ==> reservoir_flip@.len() == 2,
        reservoir_type == ReservoirType::Quenched ==> *old(cursor_left) < reservoir_left@.len()
            && *old(cursor_right) < reservoir_right@.len(),
    ensures
        reservoir_type == ReservoirType::Quenched ==> *final(rng) == *old(rng),
        reservoirs_coupled(
            *final(model),
            *old(model),
            reservoir_type,
            reservoir_left@,
            reservoir_right@,
            *old(cursor_left) as int,
            *old(cursor_right) as int,
            *final(cursor_left) as int,
            *final(cursor_right) as int,
        ),
        final(model).wf(),
        final(model).l == old(model).l,
        final(model).neighbors@ == old(model).neighbors@,
        -16 * old(model).l <= final(model).energy - old(model).energy <= 16 * old(model).l,
        old(model).is_periodic() && old(model).l >= 2 && old(model).energy_consistent()
            ==> final(model).energy_consistent(),
        forall|idx: int|
            0 <= idx < old(model).l * old(model).l && idx % (old(model).l as int) != 0 && idx % (
            old(model).l as int) != old(model).l - 1 ==> #[trigger] final(model).lattice@[idx]
                == old(model).lattice@[idx],
        reservoir_type == ReservoirType::Annealed ==> *final(cursor_left) == *old(cursor_left)
            && *final(cursor_right) == *old(cursor_right),
        reservoir_type == ReservoirType::Quenched ==> {
            &&& *final(cursor_left) == (*old(cursor_left) + old(model).l) % (
            reservoir_left@.len() as int)
            &&& *final(cursor_right) == (*old(cursor_right) + old(model).l) % (
            reservoir_right@.len() as int)
        },
        reservoir_type == ReservoirType::Quenched && old(model).l >= 2 ==> forall|i: int|
            0 <= i < old(model).l ==> {
                &&& #[trigger] final(model).lattice@[row_first(old(model).l as int, i)] == set_toward(
                    old(model).lattice@[row_first(old(model).l as int, i)],
                    reservoir_left@[(*old(cursor_left) + i) % (reservoir_left@.len() as int)],
                )
                &&& final(model).lattice@[row_last(old(model).l as int, i)] == set_toward(
                    old(model).lattice@[row_last(old(model).l as int, i)],
                    reservoir_right@[(*old(cursor_right) + i) % (reservoir_right@.len() as int)],
                )
            },
        reservoir_type == ReservoirType::Quenched && old(model).l == 1 ==> final(model).lattice@[0]
            == set_toward(
            set_toward(old(model).lattice@[0], reservoir_left@[*old(cursor_left) as int]),
            reservoir_right@[*old(cursor_right) as int],
        ),
{
    let l = model.l;
    let ghost lat0 = model.lattice@;
    let ghost e0 = model.energy as int;
    let ghost nb0 = model.neighbors@;
    let ghost cl0 = *cursor_left as int;
    let ghost cr0 = *cursor_right as int;
    let ghost periodic0 = model.is_periodic() && l >= 2 && model.energy_consistent();
    let ghost li = l as int;
    proof {
        lemma_side_fits(li);
        if reservoir_type == ReservoirType::Quenched {
            lemma_small_mod(cl0 as nat, reservoir_left@.len() as nat);
            lemma_small_mod(cr0 as nat, reservoir_right@.len() as nat);
        }
    }
    let ghost m0 = *model;
    let ghost mut trace = seq![*model];
    let mut i: usize = 0;
    let mut base: usize = 0;
    while i < l
        invariant
            visit_path(flip_step(), trace, m0, *model, boundary_sites(li).take(2 * i)),
            m0.lattice@ == lat0,
            m0.l == l,
            model.wf(),
            model.l == l,
            li == l,
            model.neighbors@ == nb0,
            lat0.len() == l * l,
            side_fits(li),
            0 <= i <= l,
            base == i * l,
            base <= l * l,
            -16 * i <= model.energy - e0 <= 16 * i,
            i32::MIN + 16 * l <= e0 <= i32::MAX - 16 * l,
            periodic0 ==> model.energy_consistent(),
            periodic0 ==> model.is_periodic() && l >= 2,
            reservoir_type == ReservoirType::Quenched ==> *rng == *old(rng),
            reservoir_type == ReservoirType::Annealed ==> reservoir_flip@.len() == 2,
            reservoir_type == ReservoirType::Annealed ==> *cursor_left == cl0 && *cursor_right
                == cr0,
            reservoir_type == ReservoirType::Quenched ==> {
                &&& 0 <= cl0 < reservoir_left@.len()
                &&& 0 <= cr0 < reservoir_right@.len()
                &&& *cursor_left == (cl0 + i) % (reservoir_left@.len() as int)
                &&& *cursor_right == (cr0 + i) % (reservoir_right@.len() as int)
            },
            forall|idx: int|
                0 <= idx < l * l && (idx >= base || (idx % li != 0 && idx % li != li - 1))
                    ==> #[trigger] model.lattice@[idx] == lat0[idx],
            reservoir_type == ReservoirType::Quenched && l >= 2 ==> rows_set_toward(
                model.lattice@,
                lat0,
                li,
                i as int,
                reservoir_left@,
                reservoir_right@,
                cl0,
                cr0,
            ),
            reservoir_type == ReservoirType::Quenched && l == 1 && i == 1 ==> model.lattice@[0]
                == set_toward(
                set_toward(lat0[0], reservoir_left@[cl0]),
                reservoir_right@[cr0],
            ),
        decreases l - i,
    {
        proof {
            assert((i + 1) * l == i * l + l) by (nonlinear_arith);
            assert(i * l + l <= l * l) by (nonlinear_arith)
                requires
                    i < l,
            ;
            lemma_site_row_col(li, i as int, 0);
            lemma_site_row_col(li, i as int, li - 1);
            if reservoir_type == ReservoirType::Quenched {
                lemma_add_mod_noop_right(1, cl0 + i, reservoir_left@.len() as int);
                lemma_add_mod_noop_right(1, cr0 + i, reservoir_right@.len() as int);
                lemma_small_mod(cl0 as nat, reservoir_left@.len() as nat);
                lemma_small_mod(cr0 as nat, reservoir_right@.len() as nat);
            }
        }
        let idx_l = base;
        let idx_r = base + l - 1;
        let ghost lat_row = model.lattice@;
        let ghost m_row = *model;
        process_reservoir_row(
            model,
            idx_l,
            idx_r,
            reservoir_type,
            reservoir_flip,
            reservoir_left,
            reservoir_right,
            cursor_left,
            cursor_right,
            rng,
        );
        proof {
            let o = site_pair(idx_l as int, idx_r as int);
            let t_row = choose|t: Seq<IsingModel>| #[trigger] visit_path(flip_step(), t, m_row, *model, o);
            lemma_visit_path_concat(flip_step(), trace, t_row, m0, m_row, *model, boundary_sites(li).take(2 * i), o);
            assert(boundary_sites(li).take(2 * i) + o =~= boundary_sites(li).take(2 * i + 2));
            trace = trace + t_row.skip(1);
            assert forall|idx: int|
                0 <= idx < l * l && (idx >= base + l || (idx % li != 0 && idx % li != li - 1))
                    implies #[trigger] model.lattice@[idx] == lat0[idx] by {
                assert(idx != idx_l && idx != idx_r);
                assert(model.lattice@[idx] == lat_row[idx]);
            }
            if reservoir_type == ReservoirType::Quenched && l >= 2 {
                assert(lat_row[idx_l as int] == lat0[idx_l as int]);
                assert(lat_row[idx_r as int] == lat0[idx_r as int]);
                lemma_quenched_rows_extend(
                    li,
                    i as int,
                    lat0,
                    lat_row,
                    model.lattice@,
                    reservoir_left@,
                    reservoir_right@,
                    cl0,
                    cr0,
                );
            }
            if reservoir_type == ReservoirType::Quenched && l == 1 {
                assert(i == 0);
                assert(lat_row[0] == lat0[0]);
            }
        }
        i = i + 1;
        base = base + l;
    }
    assert(boundary_sites(li).take(2 * li) =~= boundary_sites(li));
}

} // verus!
