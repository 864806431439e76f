//! Even-odd polygon fill by scanline crossings.
use vstd::prelude::*;
use vstd::arithmetic::div_mod::{lemma_fundamental_div_mod, lemma_mod_pos_bound};
use vstd::multiset::Multiset;
use vstd::relations::{sorted_by, total_ordering};

use crate::common_2d::{max, min};

verus! {

/// Vertex `i` of the ring as a pair of integers.
pub open spec fn pt(coords: Seq<[i32; 2]>, i: int) -> (int, int) {
    (coords[i][0] as int, coords[i][1] as int)
}

/// The vertex before `i` on the ring; the ring wraps from the last vertex to
/// the first.
pub open spec fn prev(n: int, i: int) -> int {
    if i == 0 {
        n - 1
    } else {
        i - 1
    }
}

/// Whether the edge from `a` to `b` crosses row `y`. A non-horizontal edge
/// covers the rows above its lower end, up to and including its upper end;
/// horizontal edges cross no row.
pub open spec fn edge_crosses(a: (int, int), b: (int, int), y: int) -> bool {
    a.1 != b.1 && min(a.1, b.1) < y <= max(a.1, b.1)
}

/// `p / q` rounded to the nearest integer, halves away from zero (`q > 0`).
pub open spec fn round_div(p: int, q: int) -> int {
    if p >= 0 {
        (2 * p + q) / (2 * q)
    } else {
        -((-2 * p + q) / (2 * q))
    }
}

/// Where the edge from `a` to `b` meets row `y`: linear interpolation from the
/// upper end towards the lower end, rounded to the nearest integer.
pub open spec fn crossing_x(a: (int, int), b: (int, int), y: int) -> int {
    let (lo, hi) = if a.1 < b.1 {
        (a, b)
    } else {
        (b, a)
    };
    let d = hi.1 - lo.1;
    round_div(hi.0 * d + (hi.1 - y) * (lo.0 - hi.0), d)
}

/// The crossings of row `y` by the first `k` edges of the ring, in edge order;
/// edge `i` joins vertex `prev(n, i)` to vertex `i`.
pub open spec fn crossings(coords: Seq<[i32; 2]>, y: int, k: int) -> Seq<i32>
    decreases k,
{
    if k <= 0 {
        Seq::empty()
    } else {
        let c = crossings(coords, y, k - 1);
        let a = pt(coords, prev(coords.len() as int, k - 1));
        let b = pt(coords, k - 1);
        if edge_crosses(a, b, y) {
            c.push(crossing_x(a, b, y) as i32)
        } else {
            c
        }
    }
}

/// The order in which crossings are paired: ascending x.
pub open spec fn ascending() -> spec_fn(i32, i32) -> bool {
    |a: i32, b: i32| a <= b
}

/// All crossings of row `y` by the ring, in ascending order.
pub open spec fn row_crossings(coords: Seq<[i32; 2]>, y: int) -> Seq<i32> {
    crossings(coords, y, coords.len() as int).sort_by(ascending())
}

proof fn lemma_half_up_bounds(a: int, q: int, lo: int, hi: int)
    requires
        a >= 0,
        q > 0,
        lo * q <= a <= hi * q,
    ensures
        lo <= (2 * a + q) / (2 * q) <= hi,
{
    let r = (2 * a + q) / (2 * q);
    lemma_fundamental_div_mod(2 * a + q, 2 * q);
    lemma_mod_pos_bound(2 * a + q, 2 * q);
    assert(r * (2 * q) <= 2 * a + q < (r + 1) * (2 * q)) by (nonlinear_arith)
        requires
            2 * a + q == (2 * q) * r + (2 * a + q) % (2 * q),
            0 <= (2 * a + q) % (2 * q) < 2 * q,
    ;
    assert(lo <= r) by (nonlinear_arith)
        requires
            2 * a + q < (r + 1) * (2 * q),
            lo * q <= a,
            q > 0,
    ;
    assert(r <= hi) by (nonlinear_arith)
        requires
            r * (2 * q) <= 2 * a + q,
            a <= hi * q,
            q > 0,
    ;
}

/// Rounding a quotient that lies between two integers stays between them.
proof fn lemma_round_div_bounds(p: int, q: int, lo: int, hi: int)
    requires
        q > 0,
        lo * q <= p <= hi * q,
    ensures
        lo <= round_div(p, q) <= hi,
{
    if p >= 0 {
        lemma_half_up_bounds(p, q, lo, hi);
    } else {
        assert((-hi) * q <= -p <= (-lo) * q) by (nonlinear_arith)
            requires
                lo * q <= p <= hi * q,
        ;
        lemma_half_up_bounds(-p, q, -hi, -lo);
    }
}

/// `p / q` rounded to the nearest integer, halves away from zero.
fn round_div_exec(p: i128, q: i128) -> (r: i128)
    requires
        q > 0,
        -0x1_0000_0000_0000_0000_0000 < p < 0x1_0000_0000_0000_0000_0000,
        q < 0x1_0000_0000_0000_0000_0000,
    ensures
        r == round_div(p as int, q as int),
{
    if p >= 0 {
        (2 * p + q) / (2 * q)
    } else {
        let t: i128 = (-2 * p + q) / (2 * q);
        assert(0 <= t <= -2 * p + q) by (nonlinear_arith)
            requires
                t == (-2 * p + q) / (2 * q),
                -2 * p + q > 0,
                q > 0,
        ;
        -t
    }
}

/// The x at which the edge from `a` to `b` meets row `y`.
fn edge_crossing(a: [i32; 2], b: [i32; 2], y: i32) -> (r: i32)
    requires
        edge_crosses((a[0] as int, a[1] as int), (b[0] as int, b[1] as int), y as int),
    ensures
        r as int == crossing_x((a[0] as int, a[1] as int), (b[0] as int, b[1] as int), y as int),
{
    let (lo, hi) = if a[1] < b[1] {
        (a, b)
    } else {
        (b, a)
    };
    let d: i128 = hi[1] as i128 - lo[1] as i128;
    let k: i128 = hi[1] as i128 - y as i128;
    assert(0 <= k < d);
    let w: i128 = lo[0] as i128 - hi[0] as i128;
    assert(-0x1_0000_0000_0000_0000 <= hi[0] * d <= 0x1_0000_0000_0000_0000) by (nonlinear_arith)
        requires
            -0x8000_0000 <= hi[0] < 0x8000_0000,
            0 < d <= 0x1_0000_0000,
    ;
    assert(-0x1_0000_0000_0000_0000 <= k * w <= 0x1_0000_0000_0000_0000) by (nonlinear_arith)
        requires
            -0x1_0000_0000 <= w <= 0x1_0000_0000,
            0 <= k <= 0x1_0000_0000,
    ;
    let p: i128 = hi[0] as i128 * d + k * w;
    let ghost m = min(lo[0] as int, hi[0] as int);
    let ghost big = max(lo[0] as int, hi[0] as int);
    assert(m * d <= p <= big * d) by (nonlinear_arith)
        requires
            p == hi[0] * d + k * w,
            w == lo[0] - hi[0],
            0 <= k < d,
            m <= lo[0],
            m <= hi[0],
            big >= lo[0],
            big >= hi[0],
    ;
    assert(-0x1_0000_0000_0000_0000_0000 < p < 0x1_0000_0000_0000_0000_0000) by (nonlinear_arith)
        requires
            m * d <= p <= big * d,
            -0x8000_0000 <= m,
            big <= 0x8000_0000,
            0 < d <= 0x1_0000_0000,
    ;
    proof {
        lemma_round_div_bounds(p as int, d as int, m, big);
    }
    round_div_exec(p, d) as i32
}

/// The spans of one row from its ascending crossings `xs`, starting at the
/// `i`-th: crossings pair up first with second, third with fourth, and so
/// on; each pair is clipped to `[0, xmax)` and kept when non-empty; pairing
/// stops at the first pair that starts at or right of `xmax`.
pub open spec fn pair_spans(xs: Seq<i32>, xmax: int, y: int, i: int) -> Seq<(int, int, int)>
    decreases xs.len() - i,
{
    if i < 0 || i + 1 >= xs.len() || xs[i] >= xmax {
        Seq::empty()
    } else {
        let s = max(xs[i] as int, 0);
        let e = min(xs[i + 1] as int, xmax);
        let rest = pair_spans(xs, xmax, y, i + 2);
        if s < e {
            seq![(s, e, y)] + rest
        } else {
            rest
        }
    }
}

/// The filled spans `(x_start, x_end, y)` of row `y` under the even-odd rule.
pub open spec fn row_spans(coords: Seq<[i32; 2]>, xmax: int, y: int) -> Seq<(int, int, int)> {
    pair_spans(row_crossings(coords, y), xmax, y, 0)
}

/// The filled spans of rows `0 .. rows`, row by row, left to right.
pub open spec fn poly_spans(coords: Seq<[i32; 2]>, xmax: int, rows: int) -> Seq<(int, int, int)>
    decreases rows,
{
    if rows <= 0 {
        Seq::empty()
    } else {
        poly_spans(coords, xmax, rows - 1) + row_spans(coords, xmax, rows - 1)
    }
}

/// Whether the ring crosses row `y` an even number of times, as a closed ring
/// does.
pub open spec fn row_closed(coords: Seq<[i32; 2]>, y: int) -> bool {
    crossings(coords, y, coords.len() as int).len() % 2 == 0
}

/// The spans held in `v`, as integers.
pub open spec fn spans_view(v: Seq<(i32, i32, i32)>) -> Seq<(int, int, int)> {
    v.map_values(|t: (i32, i32, i32)| (t.0 as int, t.1 as int, t.2 as int))
}

/// Why a polygon could not be filled.
#[derive(Debug, Clone, Copy, PartialEq, Eq, Structural)]
pub enum PolyError {
    /// The ring has fewer than three vertices.
    TooFewVertices,
}

proof fn lemma_ascending_total()
    ensures
        total_ordering(ascending()),
{
    assert(total_ordering(ascending())) by {
        assert forall|a: i32, b: i32| #[trigger] ascending()(a, b) || ascending()(b, a) by {}
    }
}

/// The crossings of row `y` by every edge of the ring, in edge order.
fn crossings_of_row(coords: &Vec<[i32; 2]>, y: i32) -> (r: Vec<i32>)
    requires
        coords.len() >= 1,
    ensures
        r@ == crossings(coords@, y as int, coords.len() as int),
{
    let n = coords.len();
    let mut r: Vec<i32> = Vec::new();
    let mut i: usize = 0;
    while i < n
        invariant
            n == coords.len(),
            n >= 1,
            i <= n,
            r@ == crossings(coords@, y as int, i as int),
        decreases n - i,
    {
        let a = coords[if i == 0 {
            n - 1
        } else {
            i - 1
        }];
        let b = coords[i];
        assert(pt(coords@, prev(n as int, i as int)) == (a[0] as int, a[1] as int));
        assert(pt(coords@, i as int) == (b[0] as int, b[1] as int));
        if a[1] != b[1] && (if a[1] < b[1] {
            a[1] < y && y <= b[1]
        } else {
            b[1] < y && y <= a[1]
        }) {
            let c = edge_crossing(a, b, y);
            r.push(c);
        }
        i = i + 1;
    }
    r
}

/// `xs` in ascending order.
fn sort_crossings(xs: &Vec<i32>) -> (r: Vec<i32>)
    ensures
        r@ == xs@.sort_by(ascending()),
{
    broadcast use vstd::seq_lib::group_to_multiset_ensures, vstd::seq_lib::to_multiset_insert;

    let mut r: Vec<i32> = Vec::new();
    let mut i: usize = 0;
    while i < xs.len()
        invariant
            i <= xs.len(),
            sorted_by(r@, ascending()),
            r@.to_multiset() == xs@.take(i as int).to_multiset(),
        decreases xs.len() - i,
    {
        let v = xs[i];
        let mut j: usize = r.len();
        while j > 0 && r[j - 1] > v
            invariant
                j <= r.len(),
                forall|k: int| j <= k < r.len() ==> r@[k] > v,
            decreases j,
        {
            j = j - 1;
        }
        let ghost before = r@;
        r.insert(j, v);
        assert(sorted_by(r@, ascending())) by {
            assert forall|a: int, b: int| 0 <= a < b < r@.len() implies #[trigger] ascending()(
                r@[a],
                r@[b],
            ) by {
                assert(j > 0 ==> ascending()(before[j - 1], v));
                if a < j as int && j as int > 0 && (j as int) - 1 != a {
                    assert(ascending()(before[a], before[j - 1]));
                }
            }
        }
        assert(xs@.take(i as int + 1) =~= xs@.take(i as int).push(v));
        proof {
            vstd::seq_lib::to_multiset_insert(before, j as int, v);
            xs@.take(i as int).to_multiset_ensures();
        }
        i = i + 1;
    }
    assert(xs@.take(xs.len() as int) =~= xs@);
    proof {
        lemma_ascending_total();
        xs@.lemma_sort_by_ensures(ascending());
        vstd::seq_lib::lemma_sorted_unique(r@, xs@.sort_by(ascending()), ascending());
    }
    r
}

/// Appends the spans of one row, paired from its ascending crossings `xs`.
fn push_row_spans(xs: &Vec<i32>, xmax: i32, y: i32, out: &mut Vec<(i32, i32, i32)>)
    ensures
        spans_view(final(out)@) == spans_view(old(out)@) + pair_spans(
            xs@,
            xmax as int,
            y as int,
            0,
        ),
{
    let mut i: usize = 0;
    while i < xs.len() && i + 1 < xs.len()
        invariant_except_break
            i <= xs.len(),
            spans_view(out@) + pair_spans(xs@, xmax as int, y as int, i as int) == spans_view(
                old(out)@,
            ) + pair_spans(xs@, xmax as int, y as int, 0),
        ensures
            spans_view(out@) == spans_view(old(out)@) + pair_spans(
                xs@,
                xmax as int,
                y as int,
                0,
            ),
        decreases xs.len() - i,
    {
        if xs[i] >= xmax {
            assert(pair_spans(xs@, xmax as int, y as int, i as int) =~= Seq::empty());
            assert(spans_view(out@) + Seq::<(int, int, int)>::empty() =~= spans_view(out@));
            break;
        }
        let s: i32 = if xs[i] < 0 {
            0
        } else {
            xs[i]
        };
        let e: i32 = if xs[i + 1] > xmax {
            xmax
        } else {
            xs[i + 1]
        };
        let ghost rest = pair_spans(xs@, xmax as int, y as int, i as int + 2);
        let ghost before = out@;
        if s < e {
            out.push((s, e, y));
            assert(spans_view(out@) =~= spans_view(before).push((s as int, e as int, y as int)));
            assert(spans_view(out@) + rest =~= spans_view(before) + (seq![
                (s as int, e as int, y as int),
            ] + rest));
        }
        i = i + 2;
    }
    if i >= xs.len() || i + 1 >= xs.len() {
        assert(pair_spans(xs@, xmax as int, y as int, i as int) =~= Seq::empty());
        assert(spans_view(out@) + Seq::<(int, int, int)>::empty() =~= spans_view(out@));
    }
}

/// Fills the polygon `coords` (a closed ring of at least three vertices;
/// the last vertex joins the first) inside the viewport `[0, xmax) x [0, ymax)`
/// under the even-odd rule, and returns the filled spans `(x_start, x_end, y)`
/// with `x_end` exclusive: row by row from `y = 0`, left to right in each row.
pub fn draw_poly(xmax: i32, ymax: i32, coords: &Vec<[i32; 2]>) -> (r: Result<
    Vec<(i32, i32, i32)>,
    PolyError,
>)
    ensures
        coords.len() >= 3 ==> r is Ok,
        match r {
            Ok(v) => {
                &&& coords.len() >= 3
                &&& forall|y: int| 0 <= y < ymax ==> row_closed(coords@, y)
                &&& spans_view(v@) == poly_spans(coords@, xmax as int, ymax as int)
            },
            Err(PolyError::TooFewVertices) => coords.len() < 3,
        },
{
    if coords.len() < 3 {
        return Err(PolyError::TooFewVertices);
    }
    let mut out: Vec<(i32, i32, i32)> = Vec::new();
    let mut y: i32 = 0;
    assert(spans_view(out@) =~= poly_spans(coords@, xmax as int, 0));
    while y < ymax
        invariant
            coords.len() >= 3,
            0 <= y,
            y <= ymax || y == 0,
            forall|yy: int| 0 <= yy < y ==> row_closed(coords@, yy),
            spans_view(out@) == poly_spans(coords@, xmax as int, y as int),
        decreases ymax - y,
    {
        let xs = crossings_of_row(coords, y);
        proof {
            lemma_ring_closed(coords@, y as int);
        }
        let sorted = sort_crossings(&xs);
        push_row_spans(&sorted, xmax, y, &mut out);
        y = y + 1;
    }
    assert(ymax <= 0 ==> poly_spans(coords@, xmax as int, ymax as int) =~= Seq::empty());
    Ok(out)
}

/// The crossing that edge `i` of the ring contributes to row `y`, as a bag.
pub open spec fn edge_bag(coords: Seq<[i32; 2]>, y: int, i: int) -> Multiset<i32> {
    let a = pt(coords, prev(coords.len() as int, i));
    let b = pt(coords, i);
    if edge_crosses(a, b, y) {
        Multiset::singleton(crossing_x(a, b, y) as i32)
    } else {
        Multiset::empty()
    }
}

/// The crossings of row `y` by edges `lo .. hi` of the ring, as a bag.
pub open spec fn crossing_bag(coords: Seq<[i32; 2]>, y: int, lo: int, hi: int) -> Multiset<i32>
    decreases hi - lo,
{
    if hi <= lo {
        Multiset::empty()
    } else {
        crossing_bag(coords, y, lo, hi - 1).add(edge_bag(coords, y, hi - 1))
    }
}

proof fn lemma_crossings_bag(coords: Seq<[i32; 2]>, y: int, k: int)
    requires
        0 <= k <= coords.len(),
    ensures
        crossings(coords, y, k).to_multiset() =~= crossing_bag(coords, y, 0, k),
    decreases k,
{
    broadcast use vstd::seq_lib::group_to_multiset_ensures, vstd::multiset::group_multiset_axioms;

    if k > 0 {
        lemma_crossings_bag(coords, y, k - 1);
        crossings(coords, y, k - 1).to_multiset_ensures();
    }
}

proof fn lemma_bag_front(coords: Seq<[i32; 2]>, y: int, lo: int, hi: int)
    requires
        lo < hi,
    ensures
        crossing_bag(coords, y, lo, hi) =~= edge_bag(coords, y, lo).add(
            crossing_bag(coords, y, lo + 1, hi),
        ),
    decreases hi - lo,
{
    broadcast use vstd::multiset::group_multiset_axioms;

    let e = edge_bag(coords, y, hi - 1);
    assert(crossing_bag(coords, y, lo, hi) == crossing_bag(coords, y, lo, hi - 1).add(e));
    if lo + 1 < hi {
        lemma_bag_front(coords, y, lo, hi - 1);
        assert(crossing_bag(coords, y, lo + 1, hi) == crossing_bag(coords, y, lo + 1, hi - 1).add(
            e,
        ));
    } else {
        assert(crossing_bag(coords, y, lo, hi - 1) == Multiset::<i32>::empty());
        assert(crossing_bag(coords, y, lo + 1, hi) == Multiset::<i32>::empty());
    }
}

proof fn lemma_reversed_edge(coords: Seq<[i32; 2]>, y: int, i: int)
    requires
        coords.len() >= 1,
        0 <= i < coords.len(),
    ensures
        edge_bag(coords.reverse(), y, i) == edge_bag(
            coords,
            y,
            if i == 0 {
                0
            } else {
                coords.len() - i
            },
        ),
{
}

proof fn lemma_reversed_bag(coords: Seq<[i32; 2]>, y: int, k: int)
    requires
        1 <= k <= coords.len(),
    ensures
        crossing_bag(coords.reverse(), y, 1, k) =~= crossing_bag(
            coords,
            y,
            coords.len() - k + 1,
            coords.len() as int,
        ),
    decreases k,
{
    broadcast use vstd::multiset::group_multiset_axioms;

    let n = coords.len() as int;
    if k > 1 {
        lemma_reversed_bag(coords, y, k - 1);
        lemma_reversed_edge(coords, y, k - 1);
        lemma_bag_front(coords, y, n - k + 1, n);
    }
}

/// Reversing the ring leaves the crossings of every row unchanged.
proof fn lemma_reversed_crossings(coords: Seq<[i32; 2]>, y: int)
    ensures
        row_crossings(coords.reverse(), y) == row_crossings(coords, y),
        row_closed(coords.reverse(), y) == row_closed(coords, y),
{
    broadcast use vstd::multiset::group_multiset_axioms, vstd::seq_lib::group_to_multiset_ensures;

    let n = coords.len() as int;
    let r = coords.reverse();
    let cr = crossings(r, y, n);
    let cc = crossings(coords, y, n);
    lemma_crossings_bag(r, y, n);
    lemma_crossings_bag(coords, y, n);
    if n >= 1 {
        lemma_bag_front(r, y, 0, n);
        lemma_bag_front(coords, y, 0, n);
        lemma_reversed_bag(coords, y, n);
        lemma_reversed_edge(coords, y, 0);
    }
    assert(cr.to_multiset() =~= cc.to_multiset());
    cr.to_multiset_ensures();
    cc.to_multiset_ensures();
    lemma_ascending_total();
    cr.lemma_sort_by_ensures(ascending());
    cc.lemma_sort_by_ensures(ascending());
    vstd::seq_lib::lemma_sorted_unique(cr.sort_by(ascending()), cc.sort_by(ascending()), ascending());
}

/// Winding independence: the ring traversed backwards fills exactly the same
/// spans, and fails on exactly the same rows.
pub proof fn lemma_reversed_ring(coords: Seq<[i32; 2]>, xmax: int, rows: int)
    ensures
        poly_spans(coords.reverse(), xmax, rows) == poly_spans(coords, xmax, rows),
        forall|y: int| #[trigger] row_closed(coords.reverse(), y) == row_closed(coords, y),
    decreases rows,
{
    assert forall|y: int| #[trigger] row_closed(coords.reverse(), y) == row_closed(coords, y) by {
        lemma_reversed_crossings(coords, y);
    }
    if rows > 0 {
        lemma_reversed_ring(coords, xmax, rows - 1);
        lemma_reversed_crossings(coords, rows - 1);
    }
}

/// Determinism: the fill depends on the ring and the viewport alone, so two
/// fills of the same ring in the same viewport give the same span sequence.
pub proof fn lemma_fill_deterministic(
    a: Seq<[i32; 2]>,
    b: Seq<[i32; 2]>,
    xmax: int,
    rows: int,
)
    requires
        a == b,
    ensures
        poly_spans(a, xmax, rows) == poly_spans(b, xmax, rows),
        forall|y: int| #[trigger] row_closed(a, y) == row_closed(b, y),
{
}

/// A horizontal edge crosses no row: the crossings of every row are the same
/// with or without it.
pub proof fn lemma_horizontal_edge(coords: Seq<[i32; 2]>, y: int, i: int)
    requires
        0 <= i < coords.len(),
        pt(coords, prev(coords.len() as int, i)).1 == pt(coords, i).1,
    ensures
        crossings(coords, y, i + 1) == crossings(coords, y, i),
        edge_bag(coords, y, i) == Multiset::<i32>::empty(),
{
}

/// How many of the crossings `xs[i..]` lie at or left of `x`.
pub open spec fn count_at_or_left(xs: Seq<i32>, x: int, i: int) -> int
    decreases xs.len() - i,
{
    if i < 0 || i >= xs.len() {
        0
    } else {
        (if xs[i] <= x {
            1int
        } else {
            0int
        }) + count_at_or_left(xs, x, i + 1)
    }
}

/// Whether one of `spans` holds column `x`.
pub open spec fn covers(spans: Seq<(int, int, int)>, x: int) -> bool {
    exists|k: int| 0 <= k < spans.len() && #[trigger] spans[k].0 <= x && x < spans[k].1
}

proof fn lemma_count_right(xs: Seq<i32>, x: int, i: int)
    requires
        sorted_by(xs, ascending()),
        0 <= i < xs.len(),
        xs[i] > x,
    ensures
        count_at_or_left(xs, x, i) == 0,
    decreases xs.len() - i,
{
    assert(count_at_or_left(xs, x, i) == count_at_or_left(xs, x, i + 1));
    if i + 1 < xs.len() {
        assert(ascending()(xs[i], xs[i + 1]));
        lemma_count_right(xs, x, i + 1);
    } else {
        assert(count_at_or_left(xs, x, i + 1) == 0);
    }
}

proof fn lemma_spans_right(xs: Seq<i32>, xmax: int, y: int, i: int, x: int)
    requires
        sorted_by(xs, ascending()),
        0 <= i < xs.len(),
        xs[i] > x,
    ensures
        !covers(pair_spans(xs, xmax, y, i), x),
    decreases xs.len() - i,
{
    let sp = pair_spans(xs, xmax, y, i);
    if !(i + 1 >= xs.len() || xs[i] >= xmax) {
        let rest = pair_spans(xs, xmax, y, i + 2);
        if i + 2 < xs.len() {
            assert(ascending()(xs[i], xs[i + 2]));
            lemma_spans_right(xs, xmax, y, i + 2, x);
        } else {
            assert(rest =~= Seq::empty());
        }
        assert forall|k: int| 0 <= k < sp.len() implies !(#[trigger] sp[k].0 <= x && x
            < sp[k].1) by {
            let s = max(xs[i] as int, 0);
            let e = min(xs[i + 1] as int, xmax);
            if s < e {
                if k > 0 {
                    assert(sp[k] == rest[k - 1]);
                }
            } else {
                assert(sp[k] == rest[k]);
            }
        }
    }
}

proof fn lemma_pairs_even_odd(xs: Seq<i32>, xmax: int, y: int, x: int, i: int)
    requires
        sorted_by(xs, ascending()),
        xs.len() % 2 == 0,
        i % 2 == 0,
        0 <= i <= xs.len(),
        0 <= x < xmax,
    ensures
        covers(pair_spans(xs, xmax, y, i), x) <==> count_at_or_left(xs, x, i) % 2 == 1,
    decreases xs.len() - i,
{
    let sp = pair_spans(xs, xmax, y, i);
    if i == xs.len() {
        assert(sp =~= Seq::empty());
    } else if xs[i] >= xmax {
        assert(sp =~= Seq::empty());
        lemma_count_right(xs, x, i);
    } else {
        let a = xs[i] as int;
        let b = xs[i + 1] as int;
        assert(ascending()(xs[i], xs[i + 1]));
        let s = max(a, 0);
        let e = min(b, xmax);
        let rest = pair_spans(xs, xmax, y, i + 2);
        if x < a {
            lemma_count_right(xs, x, i);
            lemma_spans_right(xs, xmax, y, i, x);
        } else if x < b {
            assert(s < e);
            assert(sp[0] == (s, e, y));
            assert(sp[0].0 <= x && x < sp[0].1);
            assert(covers(sp, x));
            if i + 2 < xs.len() {
                assert(ascending()(xs[i + 1], xs[i + 2]));
                lemma_count_right(xs, x, i + 2);
            }
            assert(count_at_or_left(xs, x, i + 2) == 0);
            assert(count_at_or_left(xs, x, i + 1) == count_at_or_left(xs, x, i + 2));
            assert(count_at_or_left(xs, x, i) == 1 + count_at_or_left(xs, x, i + 1));
        } else {
            lemma_pairs_even_odd(xs, xmax, y, x, i + 2);
            assert(count_at_or_left(xs, x, i + 1) == 1 + count_at_or_left(xs, x, i + 2));
            assert(count_at_or_left(xs, x, i) == 1 + count_at_or_left(xs, x, i + 1));
            if covers(sp, x) {
                let k = choose|k: int| 0 <= k < sp.len() && #[trigger] sp[k].0 <= x && x < sp[k].1;
                if s < e {
                    assert(k != 0);
                    assert(sp[k] == rest[k - 1]);
                } else {
                    assert(sp[k] == rest[k]);
                }
            }
            if covers(rest, x) {
                let k = choose|k: int|
                    0 <= k < rest.len() && #[trigger] rest[k].0 <= x && x < rest[k].1;
                if s < e {
                    assert(sp[k + 1] == rest[k]);
                } else {
                    assert(sp[k] == rest[k]);
                }
            }
        }
    }
}

/// Even-odd rule: a pixel of row `y` inside the viewport is filled exactly
/// when an odd number of the row's boundary crossings lie at or left of it.
pub proof fn lemma_row_even_odd(coords: Seq<[i32; 2]>, xmax: int, y: int, x: int)
    requires
        coords.len() >= 1,
        0 <= x < xmax,
    ensures
        covers(row_spans(coords, xmax, y), x) <==> count_at_or_left(row_crossings(coords, y), x, 0)
            % 2 == 1,
{
    broadcast use vstd::seq_lib::group_to_multiset_ensures;

    let c = crossings(coords, y, coords.len() as int);
    lemma_ring_closed(coords, y);
    lemma_ascending_total();
    c.lemma_sort_by_ensures(ascending());
    c.to_multiset_ensures();
    c.sort_by(ascending()).to_multiset_ensures();
    lemma_pairs_even_odd(row_crossings(coords, y), xmax, y, x, 0);
}

proof fn lemma_pair_spans_shape(xs: Seq<i32>, xmax: int, y: int, i: int)
    requires
        sorted_by(xs, ascending()),
        0 <= i,
    ensures
        ({
            let sp = pair_spans(xs, xmax, y, i);
            &&& forall|k: int|
                0 <= k < sp.len() ==> 0 <= #[trigger] sp[k].0 < sp[k].1 <= xmax && sp[k].2 == y
            &&& forall|k: int| 0 <= k < sp.len() && i < xs.len() ==> #[trigger] sp[k].0 >= xs[i]
            &&& forall|k: int| 0 <= k < sp.len() - 1 ==> #[trigger] sp[k].1 <= sp[k + 1].0
        }),
    decreases xs.len() - i,
{
    let sp = pair_spans(xs, xmax, y, i);
    if !(i + 1 >= xs.len() || xs[i] >= xmax) {
        lemma_pair_spans_shape(xs, xmax, y, i + 2);
        let rest = pair_spans(xs, xmax, y, i + 2);
        let s = max(xs[i] as int, 0);
        let e = min(xs[i + 1] as int, xmax);
        assert(ascending()(xs[i], xs[i + 1]));
        if rest.len() > 0 {
            assert(i + 2 < xs.len());
            assert(ascending()(xs[i], xs[i + 2]));
            assert(ascending()(xs[i + 1], xs[i + 2]));
        }
        if s < e {
            assert forall|k: int| 0 <= k < sp.len() - 1 implies #[trigger] sp[k].1 <= sp[k
                + 1].0 by {
                if k > 0 {
                    assert(sp[k] == rest[k - 1] && sp[k + 1] == rest[k]);
                } else {
                    assert(sp[1] == rest[0]);
                }
            }
            assert forall|k: int| 0 <= k < sp.len() implies 0 <= #[trigger] sp[k].0 < sp[k].1
                <= xmax && sp[k].2 == y && (i < xs.len() ==> sp[k].0 >= xs[i]) by {
                if k > 0 {
                    assert(sp[k] == rest[k - 1]);
                }
            }
        }
    }
}

/// Every span lies inside the viewport `[0, xmax) x [0, rows)` and is
/// non-empty; spans come row by row, and within a row left to right without
/// overlapping.
pub proof fn lemma_spans_in_viewport(coords: Seq<[i32; 2]>, xmax: int, rows: int)
    ensures
        ({
            let sp = poly_spans(coords, xmax, rows);
            &&& forall|k: int|
                0 <= k < sp.len() ==> 0 <= #[trigger] sp[k].0 < sp[k].1 <= xmax && 0 <= sp[k].2
                    < rows
            &&& forall|k: int|
                0 <= k < sp.len() - 1 ==> #[trigger] sp[k].2 < sp[k + 1].2 || (sp[k].2 == sp[k
                    + 1].2 && sp[k].1 <= sp[k + 1].0)
        }),
    decreases rows,
{
    if rows > 0 {
        lemma_spans_in_viewport(coords, xmax, rows - 1);
        let c = crossings(coords, rows - 1, coords.len() as int);
        lemma_ascending_total();
        c.lemma_sort_by_ensures(ascending());
        lemma_pair_spans_shape(row_crossings(coords, rows - 1), xmax, rows - 1, 0);
        let head = poly_spans(coords, xmax, rows - 1);
        let tail = row_spans(coords, xmax, rows - 1);
        let sp = poly_spans(coords, xmax, rows);
        assert(sp == head + tail);
        assert forall|k: int| 0 <= k < sp.len() implies 0 <= #[trigger] sp[k].0 < sp[k].1 <= xmax
            && 0 <= sp[k].2 < rows by {
            if k >= head.len() {
                assert(sp[k] == tail[k - head.len()]);
            } else {
                assert(sp[k] == head[k]);
            }
        }
        assert forall|k: int| 0 <= k < sp.len() - 1 implies #[trigger] sp[k].2 < sp[k + 1].2 || (
        sp[k].2 == sp[k + 1].2 && sp[k].1 <= sp[k + 1].0) by {
            if k + 1 < head.len() {
                assert(sp[k] == head[k] && sp[k + 1] == head[k + 1]);
            } else if k >= head.len() {
                let j = k - head.len();
                assert(sp[k] == tail[j] && sp[k + 1] == tail[j + 1]);
                assert(0 <= tail[j].0 && 0 <= tail[j + 1].0);
                assert(tail[j].1 <= tail[j + 1].0);
            } else {
                assert(sp[k] == head[k] && sp[k + 1] == tail[0]);
                assert(0 <= head[k].0 && 0 <= tail[0].0);
            }
        }
    }
}

/// 1 when vertex `i` lies above row `y` (a smaller y), else 0.
pub open spec fn below_row(coords: Seq<[i32; 2]>, y: int, i: int) -> int {
    if pt(coords, i).1 < y {
        1
    } else {
        0
    }
}

proof fn lemma_crossings_parity(coords: Seq<[i32; 2]>, y: int, k: int)
    requires
        1 <= k <= coords.len(),
    ensures
        ({
            let n = coords.len() as int;
            let first = if edge_crosses(pt(coords, n - 1), pt(coords, 0), y) {
                1int
            } else {
                0int
            };
            (crossings(coords, y, k).len() + first + below_row(coords, y, k - 1) + below_row(
                coords,
                y,
                0,
            )) % 2 == 0
        }),
    decreases k,
{
    let n = coords.len() as int;
    let c = crossings(coords, y, k);
    let p = crossings(coords, y, k - 1);
    let a = pt(coords, prev(n, k - 1));
    let b = pt(coords, k - 1);
    assert(edge_crosses(a, b, y) <==> (a.1 < y) != (b.1 < y));
    if edge_crosses(a, b, y) {
        assert(c.len() == p.len() + 1);
    } else {
        assert(c.len() == p.len());
    }
    if k > 1 {
        lemma_crossings_parity(coords, y, k - 1);
        assert(prev(n, k - 1) == k - 2);
    } else {
        assert(p.len() == 0);
    }
}

/// A closed ring crosses every row an even number of times: walking round
/// the ring, each crossing switches between the two sides of the row, and the
/// walk ends on the side where it began.
pub proof fn lemma_ring_closed(coords: Seq<[i32; 2]>, y: int)
    requires
        coords.len() >= 1,
    ensures
        row_closed(coords, y),
{
    lemma_crossings_parity(coords, y, coords.len() as int);
}

} // verus!
