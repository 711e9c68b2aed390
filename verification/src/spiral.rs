//! The spiral coordinate generator: a turtle walks a square spiral outward
//! from the origin and emits, in visiting order, every position that lies
//! inside the centered `width x height` rectangle.
use vstd::prelude::*;

verus! {

/// The turtle turns 90 degrees clockwise at the spiral's corner positions:
/// on the diagonal, or on the anti-diagonal boundary that matches the sign
/// of the column.
pub open spec fn spiral_turns(x2: int, y2: int) -> bool {
    x2 == y2 || (x2 < 0 && x2 == -y2) || (x2 > 0 && x2 == 1 - y2)
}

/// Turtle state after `n` steps, as `(x2, y2, dx, dy)`: it starts at the
/// origin heading up (`dy == -1`); each step first turns at a corner, then
/// advances one cell.
pub open spec fn walk_state(n: nat) -> (int, int, int, int)
    decreases n,
{
    if n == 0 {
        (0, 0, 0, -1)
    } else {
        let (x2, y2, dx, dy) = walk_state((n - 1) as nat);
        let (ndx, ndy) = if spiral_turns(x2, y2) {
            (-dy, dx)
        } else {
            (dx, dy)
        };
        (x2 + ndx, y2 + ndy, ndx, ndy)
    }
}

/// `(x2, y2)` lies in the rectangle of `w` columns and `h` rows centered on
/// the origin: each coordinate sits in the half-open band from `-side/2`
/// (excluded) to `side/2` (included), measured in exact halves.
pub open spec fn in_rect(x2: int, y2: int, w: int, h: int) -> bool {
    &&& -((w - 1) / 2) <= x2 <= w / 2
    &&& -((h - 1) / 2) <= y2 <= h / 2
}

/// The coordinates emitted over the first `n` turtle steps: the positions
/// visited, in order, filtered to the centered rectangle.
pub open spec fn walk_seq(w: int, h: int, n: nat) -> Seq<(int, int)>
    decreases n,
{
    if n == 0 {
        Seq::empty()
    } else {
        let s = walk_state((n - 1) as nat);
        let prev = walk_seq(w, h, (n - 1) as nat);
        if in_rect(s.0, s.1, w, h) {
            prev.push((s.0, s.1))
        } else {
            prev
        }
    }
}

/// The side of the smallest square that encloses the rectangle.
pub open spec fn spiral_side(w: int, h: int) -> int {
    if w > h {
        w
    } else {
        h
    }
}

/// How many steps the turtle walks: the area of the enclosing square.
pub open spec fn spiral_step_count(w: int, h: int) -> int {
    spiral_side(w, h) * spiral_side(w, h)
}

/// The full emitted coordinate sequence for a `w` by `h` surface.
pub open spec fn spiral_coords(w: int, h: int) -> Seq<(int, int)> {
    walk_seq(w, h, spiral_step_count(w, h) as nat)
}

/// The turtle never strays further than one cell per step: after `n` steps
/// its position is within `n` of the origin, and it always heads exactly one
/// of the four cardinal directions.
pub proof fn lemma_walk_state_bounds(n: nat)
    ensures
        ({
            let (x2, y2, dx, dy) = walk_state(n);
            &&& -(n as int) <= x2 <= n as int
            &&& -(n as int) <= y2 <= n as int
            &&& ((dx == 0 && (dy == -1 || dy == 1)) || (dy == 0 && (dx == -1 || dx == 1)))
        }),
    decreases n,
{
    if n > 0 {
        lemma_walk_state_bounds((n - 1) as nat);
    }
}

/// At most one coordinate is emitted per step, and every emitted coordinate
/// lies inside the centered rectangle.
pub proof fn lemma_walk_seq_props(w: int, h: int, n: nat)
    ensures
        walk_seq(w, h, n).len() <= n,
        forall|i: int| 0 <= i < walk_seq(w, h, n).len()
            ==> in_rect((#[trigger] walk_seq(w, h, n)[i]).0, walk_seq(w, h, n)[i].1, w, h),
    decreases n,
{
    if n > 0 {
        lemma_walk_seq_props(w, h, (n - 1) as nat);
        let s = walk_state((n - 1) as nat);
        if in_rect(s.0, s.1, w, h) {
            assert(walk_seq(w, h, n) == walk_seq(w, h, (n - 1) as nat).push((s.0, s.1)));
        }
    }
}

/// Every coordinate of the spiral layout lies inside the centered rectangle,
/// and no more coordinates are emitted than the enclosing square has cells.
pub proof fn lemma_spiral_coords_in_rect(w: int, h: int)
    requires
        1 <= w,
        1 <= h,
    ensures
        spiral_coords(w, h).len() <= spiral_step_count(w, h),
        forall|i: int| 0 <= i < spiral_coords(w, h).len()
            ==> in_rect((#[trigger] spiral_coords(w, h)[i]).0, spiral_coords(w, h)[i].1, w, h),
{
    assert(spiral_step_count(w, h) >= 1) by (nonlinear_arith)
        requires
            spiral_side(w, h) >= 1,
    ;
    lemma_walk_seq_props(w, h, spiral_step_count(w, h) as nat);
}

/// The Chebyshev norm of a cell: which ring of the spiral it lies on.
pub open spec fn ring(x: int, y: int) -> int {
    let ax = if x < 0 { -x } else { x };
    let ay = if y < 0 { -y } else { y };
    if ax > ay { ax } else { ay }
}

/// The step at which the turtle visits cell `(x, y)`: ring `k` opens at step
/// `(2k - 1)^2` with the cell `(k, 1 - k)`, and the turtle then runs up the
/// right column, left along the far row, down the left column and right along
/// the near row.
pub open spec fn spiral_index(x: int, y: int) -> int {
    let k = ring(x, y);
    let b = (2 * k - 1) * (2 * k - 1);
    if k == 0 {
        0
    } else if x == k && y >= 1 - k {
        b + y + k - 1
    } else if y == k {
        b + 3 * k - 1 - x
    } else if x == -k {
        b + 5 * k - 1 - y
    } else {
        b + 7 * k - 1 + x
    }
}

/// The direction along which the turtle arrives at cell `(x, y)`.
pub open spec fn arrival_dir(x: int, y: int) -> (int, int) {
    let k = ring(x, y);
    if k == 0 {
        (0, -1)
    } else if x == k && y >= 1 - k {
        if y == 1 - k {
            (1, 0)
        } else {
            (0, 1)
        }
    } else if y == k {
        (-1, 0)
    } else if x == -k {
        (0, -1)
    } else {
        (1, 0)
    }
}

/// After `n` steps the turtle stands on the cell whose spiral index is `n`,
/// arriving along `arrival_dir`: the walk enumerates the plane ring by ring
/// and never revisits a cell.
pub proof fn lemma_walk_index(n: nat)
    ensures
        ({
            let (x2, y2, dx, dy) = walk_state(n);
            spiral_index(x2, y2) == n && (dx, dy) == arrival_dir(x2, y2)
        }),
    decreases n,
{
    if n > 0 {
        lemma_walk_index((n - 1) as nat);
        let (x, y, dx, dy) = walk_state((n - 1) as nat);
        let k = ring(x, y);
        assert((2 * (k + 1) - 1) * (2 * (k + 1) - 1) == (2 * k - 1) * (2 * k - 1) + 8 * k)
            by (nonlinear_arith);
        assert((2 * 1 - 1) * (2 * 1 - 1) == 1) by (nonlinear_arith);
    }
}

/// Two different steps of the walk stand on two different cells.
pub proof fn lemma_walk_injective(n1: nat, n2: nat)
    requires
        n1 != n2,
    ensures
        (walk_state(n1).0, walk_state(n1).1) != (walk_state(n2).0, walk_state(n2).1),
{
    lemma_walk_index(n1);
    lemma_walk_index(n2);
}

/// Every emitted coordinate is the cell of one of the first `n` walk steps,
/// namely the step its own spiral index names, and the emitted sequence holds
/// no cell twice.
pub proof fn lemma_walk_seq_unique(w: int, h: int, n: nat)
    ensures
        forall|i: int| 0 <= i < walk_seq(w, h, n).len()
            ==> spiral_index((#[trigger] walk_seq(w, h, n)[i]).0, walk_seq(w, h, n)[i].1) < n,
        forall|i: int| 0 <= i < walk_seq(w, h, n).len()
            ==> ({
                let t = spiral_index((#[trigger] walk_seq(w, h, n)[i]).0, walk_seq(w, h, n)[i].1);
                0 <= t && (walk_state(t as nat).0, walk_state(t as nat).1) == walk_seq(w, h, n)[i]
            }),
        forall|i1: int, i2: int| 0 <= i1 < i2 < walk_seq(w, h, n).len()
            ==> walk_seq(w, h, n)[i1] != walk_seq(w, h, n)[i2],
    decreases n,
{
    if n > 0 {
        lemma_walk_seq_unique(w, h, (n - 1) as nat);
        let s = walk_state((n - 1) as nat);
        lemma_walk_index((n - 1) as nat);
        let prev = walk_seq(w, h, (n - 1) as nat);
        let cur = walk_seq(w, h, n);
        if in_rect(s.0, s.1, w, h) {
            assert(cur == prev.push((s.0, s.1)));
            assert(spiral_index(s.0, s.1) == n - 1);
            assert forall|i: int| 0 <= i < cur.len() implies spiral_index(
                (#[trigger] cur[i]).0,
                cur[i].1,
            ) < n by {
                if i < prev.len() {
                    assert(cur[i] == prev[i]);
                } else {
                    assert(cur[i] == (s.0, s.1));
                }
            }
            assert forall|i: int| 0 <= i < cur.len() implies ({
                let t = spiral_index((#[trigger] cur[i]).0, cur[i].1);
                0 <= t && (walk_state(t as nat).0, walk_state(t as nat).1) == cur[i]
            }) by {
                if i < prev.len() {
                    assert(cur[i] == prev[i]);
                } else {
                    assert(cur[i] == (s.0, s.1));
                }
            }
            assert forall|i1: int, i2: int| 0 <= i1 < i2 < cur.len() implies cur[i1] != cur[i2] by {
                if i2 == cur.len() - 1 {
                    assert(cur[i1] == prev[i1]);
                    assert(cur[i2] == (s.0, s.1));
                    assert(spiral_index(cur[i1].0, cur[i1].1) < n - 1);
                } else {
                    assert(cur[i1] == prev[i1]);
                    assert(cur[i2] == prev[i2]);
                }
            }
        } else {
            assert(cur == prev);
            assert forall|i: int| 0 <= i < cur.len() implies spiral_index(
                (#[trigger] cur[i]).0,
                cur[i].1,
            ) < n by {
                assert(cur[i] == prev[i]);
            }
            assert forall|i: int| 0 <= i < cur.len() implies ({
                let t = spiral_index((#[trigger] cur[i]).0, cur[i].1);
                0 <= t && (walk_state(t as nat).0, walk_state(t as nat).1) == cur[i]
            }) by {
                assert(cur[i] == prev[i]);
            }
            assert forall|i1: int, i2: int| 0 <= i1 < i2 < cur.len() implies cur[i1] != cur[i2] by {
                assert(cur[i1] == prev[i1]);
                assert(cur[i2] == prev[i2]);
            }
        }
    }
}

/// No cell appears twice among the spiral's emitted coordinates.
pub proof fn lemma_spiral_coords_unique(w: int, h: int)
    requires
        1 <= w,
        1 <= h,
    ensures
        forall|i1: int, i2: int| 0 <= i1 < i2 < spiral_coords(w, h).len()
            ==> spiral_coords(w, h)[i1] != spiral_coords(w, h)[i2],
{
    assert(spiral_step_count(w, h) >= 1) by (nonlinear_arith)
        requires
            spiral_side(w, h) >= 1,
    ;
    lemma_walk_seq_unique(w, h, spiral_step_count(w, h) as nat);
}

/// The spiral index sits inside its ring's step range.
proof fn lemma_spiral_index_range(x: int, y: int)
    ensures
        ({
            let k = ring(x, y);
            let b = (2 * k - 1) * (2 * k - 1);
            k == 0 ==> spiral_index(x, y) == 0
        }),
        ({
            let k = ring(x, y);
            let b = (2 * k - 1) * (2 * k - 1);
            k >= 1 ==> b <= spiral_index(x, y) < b + 8 * k
        }),
{
}

/// Two different cells have two different spiral indices.
proof fn lemma_spiral_index_injective(x1: int, y1: int, x2: int, y2: int)
    requires
        spiral_index(x1, y1) == spiral_index(x2, y2),
    ensures
        x1 == x2 && y1 == y2,
{
    let k1 = ring(x1, y1);
    let k2 = ring(x2, y2);
    lemma_spiral_index_range(x1, y1);
    lemma_spiral_index_range(x2, y2);
    if k1 == 0 {
        assert((2 * k1 - 1) * (2 * k1 - 1) == 1) by (nonlinear_arith)
            requires
                k1 == 0,
        ;
    }
    if k2 == 0 {
        assert((2 * k2 - 1) * (2 * k2 - 1) == 1) by (nonlinear_arith)
            requires
                k2 == 0,
        ;
    }
    assert(k1 == k2) by {
        if k1 < k2 {
            assert((2 * k1 - 1) * (2 * k1 - 1) + 8 * k1 <= (2 * k2 - 1) * (2 * k2 - 1))
                by (nonlinear_arith)
                requires
                    0 <= k1 < k2,
            ;
            assert(false);
        }
        if k2 < k1 {
            assert((2 * k2 - 1) * (2 * k2 - 1) + 8 * k2 <= (2 * k1 - 1) * (2 * k1 - 1))
                by (nonlinear_arith)
                requires
                    0 <= k2 < k1,
            ;
            assert(false);
        }
    }
}

/// Every cell of the centered `n` by `n` square is visited within the first
/// `n * n` steps of the walk.
proof fn lemma_square_covered(x: int, y: int, n: int)
    requires
        1 <= n,
        in_rect(x, y, n, n),
    ensures
        0 <= spiral_index(x, y) < n * n,
        (walk_state(spiral_index(x, y) as nat).0, walk_state(spiral_index(x, y) as nat).1) == (x, y),
{
    let k = ring(x, y);
    lemma_spiral_index_range(x, y);
    assert(0 <= (2 * k - 1) * (2 * k - 1)) by (nonlinear_arith);
    assert(2 * k <= n);
    if 2 * k + 1 <= n {
        if k == 0 {
            assert((2 * k - 1) * (2 * k - 1) == 1) by (nonlinear_arith)
                requires
                    k == 0,
            ;
        }
        assert((2 * k - 1) * (2 * k - 1) + 8 * k <= n * n) by (nonlinear_arith)
            requires
                0 <= k,
                2 * k + 1 <= n,
        ;
    } else {
        // n is even and the cell lies on the outermost visited ring, where
        // only the right column and the far row are inside the square.
        assert(n == 2 * k);
        if x == k && y >= 1 - k {
            assert(spiral_index(x, y) <= (2 * k - 1) * (2 * k - 1) + 2 * k - 1);
            assert((2 * k - 1) * (2 * k - 1) + 2 * k - 1 < (2 * k) * (2 * k)) by (nonlinear_arith)
                requires
                    1 <= k,
            ;
        } else {
            assert(y == k);
            assert(spiral_index(x, y) == (2 * k - 1) * (2 * k - 1) + 3 * k - 1 - x);
            assert(x >= 1 - k);
            assert((2 * k - 1) * (2 * k - 1) + 3 * k - 1 - (1 - k) < (2 * k) * (2 * k))
                by (nonlinear_arith)
                requires
                    1 <= k,
            ;
        }
        assert(n * n == (2 * k) * (2 * k));
    }
    let t = spiral_index(x, y);
    lemma_walk_index(t as nat);
    let c = (walk_state(t as nat).0, walk_state(t as nat).1);
    assert(spiral_index(c.0, c.1) == t as nat);
    lemma_spiral_index_injective(c.0, c.1, x, y);
}

/// The set of cells of the centered rectangle.
spec fn rect_set(w: int, h: int) -> Set<(int, int)> {
    Set::new(|c: (int, int)| in_rect(c.0, c.1, w, h))
}

/// The set of cells emitted during the first `n` walk steps.
spec fn emitted_set(w: int, h: int, n: nat) -> Set<(int, int)>
    decreases n,
{
    if n == 0 {
        Set::empty()
    } else {
        let s = walk_state((n - 1) as nat);
        let prev = emitted_set(w, h, (n - 1) as nat);
        if in_rect(s.0, s.1, w, h) {
            prev.insert((s.0, s.1))
        } else {
            prev
        }
    }
}

/// The emitted sequence and the emitted set grow in lockstep: because the
/// walk never revisits a cell, each emission adds a fresh set element.
proof fn lemma_emitted_set(w: int, h: int, n: nat)
    ensures
        emitted_set(w, h, n).finite(),
        emitted_set(w, h, n).len() == walk_seq(w, h, n).len(),
        forall|c: (int, int)| #[trigger] emitted_set(w, h, n).contains(c)
            ==> spiral_index(c.0, c.1) < n && in_rect(c.0, c.1, w, h),
    decreases n,
{
    if n > 0 {
        lemma_emitted_set(w, h, (n - 1) as nat);
        let s = walk_state((n - 1) as nat);
        lemma_walk_index((n - 1) as nat);
        let prev = emitted_set(w, h, (n - 1) as nat);
        if in_rect(s.0, s.1, w, h) {
            assert(spiral_index(s.0, s.1) == n - 1);
            assert(!prev.contains((s.0, s.1)));
            assert forall|c: (int, int)| #[trigger] emitted_set(w, h, n).contains(c)
                implies spiral_index(c.0, c.1) < n && in_rect(c.0, c.1, w, h) by {
                if c != (s.0, s.1) {
                    assert(prev.contains(c));
                }
            }
        }
    }
}

/// A cell the walk visits within the first `n` steps is in the emitted set.
proof fn lemma_emitted_mem(w: int, h: int, n: nat, c: (int, int))
    requires
        in_rect(c.0, c.1, w, h),
        0 <= spiral_index(c.0, c.1) < n,
        (walk_state(spiral_index(c.0, c.1) as nat).0, walk_state(spiral_index(c.0, c.1) as nat).1)
            == c,
    ensures
        emitted_set(w, h, n).contains(c),
    decreases n,
{
    let t = spiral_index(c.0, c.1);
    let s = walk_state((n - 1) as nat);
    if t == n - 1 {
        assert((s.0, s.1) == c);
        assert(emitted_set(w, h, n) == emitted_set(w, h, (n - 1) as nat).insert(c));
    } else {
        lemma_emitted_mem(w, h, (n - 1) as nat, c);
    }
}

/// A row of cells: the columns from `x0` through `x1` at row `y`.
spec fn row_set(x0: int, x1: int, y: int) -> Set<(int, int)> {
    Set::new(|c: (int, int)| x0 <= c.0 <= x1 && c.1 == y)
}

/// A row of `x1 + 1 - x0` columns holds that many cells.
proof fn lemma_row_len(x0: int, x1: int, y: int)
    requires
        x0 <= x1 + 1,
    ensures
        row_set(x0, x1, y).finite(),
        row_set(x0, x1, y).len() == x1 + 1 - x0,
    decreases x1 + 1 - x0,
{
    if x0 == x1 + 1 {
        assert(row_set(x0, x1, y) =~= Set::empty());
    } else {
        lemma_row_len(x0, x1 - 1, y);
        assert(row_set(x0, x1, y) =~= row_set(x0, x1 - 1, y).insert((x1, y)));
        assert(!row_set(x0, x1 - 1, y).contains((x1, y)));
    }
}

/// An axis-aligned box of cells holds width times height cells.
proof fn lemma_box_len(x0: int, x1: int, y0: int, y1: int)
    requires
        x0 <= x1 + 1,
        y0 <= y1 + 1,
    ensures
        Set::new(|c: (int, int)| x0 <= c.0 <= x1 && y0 <= c.1 <= y1).finite(),
        Set::new(|c: (int, int)| x0 <= c.0 <= x1 && y0 <= c.1 <= y1).len()
            == (x1 + 1 - x0) * (y1 + 1 - y0),
    decreases y1 + 1 - y0,
{
    let cur = Set::new(|c: (int, int)| x0 <= c.0 <= x1 && y0 <= c.1 <= y1);
    if y0 == y1 + 1 {
        assert(cur =~= Set::empty());
        assert((x1 + 1 - x0) * (y1 + 1 - y0) == 0) by (nonlinear_arith)
            requires
                y1 + 1 - y0 == 0,
        ;
    } else {
        let below = Set::new(|c: (int, int)| x0 <= c.0 <= x1 && y0 <= c.1 <= y1 - 1);
        lemma_box_len(x0, x1, y0, y1 - 1);
        lemma_row_len(x0, x1, y1);
        assert(cur =~= below + row_set(x0, x1, y1));
        assert(below.disjoint(row_set(x0, x1, y1)));
        vstd::set_lib::lemma_set_disjoint_lens(below, row_set(x0, x1, y1));
        assert((x1 + 1 - x0) * (y1 - y0) + (x1 + 1 - x0) == (x1 + 1 - x0) * (y1 + 1 - y0))
            by (nonlinear_arith);
    }
}

/// Emissions cannot outpace the walk: between two step counts, at most one
/// coordinate per step is emitted.
proof fn lemma_walk_seq_len_diff(w: int, h: int, m: nat, n: nat)
    requires
        m <= n,
    ensures
        walk_seq(w, h, n).len() - walk_seq(w, h, m).len() <= n - m,
    decreases n,
{
    if m < n {
        lemma_walk_seq_len_diff(w, h, m, (n - 1) as nat);
    }
}

/// On a square surface nothing is ever skipped: after any number of steps
/// the walk has emitted every cell it visited, in walk order.
pub proof fn lemma_square_all_emitted(n: int, t: nat)
    requires
        1 <= n,
        t <= n * n,
    ensures
        walk_seq(n, n, t).len() == t,
        forall|i: int| 0 <= i < t
            ==> #[trigger] walk_seq(n, n, t)[i] == (walk_state(i as nat).0, walk_state(i as nat).1),
    decreases t,
{
    lemma_spiral_coords_complete(n, n);
    assert(spiral_side(n, n) == n);
    assert(walk_seq(n, n, (n * n) as nat).len() == n * n);
    lemma_walk_seq_props(n, n, t);
    lemma_walk_seq_len_diff(n, n, t, (n * n) as nat);
    assert(walk_seq(n, n, t).len() == t);
    if t > 0 {
        lemma_square_all_emitted(n, (t - 1) as nat);
        let s = walk_state((t - 1) as nat);
        assert(in_rect(s.0, s.1, n, n)) by {
            if !in_rect(s.0, s.1, n, n) {
                assert(walk_seq(n, n, t) == walk_seq(n, n, (t - 1) as nat));
            }
        }
        assert(walk_seq(n, n, t) == walk_seq(n, n, (t - 1) as nat).push((s.0, s.1)));
    }
}

/// The spiral layout paints the whole rectangle: over the enclosing square's
/// worth of steps, exactly `w * h` coordinates are emitted.
pub proof fn lemma_spiral_coords_complete(w: int, h: int)
    requires
        1 <= w,
        1 <= h,
    ensures
        spiral_coords(w, h).len() == w * h,
{
    let m = spiral_side(w, h);
    assert(m * m >= 1) by (nonlinear_arith)
        requires
            1 <= m,
    ;
    let steps = (m * m) as nat;
    lemma_emitted_set(w, h, steps);
    assert forall|c: (int, int)| rect_set(w, h).contains(c)
        implies emitted_set(w, h, steps).contains(c) by {
        assert(in_rect(c.0, c.1, w, h));
        assert(in_rect(c.0, c.1, m, m));
        lemma_square_covered(c.0, c.1, m);
        lemma_emitted_mem(w, h, steps, c);
    }
    assert(emitted_set(w, h, steps) =~= rect_set(w, h));
    lemma_box_len(-((w - 1) / 2), w / 2, -((h - 1) / 2), h / 2);
    assert(rect_set(w, h) =~= Set::new(
        |c: (int, int)| -((w - 1) / 2) <= c.0 <= w / 2 && -((h - 1) / 2) <= c.1 <= h / 2,
    ));
    assert((w / 2 + 1 - (-((w - 1) / 2))) == w);
    assert((h / 2 + 1 - (-((h - 1) / 2))) == h);
}

/// Walks the square spiral for `max(x, y)` squared steps and collects, in
/// visiting order, every position inside the centered `x` by `y` rectangle.
///
/// The upper bound on the sides keeps the step count within `isize` on every
/// architecture.
pub fn spiral_relative_coords(x: isize, y: isize) -> (r: Vec<(isize, isize)>)
    requires
        1 <= x <= 46340,
        1 <= y <= 46340,
    ensures
        r@.len() == spiral_coords(x as int, y as int).len(),
        r@.len() == x as int * y as int,
        forall|i: int| 0 <= i < r@.len()
            ==> ((#[trigger] r@[i]).0 as int, r@[i].1 as int) == spiral_coords(x as int, y as int)[i],
{
    proof {
        lemma_spiral_coords_complete(x as int, y as int);
    }
    let ghost gw = x as int;
    let ghost gh = y as int;
    let mut relative_coords: Vec<(isize, isize)> = Vec::new();

    let mut x2: isize = 0;
    let mut y2: isize = 0;
    let mut dx: isize = 0;
    let mut dy: isize = -1;

    let m: isize = if x > y { x } else { y };
    assert(m as int * m as int <= 46340 * 46340) by (nonlinear_arith)
        requires
            1 <= m as int <= 46340,
    ;
    assert(m as int * m as int >= 1) by (nonlinear_arith)
        requires
            1 <= m as int,
    ;
    let steps: usize = (m * m) as usize;
    assert(steps == spiral_step_count(gw, gh));

    let mut n: usize = 0;
    while n < steps
        invariant
            n <= steps,
            steps == spiral_step_count(gw, gh),
            steps <= 46340 * 46340,
            1 <= gw <= 46340,
            1 <= gh <= 46340,
            x as int == gw,
            y as int == gh,
            (x2 as int, y2 as int, dx as int, dy as int) == walk_state(n as nat),
            relative_coords@.len() == walk_seq(gw, gh, n as nat).len(),
            forall|i: int| 0 <= i < relative_coords@.len()
                ==> ((#[trigger] relative_coords@[i]).0 as int, relative_coords@[i].1 as int)
                    == walk_seq(gw, gh, n as nat)[i],
        decreases steps - n,
    {
        proof {
            lemma_walk_state_bounds(n as nat);
            lemma_walk_seq_props(gw, gh, (n + 1) as nat);
        }
        let ghost emitted = walk_seq(gw, gh, (n + 1) as nat);
        if -((x - 1) / 2) <= x2 && x2 <= x / 2 && -((y - 1) / 2) <= y2 && y2 <= y / 2 {
            relative_coords.push((x2, y2));
            assert(emitted == walk_seq(gw, gh, n as nat).push((x2 as int, y2 as int)));
        } else {
            assert(emitted == walk_seq(gw, gh, n as nat));
        }
        if x2 == y2 || (x2 < 0 && x2 == -y2) || (x2 > 0 && x2 == 1 - y2) {
            let t = dx;
            dx = -dy;
            dy = t;
        }
        x2 = x2 + dx;
        y2 = y2 + dy;
        n = n + 1;
    }
    relative_coords
}

} // verus!
