//! The spiral renderer: translates the emitted spiral coordinates to absolute
//! grid positions and paints each cell by the primality of the integer that
//! the spiral placed there.
//!
//! The walk index counts only emitted cells, while the number line also runs
//! through cells that fell outside the rectangle. The renderer reconciles the
//! two with a running `skip` counter: a jump larger than one cell between
//! consecutive absolute positions signals skipped walk steps, and `skip` is
//! then raised by the jump plus the number of discontinuities seen so far,
//! with every second discontinuity lowering it by one. The arithmetic is kept
//! exactly as the display convention demands; it is stated operationally by
//! `skip_state` below rather than re-derived.
use vstd::prelude::*;
use vstd::pervasive::VecAdditionalExecFns;
use vstd::arithmetic::div_mod::lemma_fundamental_div_mod_converse;
use crate::spiral::in_rect;
use crate::spiral::spiral_coords;
use crate::spiral::walk_state;
use crate::table::PrimeTable;

verus! {

/// The column a relative spiral offset lands in: the rectangle's left edge
/// maps to column zero.
pub open spec fn abs_col(w: int, dx: int) -> int {
    (w - 1) / 2 + dx
}

/// The row a relative spiral offset lands in.
pub open spec fn abs_row(h: int, dy: int) -> int {
    (h - 1) / 2 + dy
}

/// One step of the renderer's reconciliation state `(lastx, lasty, skip, skips)`
/// on the `i`-th emitted coordinate `c`.
pub open spec fn skip_step(st: (int, int, int, int), c: (int, int), i: int, w: int, h: int) -> (int, int, int, int) {
    let curx = abs_col(w, c.0);
    let cury = abs_row(h, c.1);
    let gap = curx + cury - st.0 - st.1;
    if (gap > 1 || gap < -1) && i != 0 {
        let skips = st.3 + 1;
        let lowered = if skips % 2 == 0 {
            st.2 - 1
        } else {
            st.2
        };
        let agap = if gap < 0 {
            -gap
        } else {
            gap
        };
        (curx, cury, lowered + agap + skips, skips)
    } else {
        (curx, cury, st.2, st.3)
    }
}

/// The reconciliation state after the first `n` emitted coordinates.
pub open spec fn skip_state(coords: Seq<(int, int)>, w: int, h: int, n: nat) -> (int, int, int, int)
    decreases n,
{
    if n == 0 {
        (0, 0, 0, 0)
    } else {
        skip_step(skip_state(coords, w, h, (n - 1) as nat), coords[n - 1], n - 1, w, h)
    }
}

/// The integer whose primality the renderer tests at emitted step `i`.
pub open spec fn render_index(coords: Seq<(int, int)>, w: int, h: int, i: int) -> int {
    i + skip_state(coords, w, h, (i + 1) as nat).2
}

/// Every reconciled index stays inside a table of `len` entries.
pub open spec fn indices_ok(coords: Seq<(int, int)>, w: int, h: int, len: int) -> bool {
    forall|i: int| 0 <= i < coords.len() ==> #[trigger] render_index(coords, w, h, i) < len
}

/// The pixel buffer after painting the first `n` emitted coordinates over a
/// cleared `w * h` buffer.
pub open spec fn layout_prefix(primes: Seq<bool>, coords: Seq<(int, int)>, w: int, h: int, n: nat) -> Seq<u32>
    decreases n,
{
    if n == 0 {
        Seq::new((w * h) as nat, |j: int| 0u32)
    } else {
        let prev = layout_prefix(primes, coords, w, h, (n - 1) as nat);
        let c = coords[n - 1];
        let v: u32 = if primes[render_index(coords, w, h, n - 1)] {
            0xFFFFFFu32
        } else {
            0u32
        };
        prev.update(abs_row(h, c.1) * w + abs_col(w, c.0), v)
    }
}

/// The finished pixel buffer for a table and a surface size.
pub open spec fn spec_layout(primes: Seq<bool>, coords: Seq<(int, int)>, w: int, h: int) -> Seq<u32> {
    layout_prefix(primes, coords, w, h, coords.len())
}

/// The reconciliation counters never go negative; before the first
/// discontinuity the skip is zero, and from the first one on it is at least 2.
pub proof fn lemma_skip_state_bounds(coords: Seq<(int, int)>, w: int, h: int, n: nat)
    ensures
        ({
            let st = skip_state(coords, w, h, n);
            &&& st.2 >= 0
            &&& st.3 >= 0
            &&& (st.3 >= 1 ==> st.2 >= 2)
            &&& (st.3 == 0 ==> st.2 == 0)
        }),
    decreases n,
{
    if n > 0 {
        lemma_skip_state_bounds(coords, w, h, (n - 1) as nat);
    }
}

/// A painted buffer always holds exactly `w * h` pixels: every emitted
/// coordinate lands inside the grid, so no paint stroke falls outside it.
pub proof fn lemma_layout_prefix_len(primes: Seq<bool>, coords: Seq<(int, int)>, w: int, h: int, n: nat)
    requires
        1 <= w,
        1 <= h,
        n <= coords.len(),
        forall|j: int| 0 <= j < coords.len() ==> in_rect((#[trigger] coords[j]).0, coords[j].1, w, h),
    ensures
        layout_prefix(primes, coords, w, h, n).len() == w * h,
    decreases n,
{
    assert(w * h >= 1) by (nonlinear_arith)
        requires
            1 <= w,
            1 <= h,
    ;
    if n > 0 {
        lemma_layout_prefix_len(primes, coords, w, h, (n - 1) as nat);
        let c = coords[n - 1];
        assert(in_rect(c.0, c.1, w, h));
        assert((w - 1) / 2 + w / 2 == w - 1);
        assert((h - 1) / 2 + h / 2 == h - 1);
        assert(0 <= abs_col(w, c.0) <= w - 1);
        assert(0 <= abs_row(h, c.1) <= h - 1);
        assert(0 <= abs_row(h, c.1) * w + abs_col(w, c.0)) by (nonlinear_arith)
            requires
                0 <= abs_col(w, c.0),
                0 <= abs_row(h, c.1),
                1 <= w,
        ;
        assert(w * h > abs_row(h, c.1) * w + abs_col(w, c.0)) by (nonlinear_arith)
            requires
                0 <= abs_col(w, c.0) <= w - 1,
                0 <= abs_row(h, c.1) <= h - 1,
                1 <= w,
                1 <= h,
        ;
    }
}

/// On a square surface the reconciliation never fires: every pair of
/// consecutive emitted cells is grid-adjacent, so the skip stays zero and the
/// renderer tests the table at the walk index itself. This settles the
/// heuristic's soundness for the square case; rectangles rely on the run-time
/// bounds check instead.
pub proof fn lemma_square_render_index(n: int, i: int)
    requires
        1 <= n,
        0 <= i < n * n,
    ensures
        render_index(spiral_coords(n, n), n, n, i) == i,
{
    lemma_square_skip_state(n, (i + 1) as nat);
}

/// The reconciliation state on a square surface: the counters stay zero and
/// the last position is the previous step's cell.
proof fn lemma_square_skip_state(n: int, i: nat)
    requires
        1 <= n,
        i <= n * n,
    ensures
        skip_state(spiral_coords(n, n), n, n, i).2 == 0,
        skip_state(spiral_coords(n, n), n, n, i).3 == 0,
        i >= 1 ==> skip_state(spiral_coords(n, n), n, n, i)
            == (
            abs_col(n, walk_state((i - 1) as nat).0),
            abs_row(n, walk_state((i - 1) as nat).1),
            0int,
            0int,
        ),
    decreases i,
{
    assert(n * n >= 1) by (nonlinear_arith)
        requires
            1 <= n,
    ;
    crate::spiral::lemma_square_all_emitted(n, (n * n) as nat);
    let coords = spiral_coords(n, n);
    if i >= 1 {
        lemma_square_skip_state(n, (i - 1) as nat);
        assert(coords[i - 1] == (walk_state((i - 1) as nat).0, walk_state((i - 1) as nat).1));
        if i >= 2 {
            assert(coords[i - 2] == (walk_state((i - 2) as nat).0, walk_state((i - 2) as nat).1));
            crate::spiral::lemma_walk_state_bounds((i - 1) as nat);
            let prev = walk_state((i - 2) as nat);
            let cur = walk_state((i - 1) as nat);
            assert(cur.0 == prev.0 + cur.2 && cur.1 == prev.1 + cur.3);
        }
    }
}

/// A cell painted at step `t` on a square surface keeps its color: every
/// later step paints a different cell.
proof fn lemma_square_cell_stable(primes: Seq<bool>, n: int, t: int, m: nat)
    requires
        1 <= n,
        0 <= t < m,
        m <= n * n,
    ensures
        ({
            let c = (walk_state(t as nat).0, walk_state(t as nat).1);
            layout_prefix(primes, spiral_coords(n, n), n, n, m)[abs_row(n, c.1) * n + abs_col(
                n,
                c.0,
            )] == (if primes[t] {
                0xFFFFFFu32
            } else {
                0u32
            })
        }),
    decreases m,
{
    assert(n * n >= 1) by (nonlinear_arith)
        requires
            1 <= n,
    ;
    let coords = spiral_coords(n, n);
    crate::spiral::lemma_square_all_emitted(n, (n * n) as nat);
    crate::spiral::lemma_spiral_coords_in_rect(n, n);
    lemma_layout_prefix_len(primes, coords, n, n, (m - 1) as nat);
    lemma_square_render_index(n, t);
    let c = (walk_state(t as nat).0, walk_state(t as nat).1);
    let d = (walk_state((m - 1) as nat).0, walk_state((m - 1) as nat).1);
    assert(coords[t] == c);
    assert(coords[m - 1] == d);
    assert(in_rect(c.0, c.1, n, n));
    assert(in_rect(d.0, d.1, n, n));
    assert((n - 1) / 2 + n / 2 == n - 1);
    let cc: int = abs_col(n, c.0);
    let cr: int = abs_row(n, c.1);
    let dc: int = abs_col(n, d.0);
    let dr: int = abs_row(n, d.1);
    assert(0 <= cc <= n - 1 && 0 <= cr <= n - 1);
    assert(0 <= dc <= n - 1 && 0 <= dr <= n - 1);
    assert(0 <= cr * n + cc && cr * n + cc < n * n) by (nonlinear_arith)
        requires
            0 <= cc <= n - 1,
            0 <= cr <= n - 1,
            1 <= n,
    ;
    assert(0 <= dr * n + dc && dr * n + dc < n * n) by (nonlinear_arith)
        requires
            0 <= dc <= n - 1,
            0 <= dr <= n - 1,
            1 <= n,
    ;
    let ci = cr * n + cc;
    let di = dr * n + dc;
    if t == m - 1 {
        assert(layout_prefix(primes, coords, n, n, m)
            == layout_prefix(primes, coords, n, n, (m - 1) as nat).update(
            di,
            if primes[render_index(coords, n, n, m - 1)] {
                0xFFFFFFu32
            } else {
                0u32
            },
        ));
    } else {
        lemma_square_cell_stable(primes, n, t, (m - 1) as nat);
        assert(c != d) by {
            crate::spiral::lemma_walk_injective(t as nat, (m - 1) as nat);
        }
        assert(ci != di) by {
            if ci == di {
                lemma_fundamental_div_mod_converse(ci, n, cr, cc);
                lemma_fundamental_div_mod_converse(di, n, dr, dc);
            }
        }
    }
}

/// On a square surface the finished buffer shows the number line itself: the
/// pixel at the cell where the walk placed integer `t` is lit exactly when
/// entry `t` of the table is set.
pub proof fn lemma_square_buffer_shows_table(primes: Seq<bool>, n: int, t: int)
    requires
        1 <= n,
        0 <= t < n * n,
    ensures
        ({
            let c = (walk_state(t as nat).0, walk_state(t as nat).1);
            spec_layout(primes, spiral_coords(n, n), n, n)[abs_row(n, c.1) * n + abs_col(n, c.0)]
                == (if primes[t] {
                0xFFFFFFu32
            } else {
                0u32
            })
        }),
{
    assert(n * n >= 1) by (nonlinear_arith)
        requires
            1 <= n,
    ;
    crate::spiral::lemma_square_all_emitted(n, (n * n) as nat);
    lemma_square_cell_stable(primes, n, t, (n * n) as nat);
}

/// Rendering is idempotent: the pixel buffer is a function of the primality
/// table and the surface size alone, so two renders of the same table at the
/// same size yield bit-identical buffers.
pub proof fn lemma_render_deterministic(primes1: Seq<bool>, primes2: Seq<bool>, w1: int, h1: int, w2: int, h2: int)
    requires
        primes1 == primes2,
        w1 == w2,
        h1 == h2,
    ensures
        spec_layout(primes1, spiral_coords(w1, h1), w1, h1) == spec_layout(primes2, spiral_coords(w2, h2), w2, h2),
{
}

/// Flattens a grid position to a row-major buffer index.
pub fn x_y_to_vec_index(x: usize, y: usize, w: usize) -> (r: usize)
    requires
        y as int * w as int + x as int <= usize::MAX as int,
    ensures
        r as int == y as int * w as int + x as int,
{
    y * w + x
}

/// Splits a row-major buffer index back into a grid position.
pub fn vec_index_to_x_y(index: usize, w: usize) -> (r: (usize, usize))
    requires
        1 <= w,
    ensures
        r.0 as int == index as int % w as int,
        r.1 as int == index as int / w as int,
{
    let x: usize = index % w;
    let y: usize = index / w;
    (x, y)
}

/// A cleared pixel buffer of `len` entries.
fn zero_buffer(len: usize) -> (r: Vec<u32>)
    ensures
        r@ == Seq::new(len as nat, |j: int| 0u32),
{
    let mut v: Vec<u32> = Vec::new();
    let mut k: usize = 0;
    while k < len
        invariant
            k <= len,
            v@.len() == k,
            forall|j: int| 0 <= j < k ==> v@[j] == 0u32,
        decreases len - k,
    {
        v.push(0);
        k += 1;
    }
    proof {
        assert(v@ =~= Seq::new(len as nat, |j: int| 0u32));
    }
    v
}

/// Renders the Ulam spiral: walks the emitted coordinates in order, maps each
/// to its absolute cell, reconciles the walk index with the number line, and
/// paints the cell white exactly when the reconciled integer is prime.
///
/// Returns `None` exactly when some reconciled index falls outside the table
/// (`indices_ok` fails); the caller must then treat the table as undersized.
#[verifier::rlimit(100)]
pub fn vec_to_spiral_layout(primes: &PrimeTable, w: usize, h: usize) -> (r: Option<Vec<u32>>)
    requires
        1 <= w <= 46340,
        1 <= h <= 46340,
    ensures
        match r {
            Some(buf) => indices_ok(spiral_coords(w as int, h as int), w as int, h as int, primes@.len() as int)
                && buf@ == spec_layout(primes@, spiral_coords(w as int, h as int), w as int, h as int)
                && buf@.len() == w as int * h as int,
            None => !indices_ok(spiral_coords(w as int, h as int), w as int, h as int, primes@.len() as int),
        },
{
    let ghost gw = w as int;
    let ghost gh = h as int;
    let ghost coords = spiral_coords(gw, gh);

    assert(w as int * h as int <= 46340 * 46340) by (nonlinear_arith)
        requires
            1 <= w as int <= 46340,
            1 <= h as int <= 46340,
    ;
    let mut spiralvec: Vec<u32> = zero_buffer(w * h);

    let rel_coords = crate::spiral::spiral_relative_coords(w as isize, h as isize);
    proof {
        crate::spiral::lemma_spiral_coords_in_rect(gw, gh);
        assert(coords.len() <= 46340 * 46340) by (nonlinear_arith)
            requires
                coords.len() <= crate::spiral::spiral_step_count(gw, gh),
                crate::spiral::spiral_side(gw, gh) <= 46340,
                crate::spiral::spiral_step_count(gw, gh) == crate::spiral::spiral_side(gw, gh) * crate::spiral::spiral_side(gw, gh),
                1 <= crate::spiral::spiral_side(gw, gh),
    ;
    }

    let plen: usize = primes.len();

    let mut lastx: isize = 0;
    let mut lasty: isize = 0;
    // The reconciliation counters can outgrow a 32-bit word on large
    // surfaces, so they are kept in 64 bits.
    let mut skip: u64 = 0;
    let mut skips: u64 = 0;

    let mut i: usize = 0;
    let imax: usize = rel_coords.len();
    while i < imax
        invariant
            1 <= gw <= 46340,
            1 <= gh <= 46340,
            w as int == gw,
            h as int == gh,
            coords == spiral_coords(gw, gh),
            rel_coords@.len() == coords.len(),
            imax == coords.len(),
            coords.len() <= 46340 * 46340,
            forall|j: int| 0 <= j < rel_coords@.len()
                ==> ((#[trigger] rel_coords@[j]).0 as int, rel_coords@[j].1 as int) == coords[j],
            forall|j: int| 0 <= j < coords.len()
                ==> in_rect((#[trigger] coords[j]).0, coords[j].1, gw, gh),
            plen == primes@.len(),
            i <= coords.len(),
            0 <= lastx as int <= gw - 1,
            0 <= lasty as int <= gh - 1,
            (lastx as int, lasty as int, skip as int, skips as int) == skip_state(coords, gw, gh, i as nat),
            skip as int <= i as int * 2147488281,
            skips as int <= i as int,
            spiralvec@ == layout_prefix(primes@, coords, gw, gh, i as nat),
            spiralvec@.len() == gw * gh,
            forall|j: int| 0 <= j < i ==> #[trigger] render_index(coords, gw, gh, j) < plen,
        decreases imax - i,
    {
        let c = rel_coords[i];
        proof {
            assert(in_rect(coords[i as int].0, coords[i as int].1, gw, gh));
            assert((gw - 1) / 2 + gw / 2 == gw - 1);
            assert((gh - 1) / 2 + gh / 2 == gh - 1);
        }
        let curx: isize = (w as isize - 1) / 2 + c.0;
        let cury: isize = (h as isize - 1) / 2 + c.1;
        assert(0 <= curx as int <= gw - 1);
        assert(0 <= cury as int <= gh - 1);
        assert(cury as int * gw + curx as int <= 46339 * 46340 + 46339) by (nonlinear_arith)
            requires
                0 <= curx as int <= gw - 1,
                0 <= cury as int <= gh - 1,
                1 <= gw <= 46340,
                1 <= gh <= 46340,
        ;
        assert(gw * gh > cury as int * gw + curx as int) by (nonlinear_arith)
            requires
                0 <= curx as int <= gw - 1,
                0 <= cury as int <= gh - 1,
                1 <= gw,
                1 <= gh,
        ;

        let curi: usize = x_y_to_vec_index(curx as usize, cury as usize, w);
        let xy = vec_index_to_x_y(curi, w);
        proof {
            lemma_fundamental_div_mod_converse(curi as int, gw, cury as int, curx as int);
            assert(xy.0 as int == curx as int);
            assert(xy.1 as int == cury as int);
        }

        let gap: isize = xy.0 as isize + xy.1 as isize - lastx - lasty;

        lastx = xy.0 as isize;
        lasty = xy.1 as isize;

        proof {
            lemma_skip_state_bounds(coords, gw, gh, i as nat);
        }
        let agap: isize = if gap < 0 { -gap } else { gap };
        if agap > 1 && i != 0 {
            skips += 1;
            if skips % 2 == 0 {
                skip -= 1;
            }
            skip += agap as u64 + skips;
        }
        proof {
            assert(skip_state(coords, gw, gh, (i + 1) as nat)
                == skip_step(skip_state(coords, gw, gh, i as nat), coords[i as int], i as int, gw, gh));
            assert((lastx as int, lasty as int, skip as int, skips as int)
                == skip_state(coords, gw, gh, (i + 1) as nat));
            assert(render_index(coords, gw, gh, i as int) == i as int + skip as int);
        }

        let idx64: u64 = i as u64 + skip;
        if idx64 >= plen as u64 {
            proof {
                assert(render_index(coords, gw, gh, i as int) >= plen);
                assert(!indices_ok(coords, gw, gh, primes@.len() as int)) by {
                    if indices_ok(coords, gw, gh, primes@.len() as int) {
                        assert(render_index(coords, gw, gh, i as int) < primes@.len());
                    }
                }
            }
            return None;
        }
        let idx: usize = idx64 as usize;

        let v: u32 = if primes.get(idx) {
            0xFFFFFF
        } else {
            0
        };
        spiralvec.set(curi, v);

        proof {
            assert(layout_prefix(primes@, coords, gw, gh, (i + 1) as nat)
                == layout_prefix(primes@, coords, gw, gh, i as nat)
                    .update(abs_row(gh, coords[i as int].1) * gw + abs_col(gw, coords[i as int].0), v));
            assert(spiralvec@ == layout_prefix(primes@, coords, gw, gh, (i + 1) as nat));
        }
        i += 1;
    }
    proof {
        assert(indices_ok(coords, gw, gh, primes@.len() as int));
        assert(spiralvec@ == spec_layout(primes@, coords, gw, gh));
    }
    Some(spiralvec)
}

} // verus!
