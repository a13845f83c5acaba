use vstd::prelude::*;

verus! {

/// `b` lies within one cell of `a` along a periodic axis of `n` cells.
pub open spec fn adjacent_on_axis(a: int, b: int, n: int) -> bool {
    ||| b == (a - 1) % n
    ||| b == a % n
    ||| b == (a + 1) % n
}

/// Cell `b` is one of the (up to) nine cells around cell `a` on a periodic
/// `nx` by `ny` grid, `a` itself included.
pub open spec fn is_neighbour_cell(a: (usize, usize), b: (usize, usize), nx: int, ny: int) -> bool {
    adjacent_on_axis(a.0 as int, b.0 as int, nx) && adjacent_on_axis(a.1 as int, b.1 as int, ny)
}

/// The cell reached from `(cx, cy)` by the offset `(dx - 1, dy - 1)`, wrapped.
pub open spec fn offset_cell(cx: int, cy: int, nx: int, ny: int, dx: int, dy: int) -> (usize, usize) {
    (((cx + dx - 1) % nx) as usize, ((cy + dy - 1) % ny) as usize)
}

/// The nine wrapped offsets in scan order: `dy` outer, `dx` inner, each from -1 to 1.
pub open spec fn candidate_cells(cx: int, cy: int, nx: int, ny: int) -> Seq<(usize, usize)> {
    Seq::new(9, |k: int| offset_cell(cx, cy, nx, ny, k % 3, k / 3))
}

/// The neighbour cells in scan order, each kept at its first occurrence.
pub open spec fn neighbour_cell_seq(cx: int, cy: int, nx: int, ny: int) -> Seq<(usize, usize)> {
    candidate_cells(cx, cy, nx, ny).remove_duplicates(Seq::empty())
}

/// Wraps an integer cell coordinate `c`, such as a cell reached by a
/// neighbour offset, onto `0..n` periodically.
pub fn wrap_coord(c: isize, n: usize) -> (r: usize)
    requires
        1 <= n <= isize::MAX,
    ensures
        r as int == (c as int) % (n as int),
        r < n,
{
    let m = n as isize;
    match c.checked_rem_euclid(m) {
        Some(v) => v as usize,
        None => 0,
    }
}

/// The cell of a coordinate on an axis of `n` cells.
pub open spec fn binned(c: int, n: int) -> int {
    if c < 0 {
        c % n
    } else if c < n {
        c
    } else {
        n - 1
    }
}

/// The cell along an axis of `n` cells for `c`, the floor of a wrapped
/// position over the cell width: `min(n - 1, c)`, so a coordinate whose
/// quotient rounds up to `n` lands in the last cell. A negative `c` is wrapped
/// periodically.
pub fn bin_cell(c: isize, n: usize) -> (r: usize)
    requires
        1 <= n <= isize::MAX,
    ensures
        r as int == binned(c as int, n as int),
        r < n,
        0 <= c < n ==> r == c,
        c >= n ==> r == n - 1,
{
    if c < 0 {
        wrap_coord(c, n)
    } else if (c as usize) < n {
        c as usize
    } else {
        n - 1
    }
}

fn push_if_absent(cells: &mut Vec<(usize, usize)>, p: (usize, usize))
    ensures
        old(cells)@.contains(p) ==> final(cells)@ == old(cells)@,
        !old(cells)@.contains(p) ==> final(cells)@ == old(cells)@.push(p),
{
    let mut i: usize = 0;
    while i < cells.len()
        invariant
            0 <= i <= cells.len(),
            cells@ == old(cells)@,
            forall|t: int| 0 <= t < i ==> cells@[t] != p,
        decreases cells.len() - i,
    {
        if cells[i].0 == p.0 && cells[i].1 == p.1 {
            assert(cells@[i as int] == p);
            return;
        }
        i = i + 1;
    }
    cells.push(p);
}

proof fn lemma_candidates_are_neighbours(cx: usize, cy: usize, nx: int, ny: int)
    requires
        nx >= 1,
        ny >= 1,
        nx <= usize::MAX,
        ny <= usize::MAX,
    ensures
        forall|p: (usize, usize)|
            candidate_cells(cx as int, cy as int, nx, ny).contains(p) <==> is_neighbour_cell(
                (cx, cy),
                p,
                nx,
                ny,
            ),
{
    let cand = candidate_cells(cx as int, cy as int, nx, ny);
    assert forall|p: (usize, usize)|
        cand.contains(p) <==> is_neighbour_cell((cx, cy), p, nx, ny) by {
        if cand.contains(p) {
            let k = choose|k: int| 0 <= k < cand.len() && cand[k] == p;
            assert(0 <= k % 3 < 3 && 0 <= k / 3 < 3);
            assert(p == offset_cell(cx as int, cy as int, nx, ny, k % 3, k / 3));
        }
        if is_neighbour_cell((cx, cy), p, nx, ny) {
            let i: int = if p.0 as int == (cx - 1) % nx {
                0
            } else if p.0 as int == (cx as int) % nx {
                1
            } else {
                2
            };
            let j: int = if p.1 as int == (cy - 1) % ny {
                0
            } else if p.1 as int == (cy as int) % ny {
                1
            } else {
                2
            };
            let k = 3 * j + i;
            assert(k % 3 == i && k / 3 == j);
            assert(cand[k] == p);
        }
    }
}

/// The distinct cells around `(cx, cy)` on a periodic `nx` by `ny` grid, in
/// the order of a scan over the offsets -1, 0, 1 (rows outer), each cell once.
pub fn neighbour_cells(cx: usize, cy: usize, nx: usize, ny: usize) -> (cells: Vec<(usize, usize)>)
    requires
        1 <= nx <= isize::MAX,
        1 <= ny <= isize::MAX,
        cx < isize::MAX,
        cy < isize::MAX,
    ensures
        cells@ == neighbour_cell_seq(cx as int, cy as int, nx as int, ny as int),
        cells@.no_duplicates(),
        forall|p: (usize, usize)|
            cells@.contains(p) <==> (p.0 < nx && p.1 < ny && is_neighbour_cell(
                (cx, cy),
                p,
                nx as int,
                ny as int,
            )),
{
    let ghost cand = candidate_cells(cx as int, cy as int, nx as int, ny as int);
    let mut cells: Vec<(usize, usize)> = Vec::new();
    let mut dy: usize = 0;
    while dy < 3
        invariant
            0 <= dy <= 3,
            1 <= nx <= isize::MAX,
            1 <= ny <= isize::MAX,
            cx < isize::MAX,
            cy < isize::MAX,
            cand == candidate_cells(cx as int, cy as int, nx as int, ny as int),
            cells@ == cand.take(3 * dy as int).remove_duplicates(Seq::empty()),
            cells@.no_duplicates(),
        decreases 3 - dy,
    {
        let mut dx: usize = 0;
        while dx < 3
            invariant
                0 <= dx <= 3,
                0 <= dy < 3,
                1 <= nx <= isize::MAX,
                1 <= ny <= isize::MAX,
                cx < isize::MAX,
                cy < isize::MAX,
                cand == candidate_cells(cx as int, cy as int, nx as int, ny as int),
                cells@ == cand.take(3 * dy + dx).remove_duplicates(Seq::empty()),
                cells@.no_duplicates(),
            decreases 3 - dx,
        {
            let ncx = wrap_coord(cx as isize + (dx as isize - 1), nx);
            let ncy = wrap_coord(cy as isize + (dy as isize - 1), ny);
            let ghost k: int = 3 * dy + dx;
            proof {
                assert(k % 3 == dx as int);
                assert(k / 3 == dy as int);
                assert(cand[k] == (ncx, ncy));
                let prefix = cand.take(k);
                prefix.lemma_remove_duplicates_properties(Seq::empty());
                prefix.lemma_remove_duplicates_append(cand[k], Seq::empty());
                assert(prefix + Seq::<(usize, usize)>::empty() == prefix);
                assert(cand.take(k + 1) == prefix + seq![cand[k]]);
            }
            push_if_absent(&mut cells, (ncx, ncy));
            dx = dx + 1;
        }
        dy = dy + 1;
    }
    proof {
        assert(cand.take(9) == cand);
        lemma_candidates_are_neighbours(cx, cy, nx as int, ny as int);
        cand.lemma_remove_duplicates_properties(Seq::empty());
        assert(cand + Seq::<(usize, usize)>::empty() == cand);
    }
    cells
}

/// Row-major index of cell `b` in a grid that is `nx` cells wide.
pub open spec fn cell_index(b: (usize, usize), nx: int) -> int {
    b.1 * nx + b.0
}

/// Every atom's bin lies inside the `nx` by `ny` grid.
pub open spec fn bins_in_grid(bins: Seq<(usize, usize)>, nx: int, ny: int) -> bool {
    forall|i: int| 0 <= i < bins.len() ==> #[trigger] bins[i].0 < nx && bins[i].1 < ny
}

pub open spec fn strictly_increasing(s: Seq<usize>) -> bool {
    forall|a: int, b: int| 0 <= a < b < s.len() ==> s[a] < s[b]
}

/// `occ` lists, for each of the `nx * ny` cells in row-major order, exactly the
/// atoms binned there, in increasing order.
pub open spec fn is_occupancy(bins: Seq<(usize, usize)>, nx: int, ny: int, occ: Seq<Vec<usize>>) -> bool {
    &&& occ.len() == nx * ny
    &&& forall|k: int| 0 <= k < occ.len() ==> strictly_increasing(#[trigger] occ[k]@)
    &&& forall|k: int, t: int|
        0 <= k < occ.len() && 0 <= t < occ[k]@.len() ==> #[trigger] occ[k]@[t] < bins.len()
            && cell_index(bins[occ[k]@[t] as int], nx) == k
    &&& forall|i: int| 0 <= i < bins.len() ==> #[trigger] occ[cell_index(bins[i], nx)]@.contains(i as usize)
}

/// The indices `0, 1, .., len - 1`.
pub open spec fn index_seq(len: int) -> Seq<usize> {
    Seq::new(len as nat, |a: int| a as usize)
}

/// Atom `a` is binned in cell `k`.
pub open spec fn in_cell(bins: Seq<(usize, usize)>, nx: int, k: int) -> spec_fn(usize) -> bool {
    |a: usize| cell_index(bins[a as int], nx) == k
}

/// The atoms among the first `len` that are binned in cell `k`, in increasing order.
pub open spec fn occupants_upto(bins: Seq<(usize, usize)>, nx: int, k: int, len: int) -> Seq<usize> {
    index_seq(len).filter(in_cell(bins, nx, k))
}

/// The atoms binned in cell `k`, in increasing order.
pub open spec fn occupants_of(bins: Seq<(usize, usize)>, nx: int, k: int) -> Seq<usize> {
    occupants_upto(bins, nx, k, bins.len() as int)
}

/// The occupancy lists are exactly the atoms of each cell in increasing order.
pub open spec fn occupancy_exact(bins: Seq<(usize, usize)>, nx: int, ny: int, occ: Seq<Vec<usize>>) -> bool {
    forall|k: int| 0 <= k < nx * ny ==> (#[trigger] occ[k])@ == occupants_of(bins, nx, k)
}

proof fn lemma_occupants_step(bins: Seq<(usize, usize)>, nx: int, k: int, len: int)
    requires
        0 <= len < bins.len(),
        bins.len() <= usize::MAX,
    ensures
        occupants_upto(bins, nx, k, len + 1) == (if cell_index(bins[len], nx) == k {
            occupants_upto(bins, nx, k, len).push(len as usize)
        } else {
            occupants_upto(bins, nx, k, len)
        }),
{
    assert(index_seq(len + 1) =~= index_seq(len).push(len as usize));
    index_seq(len).lemma_filter_push(len as usize, in_cell(bins, nx, k));
}

proof fn lemma_occupants_empty(bins: Seq<(usize, usize)>, nx: int, k: int)
    ensures
        occupants_upto(bins, nx, k, 0) == Seq::<usize>::empty(),
{
    index_seq(0).lemma_filter_len(in_cell(bins, nx, k));
    assert(occupants_upto(bins, nx, k, 0) =~= Seq::<usize>::empty());
}

pub(crate) proof fn lemma_cell_index_bounds(cx: int, cy: int, nx: int, ny: int)
    requires
        0 <= cx < nx,
        0 <= cy < ny,
    ensures
        0 <= cy * nx + cx < nx * ny,
{
    assert(0 <= cy * nx) by (nonlinear_arith)
        requires
            0 <= cy,
            0 <= nx,
    ;
    assert(cy * nx + nx <= nx * ny) by (nonlinear_arith)
        requires
            cy + 1 <= ny,
            0 <= nx,
    ;
}

pub(crate) proof fn lemma_cell_index_injective(a: (usize, usize), b: (usize, usize), nx: int)
    requires
        a.0 < nx,
        b.0 < nx,
        cell_index(a, nx) == cell_index(b, nx),
    ensures
        a == b,
{
    let (a0, a1, b0, b1) = (a.0 as int, a.1 as int, b.0 as int, b.1 as int);
    assert(a1 == b1) by (nonlinear_arith)
        requires
            0 <= a0 < nx,
            0 <= b0 < nx,
            0 <= a1,
            0 <= b1,
            a1 * nx + a0 == b1 * nx + b0,
    {
        if a1 < b1 {
            assert(a1 * nx + nx <= b1 * nx);
        } else if b1 < a1 {
            assert(b1 * nx + nx <= a1 * nx);
        }
    }
}

/// Bins atom `i` into the occupancy list of cell `bins[i]`: cell `(cx, cy)`
/// is entry `cy * nx + cx`, and each list holds its atoms in increasing order.
pub fn build_cells(bins: &Vec<(usize, usize)>, nx: usize, ny: usize) -> (cells: Vec<Vec<usize>>)
    requires
        nx >= 1,
        ny >= 1,
        nx * ny <= usize::MAX,
        bins_in_grid(bins@, nx as int, ny as int),
    ensures
        is_occupancy(bins@, nx as int, ny as int, cells@),
        occupancy_exact(bins@, nx as int, ny as int, cells@),
{
    let total = nx * ny;
    let mut cells: Vec<Vec<usize>> = Vec::new();
    let mut k: usize = 0;
    while k < total
        invariant
            0 <= k <= total,
            cells@.len() == k,
            forall|m: int| 0 <= m < k ==> (#[trigger] cells@[m])@.len() == 0,
        decreases total - k,
    {
        cells.push(Vec::new());
        k = k + 1;
    }
    proof {
        assert forall|m: int| 0 <= m < cells@.len() implies (#[trigger] cells@[m])@ == occupants_upto(
            bins@,
            nx as int,
            m,
            0,
        ) by {
            lemma_occupants_empty(bins@, nx as int, m);
        }
    }
    let mut i: usize = 0;
    while i < bins.len()
        invariant
            0 <= i <= bins.len(),
            total == nx * ny,
            nx >= 1,
            ny >= 1,
            bins_in_grid(bins@, nx as int, ny as int),
            cells@.len() == total,
            forall|m: int| 0 <= m < cells@.len() ==> strictly_increasing(#[trigger] cells@[m]@),
            forall|m: int, t: int|
                0 <= m < cells@.len() && 0 <= t < cells@[m]@.len() ==> #[trigger] cells@[m]@[t] < i
                    && cell_index(bins@[cells@[m]@[t] as int], nx as int) == m,
            forall|a: int| 0 <= a < i ==> #[trigger] cells@[cell_index(bins@[a], nx as int)]@.contains(a as usize),
            forall|m: int|
                0 <= m < cells@.len() ==> (#[trigger] cells@[m])@ == occupants_upto(bins@, nx as int, m, i as int),
        decreases bins.len() - i,
    {
        let cx = bins[i].0;
        let cy = bins[i].1;
        proof {
            assert(bins@[i as int].0 < nx && bins@[i as int].1 < ny);
            lemma_cell_index_bounds(cx as int, cy as int, nx as int, ny as int);
        }
        let idx = cy * nx + cx;
        let ghost before = cells@;
        cells[idx].push(i);
        proof {
            assert forall|m: int| 0 <= m < cells@.len() implies strictly_increasing(#[trigger] cells@[m]@) by {
                if m == idx as int {
                    assert(cells@[m]@ == before[m]@.push(i));
                }
            }
            assert forall|a: int| 0 <= a < i + 1 implies #[trigger] cells@[cell_index(bins@[a], nx as int)]@.contains(a as usize) by {
                let ca = cell_index(bins@[a], nx as int);
                assert(bins@[a].0 < nx && bins@[a].1 < ny);
                lemma_cell_index_bounds(bins@[a].0 as int, bins@[a].1 as int, nx as int, ny as int);
                if a == i as int {
                    assert(cells@[ca]@[cells@[ca]@.len() - 1] == i);
                } else if ca == idx as int {
                    assert(before[ca]@.contains(a as usize));
                    let t = choose|t: int| 0 <= t < before[ca]@.len() && before[ca]@[t] == a as usize;
                    assert(cells@[ca]@[t] == a as usize);
                } else {
                    assert(cells@[ca] == before[ca]);
                }
            }
            assert forall|m: int| 0 <= m < cells@.len() implies (#[trigger] cells@[m])@ == occupants_upto(
                bins@,
                nx as int,
                m,
                i + 1,
            ) by {
                lemma_occupants_step(bins@, nx as int, m, i as int);
                if m == idx as int {
                    assert(cells@[m]@ == before[m]@.push(i));
                } else {
                    assert(cells@[m] == before[m]);
                }
            }
        }
        i = i + 1;
    }
    cells
}

proof fn lemma_remove_duplicates_of_distinct_prefix<A>(s: Seq<A>, k: int)
    requires
        s.no_duplicates(),
        0 <= k <= s.len(),
    ensures
        s.take(k).remove_duplicates(Seq::empty()) == s.take(k),
    decreases k,
{
    if k > 0 {
        lemma_remove_duplicates_of_distinct_prefix(s, k - 1);
        let prefix = s.take(k - 1);
        prefix.lemma_remove_duplicates_append(s[k - 1], Seq::empty());
        assert(prefix + Seq::<A>::empty() == prefix);
        assert(!prefix.contains(s[k - 1])) by {
            if prefix.contains(s[k - 1]) {
                let w = choose|w: int| 0 <= w < prefix.len() && prefix[w] == s[k - 1];
                assert(s[w] == s[k - 1]);
            }
        }
        assert(s.take(k) == prefix + seq![s[k - 1]]);
    } else {
        assert(s.take(0) == Seq::<A>::empty());
    }
}

proof fn lemma_remove_duplicates_of_distinct<A>(s: Seq<A>)
    requires
        s.no_duplicates(),
    ensures
        s.remove_duplicates(Seq::empty()) == s,
{
    lemma_remove_duplicates_of_distinct_prefix(s, s.len() as int);
    assert(s.take(s.len() as int) == s);
}

proof fn lemma_wrapped_offsets_distinct(a: int, n: int, d1: int, d2: int)
    requires
        3 <= n,
        0 <= a < n,
        0 <= d1 < 3,
        0 <= d2 < 3,
        d1 != d2,
    ensures
        (a + d1 - 1) % n != (a + d2 - 1) % n,
{
    lemma_wrap_step(a, n);
}

/// A cell has at most nine neighbour cells, itself included, and exactly
/// nine distinct ones, in scan order, once the grid is at least three cells
/// wide and tall.
pub proof fn law_neighbour_cell_count(cx: usize, cy: usize, nx: int, ny: int)
    requires
        1 <= nx <= usize::MAX,
        1 <= ny <= usize::MAX,
        cx < nx,
        cy < ny,
    ensures
        neighbour_cell_seq(cx as int, cy as int, nx, ny).len() <= 9,
        nx >= 3 && ny >= 3 ==> neighbour_cell_seq(cx as int, cy as int, nx, ny) == candidate_cells(
            cx as int,
            cy as int,
            nx,
            ny,
        ),
        nx >= 3 && ny >= 3 ==> neighbour_cell_seq(cx as int, cy as int, nx, ny).len() == 9,
{
    let cand = candidate_cells(cx as int, cy as int, nx, ny);
    cand.lemma_remove_duplicates_properties(Seq::empty());
    if nx >= 3 && ny >= 3 {
        assert forall|i: int, j: int| 0 <= i < cand.len() && 0 <= j < cand.len() && i != j implies cand[i] != cand[j] by {
            if i % 3 != j % 3 {
                lemma_wrapped_offsets_distinct(cx as int, nx, i % 3, j % 3);
            } else {
                assert(i / 3 != j / 3);
                lemma_wrapped_offsets_distinct(cy as int, ny, i / 3, j / 3);
            }
        }
        lemma_remove_duplicates_of_distinct(cand);
    }
}

proof fn lemma_remove_duplicates_no_duplicates<A>(s: Seq<A>, seen: Seq<A>)
    requires
        seen.no_duplicates(),
    ensures
        s.remove_duplicates(seen).no_duplicates(),
    decreases s.len(),
{
    if s.len() > 0 {
        if seen.contains(s[0]) {
            lemma_remove_duplicates_no_duplicates(s.skip(1), seen);
        } else {
            let seen2 = seen + seq![s[0]];
            assert forall|i: int, j: int| 0 <= i < seen2.len() && 0 <= j < seen2.len() && i != j implies seen2[i] != seen2[j] by {
                if i == seen.len() as int {
                    assert(seen[j] == seen2[j]);
                } else if j == seen.len() as int {
                    assert(seen[i] == seen2[i]);
                }
            }
            lemma_remove_duplicates_no_duplicates(s.skip(1), seen2);
        }
    }
}

/// The smaller of `n` and 3: how many distinct cells one axis contributes to
/// a neighbourhood.
pub open spec fn axis_span(n: int) -> int {
    if n < 3 {
        n
    } else {
        3
    }
}

/// The distinct neighbour cells listed row by row over the distinct offsets
/// of each axis.
spec fn distinct_neighbours(cx: int, cy: int, nx: int, ny: int) -> Seq<(usize, usize)> {
    Seq::new(
        (axis_span(nx) * axis_span(ny)) as nat,
        |k: int| offset_cell(cx, cy, nx, ny, k % axis_span(nx), k / axis_span(nx)),
    )
}

/// Offsets `d` and `e` (each 0, 1 or 2, meaning -1, 0, 1) land on the same
/// cell of an axis of `n` cells exactly when they agree modulo `n`.
proof fn lemma_offsets_meet(c: int, n: int, d: int, e: int)
    requires
        1 <= n,
        0 <= c < n,
        0 <= d < 3,
        0 <= e < 3,
    ensures
        ((c + d - 1) % n == (c + e - 1) % n) <==> (d == e || n == 1 || (n == 2 && d + e == 2)),
{
    lemma_wrap_step(c, n);
}

/// Every offset of an axis meets one of the first `axis_span(n)` offsets.
proof fn lemma_offset_representative(c: int, n: int, d: int) -> (e: int)
    requires
        1 <= n,
        0 <= c < n,
        0 <= d < 3,
    ensures
        0 <= e < axis_span(n),
        (c + d - 1) % n == (c + e - 1) % n,
{
    lemma_wrap_step(c, n);
    if d < axis_span(n) {
        d
    } else {
        0
    }
}

proof fn lemma_same_set_same_len<A>(a: Seq<A>, b: Seq<A>)
    requires
        a.no_duplicates(),
        b.no_duplicates(),
        forall|x: A| a.contains(x) <==> b.contains(x),
    ensures
        a.len() == b.len(),
{
    a.unique_seq_to_set();
    b.unique_seq_to_set();
    assert(a.to_set() =~= b.to_set());
}

/// A cell has `min(nx, 3) * min(ny, 3)` distinct neighbour cells, itself
/// included: nine on a grid at least three cells wide and tall, four on a
/// two-by-two grid, one on a single cell.
#[verifier::spinoff_prover]
#[verifier::rlimit(40)]
pub proof fn law_neighbour_cell_count_exact(cx: usize, cy: usize, nx: int, ny: int)
    requires
        1 <= nx <= usize::MAX,
        1 <= ny <= usize::MAX,
        cx < nx,
        cy < ny,
    ensures
        neighbour_cell_seq(cx as int, cy as int, nx, ny).len() == axis_span(nx) * axis_span(ny),
{
    let (c0, c1) = (cx as int, cy as int);
    let cand = candidate_cells(c0, c1, nx, ny);
    let r = neighbour_cell_seq(c0, c1, nx, ny);
    let d = distinct_neighbours(c0, c1, nx, ny);
    let (mx, my) = (axis_span(nx), axis_span(ny));
    cand.lemma_remove_duplicates_properties(Seq::empty());
    assert(cand + Seq::<(usize, usize)>::empty() == cand);
    lemma_remove_duplicates_no_duplicates(cand, Seq::empty());
    assert(d.len() == mx * my);
    assert forall|i: int, j: int| 0 <= i < d.len() && 0 <= j < d.len() && i != j implies d[i] != d[j] by {
        assert(0 <= i % mx < mx && 0 <= j % mx < mx) by {
            vstd::arithmetic::div_mod::lemma_mod_bound(i, mx);
            vstd::arithmetic::div_mod::lemma_mod_bound(j, mx);
        }
        vstd::arithmetic::div_mod::lemma_fundamental_div_mod(i, mx);
        vstd::arithmetic::div_mod::lemma_fundamental_div_mod(j, mx);
        assert(0 <= i / mx < my && 0 <= j / mx < my) by {
            assert(0 <= i / mx < my) by (nonlinear_arith)
                requires
                    i == mx * (i / mx) + i % mx,
                    0 <= i % mx < mx,
                    0 <= i < mx * my,
                    1 <= mx,
            ;
            assert(0 <= j / mx < my) by (nonlinear_arith)
                requires
                    j == mx * (j / mx) + j % mx,
                    0 <= j % mx < mx,
                    0 <= j < mx * my,
                    1 <= mx,
            ;
        }
        if i % mx != j % mx {
            lemma_offsets_meet(c0, nx, i % mx, j % mx);
        } else {
            assert(i / mx != j / mx);
            lemma_offsets_meet(c1, ny, i / mx, j / mx);
        }
    }
    assert forall|x: (usize, usize)| r.contains(x) <==> d.contains(x) by {
        if cand.contains(x) {
            let k = choose|k: int| 0 <= k < cand.len() && cand[k] == x;
            let a = lemma_offset_representative(c0, nx, k % 3);
            let b = lemma_offset_representative(c1, ny, k / 3);
            let k2 = b * mx + a;
            assert(0 <= k2 < mx * my) by (nonlinear_arith)
                requires
                    0 <= a < mx,
                    0 <= b < my,
                    k2 == b * mx + a,
            ;
            vstd::arithmetic::div_mod::lemma_fundamental_div_mod_converse(k2, mx, b, a);
            assert(d[k2] == x);
        }
        if d.contains(x) {
            let k = choose|k: int| 0 <= k < d.len() && d[k] == x;
            vstd::arithmetic::div_mod::lemma_mod_bound(k, mx);
            vstd::arithmetic::div_mod::lemma_fundamental_div_mod(k, mx);
            let a = k % mx;
            let b = k / mx;
            assert(0 <= b < my) by (nonlinear_arith)
                requires
                    k == mx * b + a,
                    0 <= a < mx,
                    0 <= k < mx * my,
                    1 <= mx,
            ;
            let k9 = 3 * b + a;
            assert(k9 % 3 == a && k9 / 3 == b);
            assert(cand[k9] == x);
        }
    }
    lemma_same_set_same_len(r, d);
}

/// A coordinate already on the grid is its own cell; one past the top is
/// clamped to the last cell; one below the grid is wrapped to the cell it
/// equals modulo `n`. Every result is a cell of the grid.
pub proof fn law_bin_cell_rule(c: int, n: int)
    requires
        n >= 1,
    ensures
        0 <= binned(c, n) < n,
        0 <= c < n ==> binned(c, n) == c,
        c >= n ==> binned(c, n) == n - 1,
        c < n ==> (binned(c, n) - c) % n == 0,
{
    if c < 0 {
        vstd::arithmetic::div_mod::lemma_mod_bound(c, n);
        vstd::arithmetic::div_mod::lemma_fundamental_div_mod(c, n);
        let q = c / n;
        assert(c % n - c == (-q) * n + 0) by (nonlinear_arith)
            requires
                c == n * q + c % n,
        ;
        vstd::arithmetic::div_mod::lemma_fundamental_div_mod_converse(c % n - c, n, -q, 0);
    } else if c < n {
        vstd::arithmetic::div_mod::lemma_fundamental_div_mod_converse(0, n, 0, 0);
    }
}

/// Neighbouring cells are neighbours both ways: whichever atom of a pair has
/// the lower index, the pair is found.
pub proof fn law_neighbour_cells_symmetric(a: (usize, usize), b: (usize, usize), nx: int, ny: int)
    requires
        a.0 < nx,
        a.1 < ny,
        b.0 < nx,
        b.1 < ny,
    ensures
        is_neighbour_cell(a, b, nx, ny) == is_neighbour_cell(b, a, nx, ny),
{
    lemma_adjacent_symmetric(a.0 as int, b.0 as int, nx);
    lemma_adjacent_symmetric(a.1 as int, b.1 as int, ny);
}

proof fn lemma_adjacent_symmetric(a: int, b: int, n: int)
    requires
        0 <= a < n,
        0 <= b < n,
    ensures
        adjacent_on_axis(a, b, n) == adjacent_on_axis(b, a, n),
{
    lemma_wrap_step(a, n);
    lemma_wrap_step(b, n);
}

/// The wrapped neighbours of an in-range coordinate.
pub(crate) proof fn lemma_wrap_step(a: int, n: int)
    requires
        0 <= a < n,
    ensures
        a % n == a,
        (a - 1) % n == (if a == 0 { n - 1 } else { a - 1 }),
        (a + 1) % n == (if a == n - 1 { 0 } else { a + 1 }),
{
    vstd::arithmetic::div_mod::lemma_fundamental_div_mod_converse(a, n, 0, a);
    if a == 0 {
        vstd::arithmetic::div_mod::lemma_fundamental_div_mod_converse(a - 1, n, -1, n - 1);
    } else {
        vstd::arithmetic::div_mod::lemma_fundamental_div_mod_converse(a - 1, n, 0, a - 1);
    }
    if a == n - 1 {
        vstd::arithmetic::div_mod::lemma_fundamental_div_mod_converse(a + 1, n, 1, 0);
    } else {
        vstd::arithmetic::div_mod::lemma_fundamental_div_mod_converse(a + 1, n, 0, a + 1);
    }
}

/// Every cell is its own neighbour, so pairs within one cell are found.
pub proof fn law_own_cell_is_neighbour(a: (usize, usize), nx: int, ny: int)
    requires
        a.0 < nx,
        a.1 < ny,
    ensures
        is_neighbour_cell(a, a, nx, ny),
{
    vstd::arithmetic::div_mod::lemma_small_mod(a.0 as nat, nx as nat);
    vstd::arithmetic::div_mod::lemma_small_mod(a.1 as nat, ny as nat);
}

} // verus!
