use vstd::prelude::*;
use crate::cells::{
    bins_in_grid, build_cells, cell_index, is_neighbour_cell, is_occupancy, lemma_cell_index_bounds,
    lemma_cell_index_injective, neighbour_cell_seq, neighbour_cells, occupancy_exact, occupants_of,
    strictly_increasing,
};

verus! {

/// `p` is an unordered atom pair, written with the lower index first, whose
/// two atoms sit in neighbouring cells.
pub open spec fn is_cell_pair(bins: Seq<(usize, usize)>, nx: int, ny: int, p: (usize, usize)) -> bool {
    &&& p.0 < p.1
    &&& p.1 < bins.len()
    &&& is_neighbour_cell(bins[p.0 as int], bins[p.1 as int], nx, ny)
}

/// Atom `j` comes after atom `i`.
pub open spec fn above(i: usize) -> spec_fn(usize) -> bool {
    |j: usize| j > i
}

pub open spec fn paired_with(i: usize) -> spec_fn(usize) -> (usize, usize) {
    |j: usize| (i, j)
}

/// The pairs `(i, j)` for the atoms `j` of `nb` after `i`, in the order of `nb`.
pub open spec fn later_pairs(i: usize, nb: Seq<usize>) -> Seq<(usize, usize)> {
    nb.filter(above(i)).map_values(paired_with(i))
}

/// The pairs `(i, j)` for `j` in `nb` with `j > i`, in the order of `nb`.
fn pairs_with_later(i: usize, nb: &Vec<usize>) -> (r: Vec<(usize, usize)>)
    requires
        strictly_increasing(nb@),
    ensures
        forall|q: int|
            0 <= q < r@.len() ==> (#[trigger] r@[q]).0 == i && r@[q].1 > i && nb@.contains(r@[q].1),
        forall|u: int| 0 <= u < nb@.len() && nb@[u] > i ==> r@.contains((i, #[trigger] nb@[u])),
        r@.no_duplicates(),
        r@ == later_pairs(i, nb@),
{
    let mut r: Vec<(usize, usize)> = Vec::new();
    let mut u: usize = 0;
    proof {
        assert(nb@.take(0) =~= Seq::<usize>::empty());
        nb@.take(0).lemma_filter_len(above(i));
        assert(later_pairs(i, nb@.take(0)) =~= Seq::<(usize, usize)>::empty());
    }
    while u < nb.len()
        invariant
            0 <= u <= nb@.len(),
            strictly_increasing(nb@),
            forall|q: int|
                0 <= q < r@.len() ==> (#[trigger] r@[q]).0 == i && r@[q].1 > i && nb@.contains(r@[q].1)
                    && (forall|u2: int| u <= u2 < nb@.len() ==> r@[q].1 < #[trigger] nb@[u2]),
            forall|v: int| 0 <= v < u && nb@[v] > i ==> r@.contains((i, #[trigger] nb@[v])),
            r@.no_duplicates(),
            r@ == later_pairs(i, nb@.take(u as int)),
        decreases nb@.len() - u,
    {
        let j = nb[u];
        proof {
            let pre = nb@.take(u as int);
            assert(nb@.take(u + 1) =~= pre.push(j));
            pre.lemma_filter_push(j, above(i));
            pre.filter(above(i)).lemma_push_map_commute(paired_with(i), j);
        }
        if j > i {
            let ghost before = r@;
            r.push((i, j));
            proof {
                assert(r@[r@.len() - 1] == (i, j));
                assert forall|a: int, b: int| 0 <= a < b < r@.len() implies r@[a] != r@[b] by {
                    if b == r@.len() - 1 {
                        assert(before[a].1 < nb@[u as int]);
                    } else {
                        assert(before[a] != before[b]);
                    }
                }
                assert forall|v: int| 0 <= v < u + 1 && nb@[v] > i implies r@.contains((i, #[trigger] nb@[v])) by {
                    if v == u as int {
                        assert(r@[r@.len() - 1] == (i, nb@[v]));
                    } else {
                        assert(before.contains((i, nb@[v])));
                        let w = choose|w: int| 0 <= w < before.len() && before[w] == (i, nb@[v]);
                        assert(r@[w] == (i, nb@[v]));
                    }
                }
            }
        }
        u = u + 1;
    }
    proof {
        assert(nb@.take(nb@.len() as int) =~= nb@);
    }
    r
}

proof fn lemma_contains_concat<A>(a: Seq<A>, b: Seq<A>, x: A)
    ensures
        (a + b).contains(x) <==> a.contains(x) || b.contains(x),
{
    if a.contains(x) {
        let k = choose|k: int| 0 <= k < a.len() && a[k] == x;
        assert((a + b)[k] == x);
    }
    if b.contains(x) {
        let k = choose|k: int| 0 <= k < b.len() && b[k] == x;
        assert((a + b)[a.len() + k] == x);
    }
    if (a + b).contains(x) {
        let k = choose|k: int| 0 <= k < (a + b).len() && (a + b)[k] == x;
        if k < a.len() {
            assert(a[k] == x);
        } else {
            assert(b[k - a.len()] == x);
        }
    }
}

proof fn lemma_no_duplicates_concat<A>(a: Seq<A>, b: Seq<A>)
    requires
        a.no_duplicates(),
        b.no_duplicates(),
        forall|x: A| a.contains(x) ==> !b.contains(x),
    ensures
        (a + b).no_duplicates(),
{
    let c = a + b;
    assert forall|i: int, j: int| 0 <= i < c.len() && 0 <= j < c.len() && i != j implies c[i] != c[j] by {
        if i < a.len() && j >= a.len() {
            assert(a.contains(c[i]));
            assert(b[j - a.len()] == c[j]);
        } else if j < a.len() && i >= a.len() {
            assert(a.contains(c[j]));
            assert(b[i - a.len()] == c[i]);
        } else if i < a.len() {
            assert(a[i] == c[i] && a[j] == c[j]);
        } else {
            assert(b[i - a.len()] == c[i] && b[j - a.len()] == c[j]);
        }
    }
}

/// For atom `i` and a list of cells, the pairs of `i` with the later atoms of
/// each cell in turn.
pub open spec fn atom_blocks(bins: Seq<(usize, usize)>, nx: int, i: usize, cells: Seq<(usize, usize)>) -> Seq<Seq<(usize, usize)>> {
    Seq::new(cells.len(), |t: int| later_pairs(i, occupants_of(bins, nx, cell_index(cells[t], nx))))
}

/// The pairs visited for atom `i`: its neighbour cells in scan order, and in
/// each the later atoms in increasing order.
pub open spec fn atom_scan(bins: Seq<(usize, usize)>, nx: int, ny: int, i: usize) -> Seq<(usize, usize)> {
    atom_blocks(
        bins,
        nx,
        i,
        neighbour_cell_seq(bins[i as int].0 as int, bins[i as int].1 as int, nx, ny),
    ).flatten()
}

/// All cell pairs whose lower atom is `i`.
fn pairs_of_atom(
    bins: &Vec<(usize, usize)>,
    occupants: &Vec<Vec<usize>>,
    nx: usize,
    ny: usize,
    i: usize,
    neigh: &Vec<(usize, usize)>,
) -> (r: Vec<(usize, usize)>)
    requires
        nx >= 1,
        ny >= 1,
        nx * ny <= usize::MAX,
        bins_in_grid(bins@, nx as int, ny as int),
        is_occupancy(bins@, nx as int, ny as int, occupants@),
        occupancy_exact(bins@, nx as int, ny as int, occupants@),
        i < bins@.len(),
        neigh@.no_duplicates(),
        forall|p: (usize, usize)|
            neigh@.contains(p) <==> (p.0 < nx && p.1 < ny && is_neighbour_cell(
                bins@[i as int],
                p,
                nx as int,
                ny as int,
            )),
    ensures
        forall|q: int|
            0 <= q < r@.len() ==> (#[trigger] r@[q]).0 == i && is_cell_pair(bins@, nx as int, ny as int, r@[q]),
        forall|j: usize| is_cell_pair(bins@, nx as int, ny as int, (i, j)) ==> #[trigger] r@.contains((i, j)),
        r@.no_duplicates(),
        r@ == atom_blocks(bins@, nx as int, i, neigh@).flatten(),
{
    let mut r: Vec<(usize, usize)> = Vec::new();
    let mut t: usize = 0;
    proof {
        assert(atom_blocks(bins@, nx as int, i, neigh@.take(0)) =~= Seq::<Seq<(usize, usize)>>::empty());
    }
    while t < neigh.len()
        invariant
            0 <= t <= neigh@.len(),
            nx >= 1,
            ny >= 1,
            nx * ny <= usize::MAX,
            bins_in_grid(bins@, nx as int, ny as int),
            is_occupancy(bins@, nx as int, ny as int, occupants@),
            occupancy_exact(bins@, nx as int, ny as int, occupants@),
            i < bins@.len(),
            neigh@.no_duplicates(),
            forall|p: (usize, usize)|
                neigh@.contains(p) <==> (p.0 < nx && p.1 < ny && is_neighbour_cell(
                    bins@[i as int],
                    p,
                    nx as int,
                    ny as int,
                )),
            forall|q: int|
                0 <= q < r@.len() ==> (#[trigger] r@[q]).0 == i && is_cell_pair(bins@, nx as int, ny as int, r@[q])
                    && (forall|t2: int| t <= t2 < neigh@.len() ==> bins@[r@[q].1 as int] != #[trigger] neigh@[t2]),
            forall|tt: int, j: usize|
                #![trigger neigh@[tt], r@.contains((i, j))]
                0 <= tt < t && is_cell_pair(bins@, nx as int, ny as int, (i, j)) && bins@[j as int] == neigh@[tt]
                    ==> r@.contains((i, j)),
            r@.no_duplicates(),
            r@ == atom_blocks(bins@, nx as int, i, neigh@.take(t as int)).flatten(),
        decreases neigh@.len() - t,
    {
        let ncx = neigh[t].0;
        let ncy = neigh[t].1;
        proof {
            assert(neigh@.contains(neigh@[t as int]));
            lemma_cell_index_bounds(ncx as int, ncy as int, nx as int, ny as int);
        }
        let idx = ncy * nx + ncx;
        let mut part = pairs_with_later(i, &occupants[idx]);
        let ghost before = r@;
        let ghost added = part@;
        proof {
            let nb = occupants@[idx as int]@;
            assert forall|q: int| 0 <= q < added.len() implies (#[trigger] added[q]).0 == i
                && is_cell_pair(bins@, nx as int, ny as int, added[q])
                && (forall|t2: int| t < t2 < neigh@.len() ==> bins@[added[q].1 as int] != #[trigger] neigh@[t2])
                && bins@[added[q].1 as int] == neigh@[t as int] by {
                let j = added[q].1;
                let w = choose|w: int| 0 <= w < nb.len() && nb[w] == j;
                assert(occupants@[idx as int]@[w] == j);
                assert(j < bins@.len());
                assert(cell_index(bins@[j as int], nx as int) == idx as int);
                assert(bins@[j as int].0 < nx);
                lemma_cell_index_injective(bins@[j as int], neigh@[t as int], nx as int);
            }
            assert forall|x: (usize, usize)| before.contains(x) implies !added.contains(x) by {
                let a = choose|a: int| 0 <= a < before.len() && before[a] == x;
                if added.contains(x) {
                    let b = choose|b: int| 0 <= b < added.len() && added[b] == x;
                    assert(bins@[x.1 as int] == neigh@[t as int]);
                    assert(bins@[before[a].1 as int] != neigh@[t as int]);
                }
            }
            lemma_no_duplicates_concat(before, added);
        }
        r.append(&mut part);
        proof {
            assert(r@ == before + added);
            assert(added == later_pairs(i, occupants_of(bins@, nx as int, cell_index(neigh@[t as int], nx as int))));
            assert(atom_blocks(bins@, nx as int, i, neigh@.take(t + 1)) =~= atom_blocks(
                bins@,
                nx as int,
                i,
                neigh@.take(t as int),
            ).push(added));
            atom_blocks(bins@, nx as int, i, neigh@.take(t as int)).lemma_flatten_push(added);
            assert forall|q: int| 0 <= q < r@.len() implies (#[trigger] r@[q]).0 == i
                && is_cell_pair(bins@, nx as int, ny as int, r@[q])
                && (forall|t2: int| t + 1 <= t2 < neigh@.len() ==> bins@[r@[q].1 as int] != #[trigger] neigh@[t2]) by {
                if q < before.len() {
                    assert(r@[q] == before[q]);
                } else {
                    assert(r@[q] == added[q - before.len()]);
                }
            }
            assert forall|tt: int, j: usize|
                #![trigger neigh@[tt], r@.contains((i, j))]
                0 <= tt < t + 1 && is_cell_pair(bins@, nx as int, ny as int, (i, j)) && bins@[j as int] == neigh@[tt]
                implies r@.contains((i, j)) by {
                lemma_contains_concat(before, added, (i, j));
                if tt == t as int {
                    let nb = occupants@[idx as int]@;
                    assert(bins_in_grid(bins@, nx as int, ny as int));
                    assert(bins@[j as int].0 < nx);
                    assert(occupants@[cell_index(bins@[j as int], nx as int)]@.contains((j as int) as usize));
                    assert(cell_index(bins@[j as int], nx as int) == idx as int);
                    let w = choose|w: int| 0 <= w < nb.len() && nb[w] == j;
                    assert(nb[w] > i);
                    assert(added.contains((i, nb[w])));
                }
            }
        }
        t = t + 1;
    }
    proof {
        assert forall|j: usize| is_cell_pair(bins@, nx as int, ny as int, (i, j)) implies #[trigger] r@.contains((i, j)) by {
            let b = bins@[j as int];
            assert(bins@[j as int].0 < nx && bins@[j as int].1 < ny);
            assert(neigh@.contains(b));
            let tt = choose|tt: int| 0 <= tt < neigh@.len() && neigh@[tt] == b;
            assert(neigh@[tt] == b);
        }
        assert(neigh@.take(neigh@.len() as int) =~= neigh@);
    }
    r
}

/// For a list of atoms, the pairs visited for each in turn.
pub open spec fn cell_blocks(bins: Seq<(usize, usize)>, nx: int, ny: int, atoms: Seq<usize>) -> Seq<Seq<(usize, usize)>> {
    Seq::new(atoms.len(), |s: int| atom_scan(bins, nx, ny, atoms[s]))
}

/// The pairs visited for cell `c`: its atoms in increasing order.
pub open spec fn cell_scan(bins: Seq<(usize, usize)>, nx: int, ny: int, c: int) -> Seq<(usize, usize)> {
    cell_blocks(bins, nx, ny, occupants_of(bins, nx, c)).flatten()
}

/// The pairs visited for the first `k` cells in row-major order.
pub open spec fn grid_scan_upto(bins: Seq<(usize, usize)>, nx: int, ny: int, k: int) -> Seq<(usize, usize)> {
    Seq::new(k as nat, |c: int| cell_scan(bins, nx, ny, c)).flatten()
}

/// The order in which the cell list visits pairs: cells row by row, within a
/// cell its atoms in increasing order, for each atom its neighbour cells in
/// scan order, within each neighbour cell the later atoms in increasing order.
pub open spec fn grid_scan(bins: Seq<(usize, usize)>, nx: int, ny: int) -> Seq<(usize, usize)> {
    grid_scan_upto(bins, nx, ny, nx * ny)
}

proof fn lemma_grid_scan_step(bins: Seq<(usize, usize)>, nx: int, ny: int, k: int)
    requires
        0 <= k,
    ensures
        grid_scan_upto(bins, nx, ny, k + 1) == grid_scan_upto(bins, nx, ny, k) + cell_scan(bins, nx, ny, k),
{
    assert(Seq::new((k + 1) as nat, |c: int| cell_scan(bins, nx, ny, c)) =~= Seq::new(
        k as nat,
        |c: int| cell_scan(bins, nx, ny, c),
    ).push(cell_scan(bins, nx, ny, k)));
    Seq::new(k as nat, |c: int| cell_scan(bins, nx, ny, c)).lemma_flatten_push(cell_scan(bins, nx, ny, k));
}

/// All cell pairs whose lower atom sits in cell `(cx, cy)`, atom by atom in
/// increasing order.
fn pairs_of_cell(
    bins: &Vec<(usize, usize)>,
    occupants: &Vec<Vec<usize>>,
    nx: usize,
    ny: usize,
    cx: usize,
    cy: usize,
) -> (r: Vec<(usize, usize)>)
    requires
        1 <= nx <= isize::MAX,
        1 <= ny <= isize::MAX,
        nx * ny <= usize::MAX,
        cx < nx,
        cy < ny,
        bins_in_grid(bins@, nx as int, ny as int),
        is_occupancy(bins@, nx as int, ny as int, occupants@),
        occupancy_exact(bins@, nx as int, ny as int, occupants@),
    ensures
        forall|q: int|
            0 <= q < r@.len() ==> is_cell_pair(bins@, nx as int, ny as int, #[trigger] r@[q])
                && cell_index(bins@[r@[q].0 as int], nx as int) == cy * nx + cx,
        forall|p: (usize, usize)|
            is_cell_pair(bins@, nx as int, ny as int, p) && cell_index(bins@[p.0 as int], nx as int)
                == cy * nx + cx ==> #[trigger] r@.contains(p),
        r@.no_duplicates(),
        r@ == cell_scan(bins@, nx as int, ny as int, cy * nx + cx),
{
    proof {
        lemma_cell_index_bounds(cx as int, cy as int, nx as int, ny as int);
    }
    let c = cy * nx + cx;
    let neigh = neighbour_cells(cx, cy, nx, ny);
    let mine = &occupants[c];
    let mut r: Vec<(usize, usize)> = Vec::new();
    let mut s: usize = 0;
    proof {
        assert(cell_blocks(bins@, nx as int, ny as int, mine@.take(0)) =~= Seq::<Seq<(usize, usize)>>::empty());
    }
    while s < mine.len()
        invariant
            0 <= s <= mine@.len(),
            1 <= nx <= isize::MAX,
            1 <= ny <= isize::MAX,
            nx * ny <= usize::MAX,
            cx < nx,
            cy < ny,
            c == cy * nx + cx,
            c < nx * ny,
            bins_in_grid(bins@, nx as int, ny as int),
            is_occupancy(bins@, nx as int, ny as int, occupants@),
            occupancy_exact(bins@, nx as int, ny as int, occupants@),
            mine@ == occupants@[c as int]@,
            neigh@ == neighbour_cell_seq(cx as int, cy as int, nx as int, ny as int),
            neigh@.no_duplicates(),
            forall|p: (usize, usize)|
                neigh@.contains(p) <==> (p.0 < nx && p.1 < ny && is_neighbour_cell(
                    (cx, cy),
                    p,
                    nx as int,
                    ny as int,
                )),
            forall|q: int|
                0 <= q < r@.len() ==> is_cell_pair(bins@, nx as int, ny as int, #[trigger] r@[q])
                    && cell_index(bins@[r@[q].0 as int], nx as int) == c
                    && (forall|s2: int| s <= s2 < mine@.len() ==> r@[q].0 < #[trigger] mine@[s2]),
            forall|ss: int, j: usize|
                #![trigger mine@[ss], r@.contains((mine@[ss], j))]
                0 <= ss < s && is_cell_pair(bins@, nx as int, ny as int, (mine@[ss], j))
                    ==> r@.contains((mine@[ss], j)),
            r@.no_duplicates(),
            r@ == cell_blocks(bins@, nx as int, ny as int, mine@.take(s as int)).flatten(),
        decreases mine@.len() - s,
    {
        let i = mine[s];
        proof {
            assert(i < bins@.len());
            assert(cell_index(bins@[i as int], nx as int) == c as int);
            assert(bins@[i as int].0 < nx);
            lemma_cell_index_injective(bins@[i as int], (cx, cy), nx as int);
        }
        let mut part = pairs_of_atom(bins, occupants, nx, ny, i, &neigh);
        let ghost before = r@;
        let ghost added = part@;
        proof {
            assert forall|x: (usize, usize)| before.contains(x) implies !added.contains(x) by {
                let a = choose|a: int| 0 <= a < before.len() && before[a] == x;
                assert(before[a].0 < mine@[s as int]);
                if added.contains(x) {
                    let b = choose|b: int| 0 <= b < added.len() && added[b] == x;
                    assert(added[b].0 == i);
                }
            }
            lemma_no_duplicates_concat(before, added);
        }
        r.append(&mut part);
        proof {
            assert(r@ == before + added);
            assert(added == atom_scan(bins@, nx as int, ny as int, i));
            assert(cell_blocks(bins@, nx as int, ny as int, mine@.take(s + 1)) =~= cell_blocks(
                bins@,
                nx as int,
                ny as int,
                mine@.take(s as int),
            ).push(added));
            cell_blocks(bins@, nx as int, ny as int, mine@.take(s as int)).lemma_flatten_push(added);
            assert forall|q: int| 0 <= q < r@.len() implies is_cell_pair(bins@, nx as int, ny as int, #[trigger] r@[q])
                && cell_index(bins@[r@[q].0 as int], nx as int) == c
                && (forall|s2: int| s + 1 <= s2 < mine@.len() ==> r@[q].0 < #[trigger] mine@[s2]) by {
                if q < before.len() {
                    assert(r@[q] == before[q]);
                } else {
                    assert(r@[q] == added[q - before.len()]);
                    assert forall|s2: int| s + 1 <= s2 < mine@.len() implies r@[q].0 < #[trigger] mine@[s2] by {
                        assert(strictly_increasing(occupants@[c as int]@));
                    }
                }
            }
            assert forall|ss: int, j: usize|
                #![trigger mine@[ss], r@.contains((mine@[ss], j))]
                0 <= ss < s + 1 && is_cell_pair(bins@, nx as int, ny as int, (mine@[ss], j))
                implies r@.contains((mine@[ss], j)) by {
                lemma_contains_concat(before, added, (mine@[ss], j));
                if ss == s as int {
                    assert(added.contains((i, j)));
                }
            }
        }
        s = s + 1;
    }
    proof {
        assert forall|p: (usize, usize)|
            is_cell_pair(bins@, nx as int, ny as int, p) && cell_index(bins@[p.0 as int], nx as int)
                == cy * nx + cx implies #[trigger] r@.contains(p) by {
            let i = p.0 as int;
            assert(occupants@[cell_index(bins@[i], nx as int)]@.contains(i as usize));
            let ss = choose|ss: int| 0 <= ss < mine@.len() && mine@[ss] == p.0;
            assert(mine@[ss] == p.0);
            assert(r@.contains((mine@[ss], p.1)));
        }
        assert(mine@.take(mine@.len() as int) =~= mine@);
        assert(mine@ == occupants_of(bins@, nx as int, c as int));
    }
    r
}

/// The unordered pairs of atoms in neighbouring cells, each once, lower index
/// first. Cells are scanned row by row; within a cell its atoms in increasing
/// order; for each atom the neighbour cells in the order of `neighbour_cells`;
/// within a neighbour cell the later atoms in increasing order.
pub fn cell_list_pairs(bins: &Vec<(usize, usize)>, nx: usize, ny: usize) -> (pairs: Vec<(usize, usize)>)
    requires
        1 <= nx <= isize::MAX,
        1 <= ny <= isize::MAX,
        nx * ny <= usize::MAX,
        bins_in_grid(bins@, nx as int, ny as int),
    ensures
        pairs@.no_duplicates(),
        forall|p: (usize, usize)|
            #[trigger] pairs@.contains(p) <==> is_cell_pair(bins@, nx as int, ny as int, p),
        pairs@ == grid_scan(bins@, nx as int, ny as int),
{
    let occupants = build_cells(bins, nx, ny);
    let mut pairs: Vec<(usize, usize)> = Vec::new();
    let mut cy: usize = 0;
    proof {
        assert(grid_scan_upto(bins@, nx as int, ny as int, 0) =~= Seq::<(usize, usize)>::empty());
    }
    while cy < ny
        invariant
            0 <= cy <= ny,
            1 <= nx <= isize::MAX,
            1 <= ny <= isize::MAX,
            nx * ny <= usize::MAX,
            bins_in_grid(bins@, nx as int, ny as int),
            is_occupancy(bins@, nx as int, ny as int, occupants@),
            occupancy_exact(bins@, nx as int, ny as int, occupants@),
            forall|q: int|
                0 <= q < pairs@.len() ==> is_cell_pair(bins@, nx as int, ny as int, #[trigger] pairs@[q])
                    && cell_index(bins@[pairs@[q].0 as int], nx as int) < cy * nx,
            forall|p: (usize, usize)|
                is_cell_pair(bins@, nx as int, ny as int, p) && cell_index(bins@[p.0 as int], nx as int)
                    < cy * nx ==> #[trigger] pairs@.contains(p),
            pairs@.no_duplicates(),
            pairs@ == grid_scan_upto(bins@, nx as int, ny as int, cy * nx),
        decreases ny - cy,
    {
        let mut cx: usize = 0;
        while cx < nx
            invariant
                0 <= cx <= nx,
                0 <= cy < ny,
                1 <= nx <= isize::MAX,
                1 <= ny <= isize::MAX,
                nx * ny <= usize::MAX,
                bins_in_grid(bins@, nx as int, ny as int),
                is_occupancy(bins@, nx as int, ny as int, occupants@),
                occupancy_exact(bins@, nx as int, ny as int, occupants@),
                forall|q: int|
                    0 <= q < pairs@.len() ==> is_cell_pair(bins@, nx as int, ny as int, #[trigger] pairs@[q])
                        && cell_index(bins@[pairs@[q].0 as int], nx as int) < cy * nx + cx,
                forall|p: (usize, usize)|
                    is_cell_pair(bins@, nx as int, ny as int, p) && cell_index(bins@[p.0 as int], nx as int)
                        < cy * nx + cx ==> #[trigger] pairs@.contains(p),
                pairs@.no_duplicates(),
                pairs@ == grid_scan_upto(bins@, nx as int, ny as int, cy * nx + cx),
            decreases nx - cx,
        {
            let mut part = pairs_of_cell(bins, &occupants, nx, ny, cx, cy);
            let ghost before = pairs@;
            let ghost added = part@;
            proof {
                assert forall|x: (usize, usize)| before.contains(x) implies !added.contains(x) by {
                    let a = choose|a: int| 0 <= a < before.len() && before[a] == x;
                    assert(is_cell_pair(bins@, nx as int, ny as int, before[a]));
                    if added.contains(x) {
                        let b = choose|b: int| 0 <= b < added.len() && added[b] == x;
                        assert(is_cell_pair(bins@, nx as int, ny as int, added[b]));
                    }
                }
                lemma_no_duplicates_concat(before, added);
            }
            pairs.append(&mut part);
            proof {
                assert(pairs@ == before + added);
                lemma_grid_scan_step(bins@, nx as int, ny as int, cy * nx + cx);
                assert forall|q: int| 0 <= q < pairs@.len() implies is_cell_pair(bins@, nx as int, ny as int, #[trigger] pairs@[q])
                    && cell_index(bins@[pairs@[q].0 as int], nx as int) < cy * nx + cx + 1 by {
                    if q < before.len() {
                        assert(pairs@[q] == before[q]);
                    } else {
                        assert(pairs@[q] == added[q - before.len()]);
                    }
                }
                assert forall|p: (usize, usize)|
                    is_cell_pair(bins@, nx as int, ny as int, p) && cell_index(bins@[p.0 as int], nx as int)
                        < cy * nx + cx + 1 implies #[trigger] pairs@.contains(p) by {
                    lemma_contains_concat(before, added, p);
                }
            }
            cx = cx + 1;
        }
        proof {
            assert(cy * nx + nx == (cy + 1) * nx) by (nonlinear_arith);
        }
        cy = cy + 1;
    }
    proof {
        assert forall|p: (usize, usize)| #[trigger] pairs@.contains(p) <==> is_cell_pair(bins@, nx as int, ny as int, p) by {
            if pairs@.contains(p) {
                let q = choose|q: int| 0 <= q < pairs@.len() && pairs@[q] == p;
                assert(is_cell_pair(bins@, nx as int, ny as int, pairs@[q]));
            }
            if is_cell_pair(bins@, nx as int, ny as int, p) {
                let b = bins@[p.0 as int];
                assert(b.0 < nx && b.1 < ny);
                lemma_cell_index_bounds(b.0 as int, b.1 as int, nx as int, ny as int);
                assert(ny * nx == nx * ny) by (nonlinear_arith);
            }
        }
        assert(ny * nx == nx * ny) by (nonlinear_arith);
    }
    pairs
}

} // verus!
