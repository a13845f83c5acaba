use vstd::prelude::*;
use crate::cell_pairs::{cell_list_pairs, grid_scan, is_cell_pair};
use crate::cells::{adjacent_on_axis, bins_in_grid, lemma_wrap_step};
use crate::system::ForceMode;

verus! {

/// How the unique atom pairs of a system are enumerated.
#[derive(Clone, Copy, Debug, PartialEq, Eq, Structural)]
pub enum PairPlan {
    /// Every pair `i < j`.
    AllPairs,
    /// Only pairs whose atoms sit in neighbouring cells of an `nx` by `ny` grid.
    CellList { nx: usize, ny: usize },
}

/// `p` is visited under `plan` for `n` atoms binned by `bins`.
pub open spec fn plan_pair(n: int, plan: PairPlan, bins: Seq<(usize, usize)>, p: (usize, usize)) -> bool {
    match plan {
        PairPlan::AllPairs => p.0 < p.1 < n,
        PairPlan::CellList { nx, ny } => p.1 < n && is_cell_pair(bins, nx as int, ny as int, p),
    }
}

/// `plan` can run on `n` atoms binned by `bins`.
pub open spec fn plan_fits(n: int, plan: PairPlan, bins: Seq<(usize, usize)>) -> bool {
    match plan {
        PairPlan::AllPairs => true,
        PairPlan::CellList { nx, ny } => {
            &&& bins.len() == n
            &&& 1 <= nx <= isize::MAX
            &&& 1 <= ny <= isize::MAX
            &&& nx * ny <= usize::MAX
            &&& bins_in_grid(bins, nx as int, ny as int)
        },
    }
}

pub open spec fn lex_less(a: (usize, usize), b: (usize, usize)) -> bool {
    a.0 < b.0 || (a.0 == b.0 && a.1 < b.1)
}

/// The cell list is used only for a periodic system in cell mode.
pub fn use_cells(periodic: bool, mode: ForceMode) -> (cells: bool)
    ensures
        cells == (periodic && mode == ForceMode::Cells),
{
    periodic && match mode {
        ForceMode::Cells => true,
        ForceMode::Naive => false,
    }
}

/// Chooses the pair loop. `nx` and `ny` are the numbers of whole cutoff
/// lengths that fit across the box; a grid with no cell along an axis falls
/// back to all pairs.
pub fn pair_plan(periodic: bool, mode: ForceMode, nx: usize, ny: usize) -> (plan: PairPlan)
    ensures
        plan == (if periodic && mode == ForceMode::Cells && nx >= 1 && ny >= 1 {
            PairPlan::CellList { nx, ny }
        } else {
            PairPlan::AllPairs
        }),
{
    if !use_cells(periodic, mode) {
        return PairPlan::AllPairs;
    }
    if nx < 1 || ny < 1 {
        return PairPlan::AllPairs;
    }
    PairPlan::CellList { nx, ny }
}

/// Every pair `(i, j)` with `i < j < n`, in lexicographic order.
pub fn all_pairs(n: usize) -> (pairs: Vec<(usize, usize)>)
    ensures
        forall|a: int, b: int| 0 <= a < b < pairs@.len() ==> lex_less(pairs@[a], pairs@[b]),
        forall|p: (usize, usize)| #[trigger] pairs@.contains(p) <==> p.0 < p.1 < n,
        pairs@.no_duplicates(),
{
    let mut pairs: Vec<(usize, usize)> = Vec::new();
    let mut i: usize = 0;
    while i < n
        invariant
            0 <= i <= n,
            forall|a: int, b: int| 0 <= a < b < pairs@.len() ==> lex_less(pairs@[a], pairs@[b]),
            forall|q: int| 0 <= q < pairs@.len() ==> (#[trigger] pairs@[q]).0 < i && pairs@[q].0 < pairs@[q].1 < n,
            forall|p: (usize, usize)| p.0 < i && p.0 < p.1 < n ==> #[trigger] pairs@.contains(p),
        decreases n - i,
    {
        let mut j: usize = i + 1;
        while j < n
            invariant
                0 <= i < n,
                i + 1 <= j <= n,
                forall|a: int, b: int| 0 <= a < b < pairs@.len() ==> lex_less(pairs@[a], pairs@[b]),
                forall|q: int|
                    0 <= q < pairs@.len() ==> ((#[trigger] pairs@[q]).0 < i || (pairs@[q].0 == i && pairs@[q].1 < j))
                        && pairs@[q].0 < pairs@[q].1 < n,
                forall|p: (usize, usize)|
                    (p.0 < i || (p.0 == i && p.1 < j)) && p.0 < p.1 < n ==> #[trigger] pairs@.contains(p),
            decreases n - j,
        {
            let ghost before = pairs@;
            pairs.push((i, j));
            proof {
                assert forall|p: (usize, usize)|
                    (p.0 < i || (p.0 == i && p.1 < j + 1)) && p.0 < p.1 < n implies #[trigger] pairs@.contains(p) by {
                    if p == (i, j) {
                        assert(pairs@[before.len() as int] == p);
                    } else {
                        assert(before.contains(p));
                        let w = choose|w: int| 0 <= w < before.len() && before[w] == p;
                        assert(pairs@[w] == p);
                    }
                }
            }
            j = j + 1;
        }
        i = i + 1;
    }
    proof {
        assert forall|p: (usize, usize)| #[trigger] pairs@.contains(p) <==> p.0 < p.1 < n by {
            if pairs@.contains(p) {
                let w = choose|w: int| 0 <= w < pairs@.len() && pairs@[w] == p;
                assert(pairs@[w].0 < pairs@[w].1 < n);
            }
        }
        assert forall|a: int, b: int| 0 <= a < pairs@.len() && 0 <= b < pairs@.len() && a != b
            implies pairs@[a] != pairs@[b] by {
            if a < b {
                assert(lex_less(pairs@[a], pairs@[b]));
            } else {
                assert(lex_less(pairs@[b], pairs@[a]));
            }
        }
    }
    pairs
}

/// The unique atom pairs that the force and energy loops visit under `plan`,
/// lower index first: every pair `i < j` for all pairs, or, for the cell
/// list, the pairs in neighbouring cells. No pair appears twice.
pub fn unique_pairs(n: usize, plan: PairPlan, bins: &Vec<(usize, usize)>) -> (pairs: Vec<(usize, usize)>)
    requires
        plan_fits(n as int, plan, bins@),
    ensures
        pairs@.no_duplicates(),
        forall|p: (usize, usize)| #[trigger] pairs@.contains(p) <==> plan_pair(n as int, plan, bins@, p),
        plan == PairPlan::AllPairs ==> forall|a: int, b: int|
            0 <= a < b < pairs@.len() ==> lex_less(pairs@[a], pairs@[b]),
        plan matches PairPlan::CellList { nx, ny } ==> pairs@ == grid_scan(bins@, nx as int, ny as int),
{
    match plan {
        PairPlan::AllPairs => all_pairs(n),
        PairPlan::CellList { nx, ny } => cell_list_pairs(bins, nx, ny),
    }
}

/// Along an axis of at most three cells every cell neighbours every other.
proof fn lemma_small_axis_all_adjacent(a: int, b: int, n: int)
    requires
        1 <= n <= 3,
        0 <= a < n,
        0 <= b < n,
    ensures
        adjacent_on_axis(a, b, n),
{
    lemma_wrap_step(a, n);
}

/// The cell list never visits a pair that the all-pairs loop would not.
pub proof fn law_cell_pairs_within_all_pairs(n: int, nx: usize, ny: usize, bins: Seq<(usize, usize)>, p: (usize, usize))
    requires
        plan_pair(n, PairPlan::CellList { nx, ny }, bins, p),
    ensures
        plan_pair(n, PairPlan::AllPairs, bins, p),
{
}

/// On a grid at most three cells wide and tall (such as a box two cells
/// wide), every cell neighbours every other, so the cell list visits exactly
/// the pairs of the all-pairs loop.
pub proof fn law_small_grid_visits_all_pairs(n: int, nx: usize, ny: usize, bins: Seq<(usize, usize)>, p: (usize, usize))
    requires
        1 <= nx <= 3,
        1 <= ny <= 3,
        bins.len() == n,
        bins_in_grid(bins, nx as int, ny as int),
    ensures
        plan_pair(n, PairPlan::CellList { nx, ny }, bins, p) == plan_pair(n, PairPlan::AllPairs, bins, p),
{
    if p.0 < p.1 < n {
        let a = bins[p.0 as int];
        let b = bins[p.1 as int];
        lemma_small_axis_all_adjacent(a.0 as int, b.0 as int, nx as int);
        lemma_small_axis_all_adjacent(a.1 as int, b.1 as int, ny as int);
    }
}

} // verus!
