use vstd::prelude::*;

verus! {

/// The side of the square lattice of `n` sites: `Some(k)` with `k * k == n`,
/// or `None` when `n` is not a square number.
pub fn lattice_side(n: usize) -> (side: Option<usize>)
    ensures
        match side {
            Some(k) => k * k == n,
            None => forall|k: nat| #[trigger] (k * k) != n,
        },
{
    let mut k: usize = 0;
    while k + 1 <= n / (k + 1)
        invariant
            k * k <= n,
            k < usize::MAX,
        decreases n - k,
    {
        proof {
            let d = (k + 1) as int;
            let q = n as int / d;
            vstd::arithmetic::div_mod::lemma_fundamental_div_mod(n as int, d);
            vstd::arithmetic::div_mod::lemma_mod_bound(n as int, d);
            assert(d * d <= n) by (nonlinear_arith)
                requires
                    d <= q,
                    n == d * q + (n as int) % d,
                    0 <= (n as int) % d,
                    d >= 1,
            ;
            assert(d < usize::MAX) by (nonlinear_arith)
                requires
                    d * d <= n,
                    n <= usize::MAX,
                    d >= 1,
                    usize::MAX >= 2,
            ;
            assert(k <= n) by (nonlinear_arith)
                requires
                    k * k <= n,
            ;
        }
        k = k + 1;
    }
    proof {
        let d = (k + 1) as int;
        let q = n as int / d;
        vstd::arithmetic::div_mod::lemma_fundamental_div_mod(n as int, d);
        vstd::arithmetic::div_mod::lemma_mod_bound(n as int, d);
        assert(n < d * d) by (nonlinear_arith)
            requires
                q < d,
                n == d * q + (n as int) % d,
                (n as int) % d < d,
                d >= 1,
        ;
    }
    if k * k == n {
        Some(k)
    } else {
        proof {
            assert forall|m: nat| #[trigger] (m * m) != n by {
                if m <= k {
                    assert(m * m <= k * k) by (nonlinear_arith)
                        requires
                            m <= k,
                    ;
                } else {
                    assert(m * m >= (k + 1) * (k + 1)) by (nonlinear_arith)
                        requires
                            m >= k + 1,
                    ;
                }
            }
        }
        None
    }
}

/// The lattice sites of a square lattice `n_side` sites wide, row by row:
/// site `q` is column `q % n_side` of row `q / n_side`.
pub fn lattice_sites(n_side: usize) -> (sites: Vec<(usize, usize)>)
    requires
        n_side * n_side <= usize::MAX,
    ensures
        sites@.len() == n_side * n_side,
        forall|q: int|
            0 <= q < sites@.len() ==> #[trigger] sites@[q] == ((q % n_side as int) as usize, (q
                / n_side as int) as usize),
{
    let mut sites: Vec<(usize, usize)> = Vec::new();
    let mut j: usize = 0;
    while j < n_side
        invariant
            0 <= j <= n_side,
            n_side * n_side <= usize::MAX,
            sites@.len() == j * n_side,
            forall|q: int|
                0 <= q < sites@.len() ==> #[trigger] sites@[q] == ((q % n_side as int) as usize, (q
                    / n_side as int) as usize),
        decreases n_side - j,
    {
        let mut i: usize = 0;
        while i < n_side
            invariant
                0 <= i <= n_side,
                0 <= j < n_side,
                n_side * n_side <= usize::MAX,
                sites@.len() == j * n_side + i,
                forall|q: int|
                    0 <= q < sites@.len() ==> #[trigger] sites@[q] == ((q % n_side as int) as usize, (q
                        / n_side as int) as usize),
            decreases n_side - i,
        {
            let ghost q = sites@.len() as int;
            proof {
                vstd::arithmetic::div_mod::lemma_fundamental_div_mod_converse(
                    q,
                    n_side as int,
                    j as int,
                    i as int,
                );
                assert(q < n_side * n_side) by (nonlinear_arith)
                    requires
                        q == j * n_side + i,
                        j < n_side,
                        i < n_side,
                ;
            }
            sites.push((i, j));
            i = i + 1;
        }
        proof {
            assert(j * n_side + n_side == (j + 1) * n_side) by (nonlinear_arith);
        }
        j = j + 1;
    }
    sites
}

} // verus!
