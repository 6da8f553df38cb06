//! The layout of a histogram: one cell for each node, feature and bin, bins running fastest.

use vstd::arithmetic::div_mod::lemma_fundamental_div_mod;
use vstd::arithmetic::div_mod::lemma_fundamental_div_mod_converse;
use vstd::prelude::*;

verus! {

/// The position of the cell for `node`, `feature` and `bin`.
pub open spec fn cell(node: int, feature: int, bin: int, nf: int, nbins: int) -> int {
    (node * nf + feature) * nbins + bin
}

/// The node that cell `c` belongs to.
pub open spec fn node_of(c: int, nf: int, nbins: int) -> int {
    c / nbins / nf
}

/// The feature that cell `c` belongs to.
pub open spec fn feature_of(c: int, nf: int, nbins: int) -> int {
    (c / nbins) % nf
}

/// The bin that cell `c` belongs to.
pub open spec fn bin_of(c: int, nbins: int) -> int {
    c % nbins
}

/// A histogram of `nodes` nodes has a cell of its own for every node, feature and bin.
pub proof fn lemma_cell(node: int, feature: int, bin: int, nodes: int, nf: int, nbins: int)
    requires
        0 <= node < nodes,
        0 <= feature < nf,
        0 <= bin < nbins,
    ensures
        0 <= cell(node, feature, bin, nf, nbins) < nodes * nf * nbins,
        node_of(cell(node, feature, bin, nf, nbins), nf, nbins) == node,
        feature_of(cell(node, feature, bin, nf, nbins), nf, nbins) == feature,
        bin_of(cell(node, feature, bin, nf, nbins), nbins) == bin,
{
    let c = cell(node, feature, bin, nf, nbins);
    let q = node * nf + feature;
    assert(0 <= q < nodes * nf) by (nonlinear_arith)
        requires
            0 <= node < nodes,
            0 <= feature < nf,
            q == node * nf + feature,
    ;
    assert(0 <= q * nbins + bin < nodes * nf * nbins) by (nonlinear_arith)
        requires
            0 <= q < nodes * nf,
            0 <= bin < nbins,
    ;
    lemma_fundamental_div_mod_converse(c, nbins, q, bin);
    lemma_fundamental_div_mod_converse(q, nf, node, feature);
}

/// Every position of a histogram is the cell of some node, feature and bin.
pub proof fn lemma_cell_parts(c: int, nodes: int, nf: int, nbins: int)
    requires
        0 <= c < nodes * nf * nbins,
        0 < nf,
        0 < nbins,
    ensures
        0 <= node_of(c, nf, nbins) < nodes,
        0 <= feature_of(c, nf, nbins) < nf,
        0 <= bin_of(c, nbins) < nbins,
        c == cell(
            node_of(c, nf, nbins),
            feature_of(c, nf, nbins),
            bin_of(c, nbins),
            nf,
            nbins,
        ),
{
    let q = c / nbins;
    lemma_fundamental_div_mod(c, nbins);
    lemma_fundamental_div_mod(q, nf);
    assert(0 <= q < nodes * nf) by (nonlinear_arith)
        requires
            c == nbins * q + c % nbins,
            0 <= c % nbins < nbins,
            0 <= c < nodes * nf * nbins,
            0 < nbins,
    ;
    assert(0 <= q / nf < nodes) by (nonlinear_arith)
        requires
            q == nf * (q / nf) + q % nf,
            0 <= q % nf < nf,
            0 <= q < nodes * nf,
            0 < nf,
    ;
    assert(c == (q / nf * nf + q % nf) * nbins + c % nbins) by (nonlinear_arith)
        requires
            c == nbins * q + c % nbins,
            q == nf * (q / nf) + q % nf,
    ;
}

} // verus!
