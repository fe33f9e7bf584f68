//! Regression trees: histograms over binned features, the split finder, the
//! depth-wise tree builder and evaluation of a tree on one row.
use crate::fixed::{MAX_BINS, MAX_ROWS, PARAM_LIMIT, SCALE, abs, div_trunc_i128, trunc_div};
use vstd::prelude::*;

verus! {

/// Largest magnitude of a per-row gradient: a prediction minus a label.
pub const GRAD_LIMIT: i64 = 8_589_934_592;

/// One node of a tree arena. Children are indices into the same arena.
#[derive(Debug, Clone, Copy, PartialEq, Eq, Structural)]
pub enum TreeNode {
    /// A terminal node with its output weight (fixed point).
    Leaf { weight: i64 },
    /// Rows whose `feature` value is at most `threshold` go to `left`, the others to `right`.
    Split { feature: usize, threshold: i64, left: usize, right: usize },
}

/// The settings that shape one tree.
#[derive(Debug, Clone, Copy, PartialEq, Eq, Structural)]
pub struct TreeParams {
    pub max_depth: u32,
    /// L2 regularisation on leaf weights (fixed point).
    pub lambda: i64,
    /// Complexity penalty that a split's gain must exceed (fixed point).
    pub gamma: i64,
    /// Least Hessian sum on each side of a split (fixed point).
    pub min_child_weight: i64,
    pub num_bins: u32,
}

pub open spec fn params_ok(p: TreeParams) -> bool {
    &&& p.max_depth <= 64
    &&& 0 <= p.lambda <= PARAM_LIMIT
    &&& 0 <= p.gamma <= PARAM_LIMIT
    &&& 0 <= p.min_child_weight <= PARAM_LIMIT
    &&& 1 <= p.num_bins <= MAX_BINS
}

// ---------------------------------------------------------------- evaluation

/// The output of the subtree rooted at node `i` for the row whose features
/// start at `data[base]`.
pub open spec fn eval_node(nodes: Seq<TreeNode>, i: int, data: Seq<i64>, base: int) -> int
    decreases nodes.len() - i,
{
    if i < 0 || i >= nodes.len() {
        0
    } else {
        match nodes[i] {
            TreeNode::Leaf { weight } => weight as int,
            TreeNode::Split { feature, threshold, left, right } => {
                if left <= i || right <= i || left >= nodes.len() || right >= nodes.len() {
                    0
                } else if data[base + feature] <= threshold {
                    eval_node(nodes, left as int, data, base)
                } else {
                    eval_node(nodes, right as int, data, base)
                }
            },
        }
    }
}

/// The arena is non-empty, every child index points forward and in range, and
/// every split reads a feature below `nf`.
pub open spec fn tree_wf(nodes: Seq<TreeNode>, nf: int) -> bool {
    &&& nodes.len() > 0
    &&& forall|i: int|
        0 <= i < nodes.len() ==> match #[trigger] nodes[i] {
            TreeNode::Leaf { .. } => true,
            TreeNode::Split { feature, left, right, .. } => feature < nf && i < left < nodes.len()
                && i < right < nodes.len(),
        }
}

/// Every leaf weight has magnitude at most `lim`.
pub open spec fn weights_bounded(nodes: Seq<TreeNode>, lim: int) -> bool {
    forall|i: int|
        0 <= i < nodes.len() ==> match #[trigger] nodes[i] {
            TreeNode::Leaf { weight } => abs(weight as int) <= lim,
            TreeNode::Split { .. } => true,
        }
}

pub proof fn lemma_eval_bounded(nodes: Seq<TreeNode>, i: int, data: Seq<i64>, base: int, lim: int)
    requires
        weights_bounded(nodes, lim),
        lim >= 0,
    ensures
        abs(eval_node(nodes, i, data, base)) <= lim,
    decreases nodes.len() - i,
{
    if 0 <= i < nodes.len() {
        match nodes[i] {
            TreeNode::Leaf { .. } => {},
            TreeNode::Split { feature, threshold, left, right } => {
                if i < left < nodes.len() && i < right < nodes.len() {
                    lemma_eval_bounded(nodes, left as int, data, base, lim);
                    lemma_eval_bounded(nodes, right as int, data, base, lim);
                }
            },
        }
    }
}

/// Walks the tree for the row whose features start at `data[base]`.
pub fn eval_tree(nodes: &Vec<TreeNode>, data: &Vec<i64>, base: usize, nf: usize) -> (r: i64)
    requires
        tree_wf(nodes@, nf as int),
        base + nf <= data@.len(),
    ensures
        r as int == eval_node(nodes@, 0, data@, base as int),
{
    let mut i: usize = 0;
    loop
        invariant
            tree_wf(nodes@, nf as int),
            base + nf <= data@.len(),
            i < nodes@.len(),
            eval_node(nodes@, i as int, data@, base as int) == eval_node(nodes@, 0, data@, base as int),
        decreases nodes@.len() - i,
    {
        let node = nodes[i];
        let ghost g_node = nodes@[i as int];
        assert(node == g_node);
        match node {
            TreeNode::Leaf { weight } => {
                return weight;
            },
            TreeNode::Split { feature, threshold, left, right } => {
                assert(feature < nf && i < left < nodes@.len() && i < right < nodes@.len());
                let room: usize = data.len() - base;
                assert(feature < room);
                let idx: usize = base + feature;
                if data[idx] <= threshold {
                    i = left;
                } else {
                    i = right;
                }
            },
        }
    }
}

// ---------------------------------------------------------------- binning

/// The bin of value `v` for a feature ranging over `[lo, hi]`, with `nb`
/// equal-width bins; values outside the range fall into the nearest end bin.
pub open spec fn bin_of(v: int, lo: int, hi: int, nb: int) -> int {
    let w = hi - lo + 1;
    let x = v - lo;
    if x < 0 || w <= 0 {
        0
    } else {
        let b = x * nb / w;
        if b >= nb {
            nb - 1
        } else {
            b
        }
    }
}

/// The largest value that falls below bin `k`, clamped to `hi`: splitting at
/// bin boundary `k` sends the values at most this threshold to the left.
pub open spec fn threshold_of(lo: int, hi: int, nb: int, k: int) -> int {
    let w = hi - lo + 1;
    let d = k * w - 1;
    let t = lo + if d < 0 {
        0
    } else {
        d / nb
    };
    if t > hi {
        hi
    } else {
        t
    }
}

pub proof fn lemma_bin_range(v: int, lo: int, hi: int, nb: int)
    requires
        nb >= 1,
    ensures
        0 <= bin_of(v, lo, hi, nb) < nb,
{
    let w = hi - lo + 1;
    let x = v - lo;
    if !(x < 0 || w <= 0) {
        assert(x * nb / w >= 0) by (nonlinear_arith)
            requires
                x >= 0,
                nb >= 1,
                w > 0,
        ;
    }
}

pub fn bin_index(v: i64, lo: i64, hi: i64, nb: u32) -> (r: usize)
    requires
        1 <= nb <= MAX_BINS,
    ensures
        r as int == bin_of(v as int, lo as int, hi as int, nb as int),
        r < nb,
{
    let w: i128 = hi as i128 - lo as i128 + 1;
    let x: i128 = v as i128 - lo as i128;
    if x < 0 || w <= 0 {
        0
    } else {
        let n: i128 = nb as i128;
        proof {
            assert(0 <= x * n <= x * 256) by (nonlinear_arith)
                requires
                    x >= 0,
                    1 <= n <= 256,
            ;
        }
        let b: i128 = x * n / w;
        proof {
            let xi = x as int;
            let ni = n as int;
            let wi = w as int;
            assert(xi * ni / wi >= 0) by (nonlinear_arith)
                requires
                    xi * ni >= 0,
                    wi > 0,
            ;
        }
        if b >= n {
            (nb - 1) as usize
        } else {
            b as usize
        }
    }
}

pub fn threshold_at(lo: i64, hi: i64, nb: u32, k: u32) -> (r: i64)
    requires
        1 <= nb <= MAX_BINS,
        k < nb,
    ensures
        r as int == threshold_of(lo as int, hi as int, nb as int, k as int),
{
    let w: i128 = hi as i128 - lo as i128 + 1;
    let kk: i128 = k as i128;
    proof {
        assert(-(256 * 0x2_0000_0000_0000_0000) <= kk * w <= 256 * 0x2_0000_0000_0000_0000)
            by (nonlinear_arith)
            requires
                0 <= kk <= 256,
                -0x2_0000_0000_0000_0000 <= w <= 0x2_0000_0000_0000_0000,
        ;
    }
    let d: i128 = kk * w - 1;
    let q: i128 = if d < 0 {
        0
    } else {
        d / (nb as i128)
    };
    proof {
        if d >= 0 {
            let di = d as int;
            let ni = nb as int;
            assert(0 <= di / ni <= di) by (nonlinear_arith)
                requires
                    di >= 0,
                    ni >= 1,
            ;
        }
    }
    let t: i128 = lo as i128 + q;
    if t > hi as i128 {
        hi
    } else {
        t as i64
    }
}


// ---------------------------------------------------------------- inputs

/// Largest magnitude of one histogram bin's gradient sum.
pub const BIN_GRAD_LIMIT: i128 = 9_007_199_254_740_992;

/// What the builder reads: `n` rows of `c` features in `d` (row-major), one
/// gradient per row, the value range `[lo[f], hi[f]]` of each feature, and the
/// tree settings.
pub open spec fn inputs_ok(
    d: Seq<i64>,
    c: int,
    n: int,
    g: Seq<i64>,
    lo: Seq<i64>,
    hi: Seq<i64>,
    p: TreeParams,
) -> bool {
    &&& c >= 0
    &&& 0 <= n <= MAX_ROWS
    &&& d.len() == n * c
    &&& g.len() == n
    &&& forall|i: int| 0 <= i < n ==> abs(#[trigger] g[i] as int) <= GRAD_LIMIT
    &&& lo.len() == c
    &&& hi.len() == c
    &&& params_ok(p)
}

/// A set of row indices, each below `n`, in the order they came in.
pub open spec fn rows_ok(rows: Seq<usize>, n: int) -> bool {
    &&& rows.len() <= MAX_ROWS
    &&& forall|i: int| 0 <= i < rows.len() ==> #[trigger] rows[i] < n
}

pub proof fn lemma_cell(r: int, f: int, n: int, c: int)
    requires
        0 <= r < n,
        0 <= f < c,
    ensures
        0 <= r * c + f < n * c,
{
    assert(0 <= r * c + f < n * c) by (nonlinear_arith)
        requires
            0 <= r < n,
            0 <= f < c,
    ;
}

/// The value of feature `f` in row `r`.
pub open spec fn fval(d: Seq<i64>, c: int, r: int, f: int) -> int {
    d[r * c + f] as int
}

// ---------------------------------------------------------------- histograms

/// Per bin, the sum of the gradients and the number of the rows that fall in it.
pub open spec fn hist(
    d: Seq<i64>,
    c: int,
    g: Seq<i64>,
    rows: Seq<usize>,
    f: int,
    lo: int,
    hi: int,
    nb: int,
) -> Seq<(int, int)>
    decreases rows.len(),
{
    if rows.len() == 0 {
        Seq::new(nb as nat, |b: int| (0int, 0int))
    } else {
        let h = hist(d, c, g, rows.drop_last(), f, lo, hi, nb);
        let r = rows.last() as int;
        let b = bin_of(fval(d, c, r, f), lo, hi, nb);
        h.update(b, (h[b].0 + g[r] as int, h[b].1 + 1))
    }
}

pub proof fn lemma_hist_len(
    d: Seq<i64>,
    c: int,
    g: Seq<i64>,
    rows: Seq<usize>,
    f: int,
    lo: int,
    hi: int,
    nb: int,
)
    requires
        nb >= 1,
    ensures
        hist(d, c, g, rows, f, lo, hi, nb).len() == nb,
    decreases rows.len(),
{
    if rows.len() > 0 {
        lemma_hist_len(d, c, g, rows.drop_last(), f, lo, hi, nb);
        lemma_bin_range(fval(d, c, rows.last() as int, f), lo, hi, nb);
    }
}

/// Sum of the gradients of bins `0..k`.
pub open spec fn prefix_g(h: Seq<(int, int)>, k: int) -> int
    decreases k,
{
    if k <= 0 {
        0
    } else {
        prefix_g(h, k - 1) + h[k - 1].0
    }
}

/// Number of rows in bins `0..k`.
pub open spec fn prefix_c(h: Seq<(int, int)>, k: int) -> int
    decreases k,
{
    if k <= 0 {
        0
    } else {
        prefix_c(h, k - 1) + h[k - 1].1
    }
}

pub fn build_histogram(
    data: &Vec<i64>,
    c: usize,
    n: usize,
    grads: &Vec<i64>,
    rows: &Vec<usize>,
    f: usize,
    lo: i64,
    hi: i64,
    nb: u32,
) -> (h: Vec<(i64, u64)>)
    requires
        data@.len() == n * c,
        n <= MAX_ROWS,
        grads@.len() == n,
        forall|i: int| 0 <= i < n ==> abs(#[trigger] grads@[i] as int) <= GRAD_LIMIT,
        rows_ok(rows@, n as int),
        f < c,
        1 <= nb <= MAX_BINS,
    ensures
        h@.len() == nb,
        forall|b: int|
            0 <= b < nb ==> {
                let s = #[trigger] hist(data@, c as int, grads@, rows@, f as int, lo as int, hi as int, nb as int)[b];
                &&& h@[b].0 as int == s.0
                &&& h@[b].1 as int == s.1
                &&& abs(s.0) <= BIN_GRAD_LIMIT
                &&& 0 <= s.1 <= MAX_ROWS
            },
{
    let mut h: Vec<(i64, u64)> = Vec::new();
    let mut b: usize = 0;
    while b < nb as usize
        invariant
            b <= nb,
            h@.len() == b,
            forall|i: int| 0 <= i < b ==> #[trigger] h@[i] == (0i64, 0u64),
        decreases nb - b,
    {
        h.push((0, 0));
        b += 1;
    }
    let ghost hs0 = hist(data@, c as int, grads@, rows@.take(0), f as int, lo as int, hi as int, nb as int);
    assert(rows@.take(0).len() == 0);
    let mut j: usize = 0;
    while j < rows.len()
        invariant
            data@.len() == n * c,
            n <= MAX_ROWS,
            grads@.len() == n,
            forall|i: int| 0 <= i < n ==> abs(#[trigger] grads@[i] as int) <= GRAD_LIMIT,
            rows_ok(rows@, n as int),
            f < c,
            1 <= nb <= MAX_BINS,
            j <= rows@.len(),
            h@.len() == nb,
            forall|bb: int|
                0 <= bb < nb ==> {
                    let s = #[trigger] hist(data@, c as int, grads@, rows@.take(j as int), f as int, lo as int, hi as int, nb as int)[bb];
                    &&& h@[bb].0 as int == s.0
                    &&& h@[bb].1 as int == s.1
                    &&& abs(s.0) <= j * GRAD_LIMIT
                    &&& 0 <= s.1 <= j
                },
        decreases rows@.len() - j,
    {
        let r = rows[j];
        proof {
            lemma_cell(r as int, f as int, n as int, c as int);
        }
        let room: usize = data.len() - f;
        assert(r * c <= room) by (nonlinear_arith)
            requires
                r * c + f < data@.len(),
                room == data@.len() - f,
        ;
        let cell: usize = r * c + f;
        let bin = bin_index(data[cell], lo, hi, nb);
        let gr = grads[r];
        let old_h = h[bin];
        let ghost prev = rows@.take(j as int);
        let ghost next = rows@.take(j as int + 1);
        proof {
            assert(next.drop_last() =~= prev);
            assert(next.last() == r);
            lemma_hist_len(data@, c as int, grads@, prev, f as int, lo as int, hi as int, nb as int);
            lemma_hist_len(data@, c as int, grads@, next, f as int, lo as int, hi as int, nb as int);
            assert(abs(grads@[r as int] as int) <= GRAD_LIMIT);
            let s = hist(data@, c as int, grads@, prev, f as int, lo as int, hi as int, nb as int)[bin as int];
            assert(abs(s.0) <= j * GRAD_LIMIT);
            assert(j * GRAD_LIMIT <= MAX_ROWS * GRAD_LIMIT);
        }
        h.set(bin, (old_h.0 + gr, old_h.1 + 1));
        j += 1;
        proof {
            assert forall|bb: int| 0 <= bb < nb implies {
                let s = #[trigger] hist(data@, c as int, grads@, rows@.take(j as int), f as int, lo as int, hi as int, nb as int)[bb];
                &&& h@[bb].0 as int == s.0
                &&& h@[bb].1 as int == s.1
                &&& abs(s.0) <= j * GRAD_LIMIT
                &&& 0 <= s.1 <= j
            } by {
                let sp = hist(data@, c as int, grads@, prev, f as int, lo as int, hi as int, nb as int)[bb];
                assert(abs(sp.0) <= (j - 1) * GRAD_LIMIT);
            }
        }
    }
    assert(rows@.take(rows@.len() as int) =~= rows@);
    h
}


// ---------------------------------------------------------------- split finder

/// `G^2 / (H + lambda)` for a gradient sum `g` over `cnt` rows, each of
/// Hessian one (`SCALE` in fixed point), rounded down.
pub open spec fn score(g: int, cnt: int, lambda: int) -> int {
    let den = cnt * SCALE + lambda;
    if den <= 0 {
        0
    } else {
        g * g / den
    }
}

/// Twice the gain of splitting `(g, cnt)` into a left part `(gl, cl)` and the rest:
/// `G_L^2/(H_L+l) + G_R^2/(H_R+l) - G^2/(H+l) - 2 gamma`.
pub open spec fn gain2(gl: int, cl: int, g: int, cnt: int, p: TreeParams) -> int {
    score(gl, cl, p.lambda as int) + score(g - gl, cnt - cl, p.lambda as int) - score(
        g,
        cnt,
        p.lambda as int,
    ) - 2 * p.gamma
}

/// A split is accepted when both sides hold rows, each side's Hessian sum
/// reaches `min_child_weight`, and the gain exceeds `gamma`.
pub open spec fn accepted(gl: int, cl: int, g: int, cnt: int, p: TreeParams) -> bool {
    &&& cl > 0
    &&& cnt - cl > 0
    &&& cl * SCALE >= p.min_child_weight
    &&& (cnt - cl) * SCALE >= p.min_child_weight
    &&& gain2(gl, cl, g, cnt, p) > 2 * p.gamma
}

/// A candidate is `(feature, bin boundary, twice the gain)`.
pub open spec fn consider(
    best: Option<(int, int, int)>,
    f: int,
    k: int,
    h: Seq<(int, int)>,
    g: int,
    cnt: int,
    p: TreeParams,
) -> Option<(int, int, int)> {
    let gl = prefix_g(h, k);
    let cl = prefix_c(h, k);
    let gain = gain2(gl, cl, g, cnt, p);
    if accepted(gl, cl, g, cnt, p) && (best is None || gain > best.unwrap().2) {
        Some((f, k, gain))
    } else {
        best
    }
}

/// The best of `best` and the boundaries `1..k` of feature `f`; a later
/// candidate replaces an earlier one only with a strictly larger gain.
pub open spec fn scan_bins(
    best: Option<(int, int, int)>,
    f: int,
    h: Seq<(int, int)>,
    g: int,
    cnt: int,
    p: TreeParams,
    k: int,
) -> Option<(int, int, int)>
    decreases k,
{
    if k <= 1 {
        best
    } else {
        consider(scan_bins(best, f, h, g, cnt, p, k - 1), f, k - 1, h, g, cnt, p)
    }
}

/// The best split of `rows` over the features `0..fu`, in order of feature
/// then boundary.
pub open spec fn scan_features(
    d: Seq<i64>,
    c: int,
    g: Seq<i64>,
    lo: Seq<i64>,
    hi: Seq<i64>,
    p: TreeParams,
    rows: Seq<usize>,
    fu: int,
) -> Option<(int, int, int)>
    decreases fu,
{
    if fu <= 0 {
        None
    } else {
        let f = fu - 1;
        let nb = p.num_bins as int;
        let h = hist(d, c, g, rows, f, lo[f] as int, hi[f] as int, nb);
        scan_bins(
            scan_features(d, c, g, lo, hi, p, rows, fu - 1),
            f,
            h,
            prefix_g(h, nb),
            prefix_c(h, nb),
            p,
            nb,
        )
    }
}

/// The split chosen for `rows`: the largest gain over every feature and bin
/// boundary, the lexicographically smallest `(feature, boundary)` among equals.
pub open spec fn best_split(
    d: Seq<i64>,
    c: int,
    g: Seq<i64>,
    lo: Seq<i64>,
    hi: Seq<i64>,
    p: TreeParams,
    rows: Seq<usize>,
) -> Option<(int, int, int)> {
    scan_features(d, c, g, lo, hi, p, rows, c)
}

pub open spec fn same_choice(e: Option<(usize, u32, i128)>, s: Option<(int, int, int)>) -> bool {
    match e {
        None => s is None,
        Some(x) => s == Some((x.0 as int, x.1 as int, x.2 as int)),
    }
}

pub const SUM_LIMIT: i128 = 0x2000_0000_0000_0000;

pub const SCORE_LIMIT: i128 = 0x1000_0000_0000_0000_0000_0000_0000_0000;

fn score_of(g: i128, cnt: i128, lambda: i64) -> (r: i128)
    requires
        -2 * SUM_LIMIT <= g <= 2 * SUM_LIMIT,
        0 <= cnt <= 0x1000_0000,
        0 <= lambda <= PARAM_LIMIT,
    ensures
        r as int == score(g as int, cnt as int, lambda as int),
        0 <= r <= SCORE_LIMIT,
{
    let den: i128 = cnt * (SCALE as i128) + lambda as i128;
    if den <= 0 {
        0
    } else {
        let ghost gi = g as int;
        assert(0 <= gi * gi <= SCORE_LIMIT) by (nonlinear_arith)
            requires
                -0x4000_0000_0000_0000 <= gi <= 0x4000_0000_0000_0000,
        ;
        let sq: i128 = g * g;
        let ghost di = den as int;
        let ghost si = sq as int;
        assert(0 <= si / di <= si) by (nonlinear_arith)
            requires
                si >= 0,
                di >= 1,
        ;
        sq / den
    }
}

pub fn find_best_split(
    data: &Vec<i64>,
    c: usize,
    n: usize,
    grads: &Vec<i64>,
    lo: &Vec<i64>,
    hi: &Vec<i64>,
    p: TreeParams,
    rows: &Vec<usize>,
) -> (r: Option<(usize, u32, i128)>)
    requires
        inputs_ok(data@, c as int, n as int, grads@, lo@, hi@, p),
        rows_ok(rows@, n as int),
    ensures
        same_choice(r, best_split(data@, c as int, grads@, lo@, hi@, p, rows@)),
        r matches Some(x) ==> x.0 < c && 1 <= x.1 < p.num_bins,
{
    let nb = p.num_bins;
    let mut best: Option<(usize, u32, i128)> = None;
    let mut f: usize = 0;
    while f < c
        invariant
            inputs_ok(data@, c as int, n as int, grads@, lo@, hi@, p),
            rows_ok(rows@, n as int),
            nb == p.num_bins,
            f <= c,
            same_choice(best, scan_features(data@, c as int, grads@, lo@, hi@, p, rows@, f as int)),
            best matches Some(x) ==> x.0 < f && 1 <= x.1 < nb,
        decreases c - f,
    {
        let h = build_histogram(data, c, n, grads, rows, f, lo[f], hi[f], nb);
        let ghost hs = hist(data@, c as int, grads@, rows@, f as int, lo@[f as int] as int, hi@[f as int] as int, nb as int);
        let mut tg: i128 = 0;
        let mut tc: i128 = 0;
        let mut b: usize = 0;
        while b < nb as usize
            invariant
                1 <= nb <= MAX_BINS,
                h@.len() == nb,
                b <= nb,
                forall|bb: int|
                    0 <= bb < nb ==> {
                        let s = #[trigger] hs[bb];
                        &&& h@[bb].0 as int == s.0
                        &&& h@[bb].1 as int == s.1
                        &&& abs(s.0) <= BIN_GRAD_LIMIT
                        &&& 0 <= s.1 <= MAX_ROWS
                    },
                tg as int == prefix_g(hs, b as int),
                tc as int == prefix_c(hs, b as int),
                abs(tg as int) <= b * BIN_GRAD_LIMIT,
                0 <= tc <= b * MAX_ROWS,
            decreases nb - b,
        {
            let e = h[b];
            let ghost sb = hs[b as int];
            tg = tg + e.0 as i128;
            tc = tc + e.1 as i128;
            b += 1;
        }
        let ghost start = scan_features(data@, c as int, grads@, lo@, hi@, p, rows@, f as int);
        let mut gl: i128 = 0;
        let mut cl: i128 = 0;
        let mut k: u32 = 1;
        while k < nb
            invariant
                1 <= nb <= MAX_BINS,
                nb == p.num_bins,
                params_ok(p),
                h@.len() == nb,
                1 <= k <= nb,
                f < c,
                forall|bb: int|
                    0 <= bb < nb ==> {
                        let s = #[trigger] hs[bb];
                        &&& h@[bb].0 as int == s.0
                        &&& h@[bb].1 as int == s.1
                        &&& abs(s.0) <= BIN_GRAD_LIMIT
                        &&& 0 <= s.1 <= MAX_ROWS
                    },
                tg as int == prefix_g(hs, nb as int),
                tc as int == prefix_c(hs, nb as int),
                abs(tg as int) <= nb * BIN_GRAD_LIMIT,
                0 <= tc <= nb * MAX_ROWS,
                gl as int == prefix_g(hs, k - 1),
                cl as int == prefix_c(hs, k - 1),
                abs(gl as int) <= (k - 1) * BIN_GRAD_LIMIT,
                0 <= cl <= (k - 1) * MAX_ROWS,
                same_choice(best, scan_bins(start, f as int, hs, tg as int, tc as int, p, k as int)),
                best matches Some(x) ==> x.0 <= f && 1 <= x.1 < nb,
            decreases nb - k,
        {
            let e = h[(k - 1) as usize];
            let ghost sk = hs[k - 1];
            gl = gl + e.0 as i128;
            cl = cl + e.1 as i128;
            assert(0 <= cl <= 0x1000_0000) by (nonlinear_arith)
                requires
                    0 <= cl <= k * MAX_ROWS,
                    k <= MAX_BINS,
            ;
            assert(0 <= tc <= 0x1000_0000) by (nonlinear_arith)
                requires
                    0 <= tc <= nb * MAX_ROWS,
                    nb <= MAX_BINS,
            ;
            let cr: i128 = tc - cl;
            assert(0 <= cl * SCALE <= 0x1_0000_0000_0000_0000 && -0x1_0000_0000_0000_0000 <= cr
                * SCALE <= 0x1_0000_0000_0000_0000) by (nonlinear_arith)
                requires
                    0 <= cl <= 0x1000_0000,
                    -0x1000_0000 <= cr <= 0x1000_0000,
            ;
            if cl > 0 && cr > 0 && cl * (SCALE as i128) >= p.min_child_weight as i128 && cr * (
            SCALE as i128) >= p.min_child_weight as i128 {
                let gain: i128 = score_of(gl, cl, p.lambda) + score_of(tg - gl, cr, p.lambda)
                    - score_of(tg, tc, p.lambda) - 2 * (p.gamma as i128);
                if gain > 2 * (p.gamma as i128) {
                    let better = match best {
                        None => true,
                        Some(x) => gain > x.2,
                    };
                    if better {
                        best = Some((f, k, gain));
                    }
                }
            }
            k += 1;
        }
        f += 1;
    }
    best
}


// ---------------------------------------------------------------- partition

/// The rows whose feature `f` is at most `t`, in the order they came in.
pub open spec fn left_rows(d: Seq<i64>, c: int, f: int, t: int, rows: Seq<usize>) -> Seq<usize>
    decreases rows.len(),
{
    if rows.len() == 0 {
        seq![]
    } else {
        let rest = left_rows(d, c, f, t, rows.drop_last());
        if fval(d, c, rows.last() as int, f) <= t {
            rest.push(rows.last())
        } else {
            rest
        }
    }
}

/// The rows whose feature `f` exceeds `t`, in the order they came in.
pub open spec fn right_rows(d: Seq<i64>, c: int, f: int, t: int, rows: Seq<usize>) -> Seq<usize>
    decreases rows.len(),
{
    if rows.len() == 0 {
        seq![]
    } else {
        let rest = right_rows(d, c, f, t, rows.drop_last());
        if fval(d, c, rows.last() as int, f) <= t {
            rest
        } else {
            rest.push(rows.last())
        }
    }
}

pub fn partition_rows(data: &Vec<i64>, c: usize, n: usize, rows: &Vec<usize>, f: usize, t: i64) -> (r: (
    Vec<usize>,
    Vec<usize>,
))
    requires
        data@.len() == n * c,
        rows_ok(rows@, n as int),
        f < c,
    ensures
        r.0@ == left_rows(data@, c as int, f as int, t as int, rows@),
        r.1@ == right_rows(data@, c as int, f as int, t as int, rows@),
        rows_ok(r.0@, n as int),
        rows_ok(r.1@, n as int),
{
    let mut left: Vec<usize> = Vec::new();
    let mut right: Vec<usize> = Vec::new();
    let mut j: usize = 0;
    while j < rows.len()
        invariant
            data@.len() == n * c,
            rows_ok(rows@, n as int),
            f < c,
            j <= rows@.len(),
            left@ == left_rows(data@, c as int, f as int, t as int, rows@.take(j as int)),
            right@ == right_rows(data@, c as int, f as int, t as int, rows@.take(j as int)),
            left@.len() <= j,
            right@.len() <= j,
            forall|i: int| 0 <= i < left@.len() ==> #[trigger] left@[i] < n,
            forall|i: int| 0 <= i < right@.len() ==> #[trigger] right@[i] < n,
        decreases rows@.len() - j,
    {
        let r = rows[j];
        proof {
            lemma_cell(r as int, f as int, n as int, c as int);
            assert(rows@.take(j as int + 1).drop_last() =~= rows@.take(j as int));
        }
        let room: usize = data.len() - f;
        assert(r * c <= room) by (nonlinear_arith)
            requires
                r * c + f < data@.len(),
                room == data@.len() - f,
        ;
        if data[r * c + f] <= t {
            left.push(r);
        } else {
            right.push(r);
        }
        j += 1;
    }
    assert(rows@.take(rows@.len() as int) =~= rows@);
    (left, right)
}

// ---------------------------------------------------------------- leaves

/// Sum of the gradients of `rows`.
pub open spec fn sum_grad(g: Seq<i64>, rows: Seq<usize>) -> int
    decreases rows.len(),
{
    if rows.len() == 0 {
        0
    } else {
        sum_grad(g, rows.drop_last()) + g[rows.last() as int] as int
    }
}

/// The leaf output `-G / (H + lambda)` for a gradient sum `g` over `cnt` rows,
/// rounded toward zero (fixed point).
pub open spec fn leaf_weight(g: int, cnt: int, lambda: int) -> int {
    let den = cnt * SCALE + lambda;
    if den <= 0 {
        0
    } else {
        -trunc_div(g * SCALE, den)
    }
}

/// Largest magnitude of a leaf weight that the builder produces.
pub const LEAF_LIMIT: i64 = 9_007_199_254_740_992;

pub fn leaf_weight_of(grads: &Vec<i64>, n: usize, rows: &Vec<usize>, lambda: i64) -> (w: i64)
    requires
        grads@.len() == n,
        forall|i: int| 0 <= i < n ==> abs(#[trigger] grads@[i] as int) <= GRAD_LIMIT,
        rows_ok(rows@, n as int),
        0 <= lambda <= PARAM_LIMIT,
    ensures
        w as int == leaf_weight(sum_grad(grads@, rows@), rows@.len() as int, lambda as int),
        abs(w as int) <= LEAF_LIMIT,
{
    let mut sg: i64 = 0;
    let mut j: usize = 0;
    while j < rows.len()
        invariant
            grads@.len() == n,
            forall|i: int| 0 <= i < n ==> abs(#[trigger] grads@[i] as int) <= GRAD_LIMIT,
            rows_ok(rows@, n as int),
            j <= rows@.len(),
            sg as int == sum_grad(grads@, rows@.take(j as int)),
            abs(sg as int) <= j * GRAD_LIMIT,
        decreases rows@.len() - j,
    {
        proof {
            assert(rows@.take(j as int + 1).drop_last() =~= rows@.take(j as int));
        }
        let gr = grads[rows[j]];
        sg = sg + gr;
        j += 1;
    }
    assert(rows@.take(rows@.len() as int) =~= rows@);
    let cnt: i128 = rows.len() as i128;
    let ghost ci = cnt as int;
    assert(0 <= ci * SCALE <= 0x1_0000_0000_0000) by (nonlinear_arith)
        requires
            0 <= ci <= MAX_ROWS,
    ;
    let den: i128 = cnt * (SCALE as i128) + lambda as i128;
    if den <= 0 {
        return 0;
    }
    let ghost gi = sg as int;
    assert(abs(gi * SCALE) <= abs(gi) * (ci * SCALE + lambda)) by (nonlinear_arith)
        requires
            ci >= 1 || gi == 0,
            ci >= 0,
            lambda >= 0,
    ;
    assert(abs(gi * SCALE) <= 0x1000_0000_0000_0000_0000) by (nonlinear_arith)
        requires
            abs(gi) <= 0x20_0000_0000_0000,
    ;
    proof {
        crate::fixed::lemma_trunc_div_bound(gi * SCALE, ci * SCALE + lambda, abs(gi));
    }
    let q = div_trunc_i128(sg as i128 * (SCALE as i128), den);
    (-q) as i64
}


// ---------------------------------------------------------------- builder

/// The nodes that growing a subtree for `rows` at `depth` appends to an arena
/// that already holds `base` nodes: the subtree's root first, then its left
/// subtree, then its right subtree.
pub open spec fn grow(
    d: Seq<i64>,
    c: int,
    g: Seq<i64>,
    lo: Seq<i64>,
    hi: Seq<i64>,
    p: TreeParams,
    rows: Seq<usize>,
    depth: int,
    base: int,
) -> Seq<TreeNode>
    decreases p.max_depth - depth,
{
    let leaf = seq![
        TreeNode::Leaf {
            weight: leaf_weight(sum_grad(g, rows), rows.len() as int, p.lambda as int) as i64,
        },
    ];
    if depth >= p.max_depth {
        leaf
    } else {
        match best_split(d, c, g, lo, hi, p, rows) {
            None => leaf,
            Some(s) => {
                let f = s.0;
                let t = threshold_of(lo[f] as int, hi[f] as int, p.num_bins as int, s.1);
                let ln = grow(d, c, g, lo, hi, p, left_rows(d, c, f, t, rows), depth + 1, base + 1);
                let rn = grow(
                    d,
                    c,
                    g,
                    lo,
                    hi,
                    p,
                    right_rows(d, c, f, t, rows),
                    depth + 1,
                    base + 1 + ln.len(),
                );
                seq![
                    TreeNode::Split {
                        feature: f as usize,
                        threshold: t as i64,
                        left: (base + 1) as usize,
                        right: (base + 1 + ln.len()) as usize,
                    },
                ] + ln + rn
            },
        }
    }
}

/// The nodes at `start..end` point forward to children inside `start..end`,
/// split on features below `nf`, and carry leaf weights within `LEAF_LIMIT`.
pub open spec fn segment_wf(nodes: Seq<TreeNode>, start: int, end: int, nf: int) -> bool {
    forall|i: int|
        start <= i < end ==> match #[trigger] nodes[i] {
            TreeNode::Leaf { weight } => abs(weight as int) <= LEAF_LIMIT,
            TreeNode::Split { feature, left, right, .. } => feature < nf && i < left < end && i
                < right < end,
        }
}

pub fn grow_subtree(
    data: &Vec<i64>,
    c: usize,
    n: usize,
    grads: &Vec<i64>,
    lo: &Vec<i64>,
    hi: &Vec<i64>,
    p: TreeParams,
    rows: Vec<usize>,
    depth: u32,
    nodes: &mut Vec<TreeNode>,
)
    requires
        inputs_ok(data@, c as int, n as int, grads@, lo@, hi@, p),
        rows_ok(rows@, n as int),
        depth <= p.max_depth,
    ensures
        final(nodes)@ == old(nodes)@ + grow(
            data@,
            c as int,
            grads@,
            lo@,
            hi@,
            p,
            rows@,
            depth as int,
            old(nodes)@.len() as int,
        ),
        final(nodes)@.len() > old(nodes)@.len(),
        segment_wf(final(nodes)@, old(nodes)@.len() as int, final(nodes)@.len() as int, c as int),
    decreases p.max_depth - depth,
{
    let ghost base = nodes@.len() as int;
    let choice = if depth >= p.max_depth {
        None
    } else {
        find_best_split(data, c, n, grads, lo, hi, p, &rows)
    };
    match choice {
        None => {
            let w = leaf_weight_of(grads, n, &rows, p.lambda);
            nodes.push(TreeNode::Leaf { weight: w });
            proof {
                let nw = grow(data@, c as int, grads@, lo@, hi@, p, rows@, depth as int, base);
                assert(nodes@ =~= old(nodes)@ + nw);
            }
        },
        Some(s) => {
            let f = s.0;
            let t = threshold_at(lo[f], hi[f], p.num_bins, s.1);
            let (left, right) = partition_rows(data, c, n, &rows, f, t);
            let idx = nodes.len();
            nodes.push(TreeNode::Leaf { weight: 0 });
            let li = nodes.len();
            let ghost before_left = nodes@;
            grow_subtree(data, c, n, grads, lo, hi, p, left, depth + 1, nodes);
            let ri = nodes.len();
            let ghost before_right = nodes@;
            grow_subtree(data, c, n, grads, lo, hi, p, right, depth + 1, nodes);
            let ghost before_set = nodes@;
            nodes.set(idx, TreeNode::Split { feature: f, threshold: t, left: li, right: ri });
            proof {
                let ln = grow(data@, c as int, grads@, lo@, hi@, p, left@, depth + 1, base + 1);
                let rn = grow(
                    data@,
                    c as int,
                    grads@,
                    lo@,
                    hi@,
                    p,
                    right@,
                    depth + 1,
                    base + 1 + ln.len(),
                );
                assert(before_left =~= old(nodes)@.push(TreeNode::Leaf { weight: 0 }));
                assert(nodes@ =~= old(nodes)@ + grow(
                    data@,
                    c as int,
                    grads@,
                    lo@,
                    hi@,
                    p,
                    rows@,
                    depth as int,
                    base,
                ));
                assert forall|i: int| base <= i < nodes@.len() implies match #[trigger] nodes@[i] {
                    TreeNode::Leaf { weight } => abs(weight as int) <= LEAF_LIMIT,
                    TreeNode::Split { feature, left, right, .. } => feature < c && i < left
                        < nodes@.len() && i < right < nodes@.len(),
                } by {
                    if i == base {
                    } else if i < ri {
                        assert(nodes@[i] == before_right[i]);
                    } else {
                        assert(nodes@[i] == before_set[i]);
                    }
                }
            }
        },
    }
}

/// Grows one tree over all `n` rows.
pub fn build_tree(
    data: &Vec<i64>,
    c: usize,
    n: usize,
    grads: &Vec<i64>,
    lo: &Vec<i64>,
    hi: &Vec<i64>,
    p: TreeParams,
) -> (nodes: Vec<TreeNode>)
    requires
        inputs_ok(data@, c as int, n as int, grads@, lo@, hi@, p),
    ensures
        nodes@ == grow(data@, c as int, grads@, lo@, hi@, p, all_rows(n as int), 0, 0),
        tree_wf(nodes@, c as int),
        weights_bounded(nodes@, LEAF_LIMIT as int),
{
    let mut rows: Vec<usize> = Vec::new();
    let mut i: usize = 0;
    while i < n
        invariant
            i <= n,
            rows@ == all_rows(i as int),
        decreases n - i,
    {
        rows.push(i);
        i += 1;
        assert(rows@ =~= all_rows(i as int));
    }
    let mut nodes: Vec<TreeNode> = Vec::new();
    proof {
        assert(rows_ok(rows@, n as int));
    }
    grow_subtree(data, c, n, grads, lo, hi, p, rows, 0, &mut nodes);
    assert(nodes@ =~= Seq::<TreeNode>::empty() + grow(data@, c as int, grads@, lo@, hi@, p, all_rows(n as int), 0, 0));
    proof {
        assert forall|i: int| 0 <= i < nodes@.len() implies match #[trigger] nodes@[i] {
            TreeNode::Leaf { .. } => true,
            TreeNode::Split { feature, left, right, .. } => feature < c && i < left < nodes@.len()
                && i < right < nodes@.len(),
        } by {}
        assert forall|i: int| 0 <= i < nodes@.len() implies match #[trigger] nodes@[i] {
            TreeNode::Leaf { weight } => abs(weight as int) <= LEAF_LIMIT,
            TreeNode::Split { .. } => true,
        } by {}
    }
    nodes
}

/// The row indices `0..n` in order.
pub open spec fn all_rows(n: int) -> Seq<usize> {
    Seq::new(n as nat, |i: int| i as usize)
}


// ---------------------------------------------------------------- split law

/// The histogram of feature `f` over `rows`.
pub open spec fn feature_hist(
    d: Seq<i64>,
    c: int,
    g: Seq<i64>,
    lo: Seq<i64>,
    hi: Seq<i64>,
    p: TreeParams,
    rows: Seq<usize>,
    f: int,
) -> Seq<(int, int)> {
    hist(d, c, g, rows, f, lo[f] as int, hi[f] as int, p.num_bins as int)
}

/// Splitting `rows` on feature `f` at bin boundary `k` is accepted.
pub open spec fn split_ok(
    d: Seq<i64>,
    c: int,
    g: Seq<i64>,
    lo: Seq<i64>,
    hi: Seq<i64>,
    p: TreeParams,
    rows: Seq<usize>,
    f: int,
    k: int,
) -> bool {
    let h = feature_hist(d, c, g, lo, hi, p, rows, f);
    let nb = p.num_bins as int;
    &&& 0 <= f < c
    &&& 1 <= k < nb
    &&& accepted(prefix_g(h, k), prefix_c(h, k), prefix_g(h, nb), prefix_c(h, nb), p)
}

/// Twice the gain of splitting `rows` on feature `f` at bin boundary `k`.
pub open spec fn split_gain(
    d: Seq<i64>,
    c: int,
    g: Seq<i64>,
    lo: Seq<i64>,
    hi: Seq<i64>,
    p: TreeParams,
    rows: Seq<usize>,
    f: int,
    k: int,
) -> int {
    let h = feature_hist(d, c, g, lo, hi, p, rows, f);
    let nb = p.num_bins as int;
    gain2(prefix_g(h, k), prefix_c(h, k), prefix_g(h, nb), prefix_c(h, nb), p)
}

/// `(f1, k1)` comes before `(f2, k2)` in order of feature, then boundary.
pub open spec fn lex_before(f1: int, k1: int, f2: int, k2: int) -> bool {
    f1 < f2 || (f1 == f2 && k1 < k2)
}

/// `best` is the right choice among the candidates before `(fe, ke)`.
pub open spec fn best_among(
    d: Seq<i64>,
    c: int,
    g: Seq<i64>,
    lo: Seq<i64>,
    hi: Seq<i64>,
    p: TreeParams,
    rows: Seq<usize>,
    best: Option<(int, int, int)>,
    fe: int,
    ke: int,
) -> bool {
    match best {
        None => forall|f: int, k: int|
            lex_before(f, k, fe, ke) ==> !#[trigger] split_ok(d, c, g, lo, hi, p, rows, f, k),
        Some(b) => {
            &&& lex_before(b.0, b.1, fe, ke)
            &&& split_ok(d, c, g, lo, hi, p, rows, b.0, b.1)
            &&& b.2 == split_gain(d, c, g, lo, hi, p, rows, b.0, b.1)
            &&& forall|f: int, k: int|
                lex_before(f, k, fe, ke) && #[trigger] split_ok(d, c, g, lo, hi, p, rows, f, k)
                    ==> split_gain(d, c, g, lo, hi, p, rows, f, k) <= b.2
            &&& forall|f: int, k: int|
                lex_before(f, k, b.0, b.1) && #[trigger] split_ok(d, c, g, lo, hi, p, rows, f, k)
                    ==> split_gain(d, c, g, lo, hi, p, rows, f, k) < b.2
        },
    }
}

proof fn lemma_scan_bins_best(
    d: Seq<i64>,
    c: int,
    g: Seq<i64>,
    lo: Seq<i64>,
    hi: Seq<i64>,
    p: TreeParams,
    rows: Seq<usize>,
    start: Option<(int, int, int)>,
    f: int,
    k: int,
)
    requires
        0 <= f < c,
        1 <= k <= p.num_bins,
        best_among(d, c, g, lo, hi, p, rows, start, f, 1),
    ensures
        ({
            let h = feature_hist(d, c, g, lo, hi, p, rows, f);
            let nb = p.num_bins as int;
            best_among(
                d,
                c,
                g,
                lo,
                hi,
                p,
                rows,
                scan_bins(start, f, h, prefix_g(h, nb), prefix_c(h, nb), p, k),
                f,
                k,
            )
        }),
    decreases k,
{
    let h = feature_hist(d, c, g, lo, hi, p, rows, f);
    let nb = p.num_bins as int;
    if k > 1 {
        lemma_scan_bins_best(d, c, g, lo, hi, p, rows, start, f, k - 1);
        let prev = scan_bins(start, f, h, prefix_g(h, nb), prefix_c(h, nb), p, k - 1);
        let cur = scan_bins(start, f, h, prefix_g(h, nb), prefix_c(h, nb), p, k);
        assert(split_ok(d, c, g, lo, hi, p, rows, f, k - 1) == accepted(
            prefix_g(h, k - 1),
            prefix_c(h, k - 1),
            prefix_g(h, nb),
            prefix_c(h, nb),
            p,
        ));
        match cur {
            None => {
                assert forall|f2: int, k2: int| lex_before(f2, k2, f, k) implies !#[trigger] split_ok(
                    d,
                    c,
                    g,
                    lo,
                    hi,
                    p,
                    rows,
                    f2,
                    k2,
                ) by {
                    if !lex_before(f2, k2, f, k - 1) {
                        assert(f2 == f && k2 == k - 1);
                    }
                }
            },
            Some(b) => {
                assert forall|f2: int, k2: int|
                    lex_before(f2, k2, f, k) && #[trigger] split_ok(d, c, g, lo, hi, p, rows, f2, k2)
                        implies split_gain(d, c, g, lo, hi, p, rows, f2, k2) <= b.2 by {
                    if !lex_before(f2, k2, f, k - 1) {
                        assert(f2 == f && k2 == k - 1);
                    }
                }
            },
        }
    }
}

proof fn lemma_scan_features_best(
    d: Seq<i64>,
    c: int,
    g: Seq<i64>,
    lo: Seq<i64>,
    hi: Seq<i64>,
    p: TreeParams,
    rows: Seq<usize>,
    fu: int,
)
    requires
        0 <= fu <= c,
        params_ok(p),
    ensures
        best_among(d, c, g, lo, hi, p, rows, scan_features(d, c, g, lo, hi, p, rows, fu), fu, 1),
    decreases fu,
{
    let nb = p.num_bins as int;
    if fu > 0 {
        lemma_scan_features_best(d, c, g, lo, hi, p, rows, fu - 1);
        let prev = scan_features(d, c, g, lo, hi, p, rows, fu - 1);
        lemma_scan_bins_best(d, c, g, lo, hi, p, rows, prev, fu - 1, nb);
        let cur = scan_features(d, c, g, lo, hi, p, rows, fu);
        assert forall|f: int, k: int|
            lex_before(f, k, fu, 1) && #[trigger] split_ok(d, c, g, lo, hi, p, rows, f, k)
                implies lex_before(f, k, fu - 1, nb) by {}
    } else {
        assert forall|f: int, k: int| lex_before(f, k, fu, 1) implies !#[trigger] split_ok(
            d,
            c,
            g,
            lo,
            hi,
            p,
            rows,
            f,
            k,
        ) by {}
    }
}

/// The split chosen for a node has the largest gain of all accepted splits,
/// and among splits of equal gain it is the one with the lowest feature index,
/// then the lowest bin boundary. When no split is chosen, none is accepted.
pub proof fn law_split_choice(
    d: Seq<i64>,
    c: int,
    g: Seq<i64>,
    lo: Seq<i64>,
    hi: Seq<i64>,
    p: TreeParams,
    rows: Seq<usize>,
)
    requires
        c >= 0,
        params_ok(p),
    ensures
        match best_split(d, c, g, lo, hi, p, rows) {
            None => forall|f: int, k: int| !#[trigger] split_ok(d, c, g, lo, hi, p, rows, f, k),
            Some(b) => {
                &&& split_ok(d, c, g, lo, hi, p, rows, b.0, b.1)
                &&& b.2 == split_gain(d, c, g, lo, hi, p, rows, b.0, b.1)
                &&& forall|f: int, k: int|
                    #[trigger] split_ok(d, c, g, lo, hi, p, rows, f, k) ==> split_gain(
                        d,
                        c,
                        g,
                        lo,
                        hi,
                        p,
                        rows,
                        f,
                        k,
                    ) <= b.2
                &&& forall|f: int, k: int|
                    #[trigger] split_ok(d, c, g, lo, hi, p, rows, f, k) && split_gain(
                        d,
                        c,
                        g,
                        lo,
                        hi,
                        p,
                        rows,
                        f,
                        k,
                    ) == b.2 ==> !lex_before(f, k, b.0, b.1)
            },
        },
{
    lemma_scan_features_best(d, c, g, lo, hi, p, rows, c);
    assert forall|f: int, k: int| #[trigger] split_ok(d, c, g, lo, hi, p, rows, f, k) implies lex_before(
        f,
        k,
        c,
        1,
    ) by {}
}


proof fn lemma_threshold_range(lo: i64, hi: i64, nb: int, k: int)
    requires
        nb >= 1,
    ensures
        i64::MIN <= threshold_of(lo as int, hi as int, nb, k) <= i64::MAX,
{
    let w = hi - lo + 1;
    let d = k * w - 1;
    if d >= 0 {
        assert(d / nb >= 0) by (nonlinear_arith)
            requires
                d >= 0,
                nb >= 1,
        ;
    }
}

/// The node that growing `rows` at `depth` makes is a leaf exactly when the
/// depth limit is reached or no split of `rows` is accepted. A leaf's weight is
/// `-G / (H + lambda)` over `rows`; a split's children are grown from the rows
/// at most its threshold and from the others.
pub proof fn law_node_shape(
    d: Seq<i64>,
    c: int,
    g: Seq<i64>,
    lo: Seq<i64>,
    hi: Seq<i64>,
    p: TreeParams,
    rows: Seq<usize>,
    depth: int,
    base: int,
)
    requires
        0 <= c <= usize::MAX,
        params_ok(p),
    ensures
        ({
            let t = grow(d, c, g, lo, hi, p, rows, depth, base);
            &&& (t[0] is Leaf) <==> (depth >= p.max_depth || forall|f: int, k: int|
                !#[trigger] split_ok(d, c, g, lo, hi, p, rows, f, k))
            &&& t[0] matches TreeNode::Leaf { weight } ==> weight == leaf_weight(
                sum_grad(g, rows),
                rows.len() as int,
                p.lambda as int,
            ) as i64
            &&& t[0] matches TreeNode::Split { feature, threshold, left, right } ==> {
                &&& exists|k: int| #[trigger] split_ok(d, c, g, lo, hi, p, rows, feature as int, k)
                &&& t.subrange(1, t.len() as int).take(
                    grow(
                        d,
                        c,
                        g,
                        lo,
                        hi,
                        p,
                        left_rows(d, c, feature as int, threshold as int, rows),
                        depth + 1,
                        base + 1,
                    ).len() as int,
                ) == grow(
                    d,
                    c,
                    g,
                    lo,
                    hi,
                    p,
                    left_rows(d, c, feature as int, threshold as int, rows),
                    depth + 1,
                    base + 1,
                )
            }
        }),
{
    law_split_choice(d, c, g, lo, hi, p, rows);
    let t = grow(d, c, g, lo, hi, p, rows, depth, base);
    let w = leaf_weight(sum_grad(g, rows), rows.len() as int, p.lambda as int) as i64;
    if depth >= p.max_depth || best_split(d, c, g, lo, hi, p, rows) is None {
        assert(t[0] == TreeNode::Leaf { weight: w });
    } else {
        match best_split(d, c, g, lo, hi, p, rows) {
            None => {},
            Some(b) => {
                let f = b.0;
                let th = threshold_of(lo[f] as int, hi[f] as int, p.num_bins as int, b.1);
                let ln = grow(d, c, g, lo, hi, p, left_rows(d, c, f, th, rows), depth + 1, base + 1);
                assert(t[0] == TreeNode::Split {
                    feature: f as usize,
                    threshold: th as i64,
                    left: (base + 1) as usize,
                    right: (base + 1 + ln.len()) as usize,
                });
                assert(0 <= f < c);
                lemma_threshold_range(lo[f], hi[f], p.num_bins as int, b.1);
                assert(split_ok(d, c, g, lo, hi, p, rows, f, b.1));
                assert((f as usize) as int == f);
                assert((th as i64) as int == th);
                assert(split_ok(d, c, g, lo, hi, p, rows, (f as usize) as int, b.1));
                assert(!(t[0] is Leaf));
                assert(t.subrange(1, t.len() as int).take(ln.len() as int) =~= ln);
            },
        }
    }
}

} // verus!
