//! The boosted ensemble: training round by round with squared-error loss, and
//! prediction.
use crate::codec::{
    decode_bytes, decode_words, encode_bytes, encode_words, lemma_model_round_trip, model_bytes,
    model_of_bytes,
};
use crate::dmatrix::DMatrix;
use crate::fixed::{MAX_ROWS, SCALE, VALUE_LIMIT, abs, div_trunc_i128, trunc_div};
use crate::settings::{apply, apply_setting};
use crate::tree::{
    LEAF_LIMIT, TreeNode, TreeParams, accepted, all_rows, best_split, bin_of, build_tree, eval_node,
    eval_tree, fval, grow, hist, lemma_cell, lemma_eval_bounded, lemma_hist_len, leaf_weight,
    params_ok, prefix_c, scan_bins, scan_features, sum_grad, tree_wf, weights_bounded,
};
use vstd::prelude::*;
use vstd::string::StringSliceAdditionalSpecFns;

verus! {

/// Why a booster operation failed.
#[derive(Debug, Clone, PartialEq, Eq)]
pub enum XGBoostError {
    /// Bytes that do not hold a model of this engine's format and version.
    Load,
    /// A query whose column count differs from the model's feature count, or a
    /// prediction too large to represent.
    Predict,
    /// The tree builder could grow no node at this round: the matrix has no rows.
    Train(usize),
    /// A setting that was given an invalid value: its key and value.
    Config(String, String),
    /// The training matrix has no labels.
    NoLabels,
    /// The training matrix is beyond what the fixed-point arithmetic carries:
    /// more than `MAX_ROWS` rows, or a label beyond `VALUE_LIMIT` in magnitude.
    Range,
    /// At this round a running prediction would leave `[-VALUE_LIMIT, VALUE_LIMIT]`.
    Overflow(usize),
    /// A property of the model that cannot be reported: its name.
    GetInfo(String),
}

/// Training settings: the shape of each tree and the learning rate (fixed point).
#[derive(Debug, Clone, Copy, PartialEq, Eq, Structural)]
pub struct Config {
    pub tree: TreeParams,
    pub learning_rate: i64,
}

pub open spec fn config_ok(cfg: Config) -> bool {
    params_ok(cfg.tree) && 0 <= cfg.learning_rate <= SCALE
}

/// The defaults: depth 6, learning rate 0.3, lambda 1, gamma 0, minimum child
/// weight 1, 256 bins.
pub open spec fn default_config() -> Config {
    Config {
        tree: TreeParams {
            max_depth: 6,
            lambda: 1_000_000,
            gamma: 0,
            min_child_weight: 1_000_000,
            num_bins: 256,
        },
        learning_rate: 300_000,
    }
}

pub fn make_default_config() -> (r: Config)
    ensures
        r == default_config(),
        config_ok(r),
{
    Config {
        tree: TreeParams {
            max_depth: 6,
            lambda: 1_000_000,
            gamma: 0,
            min_child_weight: 1_000_000,
            num_bins: 256,
        },
        learning_rate: 300_000,
    }
}

/// An ensemble: the prediction for a row is `bias` plus, for each tree,
/// `learning_rate * output / SCALE` rounded toward zero.
#[derive(Debug, Clone)]
pub struct Model {
    pub num_features: u64,
    pub bias: i64,
    pub learning_rate: i64,
    pub trees: Vec<Vec<TreeNode>>,
}

/// What a model means: its feature count, bias, learning rate and tree arenas.
pub struct ModelView {
    pub num_features: nat,
    pub bias: int,
    pub learning_rate: int,
    pub trees: Seq<Seq<TreeNode>>,
}

impl View for Model {
    type V = ModelView;

    open spec fn view(&self) -> ModelView {
        ModelView {
            num_features: self.num_features as nat,
            bias: self.bias as int,
            learning_rate: self.learning_rate as int,
            trees: Seq::new(self.trees@.len(), |i: int| self.trees@[i]@),
        }
    }
}

pub open spec fn model_wf(m: ModelView) -> bool {
    &&& abs(m.bias) <= VALUE_LIMIT
    &&& 0 <= m.learning_rate <= SCALE
    &&& forall|t: int|
        0 <= t < m.trees.len() ==> tree_wf(#[trigger] m.trees[t], m.num_features as int)
            && weights_bounded(m.trees[t], LEAF_LIMIT as int)
}

/// The contribution of one tree to the row whose features start at `data[base]`.
pub open spec fn tree_term(lr: int, nodes: Seq<TreeNode>, data: Seq<i64>, base: int) -> int {
    trunc_div(lr * eval_node(nodes, 0, data, base), SCALE as int)
}

/// The contributions of the first `k` trees.
pub open spec fn sum_terms(m: ModelView, k: int, data: Seq<i64>, base: int) -> int
    decreases k,
{
    if k <= 0 {
        0
    } else {
        sum_terms(m, k - 1, data, base) + tree_term(m.learning_rate, m.trees[k - 1], data, base)
    }
}

/// The model's prediction for the row whose features start at `data[base]`.
pub open spec fn predict_row(m: ModelView, data: Seq<i64>, base: int) -> int {
    m.bias + sum_terms(m, m.trees.len() as int, data, base)
}

pub open spec fn fits_i64(x: int) -> bool {
    i64::MIN <= x <= i64::MAX
}

/// The predictions of every row of an `n` by `c` matrix, when each fits an `i64`.
pub open spec fn predict_all(m: ModelView, data: Seq<i64>, n: int, c: int) -> Option<Seq<i64>> {
    if forall|r: int| 0 <= r < n ==> fits_i64(#[trigger] predict_row(m, data, r * c)) {
        Some(Seq::new(n as nat, |r: int| predict_row(m, data, r * c) as i64))
    } else {
        None
    }
}

proof fn lemma_term_bounded(lr: int, nodes: Seq<TreeNode>, data: Seq<i64>, base: int)
    requires
        0 <= lr <= SCALE,
        weights_bounded(nodes, LEAF_LIMIT as int),
    ensures
        abs(tree_term(lr, nodes, data, base)) <= LEAF_LIMIT,
        abs(lr * eval_node(nodes, 0, data, base)) <= SCALE * LEAF_LIMIT,
{
    lemma_eval_bounded(nodes, 0, data, base, LEAF_LIMIT as int);
    let e = eval_node(nodes, 0, data, base);
    assert(abs(lr * e) <= LEAF_LIMIT * SCALE) by (nonlinear_arith)
        requires
            0 <= lr <= SCALE,
            abs(e) <= LEAF_LIMIT,
    ;
    crate::fixed::lemma_trunc_div_bound(lr * e, SCALE as int, LEAF_LIMIT as int);
}

/// The prediction for row `r`, accumulated wide.
fn predict_one(m: &Model, data: &Vec<i64>, base: usize) -> (r: i128)
    requires
        model_wf(m@),
        base + m.num_features <= data@.len(),
    ensures
        r as int == predict_row(m@, data@, base as int),
{
    let mut acc: i128 = m.bias as i128;
    let mut t: usize = 0;
    let nt = m.trees.len();
    let dl = data.len();
    assert(m.num_features <= dl);
    let nf = m.num_features as usize;
    while t < nt
        invariant
            model_wf(m@),
            base + m.num_features <= data@.len(),
            nt == m.trees@.len(),
            nf == m.num_features,
            t <= nt,
            acc as int == m@.bias + sum_terms(m@, t as int, data@, base as int),
            abs(acc as int) <= VALUE_LIMIT + t * LEAF_LIMIT,
        decreases nt - t,
    {
        proof {
            assert(m@.trees[t as int] == m.trees@[t as int]@);
            assert(tree_wf(m@.trees[t as int], m@.num_features as int));
            lemma_term_bounded(m.learning_rate as int, m@.trees[t as int], data@, base as int);
        }
        let w = eval_tree(&m.trees[t], data, base, nf);
        let term = div_trunc_i128(m.learning_rate as i128 * w as i128, SCALE as i128);
        acc = acc + term;
        t += 1;
    }
    acc
}

/// Gradients of the squared-error loss: prediction minus label, per row.
pub open spec fn gradients(preds: Seq<i64>, labels: Seq<i64>) -> Seq<i64> {
    Seq::new(preds.len(), |i: int| (preds[i] - labels[i]) as i64)
}

/// Sum of the first `k` labels.
pub open spec fn sum_labels(labels: Seq<i64>, k: int) -> int
    decreases k,
{
    if k <= 0 {
        0
    } else {
        sum_labels(labels, k - 1) + labels[k - 1] as int
    }
}

/// The starting prediction: the mean label, rounded toward zero.
pub open spec fn base_score(labels: Seq<i64>) -> int {
    trunc_div(sum_labels(labels, labels.len() as int), labels.len() as int)
}

/// Smallest value of feature `f` over the first `k` rows (0 for no rows).
pub open spec fn col_min(d: Seq<i64>, c: int, f: int, k: int) -> i64
    decreases k,
{
    if k <= 0 {
        0
    } else if k == 1 {
        d[f]
    } else {
        let m = col_min(d, c, f, k - 1);
        let v = d[(k - 1) * c + f];
        if v < m {
            v
        } else {
            m
        }
    }
}

/// Largest value of feature `f` over the first `k` rows (0 for no rows).
pub open spec fn col_max(d: Seq<i64>, c: int, f: int, k: int) -> i64
    decreases k,
{
    if k <= 0 {
        0
    } else if k == 1 {
        d[f]
    } else {
        let m = col_max(d, c, f, k - 1);
        let v = d[(k - 1) * c + f];
        if v > m {
            v
        } else {
            m
        }
    }
}

pub open spec fn lows(d: Seq<i64>, c: int, n: int) -> Seq<i64> {
    Seq::new(c as nat, |f: int| col_min(d, c, f, n))
}

pub open spec fn highs(d: Seq<i64>, c: int, n: int) -> Seq<i64> {
    Seq::new(c as nat, |f: int| col_max(d, c, f, n))
}

/// The predictions after adding `tree` to every row's running prediction, when
/// each stays within `VALUE_LIMIT`.
pub open spec fn advance(
    preds: Seq<i64>,
    tree: Seq<TreeNode>,
    lr: int,
    d: Seq<i64>,
    c: int,
) -> Option<Seq<i64>> {
    if forall|i: int|
        0 <= i < preds.len() ==> abs(#[trigger] next_pred(preds, tree, lr, d, c, i)) <= VALUE_LIMIT {
        Some(Seq::new(preds.len(), |i: int| next_pred(preds, tree, lr, d, c, i) as i64))
    } else {
        None
    }
}

/// Row `i`'s running prediction after adding `tree`.
pub open spec fn next_pred(
    preds: Seq<i64>,
    tree: Seq<TreeNode>,
    lr: int,
    d: Seq<i64>,
    c: int,
    i: int,
) -> int {
    preds[i] as int + tree_term(lr, tree, d, i * c)
}

/// The trees and running predictions after `rounds` rounds of boosting on `n`
/// rows of `c` features, or the round at which a prediction left the range.
pub open spec fn boost_rounds(
    d: Seq<i64>,
    c: int,
    n: int,
    labels: Seq<i64>,
    cfg: Config,
    rounds: nat,
) -> Result<(Seq<Seq<TreeNode>>, Seq<i64>), nat>
    decreases rounds,
{
    if rounds == 0 {
        Ok((seq![], Seq::new(n as nat, |i: int| base_score(labels) as i64)))
    } else {
        match boost_rounds(d, c, n, labels, cfg, (rounds - 1) as nat) {
            Err(e) => Err(e),
            Ok(state) => {
                let tree = grow(
                    d,
                    c,
                    gradients(state.1, labels),
                    lows(d, c, n),
                    highs(d, c, n),
                    cfg.tree,
                    all_rows(n),
                    0,
                    0,
                );
                match advance(state.1, tree, cfg.learning_rate as int, d, c) {
                    None => Err((rounds - 1) as nat),
                    Some(next) => Ok((state.0.push(tree), next)),
                }
            },
        }
    }
}

/// A matrix whose labels are set and in range, with between 1 and `MAX_ROWS` rows.
pub open spec fn trainable(ds: &DMatrix) -> bool {
    &&& ds.spec_labels() is Some
    &&& labels_ok(ds.spec_labels().unwrap())
    &&& 1 <= ds.spec_rows() <= MAX_ROWS
}

/// The model that `rounds` rounds of training give, or why training fails.
pub open spec fn trained(ds: &DMatrix, cfg: Config, rounds: nat) -> Result<ModelView, XGBoostError> {
    if ds.spec_labels() is None {
        Err(XGBoostError::NoLabels)
    } else if ds.spec_rows() > MAX_ROWS || !labels_ok(ds.spec_labels().unwrap()) {
        Err(XGBoostError::Range)
    } else if ds.spec_rows() == 0 {
        if rounds == 0 {
            Ok(
                ModelView {
                    num_features: ds.spec_cols(),
                    bias: 0,
                    learning_rate: cfg.learning_rate as int,
                    trees: seq![],
                },
            )
        } else {
            Err(XGBoostError::Train(0))
        }
    } else {
        let labels = ds.spec_labels().unwrap();
        match boost_rounds(
            ds.spec_data(),
            ds.spec_cols() as int,
            ds.spec_rows() as int,
            labels,
            cfg,
            rounds,
        ) {
            Err(e) => Err(XGBoostError::Overflow(e as usize)),
            Ok(state) => Ok(
                ModelView {
                    num_features: ds.spec_cols(),
                    bias: base_score(labels),
                    learning_rate: cfg.learning_rate as int,
                    trees: state.0,
                },
            ),
        }
    }
}


proof fn lemma_rounds_fail_early(
    d: Seq<i64>,
    c: int,
    n: int,
    labels: Seq<i64>,
    cfg: Config,
    k: nat,
)
    ensures
        boost_rounds(d, c, n, labels, cfg, k) matches Err(e) ==> e < k,
    decreases k,
{
    if k > 0 {
        lemma_rounds_fail_early(d, c, n, labels, cfg, (k - 1) as nat);
    }
}

/// A failing round is one of the rounds asked for.
pub proof fn lemma_failed_round_requested(ds: &DMatrix, cfg: Config, rounds: nat)
    requires
        rounds <= usize::MAX,
    ensures
        trained(ds, cfg, rounds) matches Err(XGBoostError::Train(r)) ==> r < rounds,
        trained(ds, cfg, rounds) matches Err(XGBoostError::Overflow(r)) ==> r < rounds,
{
    if ds.spec_labels() is Some {
        lemma_rounds_fail_early(
            ds.spec_data(),
            ds.spec_cols() as int,
            ds.spec_rows() as int,
            ds.spec_labels().unwrap(),
            cfg,
            rounds,
        );
    }
}

proof fn lemma_rounds_stay_failed(
    d: Seq<i64>,
    c: int,
    n: int,
    labels: Seq<i64>,
    cfg: Config,
    k: nat,
    k2: nat,
)
    requires
        k <= k2,
        boost_rounds(d, c, n, labels, cfg, k) is Err,
    ensures
        boost_rounds(d, c, n, labels, cfg, k2) == boost_rounds(d, c, n, labels, cfg, k),
    decreases k2,
{
    if k < k2 {
        lemma_rounds_stay_failed(d, c, n, labels, cfg, k, (k2 - 1) as nat);
    }
}

proof fn lemma_row_end(r: int, n: int, c: int)
    requires
        0 <= r < n,
        c >= 0,
    ensures
        0 <= r * c,
        r * c + c <= n * c,
{
    assert(0 <= r * c && r * c + c <= n * c) by (nonlinear_arith)
        requires
            0 <= r < n,
            c >= 0,
    ;
}

/// The value range of every feature over all `n` rows.
fn column_ranges(data: &Vec<i64>, c: usize, n: usize) -> (r: (Vec<i64>, Vec<i64>))
    requires
        data@.len() == n * c,
        n >= 1,
    ensures
        r.0@ == lows(data@, c as int, n as int),
        r.1@ == highs(data@, c as int, n as int),
{
    let mut lo: Vec<i64> = Vec::new();
    let mut hi: Vec<i64> = Vec::new();
    let mut f: usize = 0;
    while f < c
        invariant
            data@.len() == n * c,
            n >= 1,
            f <= c,
            lo@ == lows(data@, c as int, n as int).take(f as int),
            hi@ == highs(data@, c as int, n as int).take(f as int),
        decreases c - f,
    {
        proof {
            lemma_cell(0, f as int, n as int, c as int);
        }
        let mut mn = data[f];
        let mut mx = data[f];
        let mut k: usize = 1;
        while k < n
            invariant
                data@.len() == n * c,
                f < c,
                1 <= k <= n,
                mn == col_min(data@, c as int, f as int, k as int),
                mx == col_max(data@, c as int, f as int, k as int),
            decreases n - k,
        {
            proof {
                lemma_cell(k as int, f as int, n as int, c as int);
            }
            let room: usize = data.len() - f;
            assert(k * c <= room) by (nonlinear_arith)
                requires
                    k * c + f < data@.len(),
                    room == data@.len() - f,
            ;
            let v = data[k * c + f];
            if v < mn {
                mn = v;
            }
            if v > mx {
                mx = v;
            }
            k += 1;
        }
        lo.push(mn);
        hi.push(mx);
        f += 1;
        assert(lo@ =~= lows(data@, c as int, n as int).take(f as int));
        assert(hi@ =~= highs(data@, c as int, n as int).take(f as int));
    }
    assert(lo@ =~= lows(data@, c as int, n as int));
    assert(hi@ =~= highs(data@, c as int, n as int));
    (lo, hi)
}

/// The mean label rounded toward zero.
fn mean_label(labels: &Vec<i64>) -> (r: i64)
    requires
        1 <= labels@.len() <= MAX_ROWS,
        forall|i: int|
            0 <= i < labels@.len() ==> -VALUE_LIMIT <= #[trigger] labels@[i] <= VALUE_LIMIT,
    ensures
        r as int == base_score(labels@),
        abs(r as int) <= VALUE_LIMIT,
{
    let mut s: i64 = 0;
    let mut k: usize = 0;
    while k < labels.len()
        invariant
            labels@.len() <= MAX_ROWS,
            forall|i: int|
                0 <= i < labels@.len() ==> -VALUE_LIMIT <= #[trigger] labels@[i] <= VALUE_LIMIT,
            k <= labels@.len(),
            s as int == sum_labels(labels@, k as int),
            abs(s as int) <= k * VALUE_LIMIT,
        decreases labels@.len() - k,
    {
        s = s + labels[k];
        k += 1;
    }
    proof {
        crate::fixed::lemma_trunc_div_bound(s as int, k as int, VALUE_LIMIT as int);
        assert(abs(s as int) <= VALUE_LIMIT * k) by (nonlinear_arith)
            requires
                abs(s as int) <= k * VALUE_LIMIT,
        ;
        crate::fixed::lemma_trunc_div_bound(s as int, k as int, VALUE_LIMIT as int);
    }
    div_trunc_i128(s as i128, labels.len() as i128) as i64
}

pub open spec fn trees_view(ts: Seq<Vec<TreeNode>>) -> Seq<Seq<TreeNode>> {
    Seq::new(ts.len(), |i: int| ts[i]@)
}

/// Runs `rounds` rounds of boosting with `cfg`.
fn fit_model(dtrain: &DMatrix, cfg: Config, rounds: usize) -> (r: Result<Model, XGBoostError>)
    requires
        dtrain.wf(),
        config_ok(cfg),
    ensures
        match trained(dtrain, cfg, rounds as nat) {
            Err(e) => r == Err::<Model, XGBoostError>(e),
            Ok(mv) => r matches Ok(m) && m@ == mv && model_wf(m@),
        },
{
    proof {
        dtrain.lemma_wf();
    }
    let labels = match dtrain.label_values() {
        None => {
            return Err(XGBoostError::NoLabels);
        },
        Some(l) => l,
    };
    let rows = dtrain.num_rows();
    if rows > MAX_ROWS {
        return Err(XGBoostError::Range);
    }
    let mut q: usize = 0;
    while q < labels.len()
        invariant
            q <= labels@.len(),
            dtrain.spec_labels() == Some(labels@),
            dtrain.wf(),
            rows == dtrain.spec_rows(),
            rows <= MAX_ROWS,
            forall|i: int| 0 <= i < q ==> -VALUE_LIMIT <= #[trigger] labels@[i] <= VALUE_LIMIT,
        decreases labels@.len() - q,
    {
        if labels[q] < -VALUE_LIMIT || labels[q] > VALUE_LIMIT {
            assert(!labels_ok(labels@));
            return Err(XGBoostError::Range);
        }
        q += 1;
    }
    assert(labels_ok(labels@));
    if rows == 0 {
        if rounds == 0 {
            let empty = Model {
                num_features: dtrain.num_cols(),
                bias: 0,
                learning_rate: cfg.learning_rate,
                trees: Vec::new(),
            };
            assert(empty@.trees =~= seq![]);
            return Ok(empty);
        }
        return Err(XGBoostError::Train(0));
    }
    let data = dtrain.values();
    let n = rows as usize;
    let cols = dtrain.num_cols();
    let dl = data.len();
    assert(cols <= dl) by (nonlinear_arith)
        requires
            dl == rows * cols,
            rows >= 1,
    ;
    let c = cols as usize;
    let (lo, hi) = column_ranges(data, c, n);
    let bias = mean_label(labels);
    let mut preds: Vec<i64> = Vec::new();
    let mut i: usize = 0;
    while i < n
        invariant
            i <= n,
            preds@ == Seq::new(i as nat, |j: int| bias),
        decreases n - i,
    {
        preds.push(bias);
        i += 1;
        assert(preds@ =~= Seq::new(i as nat, |j: int| bias));
    }
    let ghost d = data@;
    let ghost ls = labels@;
    let mut trees: Vec<Vec<TreeNode>> = Vec::new();
    let mut round: usize = 0;
    assert(Seq::new(n as nat, |q: int| base_score(ls) as i64) =~= preds@);
    assert(trees_view(trees@) =~= seq![]);
    while round < rounds
        invariant
            d == data@,
            ls == labels@,
            dtrain.spec_data() == d,
            dtrain.spec_labels() == Some(ls),
            dtrain.spec_rows() == n,
            dtrain.spec_cols() == c,
            d.len() == n * c,
            1 <= n <= MAX_ROWS,
            ls.len() == n,
            labels_ok(ls),
            config_ok(cfg),
            lo@ == lows(d, c as int, n as int),
            hi@ == highs(d, c as int, n as int),
            round <= rounds,
            boost_rounds(d, c as int, n as int, ls, cfg, round as nat) == Ok::<
                (Seq<Seq<TreeNode>>, Seq<i64>),
                nat,
            >((trees_view(trees@), preds@)),
            preds@.len() == n,
            forall|j: int| 0 <= j < n ==> abs(#[trigger] preds@[j] as int) <= VALUE_LIMIT,
            forall|t: int|
                0 <= t < trees@.len() ==> tree_wf(#[trigger] trees@[t]@, c as int)
                    && weights_bounded(trees@[t]@, LEAF_LIMIT as int),
        decreases rounds - round,
    {
        let mut grads: Vec<i64> = Vec::new();
        let mut j: usize = 0;
        while j < n
            invariant
                preds@.len() == n,
                ls == labels@,
                ls.len() == n,
                labels_ok(ls),
                forall|q: int| 0 <= q < n ==> abs(#[trigger] preds@[q] as int) <= VALUE_LIMIT,
                j <= n,
                grads@ == gradients(preds@, ls).take(j as int),
                round < rounds,
                d == data@,
                dtrain.spec_data() == d,
                dtrain.spec_labels() == Some(ls),
                dtrain.spec_rows() == n,
                dtrain.spec_cols() == c,
                d.len() == n * c,
                1 <= n <= MAX_ROWS,
                config_ok(cfg),
                lo@ == lows(d, c as int, n as int),
                hi@ == highs(d, c as int, n as int),
                boost_rounds(d, c as int, n as int, ls, cfg, round as nat) == Ok::<
                    (Seq<Seq<TreeNode>>, Seq<i64>),
                    nat,
                >((trees_view(trees@), preds@)),
                forall|t: int|
                    0 <= t < trees@.len() ==> tree_wf(#[trigger] trees@[t]@, c as int)
                        && weights_bounded(trees@[t]@, LEAF_LIMIT as int),
            decreases n - j,
        {
            let gv = preds[j] - labels[j];
            grads.push(gv);
            j += 1;
            assert(grads@ =~= gradients(preds@, ls).take(j as int));
        }
        assert(grads@ =~= gradients(preds@, ls));
        let tree = build_tree(data, c, n, &grads, &lo, &hi, cfg.tree);
        let ghost tv = tree@;
        let mut next: Vec<i64> = Vec::new();
        let mut j: usize = 0;
        while j < n
            invariant
                labels_ok(ls),
                d == data@,
                d.len() == n * c,
                preds@.len() == n,
                config_ok(cfg),
                tree_wf(tree@, c as int),
                weights_bounded(tree@, LEAF_LIMIT as int),
                j <= n,
                next@.len() == j,
                forall|q: int|
                    0 <= q < j ==> #[trigger] next@[q] as int == preds@[q] as int + tree_term(
                        cfg.learning_rate as int,
                        tree@,
                        d,
                        q * c,
                    ),
                forall|q: int| 0 <= q < j ==> abs(#[trigger] next@[q] as int) <= VALUE_LIMIT,
                forall|q: int| 0 <= q < n ==> abs(#[trigger] preds@[q] as int) <= VALUE_LIMIT,
                tv == tree@,
                tree@ == grow(d, c as int, gradients(preds@, ls), lo@, hi@, cfg.tree, all_rows(n as int), 0, 0),
                round < rounds,
                ls == labels@,
                dtrain.spec_data() == d,
                dtrain.spec_labels() == Some(ls),
                dtrain.spec_rows() == n,
                dtrain.spec_cols() == c,
                1 <= n <= MAX_ROWS,
                ls.len() == n,
                lo@ == lows(d, c as int, n as int),
                hi@ == highs(d, c as int, n as int),
                boost_rounds(d, c as int, n as int, ls, cfg, round as nat) == Ok::<
                    (Seq<Seq<TreeNode>>, Seq<i64>),
                    nat,
                >((trees_view(trees@), preds@)),
                forall|t: int|
                    0 <= t < trees@.len() ==> tree_wf(#[trigger] trees@[t]@, c as int)
                        && weights_bounded(trees@[t]@, LEAF_LIMIT as int),
            decreases n - j,
        {
            proof {
                lemma_row_end(j as int, n as int, c as int);
                lemma_term_bounded(cfg.learning_rate as int, tree@, d, j * c);
            }
            let room: usize = data.len() - c;
            assert(j * c <= room);
            let base: usize = j * c;
            let w = eval_tree(&tree, data, base, c);
            let term = div_trunc_i128(cfg.learning_rate as i128 * w as i128, SCALE as i128);
            let np: i128 = preds[j] as i128 + term;
            if np < -(VALUE_LIMIT as i128) || np > VALUE_LIMIT as i128 {
                proof {
                    let k = round as nat;
                    assert(!(abs(next_pred(preds@, tv, cfg.learning_rate as int, d, c as int, j as int)) <= VALUE_LIMIT));
                    assert(advance(preds@, tv, cfg.learning_rate as int, d, c as int) is None);
                    assert(boost_rounds(d, c as int, n as int, ls, cfg, k + 1) == Err::<
                        (Seq<Seq<TreeNode>>, Seq<i64>),
                        nat,
                    >(k));
                    lemma_rounds_stay_failed(d, c as int, n as int, ls, cfg, (k + 1) as nat, rounds as nat);
                }
                return Err(XGBoostError::Overflow(round));
            }
            next.push(np as i64);
            j += 1;
        }
        proof {
            let adv = advance(preds@, tv, cfg.learning_rate as int, d, c as int);
            let lr = cfg.learning_rate as int;
            assert forall|i: int| 0 <= i < preds@.len() implies abs(
                #[trigger] next_pred(preds@, tv, lr, d, c as int, i),
            ) <= VALUE_LIMIT by {
                assert(next@[i] as int == next_pred(preds@, tv, lr, d, c as int, i));
            }
            assert(next@ =~= Seq::new(preds@.len(), |i: int| next_pred(preds@, tv, lr, d, c as int, i) as i64));
            assert(adv == Some(next@));
        }
        let ghost old_tv = trees_view(trees@);
        trees.push(tree);
        preds = next;
        round += 1;
        assert(trees_view(trees@) =~= old_tv.push(tv));
    }
    let model = Model { num_features: cols, bias, learning_rate: cfg.learning_rate, trees };
    proof {
        assert(model@.trees =~= trees_view(model.trees@));
    }
    Ok(model)
}

pub open spec fn labels_ok(ls: Seq<i64>) -> bool {
    forall|i: int| 0 <= i < ls.len() ==> -VALUE_LIMIT <= #[trigger] ls[i] <= VALUE_LIMIT
}


/// A boosted model together with the settings used to train it.
pub struct Booster {
    config: Config,
    model: Model,
}

impl Booster {
    pub closed spec fn spec_config(&self) -> Config {
        self.config
    }

    pub closed spec fn spec_model(&self) -> ModelView {
        self.model@
    }

    pub closed spec fn wf(&self) -> bool {
        config_ok(self.config) && model_wf(self.model@)
    }

    pub proof fn lemma_wf(&self)
        requires
            self.wf(),
        ensures
            config_ok(self.spec_config()),
            model_wf(self.spec_model()),
    {
    }

    /// A booster with the default settings and an empty model (no features,
    /// bias 0, no trees).
    pub fn new() -> (r: Result<Self, XGBoostError>)
        ensures
            r matches Ok(b) && b.wf() && b.spec_config() == default_config()
                && b.spec_model().num_features == 0 && b.spec_model().bias == 0
                && b.spec_model().trees.len() == 0,
    {
        let config = make_default_config();
        let model = Model {
            num_features: 0,
            bias: 0,
            learning_rate: config.learning_rate,
            trees: Vec::new(),
        };
        Ok(Booster { config, model })
    }

    /// Sets one training setting from text (`max_depth`, `max_bin`, `eta` or
    /// `learning_rate`, `lambda` or `reg_lambda`, `gamma` or `min_split_loss`,
    /// `min_child_weight`, `objective`). Keys the engine does not use are
    /// accepted and ignored; an invalid value for a known key fails with
    /// `Config` and changes nothing.
    pub fn set_conf(&mut self, key: &str, value: &str) -> (r: Result<(), XGBoostError>)
        requires
            old(self).wf(),
        ensures
            final(self).wf(),
            final(self).spec_model() == old(self).spec_model(),
            match apply_setting(old(self).spec_config(), key.spec_bytes(), value.spec_bytes()) {
                None => final(self).spec_config() == old(self).spec_config() && (r matches Err(
                    XGBoostError::Config(k, v),
                ) && k@ == key@ && v@ == value@),
                Some(c) => r is Ok && final(self).spec_config() == c,
            },
    {
        match apply(self.config, key, value) {
            Some(c) => {
                self.config = c;
                Ok(())
            },
            None => Err(XGBoostError::Config(key.to_owned(), value.to_owned())),
        }
    }

    /// The settings that the next training run uses.
    pub fn config(&self) -> (r: Config)
        ensures
            r == self.spec_config(),
    {
        self.config
    }

    /// The trained model.
    pub fn model(&self) -> (r: &Model)
        ensures
            r@ == self.spec_model(),
    {
        &self.model
    }

    /// The number of features the model reads.
    pub fn get_number_of_features(&self) -> (r: Result<usize, XGBoostError>)
        ensures
            self.spec_model().num_features <= usize::MAX ==> r == Ok::<usize, XGBoostError>(
                self.spec_model().num_features as usize,
            ),
            self.spec_model().num_features > usize::MAX ==> r matches Err(XGBoostError::GetInfo(_)),
    {
        if self.model.num_features > usize::MAX as u64 {
            Err(XGBoostError::GetInfo("Number of Features".to_owned()))
        } else {
            Ok(self.model.num_features as usize)
        }
    }

    /// Trains a fresh model on `dtrain` for `num_boost` rounds with this
    /// booster's settings; on success it replaces the model, on failure the
    /// booster is left as it was.
    pub fn fit(&mut self, dtrain: &DMatrix, num_boost: usize) -> (r: Result<(), XGBoostError>)
        requires
            old(self).wf(),
            dtrain.wf(),
        ensures
            final(self).wf(),
            final(self).spec_config() == old(self).spec_config(),
            match trained(dtrain, old(self).spec_config(), num_boost as nat) {
                Err(e) => r == Err::<(), XGBoostError>(e) && final(self).spec_model() == old(
                    self,
                ).spec_model(),
                Ok(mv) => r is Ok && final(self).spec_model() == mv,
            },
            r matches Err(XGBoostError::Train(k)) ==> k < num_boost,
            r matches Err(XGBoostError::Overflow(k)) ==> k < num_boost,
    {
        proof {
            lemma_failed_round_requested(dtrain, self.config, num_boost as nat);
        }
        match fit_model(dtrain, self.config, num_boost) {
            Ok(m) => {
                self.model = m;
                Ok(())
            },
            Err(e) => Err(e),
        }
    }

    /// Trains a model with the default settings on `dtrain` for `num_boost`
    /// rounds. The evaluation matrix is not read.
    pub fn train(dtrain: &DMatrix, _dtest: &DMatrix, num_boost: usize) -> (r: Result<
        Self,
        XGBoostError,
    >)
        requires
            dtrain.wf(),
        ensures
            r matches Err(XGBoostError::Train(k)) ==> k < num_boost,
            r matches Err(XGBoostError::Overflow(k)) ==> k < num_boost,
            match trained(dtrain, default_config(), num_boost as nat) {
                Err(e) => r == Err::<Self, XGBoostError>(e),
                Ok(mv) => r matches Ok(b) && b.wf() && b.spec_model() == mv && b.spec_config()
                    == default_config(),
            },
    {
        let config = make_default_config();
        proof {
            lemma_failed_round_requested(dtrain, config, num_boost as nat);
        }
        match fit_model(dtrain, config, num_boost) {
            Ok(model) => Ok(Booster { config, model }),
            Err(e) => Err(e),
        }
    }

    /// The model in the persisted format.
    pub fn save_model(&self) -> (r: Vec<u8>)
        ensures
            r@ == model_bytes(self.spec_model()),
    {
        let ws = encode_words(&self.model);
        encode_bytes(&ws)
    }

    /// Replaces the model with the one that `bytes` holds; fails with `Load`,
    /// leaving the booster as it was, when the bytes are not a well-formed model
    /// of this format version.
    pub fn load_model(&mut self, bytes: &[u8]) -> (r: Result<(), XGBoostError>)
        requires
            old(self).wf(),
        ensures
            final(self).wf(),
            final(self).spec_config() == old(self).spec_config(),
            match model_of_bytes(bytes@) {
                None => r == Err::<(), XGBoostError>(XGBoostError::Load) && final(self).spec_model()
                    == old(self).spec_model(),
                Some(mv) => r is Ok && final(self).spec_model() == mv,
            },
    {
        let ws = match decode_bytes(bytes) {
            None => {
                return Err(XGBoostError::Load);
            },
            Some(ws) => ws,
        };
        match decode_words(&ws) {
            None => Err(XGBoostError::Load),
            Some(m) => {
                self.model = m;
                Ok(())
            },
        }
    }

    /// One prediction per row of `data`: the bias plus each tree's scaled output.
    pub fn predict(&self, data: &DMatrix) -> (r: Result<Vec<i64>, XGBoostError>)
        requires
            self.wf(),
            data.wf(),
        ensures
            data.spec_cols() != self.spec_model().num_features ==> r == Err::<
                Vec<i64>,
                XGBoostError,
            >(XGBoostError::Predict),
            data.spec_cols() == self.spec_model().num_features ==> match predict_all(
                self.spec_model(),
                data.spec_data(),
                data.spec_rows() as int,
                data.spec_cols() as int,
            ) {
                None => r == Err::<Vec<i64>, XGBoostError>(XGBoostError::Predict),
                Some(v) => r matches Ok(out) && out@ == v,
            },
    {
        proof {
            data.lemma_wf();
        }
        let c = data.num_cols();
        if c != self.model.num_features {
            return Err(XGBoostError::Predict);
        }
        let n = data.num_rows();
        let vals = data.values();
        let ghost m = self.model@;
        let ghost d = vals@;
        let mut out: Vec<i64> = Vec::new();
        let mut r: u64 = 0;
        while r < n
            invariant
                model_wf(m),
                m == self.model@,
                d == vals@,
                d == data.spec_data(),
                n == data.spec_rows(),
                c == data.spec_cols(),
                c == m.num_features,
                d.len() == n * c,
                r <= n,
                out@ == Seq::new(r as nat, |q: int| predict_row(m, d, q * c) as i64),
                forall|q: int| 0 <= q < r ==> fits_i64(#[trigger] predict_row(m, d, q * c)),
            decreases n - r,
        {
            proof {
                lemma_row_end(r as int, n as int, c as int);
            }
            let dl = vals.len();
            assert(r * c + c <= dl);
            let base = (r * c) as usize;
            let v = predict_one(&self.model, vals, base);
            if v < i64::MIN as i128 || v > i64::MAX as i128 {
                proof {
                    assert(!fits_i64(predict_row(m, d, r * c)));
                }
                return Err(XGBoostError::Predict);
            }
            out.push(v as i64);
            r += 1;
            assert(out@ =~= Seq::new(r as nat, |q: int| predict_row(m, d, q * c) as i64));
        }
        Ok(out)
    }
}


/// Prediction depends on nothing but the model and the matrix: equal models
/// and equal matrices give identical predictions, call after call.
pub proof fn law_predict_deterministic(
    m1: ModelView,
    m2: ModelView,
    d1: Seq<i64>,
    d2: Seq<i64>,
    n: int,
    c: int,
)
    requires
        m1 == m2,
        d1 == d2,
    ensures
        predict_all(m1, d1, n, c) == predict_all(m2, d2, n, c),
{
}

/// Saving a model and loading the bytes back gives a model that predicts the
/// same values on every matrix.
pub proof fn law_save_load_same_predictions(m: ModelView, data: Seq<i64>, n: int, c: int)
    requires
        model_wf(m),
        m.num_features <= u64::MAX,
        m.trees.len() <= u64::MAX,
        forall|t: int| 0 <= t < m.trees.len() ==> #[trigger] m.trees[t].len() <= u64::MAX,
    ensures
        model_of_bytes(model_bytes(m)) matches Some(m2) && m2 == m && predict_all(m2, data, n, c)
            == predict_all(m, data, n, c),
{
    lemma_model_round_trip(m);
}


// ---------------------------------------------------------------- constant feature

proof fn lemma_col_const(d: Seq<i64>, k: int)
    requires
        1 <= k <= d.len(),
        forall|r: int| 0 <= r < d.len() ==> #[trigger] d[r] == d[0],
    ensures
        col_min(d, 1, 0, k) == d[0],
        col_max(d, 1, 0, k) == d[0],
    decreases k,
{
    if k > 1 {
        lemma_col_const(d, k - 1);
        assert(d[(k - 1) * 1 + 0] == d[0]);
    }
}

/// With every row's value in bin 0, the bins above 0 hold no rows.
proof fn lemma_hist_one_bin(
    d: Seq<i64>,
    g: Seq<i64>,
    rows: Seq<usize>,
    v: i64,
    nb: int,
)
    requires
        nb >= 1,
        forall|i: int| 0 <= i < rows.len() ==> (#[trigger] rows[i]) < d.len(),
        forall|r: int| 0 <= r < d.len() ==> #[trigger] d[r] == v,
    ensures
        forall|b: int| 1 <= b < nb ==> (#[trigger] hist(d, 1, g, rows, 0, v as int, v as int, nb)[b]).1 == 0,
    decreases rows.len(),
{
    lemma_hist_len(d, 1, g, rows, 0, v as int, v as int, nb);
    if rows.len() > 0 {
        let init = rows.drop_last();
        assert forall|i: int| 0 <= i < init.len() implies (#[trigger] init[i]) < d.len() by {
            assert(init[i] == rows[i]);
        }
        lemma_hist_one_bin(d, g, init, v, nb);
        lemma_hist_len(d, 1, g, init, 0, v as int, v as int, nb);
        let r = rows.last() as int;
        assert(rows[rows.len() - 1] < d.len());
        assert(fval(d, 1, r, 0) == v);
        assert(0int * nb == 0);
        assert(bin_of(v as int, v as int, v as int, nb) == 0);
    }
}

proof fn lemma_prefix_c_one_bin(h: Seq<(int, int)>, k: int)
    requires
        1 <= k <= h.len(),
        forall|b: int| 1 <= b < h.len() ==> (#[trigger] h[b]).1 == 0,
    ensures
        prefix_c(h, k) == h[0].1,
    decreases k,
{
    if k > 1 {
        lemma_prefix_c_one_bin(h, k - 1);
        assert(h[k - 1].1 == 0);
    } else {
        assert(prefix_c(h, 0) == 0);
    }
}

proof fn lemma_scan_none(h: Seq<(int, int)>, g: int, cnt: int, p: TreeParams, k: int)
    requires
        1 <= k <= h.len(),
        forall|j: int| 1 <= j <= h.len() ==> prefix_c(h, j) == cnt,
    ensures
        scan_bins(None, 0, h, g, cnt, p, k) is None,
    decreases k,
{
    if k > 1 {
        lemma_scan_none(h, g, cnt, p, k - 1);
        assert(prefix_c(h, k - 1) == cnt);
        assert(!accepted(crate::tree::prefix_g(h, k - 1), prefix_c(h, k - 1), g, cnt, p));
    }
}

pub open spec fn const_seq(len: nat, v: i64) -> Seq<i64> {
    Seq::new(len, |i: int| v)
}

proof fn lemma_sum_grad_bias(labels: Seq<i64>, bias: i64, k: int)
    requires
        0 <= k <= labels.len(),
        labels.len() <= MAX_ROWS,
        labels_ok(labels),
        abs(bias as int) <= VALUE_LIMIT,
    ensures
        sum_grad(gradients(const_seq(labels.len(), bias), labels), all_rows(k)) == k * bias
            - sum_labels(labels, k),
    decreases k,
{
    let preds = const_seq(labels.len(), bias);
    if k > 0 {
        lemma_sum_grad_bias(labels, bias, k - 1);
        assert(all_rows(k).drop_last() =~= all_rows(k - 1));
        assert(all_rows(k).last() == (k - 1) as usize);
        let l = labels[k - 1];
        assert(-VALUE_LIMIT <= l <= VALUE_LIMIT);
        assert(gradients(preds, labels)[k - 1] == (bias - l) as i64);
        assert(gradients(preds, labels)[k - 1] as int == bias - l);
        let gg = gradients(preds, labels);
        assert(sum_grad(gg, all_rows(k)) == sum_grad(gg, all_rows(k - 1)) + gg[k - 1] as int);
        assert((k - 1) * bias + bias == k * bias) by (nonlinear_arith);
    } else {
        assert(k * bias == 0) by (nonlinear_arith)
            requires
                k == 0,
        ;
    }
}

proof fn lemma_sum_labels_bound(labels: Seq<i64>, k: int)
    requires
        0 <= k <= labels.len(),
        labels_ok(labels),
    ensures
        abs(sum_labels(labels, k)) <= k * VALUE_LIMIT,
    decreases k,
{
    if k > 0 {
        lemma_sum_labels_bound(labels, k - 1);
    }
}

/// `n * trunc(s / n)` differs from `s` by less than `n`.
proof fn lemma_trunc_residue(s: int, n: int)
    requires
        n >= 1,
    ensures
        abs(n * trunc_div(s, n) - s) < n,
{
    let a = abs(s);
    vstd::arithmetic::div_mod::lemma_fundamental_div_mod(a, n);
    vstd::arithmetic::div_mod::lemma_mod_bound(a, n);
    let q = a / n;
    let m = a % n;
    if s >= 0 {
        assert(trunc_div(s, n) == q);
        assert(n * q - s == -m);
    } else {
        assert(trunc_div(s, n) == -q);
        assert(n * (-q) == -(n * q)) by (nonlinear_arith);
        assert(n * (-q) - s == m);
    }
}

/// Training one round on a matrix with a single feature that holds the same
/// value in every row gives a model whose prediction is its bias for every row.
pub proof fn law_constant_feature_one_round(ds: &DMatrix, cfg: Config)
    requires
        ds.wf(),
        config_ok(cfg),
        trainable(ds),
        ds.spec_cols() == 1,
        forall|r: int| 0 <= r < ds.spec_rows() ==> #[trigger] ds.spec_data()[r] == ds.spec_data()[0],
    ensures
        trained(ds, cfg, 1) matches Ok(mv) && predict_all(
            mv,
            ds.spec_data(),
            ds.spec_rows() as int,
            1,
        ) == Some(Seq::new(ds.spec_rows(), |r: int| mv.bias as i64)),
{
    ds.lemma_wf();
    let d = ds.spec_data();
    let n = ds.spec_rows() as int;
    let labels = ds.spec_labels().unwrap();
    let v = d[0];
    let p = cfg.tree;
    let nb = p.num_bins as int;
    assert(d.len() == n);
    // the starting prediction
    let s = sum_labels(labels, n);
    lemma_sum_labels_bound(labels, n);
    assert(abs(s) <= VALUE_LIMIT * n) by (nonlinear_arith)
        requires
            abs(s) <= n * VALUE_LIMIT,
    ;
    crate::fixed::lemma_trunc_div_bound(s, n, VALUE_LIMIT as int);
    let bias = base_score(labels);
    let b64 = bias as i64;
    let preds = Seq::new(n as nat, |i: int| b64);
    assert(boost_rounds(d, 1, n, labels, cfg, 0) == Ok::<(Seq<Seq<TreeNode>>, Seq<i64>), nat>(
        (seq![], preds),
    ));
    // the feature's range is the single value
    lemma_col_const(d, n);
    let lo = lows(d, 1, n);
    let hi = highs(d, 1, n);
    assert(lo[0] == v && hi[0] == v);
    // no split is accepted
    let g = gradients(preds, labels);
    let rows = all_rows(n);
    assert forall|r: int| 0 <= r < d.len() implies #[trigger] d[r] == v by {}
    lemma_hist_one_bin(d, g, rows, v, nb);
    let h = hist(d, 1, g, rows, 0, v as int, v as int, nb);
    lemma_hist_len(d, 1, g, rows, 0, v as int, v as int, nb);
    assert forall|j: int| 1 <= j <= h.len() implies prefix_c(h, j) == prefix_c(h, nb) by {
        lemma_prefix_c_one_bin(h, j);
        lemma_prefix_c_one_bin(h, nb);
    }
    lemma_scan_none(h, crate::tree::prefix_g(h, nb), prefix_c(h, nb), p, nb);
    assert(scan_features(d, 1, g, lo, hi, p, rows, 0) is None);
    assert(best_split(d, 1, g, lo, hi, p, rows) is None);
    // the single leaf has weight zero
    assert(preds =~= const_seq(labels.len(), b64));
    lemma_sum_grad_bias(labels, b64, n);
    let sg = sum_grad(g, rows);
    assert(sg == n * bias - s);
    lemma_trunc_residue(s, n);
    let den = n * SCALE + p.lambda;
    let x = abs(sg) * SCALE;
    assert(0 <= x < den) by (nonlinear_arith)
        requires
            x == abs(sg) * SCALE,
            abs(sg) < n,
            den == n * SCALE + p.lambda,
            p.lambda >= 0,
    ;
    vstd::arithmetic::div_mod::lemma_basic_div(x, den);
    assert(abs(sg * SCALE) == x) by (nonlinear_arith)
        requires
            x == abs(sg) * SCALE,
    ;
    assert(leaf_weight(sg, n, p.lambda as int) == 0);
    let tree = seq![TreeNode::Leaf { weight: 0 }];
    assert(grow(d, 1, g, lo, hi, p, rows, 0, 0) == tree);
    // the predictions do not move
    assert forall|i: int| 0 <= i < n implies #[trigger] next_pred(preds, tree, cfg.learning_rate as int, d, 1, i) == bias by {
        assert(eval_node(tree, 0, d, i * 1) == 0);
    }
    assert(advance(preds, tree, cfg.learning_rate as int, d, 1) == Some(
        Seq::new(n as nat, |i: int| next_pred(preds, tree, cfg.learning_rate as int, d, 1, i) as i64),
    ));
    let mv = ModelView {
        num_features: 1,
        bias,
        learning_rate: cfg.learning_rate as int,
        trees: seq![tree],
    };
    assert(trained(ds, cfg, 1) == Ok::<ModelView, XGBoostError>(mv));
    assert forall|r: int| 0 <= r < n implies #[trigger] predict_row(mv, d, r * 1) == bias by {
        assert(eval_node(tree, 0, d, r * 1) == 0);
        assert(sum_terms(mv, 0, d, r * 1) == 0);
    }
    assert(predict_all(mv, d, n, 1) == Some(Seq::new(n as nat, |r: int| predict_row(mv, d, r * 1) as i64)));
    assert(Seq::new(n as nat, |r: int| predict_row(mv, d, r * 1) as i64) =~= Seq::new(
        n as nat,
        |r: int| mv.bias as i64,
    ));
}


proof fn lemma_rounds_first_tree(
    d: Seq<i64>,
    c: int,
    n: int,
    labels: Seq<i64>,
    cfg: Config,
    k: nat,
)
    ensures
        boost_rounds(d, c, n, labels, cfg, k) matches Ok(st) ==> st.0.len() == k && (k >= 1
            ==> st.0[0] == grow(
            d,
            c,
            gradients(const_seq(n as nat, base_score(labels) as i64), labels),
            lows(d, c, n),
            highs(d, c, n),
            cfg.tree,
            all_rows(n),
            0,
            0,
        )),
    decreases k,
{
    if k > 0 {
        lemma_rounds_first_tree(d, c, n, labels, cfg, (k - 1) as nat);
        if k == 1 {
            assert(Seq::new(n as nat, |i: int| base_score(labels) as i64) =~= const_seq(
                n as nat,
                base_score(labels) as i64,
            ));
        }
    }
}

/// Every round of training adds one tree, and the first is grown over all rows
/// from the gradients of the mean label against the labels, with each
/// feature's observed range: `law_node_shape` and `law_split_choice` say which
/// split its root takes, and that among equal gains the lowest feature wins.
pub proof fn law_first_tree(ds: &DMatrix, cfg: Config, rounds: nat)
    requires
        rounds >= 1,
        trainable(ds),
    ensures
        trained(ds, cfg, rounds) matches Ok(mv) ==> mv.trees.len() == rounds && mv.trees[0]
            == grow(
            ds.spec_data(),
            ds.spec_cols() as int,
            gradients(
                const_seq(ds.spec_rows(), base_score(ds.spec_labels().unwrap()) as i64),
                ds.spec_labels().unwrap(),
            ),
            lows(ds.spec_data(), ds.spec_cols() as int, ds.spec_rows() as int),
            highs(ds.spec_data(), ds.spec_cols() as int, ds.spec_rows() as int),
            cfg.tree,
            all_rows(ds.spec_rows() as int),
            0,
            0,
        ),
{
    lemma_rounds_first_tree(
        ds.spec_data(),
        ds.spec_cols() as int,
        ds.spec_rows() as int,
        ds.spec_labels().unwrap(),
        cfg,
        rounds,
    );
}

} // verus!
