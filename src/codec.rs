//! The persisted model format: little-endian 64-bit words.
//!
//! Header: format version, feature count, bias, learning rate, tree count.
//! Each tree: its node count, then five words per node: kind (0 leaf, 1 split),
//! feature, threshold or weight, left child, right child. Signed values are
//! stored offset by 2^63.
use crate::booster::{Model, ModelView, model_wf, trees_view};
use crate::fixed::{SCALE, VALUE_LIMIT, abs};
use crate::tree::{LEAF_LIMIT, tree_wf, weights_bounded};
use crate::tree::TreeNode;
use vstd::prelude::*;

verus! {

/// The format version this engine writes and reads.
pub const FORMAT_VERSION: u64 = 1;

pub const OFFSET: i128 = 0x8000_0000_0000_0000;

pub open spec fn off(x: i64) -> u64 {
    (x as int + OFFSET) as u64
}

pub open spec fn unoff(w: u64) -> i64 {
    (w as int - OFFSET) as i64
}

pub open spec fn node_words(n: TreeNode) -> Seq<u64> {
    match n {
        TreeNode::Leaf { weight } => seq![0u64, 0u64, off(weight), 0u64, 0u64],
        TreeNode::Split { feature, threshold, left, right } => seq![
            1u64,
            feature as u64,
            off(threshold),
            left as u64,
            right as u64,
        ],
    }
}

pub open spec fn nodes_words(ns: Seq<TreeNode>) -> Seq<u64>
    decreases ns.len(),
{
    if ns.len() == 0 {
        seq![]
    } else {
        node_words(ns[0]) + nodes_words(ns.drop_first())
    }
}

pub open spec fn trees_words(ts: Seq<Seq<TreeNode>>) -> Seq<u64>
    decreases ts.len(),
{
    if ts.len() == 0 {
        seq![]
    } else {
        seq![ts[0].len() as u64] + nodes_words(ts[0]) + trees_words(ts.drop_first())
    }
}

/// The words of a model.
pub open spec fn model_words(m: ModelView) -> Seq<u64> {
    seq![
        FORMAT_VERSION,
        m.num_features as u64,
        off(m.bias as i64),
        off(m.learning_rate as i64),
        m.trees.len() as u64,
    ] + trees_words(m.trees)
}

/// The node held by the five words at `pos`.
pub open spec fn node_at(ws: Seq<u64>, pos: int) -> Option<TreeNode> {
    if pos < 0 || pos + 5 > ws.len() {
        None
    } else if ws[pos] == 0 {
        Some(TreeNode::Leaf { weight: unoff(ws[pos + 2]) })
    } else if ws[pos] == 1 && ws[pos + 1] <= usize::MAX && ws[pos + 3] <= usize::MAX && ws[pos
        + 4] <= usize::MAX {
        Some(
            TreeNode::Split {
                feature: ws[pos + 1] as usize,
                threshold: unoff(ws[pos + 2]),
                left: ws[pos + 3] as usize,
                right: ws[pos + 4] as usize,
            },
        )
    } else {
        None
    }
}

/// The `k` nodes that start at `pos`.
pub open spec fn nodes_at(ws: Seq<u64>, pos: int, k: nat) -> Option<Seq<TreeNode>>
    decreases k,
{
    if k == 0 {
        Some(seq![])
    } else {
        match node_at(ws, pos) {
            None => None,
            Some(n) => match nodes_at(ws, pos + 5, (k - 1) as nat) {
                None => None,
                Some(rest) => Some(seq![n] + rest),
            },
        }
    }
}

/// The `k` trees that start at `pos` and end exactly at the end of `ws`.
pub open spec fn trees_at(ws: Seq<u64>, pos: int, k: nat) -> Option<Seq<Seq<TreeNode>>>
    decreases k,
{
    if k == 0 {
        if pos == ws.len() {
            Some(seq![])
        } else {
            None
        }
    } else if pos < 0 || pos >= ws.len() {
        None
    } else {
        let len = ws[pos] as int;
        match nodes_at(ws, pos + 1, len as nat) {
            None => None,
            Some(ns) => match trees_at(ws, pos + 1 + 5 * len, (k - 1) as nat) {
                None => None,
                Some(rest) => Some(seq![ns] + rest),
            },
        }
    }
}

/// The model that `ws` holds, if it is of this format and well formed.
pub open spec fn model_of_words(ws: Seq<u64>) -> Option<ModelView> {
    if ws.len() < 5 || ws[0] != FORMAT_VERSION {
        None
    } else {
        match trees_at(ws, 5, ws[4] as nat) {
            None => None,
            Some(ts) => {
                let m = ModelView {
                    num_features: ws[1] as nat,
                    bias: unoff(ws[2]) as int,
                    learning_rate: unoff(ws[3]) as int,
                    trees: ts,
                };
                if model_wf(m) {
                    Some(m)
                } else {
                    None
                }
            },
        }
    }
}

// ---------------------------------------------------------------- round trip

proof fn lemma_nodes_round_trip(ws: Seq<u64>, pos: int, ns: Seq<TreeNode>)
    requires
        0 <= pos,
        pos + 5 * ns.len() <= ws.len(),
        ws.subrange(pos, pos + 5 * ns.len()) == nodes_words(ns),
    ensures
        nodes_at(ws, pos, ns.len()) == Some(ns),
    decreases ns.len(),
{
    if ns.len() > 0 {
        let nw = node_words(ns[0]);
        let rest = ns.drop_first();
        assert(nodes_words(ns) == nw + nodes_words(rest));
        assert(ws.subrange(pos + 5, pos + 5 + 5 * rest.len()) =~= nodes_words(rest)) by {
            assert(ws.subrange(pos, pos + 5 * ns.len()).subrange(5, 5 * ns.len() as int) =~= ws.subrange(
                pos + 5,
                pos + 5 + 5 * rest.len(),
            ));
        }
        lemma_nodes_round_trip(ws, pos + 5, rest);
        assert forall|j: int| 0 <= j < 5 implies ws[pos + j] == nw[j] by {
            assert(ws.subrange(pos, pos + 5 * ns.len())[j] == ws[pos + j]);
        }
        assert(node_at(ws, pos) == Some(ns[0]));
        assert(seq![ns[0]] + rest =~= ns);
    }
}

proof fn lemma_nodes_words_len(ns: Seq<TreeNode>)
    ensures
        nodes_words(ns).len() == 5 * ns.len(),
    decreases ns.len(),
{
    if ns.len() > 0 {
        lemma_nodes_words_len(ns.drop_first());
    }
}

proof fn lemma_trees_round_trip(ws: Seq<u64>, pos: int, ts: Seq<Seq<TreeNode>>)
    requires
        0 <= pos <= ws.len(),
        ws.subrange(pos, ws.len() as int) == trees_words(ts),
        forall|t: int| 0 <= t < ts.len() ==> #[trigger] ts[t].len() <= u64::MAX,
    ensures
        trees_at(ws, pos, ts.len()) == Some(ts),
    decreases ts.len(),
{
    if ts.len() == 0 {
        assert(ws.subrange(pos, ws.len() as int).len() == 0);
    } else {
        let t0 = ts[0];
        let rest = ts.drop_first();
        let nw = nodes_words(t0);
        lemma_nodes_words_len(t0);
        let tail = ws.subrange(pos, ws.len() as int);
        assert(tail == seq![t0.len() as u64] + nw + trees_words(rest));
        assert(tail.len() == 1 + 5 * t0.len() + trees_words(rest).len());
        assert(pos < ws.len());
        assert(ws[pos] == t0.len() as u64) by {
            assert(tail[0] == ws[pos]);
        }
        let len = ws[pos] as int;
        assert(len == t0.len());
        assert(ws.subrange(pos + 1, pos + 1 + 5 * len) =~= nw) by {
            assert(tail.subrange(1, 1 + 5 * len) =~= ws.subrange(pos + 1, pos + 1 + 5 * len));
            assert(tail.subrange(1, 1 + 5 * len) =~= nw);
        }
        lemma_nodes_round_trip(ws, pos + 1, t0);
        assert(ws.subrange(pos + 1 + 5 * len, ws.len() as int) =~= trees_words(rest)) by {
            assert(tail.subrange(1 + 5 * len, tail.len() as int) =~= ws.subrange(
                pos + 1 + 5 * len,
                ws.len() as int,
            ));
            assert(tail.subrange(1 + 5 * len, tail.len() as int) =~= trees_words(rest));
        }
        assert forall|t: int| 0 <= t < rest.len() implies #[trigger] rest[t].len() <= u64::MAX by {
            assert(rest[t] == ts[t + 1]);
        }
        lemma_trees_round_trip(ws, pos + 1 + 5 * len, rest);
        assert(seq![t0] + rest =~= ts);
    }
}

/// Reading back the words of a well-formed model gives the same model.
pub proof fn lemma_words_round_trip(m: ModelView)
    requires
        model_wf(m),
        m.num_features <= u64::MAX,
        m.trees.len() <= u64::MAX,
        forall|t: int| 0 <= t < m.trees.len() ==> #[trigger] m.trees[t].len() <= u64::MAX,
    ensures
        model_of_words(model_words(m)) == Some(m),
{
    let ws = model_words(m);
    assert(ws.subrange(5, ws.len() as int) =~= trees_words(m.trees));
    lemma_trees_round_trip(ws, 5, m.trees);
    let m2 = ModelView {
        num_features: ws[1] as nat,
        bias: unoff(ws[2]) as int,
        learning_rate: unoff(ws[3]) as int,
        trees: m.trees,
    };
    assert(m2 == m);
}


// ---------------------------------------------------------------- encoding

proof fn lemma_nodes_words_push(ns: Seq<TreeNode>, x: TreeNode)
    ensures
        nodes_words(ns.push(x)) == nodes_words(ns) + node_words(x),
    decreases ns.len(),
{
    if ns.len() == 0 {
        assert(ns.push(x).drop_first() =~= seq![]);
        assert(ns.push(x)[0] == x);
        assert(nodes_words(ns.push(x).drop_first()) == Seq::<u64>::empty());
        assert(nodes_words(ns) == Seq::<u64>::empty());
        assert(nodes_words(ns.push(x)) =~= node_words(x));
    } else {
        assert(ns.push(x).drop_first() =~= ns.drop_first().push(x));
        lemma_nodes_words_push(ns.drop_first(), x);
        assert(nodes_words(ns.push(x)) =~= nodes_words(ns) + node_words(x));
    }
}

proof fn lemma_trees_words_push(ts: Seq<Seq<TreeNode>>, x: Seq<TreeNode>)
    ensures
        trees_words(ts.push(x)) == trees_words(ts) + (seq![x.len() as u64] + nodes_words(x)),
    decreases ts.len(),
{
    if ts.len() == 0 {
        assert(ts.push(x).drop_first() =~= seq![]);
        assert(ts.push(x)[0] == x);
        assert(trees_words(ts.push(x).drop_first()) == Seq::<u64>::empty());
        assert(trees_words(ts) == Seq::<u64>::empty());
        assert(trees_words(ts.push(x)) =~= seq![x.len() as u64] + nodes_words(x));
    } else {
        assert(ts.push(x).drop_first() =~= ts.drop_first().push(x));
        lemma_trees_words_push(ts.drop_first(), x);
        assert(trees_words(ts.push(x)) =~= trees_words(ts) + (seq![x.len() as u64] + nodes_words(x)));
    }
}

fn push_node(out: &mut Vec<u64>, n: TreeNode)
    ensures
        final(out)@ == old(out)@ + node_words(n),
{
    match n {
        TreeNode::Leaf { weight } => {
            out.push(0);
            out.push(0);
            out.push((weight as i128 + OFFSET) as u64);
            out.push(0);
            out.push(0);
        },
        TreeNode::Split { feature, threshold, left, right } => {
            out.push(1);
            out.push(feature as u64);
            out.push((threshold as i128 + OFFSET) as u64);
            out.push(left as u64);
            out.push(right as u64);
        },
    }
    assert(final(out)@ =~= old(out)@ + node_words(n));
}

/// The words of `m`.
pub fn encode_words(m: &Model) -> (r: Vec<u64>)
    ensures
        r@ == model_words(m@),
{
    let mut out: Vec<u64> = Vec::new();
    out.push(FORMAT_VERSION);
    out.push(m.num_features);
    out.push((m.bias as i128 + OFFSET) as u64);
    out.push((m.learning_rate as i128 + OFFSET) as u64);
    out.push(m.trees.len() as u64);
    let ghost header = out@;
    let mut t: usize = 0;
    assert(trees_view(m.trees@).take(0) =~= seq![]);
    assert(out@ =~= header + trees_words(trees_view(m.trees@).take(0)));
    while t < m.trees.len()
        invariant
            t <= m.trees@.len(),
            out@ == header + trees_words(trees_view(m.trees@).take(t as int)),
        decreases m.trees@.len() - t,
    {
        let nodes = &m.trees[t];
        let ghost before = out@;
        out.push(nodes.len() as u64);
        let mut k: usize = 0;
        assert(nodes@.take(0) =~= seq![]);
        while k < nodes.len()
            invariant
                k <= nodes@.len(),
                out@ == before + seq![nodes@.len() as u64] + nodes_words(nodes@.take(k as int)),
            decreases nodes@.len() - k,
        {
            push_node(&mut out, nodes[k]);
            proof {
                lemma_nodes_words_push(nodes@.take(k as int), nodes@[k as int]);
                assert(nodes@.take(k as int + 1) =~= nodes@.take(k as int).push(nodes@[k as int]));
            }
            k += 1;
            assert(out@ =~= before + seq![nodes@.len() as u64] + nodes_words(nodes@.take(k as int)));
        }
        proof {
            assert(nodes@.take(k as int) =~= nodes@);
            let tv = trees_view(m.trees@);
            lemma_trees_words_push(tv.take(t as int), nodes@);
            assert(tv.take(t as int + 1) =~= tv.take(t as int).push(nodes@));
        }
        t += 1;
        assert(out@ =~= header + trees_words(trees_view(m.trees@).take(t as int)));
    }
    assert(trees_view(m.trees@).take(t as int) =~= trees_view(m.trees@));
    assert(m@.trees =~= trees_view(m.trees@));
    out
}

// ---------------------------------------------------------------- decoding

pub open spec fn prepend<T>(acc: Seq<T>, rest: Option<Seq<T>>) -> Option<Seq<T>> {
    match rest {
        None => None,
        Some(r) => Some(acc + r),
    }
}

fn read_node(ws: &Vec<u64>, pos: usize) -> (r: Option<TreeNode>)
    requires
        pos + 5 <= ws@.len(),
    ensures
        r == node_at(ws@, pos as int),
{
    let dl = ws.len();
    let tag = ws[pos];
    if tag == 0 {
        Some(TreeNode::Leaf { weight: (ws[pos + 2] as i128 - OFFSET) as i64 })
    } else if tag == 1 && ws[pos + 1] <= usize::MAX as u64 && ws[pos + 3] <= usize::MAX as u64
        && ws[pos + 4] <= usize::MAX as u64 {
        Some(
            TreeNode::Split {
                feature: ws[pos + 1] as usize,
                threshold: (ws[pos + 2] as i128 - OFFSET) as i64,
                left: ws[pos + 3] as usize,
                right: ws[pos + 4] as usize,
            },
        )
    } else {
        None
    }
}

/// Reads the `k` nodes at `pos`; also returns the position after them.
fn read_nodes(ws: &Vec<u64>, pos: usize, k: u64) -> (r: Option<(Vec<TreeNode>, usize)>)
    requires
        pos <= ws@.len(),
    ensures
        match nodes_at(ws@, pos as int, k as nat) {
            None => r is None,
            Some(ns) => r matches Some(x) && x.0@ == ns && x.1 == pos + 5 * k && x.1 <= ws@.len(),
        },
{
    let mut acc: Vec<TreeNode> = Vec::new();
    let mut p: usize = pos;
    let mut j: u64 = 0;
    while j < k
        invariant
            pos <= p <= ws@.len(),
            j <= k,
            p == pos + 5 * j,
            acc@.len() == j,
            nodes_at(ws@, pos as int, k as nat) == prepend(acc@, nodes_at(ws@, p as int, (k - j) as nat)),
        decreases k - j,
    {
        if ws.len() - p < 5 {
            assert(node_at(ws@, p as int) is None);
            return None;
        }
        match read_node(ws, p) {
            None => {
                return None;
            },
            Some(n) => {
                let ghost old_acc = acc@;
                acc.push(n);
                proof {
                    match nodes_at(ws@, p as int + 5, (k - j - 1) as nat) {
                        None => {},
                        Some(rest) => {
                            assert(old_acc + (seq![n] + rest) =~= acc@ + rest);
                        },
                    }
                }
                p = p + 5;
                j = j + 1;
            },
        }
    }
    assert(acc@ + seq![] =~= acc@);
    Some((acc, p))
}

/// Whether `nodes` is a well-formed tree over `nf` features with bounded weights.
fn check_tree(nodes: &Vec<TreeNode>, nf: u64) -> (r: bool)
    ensures
        r == (tree_wf(nodes@, nf as int) && weights_bounded(nodes@, LEAF_LIMIT as int)),
{
    if nodes.len() == 0 {
        return false;
    }
    let mut i: usize = 0;
    while i < nodes.len()
        invariant
            i <= nodes@.len(),
            nodes@.len() > 0,
            forall|q: int|
                0 <= q < i ==> match #[trigger] nodes@[q] {
                    TreeNode::Leaf { weight } => abs(weight as int) <= LEAF_LIMIT,
                    TreeNode::Split { feature, left, right, .. } => feature < nf && q < left
                        < nodes@.len() && q < right < nodes@.len(),
                },
        decreases nodes@.len() - i,
    {
        let ok = match nodes[i] {
            TreeNode::Leaf { weight } => -LEAF_LIMIT <= weight && weight <= LEAF_LIMIT,
            TreeNode::Split { feature, left, right, .. } => (feature as u64) < nf && i < left && left
                < nodes.len() && i < right && right < nodes.len(),
        };
        if !ok {
            assert(!(tree_wf(nodes@, nf as int) && weights_bounded(nodes@, LEAF_LIMIT as int)));
            return false;
        }
        i += 1;
    }
    true
}

/// The model that `ws` holds, if any.
pub fn decode_words(ws: &Vec<u64>) -> (r: Option<Model>)
    ensures
        match model_of_words(ws@) {
            None => r is None,
            Some(mv) => r matches Some(m) && m@ == mv,
        },
{
    if ws.len() < 5 || ws[0] != FORMAT_VERSION {
        return None;
    }
    let nf = ws[1];
    let bias = (ws[2] as i128 - OFFSET) as i64;
    let lr = (ws[3] as i128 - OFFSET) as i64;
    let k = ws[4];
    let mut trees: Vec<Vec<TreeNode>> = Vec::new();
    let mut p: usize = 5;
    let mut j: u64 = 0;
    let mut all_ok = true;
    while j < k
        invariant
            5 <= p <= ws@.len(),
            j <= k,
            k == ws@[4],
            trees@.len() == j,
            trees_at(ws@, 5, k as nat) == prepend(trees_view(trees@), trees_at(ws@, p as int, (k - j) as nat)),
            all_ok == forall|t: int|
                0 <= t < trees@.len() ==> tree_wf(#[trigger] trees@[t]@, nf as int)
                    && weights_bounded(trees@[t]@, LEAF_LIMIT as int),
            nf == ws@[1],
        decreases k - j,
    {
        if p >= ws.len() {
            return None;
        }
        let len = ws[p];
        match read_nodes(ws, p + 1, len) {
            None => {
                return None;
            },
            Some((nodes, after)) => {
                let ghost old_tv = trees_view(trees@);
                let ghost old_trees = trees@;
                let good = check_tree(&nodes, nf);
                let ghost nv = nodes@;
                trees.push(nodes);
                proof {
                    assert(trees_view(trees@) =~= old_tv.push(nv));
                    assert(forall|t: int| 0 <= t < j ==> trees@[t] == old_trees[t]);
                    if !all_ok {
                        let t0 = choose|t: int|
                            0 <= t < old_trees.len() && !(tree_wf(#[trigger] old_trees[t]@, nf as int)
                                && weights_bounded(old_trees[t]@, LEAF_LIMIT as int));
                        assert(trees@[t0] == old_trees[t0]);
                    }
                    match trees_at(ws@, after as int, (k - j - 1) as nat) {
                        None => {},
                        Some(rest) => {
                            assert(old_tv + (seq![nv] + rest) =~= trees_view(trees@) + rest);
                        },
                    }
                    if all_ok && good {
                        assert forall|t: int| 0 <= t < trees@.len() implies tree_wf(
                            #[trigger] trees@[t]@,
                            nf as int,
                        ) && weights_bounded(trees@[t]@, LEAF_LIMIT as int) by {
                            if t < j {
                            } else {
                                assert(trees@[t]@ == nv);
                            }
                        }
                    }
                    if !good {
                        assert(trees@[j as int]@ == nv);
                    }
                }
                all_ok = all_ok && good;
                p = after;
                j = j + 1;
            },
        }
    }
    if p != ws.len() {
        assert(trees_at(ws@, p as int, 0) is None);
        return None;
    }
    assert(trees_view(trees@) + seq![] =~= trees_view(trees@));
    let m = Model { num_features: nf, bias, learning_rate: lr, trees };
    assert(m@.trees =~= trees_view(m.trees@));
    proof {
        if !all_ok {
            let t0 = choose|t: int|
                0 <= t < m.trees@.len() && !(tree_wf(#[trigger] m.trees@[t]@, nf as int)
                    && weights_bounded(m.trees@[t]@, LEAF_LIMIT as int));
            assert(m@.trees[t0] == m.trees@[t0]@);
            assert(!model_wf(m@));
        }
    }
    if !all_ok || bias < -VALUE_LIMIT || bias > VALUE_LIMIT || lr < 0 || lr > SCALE {
        return None;
    }
    Some(m)
}


// ---------------------------------------------------------------- bytes

/// The eight little-endian bytes of `w`.
pub open spec fn word_bytes(w: u64) -> Seq<u8> {
    seq![
        w as u8,
        (w >> 8u64) as u8,
        (w >> 16u64) as u8,
        (w >> 24u64) as u8,
        (w >> 32u64) as u8,
        (w >> 40u64) as u8,
        (w >> 48u64) as u8,
        (w >> 56u64) as u8,
    ]
}

/// The word whose little-endian bytes start at `bs[i]`.
pub open spec fn word_at(bs: Seq<u8>, i: int) -> u64 {
    (bs[i] as u64) | ((bs[i + 1] as u64) << 8u64) | ((bs[i + 2] as u64) << 16u64) | ((bs[i
        + 3] as u64) << 24u64) | ((bs[i + 4] as u64) << 32u64) | ((bs[i + 5] as u64) << 40u64)
        | ((bs[i + 6] as u64) << 48u64) | ((bs[i + 7] as u64) << 56u64)
}

pub open spec fn words_bytes(ws: Seq<u64>) -> Seq<u8>
    decreases ws.len(),
{
    if ws.len() == 0 {
        seq![]
    } else {
        words_bytes(ws.drop_last()) + word_bytes(ws.last())
    }
}

/// The words that `bs` holds, when its length is a multiple of eight.
pub open spec fn bytes_words(bs: Seq<u8>) -> Option<Seq<u64>> {
    if bs.len() % 8 != 0 {
        None
    } else {
        Some(Seq::new((bs.len() / 8) as nat, |i: int| word_at(bs, 8 * i)))
    }
}

/// The bytes of a model.
pub open spec fn model_bytes(m: ModelView) -> Seq<u8> {
    words_bytes(model_words(m))
}

/// The model that `bs` holds, if it is of this format and well formed.
pub open spec fn model_of_bytes(bs: Seq<u8>) -> Option<ModelView> {
    match bytes_words(bs) {
        None => None,
        Some(ws) => model_of_words(ws),
    }
}

proof fn lemma_word_round_trip(w: u64)
    ensures
        word_at(word_bytes(w), 0) == w,
{
    let b = word_bytes(w);
    let b0 = b[0];
    let b1 = b[1];
    let b2 = b[2];
    let b3 = b[3];
    let b4 = b[4];
    let b5 = b[5];
    let b6 = b[6];
    let b7 = b[7];
    assert(b0 == w as u8 && b1 == (w >> 8u64) as u8 && b2 == (w >> 16u64) as u8 && b3 == (w
        >> 24u64) as u8 && b4 == (w >> 32u64) as u8 && b5 == (w >> 40u64) as u8 && b6 == (w
        >> 48u64) as u8 && b7 == (w >> 56u64) as u8);
    assert((b0 as u64) | ((b1 as u64) << 8u64) | ((b2 as u64) << 16u64) | ((b3 as u64) << 24u64)
        | ((b4 as u64) << 32u64) | ((b5 as u64) << 40u64) | ((b6 as u64) << 48u64) | ((
    b7 as u64) << 56u64) == w) by (bit_vector)
        requires
            b0 == w as u8,
            b1 == (w >> 8u64) as u8,
            b2 == (w >> 16u64) as u8,
            b3 == (w >> 24u64) as u8,
            b4 == (w >> 32u64) as u8,
            b5 == (w >> 40u64) as u8,
            b6 == (w >> 48u64) as u8,
            b7 == (w >> 56u64) as u8,
    ;
}

proof fn lemma_words_bytes_layout(ws: Seq<u64>)
    ensures
        words_bytes(ws).len() == 8 * ws.len(),
        forall|i: int, j: int|
            0 <= i < ws.len() && 0 <= j < 8 ==> #[trigger] words_bytes(ws)[8 * i + j] == word_bytes(
                ws[i],
            )[j],
    decreases ws.len(),
{
    if ws.len() > 0 {
        let init = ws.drop_last();
        lemma_words_bytes_layout(init);
        assert forall|i: int, j: int|
            0 <= i < ws.len() && 0 <= j < 8 implies #[trigger] words_bytes(ws)[8 * i + j]
            == word_bytes(ws[i])[j] by {
            if i < init.len() {
                assert(words_bytes(init)[8 * i + j] == word_bytes(init[i])[j]);
            }
        }
    }
}

/// Reading back the bytes of words gives the same words.
pub proof fn lemma_bytes_round_trip(ws: Seq<u64>)
    ensures
        bytes_words(words_bytes(ws)) == Some(ws),
{
    lemma_words_bytes_layout(ws);
    let bs = words_bytes(ws);
    assert(bs.len() % 8 == 0);
    let got = Seq::new((bs.len() / 8) as nat, |i: int| word_at(bs, 8 * i));
    assert forall|i: int| 0 <= i < ws.len() implies got[i] == ws[i] by {
        let wb = word_bytes(ws[i]);
        lemma_word_round_trip(ws[i]);
        assert(bs[8 * i + 0] == wb[0]);
        assert(bs[8 * i + 1] == wb[1]);
        assert(bs[8 * i + 2] == wb[2]);
        assert(bs[8 * i + 3] == wb[3]);
        assert(bs[8 * i + 4] == wb[4]);
        assert(bs[8 * i + 5] == wb[5]);
        assert(bs[8 * i + 6] == wb[6]);
        assert(bs[8 * i + 7] == wb[7]);
    }
    assert(got =~= ws);
}

/// The bytes of `ws`.
pub fn encode_bytes(ws: &Vec<u64>) -> (r: Vec<u8>)
    ensures
        r@ == words_bytes(ws@),
{
    let mut out: Vec<u8> = Vec::new();
    let mut i: usize = 0;
    while i < ws.len()
        invariant
            i <= ws@.len(),
            out@ == words_bytes(ws@.take(i as int)),
        decreases ws@.len() - i,
    {
        let w = ws[i];
        out.push(w as u8);
        out.push((w >> 8u64) as u8);
        out.push((w >> 16u64) as u8);
        out.push((w >> 24u64) as u8);
        out.push((w >> 32u64) as u8);
        out.push((w >> 40u64) as u8);
        out.push((w >> 48u64) as u8);
        out.push((w >> 56u64) as u8);
        proof {
            assert(ws@.take(i as int + 1).drop_last() =~= ws@.take(i as int));
        }
        i += 1;
        assert(out@ =~= words_bytes(ws@.take(i as int)));
    }
    assert(ws@.take(i as int) =~= ws@);
    out
}

/// The words that `bs` holds, if its length is a multiple of eight.
pub fn decode_bytes(bs: &[u8]) -> (r: Option<Vec<u64>>)
    ensures
        match bytes_words(bs@) {
            None => r is None,
            Some(ws) => r matches Some(v) && v@ == ws,
        },
{
    if bs.len() % 8 != 0 {
        return None;
    }
    let bl = bs.len();
    let n = bl / 8;
    let mut out: Vec<u64> = Vec::new();
    let mut i: usize = 0;
    while i < n
        invariant
            bl == bs@.len(),
            n == bs@.len() / 8,
            bs@.len() % 8 == 0,
            i <= n,
            out@ == Seq::new(i as nat, |q: int| word_at(bs@, 8 * q)),
        decreases n - i,
    {
        let p = 8 * i;
        let w = (bs[p] as u64) | ((bs[p + 1] as u64) << 8u64) | ((bs[p + 2] as u64) << 16u64) | ((
        bs[p + 3] as u64) << 24u64) | ((bs[p + 4] as u64) << 32u64) | ((bs[p + 5] as u64)
            << 40u64) | ((bs[p + 6] as u64) << 48u64) | ((bs[p + 7] as u64) << 56u64);
        out.push(w);
        i += 1;
        assert(out@ =~= Seq::new(i as nat, |q: int| word_at(bs@, 8 * q)));
    }
    Some(out)
}

/// Reading back the bytes of a well-formed model gives the same model.
pub proof fn lemma_model_round_trip(m: ModelView)
    requires
        model_wf(m),
        m.num_features <= u64::MAX,
        m.trees.len() <= u64::MAX,
        forall|t: int| 0 <= t < m.trees.len() ==> #[trigger] m.trees[t].len() <= u64::MAX,
    ensures
        model_of_bytes(model_bytes(m)) == Some(m),
{
    lemma_bytes_round_trip(model_words(m));
    lemma_words_round_trip(m);
}

} // verus!
