//! Reading training settings from text: `key = value` pairs such as
//! `max_depth = 4` or `eta = 0.3`.
use crate::booster::{Config, config_ok};
use crate::tree::TreeParams;
use crate::fixed::{MAX_BINS, PARAM_LIMIT, SCALE};
use vstd::prelude::*;
use vstd::string::StringSliceAdditionalSpecFns;

verus! {

/// Largest number of digits in an integer or in the integer part of a decimal.
pub const MAX_DIGITS: usize = 12;

/// Largest number of digits after the decimal point.
pub const MAX_FRACTION_DIGITS: usize = 6;

pub open spec fn pow10(e: nat) -> int
    decreases e,
{
    if e == 0 {
        1
    } else {
        10 * pow10((e - 1) as nat)
    }
}

proof fn lemma_pow10_mono(a: nat, b: nat)
    requires
        a <= b,
    ensures
        1 <= pow10(a) <= pow10(b),
    decreases b,
{
    if a < b {
        lemma_pow10_mono(a, (b - 1) as nat);
    } else if a > 0 {
        lemma_pow10_mono((a - 1) as nat, (a - 1) as nat);
    }
}

pub open spec fn is_digit(b: u8) -> bool {
    48 <= b <= 57
}

/// The decimal value of a string of digits.
pub open spec fn digits_value(s: Seq<u8>) -> int
    decreases s.len(),
{
    if s.len() == 0 {
        0
    } else {
        digits_value(s.drop_last()) * 10 + (s.last() - 48)
    }
}

/// A non-negative integer of 1 to `MAX_DIGITS` decimal digits.
pub open spec fn parse_uint(s: Seq<u8>) -> Option<int> {
    if 1 <= s.len() <= MAX_DIGITS && forall|i: int| 0 <= i < s.len() ==> is_digit(#[trigger] s[i]) {
        Some(digits_value(s))
    } else {
        None
    }
}

/// The index of the first `.` at or after `i`, or -1.
pub open spec fn dot_index(s: Seq<u8>, i: int) -> int
    decreases s.len() - i,
{
    if i < 0 || i >= s.len() {
        -1
    } else if s[i] == 46 {
        i
    } else {
        dot_index(s, i + 1)
    }
}

/// A non-negative decimal such as `12`, `0.3` or `1.25`, in fixed point: an
/// integer part, then optionally `.` and 1 to `MAX_DIGITS` digits, of which
/// those beyond the first `MAX_FRACTION_DIGITS` are dropped (rounding toward zero).
pub open spec fn parse_fixed(s: Seq<u8>) -> Option<int> {
    let k = dot_index(s, 0);
    if k < 0 {
        match parse_uint(s) {
            Some(v) => Some(v * SCALE),
            None => None,
        }
    } else {
        let fp = s.subrange(k + 1, s.len() as int);
        let m = if fp.len() > MAX_FRACTION_DIGITS {
            MAX_FRACTION_DIGITS as int
        } else {
            fp.len() as int
        };
        match (parse_uint(s.subrange(0, k)), parse_uint(fp)) {
            (Some(a), Some(_)) => Some(
                a * SCALE + digits_value(fp.take(m)) * pow10((MAX_FRACTION_DIGITS - m) as nat),
            ),
            _ => None,
        }
    }
}

fn parse_digits(s: &[u8], lo: usize, hi: usize) -> (r: Option<u64>)
    requires
        lo <= hi <= s@.len(),
    ensures
        r is None <==> parse_uint(s@.subrange(lo as int, hi as int)) is None,
        r matches Some(x) ==> parse_uint(s@.subrange(lo as int, hi as int)) == Some(x as int) && x
            < 1_000_000_000_000,
{
    let ghost t = s@.subrange(lo as int, hi as int);
    if hi == lo || hi - lo > MAX_DIGITS {
        return None;
    }
    let mut v: u64 = 0;
    let mut j: usize = lo;
    proof {
        lemma_pow10_mono(0, MAX_DIGITS as nat);
        reveal_with_fuel(pow10, 13);
        assert(pow10(MAX_DIGITS as nat) == 1_000_000_000_000);
        assert(s@.subrange(lo as int, lo as int) =~= seq![]);
    }
    while j < hi
        invariant
            lo <= j <= hi <= s@.len(),
            hi - lo <= MAX_DIGITS,
            t == s@.subrange(lo as int, hi as int),
            v as int == digits_value(s@.subrange(lo as int, j as int)),
            v < pow10((j - lo) as nat),
            pow10(MAX_DIGITS as nat) == 1_000_000_000_000,
            forall|i: int| 0 <= i < j - lo ==> is_digit(#[trigger] t[i]),
        decreases hi - j,
    {
        let b = s[j];
        if b < 48 || b > 57 {
            assert(!is_digit(t[j - lo]));
            return None;
        }
        proof {
            lemma_pow10_mono((j + 1 - lo) as nat, MAX_DIGITS as nat);
            assert(s@.subrange(lo as int, j + 1).drop_last() =~= s@.subrange(lo as int, j as int));
        }
        v = v * 10 + (b - 48) as u64;
        j += 1;
    }
    proof {
        lemma_pow10_mono((j - lo) as nat, MAX_DIGITS as nat);
        assert(s@.subrange(lo as int, j as int) =~= t);
    }
    Some(v)
}

fn find_dot(s: &[u8]) -> (r: usize)
    ensures
        r <= s@.len(),
        r == s@.len() ==> dot_index(s@, 0) == -1,
        r < s@.len() ==> dot_index(s@, 0) == r,
{
    let mut i: usize = 0;
    while i < s.len()
        invariant
            i <= s@.len(),
            dot_index(s@, 0) == dot_index(s@, i as int),
        decreases s@.len() - i,
    {
        if s[i] == 46 {
            return i;
        }
        i += 1;
    }
    i
}

fn parse_fixed_bytes(s: &[u8]) -> (r: Option<u64>)
    ensures
        r is None <==> parse_fixed(s@) is None,
        r matches Some(x) ==> parse_fixed(s@) == Some(x as int),
{
    let k = find_dot(s);
    proof {
        assert(s@.subrange(0, s@.len() as int) =~= s@);
        reveal_with_fuel(pow10, 7);
    }
    if k == s.len() {
        match parse_digits(s, 0, s.len()) {
            None => None,
            Some(v) => {
                assert(v * SCALE <= 1_000_000_000_000_000_000) by (nonlinear_arith)
                    requires
                        v < 1_000_000_000_000,
                ;
                Some(v * (SCALE as u64))
            },
        }
    } else {
        let n = s.len();
        let a = match parse_digits(s, 0, k) {
            None => {
                return None;
            },
            Some(a) => a,
        };
        if parse_digits(s, k + 1, n).is_none() {
            return None;
        }
        let m: usize = if n - (k + 1) > MAX_FRACTION_DIGITS {
            MAX_FRACTION_DIGITS
        } else {
            n - (k + 1)
        };
        let ghost fp = s@.subrange(k + 1, n as int);
        proof {
            assert(s@.subrange(k + 1, (k + 1 + m) as int) =~= fp.take(m as int));
            assert forall|i: int| 0 <= i < m implies is_digit(#[trigger] fp.take(m as int)[i]) by {
                assert(fp.take(m as int)[i] == fp[i]);
            }
        }
        let b = match parse_digits(s, k + 1, k + 1 + m) {
            None => {
                return None;
            },
            Some(b) => b,
        };
        let mut scale: u64 = 1;
        let mut e: usize = m;
        proof {
            lemma_pow10_mono(0, MAX_FRACTION_DIGITS as nat);
        }
        assert(pow10(6) == 1_000_000);
        while e < MAX_FRACTION_DIGITS
            invariant
                pow10(6) == 1_000_000,
                m <= e <= MAX_FRACTION_DIGITS,
                scale as int == pow10((e - m) as nat),
                scale <= 1_000_000,
            decreases MAX_FRACTION_DIGITS - e,
        {
            proof {
                lemma_pow10_mono((e + 1 - m) as nat, MAX_FRACTION_DIGITS as nat);
            }
            scale = scale * 10;
            e += 1;
        }
        assert(a * SCALE + b * scale <= 2_000_000_000_000_000_000) by (nonlinear_arith)
            requires
                a < 1_000_000_000_000,
                b < 1_000_000_000_000,
                scale <= 1_000_000,
        ;
        Some(a * (SCALE as u64) + b * scale)
    }
}

fn bytes_eq(a: &[u8], b: &[u8]) -> (r: bool)
    ensures
        r == (a@ == b@),
{
    if a.len() != b.len() {
        return false;
    }
    let mut i: usize = 0;
    while i < a.len()
        invariant
            a@.len() == b@.len(),
            i <= a@.len(),
            forall|q: int| 0 <= q < i ==> a@[q] == b@[q],
        decreases a@.len() - i,
    {
        if a[i] != b[i] {
            return false;
        }
        i += 1;
    }
    assert(a@ =~= b@);
    true
}


pub open spec fn with_tree(cfg: Config, t: TreeParams) -> Config {
    Config { tree: t, learning_rate: cfg.learning_rate }
}

/// The settings after setting `key` to `value`, or `None` when the value is
/// not valid for the key. Keys the engine does not use are accepted and change
/// nothing.
pub open spec fn apply_setting(cfg: Config, key: Seq<u8>, value: Seq<u8>) -> Option<Config> {
    let t = cfg.tree;
    if key == "max_depth".spec_bytes() {
        match parse_uint(value) {
            Some(v) => if v <= 64 {
                Some(with_tree(cfg, TreeParams { max_depth: v as u32, ..t }))
            } else {
                None
            },
            None => None,
        }
    } else if key == "max_bin".spec_bytes() {
        match parse_uint(value) {
            Some(v) => if 1 <= v <= MAX_BINS {
                Some(with_tree(cfg, TreeParams { num_bins: v as u32, ..t }))
            } else {
                None
            },
            None => None,
        }
    } else if key == "eta".spec_bytes() || key == "learning_rate".spec_bytes() {
        match parse_fixed(value) {
            Some(v) => if v <= SCALE {
                Some(Config { tree: t, learning_rate: v as i64 })
            } else {
                None
            },
            None => None,
        }
    } else if key == "lambda".spec_bytes() || key == "reg_lambda".spec_bytes() {
        match parse_fixed(value) {
            Some(v) => if v <= PARAM_LIMIT {
                Some(with_tree(cfg, TreeParams { lambda: v as i64, ..t }))
            } else {
                None
            },
            None => None,
        }
    } else if key == "gamma".spec_bytes() || key == "min_split_loss".spec_bytes() {
        match parse_fixed(value) {
            Some(v) => if v <= PARAM_LIMIT {
                Some(with_tree(cfg, TreeParams { gamma: v as i64, ..t }))
            } else {
                None
            },
            None => None,
        }
    } else if key == "min_child_weight".spec_bytes() {
        match parse_fixed(value) {
            Some(v) => if v <= PARAM_LIMIT {
                Some(with_tree(cfg, TreeParams { min_child_weight: v as i64, ..t }))
            } else {
                None
            },
            None => None,
        }
    } else if key == "objective".spec_bytes() {
        if value == "reg:squarederror".spec_bytes() {
            Some(cfg)
        } else {
            None
        }
    } else {
        Some(cfg)
    }
}

/// Applies one setting; see `apply_setting`.
pub fn apply(cfg: Config, key: &str, value: &str) -> (r: Option<Config>)
    requires
        config_ok(cfg),
    ensures
        r == apply_setting(cfg, key.spec_bytes(), value.spec_bytes()),
        r matches Some(c) ==> config_ok(c),
{
    let k = key.as_bytes();
    let v = value.as_bytes();
    let t = cfg.tree;
    assert(v@.subrange(0, v@.len() as int) =~= v@);
    if bytes_eq(k, "max_depth".as_bytes()) {
        match parse_digits(v, 0, v.len()) {
            Some(x) => if x <= 64 {
                Some(Config { tree: TreeParams { max_depth: x as u32, ..t }, learning_rate: cfg.learning_rate })
            } else {
                None
            },
            None => None,
        }
    } else if bytes_eq(k, "max_bin".as_bytes()) {
        match parse_digits(v, 0, v.len()) {
            Some(x) => if 1 <= x && x <= MAX_BINS as u64 {
                Some(Config { tree: TreeParams { num_bins: x as u32, ..t }, learning_rate: cfg.learning_rate })
            } else {
                None
            },
            None => None,
        }
    } else if bytes_eq(k, "eta".as_bytes()) || bytes_eq(k, "learning_rate".as_bytes()) {
        match parse_fixed_bytes(v) {
            Some(x) => if x <= SCALE as u64 {
                Some(Config { tree: t, learning_rate: x as i64 })
            } else {
                None
            },
            None => None,
        }
    } else if bytes_eq(k, "lambda".as_bytes()) || bytes_eq(k, "reg_lambda".as_bytes()) {
        match parse_fixed_bytes(v) {
            Some(x) => if x <= PARAM_LIMIT as u64 {
                Some(Config { tree: TreeParams { lambda: x as i64, ..t }, learning_rate: cfg.learning_rate })
            } else {
                None
            },
            None => None,
        }
    } else if bytes_eq(k, "gamma".as_bytes()) || bytes_eq(k, "min_split_loss".as_bytes()) {
        match parse_fixed_bytes(v) {
            Some(x) => if x <= PARAM_LIMIT as u64 {
                Some(Config { tree: TreeParams { gamma: x as i64, ..t }, learning_rate: cfg.learning_rate })
            } else {
                None
            },
            None => None,
        }
    } else if bytes_eq(k, "min_child_weight".as_bytes()) {
        match parse_fixed_bytes(v) {
            Some(x) => if x <= PARAM_LIMIT as u64 {
                Some(Config { tree: TreeParams { min_child_weight: x as i64, ..t }, learning_rate: cfg.learning_rate })
            } else {
                None
            },
            None => None,
        }
    } else if bytes_eq(k, "objective".as_bytes()) {
        if bytes_eq(v, "reg:squarederror".as_bytes()) {
            Some(cfg)
        } else {
            None
        }
    } else {
        Some(cfg)
    }
}

} // verus!
