use vstd::prelude::*;

use crate::frequency::{
    bytes_less, copy_bytes, distinct_in_order, distinct_symbols, lemma_lex_asymmetric, lemma_lex_total,
    lemma_lex_transitive, lex_less, is_frequency_table, occurrences, symbols_of, total_count,
    FrequencyTable,
};

verus! {

/// Default interval expansion factor: one output byte per encoder step.
pub const DEFAULT_BASE: u64 = 256;

/// Default ratio of the table size to the number of symbols.
pub const DEFAULT_SCALE: u64 = 8;

#[derive(Clone, Copy, Debug)]
/// Operating parameters of the coder: the working interval is
/// `[table_size, base * table_size)`.
pub struct TableANSConfig {
    pub base: u64,
    pub total_num_symbols: u64,
    pub table_size: u64,
}

/// Failures of table construction and encoding.
#[derive(Debug)]
pub enum TansError {
    /// A symbol has zero or undefined probability.
    DegenerateDistribution,
    /// There is no symbol to fill the working interval with.
    TableExhausted,
    /// The spread table has no slot for this occurrence of this symbol.
    UnknownSymbolOccurrence { symbol: Vec<u8>, occurrence: u64 },
}

/// Configuration with the given base and table-size scale factor.
pub fn build_tans_config(symbol_freqs: &FrequencyTable, base: u64, scale: u64) -> (r:
    TableANSConfig)
    requires
        total_count(symbol_freqs@) <= u64::MAX,
        total_count(symbol_freqs@) * scale <= u64::MAX,
    ensures
        r.base == base,
        r.total_num_symbols == total_count(symbol_freqs@),
        r.table_size == total_count(symbol_freqs@) * scale,
{
    let total_num_symbols = match symbol_freqs.total() {
        Some(t) => t,
        None => 0,
    };
    let table_size = total_num_symbols * scale;
    TableANSConfig { base, total_num_symbols, table_size }
}

/// Configuration with the default base and a table eight times the number
/// of symbols.
pub fn build_base_tans_config(symbol_freqs: &FrequencyTable) -> (r: TableANSConfig)
    requires
        total_count(symbol_freqs@) * DEFAULT_SCALE <= u64::MAX,
    ensures
        r.base == DEFAULT_BASE,
        r.total_num_symbols == total_count(symbol_freqs@),
        r.table_size == total_count(symbol_freqs@) * DEFAULT_SCALE,
{
    build_tans_config(symbol_freqs, DEFAULT_BASE, DEFAULT_SCALE)
}

/// Number of slots in the working interval `[L, B * L)`.
pub open spec fn spread_len(cfg: TableANSConfig) -> nat {
    if cfg.base >= 1 {
        ((cfg.base - 1) * cfg.table_size) as nat
    } else {
        0
    }
}

/// How many times symbol `i` has been picked in `order`.
pub open spec fn picked(order: Seq<int>, i: int) -> nat
    decreases order.len(),
{
    if order.len() == 0 {
        0
    } else {
        picked(order.drop_last(), i) + if order.last() == i {
            1nat
        } else {
            0nat
        }
    }
}

/// Priority order between symbol `a` (picked `ca` times, frequency `fa`) and
/// symbol `b`. A symbol picked `c` times has priority value
/// `(c + 1/2) / p = N * (2c + 1) / (2f)`; the smaller value comes first, the
/// higher frequency on equal values, and the lexicographically smaller symbol
/// on equal frequencies. Values are compared exactly by cross-multiplication.
pub open spec fn before(ca: int, fa: int, sa: Seq<u8>, cb: int, fb: int, sb: Seq<u8>) -> bool {
    let ka = (2 * ca + 1) * fb;
    let kb = (2 * cb + 1) * fa;
    ka < kb || (ka == kb && (fa > fb || (fa == fb && lex_less(sa, sb))))
}

/// Whether symbol `a`'s next occurrence is due before symbol `b`'s, once the
/// symbols of `order` have been placed.
pub open spec fn precedes(freqs: Seq<(Seq<u8>, u64)>, order: Seq<int>, a: int, b: int) -> bool {
    before(
        picked(order, a) as int,
        freqs[a].1 as int,
        freqs[a].0,
        picked(order, b) as int,
        freqs[b].1 as int,
        freqs[b].0,
    )
}

/// Symbol `i` comes first among all symbols after `order`.
pub open spec fn is_next(freqs: Seq<(Seq<u8>, u64)>, order: Seq<int>, i: int) -> bool {
    &&& 0 <= i < freqs.len()
    &&& forall|j: int| 0 <= j < freqs.len() && j != i ==> #[trigger] precedes(freqs, order, i, j)
}

/// The symbols (by position) that fill the first `n` slots, in slot order.
pub open spec fn spread_order(freqs: Seq<(Seq<u8>, u64)>, n: nat) -> Seq<int>
    decreases n,
{
    if n == 0 {
        Seq::empty()
    } else {
        let o = spread_order(freqs, (n - 1) as nat);
        o.push(choose|i: int| is_next(freqs, o, i))
    }
}

/// The key `(symbol, occurrence)` held by slot `L + t` for each `t`: the
/// symbol picked at step `t`, with its frequency plus the number of times it
/// was picked before.
pub open spec fn spread_keys(freqs: Seq<(Seq<u8>, u64)>, cfg: TableANSConfig) -> Seq<(Seq<u8>, u64)> {
    let order = spread_order(freqs, spread_len(cfg));
    Seq::new(
        spread_len(cfg),
        |t: int| (freqs[order[t]].0, (freqs[order[t]].1 + picked(order.take(t), order[t])) as u64),
    )
}

/// Some symbol has zero probability, or the probabilities are undefined.
pub open spec fn degenerate(freqs: Seq<(Seq<u8>, u64)>, cfg: TableANSConfig) -> bool {
    (exists|j: int| 0 <= j < freqs.len() && #[trigger] freqs[j].1 == 0) || (freqs.len() > 0
        && cfg.total_num_symbols == 0)
}

/// The working interval is not empty but there is no symbol to fill it.
pub open spec fn exhausted(freqs: Seq<(Seq<u8>, u64)>, cfg: TableANSConfig) -> bool {
    freqs.len() == 0 && spread_len(cfg) > 0
}

proof fn lemma_picked_bound(order: Seq<int>, i: int)
    ensures
        picked(order, i) <= order.len(),
    decreases order.len(),
{
    if order.len() > 0 {
        lemma_picked_bound(order.drop_last(), i);
    }
}

proof fn lemma_picked_push(order: Seq<int>, b: int, i: int)
    ensures
        picked(order.push(b), i) == picked(order, i) + if b == i {
            1nat
        } else {
            0nat
        },
{
    assert(order.push(b).drop_last() =~= order);
}

proof fn lemma_cross(x: int, fa: int, y: int, fb: int, z: int, fc: int)
    requires
        fa > 0,
        fb > 0,
        fc > 0,
    ensures
        x * fb <= y * fa && y * fc <= z * fb ==> x * fc <= z * fa,
        x * fb < y * fa && y * fc <= z * fb ==> x * fc < z * fa,
        x * fb <= y * fa && y * fc < z * fb ==> x * fc < z * fa,
{
    if x * fb <= y * fa && y * fc <= z * fb {
        assert(x * fb * fc <= y * fa * fc) by (nonlinear_arith)
            requires
                x * fb <= y * fa,
                fc > 0,
        ;
        assert(y * fc * fa <= z * fb * fa) by (nonlinear_arith)
            requires
                y * fc <= z * fb,
                fa > 0,
        ;
        assert(x * fc * fb <= z * fa * fb) by (nonlinear_arith)
            requires
                x * fb * fc <= y * fa * fc,
                y * fc * fa <= z * fb * fa,
        ;
        assert(x * fc <= z * fa) by (nonlinear_arith)
            requires
                x * fc * fb <= z * fa * fb,
                fb > 0,
        ;
        if x * fb < y * fa || y * fc < z * fb {
            if x * fb < y * fa {
                assert(x * fb * fc < y * fa * fc) by (nonlinear_arith)
                    requires
                        x * fb < y * fa,
                        fc > 0,
                ;
            } else {
                assert(y * fc * fa < z * fb * fa) by (nonlinear_arith)
                    requires
                        y * fc < z * fb,
                        fa > 0,
                ;
            }
            assert(x * fc * fb < z * fa * fb) by (nonlinear_arith)
                requires
                    x * fb * fc <= y * fa * fc,
                    y * fc * fa <= z * fb * fa,
                    x * fb * fc < y * fa * fc || y * fc * fa < z * fb * fa,
            ;
            assert(x * fc < z * fa) by (nonlinear_arith)
                requires
                    x * fc * fb < z * fa * fb,
                    fb > 0,
            ;
        }
    }
}

proof fn lemma_before_transitive(
    ca: int,
    fa: int,
    sa: Seq<u8>,
    cb: int,
    fb: int,
    sb: Seq<u8>,
    cc: int,
    fc: int,
    sc: Seq<u8>,
)
    requires
        fa > 0,
        fb > 0,
        fc > 0,
        before(ca, fa, sa, cb, fb, sb),
        before(cb, fb, sb, cc, fc, sc),
    ensures
        before(ca, fa, sa, cc, fc, sc),
{
    lemma_cross(2 * ca + 1, fa, 2 * cb + 1, fb, 2 * cc + 1, fc);
    if lex_less(sa, sb) && lex_less(sb, sc) {
        lemma_lex_transitive(sa, sb, sc);
    }
}

proof fn lemma_precedes_transitive(freqs: Seq<(Seq<u8>, u64)>, order: Seq<int>, a: int, b: int, c: int)
    requires
        positive_freqs(freqs),
        0 <= a < freqs.len(),
        0 <= b < freqs.len(),
        0 <= c < freqs.len(),
        precedes(freqs, order, a, b),
        precedes(freqs, order, b, c),
    ensures
        precedes(freqs, order, a, c),
{
    lemma_before_transitive(
        picked(order, a) as int, freqs[a].1 as int, freqs[a].0,
        picked(order, b) as int, freqs[b].1 as int, freqs[b].0,
        picked(order, c) as int, freqs[c].1 as int, freqs[c].0,
    );
}

proof fn lemma_precedes_total(freqs: Seq<(Seq<u8>, u64)>, order: Seq<int>, a: int, b: int)
    requires
        distinct_symbols(freqs),
        0 <= a < freqs.len(),
        0 <= b < freqs.len(),
        a != b,
    ensures
        precedes(freqs, order, a, b) != precedes(freqs, order, b, a),
{
    if a < b {
        assert(freqs[a].0 != freqs[b].0);
    } else {
        assert(freqs[b].0 != freqs[a].0);
    }
    lemma_lex_total(freqs[a].0, freqs[b].0);
    lemma_lex_asymmetric(freqs[a].0, freqs[b].0);
}

proof fn lemma_next_unique(freqs: Seq<(Seq<u8>, u64)>, order: Seq<int>, i: int, j: int)
    requires
        distinct_symbols(freqs),
        is_next(freqs, order, i),
        is_next(freqs, order, j),
    ensures
        i == j,
{
    if i != j {
        assert(precedes(freqs, order, i, j));
        assert(precedes(freqs, order, j, i));
        lemma_precedes_total(freqs, order, i, j);
    }
}

/// Every frequency is positive.
pub open spec fn positive_freqs(freqs: Seq<(Seq<u8>, u64)>) -> bool {
    forall|j: int| 0 <= j < freqs.len() ==> (#[trigger] freqs[j]).1 > 0
}

/// Symbol `b` comes first among the first `m` symbols.
spec fn first_among(freqs: Seq<(Seq<u8>, u64)>, order: Seq<int>, b: int, m: int) -> bool {
    0 <= b < m && forall|k: int| 0 <= k < m && k != b ==> #[trigger] precedes(freqs, order, b, k)
}

proof fn lemma_min_prefix(freqs: Seq<(Seq<u8>, u64)>, order: Seq<int>, m: int)
    requires
        distinct_symbols(freqs),
        positive_freqs(freqs),
        1 <= m <= freqs.len(),
    ensures
        exists|b: int| #[trigger] first_among(freqs, order, b, m),
    decreases m,
{
    if m > 1 {
        lemma_min_prefix(freqs, order, m - 1);
        let b = choose|b: int| #[trigger] first_among(freqs, order, b, m - 1);
        let j = m - 1;
        if precedes(freqs, order, j, b) {
            assert forall|k: int| 0 <= k < m && k != j implies #[trigger] precedes(freqs, order, j, k) by {
                if k != b {
                    assert(precedes(freqs, order, b, k));
                    lemma_precedes_transitive(freqs, order, j, b, k);
                }
            }
            assert(first_among(freqs, order, j, m));
        } else {
            lemma_precedes_total(freqs, order, j, b);
            assert forall|k: int| 0 <= k < m && k != b implies #[trigger] precedes(freqs, order, b, k) by {
                if k != j {
                    assert(precedes(freqs, order, b, k));
                }
            }
            assert(first_among(freqs, order, b, m));
        }
    } else {
        assert(first_among(freqs, order, 0, m));
    }
}

proof fn lemma_next_exists(freqs: Seq<(Seq<u8>, u64)>, order: Seq<int>)
    requires
        distinct_symbols(freqs),
        positive_freqs(freqs),
        freqs.len() > 0,
    ensures
        is_next(freqs, order, choose|i: int| is_next(freqs, order, i)),
{
    lemma_min_prefix(freqs, order, freqs.len() as int);
    let b = choose|b: int| #[trigger] first_among(freqs, order, b, freqs.len() as int);
    assert(is_next(freqs, order, b));
}

proof fn lemma_spread_order(freqs: Seq<(Seq<u8>, u64)>, n: nat)
    requires
        distinct_symbols(freqs),
        positive_freqs(freqs),
        freqs.len() > 0,
    ensures
        spread_order(freqs, n).len() == n,
        forall|u: int|
            0 <= u < n ==> is_next(
                freqs,
                spread_order(freqs, n).take(u),
                #[trigger] spread_order(freqs, n)[u],
            ),
        forall|u: nat| u <= n ==> #[trigger] spread_order(freqs, n).take(u as int) == spread_order(freqs, u),
    decreases n,
{
    if n > 0 {
        let o = spread_order(freqs, (n - 1) as nat);
        lemma_spread_order(freqs, (n - 1) as nat);
        lemma_next_exists(freqs, o);
        let full = spread_order(freqs, n);
        assert(full.take(n - 1) =~= o);
        assert forall|u: int| 0 <= u < n implies is_next(freqs, full.take(u), #[trigger] full[u]) by {
            if u < n - 1 {
                assert(full.take(u) =~= o.take(u));
            }
        }
        assert forall|u: nat| u <= n implies #[trigger] full.take(u as int) == spread_order(freqs, u) by {
            if u < n {
                assert(full.take(u as int) =~= o.take(u as int));
            } else {
                assert(full.take(u as int) =~= full);
            }
        }
    } else {
        assert forall|u: nat| u <= n implies #[trigger] spread_order(freqs, n).take(u as int) == spread_order(freqs, u) by {
            assert(spread_order(freqs, n).take(u as int) =~= Seq::<int>::empty());
        }
    }
}

proof fn lemma_picked_take_step(order: Seq<int>, u: int, i: int)
    requires
        0 <= u < order.len(),
    ensures
        picked(order.take(u + 1), i) == picked(order.take(u), i) + if order[u] == i {
            1nat
        } else {
            0nat
        },
{
    assert(order.take(u + 1) =~= order.take(u).push(order[u]));
    lemma_picked_push(order.take(u), order[u], i);
}

proof fn lemma_picked_monotone(order: Seq<int>, a: int, b: int, i: int)
    requires
        0 <= a <= b <= order.len(),
    ensures
        picked(order.take(a), i) <= picked(order.take(b), i),
    decreases b - a,
{
    if a < b {
        lemma_picked_monotone(order, a, b - 1, i);
        lemma_picked_take_step(order, b - 1, i);
    }
}

/// The spread table is a bijection between keys and the working interval:
/// it fills `base * table_size - table_size` slots, one per integer of
/// `[table_size, base * table_size)`, and no key `(symbol, occurrence)`
/// appears in two slots.
pub proof fn lemma_spread_bijection(freqs: Seq<(Seq<u8>, u64)>, cfg: TableANSConfig)
    requires
        crate::frequency::distinct_symbols(freqs),
        !degenerate(freqs, cfg),
        !exhausted(freqs, cfg),
        forall|j: int| 0 <= j < freqs.len() ==> (#[trigger] freqs[j]).1 + spread_len(cfg) <= u64::MAX + 1,
    ensures
        cfg.base >= 1 ==> spread_keys(freqs, cfg).len() == cfg.base * cfg.table_size - cfg.table_size,
        cfg.base == 0 ==> spread_keys(freqs, cfg).len() == 0,
        forall|t1: int, t2: int|
            0 <= t1 < t2 < spread_len(cfg) ==> #[trigger] spread_keys(freqs, cfg)[t1]
                != #[trigger] spread_keys(freqs, cfg)[t2],
{
    let n = spread_len(cfg);
    let keys = spread_keys(freqs, cfg);
    if cfg.base >= 1 {
        assert((cfg.base - 1) * cfg.table_size == cfg.base * cfg.table_size - cfg.table_size)
            by (nonlinear_arith);
    }
    if n > 0 {
        assert(positive_freqs(freqs));
        lemma_spread_order(freqs, n);
        let order = spread_order(freqs, n);
        assert forall|t1: int, t2: int| 0 <= t1 < t2 < n implies #[trigger] keys[t1] != #[trigger] keys[t2] by {
            let a = order[t1];
            let b = order[t2];
            assert(is_next(freqs, order.take(t1), a));
            assert(is_next(freqs, order.take(t2), b));
            if a == b {
                lemma_picked_take_step(order, t1, a);
                lemma_picked_monotone(order, t1 + 1, t2, a);
                lemma_picked_bound(order.take(t2), a);
                lemma_picked_bound(order.take(t1), a);
                assert(freqs[a].1 + n <= u64::MAX + 1);
            } else {
                assert(freqs[a].0 != freqs[b].0) by {
                    if a < b {
                        assert(freqs[a].0 != freqs[b].0);
                    } else {
                        assert(freqs[b].0 != freqs[a].0);
                    }
                }
            }
        }
    }
}

proof fn lemma_picked_witness(o: Seq<int>, j: int, m: int)
    requires
        0 <= m < picked(o, j),
    ensures
        exists|t: int| 0 <= t < o.len() && o[t] == j && #[trigger] picked(o.take(t), j) == m,
    decreases o.len(),
{
    let d = o.drop_last();
    assert(o.take(o.len() - 1) =~= d);
    if m < picked(d, j) {
        lemma_picked_witness(d, j, m);
        let t = choose|t: int| 0 <= t < d.len() && d[t] == j && #[trigger] picked(d.take(t), j) == m;
        assert(o.take(t) =~= d.take(t));
        assert(0 <= t < o.len() && o[t] == j && picked(o.take(t), j) == m);
    } else {
        assert(o.len() - 1 >= 0 && o[o.len() - 1] == j && picked(o.take(o.len() - 1), j) == m);
    }
}

/// Number of slots that symbol `j` receives.
pub open spec fn slot_count(freqs: Seq<(Seq<u8>, u64)>, cfg: TableANSConfig, j: int) -> nat {
    picked(spread_order(freqs, spread_len(cfg)), j)
}

/// The occurrence indices of each symbol form one contiguous run starting
/// at its frequency: symbol `j` holds exactly the keys
/// `(symbol, f + m)` for `m < slot_count(j)`, where `f` is its frequency.
pub proof fn lemma_occurrences_contiguous(freqs: Seq<(Seq<u8>, u64)>, cfg: TableANSConfig)
    requires
        crate::frequency::distinct_symbols(freqs),
        !degenerate(freqs, cfg),
        !exhausted(freqs, cfg),
        forall|j: int| 0 <= j < freqs.len() ==> (#[trigger] freqs[j]).1 + spread_len(cfg) <= u64::MAX + 1,
    ensures
        forall|t: int, j: int|
            0 <= t < spread_len(cfg) && 0 <= j < freqs.len() && (#[trigger] spread_keys(freqs, cfg)[t]).0
                == (#[trigger] freqs[j]).0 ==> freqs[j].1 <= spread_keys(freqs, cfg)[t].1 < freqs[j].1
                + slot_count(freqs, cfg, j),
        forall|j: int, m: int|
            0 <= j < freqs.len() && 0 <= m < slot_count(freqs, cfg, j) ==> #[trigger] spread_keys(
                freqs,
                cfg,
            ).contains((freqs[j].0, (freqs[j].1 + m) as u64)),
{
    let n = spread_len(cfg);
    let keys = spread_keys(freqs, cfg);
    if n > 0 {
        assert(positive_freqs(freqs));
        lemma_spread_order(freqs, n);
        let o = spread_order(freqs, n);
        assert(o.take(n as int) =~= o);
        assert forall|t: int, j: int|
            0 <= t < n && 0 <= j < freqs.len() && (#[trigger] keys[t]).0 == (#[trigger] freqs[j]).0 implies freqs[j].1
                <= keys[t].1 < freqs[j].1 + slot_count(freqs, cfg, j) by {
            assert(is_next(freqs, o.take(t), o[t]));
            if o[t] != j {
                if o[t] < j {
                    assert(freqs[o[t]].0 != freqs[j].0);
                } else {
                    assert(freqs[j].0 != freqs[o[t]].0);
                }
            }
            lemma_picked_take_step(o, t, j);
            lemma_picked_monotone(o, t + 1, n as int, j);
            lemma_picked_bound(o.take(t), j);
        }
        assert forall|j: int, m: int|
            0 <= j < freqs.len() && 0 <= m < slot_count(freqs, cfg, j) implies #[trigger] keys.contains(
                (freqs[j].0, (freqs[j].1 + m) as u64),
            ) by {
            lemma_picked_witness(o, j, m);
            let t = choose|t: int| 0 <= t < o.len() && o[t] == j && #[trigger] picked(o.take(t), j) == m;
            assert(keys[t] == (freqs[j].0, (freqs[j].1 + m) as u64));
        }
    }
}

/// Position in `f2` of the entry that `f1` lists at `i`.
spec fn moved(f1: Seq<(Seq<u8>, u64)>, f2: Seq<(Seq<u8>, u64)>, i: int) -> int {
    choose|j: int| 0 <= j < f2.len() && f2[j] == f1[i]
}

/// `o`, with each position of `f1` replaced by its position in `f2`.
spec fn moved_order(f1: Seq<(Seq<u8>, u64)>, f2: Seq<(Seq<u8>, u64)>, o: Seq<int>) -> Seq<int> {
    Seq::new(o.len(), |t: int| moved(f1, f2, o[t]))
}

/// `f1` and `f2` list the same pairs, each symbol once.
spec fn same_pairs(f1: Seq<(Seq<u8>, u64)>, f2: Seq<(Seq<u8>, u64)>) -> bool {
    &&& distinct_symbols(f1)
    &&& distinct_symbols(f2)
    &&& forall|p: (Seq<u8>, u64)| f1.contains(p) <==> f2.contains(p)
}

proof fn lemma_moved(f1: Seq<(Seq<u8>, u64)>, f2: Seq<(Seq<u8>, u64)>)
    requires
        same_pairs(f1, f2),
    ensures
        forall|i: int|
            0 <= i < f1.len() ==> 0 <= #[trigger] moved(f1, f2, i) < f2.len() && f2[moved(f1, f2, i)]
                == f1[i],
        forall|i: int, k: int|
            0 <= i < f1.len() && 0 <= k < f1.len() && #[trigger] moved(f1, f2, i) == #[trigger] moved(
                f1,
                f2,
                k,
            ) ==> i == k,
        forall|j: int|
            0 <= j < f2.len() ==> 0 <= #[trigger] moved(f2, f1, j) < f1.len() && moved(
                f1,
                f2,
                moved(f2, f1, j),
            ) == j,
{
    assert forall|i: int| 0 <= i < f1.len() implies 0 <= #[trigger] moved(f1, f2, i) < f2.len()
        && f2[moved(f1, f2, i)] == f1[i] by {
        assert(f1.contains(f1[i]));
    }
    assert forall|j: int| 0 <= j < f2.len() implies 0 <= #[trigger] moved(f2, f1, j) < f1.len()
        && f1[moved(f2, f1, j)] == f2[j] by {
        assert(f2.contains(f2[j]));
    }
    assert forall|i: int, k: int|
        0 <= i < f1.len() && 0 <= k < f1.len() && #[trigger] moved(f1, f2, i) == #[trigger] moved(
            f1,
            f2,
            k,
        ) implies i == k by {
        if i < k {
            assert(f1[i].0 != f1[k].0);
        } else if k < i {
            assert(f1[k].0 != f1[i].0);
        }
    }
    assert forall|j: int| 0 <= j < f2.len() implies moved(f1, f2, #[trigger] moved(f2, f1, j)) == j by {
        let i = moved(f2, f1, j);
        let j2 = moved(f1, f2, i);
        assert(f2[j2] == f2[j]);
        if j2 < j {
            assert(f2[j2].0 != f2[j].0);
        } else if j < j2 {
            assert(f2[j].0 != f2[j2].0);
        }
    }
}

proof fn lemma_picked_moved(f1: Seq<(Seq<u8>, u64)>, f2: Seq<(Seq<u8>, u64)>, o: Seq<int>, x: int)
    requires
        same_pairs(f1, f2),
        0 <= x < f1.len(),
        forall|t: int| 0 <= t < o.len() ==> 0 <= #[trigger] o[t] < f1.len(),
    ensures
        picked(moved_order(f1, f2, o), moved(f1, f2, x)) == picked(o, x),
    decreases o.len(),
{
    if o.len() > 0 {
        lemma_moved(f1, f2);
        let d = o.drop_last();
        assert(moved_order(f1, f2, o).drop_last() =~= moved_order(f1, f2, d));
        lemma_picked_moved(f1, f2, d, x);
        assert(moved_order(f1, f2, o).last() == moved(f1, f2, o.last()));
    }
}

proof fn lemma_order_moved(f1: Seq<(Seq<u8>, u64)>, f2: Seq<(Seq<u8>, u64)>, n: nat)
    requires
        same_pairs(f1, f2),
        positive_freqs(f1),
        f1.len() > 0,
    ensures
        spread_order(f2, n) == moved_order(f1, f2, spread_order(f1, n)),
    decreases n,
{
    lemma_moved(f1, f2);
    lemma_spread_order(f1, n);
    if n > 0 {
        let o1 = spread_order(f1, (n - 1) as nat);
        let o2 = spread_order(f2, (n - 1) as nat);
        lemma_order_moved(f1, f2, (n - 1) as nat);
        lemma_spread_order(f1, (n - 1) as nat);
        lemma_next_exists(f1, o1);
        let c1 = choose|i: int| is_next(f1, o1, i);
        let c2 = moved(f1, f2, c1);
        assert forall|k: int| 0 <= k < f2.len() implies (#[trigger] f2[k]).1 > 0 by {
            assert(f2[k] == f1[moved(f2, f1, k)]);
        }
        assert forall|j2: int| 0 <= j2 < f2.len() && j2 != c2 implies #[trigger] precedes(f2, o2, c2, j2) by {
            let j = moved(f2, f1, j2);
            assert(moved(f1, f2, j) == j2);
            assert(j != c1);
            assert(precedes(f1, o1, c1, j));
            lemma_picked_moved(f1, f2, o1, c1);
            lemma_picked_moved(f1, f2, o1, j);
        }
        assert(is_next(f2, o2, c2));
        let c = choose|i: int| is_next(f2, o2, i);
        lemma_next_unique(f2, o2, c, c2);
        assert(spread_order(f2, n) =~= moved_order(f1, f2, spread_order(f1, n)));
    } else {
        assert(spread_order(f2, n) =~= moved_order(f1, f2, spread_order(f1, n)));
    }
}

/// Construction is determined by the frequency table as a mapping: two
/// tables that list the same (symbol, count) pairs, in whatever order, give
/// the same key for every slot. (Frequencies are positive wherever a table
/// is built at all.)
pub proof fn lemma_spread_deterministic(
    f1: Seq<(Seq<u8>, u64)>,
    f2: Seq<(Seq<u8>, u64)>,
    cfg: TableANSConfig,
)
    requires
        distinct_symbols(f1),
        distinct_symbols(f2),
        forall|p: (Seq<u8>, u64)| f1.contains(p) <==> f2.contains(p),
        positive_freqs(f1),
    ensures
        spread_keys(f1, cfg) == spread_keys(f2, cfg),
{
    let n = spread_len(cfg);
    if f1.len() == 0 {
        if f2.len() > 0 {
            assert(f2.contains(f2[0]));
        }
        assert(f1 =~= f2);
    } else {
        lemma_moved(f1, f2);
        lemma_order_moved(f1, f2, n);
        lemma_spread_order(f1, n);
        let o1 = spread_order(f1, n);
        let o2 = spread_order(f2, n);
        let k1 = spread_keys(f1, cfg);
        let k2 = spread_keys(f2, cfg);
        assert forall|t: int| 0 <= t < n implies k1[t] == k2[t] by {
            assert(0 <= o1[t] < f1.len());
            assert(o2.take(t) =~= moved_order(f1, f2, o1.take(t)));
            lemma_picked_moved(f1, f2, o1.take(t), o1[t]);
        }
        assert(k1 =~= k2);
    }
}

/// On equal priority values, the more frequent (more probable) symbol takes
/// the earlier slot. The key `(s, k)` of a symbol of frequency `f` stands for
/// its occurrence with priority value `(k - f + 1/2) / p`; if the keys in
/// slots `L + t1` and `L + t2` belong to symbols `a` and `b` with equal such
/// values and `a` is the more frequent, then `t1 < t2`.
pub proof fn lemma_tie_break(freqs: Seq<(Seq<u8>, u64)>, cfg: TableANSConfig, t1: int, t2: int, a: int, b: int)
    requires
        crate::frequency::distinct_symbols(freqs),
        !degenerate(freqs, cfg),
        forall|j: int| 0 <= j < freqs.len() ==> (#[trigger] freqs[j]).1 + spread_len(cfg) <= u64::MAX + 1,
        0 <= a < freqs.len(),
        0 <= b < freqs.len(),
        0 <= t1 < spread_len(cfg),
        0 <= t2 < spread_len(cfg),
        spread_keys(freqs, cfg)[t1].0 == freqs[a].0,
        spread_keys(freqs, cfg)[t2].0 == freqs[b].0,
        freqs[a].1 > freqs[b].1,
        (2 * (spread_keys(freqs, cfg)[t1].1 - freqs[a].1) + 1) * freqs[b].1 == (2 * (spread_keys(
            freqs,
            cfg,
        )[t2].1 - freqs[b].1) + 1) * freqs[a].1,
    ensures
        t1 < t2,
{
    let n = spread_len(cfg);
    let o = spread_order(freqs, n);
    assert(positive_freqs(freqs));
    lemma_spread_order(freqs, n);
    assert(is_next(freqs, o.take(t1), o[t1]));
    assert(is_next(freqs, o.take(t2), o[t2]));
    assert(o[t1] == a) by {
        if o[t1] < a {
            assert(freqs[o[t1]].0 != freqs[a].0);
        } else if a < o[t1] {
            assert(freqs[a].0 != freqs[o[t1]].0);
        }
    }
    assert(o[t2] == b) by {
        if o[t2] < b {
            assert(freqs[o[t2]].0 != freqs[b].0);
        } else if b < o[t2] {
            assert(freqs[b].0 != freqs[o[t2]].0);
        }
    }
    lemma_picked_bound(o.take(t1), a);
    lemma_picked_bound(o.take(t2), b);
    if t2 <= t1 {
        let ca = picked(o.take(t1), a) as int;
        let cb = picked(o.take(t2), b) as int;
        let c = picked(o.take(t2), a) as int;
        lemma_picked_monotone(o, t2, t1, a);
        let fa = freqs[a].1 as int;
        let fb = freqs[b].1 as int;
        assert((2 * ca + 1) * fb == (2 * cb + 1) * fa);
        assert((2 * c + 1) * fb <= (2 * ca + 1) * fb) by (nonlinear_arith)
            requires
                c <= ca,
                fb > 0,
        ;
        assert(precedes(freqs, o.take(t2), a, b));
        assert(precedes(freqs, o.take(t2), b, a));
        lemma_precedes_total(freqs, o.take(t2), a, b);
    }
}

/// Compares the priority values of two symbols, exactly.
fn compare_keys(ca: u64, fa: u64, cb: u64, fb: u64) -> (r: (bool, bool))
    ensures
        r.0 == ((2 * ca + 1) * fb < (2 * cb + 1) * fa),
        r.1 == ((2 * ca + 1) * fb == (2 * cb + 1) * fa),
{
    assert((ca as int) * (fb as int) <= (u64::MAX as int) * (u64::MAX as int)) by (nonlinear_arith)
        requires
            0 <= ca <= u64::MAX,
            0 <= fb <= u64::MAX,
    ;
    assert((cb as int) * (fa as int) <= (u64::MAX as int) * (u64::MAX as int)) by (nonlinear_arith)
        requires
            0 <= cb <= u64::MAX,
            0 <= fa <= u64::MAX,
    ;
    assert((2 * ca + 1) * fb == 2 * (ca * fb) + fb) by (nonlinear_arith);
    assert((2 * cb + 1) * fa == 2 * (cb * fa) + fa) by (nonlinear_arith);
    let p: u128 = ca as u128 * fb as u128;
    let q: u128 = cb as u128 * fa as u128;
    if p >= q {
        let d: u128 = p - q;
        if d > u64::MAX as u128 {
            (false, false)
        } else {
            let k: u128 = 2 * d + fb as u128;
            (k < fa as u128, k == fa as u128)
        }
    } else {
        let d: u128 = q - p;
        if d > u64::MAX as u128 {
            (true, false)
        } else {
            let k: u128 = 2 * d + fa as u128;
            (k > fb as u128, k == fb as u128)
        }
    }
}

/// Whether a symbol `sa` placed `ca` times with frequency `fa` is due
/// before a symbol `sb` placed `cb` times with frequency `fb` (see `before`).
pub fn before_exec(ca: u64, fa: u64, sa: &Vec<u8>, cb: u64, fb: u64, sb: &Vec<u8>) -> (r: bool)
    ensures
        r == before(ca as int, fa as int, sa@, cb as int, fb as int, sb@),
{
    let (less, equal) = compare_keys(ca, fa, cb, fb);
    less || (equal && (fa > fb || (fa == fb && bytes_less(sa, sb))))
}

/// Assignment of every slot of the working interval to a key
/// `(symbol, occurrence)`: slot `start + t` holds the key at position `t`.
pub struct SpreadTable {
    start: u64,
    entries: Vec<(Vec<u8>, u64)>,
}

impl View for SpreadTable {
    type V = Seq<(Seq<u8>, u64)>;

    closed spec fn view(&self) -> Seq<(Seq<u8>, u64)> {
        self.entries@.map_values(|e: (Vec<u8>, u64)| (e.0@, e.1))
    }
}

impl SpreadTable {
    #[verifier::type_invariant]
    spec fn inv(&self) -> bool {
        self.start + self.entries.len() <= u64::MAX
    }

    /// The first slot of the working interval.
    pub closed spec fn first_slot(&self) -> u64 {
        self.start
    }

    /// The first slot of the working interval.
    pub fn start(&self) -> (r: u64)
        ensures
            r == self.first_slot(),
    {
        self.start
    }

    /// Number of slots.
    pub fn len(&self) -> (r: usize)
        ensures
            r == self@.len(),
    {
        self.entries.len()
    }

    /// The key held by slot `start() + t`.
    pub fn key_at(&self, t: usize) -> (r: (&Vec<u8>, u64))
        requires
            t < self@.len(),
        ensures
            r.0@ == self@[t as int].0,
            r.1 == self@[t as int].1,
    {
        let e = &self.entries[t];
        (&e.0, e.1)
    }

    /// The slot assigned to the `occurrence`-th appearance of `symbol`.
    pub fn get(&self, symbol: &Vec<u8>, occurrence: u64) -> (r: Option<u64>)
        ensures
            match r {
                Some(x) => self@.index_of_first((symbol@, occurrence)) == Some(
                    x - self.first_slot(),
                ),
                None => self@.index_of_first((symbol@, occurrence)) is None,
            },
    {
        proof {
            use_type_invariant(self);
            self@.index_of_first_ensures((symbol@, occurrence));
        }
        let ghost key = (symbol@, occurrence);
        let mut t: usize = 0;
        while t < self.entries.len()
            invariant
                t <= self@.len() == self.entries.len(),
                self.start + self.entries.len() <= u64::MAX,
                key == (symbol@, occurrence),
                forall|k: int| 0 <= k < t ==> self@[k] != key,
            decreases self.entries.len() - t,
        {
            assert(self@[t as int] == (self.entries@[t as int].0@, self.entries@[t as int].1));
            let entry = &self.entries[t];
            let same = entry.1 == occurrence && crate::frequency::bytes_eq(&entry.0, symbol);
            assert(same == (self@[t as int].1 == key.1 && self@[t as int].0 == key.0));
            if same {
                proof {
                    self@.index_of_first_ensures(key);
                    assert(self@[t as int] == key);
                    match self@.index_of_first(key) {
                        Some(i) => {
                            if i < t {
                                assert(self@[i] == key);
                            }
                        },
                        None => {},
                    }
                }
                return Some(self.start + t as u64);
            }
            assert(self@[t as int] != key);
            t += 1;
        }
        proof {
            self@.index_of_first_ensures(key);
            match self@.index_of_first(key) {
                Some(i) => {
                    assert(self@[i] == key);
                },
                None => {},
            }
        }
        None
    }
}

/// Builds the spread table: each slot `x` of `[L, B * L)`, in increasing
/// order, goes to the symbol whose priority value is smallest (see `before`),
/// keyed by that symbol's current occurrence index, which then moves on.
pub fn generate_table(symbol_freqs: &FrequencyTable, config: &TableANSConfig) -> (r: Result<
    SpreadTable,
    TansError,
>)
    requires
        config.base * config.table_size <= u64::MAX,
        forall|j: int|
            0 <= j < symbol_freqs@.len() ==> (#[trigger] symbol_freqs@[j]).1 + spread_len(*config)
                <= u64::MAX + 1,
    ensures
        degenerate(symbol_freqs@, *config) ==> r == Err::<SpreadTable, TansError>(
            TansError::DegenerateDistribution,
        ),
        !degenerate(symbol_freqs@, *config) && exhausted(symbol_freqs@, *config) ==> r == Err::<
            SpreadTable,
            TansError,
        >(TansError::TableExhausted),
        !degenerate(symbol_freqs@, *config) && !exhausted(symbol_freqs@, *config) ==> r is Ok,
        r matches Ok(t) ==> t.first_slot() == config.table_size && t@ == spread_keys(
            symbol_freqs@,
            *config,
        ),
        r matches Ok(t) ==> config.base >= 1 ==> t@.len() == config.base * config.table_size
            - config.table_size,
        r matches Ok(t) ==> config.base == 0 ==> t@.len() == 0,
        r matches Ok(t) ==> forall|t1: int, t2: int|
            0 <= t1 < t2 < t@.len() ==> #[trigger] t@[t1] != #[trigger] t@[t2],
{
    proof {
        use_type_invariant(symbol_freqs);
    }
    let ghost freqs = symbol_freqs@;
    let n = symbol_freqs.len();
    let mut j: usize = 0;
    while j < n
        invariant
            n == freqs.len(),
            freqs == symbol_freqs@,
            j <= n,
            forall|k: int| 0 <= k < j ==> freqs[k].1 > 0,
        decreases n - j,
    {
        if symbol_freqs.count_at(j) == 0 {
            return Err(TansError::DegenerateDistribution);
        }
        j += 1;
    }
    if n > 0 && config.total_num_symbols == 0 {
        return Err(TansError::DegenerateDistribution);
    }
    let l = config.table_size;
    if config.base >= 1 {
        assert(config.base * l >= l) by (nonlinear_arith)
            requires
                config.base >= 1,
        ;
    }
    let steps: u64 = if config.base >= 1 {
        config.base * l - l
    } else {
        0
    };
    assert(steps == spread_len(*config)) by (nonlinear_arith)
        requires
            steps == (if config.base >= 1 {
                config.base * l - l
            } else {
                0
            }),
            l == config.table_size,
    ;
    if n == 0 {
        if steps > 0 {
            return Err(TansError::TableExhausted);
        }
        let t = SpreadTable { start: l, entries: Vec::new() };
        assert(t@ =~= spread_keys(freqs, *config));
        proof {
            lemma_spread_bijection(freqs, *config);
        }
        return Ok(t);
    }
    let mut counts: Vec<u64> = Vec::new();
    while counts.len() < n
        invariant
            counts.len() <= n,
            forall|k: int| 0 <= k < counts.len() ==> counts@[k] == 0,
        decreases n - counts.len(),
    {
        counts.push(0);
    }
    let ghost mut order: Seq<int> = Seq::empty();
    let mut entries: Vec<(Vec<u8>, u64)> = Vec::new();
    let mut t: u64 = 0;
    while t < steps
        invariant
            n == freqs.len() == counts.len(),
            n > 0,
            freqs == symbol_freqs@,
            forall|k: int| 0 <= k < n ==> freqs[k].1 > 0,
            distinct_symbols(freqs),
            forall|k: int| 0 <= k < n ==> (#[trigger] freqs[k]).1 + steps <= u64::MAX + 1,
            steps == spread_len(*config),
            steps + l <= u64::MAX,
            t <= steps,
            order == spread_order(freqs, t as nat),
            order.len() == t,
            forall|u: int| 0 <= u < t ==> 0 <= #[trigger] order[u] < n,
            forall|k: int| 0 <= k < n ==> counts@[k] == picked(order, k),
            entries@.len() == t,
            forall|u: int|
                0 <= u < t ==> (#[trigger] entries@[u]).0@ == freqs[order[u]].0 && entries@[u].1
                    == freqs[order[u]].1 + picked(order.take(u), order[u]),
        decreases steps - t,
    {
        let mut best: usize = 0;
        let mut j: usize = 1;
        while j < n
            invariant
                n == freqs.len() == counts.len(),
                freqs == symbol_freqs@,
                forall|k: int| 0 <= k < n ==> freqs[k].1 > 0,
                distinct_symbols(freqs),
                forall|k: int| 0 <= k < n ==> counts@[k] == picked(order, k),
                1 <= j <= n,
                best < j,
                forall|k: int| 0 <= k < j && k != best ==> #[trigger] precedes(freqs, order, best as int, k),
            decreases n - j,
        {
            let goes_first = before_exec(
                counts[j],
                symbol_freqs.count_at(j),
                symbol_freqs.symbol_at(j),
                counts[best],
                symbol_freqs.count_at(best),
                symbol_freqs.symbol_at(best),
            );
            proof {
                assert(counts@[j as int] == picked(order, j as int));
                assert(counts@[best as int] == picked(order, best as int));
                assert(goes_first == precedes(freqs, order, j as int, best as int));
            }
            if goes_first {
                proof {
                    assert forall|k: int| 0 <= k < j + 1 && k != j implies #[trigger] precedes(freqs, order, j as int, k) by {
                        if k != best {
                            assert(precedes(freqs, order, best as int, k));
                            lemma_precedes_transitive(freqs, order, j as int, best as int, k);
                        }
                    }
                }
                best = j;
            } else {
                proof {
                    lemma_precedes_total(freqs, order, j as int, best as int);
                }
            }
            j += 1;
        }
        proof {
            assert(is_next(freqs, order, best as int));
            let c = choose|i: int| is_next(freqs, order, i);
            lemma_next_unique(freqs, order, c, best as int);
            lemma_picked_bound(order, best as int);
            assert(freqs[best as int].1 + steps <= u64::MAX + 1);
            assert(counts@[best as int] == picked(order, best as int));
        }
        let c = counts[best];
        let xs = symbol_freqs.count_at(best) + c;
        entries.push((copy_bytes(symbol_freqs.symbol_at(best)), xs));
        counts.set(best, c + 1);
        proof {
            let o = order;
            order = o.push(best as int);
            assert(order == spread_order(freqs, (t + 1) as nat));
            assert forall|k: int| 0 <= k < n implies counts@[k] == picked(order, k) by {
                lemma_picked_push(o, best as int, k);
            }
            assert forall|u: int| 0 <= u < t + 1 implies (#[trigger] entries@[u]).0@ == freqs[order[u]].0
                && entries@[u].1 == freqs[order[u]].1 + picked(order.take(u), order[u]) by {
                if u < t {
                    assert(order.take(u) =~= o.take(u));
                } else {
                    assert(order.take(u) =~= o);
                }
            }
        }
        t += 1;
    }
    let table = SpreadTable { start: l, entries };
    proof {
        let keys = spread_keys(freqs, *config);
        assert forall|u: int| 0 <= u < table@.len() implies table@[u] == keys[u] by {
            assert(table@[u] == (entries@[u].0@, entries@[u].1));
        }
        assert(table@ =~= keys);
        assert(!degenerate(freqs, *config));
        lemma_spread_bijection(freqs, *config);
    }
    Ok(table)
}

/// The symbols of `symbols` as byte sequences.
pub open spec fn symbols_view(symbols: Seq<Vec<u8>>) -> Seq<Seq<u8>> {
    symbols.map_values(|v: Vec<u8>| v@)
}

/// The key looked up for the symbol at position `i`: the symbol, with the
/// number of its occurrences up to and including position `i`.
pub open spec fn encoding_key(syms: Seq<Seq<u8>>, i: int) -> (Seq<u8>, u64) {
    (syms[i], occurrences(syms.take(i + 1), syms[i]) as u64)
}

/// The table has a slot for the key of position `i`.
pub open spec fn has_slot(keys: Seq<(Seq<u8>, u64)>, syms: Seq<Seq<u8>>, i: int) -> bool {
    keys.index_of_first(encoding_key(syms, i)) is Some
}

/// Runs the encoder over `symbols`, starting from state `table_size`, and
/// returns the states it passes through, the initial one first. Each symbol
/// moves the state to the slot of `(symbol, k)` when it is the `k`-th
/// occurrence of that symbol; a key without a slot stops the encoding.
pub fn encode(symbols: &Vec<Vec<u8>>, code_table: SpreadTable, config: TableANSConfig) -> (r:
    Result<Vec<u64>, TansError>)
    ensures
        (r is Ok) == (forall|i: int|
            0 <= i < symbols@.len() ==> #[trigger] has_slot(code_table@, symbols_view(symbols@), i)),
        r matches Ok(states) ==> {
            &&& states@.len() == symbols@.len() + 1
            &&& states@[0] == config.table_size
            &&& forall|i: int|
                0 <= i < symbols@.len() ==> code_table@.index_of_first(
                    encoding_key(symbols_view(symbols@), i),
                ) == Some(#[trigger] states@[i + 1] - code_table.first_slot())
        },
        r matches Err(e) ==> exists|m: int|
            {
                &&& 0 <= m < symbols@.len()
                &&& !has_slot(code_table@, symbols_view(symbols@), m)
                &&& forall|i: int|
                    0 <= i < m ==> #[trigger] has_slot(code_table@, symbols_view(symbols@), i)
                &&& e matches TansError::UnknownSymbolOccurrence { symbol, occurrence }
                &&& (symbol@, occurrence) == encoding_key(symbols_view(symbols@), m)
            },
{
    let ghost syms = symbols_view(symbols@);
    let mut seen_counts = FrequencyTable::new();
    let mut states: Vec<u64> = Vec::new();
    states.push(config.table_size);
    proof {
        assert(syms.take(0) =~= Seq::<Seq<u8>>::empty());
        assert(symbols_of(seen_counts@) =~= Seq::<Seq<u8>>::empty());
    }
    let mut i: usize = 0;
    while i < symbols.len()
        invariant
            syms == symbols_view(symbols@),
            i <= symbols@.len(),
            is_frequency_table(seen_counts@, syms.take(i as int)),
            symbols_of(seen_counts@) == distinct_in_order(syms.take(i as int)),
            total_count(seen_counts@) == i,
            states@.len() == i + 1,
            states@[0] == config.table_size,
            forall|k: int|
                0 <= k < i ==> code_table@.index_of_first(encoding_key(syms, k)) == Some(
                    #[trigger] states@[k + 1] - code_table.first_slot(),
                ),
            forall|k: int| 0 <= k < i ==> #[trigger] has_slot(code_table@, syms, k),
        decreases symbols@.len() - i,
    {
        let ghost before = syms.take(i as int);
        let symbol = &symbols[i];
        proof {
            assert(before.push(symbol@) =~= syms.take(i + 1));
        }
        let k = seen_counts.record(copy_bytes(symbol), Ghost(before));
        match code_table.get(symbol, k) {
            Some(x) => {
                states.push(x);
            },
            None => {
                let e = TansError::UnknownSymbolOccurrence { symbol: copy_bytes(symbol), occurrence: k };
                assert(!has_slot(code_table@, syms, i as int));
                return Err(e);
            },
        }
        i += 1;
    }
    Ok(states)
}

} // verus!
