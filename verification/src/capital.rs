use vstd::prelude::*;

use crate::indices::{PortfolidIndices, thin_from_front, lemma_thin_from_front, embeds};

verus! {

/// Position of the `f64` with bit pattern `bits` in the IEEE 754 total order
/// (negative NaNs, negative numbers, -0.0, +0.0, positive numbers, positive
/// NaNs): a non-negative pattern keeps its value, a negative one maps to
/// `2^63 - 1 - bits`, so that larger magnitudes of negative numbers come lower.
pub open spec fn total_order_key(bits: u64) -> int {
    if bits < 0x8000_0000_0000_0000 {
        bits as int
    } else {
        0x7fff_ffff_ffff_ffff - bits
    }
}

/// The total-order key sorts bit patterns as the IEEE 754 total order sorts the
/// doubles they encode: patterns with the sign bit clear come in increasing
/// pattern order, patterns with the sign bit set in decreasing pattern order and
/// below all of the former, and distinct patterns get distinct keys.
pub proof fn lemma_total_order_key_order(a: u64, b: u64)
    ensures
        a < 0x8000_0000_0000_0000 && b < 0x8000_0000_0000_0000 ==> (total_order_key(a) < total_order_key(b)
            <==> a < b),
        a >= 0x8000_0000_0000_0000 && b >= 0x8000_0000_0000_0000 ==> (total_order_key(a) < total_order_key(b)
            <==> a > b),
        a >= 0x8000_0000_0000_0000 && b < 0x8000_0000_0000_0000 ==> total_order_key(a) < total_order_key(b),
        total_order_key(a) == total_order_key(b) <==> a == b,
{
}

/// The total-order key of `bits` as a machine integer.
pub fn total_order_key_of(bits: u64) -> (k: i64)
    ensures
        k == total_order_key(bits),
{
    if bits < 0x8000_0000_0000_0000 {
        bits as i64
    } else {
        let m: u64 = bits - 0x8000_0000_0000_0000;
        -1i64 - (m as i64)
    }
}

/// Final capital of each rolling window, as the bit pattern of the `f64`
/// capital (`None` for days on which no window ends yet).
pub struct CapitalReturns(pub Vec<Option<u64>>);

impl View for CapitalReturns {
    type V = Seq<Option<u64>>;

    open spec fn view(&self) -> Seq<Option<u64>> {
        self.0@
    }
}

/// A capital with bit pattern `a` may be ranked before one with pattern `b`:
/// among non-negative patterns (sign bit clear) the larger pattern, among
/// negative ones the smaller pattern, and a non-negative one before any
/// negative one.
pub open spec fn capital_bits_ranked(a: u64, b: u64) -> bool {
    if a < 0x8000_0000_0000_0000 && b < 0x8000_0000_0000_0000 {
        a >= b
    } else if a >= 0x8000_0000_0000_0000 && b >= 0x8000_0000_0000_0000 {
        a <= b
    } else {
        a < 0x8000_0000_0000_0000
    }
}

/// A capital ranking puts capitals in the order of their bit patterns as
/// `capital_bits_ranked` describes.
pub proof fn lemma_ranking_by_bits(c: Seq<Option<u64>>, r: Seq<usize>)
    requires
        is_capital_ranking(c, r),
    ensures
        forall|k: int, l: int|
            0 <= k < l < r.len() ==> capital_bits_ranked(
                c[#[trigger] r[k] as int].unwrap(),
                c[#[trigger] r[l] as int].unwrap(),
            ),
{
    assert forall|k: int, l: int| 0 <= k < l < r.len() implies capital_bits_ranked(
        c[#[trigger] r[k] as int].unwrap(),
        c[#[trigger] r[l] as int].unwrap(),
    ) by {
        let a = c[r[k] as int].unwrap();
        let b = c[r[l] as int].unwrap();
        assert(capital_key(c, r[k]) >= capital_key(c, r[l]));
        lemma_total_order_key_order(a, b);
        lemma_total_order_key_order(b, a);
    }
}

/// Total-order key of the capital of window `i` of `c`.
pub open spec fn capital_key(c: Seq<Option<u64>>, i: usize) -> int {
    total_order_key(c[i as int].unwrap())
}

/// `r` ranks the windows of `c` from the largest capital down: it lists every
/// day that has a capital exactly once, and nothing else, with capitals in
/// non-increasing total order.
pub open spec fn is_capital_ranking(c: Seq<Option<u64>>, r: Seq<usize>) -> bool {
    &&& forall|k: int| 0 <= k < r.len() ==> #[trigger] r[k] < c.len() && c[r[k] as int] is Some
    &&& forall|i: usize| i < c.len() && c[i as int] is Some ==> #[trigger] r.contains(i)
    &&& forall|k: int, l: int| 0 <= k < l < r.len() ==> #[trigger] r[k] != #[trigger] r[l]
    &&& forall|k: int, l: int|
        0 <= k < l < r.len() ==> capital_key(c, #[trigger] r[k]) >= capital_key(c, #[trigger] r[l])
}

impl CapitalReturns {
    /// The days that have a capital, ranked from the largest capital to the
    /// smallest in the IEEE 754 total order (equal capitals in some order).
    pub fn sorting_final_capital(&self) -> (res: PortfolidIndices)
        ensures
            is_capital_ranking(self@, res@),
            forall|k: int, l: int|
                0 <= k < l < res@.len() ==> capital_bits_ranked(
                    self@[#[trigger] res@[k] as int].unwrap(),
                    self@[#[trigger] res@[l] as int].unwrap(),
                ),
    {
        let n: usize = self.0.len();
        let mut out: Vec<usize> = Vec::new();
        let mut keys: Vec<i64> = Vec::new();
        let mut i: usize = 0;
        while i < n
            invariant
                n == self@.len(),
                i <= n,
                keys.len() == out.len(),
                forall|k: int| 0 <= k < out.len() ==> #[trigger] out@[k] < i && self@[out@[k] as int] is Some,
                forall|k: int| 0 <= k < out.len() ==> #[trigger] keys@[k] == capital_key(self@, out@[k]),
                forall|j: usize| j < i && self@[j as int] is Some ==> #[trigger] out@.contains(j),
                forall|k: int, l: int| 0 <= k < l < out.len() ==> #[trigger] out@[k] != #[trigger] out@[l],
                forall|k: int, l: int| 0 <= k < l < out.len() ==> #[trigger] keys@[k] >= #[trigger] keys@[l],
            decreases n - i,
        {
            match self.0[i] {
                Some(bits) => {
                    let key: i64 = total_order_key_of(bits);
                    let mut p: usize = 0;
                    while p < out.len() && keys[p] >= key
                        invariant
                            p <= out.len(),
                            keys.len() == out.len(),
                            forall|q: int| 0 <= q < p ==> #[trigger] keys@[q] >= key,
                        decreases out.len() - p,
                    {
                        p = p + 1;
                    }
                    let ghost old_out = out@;
                    let ghost old_keys = keys@;
                    out.insert(p, i);
                    keys.insert(p, key);
                    proof {
                        old_out.insert_ensures(p as int, i);
                        old_keys.insert_ensures(p as int, key);
                        assert forall|k: int, l: int| 0 <= k < l < out.len() implies #[trigger] keys@[k]
                            >= #[trigger] keys@[l] by {
                            if l < p {
                            } else if k > p {
                                assert(keys@[k] == old_keys[k - 1] && keys@[l] == old_keys[l - 1]);
                            } else if k == p {
                                assert(old_keys[p as int] < key);
                                assert(keys@[l] == old_keys[l - 1]);
                            } else if l == p {
                            } else {
                                assert(keys@[l] == old_keys[l - 1]);
                            }
                        }
                        assert forall|k: int, l: int| 0 <= k < l < out.len() implies #[trigger] out@[k]
                            != #[trigger] out@[l] by {
                            if l < p {
                            } else if k > p {
                                assert(out@[k] == old_out[k - 1] && out@[l] == old_out[l - 1]);
                            } else if k == p {
                                assert(out@[l] == old_out[l - 1]);
                            } else if l == p {
                            } else {
                                assert(out@[l] == old_out[l - 1]);
                            }
                        }
                        assert forall|k: int| 0 <= k < out.len() implies #[trigger] out@[k] < i + 1
                            && self@[out@[k] as int] is Some by {
                            if k > p {
                                assert(out@[k] == old_out[k - 1]);
                            }
                        }
                        assert forall|k: int| 0 <= k < out.len() implies #[trigger] keys@[k] == capital_key(
                            self@,
                            out@[k],
                        ) by {
                            if k > p {
                                assert(out@[k] == old_out[k - 1]);
                            }
                        }
                        assert forall|j: usize| j < i + 1 && self@[j as int] is Some implies #[trigger] out@.contains(j) by {
                            if j == i {
                                assert(out@[p as int] == i);
                            } else {
                                assert(old_out.contains(j));
                                let q = choose|q: int| 0 <= q < old_out.len() && old_out[q] == j;
                                if q < p {
                                    assert(out@[q] == j);
                                } else {
                                    assert(out@[q + 1] == j);
                                }
                            }
                        }
                    }
                },
                None => {},
            }
            i = i + 1;
        }
        assert forall|k: int, l: int| 0 <= k < l < out.len() implies capital_key(self@, #[trigger] out@[k])
            >= capital_key(self@, #[trigger] out@[l]) by {
            assert(keys@[k] >= keys@[l]);
        }
        let res = PortfolidIndices(out);
        proof {
            lemma_ranking_by_bits(self@, res@);
        }
        res
    }
}

/// When some window has a capital, thinning a capital ranking from its best end
/// keeps, first, a window whose capital is the largest of all, and keeps the
/// windows it retains in non-increasing order of capital.
pub proof fn lemma_best_window_first(c: Seq<Option<u64>>, r: Seq<usize>)
    requires
        is_capital_ranking(c, r),
        exists|i: usize| i < c.len() && c[i as int] is Some,
    ensures
        thin_from_front(r).len() > 0,
        thin_from_front(r)[0] < c.len(),
        c[thin_from_front(r)[0] as int] is Some,
        forall|i: usize|
            i < c.len() && c[i as int] is Some ==> capital_key(c, thin_from_front(r)[0]) >= #[trigger] capital_key(c, i),
        forall|k: int, l: int|
            0 <= k < l < thin_from_front(r).len() ==> capital_key(c, #[trigger] thin_from_front(r)[k])
                >= capital_key(c, #[trigger] thin_from_front(r)[l]),
{
    let t = thin_from_front(r);
    lemma_thin_from_front(r);
    let w = choose|i: usize| i < c.len() && c[i as int] is Some;
    assert(r.contains(w));
    assert(t[0] == r[0]);
    assert forall|i: usize| i < c.len() && c[i as int] is Some implies capital_key(c, t[0])
        >= #[trigger] capital_key(c, i) by {
        assert(r.contains(i));
        let q = choose|q: int| 0 <= q < r.len() && r[q] == i;
        if q > 0 {
            assert(capital_key(c, r[0]) >= capital_key(c, r[q]));
        }
    }
    let m = choose|m: Seq<int>| embeds(t, r, m);
    assert forall|k: int, l: int| 0 <= k < l < t.len() implies capital_key(c, #[trigger] t[k])
        >= capital_key(c, #[trigger] t[l]) by {
        assert(m[k] < m[l]);
        assert(t[k] == r[m[k]] && t[l] == r[m[l]]);
    }
}

/// When some window has a capital, thinning a capital ranking from its worst end
/// keeps, first, a window whose capital is the smallest of all.
pub proof fn lemma_worst_window_first(c: Seq<Option<u64>>, r: Seq<usize>)
    requires
        is_capital_ranking(c, r),
        exists|i: usize| i < c.len() && c[i as int] is Some,
    ensures
        thin_from_front(r.reverse()).len() > 0,
        thin_from_front(r.reverse())[0] < c.len(),
        c[thin_from_front(r.reverse())[0] as int] is Some,
        forall|i: usize|
            i < c.len() && c[i as int] is Some ==> #[trigger] capital_key(c, i) >= capital_key(
                c,
                thin_from_front(r.reverse())[0],
            ),
{
    let rv = r.reverse();
    lemma_thin_from_front(rv);
    let w = choose|i: usize| i < c.len() && c[i as int] is Some;
    assert(r.contains(w));
    assert(rv[0] == r[r.len() - 1]);
    assert forall|i: usize| i < c.len() && c[i as int] is Some implies #[trigger] capital_key(c, i)
        >= capital_key(c, thin_from_front(rv)[0]) by {
        assert(r.contains(i));
        let q = choose|q: int| 0 <= q < r.len() && r[q] == i;
        if q < r.len() - 1 {
            assert(capital_key(c, r[q]) >= capital_key(c, r[r.len() - 1]));
        }
    }
}

} // verus!
