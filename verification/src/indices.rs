use vstd::prelude::*;

verus! {

/// Half-width, in days, of the neighbourhood around a kept window index
/// inside which other indices count as redundant.
pub const REDUNDANCY_SPAN: usize = 21;

/// `x` lies outside the neighbourhood of `n`: more than 21 days after it or
/// more than 21 days before it.
pub open spec fn far(x: usize, n: usize) -> bool {
    x > n + 21 || x < n - 21
}

/// The predicate "far from `n`" on window indices.
pub open spec fn far_from(n: usize) -> spec_fn(usize) -> bool {
    |x: usize| far(x, n)
}

/// Greedy thinning from the front: keep the first index, drop every later index
/// within 21 days of it, and go on with what is left.
pub open spec fn thin_from_front(s: Seq<usize>) -> Seq<usize>
    decreases s.len(),
{
    if s.len() == 0 {
        Seq::empty()
    } else {
        let rest = s.drop_first().filter(far_from(s[0]));
        proof {
            s.drop_first().lemma_filter_len(far_from(s[0]));
        }
        seq![s[0]] + thin_from_front(rest)
    }
}

/// One thinning step around `n` stays within the range of `usize`: comparing a
/// remaining index `x` against `n + 21` needs `n + 21` to fit, and comparing it
/// against `n - 21` (done only when `x <= n + 21`) needs `n >= 21`.
pub open spec fn step_is_safe(n: usize, rest: Seq<usize>) -> bool {
    rest.len() > 0 ==> {
        &&& n + 21 <= usize::MAX
        &&& forall|i: int| 0 <= i < rest.len() ==> (rest[i] > n + 21 || n >= 21)
    }
}

/// Every step of the greedy thinning of `s` stays within the range of `usize`.
pub open spec fn thin_is_safe(s: Seq<usize>) -> bool
    decreases s.len(),
{
    if s.len() == 0 {
        true
    } else {
        let rest = s.drop_first().filter(far_from(s[0]));
        proof {
            s.drop_first().lemma_filter_len(far_from(s[0]));
        }
        step_is_safe(s[0], s.drop_first()) && thin_is_safe(rest)
    }
}

/// Runs the greedy thinning from the front on `v`; `None` exactly where one of
/// its comparisons would leave the range of `usize`.
fn thin_checked(v: &Vec<usize>) -> (r: Option<Vec<usize>>)
    ensures
        r is Some <==> thin_is_safe(v@),
        r matches Some(t) ==> t@ == thin_from_front(v@),
{
    let mut rest: Vec<usize> = Vec::new();
    let mut k: usize = 0;
    while k < v.len()
        invariant
            k <= v.len(),
            rest@ == v@.subrange(0, k as int),
        decreases v.len() - k,
    {
        rest.push(v[k]);
        k = k + 1;
    }
    assert(rest@ =~= v@);
    let mut out: Vec<usize> = Vec::new();
    while rest.len() > 0
        invariant
            thin_from_front(v@) == out@ + thin_from_front(rest@),
            thin_is_safe(v@) == thin_is_safe(rest@),
        decreases rest.len(),
    {
        let num: usize = rest[0];
        let len: usize = rest.len();
        let ghost tail = rest@.drop_first();
        if len > 1 && num > usize::MAX - REDUNDANCY_SPAN {
            return None;
        }
        let mut next: Vec<usize> = Vec::new();
        let mut j: usize = 1;
        while j < len
            invariant
                1 <= j <= len,
                len == rest.len(),
                num == rest@[0],
                tail == rest@.drop_first(),
                thin_is_safe(v@) == thin_is_safe(rest@),
                len > 1 ==> num + 21 <= usize::MAX,
                next@ == rest@.subrange(1, j as int).filter(far_from(num)),
                forall|i: int| 1 <= i < j ==> (rest@[i] > num + 21 || num >= 21),
            decreases len - j,
        {
            let x: usize = rest[j];
            if !(x > num + REDUNDANCY_SPAN) && num < REDUNDANCY_SPAN {
                assert(!step_is_safe(num, tail)) by {
                    assert(tail[j - 1] == x);
                }
                assert(!thin_is_safe(rest@));
                return None;
            }
            proof {
                reveal(Seq::filter);
                assert(rest@.subrange(1, j + 1).drop_last() =~= rest@.subrange(1, j as int));
            }
            if x > num + REDUNDANCY_SPAN || x < num - REDUNDANCY_SPAN {
                next.push(x);
            }
            j = j + 1;
        }
        proof {
            assert(rest@.subrange(1, len as int) =~= tail);
            assert(step_is_safe(num, tail));
            assert(thin_from_front(rest@) == seq![num] + thin_from_front(next@));
            assert(out@.push(num) + thin_from_front(next@) =~= out@ + (seq![num] + thin_from_front(next@)));
        }
        out.push(num);
        rest = next;
    }
    Some(out)
}

/// `m` maps each position of `a` to a position of `b` holding the same entry,
/// with positions strictly increasing.
pub open spec fn embeds<A>(a: Seq<A>, b: Seq<A>, m: Seq<int>) -> bool {
    &&& m.len() == a.len()
    &&& forall|k: int| 0 <= k < m.len() ==> 0 <= #[trigger] m[k] < b.len() && a[k] == b[m[k]]
    &&& forall|k: int, l: int| 0 <= k < l < m.len() ==> #[trigger] m[k] < #[trigger] m[l]
}

/// `a` is obtained from `b` by deleting entries, keeping the order of the rest.
pub open spec fn is_subsequence<A>(a: Seq<A>, b: Seq<A>) -> bool {
    exists|m: Seq<int>| embeds(a, b, m)
}

/// A filtered sequence is a subsequence of the sequence it filters.
proof fn lemma_filter_is_subsequence<A>(t: Seq<A>, p: spec_fn(A) -> bool)
    ensures
        is_subsequence(t.filter(p), t),
    decreases t.len(),
{
    reveal(Seq::filter);
    if t.len() == 0 {
        assert(embeds(t.filter(p), t, Seq::<int>::empty()));
    } else {
        lemma_filter_is_subsequence(t.drop_last(), p);
        let m = choose|m: Seq<int>| embeds(t.drop_last().filter(p), t.drop_last(), m);
        if p(t.last()) {
            let m2 = m.push(t.len() - 1);
            assert(embeds(t.filter(p), t, m2));
        } else {
            assert(embeds(t.filter(p), t, m));
        }
    }
}

/// Being a subsequence is transitive.
proof fn lemma_subsequence_trans<A>(a: Seq<A>, b: Seq<A>, c: Seq<A>)
    requires
        is_subsequence(a, b),
        is_subsequence(b, c),
    ensures
        is_subsequence(a, c),
{
    let m1 = choose|m: Seq<int>| embeds(a, b, m);
    let m2 = choose|m: Seq<int>| embeds(b, c, m);
    let m = Seq::new(a.len(), |k: int| m2[m1[k]]);
    assert forall|k: int, l: int| 0 <= k < l < m.len() implies #[trigger] m[k] < #[trigger] m[l] by {
        assert(m1[k] < m1[l]);
    }
    assert(embeds(a, c, m));
}

/// Putting the same entry in front of both keeps a subsequence a subsequence.
proof fn lemma_subsequence_prepend<A>(h: A, a: Seq<A>, b: Seq<A>)
    requires
        is_subsequence(a, b),
    ensures
        is_subsequence(seq![h] + a, seq![h] + b),
{
    let m = choose|m: Seq<int>| embeds(a, b, m);
    let m2 = Seq::new(a.len() + 1, |k: int| if k == 0 { 0 } else { m[k - 1] + 1 });
    assert forall|k: int, l: int| 0 <= k < l < m2.len() implies #[trigger] m2[k] < #[trigger] m2[l] by {
        if k > 0 {
            assert(m[k - 1] < m[l - 1]);
        } else {
            assert(0 <= m[l - 1]);
        }
    }
    assert(embeds(seq![h] + a, seq![h] + b, m2));
}

/// What the greedy thinning from the front keeps: an order-preserving selection
/// of the input that starts with the input's first index, whose entries are
/// pairwise more than 21 apart, and within 21 of which every input index lies.
#[verifier::spinoff_prover]
#[verifier::rlimit(40)]
pub proof fn lemma_thin_from_front(s: Seq<usize>)
    ensures
        is_subsequence(thin_from_front(s), s),
        thin_from_front(s).len() <= s.len(),
        thin_from_front(s).len() == 0 <==> s.len() == 0,
        s.len() > 0 ==> thin_from_front(s)[0] == s[0],
        forall|i: int| 0 <= i < thin_from_front(s).len() ==> s.contains(#[trigger] thin_from_front(s)[i]),
        forall|i: int, j: int|
            0 <= i < j < thin_from_front(s).len() ==> far(
                #[trigger] thin_from_front(s)[i],
                #[trigger] thin_from_front(s)[j],
            ),
        forall|k: int|
            0 <= k < s.len() ==> exists|i: int|
                0 <= i < thin_from_front(s).len() && !far(#[trigger] s[k], thin_from_front(s)[i]),
    decreases s.len(),
{
    let t = thin_from_front(s);
    if s.len() == 0 {
        assert(embeds(t, s, Seq::<int>::empty()));
    } else {
        let p = far_from(s[0]);
        let d = s.drop_first();
        let f = d.filter(p);
        d.lemma_filter_len(p);
        lemma_thin_from_front(f);
        let tf = thin_from_front(f);
        assert(t == seq![s[0]] + tf);
        // order-preserving selection
        lemma_filter_is_subsequence(d, p);
        lemma_subsequence_trans(tf, f, d);
        lemma_subsequence_prepend(s[0], tf, d);
        assert(seq![s[0]] + d =~= s);
        let m = choose|m: Seq<int>| embeds(t, s, m);
        assert forall|i: int| 0 <= i < t.len() implies s.contains(#[trigger] t[i]) by {
            assert(s[m[i]] == t[i]);
        }
        // pairwise spread
        assert forall|i: int, j: int| 0 <= i < j < t.len() implies far(#[trigger] t[i], #[trigger] t[j]) by {
            if i == 0 {
                assert(t[j] == tf[j - 1]);
                assert(f.contains(tf[j - 1]));
                let q = choose|q: int| 0 <= q < f.len() && f[q] == tf[j - 1];
                d.lemma_filter_pred(p, q);
            } else {
                assert(t[i] == tf[i - 1] && t[j] == tf[j - 1]);
            }
        }
        // cover
        assert forall|k: int| 0 <= k < s.len() implies exists|i: int|
            0 <= i < t.len() && !far(#[trigger] s[k], t[i]) by {
            if k == 0 || !far(s[k], s[0]) {
                assert(t[0] == s[0]);
                assert(!far(s[k], t[0]));
            } else {
                assert(d[k - 1] == s[k]);
                d.lemma_filter_contains(p, k - 1);
                let q = choose|q: int| 0 <= q < f.len() && f[q] == s[k];
                let i = choose|i: int| 0 <= i < tf.len() && !far(#[trigger] f[q], tf[i]);
                assert(t[i + 1] == tf[i]);
                assert(!far(s[k], t[i + 1]));
            }
        }
    }
}

/// Some entry of `m` equals `i`.
pub open spec fn hits(m: Seq<int>, i: int) -> bool {
    exists|k: int| 0 <= k < m.len() && #[trigger] m[k] == i
}

/// `t` is what front-to-back greedy thinning keeps of `s`, at the strictly
/// increasing positions `m`: an entry of `s` is kept exactly when it is more
/// than 21 days away from every entry kept at an earlier position.
pub open spec fn front_greedy(s: Seq<usize>, t: Seq<usize>, m: Seq<int>) -> bool {
    &&& embeds(t, s, m)
    &&& forall|i: int|
        0 <= i < s.len() ==> (#[trigger] hits(m, i) <==> (forall|k: int|
            0 <= k < m.len() && m[k] < i ==> far(s[i], #[trigger] t[k])))
}

/// `t` is what back-to-front greedy thinning keeps of `s`, at the strictly
/// decreasing positions `m` (kept entries listed from the last position
/// backwards): an entry of `s` is kept exactly when it is more than 21 days away
/// from every entry kept from a later position.
pub open spec fn back_greedy(s: Seq<usize>, t: Seq<usize>, m: Seq<int>) -> bool {
    &&& m.len() == t.len()
    &&& forall|k: int| 0 <= k < m.len() ==> 0 <= #[trigger] m[k] < s.len() && t[k] == s[m[k]]
    &&& forall|k: int, l: int| 0 <= k < l < m.len() ==> #[trigger] m[k] > #[trigger] m[l]
    &&& forall|i: int|
        0 <= i < s.len() ==> (#[trigger] hits(m, i) <==> (forall|k: int|
            0 <= k < m.len() && m[k] > i ==> far(s[i], #[trigger] t[k])))
}

/// A filtered sequence sits in the original at increasing positions, which are
/// exactly the positions whose entries meet the predicate.
proof fn lemma_filter_positions<A>(d: Seq<A>, p: spec_fn(A) -> bool)
    ensures
        exists|e: Seq<int>|
            embeds(d.filter(p), d, e) && forall|j: int| 0 <= j < d.len() ==> (#[trigger] hits(e, j) <==> p(d[j])),
    decreases d.len(),
{
    reveal(Seq::filter);
    if d.len() == 0 {
        let e = Seq::<int>::empty();
        assert(embeds(d.filter(p), d, e));
    } else {
        let dl = d.drop_last();
        lemma_filter_positions(dl, p);
        let e0 = choose|e: Seq<int>|
            embeds(dl.filter(p), dl, e) && forall|j: int| 0 <= j < dl.len() ==> (#[trigger] hits(e, j) <==> p(dl[j]));
        let last = d.len() - 1;
        let e = if p(d.last()) { e0.push(last) } else { e0 };
        assert(embeds(d.filter(p), d, e));
        assert forall|j: int| 0 <= j < d.len() implies (#[trigger] hits(e, j) <==> p(d[j])) by {
            if j < last {
                assert(dl[j] == d[j]);
                if hits(e0, j) {
                    let k = choose|k: int| 0 <= k < e0.len() && #[trigger] e0[k] == j;
                    assert(e[k] == j);
                }
                if hits(e, j) {
                    let k = choose|k: int| 0 <= k < e.len() && #[trigger] e[k] == j;
                    assert(k < e0.len());
                    assert(e0[k] == j);
                }
            } else {
                if p(d.last()) {
                    assert(e[e0.len() as int] == j);
                } else {
                    if hits(e, j) {
                        let k = choose|k: int| 0 <= k < e.len() && #[trigger] e[k] == j;
                        assert(e0[k] < dl.len());
                    }
                }
            }
        }
    }
}

/// Greedy thinning from the front keeps an entry exactly when it is more than
/// 21 days away from every entry kept at an earlier position, and lists the kept
/// entries in input order.
pub proof fn lemma_thin_is_front_greedy(s: Seq<usize>)
    ensures
        exists|m: Seq<int>| front_greedy(s, thin_from_front(s), m),
    decreases s.len(),
{
    let t = thin_from_front(s);
    if s.len() == 0 {
        let m = Seq::<int>::empty();
        assert(front_greedy(s, t, m));
    } else {
        let p = far_from(s[0]);
        let d = s.drop_first();
        let f = d.filter(p);
        d.lemma_filter_len(p);
        lemma_thin_is_front_greedy(f);
        let tf = thin_from_front(f);
        assert(t == seq![s[0]] + tf);
        let mf = choose|m: Seq<int>| front_greedy(f, tf, m);
        lemma_filter_positions(d, p);
        let e = choose|e: Seq<int>|
            embeds(f, d, e) && forall|j: int| 0 <= j < d.len() ==> (#[trigger] hits(e, j) <==> p(d[j]));
        let m = Seq::new(tf.len() + 1, |k: int| if k == 0 { 0 } else { 1 + e[mf[k - 1]] });
        assert forall|k: int| 0 <= k < m.len() implies 0 <= #[trigger] m[k] < s.len() && t[k] == s[m[k]] by {
            if k > 0 {
                assert(0 <= mf[k - 1] < f.len());
                assert(tf[k - 1] == f[mf[k - 1]]);
                assert(f[mf[k - 1]] == d[e[mf[k - 1]]]);
            }
        }
        assert forall|k: int, l: int| 0 <= k < l < m.len() implies #[trigger] m[k] < #[trigger] m[l] by {
            assert(0 <= mf[l - 1] < f.len());
            assert(0 <= e[mf[l - 1]]);
            if k > 0 {
                assert(mf[k - 1] < mf[l - 1]);
                assert(e[mf[k - 1]] < e[mf[l - 1]]);
            }
        }
        assert(embeds(t, s, m));
        assert forall|i: int| 0 <= i < s.len() implies (#[trigger] hits(m, i) <==> (forall|k: int|
            0 <= k < m.len() && m[k] < i ==> far(s[i], #[trigger] t[k]))) by {
            if i == 0 {
                assert(m[0] == 0);
            } else {
                let j = i - 1;
                assert(d[j] == s[i]);
                if !p(d[j]) {
                    assert(m[0] == 0 && m[0] < i && t[0] == s[0]);
                    assert(!far(s[i], t[0]));
                    if hits(m, i) {
                        let k = choose|k: int| 0 <= k < m.len() && #[trigger] m[k] == i;
                        assert(k > 0);
                        assert(0 <= mf[k - 1] < f.len());
                        assert(e[mf[k - 1]] == j);
                        assert(hits(e, j));
                    }
                } else {
                    assert(hits(e, j));
                    let q = choose|q: int| 0 <= q < e.len() && #[trigger] e[q] == j;
                    assert(f[q] == d[j]);
                    // kept in s exactly when kept in f
                    if hits(m, i) {
                        let k = choose|k: int| 0 <= k < m.len() && #[trigger] m[k] == i;
                        assert(k > 0);
                        assert(0 <= mf[k - 1] < f.len());
                        assert(e[mf[k - 1]] == e[q]);
                        if mf[k - 1] < q {
                            assert(e[mf[k - 1]] < e[q]);
                        } else if mf[k - 1] > q {
                            assert(e[q] < e[mf[k - 1]]);
                        }
                        assert(mf[k - 1] == q);
                        assert(hits(mf, q));
                    }
                    if hits(mf, q) {
                        let k = choose|k: int| 0 <= k < mf.len() && #[trigger] mf[k] == q;
                        assert(m[k + 1] == i);
                    }
                    assert(hits(m, i) == hits(mf, q));
                    // earlier kept entries of s are s[0] and the earlier kept entries of f
                    if forall|k: int| 0 <= k < m.len() && m[k] < i ==> far(s[i], #[trigger] t[k]) {
                        assert forall|k: int| 0 <= k < mf.len() && mf[k] < q implies far(f[q], #[trigger] tf[k]) by {
                            assert(0 <= mf[k] < f.len());
                            assert(e[mf[k]] < e[q]);
                            assert(m[k + 1] == 1 + e[mf[k]]);
                            assert(t[k + 1] == tf[k]);
                        }
                    }
                    if forall|k: int| 0 <= k < mf.len() && mf[k] < q ==> far(f[q], #[trigger] tf[k]) {
                        assert forall|k: int| 0 <= k < m.len() && m[k] < i implies far(s[i], #[trigger] t[k]) by {
                            if k == 0 {
                                assert(p(d[j]));
                            } else {
                                assert(0 <= mf[k - 1] < f.len());
                                assert(1 + e[mf[k - 1]] < i);
                                if mf[k - 1] >= q {
                                    if mf[k - 1] > q {
                                        assert(e[q] < e[mf[k - 1]]);
                                    }
                                }
                                assert(mf[k - 1] < q);
                                assert(t[k] == tf[k - 1]);
                            }
                        }
                    }
                }
            }
        }
        assert(front_greedy(s, t, m));
    }
}

/// Greedy thinning of the reversed ranking is back-to-front greedy thinning of
/// the ranking itself.
pub proof fn lemma_thin_reverse_is_back_greedy(s: Seq<usize>)
    ensures
        exists|m: Seq<int>| back_greedy(s, thin_from_front(s.reverse()), m),
{
    let r = s.reverse();
    let t = thin_from_front(r);
    lemma_thin_is_front_greedy(r);
    let mr = choose|m: Seq<int>| front_greedy(r, t, m);
    let n = s.len() as int;
    let m = Seq::new(mr.len(), |k: int| n - 1 - mr[k]);
    assert forall|k: int| 0 <= k < m.len() implies 0 <= #[trigger] m[k] < s.len() && t[k] == s[m[k]] by {
        assert(0 <= mr[k] < r.len());
        assert(r[mr[k]] == s[n - 1 - mr[k]]);
    }
    assert forall|k: int, l: int| 0 <= k < l < m.len() implies #[trigger] m[k] > #[trigger] m[l] by {
        assert(mr[k] < mr[l]);
    }
    assert forall|i: int| 0 <= i < s.len() implies (#[trigger] hits(m, i) <==> (forall|k: int|
        0 <= k < m.len() && m[k] > i ==> far(s[i], #[trigger] t[k]))) by {
        let ri = n - 1 - i;
        assert(r[ri] == s[i]);
        if hits(m, i) {
            let k = choose|k: int| 0 <= k < m.len() && #[trigger] m[k] == i;
            assert(mr[k] == ri);
        }
        if hits(mr, ri) {
            let k = choose|k: int| 0 <= k < mr.len() && #[trigger] mr[k] == ri;
            assert(m[k] == i);
        }
        assert(hits(m, i) == hits(mr, ri));
        if forall|k: int| 0 <= k < m.len() && m[k] > i ==> far(s[i], #[trigger] t[k]) {
            assert forall|k: int| 0 <= k < mr.len() && mr[k] < ri implies far(r[ri], #[trigger] t[k]) by {
                assert(m[k] > i);
            }
        }
        if forall|k: int| 0 <= k < mr.len() && mr[k] < ri ==> far(r[ri], #[trigger] t[k]) {
            assert forall|k: int| 0 <= k < m.len() && m[k] > i implies far(s[i], #[trigger] t[k]) by {
                assert(mr[k] < ri);
            }
        }
    }
    assert(back_greedy(s, t, m));
}

/// Filtering by a predicate that every entry meets changes nothing.
proof fn lemma_filter_keeps_all<A>(t: Seq<A>, p: spec_fn(A) -> bool)
    requires
        forall|i: int| 0 <= i < t.len() ==> p(#[trigger] t[i]),
    ensures
        t.filter(p) == t,
    decreases t.len(),
{
    reveal(Seq::filter);
    if t.len() > 0 {
        assert forall|i: int| 0 <= i < t.drop_last().len() implies p(#[trigger] t.drop_last()[i]) by {
            assert(t.drop_last()[i] == t[i]);
        }
        lemma_filter_keeps_all(t.drop_last(), p);
        assert(t.drop_last().push(t.last()) =~= t);
    }
}

/// Indices that are already pairwise more than 21 days apart are all kept, in
/// their order.
pub proof fn lemma_thin_keeps_spread(s: Seq<usize>)
    requires
        forall|i: int, j: int| 0 <= i < j < s.len() ==> far(#[trigger] s[i], #[trigger] s[j]),
    ensures
        thin_from_front(s) == s,
    decreases s.len(),
{
    if s.len() > 0 {
        let d = s.drop_first();
        assert forall|i: int| 0 <= i < d.len() implies #[trigger] far_from(s[0])(d[i]) by {
            assert(d[i] == s[i + 1]);
            assert(far(s[0], s[i + 1]));
        }
        lemma_filter_keeps_all(d, far_from(s[0]));
        assert forall|i: int, j: int| 0 <= i < j < d.len() implies far(#[trigger] d[i], #[trigger] d[j]) by {
            assert(d[i] == s[i + 1] && d[j] == s[j + 1]);
        }
        lemma_thin_keeps_spread(d);
        assert(seq![s[0]] + d =~= s);
    }
}

/// Thinning a thinned ranking again changes nothing.
pub proof fn lemma_thin_idempotent(s: Seq<usize>)
    ensures
        thin_from_front(thin_from_front(s)) == thin_from_front(s),
{
    lemma_thin_from_front(s);
    lemma_thin_keeps_spread(thin_from_front(s));
}

/// Indices of back-test windows (each the day on which a window ends), in the
/// order in which they were ranked.
pub struct PortfolidIndices(pub Vec<usize>);

impl View for PortfolidIndices {
    type V = Seq<usize>;

    open spec fn view(&self) -> Seq<usize> {
        self.0@
    }
}

/// Copies `v` in reverse order.
fn reversed(v: &Vec<usize>) -> (r: Vec<usize>)
    ensures
        r@ == v@.reverse(),
{
    let mut r: Vec<usize> = Vec::new();
    let mut k: usize = v.len();
    while k > 0
        invariant
            k <= v.len(),
            r.len() == v.len() - k,
            forall|i: int| 0 <= i < r.len() ==> #[trigger] r@[i] == v@[v.len() - 1 - i],
        decreases k,
    {
        k = k - 1;
        r.push(v[k]);
    }
    assert(r@ =~= v@.reverse());
    r
}

impl PortfolidIndices {
    /// Thins the ranking from its best end: keeps the first index, drops every
    /// later index within 21 days of it, and repeats on what is left. The result
    /// keeps the ranking order, starts with the first-ranked index, holds indices
    /// pairwise more than 21 days apart, and every ranked index lies within 21
    /// days of a kept one.
    pub fn remove_redundant_from_maximum(&self) -> (res: PortfolidIndices)
        requires
            thin_is_safe(self@),
        ensures
            res@ == thin_from_front(self@),
            exists|m: Seq<int>| front_greedy(self@, res@, m),
            is_subsequence(res@, self@),
            res@.len() == 0 <==> self@.len() == 0,
            self@.len() > 0 ==> res@[0] == self@[0],
            forall|i: int, j: int| 0 <= i < j < res@.len() ==> far(#[trigger] res@[i], #[trigger] res@[j]),
            forall|k: int|
                0 <= k < self@.len() ==> exists|i: int| 0 <= i < res@.len() && !far(#[trigger] self@[k], res@[i]),
    {
        proof {
            lemma_thin_from_front(self@);
            lemma_thin_is_front_greedy(self@);
        }
        let res = PortfolidIndices(thin_checked(&self.0).unwrap());
        proof {
            let m = choose|m: Seq<int>| front_greedy(self@, thin_from_front(self@), m);
            assert(front_greedy(self@, res@, m));
        }
        res
    }

    /// Thins the ranking from its worst end: keeps the last index, drops every
    /// other index within 21 days of it, and repeats on what is left, taking the
    /// last remaining one each time. The result lists the kept indices in the
    /// order they were taken (worst first), starts with the last-ranked index,
    /// holds indices pairwise more than 21 days apart, and every ranked index lies
    /// within 21 days of a kept one.
    pub fn remove_redundant_from_minimum(&self) -> (res: PortfolidIndices)
        requires
            thin_is_safe(self@.reverse()),
        ensures
            res@ == thin_from_front(self@.reverse()),
            exists|m: Seq<int>| back_greedy(self@, res@, m),
            is_subsequence(res@, self@.reverse()),
            res@.len() == 0 <==> self@.len() == 0,
            self@.len() > 0 ==> res@[0] == self@.last(),
            forall|i: int, j: int| 0 <= i < j < res@.len() ==> far(#[trigger] res@[i], #[trigger] res@[j]),
            forall|k: int|
                0 <= k < self@.len() ==> exists|i: int| 0 <= i < res@.len() && !far(#[trigger] self@[k], res@[i]),
    {
        let rev = reversed(&self.0);
        let ghost r = self@.reverse();
        proof {
            lemma_thin_from_front(r);
            lemma_thin_reverse_is_back_greedy(self@);
            assert forall|k: int| 0 <= k < self@.len() implies exists|i: int|
                0 <= i < thin_from_front(r).len() && !far(#[trigger] self@[k], thin_from_front(r)[i]) by {
                assert(r[self@.len() - 1 - k] == self@[k]);
            }
        }
        let res = PortfolidIndices(thin_checked(&rev).unwrap());
        proof {
            let m = choose|m: Seq<int>| back_greedy(self@, thin_from_front(self@.reverse()), m);
            assert(back_greedy(self@, res@, m));
        }
        res
    }

    /// Whether `remove_redundant_from_maximum` stays within the range of
    /// `usize` on this ranking.
    pub fn can_remove_redundant_from_maximum(&self) -> (b: bool)
        ensures
            b == thin_is_safe(self@),
    {
        thin_checked(&self.0).is_some()
    }

    /// Whether `remove_redundant_from_minimum` stays within the range of
    /// `usize` on this ranking.
    pub fn can_remove_redundant_from_minimum(&self) -> (b: bool)
        ensures
            b == thin_is_safe(self@.reverse()),
    {
        let rev = reversed(&self.0);
        thin_checked(&rev).is_some()
    }
}

} // verus!
