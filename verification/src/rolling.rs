use vstd::prelude::*;

verus! {

/// The window that a rolling back-test of window length `duration` evaluates at
/// day `idx`: none before `duration` days have passed, else the days
/// `idx - duration ..= idx`.
pub open spec fn window_at(idx: int, duration: int) -> Option<(usize, usize)> {
    if idx < duration {
        None
    } else {
        Some(((idx - duration) as usize, idx as usize))
    }
}

/// `w` is the window ending on day `idx` of a back-test of length `duration`
/// (none before `duration` days have passed): it ends on `idx` and starts
/// exactly `duration` days earlier.
pub open spec fn window_spans(w: Option<(usize, usize)>, idx: int, duration: int) -> bool {
    if idx < duration {
        w is None
    } else {
        &&& w is Some
        &&& w.unwrap().1 == idx
        &&& w.unwrap().0 + duration == idx
    }
}

/// Every window ends on its day and spans exactly the back-test length.
pub proof fn lemma_window_spans_duration(idx: int, duration: int)
    requires
        0 <= idx <= usize::MAX,
        0 <= duration,
    ensures
        window_spans(window_at(idx, duration), idx, duration),
{
}

/// The windows of a rolling back-test over `length` days: entry `idx` is `None`
/// while `idx < duration`, and `Some((idx - duration, idx))` (first and last day
/// of the window, both included) afterwards.
pub fn rolling_windows(length: usize, duration: usize) -> (res: Vec<Option<(usize, usize)>>)
    ensures
        res.len() == length,
        forall|i: int| 0 <= i < length ==> #[trigger] res@[i] == window_at(i, duration as int),
        forall|i: int| 0 <= i < length && i < duration ==> #[trigger] res@[i] is None,
        forall|i: int|
            0 <= i < length && i >= duration ==> {
                &&& #[trigger] res@[i] is Some
                &&& res@[i].unwrap().1 == i
                &&& res@[i].unwrap().0 + duration == i
            },
{
    proof {
        assert forall|i: int| 0 <= i < length implies #[trigger] window_spans(window_at(i, duration as int), i, duration as int) by {
            lemma_window_spans_duration(i, duration as int);
        }
    }
    let mut res: Vec<Option<(usize, usize)>> = Vec::new();
    let mut idx: usize = 0;
    while idx < length
        invariant
            idx <= length,
            res.len() == idx,
            forall|i: int| 0 <= i < idx ==> #[trigger] res@[i] == window_at(i, duration as int),
        decreases length - idx,
    {
        if idx < duration {
            res.push(None);
        } else {
            res.push(Some((idx - duration, idx)));
        }
        idx = idx + 1;
    }
    res
}

} // verus!
