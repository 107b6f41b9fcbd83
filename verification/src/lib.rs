//! Index bookkeeping of a rolling-window stock back-tester: which windows a
//! rolling back-test runs, the order in which window results are ranked, and the
//! thinning of ranked window indices so that reported windows do not overlap.

pub mod rolling;
pub mod indices;
pub mod capital;
