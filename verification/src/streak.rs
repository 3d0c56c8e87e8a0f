//! Streak calculation: the longest run of calendar-consecutive active days
//! over a chronologically sorted message sequence.

use vstd::prelude::*;

use crate::model::{DataPreparer, Message, MsgV, SECONDS_PER_DAY, day_of};
use crate::select::sorted_by_ts;
use vstd::arithmetic::div_mod::lemma_div_is_ordered;

verus! {

/// A run of consecutive active days: how many, and the first and last day.
#[derive(PartialEq, Eq, Structural, Clone, Copy, Debug)]
pub struct Streak {
    pub count: u64,
    pub start: u64,
    pub end: u64,
}

/// Some message falls on day `d`.
pub open spec fn day_present(s: Seq<MsgV>, d: int) -> bool {
    exists|j: int| 0 <= j < s.len() && day_of(s[j]) == d
}

/// Every day from `a` through `b` has a message.
pub open spec fn days_covered(s: Seq<MsgV>, a: int, b: int) -> bool {
    forall|d: int| a <= d <= b ==> day_present(s, d)
}

/// `st` is the best streak of `s`: a maximal run of consecutive active days
/// that no covered day interval exceeds, and that every equally long one
/// starts no earlier than.
pub open spec fn streak_ok(s: Seq<MsgV>, st: Streak) -> bool {
    &&& st.count >= 1
    &&& st.end == st.start + st.count - 1
    &&& days_covered(s, st.start as int, st.end as int)
    &&& !day_present(s, st.start - 1)
    &&& !day_present(s, st.end + 1)
    &&& forall|a: int, b: int| a <= b && #[trigger] days_covered(s, a, b) ==> b - a + 1 <= st.count
    &&& forall|a: int, b: int|
        a <= b && #[trigger] days_covered(s, a, b) && b - a + 1 == st.count ==> a >= st.start
}

/// Days are bounded well below the integer limit.
proof fn lemma_day_small(m: MsgV)
    ensures
        day_of(m) < u64::MAX - 1,
{
    lemma_div_is_ordered(m.date_ts as int, u64::MAX as int, SECONDS_PER_DAY as int);
}

/// Chronological order sorts the days as well.
proof fn lemma_days_sorted(s: Seq<MsgV>, i: int, j: int)
    requires
        sorted_by_ts(s),
        0 <= i <= j < s.len(),
    ensures
        day_of(s[i]) <= day_of(s[j]),
{
    lemma_div_is_ordered(s[i].date_ts as int, s[j].date_ts as int, SECONDS_PER_DAY as int);
}

impl DataPreparer {
    /// The longest run of calendar-consecutive active days, with its start
    /// and end day. Several messages on one day neither extend nor break a
    /// run; a gap of more than one day closes it, and the closed run
    /// replaces the best one only when strictly longer, so ties keep the
    /// earliest run. The final open run takes part in the comparison.
    /// Absent exactly when there are no messages.
    #[verifier::loop_isolation(false)]
    #[verifier::rlimit(60)]
    pub fn message_streak(msgs: &Vec<Message>) -> (r: Option<Streak>)
        requires
            sorted_by_ts(msgs.deep_view()),
        ensures
            r is None <==> msgs.deep_view().len() == 0,
            r matches Some(st) ==> streak_ok(msgs.deep_view(), st),
    {
        broadcast use crate::model::lemma_vec_deep_view;

        let ghost s = msgs.deep_view();
        let n = msgs.len();
        if n == 0 {
            return None;
        }
        proof {
            assert(s[0] == msgs@[0int].deep_view());
            lemma_day_small(s[0]);
        }
        let d0 = msgs[0].date_ts / SECONDS_PER_DAY;
        let mut cur_start: u64 = d0;
        let mut cur_end: u64 = d0;
        let mut bs: u64 = 0;
        let mut be: u64 = 0;
        let mut bc: u64 = 0;
        proof {
            assert(s.take(1)[0] == s[0]);
            assert(day_present(s.take(1), d0 as int));
            assert forall|x: int| #[trigger] day_present(s.take(1), x) implies x == d0 as int by {
                let j = choose|j: int|
                    0 <= j < s.take(1).len() && day_of(#[trigger] s.take(1)[j]) == x;
            }
            assert(days_covered(s.take(1), d0 as int, d0 as int));
            assert forall|a: int, b: int|
                a <= b && #[trigger] days_covered(s.take(1), a, b) && b < d0 implies b - a + 1
                <= 0 by {
                assert(day_present(s.take(1), b));
            }
        }
        let mut i: usize = 1;
        while i < n
            invariant
                1 <= i <= n,
                cur_start <= cur_end,
                cur_end == day_of(s[i - 1]),
                cur_end < u64::MAX - 1,
                days_covered(s.take(i as int), cur_start as int, cur_end as int),
                !day_present(s.take(i as int), cur_start - 1),
                forall|j: int| 0 <= j < i ==> day_of(s[j]) <= cur_end,
                bc == 0 ==> forall|d: int|
                    #[trigger] day_present(s.take(i as int), d) ==> cur_start <= d <= cur_end,
                bc > 0 ==> {
                    &&& bs <= be
                    &&& bc == be - bs + 1
                    &&& be + 1 < cur_start
                    &&& days_covered(s.take(i as int), bs as int, be as int)
                    &&& !day_present(s.take(i as int), bs - 1)
                    &&& !day_present(s.take(i as int), be + 1)
                },
                forall|a: int, b: int|
                    a <= b && #[trigger] days_covered(s.take(i as int), a, b) && b < cur_start
                        ==> b - a + 1 <= bc,
                forall|a: int, b: int|
                    a <= b && #[trigger] days_covered(s.take(i as int), a, b) && b < cur_start && b
                        - a + 1 == bc ==> a >= bs,
            decreases n - i,
        {
            proof {
                assert(s[i as int] == msgs@[i as int].deep_view());
                lemma_day_small(s[i as int]);
                lemma_days_sorted(s, i - 1, i as int);
                assert(s.take(i + 1).take(i as int) =~= s.take(i as int));
                assert forall|d: int| #[trigger] day_present(s.take(i + 1), d) implies day_present(
                    s.take(i as int),
                    d,
                ) || d == day_of(s[i as int]) by {
                    let j = choose|j: int|
                        0 <= j < s.take(i + 1).len() && day_of(#[trigger] s.take(i + 1)[j]) == d;
                    if j < i {
                        assert(day_of(s.take(i as int)[j]) == d);
                    }
                }
                assert forall|d: int| day_present(s.take(i as int), d) implies #[trigger] day_present(
                    s.take(i + 1),
                    d,
                ) by {
                    let j = choose|j: int|
                        0 <= j < s.take(i as int).len() && day_of(
                            #[trigger] s.take(i as int)[j],
                        ) == d;
                    assert(day_of(s.take(i + 1)[j]) == d);
                }
                assert(s.take(i + 1)[i as int] == s[i as int]);
                assert(day_of(s.take(i + 1)[i as int]) == day_of(s[i as int]));
                assert(day_present(s.take(i + 1), day_of(s[i as int]) as int));
            }
            let d = msgs[i].date_ts / SECONDS_PER_DAY;
            let ghost ocs = cur_start as int;
            let ghost oce = cur_end as int;
            let ghost pbs = bs as int;
            let ghost pbc = bc as int;
            let ghost pbe = be as int;
            if d == cur_end + 1 {
                cur_end = d;
            } else if d > cur_end + 1 {
                // the run closes; it replaces the best only when strictly longer
                if cur_end - cur_start + 1 > bc {
                    bs = cur_start;
                    be = cur_end;
                    bc = cur_end - cur_start + 1;
                }
                cur_start = d;
                cur_end = d;
            }
            proof {
                assert forall|x: int| #[trigger] day_present(s.take(i as int), x) implies x
                    <= oce by {
                    let j = choose|j: int|
                        0 <= j < s.take(i as int).len() && day_of(
                            #[trigger] s.take(i as int)[j],
                        ) == x;
                    assert(day_of(s[j]) == x);
                }
                assert forall|a: int, b: int|
                    a <= b && #[trigger] days_covered(s.take(i + 1), a, b) && b < cur_start
                    implies b - a + 1 <= bc && (b - a + 1 == bc ==> a >= bs) by {
                    assert forall|x: int| a <= x <= b implies day_present(s.take(i as int), x) by {
                        assert(day_present(s.take(i + 1), x));
                    }
                    assert(days_covered(s.take(i as int), a, b));
                    assert(day_present(s.take(i as int), b));
                    assert(b <= oce);
                    if d > oce + 1 {
                        if b >= ocs {
                            if a < ocs {
                                assert(day_present(s.take(i as int), ocs - 1));
                                assert(false);
                            }
                            assert(b - a + 1 <= oce - ocs + 1);
                            if b - a + 1 == bc && oce - ocs + 1 <= pbc {
                                assert(bc == pbc);
                                assert(pbc > 0);
                                assert(pbe + 1 < ocs);
                            }
                        } else {
                            assert(b - a + 1 <= pbc);
                        }
                    }
                }
            }
            i = i + 1;
        }
        // the final open run takes part in the comparison
        let ghost obs = bs as int;
        let ghost obe = be as int;
        let ghost obc = bc as int;
        if cur_end - cur_start + 1 > bc {
            bs = cur_start;
            be = cur_end;
            bc = cur_end - cur_start + 1;
        }
        proof {
            crate::seq_util::lemma_take_full(s);
            assert forall|x: int| #[trigger] day_present(s, x) implies x <= cur_end by {
                let j = choose|j: int| 0 <= j < s.len() && day_of(#[trigger] s[j]) == x;
            }
            assert forall|a: int, b: int|
                a <= b && #[trigger] days_covered(s, a, b) implies b - a + 1 <= bc by {
                if b >= cur_start {
                    if a < cur_start {
                        assert(day_present(s, cur_start - 1));
                        assert(false);
                    }
                    assert(day_present(s, b));
                    assert(b <= cur_end);
                }
            }
            assert forall|a: int, b: int|
                a <= b && #[trigger] days_covered(s, a, b) && b - a + 1 == bc implies a >= bs by {
                if b >= cur_start {
                    if a < cur_start {
                        assert(day_present(s, cur_start - 1));
                        assert(false);
                    }
                    assert(day_present(s, b));
                    assert(b <= cur_end);
                    if cur_end - cur_start + 1 <= obc {
                        assert(obc > 0);
                        assert(a >= cur_start);
                        assert(obe + 1 < cur_start);
                    }
                } else {
                    assert(b - a + 1 <= obc);
                    if cur_end - cur_start + 1 > obc {
                        assert(false);
                    }
                }
            }
        }
        Some(Streak { count: bc, start: bs, end: be })
    }
}

} // verus!
