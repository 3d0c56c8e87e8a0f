//! Sticker usage tracking: counts repeated sticker identities per participant
//! and reports the leading one, snapshotting the message that pushed its
//! count past the previous maximum.

use vstd::prelude::*;

use crate::basic::{Party, party_matches};
use crate::model::{DataPreparer, Message, MinimalMessage, MsgV, minimal_of};
use crate::seq_util::lemma_take_full;
use crate::strops::{str_eq, str_starts_with};
use crate::tally::{CountTable, occ};

verus! {

/// The message carries a sticker.
pub open spec fn is_sticker(m: MsgV) -> bool {
    m.media_type == Some("sticker"@)
}

/// The sticker identity key: the file reference unless it starts with the
/// placeholder for content that was not exported, else the declared file
/// name; absent when neither identifies the sticker.
pub open spec fn sticker_key(m: MsgV, placeholder: Seq<char>) -> Option<Seq<char>> {
    match m.file {
        Some(f) => if !placeholder.is_prefix_of(f) {
            Some(f)
        } else {
            m.file_name
        },
        None => m.file_name,
    }
}

/// The message counts for this participant group: it is a sticker, the
/// classifier matches, and an identity key exists.
pub open spec fn sticker_qualifies(m: MsgV, owner: Seq<char>, party: Party, ph: Seq<char>) -> bool {
    is_sticker(m) && party_matches(party, m, owner) && sticker_key(m, ph) is Some
}

/// The identity key of a qualifying message (empty for the rest).
pub open spec fn key_of(m: MsgV, ph: Seq<char>) -> Seq<char> {
    match sticker_key(m, ph) {
        Some(k) => k,
        None => Seq::empty(),
    }
}

/// The identity keys of all qualifying messages, in order.
pub open spec fn sticker_keys(s: Seq<MsgV>, owner: Seq<char>, party: Party, ph: Seq<char>) -> Seq<
    Seq<char>,
>
    decreases s.len(),
{
    if s.len() == 0 {
        Seq::empty()
    } else {
        sticker_keys(s.drop_last(), owner, party, ph) + if sticker_qualifies(
            s.last(),
            owner,
            party,
            ph,
        ) {
            seq![key_of(s.last(), ph)]
        } else {
            Seq::empty()
        }
    }
}

/// The largest running count reached while tallying the first `i` messages:
/// after each qualifying message, its key's count so far competes with the
/// maximum reached before.
pub open spec fn max_run(s: Seq<MsgV>, i: int, owner: Seq<char>, party: Party, ph: Seq<char>) -> int
    decreases i,
{
    if i <= 0 {
        0
    } else {
        let prev = max_run(s, i - 1, owner, party, ph);
        if sticker_qualifies(s[i - 1], owner, party, ph) {
            let c = occ(sticker_keys(s.take(i), owner, party, ph), key_of(s[i - 1], ph));
            if c > prev {
                c
            } else {
                prev
            }
        } else {
            prev
        }
    }
}

/// Message `w` is the one whose tally update reached the final maximum `c`
/// first: it qualifies, its key's running count reaches `c` there, and no
/// earlier qualifying message reached `c` before.
pub open spec fn sticker_leader_at(
    s: Seq<MsgV>,
    owner: Seq<char>,
    party: Party,
    ph: Seq<char>,
    w: int,
    c: int,
) -> bool {
    &&& 0 <= w < s.len()
    &&& sticker_qualifies(s[w], owner, party, ph)
    &&& occ(sticker_keys(s.take(w + 1), owner, party, ph), key_of(s[w], ph)) == c
    &&& forall|j: int|
        0 <= j < w && sticker_qualifies(s[j], owner, party, ph) ==> occ(
            #[trigger] sticker_keys(s.take(j + 1), owner, party, ph),
            key_of(s[j], ph),
        ) < c
}

/// How the key stream grows with the message prefix.
proof fn lemma_sticker_keys_take_step(s: Seq<MsgV>, i: int, owner: Seq<char>, party: Party, ph: Seq<char>)
    requires
        0 <= i < s.len(),
    ensures
        sticker_keys(s.take(i + 1), owner, party, ph) == sticker_keys(s.take(i), owner, party, ph)
            + if sticker_qualifies(s[i], owner, party, ph) {
            seq![key_of(s[i], ph)]
        } else {
            Seq::<Seq<char>>::empty()
        },
{
    assert(s.take(i + 1).drop_last() =~= s.take(i));
    assert(s.take(i + 1).last() == s[i]);
}

/// A prefix contributes at most one key per message.
proof fn lemma_sticker_keys_le(s: Seq<MsgV>, i: int, owner: Seq<char>, party: Party, ph: Seq<char>)
    requires
        0 <= i <= s.len(),
    ensures
        sticker_keys(s.take(i), owner, party, ph).len() <= i,
    decreases i,
{
    if i == 0 {
        assert(s.take(0) =~= Seq::<MsgV>::empty());
    } else {
        lemma_sticker_keys_take_step(s, i - 1, owner, party, ph);
        lemma_sticker_keys_le(s, i - 1, owner, party, ph);
    }
}

/// What `most_used_sticker` returns for `s` and one participant group: the
/// leading count and a snapshot of the message that first reached it.
pub open spec fn sticker_result_ok(
    count: u64,
    leader: Option<MinimalMessage>,
    s: Seq<MsgV>,
    owner: Seq<char>,
    party: Party,
    ph: Seq<char>,
) -> bool {
    let m = max_run(s, s.len() as int, owner, party, ph);
    &&& count as int == m
    &&& (leader is None <==> m == 0)
    &&& (leader matches Some(mm) ==> exists|w: int|
        #[trigger] sticker_leader_at(s, owner, party, ph, w, m) && mm.deep_view() == minimal_of(
            s[w],
        ))
}

/// The maximum of the running counts bounds every single one, and it only
/// grows with the prefix.
proof fn lemma_max_run_bounds(s: Seq<MsgV>, i: int, owner: Seq<char>, party: Party, ph: Seq<char>)
    requires
        0 <= i <= s.len(),
    ensures
        0 <= max_run(s, i, owner, party, ph),
        forall|j: int|
            0 <= j < i && sticker_qualifies(s[j], owner, party, ph) ==> occ(
                #[trigger] sticker_keys(s.take(j + 1), owner, party, ph),
                key_of(s[j], ph),
            ) <= max_run(s, i, owner, party, ph),
    decreases i,
{
    if i > 0 {
        lemma_max_run_bounds(s, i - 1, owner, party, ph);
    }
}

/// A key's count over a shorter prefix never exceeds its count over a longer
/// one.
proof fn lemma_occ_prefix_le(
    s: Seq<MsgV>,
    i: int,
    j: int,
    owner: Seq<char>,
    party: Party,
    ph: Seq<char>,
    k: Seq<char>,
)
    requires
        0 <= i <= j <= s.len(),
    ensures
        occ(sticker_keys(s.take(i), owner, party, ph), k) <= occ(
            sticker_keys(s.take(j), owner, party, ph),
            k,
        ),
    decreases j - i,
{
    if i < j {
        lemma_sticker_keys_take_step(s, i, owner, party, ph);
        let pre = sticker_keys(s.take(i), owner, party, ph);
        if sticker_qualifies(s[i], owner, party, ph) {
            assert(pre.push(key_of(s[i], ph)) =~= sticker_keys(s.take(i + 1), owner, party, ph));
            assert(pre.push(key_of(s[i], ph)).drop_last() =~= pre);
        } else {
            assert(pre + Seq::<Seq<char>>::empty() =~= pre);
        }
        lemma_occ_prefix_le(s, i + 1, j, owner, party, ph, k);
    }
}

/// No key's running count over a prefix exceeds that prefix's running
/// maximum.
proof fn lemma_occ_le_max_run(
    s: Seq<MsgV>,
    i: int,
    owner: Seq<char>,
    party: Party,
    ph: Seq<char>,
    k: Seq<char>,
)
    requires
        0 <= i <= s.len(),
    ensures
        occ(sticker_keys(s.take(i), owner, party, ph), k) <= max_run(s, i, owner, party, ph),
    decreases i,
{
    if i == 0 {
        assert(s.take(0) =~= Seq::<MsgV>::empty());
    } else {
        lemma_occ_le_max_run(s, i - 1, owner, party, ph, k);
        lemma_sticker_keys_take_step(s, i - 1, owner, party, ph);
        let pre = sticker_keys(s.take(i - 1), owner, party, ph);
        if sticker_qualifies(s[i - 1], owner, party, ph) {
            assert(pre.push(key_of(s[i - 1], ph)) =~= sticker_keys(s.take(i), owner, party, ph));
            assert(pre.push(key_of(s[i - 1], ph)).drop_last() =~= pre);
        } else {
            assert(pre + Seq::<Seq<char>>::empty() =~= pre);
        }
    }
}

/// A positive running maximum is reached by some qualifying message.
proof fn lemma_max_run_achieved(s: Seq<MsgV>, i: int, owner: Seq<char>, party: Party, ph: Seq<char>)
    requires
        0 <= i <= s.len(),
        max_run(s, i, owner, party, ph) > 0,
    ensures
        exists|j: int|
            0 <= j < i && sticker_qualifies(s[j], owner, party, ph) && occ(
                #[trigger] sticker_keys(s.take(j + 1), owner, party, ph),
                key_of(s[j], ph),
            ) == max_run(s, i, owner, party, ph),
    decreases i,
{
    let m = max_run(s, i, owner, party, ph);
    assert(i > 0);
    if sticker_qualifies(s[i - 1], owner, party, ph) && occ(
        sticker_keys(s.take(i), owner, party, ph),
        key_of(s[i - 1], ph),
    ) == m {
        let j = i - 1;
        assert(0 <= j < i && sticker_qualifies(s[j], owner, party, ph) && occ(
            sticker_keys(s.take(j + 1), owner, party, ph),
            key_of(s[j], ph),
        ) == m);
    } else {
        assert(max_run(s, i - 1, owner, party, ph) == m);
        lemma_max_run_achieved(s, i - 1, owner, party, ph);
        let j = choose|j: int|
            0 <= j < i - 1 && sticker_qualifies(s[j], owner, party, ph) && occ(
                #[trigger] sticker_keys(s.take(j + 1), owner, party, ph),
                key_of(s[j], ph),
            ) == m;
        assert(0 <= j < i && sticker_qualifies(s[j], owner, party, ph) && occ(
            sticker_keys(s.take(j + 1), owner, party, ph),
            key_of(s[j], ph),
        ) == m);
    }
}

/// The reported count is exactly the largest total usage of any sticker
/// identity: no key occurs more often, and when any sticker qualifies some
/// key occurs exactly that often.
pub proof fn lemma_sticker_count_is_top(s: Seq<MsgV>, owner: Seq<char>, party: Party, ph: Seq<char>)
    ensures
        forall|k: Seq<char>|
            #[trigger] occ(sticker_keys(s, owner, party, ph), k) <= max_run(
                s,
                s.len() as int,
                owner,
                party,
                ph,
            ),
        max_run(s, s.len() as int, owner, party, ph) > 0 ==> exists|k: Seq<char>|
            #[trigger] occ(sticker_keys(s, owner, party, ph), k) == max_run(
                s,
                s.len() as int,
                owner,
                party,
                ph,
            ),
{
    let n = s.len() as int;
    let m = max_run(s, n, owner, party, ph);
    lemma_take_full(s);
    assert forall|k: Seq<char>|
        #[trigger] occ(sticker_keys(s, owner, party, ph), k) <= m by {
        lemma_occ_le_max_run(s, n, owner, party, ph, k);
    }
    if m > 0 {
        lemma_max_run_achieved(s, n, owner, party, ph);
        let j = choose|j: int|
            0 <= j < n && sticker_qualifies(s[j], owner, party, ph) && occ(
                #[trigger] sticker_keys(s.take(j + 1), owner, party, ph),
                key_of(s[j], ph),
            ) == m;
        let k = key_of(s[j], ph);
        lemma_occ_prefix_le(s, j + 1, n, owner, party, ph, k);
        lemma_occ_le_max_run(s, n, owner, party, ph, k);
        assert(occ(sticker_keys(s, owner, party, ph), k) == m);
    }
}

impl DataPreparer {
    /// The most-used sticker for one side of the owner/member split: the
    /// leading count, and a snapshot of the message whose tally update first
    /// reached it. Later equal counts do not replace the leader. Both are
    /// absent (count zero) exactly when no qualifying sticker exists.
    pub fn most_used_sticker(
        msgs: &Vec<Message>,
        owner_id: &str,
        party: Party,
        placeholder: &str,
    ) -> (r: (u64, Option<MinimalMessage>))
        ensures
            sticker_result_ok(r.0, r.1, msgs.deep_view(), owner_id@, party, placeholder@),
    {
        broadcast use crate::model::lemma_vec_deep_view;

        let ghost s = msgs.deep_view();
        let ghost owner = owner_id@;
        let ghost ph = placeholder@;
        let mut ct = CountTable::new();
        let mut max_used: u64 = 0;
        let mut best: Option<MinimalMessage> = None;
        let ghost mut widx: int = 0;
        let n = msgs.len();
        proof {
            assert(s.take(0) =~= Seq::<MsgV>::empty());
        }
        for i in 0..n
            invariant
                n == msgs@.len(),
                s == msgs.deep_view(),
                ct.wf(),
                ct.items() == sticker_keys(s.take(i as int), owner, party, ph),
                owner == owner_id@,
                ph == placeholder@,
                max_used as int == max_run(s, i as int, owner, party, ph),
                best is None <==> max_used == 0,
                best matches Some(mm) ==> {
                    &&& 0 <= widx < i
                    &&& mm.deep_view() == minimal_of(s[widx])
                    &&& sticker_qualifies(s[widx], owner, party, ph)
                    &&& occ(sticker_keys(s.take(widx + 1), owner, party, ph), key_of(s[widx], ph))
                        == max_used as int
                    &&& forall|j: int|
                        0 <= j < widx && sticker_qualifies(s[j], owner, party, ph) ==> occ(
                            #[trigger] sticker_keys(s.take(j + 1), owner, party, ph),
                            key_of(s[j], ph),
                        ) < max_used as int
                },
        {
            proof {
                assert(s[i as int] == msgs@[i as int].deep_view());
                lemma_sticker_keys_take_step(s, i as int, owner, party, ph);
            }
            let m = &msgs[i];
            let is_sticker_msg = match &m.media_type {
                Some(t) => str_eq(t.as_str(), "sticker"),
                None => false,
            };
            if is_sticker_msg && DataPreparer::matches_party(m, owner_id, party) {
                let keyref: Option<&String> = match &m.file {
                    Some(f) => {
                        if !str_starts_with(f.as_str(), placeholder) {
                            Some(f)
                        } else {
                            m.file_name.as_ref()
                        }
                    }
                    None => m.file_name.as_ref(),
                };
                match keyref {
                    Some(kstr) => {
                        proof {
                            assert(sticker_qualifies(s[i as int], owner, party, ph));
                            assert(kstr@ == key_of(s[i as int], ph));
                            lemma_sticker_keys_le(s, i as int, owner, party, ph);
                            assert(ct.items().len() < u64::MAX);
                            assert(ct.items().push(kstr@) =~= sticker_keys(
                                s.take(i + 1),
                                owner,
                                party,
                                ph,
                            ));
                        }
                        let c = ct.add(kstr.as_str());
                        if c > max_used {
                            proof {
                                lemma_max_run_bounds(s, i as int, owner, party, ph);
                            }
                            max_used = c;
                            best = Some(MinimalMessage::snapshot(m));
                            proof {
                                widx = i as int;
                            }
                        }
                    }
                    None => {
                        proof {
                            assert(!sticker_qualifies(s[i as int], owner, party, ph));
                            assert(ct.items() + Seq::<Seq<char>>::empty() =~= ct.items());
                        }
                    }
                }
            } else {
                proof {
                    assert(!sticker_qualifies(s[i as int], owner, party, ph));
                    assert(ct.items() + Seq::<Seq<char>>::empty() =~= ct.items());
                }
            }
        }
        proof {
            lemma_take_full(s);
            assert(s.len() == n);
            assert(max_used as int == max_run(s, s.len() as int, owner_id@, party, placeholder@));
            assert(best matches Some(mm) ==> sticker_leader_at(
                s,
                owner_id@,
                party,
                placeholder@,
                widx,
                max_used as int,
            ) && mm.deep_view() == minimal_of(s[widx]));
        }
        (max_used, best)
    }
}

} // verus!
