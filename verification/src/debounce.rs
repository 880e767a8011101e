//! The debounce scheduler: per-address pending entries with a fire time.
//!
//! On receipt of a message, the entry for its address is replaced (coalescing:
//! bursts to one address collapse to the last value) and its fire time is
//! reset to now plus the window. A polling step removes and returns every
//! entry whose fire time has elapsed. At most one entry exists per address.

use vstd::prelude::*;
use crate::types::OscMsg;
use crate::types::Packet;

verus! {

broadcast use {vstd::seq::group_seq_axioms, vstd::std_specs::vec::group_vec_axioms};

/// One pending entry: the most recent message for an address and the instant
/// (in milliseconds) at which it becomes eligible to fire.
pub struct PendingEntry {
    /// The most recently received message for this address.
    pub msg: OscMsg,
    /// The instant, in milliseconds, at which the entry may fire.
    pub due_ms: u64,
}

/// The address that keys an entry.
pub open spec fn entry_key(e: PendingEntry) -> Seq<char> {
    e.msg.addr@
}

/// At most one entry per address.
pub open spec fn unique_addrs(entries: Seq<PendingEntry>) -> bool {
    forall|i: int, j: int|
        0 <= i < j < entries.len() ==> entry_key(#[trigger] entries[i]) != entry_key(
            #[trigger] entries[j],
        )
}

/// The index of the entry for address `a`, or `-1` when there is none.
pub open spec fn find_key(entries: Seq<PendingEntry>, a: Seq<char>) -> int
    decreases entries.len(),
{
    if entries.len() == 0 {
        -1
    } else if entry_key(entries[0]) == a {
        0
    } else {
        let r = find_key(entries.drop_first(), a);
        if r < 0 {
            -1
        } else {
            1 + r
        }
    }
}

/// What is pending for address `a`: the stored message and its fire time.
pub open spec fn lookup(entries: Seq<PendingEntry>, a: Seq<char>) -> Option<(OscMsg, u64)> {
    let k = find_key(entries, a);
    if k < 0 {
        None
    } else {
        Some((entries[k].msg, entries[k].due_ms))
    }
}

/// Where `find_key` points: at the first entry for `a`, within bounds, and at
/// nothing exactly when no entry has that address.
pub proof fn lemma_find_key_props(entries: Seq<PendingEntry>, a: Seq<char>)
    ensures
        -1 <= find_key(entries, a) < entries.len(),
        find_key(entries, a) >= 0 ==> entry_key(entries[find_key(entries, a)]) == a,
        find_key(entries, a) >= 0 ==> forall|j: int|
            0 <= j < find_key(entries, a) ==> entry_key(#[trigger] entries[j]) != a,
        find_key(entries, a) < 0 ==> forall|j: int|
            0 <= j < entries.len() ==> entry_key(#[trigger] entries[j]) != a,
    decreases entries.len(),
{
    if entries.len() == 0 {
    } else if entry_key(entries[0]) == a {
    } else {
        let rest = entries.drop_first();
        lemma_find_key_props(rest, a);
        assert(forall|j: int| 0 <= j < rest.len() ==> #[trigger] rest[j] == entries[j + 1]);
        let r = find_key(rest, a);
        if r >= 0 {
            assert(rest[r] == entries[r + 1]);
            assert forall|j: int| 0 <= j < find_key(entries, a) implies entry_key(
                #[trigger] entries[j],
            ) != a by {
                if j > 0 {
                    assert(entries[j] == rest[j - 1]);
                }
            }
        } else {
            assert forall|j: int| 0 <= j < entries.len() implies entry_key(
                #[trigger] entries[j],
            ) != a by {
                if j > 0 {
                    assert(entries[j] == rest[j - 1]);
                }
            }
        }
    }
}

/// A scan that found the first match at `i` (or none at all) agrees with
/// `find_key`.
pub proof fn lemma_find_key_first(entries: Seq<PendingEntry>, a: Seq<char>, i: int)
    requires
        0 <= i <= entries.len(),
        forall|j: int| 0 <= j < i ==> entry_key(#[trigger] entries[j]) != a,
        i < entries.len() ==> entry_key(entries[i]) == a,
    ensures
        find_key(entries, a) == if i == entries.len() {
            -1int
        } else {
            i
        },
    decreases entries.len(),
{
    if entries.len() == 0 {
    } else if entry_key(entries[0]) == a {
        assert(i == 0);
    } else {
        let rest = entries.drop_first();
        assert(forall|j: int| 0 <= j < rest.len() ==> rest[j] == entries[j + 1]);
        lemma_find_key_first(rest, a, i - 1);
    }
}

/// The fire time: now plus the window, saturating at the largest instant.
pub open spec fn due_time(now_ms: u64, window_ms: u64) -> u64 {
    if now_ms + window_ms <= u64::MAX {
        (now_ms + window_ms) as u64
    } else {
        u64::MAX
    }
}

/// What scheduling one message does to the entries: the entry for its address
/// is replaced in place, or appended when the address is new.
pub open spec fn spec_schedule(entries: Seq<PendingEntry>, msg: OscMsg, due: u64) -> Seq<
    PendingEntry,
> {
    let k = find_key(entries, msg.addr@);
    let e = PendingEntry { msg, due_ms: due };
    if k < 0 {
        entries.push(e)
    } else {
        entries.update(k, e)
    }
}

/// Law: coalescing and independence of one scheduling step. After scheduling
/// a message, its address holds exactly that message with the new fire time,
/// every other address is untouched, and addresses stay unique.
pub proof fn lemma_schedule_lookup(
    entries: Seq<PendingEntry>,
    msg: OscMsg,
    due: u64,
    b: Seq<char>,
)
    ensures
        lookup(spec_schedule(entries, msg, due), msg.addr@) == Some((msg, due)),
        b != msg.addr@ ==> lookup(spec_schedule(entries, msg, due), b) == lookup(entries, b),
        unique_addrs(entries) ==> unique_addrs(spec_schedule(entries, msg, due)),
    decreases entries.len(),
{
    let a = msg.addr@;
    let e = PendingEntry { msg, due_ms: due };
    let k = find_key(entries, a);
    lemma_find_key_props(entries, a);
    let out = spec_schedule(entries, msg, due);
    if k < 0 {
        lemma_lookup_of_push(entries, e, a);
        lemma_lookup_of_push(entries, e, b);
        if unique_addrs(entries) {
            assert forall|i: int, j: int| 0 <= i < j < out.len() implies entry_key(
                #[trigger] out[i],
            ) != entry_key(#[trigger] out[j]) by {
                if j == out.len() - 1 {
                    assert(out[i] == entries[i]);
                    assert(out[j] == e);
                } else {
                    assert(out[i] == entries[i]);
                    assert(out[j] == entries[j]);
                }
            }
        }
    } else {
        lemma_lookup_of_update(entries, k, e, a);
        lemma_lookup_of_update(entries, k, e, b);
        if unique_addrs(entries) {
            assert forall|i: int, j: int| 0 <= i < j < out.len() implies entry_key(
                #[trigger] out[i],
            ) != entry_key(#[trigger] out[j]) by {
                assert(entry_key(out[i]) == entry_key(entries[i]));
                assert(entry_key(out[j]) == entry_key(entries[j]));
            }
        }
    }
}

/// `find_key` after appending an entry: an existing address keeps its index;
/// a new one is found at the end exactly when the appended entry carries it.
pub proof fn lemma_lookup_of_push(entries: Seq<PendingEntry>, e: PendingEntry, b: Seq<char>)
    ensures
        lookup(entries.push(e), b) == if lookup(entries, b) is Some {
            lookup(entries, b)
        } else if entry_key(e) == b {
            Some((e.msg, e.due_ms))
        } else {
            None
        },
{
    let q = entries.push(e);
    let k0 = find_key(entries, b);
    lemma_find_key_props(entries, b);
    if k0 >= 0 {
        assert forall|j: int| 0 <= j < k0 implies entry_key(#[trigger] q[j]) != b by {
            assert(q[j] == entries[j]);
        }
        assert(q[k0] == entries[k0]);
        lemma_find_key_first(q, b, k0);
    } else if entry_key(e) == b {
        assert forall|j: int| 0 <= j < entries.len() implies entry_key(#[trigger] q[j]) != b by {
            assert(q[j] == entries[j]);
        }
        assert(q[entries.len() as int] == e);
        lemma_find_key_first(q, b, entries.len() as int);
    } else {
        assert forall|j: int| 0 <= j < q.len() implies entry_key(#[trigger] q[j]) != b by {
            if j < entries.len() {
                assert(q[j] == entries[j]);
            } else {
                assert(q[j] == e);
            }
        }
        lemma_find_key_first(q, b, q.len() as int);
    }
}

/// `lookup` after replacing the entry at `k`, when the new entry keeps the
/// key that stood at `k`.
pub proof fn lemma_lookup_of_update(
    entries: Seq<PendingEntry>,
    k: int,
    e: PendingEntry,
    b: Seq<char>,
)
    requires
        0 <= k < entries.len(),
        entry_key(entries[k]) == entry_key(e),
        find_key(entries, entry_key(e)) == k,
    ensures
        lookup(entries.update(k, e), b) == if entry_key(e) == b {
            Some((e.msg, e.due_ms))
        } else {
            lookup(entries, b)
        },
{
    let q = entries.update(k, e);
    let a = entry_key(e);
    lemma_find_key_props(entries, a);
    lemma_find_key_props(entries, b);
    if b == a {
        assert forall|j: int| 0 <= j < k implies entry_key(#[trigger] q[j]) != b by {
            assert(q[j] == entries[j]);
        }
        assert(q[k] == e);
        lemma_find_key_first(q, b, k);
    } else {
        let k0 = find_key(entries, b);
        if k0 >= 0 {
            assert forall|j: int| 0 <= j < k0 implies entry_key(#[trigger] q[j]) != b by {
                if j == k {
                    assert(q[j] == e);
                } else {
                    assert(q[j] == entries[j]);
                }
            }
            assert(k0 != k);
            assert(q[k0] == entries[k0]);
            lemma_find_key_first(q, b, k0);
        } else {
            assert forall|j: int| 0 <= j < q.len() implies entry_key(#[trigger] q[j]) != b by {
                if j == k {
                    assert(q[j] == e);
                } else {
                    assert(q[j] == entries[j]);
                }
            }
            lemma_find_key_first(q, b, q.len() as int);
        }
    }
}

/// The pending state: entries in insertion order, at most one per address.
pub struct DebounceState {
    /// The pending entries, oldest address first.
    pub entries: Vec<PendingEntry>,
}

impl DebounceState {
    /// The state invariant: at most one entry per address.
    pub open spec fn wf(self) -> bool {
        unique_addrs(self.entries@)
    }

    /// A fresh state with nothing pending.
    pub fn new() -> (s: Self)
        ensures
            s.wf(),
            s.entries@.len() == 0,
    {
        DebounceState { entries: Vec::new() }
    }

    /// Schedules one message: replaces what is pending for its address (the
    /// coalescing policy — intermediate values are dropped) and resets the
    /// fire time to now plus the window, saturating.
    pub fn schedule(&mut self, msg: OscMsg, now_ms: u64, window_ms: u64)
        requires
            old(self).wf(),
        ensures
            final(self).wf(),
            final(self).entries@ == spec_schedule(
                old(self).entries@,
                msg,
                due_time(now_ms, window_ms),
            ),
            lookup(final(self).entries@, msg.addr@) == Some((msg, due_time(now_ms, window_ms))),
            forall|b: Seq<char>|
                b != msg.addr@ ==> #[trigger] lookup(final(self).entries@, b) == lookup(
                    old(self).entries@,
                    b,
                ),
    {
        let due: u64 = now_ms.saturating_add(window_ms);
        proof {
            lemma_schedule_lookup(self.entries@, msg, due, msg.addr@);
            assert forall|b: Seq<char>| b != msg.addr@ implies #[trigger] lookup(
                spec_schedule(self.entries@, msg, due),
                b,
            ) == lookup(self.entries@, b) by {
                lemma_schedule_lookup(self.entries@, msg, due, b);
            }
        }
        match find_entry(&self.entries, &msg.addr) {
            Some(i) => {
                proof {
                    lemma_find_key_props(self.entries@, msg.addr@);
                }
                self.entries.remove(i);
                self.entries.insert(i, PendingEntry { msg, due_ms: due });
                proof {
                    assert(self.entries@ =~= old(self).entries@.update(
                        find_key(old(self).entries@, msg.addr@),
                        PendingEntry { msg, due_ms: due },
                    ));
                }
            },
            None => {
                self.entries.push(PendingEntry { msg, due_ms: due });
            },
        }
    }

    /// Removes and returns the messages of every entry that is due at
    /// `now_ms`, in stored order; entries not yet due stay, in order.
    pub fn take_due(&mut self, now_ms: u64) -> (msgs: Vec<OscMsg>)
        requires
            old(self).wf(),
        ensures
            final(self).wf(),
            msgs@ == due_msgs(old(self).entries@, now_ms),
            final(self).entries@ == kept_entries(old(self).entries@, now_ms),
    {
        let ghost orig = self.entries@;
        let mut out: Vec<OscMsg> = Vec::new();
        let mut kept: Vec<PendingEntry> = Vec::new();
        proof {
            assert(out@ =~= Seq::<OscMsg>::empty());
            assert(kept@ =~= Seq::<PendingEntry>::empty());
            assert(due_msgs(orig, now_ms) =~= out@ + due_msgs(self.entries@, now_ms));
            assert(kept_entries(orig, now_ms) =~= kept@ + kept_entries(self.entries@, now_ms));
        }
        while self.entries.len() > 0
            invariant
                due_msgs(orig, now_ms) == out@ + due_msgs(self.entries@, now_ms),
                kept_entries(orig, now_ms) == kept@ + kept_entries(self.entries@, now_ms),
            decreases self.entries@.len(),
        {
            let ghost before = self.entries@;
            let e = self.entries.remove(0);
            proof {
                assert(e == before[0]);
                assert(self.entries@ =~= before.drop_first());
            }
            if e.due_ms <= now_ms {
                let ghost old_out = out@;
                out.push(e.msg);
                proof {
                    assert(old_out + (seq![e.msg] + due_msgs(self.entries@, now_ms)) =~= out@
                        + due_msgs(self.entries@, now_ms));
                }
            } else {
                let ghost old_kept = kept@;
                kept.push(e);
                proof {
                    assert(old_kept + (seq![e] + kept_entries(self.entries@, now_ms)) =~= kept@
                        + kept_entries(self.entries@, now_ms));
                }
            }
        }
        proof {
            assert(due_msgs(self.entries@, now_ms) =~= Seq::<OscMsg>::empty());
            assert(kept_entries(self.entries@, now_ms) =~= Seq::<PendingEntry>::empty());
            assert(out@ =~= due_msgs(orig, now_ms));
            assert(kept@ =~= kept_entries(orig, now_ms));
            lemma_kept_unique(orig, now_ms);
        }
        self.entries = kept;
        out
    }
}

/// The messages of the entries that are due at `now_ms`, in stored order.
pub open spec fn due_msgs(entries: Seq<PendingEntry>, now_ms: u64) -> Seq<OscMsg>
    decreases entries.len(),
{
    if entries.len() == 0 {
        Seq::empty()
    } else {
        let rest = due_msgs(entries.drop_first(), now_ms);
        if entries[0].due_ms <= now_ms {
            seq![entries[0].msg] + rest
        } else {
            rest
        }
    }
}

/// The entries that are not yet due at `now_ms`, in stored order.
pub open spec fn kept_entries(entries: Seq<PendingEntry>, now_ms: u64) -> Seq<PendingEntry>
    decreases entries.len(),
{
    if entries.len() == 0 {
        Seq::empty()
    } else {
        let rest = kept_entries(entries.drop_first(), now_ms);
        if entries[0].due_ms <= now_ms {
            rest
        } else {
            seq![entries[0]] + rest
        }
    }
}

/// How many of the messages carry the given address.
pub open spec fn msg_count(msgs: Seq<OscMsg>, a: Seq<char>) -> nat
    decreases msgs.len(),
{
    if msgs.len() == 0 {
        0
    } else {
        (if msgs[0].addr@ == a {
            1nat
        } else {
            0nat
        }) + msg_count(msgs.drop_first(), a)
    }
}

/// The entries kept by a poll keep unique addresses.
pub proof fn lemma_kept_unique(entries: Seq<PendingEntry>, now_ms: u64)
    requires
        unique_addrs(entries),
    ensures
        unique_addrs(kept_entries(entries, now_ms)),
        forall|k: int|
            0 <= k < kept_entries(entries, now_ms).len() ==> exists|j: int|
                0 <= j < entries.len() && #[trigger] kept_entries(entries, now_ms)[k] == entries[j],
    decreases entries.len(),
{
    if entries.len() > 0 {
        let rest = entries.drop_first();
        assert(forall|j: int| 0 <= j < rest.len() ==> #[trigger] rest[j] == entries[j + 1]);
        lemma_kept_unique(rest, now_ms);
        let kr = kept_entries(rest, now_ms);
        assert forall|k: int| 0 <= k < kept_entries(entries, now_ms).len() implies exists|j: int|
            0 <= j < entries.len() && #[trigger] kept_entries(entries, now_ms)[k] == entries[j] by {
            let kept = kept_entries(entries, now_ms);
            if entries[0].due_ms <= now_ms {
                assert(kept[k] == kr[k]);
                let j0 = choose|j: int| 0 <= j < rest.len() && kr[k] == rest[j];
                assert(kept[k] == entries[j0 + 1]);
            } else {
                if k == 0 {
                    assert(kept[0] == entries[0]);
                } else {
                    assert(kept[k] == kr[k - 1]);
                    let j0 = choose|j: int| 0 <= j < rest.len() && kr[k - 1] == rest[j];
                    assert(kept[k] == entries[j0 + 1]);
                }
            }
        }
        if entries[0].due_ms > now_ms {
            let kept = kept_entries(entries, now_ms);
            assert forall|i: int, j: int| 0 <= i < j < kept.len() implies entry_key(
                #[trigger] kept[i],
            ) != entry_key(#[trigger] kept[j]) by {
                assert(kept[j] == kr[j - 1]);
                let j0 = choose|j2: int| 0 <= j2 < rest.len() && kr[j - 1] == rest[j2];
                if i == 0 {
                    assert(kept[0] == entries[0]);
                    assert(entry_key(entries[0]) != entry_key(entries[j0 + 1]));
                } else {
                    assert(kept[i] == kr[i - 1]);
                }
            }
        }
    }
}

/// Law: what one poll does for one address. An address with nothing pending
/// fires nothing; one whose entry is due fires exactly that message, exactly
/// once, and stops being pending; one whose entry is not yet due fires
/// nothing and stays pending unchanged.
pub proof fn lemma_take_due_lookup(entries: Seq<PendingEntry>, now_ms: u64, a: Seq<char>)
    requires
        unique_addrs(entries),
    ensures
        match lookup(entries, a) {
            Option::None => msg_count(due_msgs(entries, now_ms), a) == 0 && lookup(
                kept_entries(entries, now_ms),
                a,
            ) is None,
            Option::Some(p) => {
                if p.1 <= now_ms {
                    &&& msg_count(due_msgs(entries, now_ms), a) == 1
                    &&& forall|i: int|
                        0 <= i < due_msgs(entries, now_ms).len() && (#[trigger] due_msgs(
                            entries,
                            now_ms,
                        )[i]).addr@ == a ==> due_msgs(entries, now_ms)[i] == p.0
                    &&& lookup(kept_entries(entries, now_ms), a) is None
                } else {
                    &&& msg_count(due_msgs(entries, now_ms), a) == 0
                    &&& lookup(kept_entries(entries, now_ms), a) == Some(p)
                }
            },
        },
    decreases entries.len(),
{
    if entries.len() == 0 {
    } else {
        let e0 = entries[0];
        let rest = entries.drop_first();
        assert(forall|j: int| 0 <= j < rest.len() ==> #[trigger] rest[j] == entries[j + 1]);
        lemma_take_due_lookup(rest, now_ms, a);
        lemma_find_key_props(entries, a);
        lemma_find_key_props(rest, a);
        let due = due_msgs(entries, now_ms);
        let duer = due_msgs(rest, now_ms);
        let kept = kept_entries(entries, now_ms);
        let keptr = kept_entries(rest, now_ms);
        if entry_key(e0) == a {
            assert(lookup(entries, a) == Some((e0.msg, e0.due_ms)));
            assert forall|j: int| 0 <= j < rest.len() implies entry_key(#[trigger] rest[j])
                != a by {
                assert(rest[j] == entries[j + 1]);
            }
            lemma_find_key_first(rest, a, rest.len() as int);
            assert(lookup(rest, a) is None);
            lemma_msg_count_zero(duer, a);
            if e0.due_ms <= now_ms {
                assert(due == seq![e0.msg] + duer);
                assert(due.drop_first() =~= duer);
                assert(due[0] == e0.msg);
                assert(msg_count(due, a) == 1 + msg_count(duer, a));
                assert forall|i: int|
                    0 <= i < due.len() && (#[trigger] due[i]).addr@ == a implies due[i]
                    == e0.msg by {
                    if i > 0 {
                        assert(due[i] == duer[i - 1]);
                    }
                }
                assert(kept == keptr);
            } else {
                assert(due == duer);
                assert(kept == seq![e0] + keptr);
                assert(kept[0] == e0);
                lemma_find_key_first(kept, a, 0);
            }
        } else {
            let r = find_key(rest, a);
            if r >= 0 {
                assert(entries[r + 1] == rest[r]);
                assert(lookup(entries, a) == lookup(rest, a));
            } else {
                assert(lookup(entries, a) is None);
                assert(lookup(rest, a) is None);
            }
            if e0.due_ms <= now_ms {
                assert(due == seq![e0.msg] + duer);
                assert(due.drop_first() =~= duer);
                assert(due[0] == e0.msg);
                assert(msg_count(due, a) == msg_count(duer, a));
                assert forall|i: int|
                    0 <= i < due.len() && (#[trigger] due[i]).addr@ == a implies i > 0 && due[i]
                    == duer[i - 1] by {
                    if i > 0 {
                        assert(due[i] == duer[i - 1]);
                    }
                }
                assert(kept == keptr);
            } else {
                assert(due == duer);
                assert(kept == seq![e0] + keptr);
                assert(kept[0] == e0);
                assert(kept.drop_first() =~= keptr);
                let rk = find_key(keptr, a);
                assert(find_key(kept, a) == if rk < 0 {
                    -1int
                } else {
                    1 + rk
                });
                if rk >= 0 {
                    lemma_find_key_props(keptr, a);
                    assert(kept[rk + 1] == keptr[rk]);
                }
                assert(lookup(kept, a) == lookup(keptr, a));
            }
        }
    }
}

/// A message count of zero means no message carries the address.
pub proof fn lemma_msg_count_zero(msgs: Seq<OscMsg>, a: Seq<char>)
    ensures
        msg_count(msgs, a) == 0 <==> forall|i: int|
            0 <= i < msgs.len() ==> (#[trigger] msgs[i]).addr@ != a,
    decreases msgs.len(),
{
    if msgs.len() > 0 {
        let rest = msgs.drop_first();
        assert(forall|j: int| 0 <= j < rest.len() ==> #[trigger] rest[j] == msgs[j + 1]);
        lemma_msg_count_zero(rest, a);
        if msg_count(msgs, a) == 0 {
            assert forall|i: int| 0 <= i < msgs.len() implies (#[trigger] msgs[i]).addr@ != a by {
                if i > 0 {
                    assert(msgs[i] == rest[i - 1]);
                }
            }
        }
    }
}

/// What scheduling a whole packet does: each contained message is scheduled
/// in order, each under its own address.
pub open spec fn spec_schedule_packet(
    entries: Seq<PendingEntry>,
    p: Packet,
    now_ms: u64,
    window_ms: u64,
) -> Seq<PendingEntry>
    decreases p,
{
    match p {
        Packet::Message(m) => spec_schedule(entries, m, due_time(now_ms, window_ms)),
        Packet::Bundle(content) => spec_schedule_packets(entries, content@, now_ms, window_ms),
    }
}

/// Folds [`spec_schedule_packet`] over a sequence of packets, in order.
pub open spec fn spec_schedule_packets(
    entries: Seq<PendingEntry>,
    ps: Seq<Packet>,
    now_ms: u64,
    window_ms: u64,
) -> Seq<PendingEntry>
    decreases ps,
{
    if ps.len() == 0 {
        entries
    } else {
        spec_schedule_packets(
            spec_schedule_packet(entries, ps[0], now_ms, window_ms),
            ps.drop_first(),
            now_ms,
            window_ms,
        )
    }
}

/// Scheduling a packet keeps addresses unique.
pub proof fn lemma_schedule_packet_unique(
    entries: Seq<PendingEntry>,
    p: Packet,
    now_ms: u64,
    window_ms: u64,
)
    requires
        unique_addrs(entries),
    ensures
        unique_addrs(spec_schedule_packet(entries, p, now_ms, window_ms)),
    decreases p,
{
    match p {
        Packet::Message(m) => {
            lemma_schedule_lookup(entries, m, due_time(now_ms, window_ms), m.addr@);
        },
        Packet::Bundle(content) => {
            lemma_schedule_packets_unique(entries, content@, now_ms, window_ms);
        },
    }
}

/// Scheduling a sequence of packets keeps addresses unique.
pub proof fn lemma_schedule_packets_unique(
    entries: Seq<PendingEntry>,
    ps: Seq<Packet>,
    now_ms: u64,
    window_ms: u64,
)
    requires
        unique_addrs(entries),
    ensures
        unique_addrs(spec_schedule_packets(entries, ps, now_ms, window_ms)),
    decreases ps,
{
    if ps.len() > 0 {
        lemma_schedule_packet_unique(entries, ps[0], now_ms, window_ms);
        lemma_schedule_packets_unique(
            spec_schedule_packet(entries, ps[0], now_ms, window_ms),
            ps.drop_first(),
            now_ms,
            window_ms,
        );
    }
}

/// Folding one more packet onto the end.
pub proof fn lemma_schedule_packets_push(
    entries: Seq<PendingEntry>,
    ps: Seq<Packet>,
    p: Packet,
    now_ms: u64,
    window_ms: u64,
)
    ensures
        spec_schedule_packets(entries, ps.push(p), now_ms, window_ms) == spec_schedule_packet(
            spec_schedule_packets(entries, ps, now_ms, window_ms),
            p,
            now_ms,
            window_ms,
        ),
    decreases ps.len(),
{
    reveal_with_fuel(spec_schedule_packets, 3);
    if ps.len() == 0 {
        let q = ps.push(p);
        assert(q[0] == p);
        assert(q.drop_first() =~= Seq::<Packet>::empty());
    } else {
        let q = ps.push(p);
        assert(q[0] == ps[0]);
        assert(q.drop_first() =~= ps.drop_first().push(p));
        lemma_schedule_packets_push(
            spec_schedule_packet(entries, ps[0], now_ms, window_ms),
            ps.drop_first(),
            p,
            now_ms,
            window_ms,
        );
    }
}

/// Schedules every message contained in a packet, unwrapping bundles
/// recursively; each nested message is scheduled under its own address.
pub fn handle_packet_for_debounce(
    state: &mut DebounceState,
    packet: Packet,
    now_ms: u64,
    window_ms: u64,
)
    requires
        old(state).wf(),
    ensures
        final(state).wf(),
        final(state).entries@ == spec_schedule_packet(
            old(state).entries@,
            packet,
            now_ms,
            window_ms,
        ),
    decreases packet,
{
    let ghost g = packet;
    proof {
        lemma_schedule_packet_unique(state.entries@, g, now_ms, window_ms);
    }
    match packet {
        Packet::Message(m) => {
            state.schedule(m, now_ms, window_ms);
        },
        Packet::Bundle(mut content) => {
            let ghost orig_content = content@;
            let ghost orig_entries = state.entries@;
            let ghost mut k: int = 0;
            proof {
                assert(orig_content.take(0) =~= Seq::<Packet>::empty());
                assert(content@ =~= orig_content.skip(0));
            }
            #[verifier::loop_isolation(false)]
            while content.len() > 0
                invariant
                    state.wf(),
                    0 <= k <= orig_content.len(),
                    content@ == orig_content.skip(k),
                    state.entries@ == spec_schedule_packets(
                        orig_entries,
                        orig_content.take(k),
                        now_ms,
                        window_ms,
                    ),
                    g is Bundle && g->Bundle_0@ == orig_content,
                decreases content@.len(),
            {
                let q = content.remove(0);
                proof {
                    assert(q == orig_content[k]);
                    assert(content@ =~= orig_content.skip(k + 1));
                    assert(decreases_to!(g => g->Bundle_0));
                    assert(decreases_to!(g->Bundle_0 => g->Bundle_0@));
                    assert(g->Bundle_0@ == orig_content);
                    assert(decreases_to!(orig_content => orig_content[k]));
                    assert(decreases_to!(g => orig_content[k]));
                }
                handle_packet_for_debounce(state, q, now_ms, window_ms);
                proof {
                    k = k + 1;
                    assert(orig_content.take(k) =~= orig_content.take(k - 1).push(
                        orig_content[k - 1],
                    ));
                    lemma_schedule_packets_push(
                        orig_entries,
                        orig_content.take(k - 1),
                        orig_content[k - 1],
                        now_ms,
                        window_ms,
                    );
                }
            }
            proof {
                assert(orig_content.take(orig_content.len() as int) =~= orig_content);
            }
        },
    }
}

/// How pending entries evolve over a burst of received messages: each event
/// pairs a message with its receipt instant in milliseconds.
pub open spec fn run_schedule(
    entries: Seq<PendingEntry>,
    events: Seq<(OscMsg, u64)>,
    window_ms: u64,
) -> Seq<PendingEntry>
    decreases events.len(),
{
    if events.len() == 0 {
        entries
    } else {
        run_schedule(
            spec_schedule(entries, events[0].0, due_time(events[0].1, window_ms)),
            events.drop_first(),
            window_ms,
        )
    }
}

/// Law (coalescing): a burst of messages to one address leaves exactly one
/// pending value — the last message, due at its receipt time plus the
/// window. Polls strictly before that instant fire nothing for the address;
/// polls at or after it fire exactly one message, the last one.
pub proof fn lemma_debounce_coalescing(
    entries: Seq<PendingEntry>,
    events: Seq<(OscMsg, u64)>,
    window_ms: u64,
    a: Seq<char>,
)
    requires
        unique_addrs(entries),
        events.len() > 0,
        forall|i: int| 0 <= i < events.len() ==> (#[trigger] events[i]).0.addr@ == a,
    ensures
        ({
            let fin = run_schedule(entries, events, window_ms);
            let last = events.last();
            &&& unique_addrs(fin)
            &&& lookup(fin, a) == Some((last.0, due_time(last.1, window_ms)))
            &&& forall|t: u64|
                t < due_time(last.1, window_ms) ==> msg_count(#[trigger] due_msgs(fin, t), a) == 0
            &&& forall|t: u64|
                t >= due_time(last.1, window_ms) ==> msg_count(#[trigger] due_msgs(fin, t), a)
                    == 1 && (forall|i: int|
                    0 <= i < due_msgs(fin, t).len() && (#[trigger] due_msgs(fin, t)[i]).addr@ == a
                        ==> due_msgs(fin, t)[i] == last.0)
        }),
    decreases events.len(),
{
    let e0 = events[0];
    let due0 = due_time(e0.1, window_ms);
    lemma_schedule_lookup(entries, e0.0, due0, a);
    let s1 = spec_schedule(entries, e0.0, due0);
    let fin = run_schedule(entries, events, window_ms);
    if events.len() == 1 {
        assert(fin == s1);
        assert(lookup(fin, a) == Some((e0.0, due0)));
        assert forall|t: u64| t < due_time(events.last().1, window_ms) implies msg_count(
            #[trigger] due_msgs(fin, t),
            a,
        ) == 0 by {
            lemma_take_due_lookup(fin, t, a);
        }
        assert forall|t: u64| t >= due_time(events.last().1, window_ms) implies msg_count(
            #[trigger] due_msgs(fin, t),
            a,
        ) == 1 && (forall|i: int|
            0 <= i < due_msgs(fin, t).len() && (#[trigger] due_msgs(fin, t)[i]).addr@ == a
                ==> due_msgs(fin, t)[i] == events.last().0) by {
            lemma_take_due_lookup(fin, t, a);
        }
    } else {
        let rest = events.drop_first();
        assert(forall|j: int| 0 <= j < rest.len() ==> #[trigger] rest[j] == events[j + 1]);
        assert(rest.last() == events.last());
        lemma_debounce_coalescing(s1, rest, window_ms, a);
        assert(fin == run_schedule(s1, rest, window_ms));
    }
}

/// Law (independence): scheduling a message for one address never changes
/// what is pending for a different address, nor what a poll fires for it.
pub proof fn lemma_debounce_independence(
    entries: Seq<PendingEntry>,
    msg: OscMsg,
    now_ms: u64,
    window_ms: u64,
    b: Seq<char>,
    t: u64,
)
    requires
        unique_addrs(entries),
        b != msg.addr@,
    ensures
        ({
            let fin = spec_schedule(entries, msg, due_time(now_ms, window_ms));
            &&& lookup(fin, b) == lookup(entries, b)
            &&& msg_count(due_msgs(fin, t), b) == msg_count(due_msgs(entries, t), b)
        }),
{
    let fin = spec_schedule(entries, msg, due_time(now_ms, window_ms));
    lemma_schedule_lookup(entries, msg, due_time(now_ms, window_ms), b);
    lemma_take_due_lookup(entries, t, b);
    lemma_take_due_lookup(fin, t, b);
}


/// Finds the entry for the given address, scanning in order.
fn find_entry(entries: &Vec<PendingEntry>, addr: &String) -> (r: Option<usize>)
    ensures
        match r {
            Option::Some(i) => find_key(entries@, addr@) == i,
            Option::None => find_key(entries@, addr@) == -1,
        },
{
    let mut i: usize = 0;
    while i < entries.len()
        invariant
            i <= entries@.len(),
            forall|j: int| 0 <= j < i ==> entry_key(#[trigger] entries@[j]) != addr@,
        decreases entries@.len() - i,
    {
        if entries[i].msg.addr == *addr {
            proof {
                lemma_find_key_first(entries@, addr@, i as int);
            }
            return Some(i);
        }
        i = i + 1;
    }
    proof {
        lemma_find_key_first(entries@, addr@, entries@.len() as int);
    }
    None
}

} // verus!
