//! Per-engine activity between two `fdinfo` scans, and client memory.
//!
//! The counters are cumulative, so activity is the difference between
//! two scans of the same client. i915 reports busy nanoseconds, summed
//! over a device's clients; xe reports busy and total cycles, whose
//! ratio per client is the busy fraction. The conversion of these exact
//! integer deltas into a utilization percentage is left to the caller.
use vstd::prelude::*;

use crate::collector::counts::EngineCounts;
use crate::collector::fdinfo::{clients_view, keys_distinct, lookup, ClientCounters, CountersView};
use crate::text::{chars_of, same_chars};

verus! {

/// `a - b`, or 0 when `b` is larger (`u64::saturating_sub`).
pub open spec fn sat_sub(a: u64, b: u64) -> u64 {
    if a >= b {
        (a - b) as u64
    } else {
        0
    }
}

/// The counter under `k`, or `d` when there is none.
pub open spec fn get_or(m: Map<Seq<char>, u64>, k: Seq<char>, d: u64) -> u64 {
    if m.contains_key(k) {
        m[k]
    } else {
        d
    }
}

/// The previous scan's counters of the same client, if it was seen.
pub open spec fn previous(prev: Seq<(u64, CountersView)>, id: u64) -> Option<CountersView> {
    lookup(prev, id)
}

/// A counter of the previous scan, 0 when the client or the engine is new.
pub open spec fn prev_count(p: Option<CountersView>, sel: int, k: Seq<char>) -> u64 {
    match p {
        Some(c) => get_or(
            if sel == 0 {
                c.engines_ns
            } else if sel == 1 {
                c.engines_cycles
            } else {
                c.engine_total_cycles
            },
            k,
            0,
        ),
        None => 0,
    }
}

/// Busy nanoseconds one client added on engine `k` (i915).
pub open spec fn ns_delta(c: CountersView, p: Option<CountersView>, k: Seq<char>) -> Option<u64> {
    if c.engines_ns.contains_key(k) {
        Some(sat_sub(c.engines_ns[k], prev_count(p, 0, k)))
    } else {
        None
    }
}

/// Busy and total cycles one client added on engine `k` (xe), when the
/// total advanced.
pub open spec fn cycles_delta(c: CountersView, p: Option<CountersView>, k: Seq<char>) -> Option<
    (u64, u64),
> {
    if c.engines_cycles.contains_key(k) {
        let d_total = sat_sub(get_or(c.engine_total_cycles, k, 0), prev_count(p, 2, k));
        if d_total > 0 {
            Some((sat_sub(c.engines_cycles[k], prev_count(p, 1, k)), d_total))
        } else {
            None
        }
    } else {
        None
    }
}

/// The instances of engine `k` a client reports, at least 1.
pub open spec fn capacity_of(c: CountersView, k: Seq<char>) -> u64 {
    let cap = get_or(c.capacity, k, 1);
    if cap >= 1 {
        cap
    } else {
        1
    }
}

/// What the clients of one device added on one engine.
pub struct EngineDeltaView {
    /// Some client contributed to this engine.
    pub active: bool,
    /// i915: busy nanoseconds summed over clients.
    pub busy_ns: nat,
    /// xe: (busy cycles, total cycles) per contributing client, in order.
    pub cycles: Seq<(u64, u64)>,
    /// The largest capacity among contributing clients.
    pub capacity: u64,
}

/// Engine `k`'s activity summed over the clients `cur`, against `prev`.
pub open spec fn engine_activity(
    cur: Seq<(u64, CountersView)>,
    prev: Seq<(u64, CountersView)>,
    k: Seq<char>,
) -> EngineDeltaView
    decreases cur.len(),
{
    if cur.len() == 0 {
        EngineDeltaView { active: false, busy_ns: 0, cycles: seq![], capacity: 0 }
    } else {
        let before = engine_activity(cur.drop_last(), prev, k);
        let (id, c) = cur.last();
        let p = previous(prev, id);
        let ns = ns_delta(c, p, k);
        let cy = cycles_delta(c, p, k);
        let touched = ns is Some || cy is Some;
        EngineDeltaView {
            active: before.active || touched,
            busy_ns: before.busy_ns + match ns {
                Some(d) => d as nat,
                None => 0,
            },
            cycles: match cy {
                Some(x) => before.cycles.push(x),
                None => before.cycles,
            },
            capacity: if touched && capacity_of(c, k) > before.capacity {
                capacity_of(c, k)
            } else {
                before.capacity
            },
        }
    }
}

/// One engine's activity between two scans.
pub struct EngineDelta {
    /// Raw DRM engine key ("rcs", "vcs", ...).
    pub key: Vec<char>,
    /// i915: busy nanoseconds summed over clients.
    pub busy_ns: u128,
    /// xe: (busy cycles, total cycles) per contributing client.
    pub cycles: Vec<(u64, u64)>,
    /// Engine instances (at least 1).
    pub capacity: u64,
}

impl EngineDelta {
    /// What this delta stands for.
    pub open spec fn view_for(&self) -> EngineDeltaView {
        EngineDeltaView {
            active: true,
            busy_ns: self.busy_ns as nat,
            cycles: self.cycles@,
            capacity: self.capacity,
        }
    }
}

/// An engine was touched only if some client reports it.
proof fn lemma_active_reported(
    cur: Seq<(u64, CountersView)>,
    prev: Seq<(u64, CountersView)>,
    k: Seq<char>,
)
    ensures
        engine_activity(cur, prev, k).active ==> reported(cur, k),
        engine_activity(cur, prev, k).busy_ns <= cur.len() * (u64::MAX as nat),
        engine_activity(cur, prev, k).active ==> engine_activity(cur, prev, k).capacity >= 1,
    decreases cur.len(),
{
    if cur.len() > 0 {
        lemma_active_reported(cur.drop_last(), prev, k);
        let before = engine_activity(cur.drop_last(), prev, k);
        if before.active {
            let j = choose|j: int|
                0 <= j < cur.drop_last().len() && #[trigger] client_reports(cur.drop_last()[j].1, k);
            assert(cur[j] == cur.drop_last()[j]);
            assert(client_reports(cur[j].1, k));
        }
        let n = (cur.len() - 1) as nat;
        assert(before.busy_ns + u64::MAX as nat <= cur.len() * (u64::MAX as nat)) by (nonlinear_arith)
            requires
                before.busy_ns <= n * (u64::MAX as nat),
                cur.len() == n + 1,
        ;
        if engine_activity(cur, prev, k).active && !before.active {
            assert(cur[cur.len() - 1] == cur.last());
            assert(client_reports(cur[cur.len() - 1].1, k));
        }
    }
}

proof fn lemma_lookup_own(s: Seq<(u64, CountersView)>, j: int)
    requires
        keys_distinct(s),
        0 <= j < s.len(),
    ensures
        lookup(s, s[j].0) == Some(s[j].1),
{
    crate::collector::fdinfo::lemma_key_pos_at(s, s[j].0, j);
}

proof fn lemma_unchanged_prefix_idle(cur: Seq<(u64, CountersView)>, k: Seq<char>, n: int)
    requires
        keys_distinct(cur),
        0 <= n <= cur.len(),
    ensures
        engine_activity(cur.take(n), cur, k).busy_ns == 0,
        engine_activity(cur.take(n), cur, k).cycles.len() == 0,
    decreases n,
{
    if n > 0 {
        lemma_unchanged_prefix_idle(cur, k, n - 1);
        assert(cur.take(n).drop_last() =~= cur.take(n - 1));
        assert(cur.take(n).last() == cur[n - 1]);
        lemma_lookup_own(cur, n - 1);
    }
}

/// A scan compared with itself shows no activity: no busy time and no
/// cycle window on any engine.
pub proof fn lemma_unchanged_scan_is_idle(cur: Seq<(u64, CountersView)>, k: Seq<char>)
    requires
        keys_distinct(cur),
    ensures
        engine_activity(cur, cur, k).busy_ns == 0,
        engine_activity(cur, cur, k).cycles.len() == 0,
{
    lemma_unchanged_prefix_idle(cur, k, cur.len() as int);
    assert(cur.take(cur.len() as int) =~= cur);
}

/// The value `lookup` finds in a client list, read off the exec list.
fn previous_of(prev: &Vec<(u64, ClientCounters)>, id: u64) -> (r: Option<&ClientCounters>)
    ensures
        match r {
            Some(c) => previous(clients_view(prev@), id) == Some(c@),
            None => previous(clients_view(prev@), id) is None,
        },
{
    let ghost pv = clients_view(prev@);
    let mut q: usize = 0;
    while q < prev.len() && prev[q].0 != id
        invariant
            q <= prev@.len(),
            pv == clients_view(prev@),
            forall|j: int| 0 <= j < q ==> (#[trigger] pv[j]).0 != id,
        decreases prev@.len() - q,
    {
        q = q + 1;
    }
    proof {
        crate::collector::fdinfo::lemma_key_pos_at(pv, id, q as int);
    }
    if q < prev.len() {
        Some(&prev[q].1)
    } else {
        None
    }
}

fn get_or_exec(m: &EngineCounts, k: &[char], d: u64) -> (r: u64)
    ensures
        r == get_or(m@, k@, d),
{
    match m.get(k) {
        Some(v) => v,
        None => d,
    }
}

fn prev_count_exec(p: Option<&ClientCounters>, sel: u8, k: &[char]) -> (r: u64)
    requires
        sel <= 2,
    ensures
        r == prev_count(
            match p {
                Some(c) => Some(c@),
                None => None,
            },
            sel as int,
            k@,
        ),
{
    match p {
        Some(c) => {
            if sel == 0 {
                get_or_exec(&c.engines_ns, k, 0)
            } else if sel == 1 {
                get_or_exec(&c.engines_cycles, k, 0)
            } else {
                get_or_exec(&c.engine_total_cycles, k, 0)
            }
        },
        None => 0,
    }
}

fn sat_sub_exec(a: u64, b: u64) -> (r: u64)
    ensures
        r == sat_sub(a, b),
{
    if a >= b {
        a - b
    } else {
        0
    }
}

/// Engine `k`'s activity over the clients `cur` against `prev`.
fn activity_of(cur: &Vec<(u64, ClientCounters)>, prev: &Vec<(u64, ClientCounters)>, k: &[char]) -> (r: (
    bool,
    EngineDelta,
))
    ensures
        r.0 == engine_activity(clients_view(cur@), clients_view(prev@), k@).active,
        r.0 ==> r.1.view_for() == engine_activity(clients_view(cur@), clients_view(prev@), k@),
        r.1.key@ == k@,
{
    let ghost cv = clients_view(cur@);
    let ghost pv = clients_view(prev@);
    let mut active = false;
    let mut busy: u128 = 0;
    let mut cycles: Vec<(u64, u64)> = Vec::new();
    let mut cap: u64 = 0;
    let mut i: usize = 0;
    while i < cur.len()
        invariant
            i <= cur@.len(),
            cv == clients_view(cur@),
            pv == clients_view(prev@),
            ({
                let a = engine_activity(cv.take(i as int), pv, k@);
                &&& a.active == active
                &&& a.busy_ns == busy as nat
                &&& a.cycles == cycles@
                &&& a.capacity == cap
            }),
        decreases cur@.len() - i,
    {
        proof {
            lemma_active_reported(cv.take(i as int), pv, k@);
            assert(cv.take(i + 1).drop_last() =~= cv.take(i as int));
            assert(cv.take(i + 1).last() == cv[i as int]);
            assert((i as nat) * (u64::MAX as nat) <= usize::MAX as nat * (u64::MAX as nat)) by (nonlinear_arith)
                requires
                    i <= usize::MAX,
            ;
        }
        let id: u64 = cur[i].0;
        let c = &cur[i].1;
        let p = previous_of(prev, id);
        let mut touched = false;
        if let Some(v) = c.engines_ns.get(k) {
            let d = sat_sub_exec(v, prev_count_exec(p, 0, k));
            busy = busy + d as u128;
            touched = true;
        }
        if let Some(b) = c.engines_cycles.get(k) {
            let total = get_or_exec(&c.engine_total_cycles, k, 0);
            let d_total = sat_sub_exec(total, prev_count_exec(p, 2, k));
            if d_total > 0 {
                let d_busy = sat_sub_exec(b, prev_count_exec(p, 1, k));
                cycles.push((d_busy, d_total));
                touched = true;
            }
        }
        if touched {
            active = true;
            let cap_c = get_or_exec(&c.capacity, k, 1);
            let cap_c = if cap_c >= 1 {
                cap_c
            } else {
                1
            };
            if cap_c > cap {
                cap = cap_c;
            }
        }
        i = i + 1;
    }
    assert(cv.take(cur@.len() as int) =~= cv);
    (active, EngineDelta { key: copy_chars(k), busy_ns: busy, cycles, capacity: cap })
}

fn copy_chars(k: &[char]) -> (r: Vec<char>)
    ensures
        r@ == k@,
{
    crate::text::copy_range(k, 0, k.len())
}

/// A client reports engine `k` in either kind of counter.
pub open spec fn client_reports(c: CountersView, k: Seq<char>) -> bool {
    c.engines_ns.contains_key(k) || c.engines_cycles.contains_key(k)
}

/// Some client of `cur` reports engine `k`.
pub open spec fn reported(cur: Seq<(u64, CountersView)>, k: Seq<char>) -> bool {
    exists|j: int| 0 <= j < cur.len() && #[trigger] client_reports(cur[j].1, k)
}

/// `k` is one of `keys`.
pub open spec fn listed(keys: Seq<Vec<char>>, k: Seq<char>) -> bool {
    exists|a: int| 0 <= a < keys.len() && (#[trigger] keys[a])@ == k
}

/// No name occurs twice in `keys`.
pub open spec fn names_distinct(keys: Seq<Vec<char>>) -> bool {
    forall|a: int, b: int|
        0 <= a < keys.len() && 0 <= b < keys.len() && a != b ==> (#[trigger] keys[a])@ != (
        #[trigger] keys[b])@
}

/// Adds `name` to `keys` unless it is already there.
fn add_name(keys: &mut Vec<Vec<char>>, name: &Vec<char>)
    requires
        names_distinct(old(keys)@),
    ensures
        names_distinct(final(keys)@),
        listed(final(keys)@, name@),
        forall|k: Seq<char>| listed(old(keys)@, k) ==> listed(final(keys)@, k),
{
    let mut a: usize = 0;
    while a < keys.len() && !same_chars(keys[a].as_slice(), name.as_slice())
        invariant
            a <= keys@.len(),
            forall|b: int| 0 <= b < a ==> (#[trigger] keys@[b])@ != name@,
        decreases keys@.len() - a,
    {
        a = a + 1;
    }
    if a == keys.len() {
        let ghost before = keys@;
        keys.push(name.clone());
        proof {
            assert(keys@[a as int]@ == name@);
            assert forall|k: Seq<char>| listed(before, k) implies listed(keys@, k) by {
                let b = choose|b: int| 0 <= b < before.len() && (#[trigger] before[b])@ == k;
                assert(keys@[b] == before[b]);
            }
        }
    }
    proof {
        assert(keys@[a as int]@ == name@);
    }
}

/// The engine names that the clients `cur` report, each once.
fn reported_keys(cur: &Vec<(u64, ClientCounters)>) -> (r: Vec<Vec<char>>)
    ensures
        names_distinct(r@),
        forall|k: Seq<char>| reported(clients_view(cur@), k) ==> listed(r@, k),
{
    let ghost cv = clients_view(cur@);
    let mut keys: Vec<Vec<char>> = Vec::new();
    let mut i: usize = 0;
    while i < cur.len()
        invariant
            i <= cur@.len(),
            cv == clients_view(cur@),
            names_distinct(keys@),
            forall|j: int, k: Seq<char>|
                0 <= j < i && #[trigger] client_reports(cv[j].1, k) ==> listed(keys@, k),
        decreases cur@.len() - i,
    {
        let c = &cur[i].1;
        let ns = c.engines_ns.pairs();
        let cy = c.engines_cycles.pairs();
        let mut t: usize = 0;
        while t < ns.len()
            invariant
                t <= ns@.len(),
                names_distinct(keys@),
                forall|j: int, k: Seq<char>|
                    0 <= j < i && #[trigger] client_reports(cv[j].1, k) ==> listed(keys@, k),
                forall|x: int| 0 <= x < t ==> listed(keys@, (#[trigger] ns@[x]).0@),
            decreases ns@.len() - t,
        {
            add_name(&mut keys, &ns[t].0);
            t = t + 1;
        }
        let mut u: usize = 0;
        while u < cy.len()
            invariant
                u <= cy@.len(),
                names_distinct(keys@),
                forall|j: int, k: Seq<char>|
                    0 <= j < i && #[trigger] client_reports(cv[j].1, k) ==> listed(keys@, k),
                forall|x: int| 0 <= x < ns@.len() ==> listed(keys@, (#[trigger] ns@[x]).0@),
                forall|x: int| 0 <= x < u ==> listed(keys@, (#[trigger] cy@[x]).0@),
            decreases cy@.len() - u,
        {
            add_name(&mut keys, &cy[u].0);
            u = u + 1;
        }
        proof {
            assert forall|j: int, k: Seq<char>|
                0 <= j < i + 1 && #[trigger] client_reports(cv[j].1, k) implies listed(keys@, k) by {
                if j == i {
                    assert(cv[j].1 == c@);
                    if c.engines_ns@.contains_key(k) {
                        let x = choose|x: int| 0 <= x < ns@.len() && (#[trigger] ns@[x]).0@ == k;
                        assert(listed(keys@, ns@[x].0@));
                    } else {
                        let x = choose|x: int| 0 <= x < cy@.len() && (#[trigger] cy@[x]).0@ == k;
                        assert(listed(keys@, cy@[x].0@));
                    }
                }
            }
        }
        i = i + 1;
    }
    keys
}

/// What `differ_engines` reports: nothing without both scans or without
/// elapsed time; otherwise the engines some client was active on.
pub open spec fn engine_deltas_spec(
    prev: Option<Seq<(u64, CountersView)>>,
    cur: Option<Seq<(u64, CountersView)>>,
    elapsed_ns: u64,
    r: Seq<EngineDelta>,
) -> bool {
    match (prev, cur) {
        (Some(p), Some(c)) if elapsed_ns > 0 => {
            &&& forall|a: int, b: int|
                0 <= a < r.len() && 0 <= b < r.len() && a != b ==> (#[trigger] r[a]).key@ != (
                #[trigger] r[b]).key@
            &&& forall|a: int|
                0 <= a < r.len() ==> (#[trigger] r[a]).view_for() == engine_activity(
                    c,
                    p,
                    r[a].key@,
                )
            &&& forall|k: Seq<char>|
                #[trigger] engine_activity(c, p, k).active ==> exists|a: int|
                    0 <= a < r.len() && (#[trigger] r[a]).key@ == k
        },
        _ => r.len() == 0,
    }
}

/// The view of an optional client list.
pub open spec fn opt_clients(l: Option<&Vec<(u64, ClientCounters)>>) -> Option<Seq<(u64, CountersView)>> {
    match l {
        Some(v) => Some(clients_view(v@)),
        None => None,
    }
}

/// Per-engine activity of one device's clients between the previous scan
/// `prev` and the current one `cur`, `elapsed_ns` apart.
pub fn differ_engines(
    prev: Option<&Vec<(u64, ClientCounters)>>,
    cur: Option<&Vec<(u64, ClientCounters)>>,
    elapsed_ns: u64,
) -> (r: Vec<EngineDelta>)
    ensures
        engine_deltas_spec(opt_clients(prev), opt_clients(cur), elapsed_ns, r@),
{
    let cur = match cur {
        Some(c) => c,
        None => return Vec::new(),
    };
    let prev = match prev {
        Some(p) => p,
        None => return Vec::new(),
    };
    if elapsed_ns == 0 {
        return Vec::new();
    }
    let ghost cv = clients_view(cur@);
    let ghost pv = clients_view(prev@);
    let keys = reported_keys(cur);
    let mut out: Vec<EngineDelta> = Vec::new();
    let mut i: usize = 0;
    while i < keys.len()
        invariant
            i <= keys@.len(),
            cv == clients_view(cur@),
            pv == clients_view(prev@),
            names_distinct(keys@),
            forall|a: int, b: int|
                0 <= a < out@.len() && 0 <= b < out@.len() && a != b ==> (#[trigger] out@[a]).key@
                    != (#[trigger] out@[b]).key@,
            forall|a: int|
                0 <= a < out@.len() ==> (#[trigger] out@[a]).view_for() == engine_activity(
                    cv,
                    pv,
                    out@[a].key@,
                ),
            forall|a: int|
                0 <= a < out@.len() ==> exists|b: int|
                    0 <= b < i && (#[trigger] keys@[b])@ == (#[trigger] out@[a]).key@,
            forall|b: int|
                0 <= b < i && engine_activity(cv, pv, (#[trigger] keys@[b])@).active ==> exists|
                    a: int,
                |
                    0 <= a < out@.len() && (#[trigger] out@[a]).key@ == keys@[b]@,
        decreases keys@.len() - i,
    {
        let (active, d) = activity_of(cur, prev, keys[i].as_slice());
        if active {
            proof {
                assert forall|a: int| 0 <= a < out@.len() implies (#[trigger] out@[a]).key@
                    != d.key@ by {
                    let b = choose|b: int| 0 <= b < i && (#[trigger] keys@[b])@ == out@[a].key@;
                    assert(b != i);
                }
            }
            let ghost before = out@;
            out.push(d);
            proof {
                assert(out@[out@.len() - 1].key@ == keys@[i as int]@);
                assert forall|b: int|
                    0 <= b < i && engine_activity(cv, pv, (#[trigger] keys@[b])@).active implies exists|
                    a: int,
                | 0 <= a < out@.len() && (#[trigger] out@[a]).key@ == keys@[b]@ by {
                    let a = choose|a: int|
                        0 <= a < before.len() && (#[trigger] before[a]).key@ == keys@[b]@;
                    assert(out@[a] == before[a]);
                }
            }
        }
        i = i + 1;
    }
    proof {
        assert forall|k: Seq<char>| #[trigger] engine_activity(cv, pv, k).active implies exists|
            a: int,
        | 0 <= a < out@.len() && (#[trigger] out@[a]).key@ == k by {
            lemma_active_reported(cv, pv, k);
            assert(listed(keys@, k));
            let b = choose|b: int| 0 <= b < keys@.len() && (#[trigger] keys@[b])@ == k;
        }
    }
    out
}

/// Memory that a device's clients hold, in KiB: (VRAM, shared), each
/// `None` when it sums to zero.
pub open spec fn memory_sum(cur: Seq<(u64, CountersView)>, vram: bool) -> nat
    decreases cur.len(),
{
    if cur.len() == 0 {
        0
    } else {
        memory_sum(cur.drop_last(), vram) + if vram {
            cur.last().1.vram_kib as nat
        } else {
            cur.last().1.shared_kib as nat
        }
    }
}

proof fn lemma_memory_sum_bound(cur: Seq<(u64, CountersView)>, vram: bool)
    ensures
        memory_sum(cur, vram) <= cur.len() * (u64::MAX as nat),
    decreases cur.len(),
{
    if cur.len() > 0 {
        lemma_memory_sum_bound(cur.drop_last(), vram);
        let n = (cur.len() - 1) as nat;
        assert(memory_sum(cur.drop_last(), vram) + u64::MAX as nat <= cur.len() * (u64::MAX as nat)) by (nonlinear_arith)
            requires
                memory_sum(cur.drop_last(), vram) <= n * (u64::MAX as nat),
                cur.len() == n + 1,
        ;
    }
}

/// A positive total, or `None`.
pub open spec fn positive(n: nat) -> Option<nat> {
    if n > 0 {
        Some(n)
    } else {
        None
    }
}

/// Total VRAM and shared memory (KiB) held by a device's clients; each
/// is `None` when there are no clients or it sums to zero.
pub fn client_memory(cur: Option<&Vec<(u64, ClientCounters)>>) -> (r: (Option<u128>, Option<u128>))
    ensures
        match opt_clients(cur) {
            None => r.0 is None && r.1 is None,
            Some(c) => {
                &&& r.0 == match positive(memory_sum(c, true)) {
                    Some(n) => Some(n as u128),
                    None => None::<u128>,
                }
                &&& r.1 == match positive(memory_sum(c, false)) {
                    Some(n) => Some(n as u128),
                    None => None::<u128>,
                }
            },
        },
{
    let cur = match cur {
        Some(c) => c,
        None => return (None, None),
    };
    let ghost cv = clients_view(cur@);
    let mut vram: u128 = 0;
    let mut shared: u128 = 0;
    let mut i: usize = 0;
    while i < cur.len()
        invariant
            i <= cur@.len(),
            cv == clients_view(cur@),
            vram as nat == memory_sum(cv.take(i as int), true),
            shared as nat == memory_sum(cv.take(i as int), false),
        decreases cur@.len() - i,
    {
        proof {
            lemma_memory_sum_bound(cv.take(i as int), true);
            lemma_memory_sum_bound(cv.take(i as int), false);
            assert(cv.take(i + 1).drop_last() =~= cv.take(i as int));
            assert((i as nat) * (u64::MAX as nat) <= usize::MAX as nat * (u64::MAX as nat)) by (nonlinear_arith)
                requires
                    i <= usize::MAX,
            ;
        }
        vram = vram + cur[i].1.vram_kib as u128;
        shared = shared + cur[i].1.shared_kib as u128;
        i = i + 1;
    }
    assert(cv.take(cur@.len() as int) =~= cv);
    (if vram > 0 {
        Some(vram)
    } else {
        None
    }, if shared > 0 {
        Some(shared)
    } else {
        None
    })
}

/// Friendly name of a DRM engine key.
pub open spec fn engine_label_spec(key: Seq<char>) -> Seq<char> {
    if key == "rcs"@ || key == "render"@ {
        "Render"@
    } else if key == "ccs"@ || key == "compute"@ {
        "Compute"@
    } else if key == "bcs"@ || key == "copy"@ {
        "Copy"@
    } else if key == "vcs"@ || key == "video"@ {
        "Video"@
    } else if key == "vecs"@ || key == "video-enhance"@ {
        "Video Enhance"@
    } else {
        "Other"@
    }
}

fn is(key: &[char], lit: &str) -> (r: bool)
    ensures
        r == (key@ == lit@),
{
    same_chars(key, chars_of(lit).as_slice())
}

/// Friendly name for a DRM engine key ("rcs" is "Render", ...).
pub fn engine_label(key: &[char]) -> (r: &'static str)
    ensures
        r@ == engine_label_spec(key@),
{
    if is(key, "rcs") || is(key, "render") {
        "Render"
    } else if is(key, "ccs") || is(key, "compute") {
        "Compute"
    } else if is(key, "bcs") || is(key, "copy") {
        "Copy"
    } else if is(key, "vcs") || is(key, "video") {
        "Video"
    } else if is(key, "vecs") || is(key, "video-enhance") {
        "Video Enhance"
    } else {
        "Other"
    }
}

/// Busy time adds up over clients: the busy nanoseconds a device shows on
/// engine `k` with one more client `(id, c)` are those without it plus
/// that client's (saturating) increase of its `drm-engine-<k>` counter
/// since its previous scan (from 0 for a client or engine not seen then).
pub proof fn lemma_busy_time_adds_client(
    cur: Seq<(u64, CountersView)>,
    prev: Seq<(u64, CountersView)>,
    k: Seq<char>,
    id: u64,
    c: CountersView,
)
    ensures
        engine_activity(cur.push((id, c)), prev, k).busy_ns == engine_activity(cur, prev, k).busy_ns
            + if c.engines_ns.contains_key(k) {
            let was: int = match lookup(prev, id) {
                Some(p) => if p.engines_ns.contains_key(k) {
                    p.engines_ns[k] as int
                } else {
                    0
                },
                None => 0,
            };
            if c.engines_ns[k] >= was {
                c.engines_ns[k] - was
            } else {
                0
            }
        } else {
            0
        },
{
    assert(cur.push((id, c)).drop_last() =~= cur);
}

/// Busy time of two groups of clients is the sum of their busy times.
pub proof fn lemma_busy_time_sums_groups(
    a: Seq<(u64, CountersView)>,
    b: Seq<(u64, CountersView)>,
    prev: Seq<(u64, CountersView)>,
    k: Seq<char>,
)
    ensures
        engine_activity(a + b, prev, k).busy_ns == engine_activity(a, prev, k).busy_ns
            + engine_activity(b, prev, k).busy_ns,
    decreases b.len(),
{
    if b.len() == 0 {
        assert(a + b =~= a);
    } else {
        let (id, c) = b.last();
        lemma_busy_time_sums_groups(a, b.drop_last(), prev, k);
        assert((a + b).drop_last() =~= a + b.drop_last());
        assert((a + b).last() == b.last());
        lemma_busy_time_adds_client(a + b.drop_last(), prev, k, id, c);
        lemma_busy_time_adds_client(b.drop_last(), prev, k, id, c);
        assert(a + b =~= (a + b.drop_last()).push((id, c)));
        assert(b =~= b.drop_last().push((id, c)));
    }
}

/// xe cycles: one more client `(id, c)` adds its window — the increase of
/// its busy cycles and of its total cycles on engine `k` since its
/// previous scan — after those of the others, when its total advanced;
/// otherwise it adds nothing.
pub proof fn lemma_cycles_add_client(
    cur: Seq<(u64, CountersView)>,
    prev: Seq<(u64, CountersView)>,
    k: Seq<char>,
    id: u64,
    c: CountersView,
)
    ensures
        ({
            let p = lookup(prev, id);
            let was_busy: int = match p {
                Some(q) => if q.engines_cycles.contains_key(k) {
                    q.engines_cycles[k] as int
                } else {
                    0
                },
                None => 0,
            };
            let was_total: int = match p {
                Some(q) => if q.engine_total_cycles.contains_key(k) {
                    q.engine_total_cycles[k] as int
                } else {
                    0
                },
                None => 0,
            };
            let total: int = if c.engine_total_cycles.contains_key(k) {
                c.engine_total_cycles[k] as int
            } else {
                0
            };
            engine_activity(cur.push((id, c)), prev, k).cycles == if c.engines_cycles.contains_key(k)
                && total > was_total {
                engine_activity(cur, prev, k).cycles.push(
                    (
                        (if c.engines_cycles[k] >= was_busy {
                            c.engines_cycles[k] - was_busy
                        } else {
                            0
                        }) as u64,
                        (total - was_total) as u64,
                    ),
                )
            } else {
                engine_activity(cur, prev, k).cycles
            }
        }),
{
    assert(cur.push((id, c)).drop_last() =~= cur);
}

/// Client memory adds up: one more client `(id, c)` adds its VRAM and its
/// shared memory to the device's totals.
pub proof fn lemma_memory_adds_client(cur: Seq<(u64, CountersView)>, id: u64, c: CountersView)
    ensures
        memory_sum(cur.push((id, c)), true) == memory_sum(cur, true) + c.vram_kib,
        memory_sum(cur.push((id, c)), false) == memory_sum(cur, false) + c.shared_kib,
{
    assert(cur.push((id, c)).drop_last() =~= cur);
}

/// The memory of two groups of clients is the sum of their memory.
pub proof fn lemma_memory_sums_groups(a: Seq<(u64, CountersView)>, b: Seq<(u64, CountersView)>, vram: bool)
    ensures
        memory_sum(a + b, vram) == memory_sum(a, vram) + memory_sum(b, vram),
    decreases b.len(),
{
    if b.len() == 0 {
        assert(a + b =~= a);
    } else {
        let (id, c) = b.last();
        lemma_memory_sums_groups(a, b.drop_last(), vram);
        lemma_memory_adds_client(a + b.drop_last(), id, c);
        lemma_memory_adds_client(b.drop_last(), id, c);
        assert(a + b =~= (a + b.drop_last()).push((id, c)));
        assert(b =~= b.drop_last().push((id, c)));
    }
}

} // verus!
