//! CPU utilization counters and package energy.
//!
//! `/proc/stat` gives cumulative busy and idle jiffies per logical core;
//! utilization is their difference between two polls. RAPL's powercap
//! counter gives cumulative package energy; power is its difference.
use vstd::prelude::*;

use crate::text::{
    text_views, chars_of, has_prefix, lines, parse_decimal, parse_unsigned, split_lines, split_words,
    starts_with, trim, trim_chars, words,
};

verus! {

/// Field `i` of a `/proc/stat` line as a counter (0 when missing or not
/// a number).
pub open spec fn field_value(fields: Seq<Seq<char>>, i: int) -> nat {
    if 0 <= i < fields.len() {
        match parse_unsigned(fields[i], u64::MAX as nat) {
            Some(v) => v,
            None => 0,
        }
    } else {
        0
    }
}

/// The sum of fields `1..n` (every counter after the `cpuN` label).
pub open spec fn fields_sum(fields: Seq<Seq<char>>, n: int) -> nat
    decreases n,
{
    if n <= 1 {
        0
    } else {
        fields_sum(fields, n - 1) + field_value(fields, n - 1)
    }
}

/// Idle jiffies of a line: the `idle` and `iowait` columns.
pub open spec fn idle_of(fields: Seq<Seq<char>>) -> nat {
    field_value(fields, 4) + field_value(fields, 5)
}

/// What the lines read so far say: (aggregate total, aggregate idle,
/// per-core (total, idle)).
pub open spec fn stat_line(st: (nat, nat, Seq<(nat, nat)>), line: Seq<char>) -> (nat, nat, Seq<(nat, nat)>) {
    let f = words(line);
    if has_prefix(line, "cpu "@) {
        (fields_sum(f, f.len() as int), idle_of(f), st.2)
    } else if has_prefix(line, "cpu"@) && f.len() > 4 {
        (st.0, st.1, st.2.push((fields_sum(f, f.len() as int), idle_of(f))))
    } else {
        st
    }
}

/// `/proc/stat` lines read in order.
pub open spec fn stat_fold(ls: Seq<Seq<char>>) -> (nat, nat, Seq<(nat, nat)>)
    decreases ls.len(),
{
    if ls.len() == 0 {
        (0, 0, Seq::empty())
    } else {
        stat_line(stat_fold(ls.drop_last()), ls.last())
    }
}

/// Every counter of a line counts toward its total: changing field `j`
/// (one of `1..n`) changes the sum of fields `1..n` by exactly the change
/// of that field's value.
pub proof fn lemma_total_counts_each_field(f: Seq<Seq<char>>, n: int, j: int, w: Seq<char>)
    requires
        1 <= j < n,
        j < f.len(),
    ensures
        fields_sum(f.update(j, w), n) + field_value(f, j) == fields_sum(f, n) + field_value(
            f.update(j, w),
            j,
        ),
    decreases n,
{
    if n - 1 > j {
        lemma_total_counts_each_field(f, n - 1, j, w);
        assert(field_value(f.update(j, w), n - 1) == field_value(f, n - 1));
    } else {
        lemma_total_unchanged_below(f, j, w, n - 1);
    }
}

proof fn lemma_total_unchanged_below(f: Seq<Seq<char>>, j: int, w: Seq<char>, n: int)
    requires
        0 <= j < f.len(),
        n <= j,
    ensures
        fields_sum(f.update(j, w), n) == fields_sum(f, n),
    decreases n,
{
    if n > 1 {
        lemma_total_unchanged_below(f, j, w, n - 1);
        assert(field_value(f.update(j, w), n - 1) == field_value(f, n - 1));
    }
}

/// The total of a line is at least each of its counters `1..n`.
pub proof fn lemma_total_covers_each_field(f: Seq<Seq<char>>, n: int, j: int)
    requires
        1 <= j < n,
    ensures
        fields_sum(f, n) >= field_value(f, j),
    decreases n,
{
    if n - 1 > j {
        lemma_total_covers_each_field(f, n - 1, j);
    }
}

/// The aggregate `cpu` line sets the total to the sum of all its counters
/// and the idle time to its idle plus iowait columns.
pub proof fn lemma_aggregate_line(st: (nat, nat, Seq<(nat, nat)>), line: Seq<char>)
    requires
        has_prefix(line, "cpu "@),
    ensures
        forall|j: int| 1 <= j < words(line).len() ==> stat_line(st, line).0 >= #[trigger] field_value(words(line), j),
        stat_line(st, line).1 == field_value(words(line), 4) + field_value(words(line), 5),
        stat_line(st, line).2 == st.2,
{
    let f = words(line);
    assert forall|j: int| 1 <= j < f.len() implies stat_line(st, line).0 >= #[trigger] field_value(f, j) by {
        lemma_total_covers_each_field(f, f.len() as int, j);
    }
}

/// The jiffy counters of `/proc/stat`.
pub struct ProcStat {
    /// The `cpu` line: all jiffies summed.
    pub total: u128,
    /// The `cpu` line: idle + iowait.
    pub idle: u128,
    /// One (total, idle) per `cpuN` line, in order.
    pub per_core: Vec<(u128, u128)>,
}

/// The view of per-core counters.
pub open spec fn pairs_view(s: Seq<(u128, u128)>) -> Seq<(nat, nat)> {
    Seq::new(s.len(), |i: int| (s[i].0 as nat, s[i].1 as nat))
}

impl View for ProcStat {
    type V = (nat, nat, Seq<(nat, nat)>);

    open spec fn view(&self) -> (nat, nat, Seq<(nat, nat)>) {
        (self.total as nat, self.idle as nat, pairs_view(self.per_core@))
    }
}

proof fn lemma_fields_sum_bound(f: Seq<Seq<char>>, n: int)
    ensures
        fields_sum(f, n) <= (if n > 0 {
            n
        } else {
            0
        }) * (u64::MAX as nat),
    decreases n,
{
    if n > 1 {
        lemma_fields_sum_bound(f, n - 1);
        assert(fields_sum(f, n - 1) + u64::MAX as nat <= n * (u64::MAX as nat)) by (nonlinear_arith)
            requires
                fields_sum(f, n - 1) <= (n - 1) * (u64::MAX as nat),
                n > 1,
        ;
    }
}

fn field_exec(fields: &Vec<Vec<char>>, i: usize) -> (r: u64)
    ensures
        r as nat == field_value(text_views(fields@), i as int),
{
    if i < fields.len() {
        match parse_decimal(fields[i].as_slice(), u64::MAX) {
            Some(v) => v,
            None => 0,
        }
    } else {
        0
    }
}

fn line_counters(fields: &Vec<Vec<char>>) -> (r: (u128, u128))
    ensures
        ({
            let f = text_views(fields@);
            r.0 as nat == fields_sum(f, f.len() as int) && r.1 as nat == idle_of(f)
        }),
{
    let ghost f = text_views(fields@);
    let mut sum: u128 = 0;
    let mut i: usize = 1;
    while i < fields.len()
        invariant
            1 <= i,
            i <= fields@.len() || i == 1,
            f == text_views(fields@),
            sum as nat == fields_sum(f, i as int),
        decreases fields@.len() - i,
    {
        proof {
            lemma_fields_sum_bound(f, i as int);
            assert((i as nat) * (u64::MAX as nat) <= usize::MAX as nat * (u64::MAX as nat)) by (nonlinear_arith)
                requires
                    i <= usize::MAX,
            ;
        }
        let v = field_exec(fields, i);
        proof {
            assert(fields_sum(f, i + 1) == fields_sum(f, i as int) + field_value(f, i as int));
        }
        sum = sum + v as u128;
        i = i + 1;
    }
    proof {
        assert(f.len() == fields@.len());
        if fields@.len() == 0 {
            assert(fields_sum(f, 1) == 0);
            assert(fields_sum(f, 0) == 0);
        } else {
            assert(i == fields@.len());
        }
        assert(fields_sum(f, i as int) == fields_sum(f, f.len() as int));
    }
    let a = field_exec(fields, 4);
    let b = field_exec(fields, 5);
    assert(a as nat + b as nat == idle_of(f));
    let idle = a as u128 + b as u128;
    (sum, idle)
}

/// Reads `/proc/stat`: the aggregate `cpu` line and each `cpuN` line
/// with more than four fields.
pub fn parse_proc_stat(content: &[char]) -> (r: ProcStat)
    ensures
        r@ == stat_fold(lines(content@)),
{
    let ls = split_lines(content);
    let agg = chars_of("cpu ");
    let cpu = chars_of("cpu");
    let mut total: u128 = 0;
    let mut idle: u128 = 0;
    let mut per_core: Vec<(u128, u128)> = Vec::new();
    let mut i: usize = 0;
    while i < ls.len()
        invariant
            i <= ls@.len(),
            ls@.len() == lines(content@).len(),
            forall|j: int| 0 <= j < ls@.len() ==> #[trigger] ls@[j]@ == lines(content@)[j],
            agg@ == "cpu "@,
            cpu@ == "cpu"@,
            (total as nat, idle as nat, pairs_view(per_core@)) == stat_fold(lines(content@).take(i as int)),
        decreases ls@.len() - i,
    {
        let line = ls[i].as_slice();
        proof {
            let t = lines(content@).take(i + 1);
            assert(t.drop_last() =~= lines(content@).take(i as int));
            assert(t.last() == line@);
        }
        let fields = split_words(line);
        proof {
            assert(text_views(fields@) =~= words(line@));
        }
        if starts_with(line, agg.as_slice()) {
            let (t, d) = line_counters(&fields);
            total = t;
            idle = d;
        } else if starts_with(line, cpu.as_slice()) && fields.len() > 4 {
            let c = line_counters(&fields);
            let ghost before = per_core@;
            per_core.push(c);
            proof {
                assert(pairs_view(per_core@) =~= pairs_view(before).push((c.0 as nat, c.1 as nat)));
            }
        }
        i = i + 1;
    }
    assert(lines(content@).take(ls@.len() as int) =~= lines(content@));
    ProcStat { total, idle, per_core }
}

/// `a - b`, or 0 when `b` is larger.
pub open spec fn nat_sat_sub(a: nat, b: nat) -> nat {
    if a >= b {
        (a - b) as nat
    } else {
        0
    }
}

/// Jiffies elapsed between two polls of one line: (total, idle).
pub open spec fn jiffy_delta(cur: (nat, nat), prev: (nat, nat)) -> (nat, nat) {
    (nat_sat_sub(cur.0, prev.0), nat_sat_sub(cur.1, prev.1))
}

/// The counters as one list: the aggregate first, then each core.
pub open spec fn counter_list(st: (nat, nat, Seq<(nat, nat)>)) -> Seq<(nat, nat)> {
    seq![(st.0, st.1)] + st.2
}

/// The counters of line `i` at the previous poll; zero for a line that
/// did not exist then (a core brought online since).
pub open spec fn previous_or_zero(p: Seq<(nat, nat)>, i: int) -> (nat, nat) {
    if 0 <= i < p.len() {
        p[i]
    } else {
        (0, 0)
    }
}

/// Stateful differencer for `/proc/stat`.
pub struct CpuState {
    /// Jiffy counters at the last poll: index 0 is the `cpu` aggregate,
    /// indexes 1..=n are cpu0..cpuN-1.
    prev: Option<Vec<(u128, u128)>>,
}

impl CpuState {
    #[verifier::type_invariant]
    spec fn has_aggregate(self) -> bool {
        match self.prev {
            Some(v) => v@.len() >= 1,
            None => true,
        }
    }

    /// The counters of the previous poll, if any.
    pub closed spec fn previous(&self) -> Option<Seq<(nat, nat)>> {
        match self.prev {
            Some(v) => Some(pairs_view(v@)),
            None => None,
        }
    }

    /// No poll yet.
    pub fn new() -> (r: CpuState)
        ensures
            r.previous() is None,
    {
        CpuState { prev: None }
    }

    /// Cores counted at the previous poll, if any.
    pub fn previous_core_count(&self) -> (r: Option<usize>)
        ensures
            match self.previous() {
                Some(p) => r == Some((p.len() - 1) as usize),
                None => r is None,
            },
    {
        proof {
            use_type_invariant(self);
        }
        match &self.prev {
            Some(v) => Some(v.len() - 1),
            None => None,
        }
    }

    /// Differences `stat` against the previous poll and keeps it for the
    /// next: (total, idle) jiffies elapsed for the aggregate, then one entry
    /// per core listed now; `None` on the first poll. A core that was not
    /// listed at the previous poll is differenced against zero.
    pub fn sample(&mut self, stat: &ProcStat) -> (r: Option<Vec<(u128, u128)>>)
        ensures
            final(self).previous() == Some(counter_list(stat@)),
            match old(self).previous() {
                None => r is None,
                Some(p) => r is Some && pairs_view(r->0@) == Seq::new(
                    stat@.2.len() + 1,
                    |i: int| jiffy_delta(counter_list(stat@)[i], previous_or_zero(p, i)),
                ),
            },
    {
        let n = stat.per_core.len();
        let mut cur: Vec<(u128, u128)> = Vec::new();
        cur.push((stat.total, stat.idle));
        let mut i: usize = 0;
        while i < n
            invariant
                n == stat.per_core@.len(),
                i <= n,
                pairs_view(cur@) == counter_list(stat@).take(i + 1),
            decreases n - i,
        {
            let ghost before = cur@;
            cur.push(stat.per_core[i]);
            proof {
                assert(counter_list(stat@)[i + 1] == pairs_view(stat.per_core@)[i as int]);
                assert(pairs_view(cur@) =~= pairs_view(before).push(pairs_view(stat.per_core@)[i as int]));
                assert(pairs_view(cur@) =~= counter_list(stat@).take(i + 2));
            }
            i = i + 1;
        }
        assert(counter_list(stat@).take(n + 1) =~= counter_list(stat@));
        let result = match &self.prev {
            None => None,
            Some(prev) => {
                let ghost p = pairs_view(prev@);
                let mut out: Vec<(u128, u128)> = Vec::new();
                let mut k: usize = 0;
                while k < cur.len()
                    invariant
                        k <= cur@.len(),
                        cur@.len() == n + 1,
                        p == pairs_view(prev@),
                        pairs_view(cur@) == counter_list(stat@),
                        pairs_view(out@) == Seq::new(
                            k as nat,
                            |j: int| jiffy_delta(counter_list(stat@)[j], previous_or_zero(p, j)),
                        ),
                    decreases cur@.len() - k,
                {
                    let (t, d) = cur[k];
                    let (pt, pd): (u128, u128) = if k < prev.len() {
                        prev[k]
                    } else {
                        (0, 0)
                    };
                    let dt = if t >= pt {
                        t - pt
                    } else {
                        0
                    };
                    let di = if d >= pd {
                        d - pd
                    } else {
                        0
                    };
                    let ghost before = out@;
                    out.push((dt, di));
                    proof {
                        assert(previous_or_zero(p, k as int) == (pt as nat, pd as nat));
                        assert(pairs_view(out@) =~= pairs_view(before).push((dt as nat, di as nat)));
                        assert(pairs_view(cur@)[k as int] == (t as nat, d as nat));
                        assert(pairs_view(out@) =~= Seq::new(
                            (k + 1) as nat,
                            |j: int| jiffy_delta(counter_list(stat@)[j], previous_or_zero(p, j)),
                        ));
                    }
                    k = k + 1;
                }
                Some(out)
            },
        };
        self.prev = Some(cur);
        result
    }
}

/// What a RAPL energy read returned.
pub enum RaplRead {
    /// The counter file could not be read; `exists` tells whether the
    /// path exists at all (no RAPL on this machine when it does not).
    Unreadable { exists: bool },
    /// The counter file's content.
    Content(Vec<char>),
}

/// RAPL package-energy differencer.
pub struct RaplState {
    prev: Option<(u64, u64)>,
    denied: bool,
}

/// The outcome of one RAPL read: (energy and time elapsed since the
/// previous good read, permission denied).
pub open spec fn rapl_delta(prev: Option<(u64, u64)>, energy: u64, now_ns: u64) -> Option<(u64, u64)> {
    match prev {
        Some((pe, pt)) => if energy >= pe && now_ns > pt {
            Some(((energy - pe) as u64, (now_ns - pt) as u64))
        } else {
            None
        },
        None => None,
    }
}

impl RaplState {
    /// The last good read: (energy µJ, time ns).
    pub closed spec fn last_read(&self) -> Option<(u64, u64)> {
        self.prev
    }

    /// Reading was refused at the last attempt.
    pub closed spec fn is_denied(&self) -> bool {
        self.denied
    }

    /// Nothing read yet.
    pub fn new() -> (r: RaplState)
        ensures
            r.last_read() is None,
            !r.is_denied(),
    {
        RaplState { prev: None, denied: false }
    }

    /// Takes one read of the package energy counter at `now_ns`: returns
    /// the energy (µJ) and time (ns) since the previous good read, when
    /// the counter did not wrap and time passed, and whether reading was
    /// refused. An unreadable counter whose path does not exist counts as
    /// absent, not refused, unless reading was already refused before.
    pub fn sample(&mut self, read: RaplRead, now_ns: u64) -> (r: (Option<(u64, u64)>, bool))
        ensures
            match read {
                RaplRead::Unreadable { exists } => if !old(self).is_denied() && !exists {
                    r == (None::<(u64, u64)>, false) && final(self).last_read() == old(self).last_read()
                        && final(self).is_denied() == old(self).is_denied()
                } else {
                    r == (None::<(u64, u64)>, true) && final(self).last_read() == old(self).last_read()
                        && final(self).is_denied()
                },
                RaplRead::Content(raw) => match parse_unsigned(trim(raw@), u64::MAX as nat) {
                    None => r == (None::<(u64, u64)>, false) && final(self).last_read()
                        == old(self).last_read() && final(self).is_denied() == old(self).is_denied(),
                    Some(e) => r == (rapl_delta(old(self).last_read(), e as u64, now_ns), false)
                        && final(self).last_read() == Some((e as u64, now_ns))
                        && !final(self).is_denied(),
                },
            },
    {
        match read {
            RaplRead::Unreadable { exists } => {
                if !self.denied && !exists {
                    return (None, false);
                }
                self.denied = true;
                (None, true)
            },
            RaplRead::Content(raw) => {
                let t = trim_chars(raw.as_slice());
                let e = match parse_decimal(t.as_slice(), u64::MAX) {
                    Some(e) => e,
                    None => return (None, false),
                };
                let result = match self.prev {
                    Some((pe, pt)) => if e >= pe && now_ns > pt {
                        Some((e - pe, now_ns - pt))
                    } else {
                        None
                    },
                    None => None,
                };
                self.prev = Some((e, now_ns));
                self.denied = false;
                (result, false)
            },
        }
    }
}

} // verus!
