//! DRM `fdinfo` client accounting.
//!
//! Every open DRM file descriptor has an `fdinfo` file of `key: value`
//! lines. i915 reports cumulative busy nanoseconds per engine
//! (`drm-engine-<name>`); xe reports busy and total cycles
//! (`drm-cycles-<name>`, `drm-total-cycles-<name>`) and engine capacities.
//! Several descriptors of one client report the same cumulative
//! counters, so they are merged by keeping the maximum, never summed.
use vstd::prelude::*;

use crate::collector::counts::{insert_max, max_u64, EngineCounts};
use crate::text::{
    chars_of, contains, contains_text, has_prefix, lines, parse_decimal, parse_unsigned,
    same_chars, split_lines, split_once, split_once_char, split_words, strip_prefix, trim,
    trim_chars, words,
};

verus! {

/// What one client's counters stand for.
pub struct CountersView {
    pub engines_ns: Map<Seq<char>, u64>,
    pub engines_cycles: Map<Seq<char>, u64>,
    pub engine_total_cycles: Map<Seq<char>, u64>,
    pub capacity: Map<Seq<char>, u64>,
    pub vram_kib: u64,
    pub shared_kib: u64,
}

/// Raw counters for one DRM client at one instant.
pub struct ClientCounters {
    /// i915 style: cumulative busy nanoseconds per engine.
    pub engines_ns: EngineCounts,
    /// xe style: cumulative busy cycles per engine.
    pub engines_cycles: EngineCounts,
    /// xe: total elapsed cycles per engine (the denominator).
    pub engine_total_cycles: EngineCounts,
    /// Hardware instances per engine (xe).
    pub capacity: EngineCounts,
    pub vram_kib: u64,
    pub shared_kib: u64,
}

impl View for ClientCounters {
    type V = CountersView;

    open spec fn view(&self) -> CountersView {
        CountersView {
            engines_ns: self.engines_ns@,
            engines_cycles: self.engines_cycles@,
            engine_total_cycles: self.engine_total_cycles@,
            capacity: self.capacity@,
            vram_kib: self.vram_kib,
            shared_kib: self.shared_kib,
        }
    }
}

/// Counters that no line has touched yet.
pub open spec fn empty_counters() -> CountersView {
    CountersView {
        engines_ns: Map::empty(),
        engines_cycles: Map::empty(),
        engine_total_cycles: Map::empty(),
        capacity: Map::empty(),
        vram_kib: 0,
        shared_kib: 0,
    }
}

impl ClientCounters {
    /// Counters with no engine and no memory.
    pub fn new() -> (r: ClientCounters)
        ensures
            r@ == empty_counters(),
    {
        ClientCounters {
            engines_ns: EngineCounts::new(),
            engines_cycles: EngineCounts::new(),
            engine_total_cycles: EngineCounts::new(),
            capacity: EngineCounts::new(),
            vram_kib: 0,
            shared_kib: 0,
        }
    }
}

/// Two counter maps merged key by key, keeping the larger value.
pub open spec fn max_merge(a: Map<Seq<char>, u64>, b: Map<Seq<char>, u64>) -> Map<Seq<char>, u64> {
    Map::new(
        |k: Seq<char>| a.contains_key(k) || b.contains_key(k),
        |k: Seq<char>|
            if a.contains_key(k) && b.contains_key(k) {
                max_u64(a[k], b[k])
            } else if a.contains_key(k) {
                a[k]
            } else {
                b[k]
            },
    )
}

/// Two clients' counters merged, each counter keeping its maximum.
pub open spec fn merge_counters(a: CountersView, b: CountersView) -> CountersView {
    CountersView {
        engines_ns: max_merge(a.engines_ns, b.engines_ns),
        engines_cycles: max_merge(a.engines_cycles, b.engines_cycles),
        engine_total_cycles: max_merge(a.engine_total_cycles, b.engine_total_cycles),
        capacity: max_merge(a.capacity, b.capacity),
        vram_kib: max_u64(a.vram_kib, b.vram_kib),
        shared_kib: max_u64(a.shared_kib, b.shared_kib),
    }
}

/// Folds every entry of `b` into `a` with `insert_max`.
fn merge_counts(a: &mut EngineCounts, b: &EngineCounts)
    ensures
        final(a)@ == max_merge(old(a)@, b@),
{
    let pairs = b.pairs();
    let ghost a0 = a@;
    let mut i: usize = 0;
    while i < pairs.len()
        invariant
            i <= pairs@.len(),
            crate::collector::counts::distinct_keys(pairs@),
            forall|j: int|
                0 <= j < pairs@.len() ==> #[trigger] b@.contains_key(pairs@[j].0@) && b@[pairs@[j].0@]
                    == pairs@[j].1,
            forall|k: Seq<char>|
                #[trigger] b@.contains_key(k) ==> exists|j: int|
                    0 <= j < pairs@.len() && (#[trigger] pairs@[j]).0@ == k,
            a@ == Map::new(
                |k: Seq<char>|
                    a0.contains_key(k) || exists|j: int|
                        0 <= j < i && (#[trigger] pairs@[j]).0@ == k,
                |k: Seq<char>|
                    if a0.contains_key(k) && (exists|j: int|
                        0 <= j < i && (#[trigger] pairs@[j]).0@ == k) {
                        max_u64(a0[k], b@[k])
                    } else if a0.contains_key(k) {
                        a0[k]
                    } else {
                        b@[k]
                    },
            ),
        decreases pairs@.len() - i,
    {
        let k = pairs[i].0.clone();
        let v: u64 = pairs[i].1;
        let ghost prev = a@;
        proof {
            assert(k@ == pairs@[i as int].0@);
        }
        a.insert_max(k, v);
        proof {
            let kk = pairs@[i as int].0@;
            let target = Map::new(
                |k: Seq<char>|
                    a0.contains_key(k) || exists|j: int|
                        0 <= j < i + 1 && (#[trigger] pairs@[j]).0@ == k,
                |k: Seq<char>|
                    if a0.contains_key(k) && (exists|j: int|
                        0 <= j < i + 1 && (#[trigger] pairs@[j]).0@ == k) {
                        max_u64(a0[k], b@[k])
                    } else if a0.contains_key(k) {
                        a0[k]
                    } else {
                        b@[k]
                    },
            );
            assert forall|k: Seq<char>| #[trigger] a@.contains_key(k) <==> target.contains_key(k) by {
                if k == kk {
                    assert(pairs@[i as int].0@ == k);
                } else {
                    if exists|j: int| 0 <= j < i + 1 && (#[trigger] pairs@[j]).0@ == k {
                        let j = choose|j: int| 0 <= j < i + 1 && (#[trigger] pairs@[j]).0@ == k;
                        assert(j != i);
                    }
                }
            }
            assert forall|k: Seq<char>| #[trigger] a@.contains_key(k) implies a@[k] == target[k] by {
                if k == kk {
                    assert(pairs@[i as int].0@ == k);
                    assert(b@.contains_key(pairs@[i as int].0@));
                    assert(b@[kk] == v);
                    if exists|j: int| 0 <= j < i && (#[trigger] pairs@[j]).0@ == k {
                        let j = choose|j: int| 0 <= j < i && (#[trigger] pairs@[j]).0@ == k;
                        assert(pairs@[j].0@ == pairs@[i as int].0@);
                        assert(false);
                    }
                    assert(prev.contains_key(kk) == a0.contains_key(kk));
                    if a0.contains_key(kk) {
                        assert(prev[kk] == a0[kk]);
                    }
                    assert(exists|j: int| 0 <= j < i + 1 && (#[trigger] pairs@[j]).0@ == k);
                } else {
                    if exists|j: int| 0 <= j < i + 1 && (#[trigger] pairs@[j]).0@ == k {
                        let j = choose|j: int| 0 <= j < i + 1 && (#[trigger] pairs@[j]).0@ == k;
                        assert(j != i);
                    }
                }
            }
            assert(a@ =~= target);
        }
        i = i + 1;
    }
    proof {
        let m = max_merge(a0, b@);
        assert forall|k: Seq<char>| #[trigger] a@.contains_key(k) <==> m.contains_key(k) by {
            if b@.contains_key(k) {
                let j = choose|j: int| 0 <= j < pairs@.len() && (#[trigger] pairs@[j]).0@ == k;
            }
        }
        assert forall|k: Seq<char>| #[trigger] a@.contains_key(k) implies a@[k] == m[k] by {
            if b@.contains_key(k) {
                let j = choose|j: int| 0 <= j < pairs@.len() && (#[trigger] pairs@[j]).0@ == k;
            }
        }
        assert(a@ =~= m);
    }
}

/// Merges the counters `b` of another descriptor of the same client into
/// `a`, keeping the maximum of every counter.
pub fn merge_max(a: &mut ClientCounters, b: &ClientCounters)
    ensures
        final(a)@ == merge_counters(old(a)@, b@),
{
    merge_counts(&mut a.engines_ns, &b.engines_ns);
    merge_counts(&mut a.engines_cycles, &b.engines_cycles);
    merge_counts(&mut a.engine_total_cycles, &b.engine_total_cycles);
    merge_counts(&mut a.capacity, &b.capacity);
    if b.vram_kib > a.vram_kib {
        a.vram_kib = b.vram_kib;
    }
    if b.shared_kib > a.shared_kib {
        a.shared_kib = b.shared_kib;
    }
}

/// What the lines of one `fdinfo` file have established so far.
pub struct FdinfoView {
    /// `drm-pdev`: the PCI address of the device.
    pub pdev: Option<Seq<char>>,
    /// `drm-client-id`.
    pub client_id: Option<u64>,
    pub counters: CountersView,
}

/// The first whitespace-separated word of `value`, read as a `u64`.
pub open spec fn first_number(value: Seq<char>) -> Option<u64> {
    let w = words(value);
    if w.len() > 0 {
        match parse_unsigned(w[0], u64::MAX as nat) {
            Some(n) => Some(n as u64),
            None => None,
        }
    } else {
        None
    }
}

/// A counter value read from a line, or 0 when it does not parse.
pub open spec fn number_or_zero(n: Option<u64>) -> u64 {
    match n {
        Some(v) => v,
        None => 0,
    }
}

/// The effect of one `key: value` line on what has been read so far.
pub open spec fn fdinfo_line(st: FdinfoView, line: Seq<char>) -> FdinfoView {
    match split_once(line, ':') {
        None => st,
        Some((k, v)) => {
            let key = trim(k);
            let value = trim(v);
            let num = first_number(value);
            let c = st.counters;
            if key == "drm-pdev"@ {
                FdinfoView { pdev: Some(value), ..st }
            } else if key == "drm-client-id"@ {
                FdinfoView { client_id: num, ..st }
            } else if has_prefix(key, "drm-engine-capacity-"@) {
                match num {
                    Some(n) => FdinfoView {
                        counters: CountersView {
                            capacity: c.capacity.insert(key.skip("drm-engine-capacity-"@.len() as int), n),
                            ..c
                        },
                        ..st
                    },
                    None => st,
                }
            } else if has_prefix(key, "drm-engine-"@) {
                match num {
                    Some(n) => FdinfoView {
                        counters: CountersView {
                            engines_ns: insert_max(c.engines_ns, key.skip("drm-engine-"@.len() as int), n),
                            ..c
                        },
                        ..st
                    },
                    None => st,
                }
            } else if has_prefix(key, "drm-total-cycles-"@) {
                match num {
                    Some(n) => FdinfoView {
                        counters: CountersView {
                            engine_total_cycles: insert_max(
                                c.engine_total_cycles,
                                key.skip("drm-total-cycles-"@.len() as int),
                                n,
                            ),
                            ..c
                        },
                        ..st
                    },
                    None => st,
                }
            } else if has_prefix(key, "drm-cycles-"@) {
                match num {
                    Some(n) => FdinfoView {
                        counters: CountersView {
                            engines_cycles: insert_max(c.engines_cycles, key.skip("drm-cycles-"@.len() as int), n),
                            ..c
                        },
                        ..st
                    },
                    None => st,
                }
            } else if key == "drm-total-vram0"@ || key == "drm-memory-local"@ {
                FdinfoView {
                    counters: CountersView {
                        vram_kib: max_u64(c.vram_kib, number_or_zero(num)),
                        ..c
                    },
                    ..st
                }
            } else if key == "drm-total-gtt"@ || key == "drm-memory-shared"@ {
                FdinfoView {
                    counters: CountersView {
                        shared_kib: max_u64(c.shared_kib, number_or_zero(num)),
                        ..c
                    },
                    ..st
                }
            } else {
                st
            }
        },
    }
}

/// Memory lines: a `drm-total-gtt` or `drm-memory-shared` line raises the
/// shared memory read so far to its number when that is larger (a line
/// without a number counts as 0), and a `drm-total-vram0` or
/// `drm-memory-local` line does the same for VRAM; neither touches the
/// other memory counter, the engine counters or the client's identity.
#[verifier::spinoff_prover]
pub proof fn lemma_memory_lines(st: FdinfoView, line: Seq<char>, k: Seq<char>, v: Seq<char>)
    requires
        split_once(line, ':') == Some((k, v)),
    ensures
        ({
            let n: int = match first_number(trim(v)) {
                Some(x) => x as int,
                None => 0,
            };
            let r = fdinfo_line(st, line);
            let old = st.counters;
            let shared = trim(k) == "drm-total-gtt"@ || trim(k) == "drm-memory-shared"@;
            let vram = trim(k) == "drm-total-vram0"@ || trim(k) == "drm-memory-local"@;
            &&& shared ==> r.counters.shared_kib == (if n > old.shared_kib {
                n
            } else {
                old.shared_kib as int
            }) && r.counters.vram_kib == old.vram_kib
            &&& vram ==> r.counters.vram_kib == (if n > old.vram_kib {
                n
            } else {
                old.vram_kib as int
            }) && r.counters.shared_kib == old.shared_kib
            &&& (shared || vram) ==> r.pdev == st.pdev && r.client_id == st.client_id
                && r.counters.engines_ns == old.engines_ns && r.counters.engines_cycles
                == old.engines_cycles && r.counters.engine_total_cycles == old.engine_total_cycles
                && r.counters.capacity == old.capacity
        }),
{
    reveal_strlit("drm-total-gtt");
    reveal_strlit("drm-memory-shared");
    reveal_strlit("drm-total-vram0");
    reveal_strlit("drm-memory-local");
    reveal_strlit("drm-pdev");
    reveal_strlit("drm-client-id");
    reveal_strlit("drm-engine-capacity-");
    reveal_strlit("drm-engine-");
    reveal_strlit("drm-total-cycles-");
    reveal_strlit("drm-cycles-");
    let key = trim(k);
    if key == "drm-total-gtt"@ || key == "drm-memory-shared"@ || key == "drm-total-vram0"@ || key
        == "drm-memory-local"@ {
        assert(key[4] != 'e' || key[5] != 'n');
        assert(!has_prefix(key, "drm-engine-capacity-"@)) by {
            if has_prefix(key, "drm-engine-capacity-"@) {
                assert(key[4] == "drm-engine-capacity-"@[4]);
                assert(key[5] == "drm-engine-capacity-"@[5]);
            }
        }
        assert(!has_prefix(key, "drm-engine-"@)) by {
            if has_prefix(key, "drm-engine-"@) {
                assert(key[4] == "drm-engine-"@[4]);
                assert(key[5] == "drm-engine-"@[5]);
            }
        }
        assert(!has_prefix(key, "drm-total-cycles-"@)) by {
            if has_prefix(key, "drm-total-cycles-"@) {
                assert(key.len() >= 17);
                assert(key[10] == "drm-total-cycles-"@[10]);
            }
        }
        assert(!has_prefix(key, "drm-cycles-"@)) by {
            if has_prefix(key, "drm-cycles-"@) {
                assert(key[4] == "drm-cycles-"@[4]);
            }
        }
    }
}

/// `m` with the counter under `e` raised to `n` when that is larger (set
/// to `n` when there was none), every other engine untouched.
pub open spec fn raised_to(m: Map<Seq<char>, u64>, e: Seq<char>, n: u64, r: Map<Seq<char>, u64>) -> bool {
    &&& r.contains_key(e)
    &&& r[e] == if m.contains_key(e) && m[e] > n {
        m[e]
    } else {
        n
    }
    &&& forall|j: Seq<char>| j != e ==> (r.contains_key(j) == m.contains_key(j) && (m.contains_key(j) ==> r[j] == m[j]))
}

/// Engine lines: a `drm-engine-<e>: <n>` line (other than a capacity line)
/// raises the busy nanoseconds of engine `e` to `n` when larger, a
/// `drm-cycles-<e>: <n>` line does so for its busy cycles, and a
/// `drm-total-cycles-<e>: <n>` line for its total cycles; no other counter
/// changes.
#[verifier::spinoff_prover]
pub proof fn lemma_engine_lines(st: FdinfoView, line: Seq<char>, k: Seq<char>, v: Seq<char>, n: u64)
    requires
        split_once(line, ':') == Some((k, v)),
        first_number(trim(v)) == Some(n),
    ensures
        ({
            let key = trim(k);
            let r = fdinfo_line(st, line).counters;
            let old = st.counters;
            &&& has_prefix(key, "drm-engine-"@) && !has_prefix(key, "drm-engine-capacity-"@) ==> raised_to(
                old.engines_ns,
                key.skip(11),
                n,
                r.engines_ns,
            ) && r.engines_cycles == old.engines_cycles && r.engine_total_cycles
                == old.engine_total_cycles && r.capacity == old.capacity
            &&& has_prefix(key, "drm-cycles-"@) ==> raised_to(
                old.engines_cycles,
                key.skip(11),
                n,
                r.engines_cycles,
            ) && r.engines_ns == old.engines_ns && r.engine_total_cycles
                == old.engine_total_cycles && r.capacity == old.capacity
            &&& has_prefix(key, "drm-total-cycles-"@) ==> raised_to(
                old.engine_total_cycles,
                key.skip(17),
                n,
                r.engine_total_cycles,
            ) && r.engines_ns == old.engines_ns && r.engines_cycles == old.engines_cycles
                && r.capacity == old.capacity
        }),
{
    reveal_strlit("drm-pdev");
    reveal_strlit("drm-client-id");
    reveal_strlit("drm-engine-capacity-");
    reveal_strlit("drm-engine-");
    reveal_strlit("drm-total-cycles-");
    reveal_strlit("drm-cycles-");
    let key = trim(k);
    if has_prefix(key, "drm-engine-"@) {
        assert(key.take(11)[4] == key[4]);
        assert(key[4] == 'e');
        assert(key != "drm-pdev"@ && key != "drm-client-id"@);
    }
    if has_prefix(key, "drm-cycles-"@) {
        assert(key.take(11)[4] == key[4] && key.take(11)[5] == key[5]);
        assert(key[4] == 'c' && key[5] == 'y');
        assert(key != "drm-pdev"@ && key != "drm-client-id"@);
        assert(!has_prefix(key, "drm-engine-"@)) by {
            if has_prefix(key, "drm-engine-"@) {
                assert(key[4] == "drm-engine-"@[4]);
            }
        }
        assert(!has_prefix(key, "drm-engine-capacity-"@)) by {
            if has_prefix(key, "drm-engine-capacity-"@) {
                assert(key[4] == "drm-engine-capacity-"@[4]);
            }
        }
        assert(!has_prefix(key, "drm-total-cycles-"@)) by {
            if has_prefix(key, "drm-total-cycles-"@) {
                assert(key[4] == "drm-total-cycles-"@[4]);
            }
        }
    }
    if has_prefix(key, "drm-total-cycles-"@) {
        assert(key.take(17)[4] == key[4]);
        assert(key[4] == 't');
        assert(key != "drm-pdev"@ && key != "drm-client-id"@);
        assert(!has_prefix(key, "drm-engine-"@)) by {
            if has_prefix(key, "drm-engine-"@) {
                assert(key[4] == "drm-engine-"@[4]);
            }
        }
        assert(!has_prefix(key, "drm-engine-capacity-"@)) by {
            if has_prefix(key, "drm-engine-capacity-"@) {
                assert(key[4] == "drm-engine-capacity-"@[4]);
            }
        }
    }
}

/// Nothing read yet.
pub open spec fn fdinfo_start() -> FdinfoView {
    FdinfoView { pdev: None, client_id: None, counters: empty_counters() }
}

/// The lines `ls`, read in order.
pub open spec fn fdinfo_fold(ls: Seq<Seq<char>>) -> FdinfoView
    decreases ls.len(),
{
    if ls.len() == 0 {
        fdinfo_start()
    } else {
        fdinfo_line(fdinfo_fold(ls.drop_last()), ls.last())
    }
}

/// What an `fdinfo` file says of its DRM client; `None` for a descriptor
/// that is not a DRM one (no `drm-driver` in the file).
pub open spec fn fdinfo_record(content: Seq<char>) -> Option<FdinfoView> {
    if contains_text(content, "drm-driver"@) {
        Some(fdinfo_fold(lines(content)))
    } else {
        None
    }
}

/// One DRM client's `fdinfo` as read.
pub struct FdinfoRecord {
    pub pdev: Option<Vec<char>>,
    pub client_id: Option<u64>,
    pub counters: ClientCounters,
}

/// The view of an optional text.
pub open spec fn opt_text(t: Option<Vec<char>>) -> Option<Seq<char>> {
    match t {
        Some(v) => Some(v@),
        None => None,
    }
}

impl View for FdinfoRecord {
    type V = FdinfoView;

    open spec fn view(&self) -> FdinfoView {
        FdinfoView { pdev: opt_text(self.pdev), client_id: self.client_id, counters: self.counters@ }
    }
}

/// The first word of `value` parsed as a `u64`.
fn first_number_of(value: &[char]) -> (r: Option<u64>)
    ensures
        r == first_number(value@),
{
    let w = split_words(value);
    if w.len() > 0 {
        let n = parse_decimal(w[0].as_slice(), u64::MAX);
        proof {
            assert(w@[0]@ == words(value@)[0]);
        }
        n
    } else {
        None
    }
}

/// Applies one line to the record being built.
fn apply_fdinfo_line(rec: &mut FdinfoRecord, line: &[char])
    ensures
        final(rec)@ == fdinfo_line(old(rec)@, line@),
{
    let (k, v) = match split_once_char(line, ':') {
        Some(kv) => kv,
        None => return ,
    };
    let key = trim_chars(k.as_slice());
    let value = trim_chars(v.as_slice());
    let num = first_number_of(value.as_slice());
    let key = key.as_slice();
    if same_chars(key, chars_of("drm-pdev").as_slice()) {
        rec.pdev = Some(value);
    } else if same_chars(key, chars_of("drm-client-id").as_slice()) {
        rec.client_id = num;
    } else if let Some(name) = strip_prefix(key, chars_of("drm-engine-capacity-").as_slice()) {
        if let Some(n) = num {
            rec.counters.capacity.insert(name, n);
        }
    } else if let Some(name) = strip_prefix(key, chars_of("drm-engine-").as_slice()) {
        if let Some(n) = num {
            rec.counters.engines_ns.insert_max(name, n);
        }
    } else if let Some(name) = strip_prefix(key, chars_of("drm-total-cycles-").as_slice()) {
        if let Some(n) = num {
            rec.counters.engine_total_cycles.insert_max(name, n);
        }
    } else if let Some(name) = strip_prefix(key, chars_of("drm-cycles-").as_slice()) {
        if let Some(n) = num {
            rec.counters.engines_cycles.insert_max(name, n);
        }
    } else if same_chars(key, chars_of("drm-total-vram0").as_slice()) || same_chars(
        key,
        chars_of("drm-memory-local").as_slice(),
    ) {
        let n = match num {
            Some(n) => n,
            None => 0,
        };
        if n > rec.counters.vram_kib {
            rec.counters.vram_kib = n;
        }
    } else if same_chars(key, chars_of("drm-total-gtt").as_slice()) || same_chars(
        key,
        chars_of("drm-memory-shared").as_slice(),
    ) {
        let n = match num {
            Some(n) => n,
            None => 0,
        };
        if n > rec.counters.shared_kib {
            rec.counters.shared_kib = n;
        }
    }
}

/// Reads one `fdinfo` file: `None` when it is not a DRM descriptor.
pub fn parse_fdinfo(content: &[char]) -> (r: Option<FdinfoRecord>)
    ensures
        match r {
            Some(rec) => fdinfo_record(content@) == Some(rec@),
            None => fdinfo_record(content@) is None,
        },
{
    if !contains(content, chars_of("drm-driver").as_slice()) {
        return None;
    }
    let ls = split_lines(content);
    let mut rec = FdinfoRecord { pdev: None, client_id: None, counters: ClientCounters::new() };
    let mut i: usize = 0;
    while i < ls.len()
        invariant
            i <= ls@.len(),
            ls@.len() == lines(content@).len(),
            forall|j: int| 0 <= j < ls@.len() ==> #[trigger] ls@[j]@ == lines(content@)[j],
            rec@ == fdinfo_fold(lines(content@).take(i as int)),
        decreases ls@.len() - i,
    {
        apply_fdinfo_line(&mut rec, ls[i].as_slice());
        proof {
            let t = lines(content@).take(i + 1);
            assert(t.drop_last() =~= lines(content@).take(i as int));
            assert(t.last() == ls@[i as int]@);
        }
        i = i + 1;
    }
    assert(lines(content@).take(ls@.len() as int) =~= lines(content@));
    Some(rec)
}

/// Position of the first entry whose key is `k`, or `s.len()`.
pub open spec fn key_pos<K, V>(s: Seq<(K, V)>, k: K) -> int
    decreases s.len(),
{
    if s.len() == 0 {
        0
    } else if s[0].0 == k {
        0
    } else {
        1 + key_pos(s.drop_first(), k)
    }
}

/// What `key_pos` returns, characterized.
pub proof fn lemma_key_pos<K, V>(s: Seq<(K, V)>, k: K)
    ensures
        0 <= key_pos(s, k) <= s.len(),
        forall|j: int| 0 <= j < key_pos(s, k) ==> (#[trigger] s[j]).0 != k,
        key_pos(s, k) < s.len() ==> s[key_pos(s, k)].0 == k,
    decreases s.len(),
{
    if s.len() > 0 && s[0].0 != k {
        lemma_key_pos(s.drop_first(), k);
        assert forall|j: int| 0 <= j < key_pos(s, k) implies (#[trigger] s[j]).0 != k by {
            if j > 0 {
                assert(s[j] == s.drop_first()[j - 1]);
            }
        }
    }
}

/// The first position holding key `k` is `key_pos`.
pub proof fn lemma_key_pos_at<K, V>(s: Seq<(K, V)>, k: K, p: int)
    requires
        0 <= p <= s.len(),
        forall|j: int| 0 <= j < p ==> (#[trigger] s[j]).0 != k,
        p == s.len() || s[p].0 == k,
    ensures
        key_pos(s, k) == p,
    decreases s.len(),
{
    lemma_key_pos(s, k);
    if key_pos(s, k) < p {
        assert(s[key_pos(s, k)].0 == k);
    } else if key_pos(s, k) > p {
        assert(s[p].0 == k);
    }
}

/// The value under the first entry with key `k`.
pub open spec fn lookup<K, V>(s: Seq<(K, V)>, k: K) -> Option<V> {
    let p = key_pos(s, k);
    if p < s.len() {
        Some(s[p].1)
    } else {
        None
    }
}

/// No key occurs twice among the entries of `s`.
pub open spec fn keys_distinct<K, V>(s: Seq<(K, V)>) -> bool {
    forall|a: int, b: int| 0 <= a < b < s.len() ==> (#[trigger] s[a]).0 != (#[trigger] s[b]).0
}

/// A client list after recording `c` for client `id`: merged into the
/// client's entry when it is already listed, appended otherwise.
pub open spec fn record_client(
    list: Seq<(u64, CountersView)>,
    id: u64,
    c: CountersView,
) -> Seq<(u64, CountersView)> {
    let p = key_pos(list, id);
    if p < list.len() {
        list.update(p, (id, merge_counters(list[p].1, c)))
    } else {
        list.push((id, c))
    }
}

/// The table after recording `c` for client `id` of device `pci`.
pub open spec fn record_in_table(
    t: Seq<(Seq<char>, Seq<(u64, CountersView)>)>,
    pci: Seq<char>,
    id: u64,
    c: CountersView,
) -> Seq<(Seq<char>, Seq<(u64, CountersView)>)> {
    let p = key_pos(t, pci);
    if p < t.len() {
        t.update(p, (pci, record_client(t[p].1, id, c)))
    } else {
        t.push((pci, seq![(id, c)]))
    }
}

/// The view of one device's client list.
pub open spec fn clients_view(s: Seq<(u64, ClientCounters)>) -> Seq<(u64, CountersView)> {
    Seq::new(s.len(), |i: int| (s[i].0, s[i].1@))
}

/// DRM clients per device (PCI address), each with its merged counters,
/// in the order they were first seen.
pub struct ClientTable {
    entries: Vec<(Vec<char>, Vec<(u64, ClientCounters)>)>,
}

impl View for ClientTable {
    type V = Seq<(Seq<char>, Seq<(u64, CountersView)>)>;

    closed spec fn view(&self) -> Seq<(Seq<char>, Seq<(u64, CountersView)>)> {
        table_view(self.entries@)
    }
}

spec fn table_view(e: Seq<(Vec<char>, Vec<(u64, ClientCounters)>)>) -> Seq<(Seq<char>, Seq<(u64, CountersView)>)> {
    Seq::new(e.len(), |i: int| (e[i].0@, clients_view(e[i].1@)))
}

/// Each device is listed once in `t`, and each client once per device.
spec fn table_listed_once(t: Seq<(Seq<char>, Seq<(u64, CountersView)>)>) -> bool {
    &&& keys_distinct(t)
    &&& forall|i: int| 0 <= i < t.len() ==> keys_distinct(#[trigger] t[i].1)
}

impl ClientTable {
    /// Each device is listed once, and each client once per device.
    #[verifier::type_invariant]
    spec fn listed_once(self) -> bool {
        table_listed_once(self@)
    }

    /// No clients.
    pub fn new() -> (r: ClientTable)
        ensures
            r@ == Seq::<(Seq<char>, Seq<(u64, CountersView)>)>::empty(),
    {
        let r = ClientTable { entries: Vec::new() };
        assert(r@ =~= Seq::<(Seq<char>, Seq<(u64, CountersView)>)>::empty());
        r
    }

    fn pci_position(&self, pci: &[char]) -> (r: usize)
        ensures
            r == key_pos(self@, pci@),
    {
        let mut i: usize = 0;
        while i < self.entries.len()
            invariant
                i <= self.entries@.len(),
                forall|j: int| 0 <= j < i ==> (#[trigger] self@[j]).0 != pci@,
            decreases self.entries@.len() - i,
        {
            if same_chars(self.entries[i].0.as_slice(), pci) {
                proof {
                    lemma_key_pos_at(self@, pci@, i as int);
                }
                return i;
            }
            i = i + 1;
        }
        proof {
            lemma_key_pos_at(self@, pci@, i as int);
        }
        i
    }

    /// The clients of device `pci`, if any was recorded.
    pub fn clients(&self, pci: &[char]) -> (r: Option<&Vec<(u64, ClientCounters)>>)
        ensures
            match r {
                Some(list) => lookup(self@, pci@) == Some(clients_view(list@)) && keys_distinct(
                    clients_view(list@),
                ),
                None => lookup(self@, pci@) is None,
            },
    {
        proof {
            use_type_invariant(self);
            lemma_key_pos(self@, pci@);
        }
        let p = self.pci_position(pci);
        if p < self.entries.len() {
            Some(&self.entries[p].1)
        } else {
            None
        }
    }

    /// Records what one descriptor reports for client `id` of device
    /// `pci`; a client seen before keeps the maximum of every counter.
    pub fn record(&mut self, pci: Vec<char>, id: u64, counters: ClientCounters)
        ensures
            final(self)@ == record_in_table(old(self)@, pci@, id, counters@),
    {
        proof {
            use_type_invariant(&*self);
        }
        let p = self.pci_position(pci.as_slice());
        let ghost c = counters@;
        let ghost old_view = self@;
        let mut entries: Vec<(Vec<char>, Vec<(u64, ClientCounters)>)> = Vec::new();
        std::mem::swap(&mut entries, &mut self.entries);
        assert(table_view(entries@) == old_view);
        if p < entries.len() {
            let ghost old_entries = entries@;
            let list = &mut entries[p].1;
            let ghost old_list = clients_view(list@);
            let mut q: usize = 0;
            while q < list.len() && list[q].0 != id
                invariant
                    q <= list@.len(),
                    old_list == clients_view(list@),
                    forall|j: int| 0 <= j < q ==> (#[trigger] old_list[j]).0 != id,
                decreases list@.len() - q,
            {
                q = q + 1;
            }
            proof {
                lemma_key_pos_at(old_list, id, q as int);
            }
            if q < list.len() {
                merge_max(&mut list[q].1, &counters);
            } else {
                list.push((id, counters));
            }
            proof {
                assert(clients_view(list@) =~= record_client(old_list, id, c));
            }
            proof {
                lemma_key_pos(old_view, pci@);
                assert(entries@.len() == old_entries.len());
                assert(entries@[p as int].0 == old_entries[p as int].0);
                assert forall|j: int| 0 <= j < old_entries.len() && j != p implies entries@[j]
                    == old_entries[j] by {}
                assert(table_view(entries@) =~= record_in_table(old_view, pci@, id, c));
            }
        } else {
            let mut list: Vec<(u64, ClientCounters)> = Vec::new();
            list.push((id, counters));
            let ghost old_entries = entries@;
            entries.push((pci, list));
            proof {
                assert(clients_view(list@) =~= seq![(id, c)]);
                assert(table_view(entries@) =~= record_in_table(old_view, pci@, id, c));
            }
        }
        proof {
            lemma_record_keeps_listed_once(old_view, pci@, id, c);
        }
        self.entries = entries;
    }
}

proof fn lemma_upsert_distinct<K, V>(s: Seq<(K, V)>, k: K, v: V)
    requires
        keys_distinct(s),
    ensures
        keys_distinct(upsert(s, k, v)),
        forall|j: int|
            0 <= j < upsert(s, k, v).len() ==> #[trigger] upsert(s, k, v)[j] == (k, v) || (j
                < s.len() && upsert(s, k, v)[j] == s[j]),
{
    lemma_key_pos(s, k);
    let u = upsert(s, k, v);
    let p = key_pos(s, k);
    assert forall|a: int, b: int| 0 <= a < b < u.len() implies (#[trigger] u[a]).0 != (
    #[trigger] u[b]).0 by {
        if p < s.len() {
            assert(u[a].0 == s[a].0);
            assert(u[b].0 == s[b].0);
        } else if b == s.len() {
            assert(u[a] == s[a]);
        } else {
            assert(u[a] == s[a] && u[b] == s[b]);
        }
    }
}

proof fn lemma_record_in_table_upsert(
    t: Seq<(Seq<char>, Seq<(u64, CountersView)>)>,
    pci: Seq<char>,
    id: u64,
    c: CountersView,
)
    ensures
        record_in_table(t, pci, id, c) == upsert(
            t,
            pci,
            record_client(
                match lookup(t, pci) {
                    Some(l) => l,
                    None => Seq::<(u64, CountersView)>::empty(),
                },
                id,
                c,
            ),
        ),
{
    let l = match lookup(t, pci) {
        Some(l) => l,
        None => Seq::<(u64, CountersView)>::empty(),
    };
    if key_pos(t, pci) >= t.len() {
        assert(key_pos(l, id) == 0);
        assert(record_client(l, id, c) =~= seq![(id, c)]);
    }
    assert(record_in_table(t, pci, id, c) =~= upsert(t, pci, record_client(l, id, c)));
}

proof fn lemma_record_keeps_listed_once(
    t: Seq<(Seq<char>, Seq<(u64, CountersView)>)>,
    pci: Seq<char>,
    id: u64,
    c: CountersView,
)
    requires
        table_listed_once(t),
    ensures
        table_listed_once(record_in_table(t, pci, id, c)),
{
    let l = match lookup(t, pci) {
        Some(l) => l,
        None => Seq::<(u64, CountersView)>::empty(),
    };
    lemma_key_pos(t, pci);
    assert(keys_distinct(l));
    lemma_record_client_upsert(l, id, c);
    lemma_upsert_distinct(l, id, merged_into(lookup(l, id), c));
    let l1 = record_client(l, id, c);
    lemma_record_in_table_upsert(t, pci, id, c);
    lemma_upsert_distinct(t, pci, l1);
    let u = upsert(t, pci, l1);
    assert forall|i: int| 0 <= i < u.len() implies keys_distinct(#[trigger] u[i].1) by {
        assert(u[i] == (pci, l1) || (i < t.len() && u[i] == t[i]));
    }
}

/// Merging the counters of two descriptors of one client does not depend
/// on which is read first.
pub proof fn lemma_merge_commutative(a: CountersView, b: CountersView)
    ensures
        merge_counters(a, b) == merge_counters(b, a),
{
    assert(max_merge(a.engines_ns, b.engines_ns) =~= max_merge(b.engines_ns, a.engines_ns));
    assert(max_merge(a.engines_cycles, b.engines_cycles) =~= max_merge(b.engines_cycles, a.engines_cycles));
    assert(max_merge(a.engine_total_cycles, b.engine_total_cycles) =~= max_merge(
        b.engine_total_cycles,
        a.engine_total_cycles,
    ));
    assert(max_merge(a.capacity, b.capacity) =~= max_merge(b.capacity, a.capacity));
}

proof fn lemma_max_merge_assoc(a: Map<Seq<char>, u64>, b: Map<Seq<char>, u64>, c: Map<Seq<char>, u64>)
    ensures
        max_merge(max_merge(a, b), c) == max_merge(a, max_merge(b, c)),
{
    assert(max_merge(max_merge(a, b), c) =~= max_merge(a, max_merge(b, c)));
}

/// Merging the counters of three descriptors of one client does not
/// depend on how the merges are grouped.
pub proof fn lemma_merge_associative(a: CountersView, b: CountersView, c: CountersView)
    ensures
        merge_counters(merge_counters(a, b), c) == merge_counters(a, merge_counters(b, c)),
{
    lemma_max_merge_assoc(a.engines_ns, b.engines_ns, c.engines_ns);
    lemma_max_merge_assoc(a.engines_cycles, b.engines_cycles, c.engines_cycles);
    lemma_max_merge_assoc(a.engine_total_cycles, b.engine_total_cycles, c.engine_total_cycles);
    lemma_max_merge_assoc(a.capacity, b.capacity, c.capacity);
}

/// Descriptors of one client report the same cumulative counters: merging
/// a client's counters with themselves leaves them unchanged (counters are
/// never summed).
pub proof fn lemma_merge_idempotent(a: CountersView)
    ensures
        merge_counters(a, a) == a,
{
    assert(max_merge(a.engines_ns, a.engines_ns) =~= a.engines_ns);
    assert(max_merge(a.engines_cycles, a.engines_cycles) =~= a.engines_cycles);
    assert(max_merge(a.engine_total_cycles, a.engine_total_cycles) =~= a.engine_total_cycles);
    assert(max_merge(a.capacity, a.capacity) =~= a.capacity);
}

/// Recording the same descriptor twice leaves the table as recording it
/// once.
pub proof fn lemma_record_twice(
    t: Seq<(Seq<char>, Seq<(u64, CountersView)>)>,
    pci: Seq<char>,
    id: u64,
    c: CountersView,
)
    ensures
        record_in_table(record_in_table(t, pci, id, c), pci, id, c) == record_in_table(t, pci, id, c),
{
    let t1 = record_in_table(t, pci, id, c);
    lemma_key_pos(t, pci);
    let p = key_pos(t, pci);
    if p < t.len() {
        lemma_key_pos_at(t1, pci, p);
        let l = t[p].1;
        lemma_key_pos(l, id);
        let q = key_pos(l, id);
        let l1 = record_client(l, id, c);
        if q < l.len() {
            lemma_key_pos_at(l1, id, q);
            lemma_merge_associative(l[q].1, c, c);
            lemma_merge_idempotent(c);
            assert(record_client(l1, id, c) =~= l1);
        } else {
            assert forall|j: int| 0 <= j < l.len() implies (#[trigger] l1[j]).0 != id by {
                assert(l1[j] == l[j]);
            }
            lemma_key_pos_at(l1, id, l.len() as int);
            lemma_merge_idempotent(c);
            assert(record_client(l1, id, c) =~= l1);
        }
        assert(record_in_table(t1, pci, id, c) =~= t1);
    } else {
        assert forall|j: int| 0 <= j < t.len() implies (#[trigger] t1[j]).0 != pci by {
            assert(t1[j] == t[j]);
        }
        lemma_key_pos_at(t1, pci, t.len() as int);
        let l1: Seq<(u64, CountersView)> = seq![(id, c)];
        lemma_key_pos_at(l1, id, 0);
        lemma_merge_idempotent(c);
        assert(record_client(l1, id, c) =~= l1);
        assert(record_in_table(t1, pci, id, c) =~= t1);
    }
}

/// The counters the table holds for client `id` of device `pci`.
pub open spec fn client_counters(
    t: Seq<(Seq<char>, Seq<(u64, CountersView)>)>,
    pci: Seq<char>,
    id: u64,
) -> Option<CountersView> {
    match lookup(t, pci) {
        Some(l) => lookup(l, id),
        None => None,
    }
}

/// A client's counters after merging in `c`: `c` alone for a new client.
pub open spec fn merged_into(prev: Option<CountersView>, c: CountersView) -> CountersView {
    match prev {
        Some(x) => merge_counters(x, c),
        None => c,
    }
}

/// `s` with the first entry keyed `k` set to `v`, or `(k, v)` appended.
spec fn upsert<K, V>(s: Seq<(K, V)>, k: K, v: V) -> Seq<(K, V)> {
    let p = key_pos(s, k);
    if p < s.len() {
        s.update(p, (k, v))
    } else {
        s.push((k, v))
    }
}

proof fn lemma_lookup_upsert<K, V>(s: Seq<(K, V)>, k: K, v: V, q: K)
    ensures
        lookup(upsert(s, k, v), q) == if q == k {
            Some(v)
        } else {
            lookup(s, q)
        },
{
    let u = upsert(s, k, v);
    let p = key_pos(s, k);
    lemma_key_pos(s, k);
    lemma_key_pos(s, q);
    if q == k {
        assert forall|j: int| 0 <= j < p implies (#[trigger] u[j]).0 != k by {
            assert(u[j] == s[j]);
        }
        lemma_key_pos_at(u, k, p);
    } else {
        let pq = key_pos(s, q);
        if pq < s.len() {
            assert forall|j: int| 0 <= j < pq implies (#[trigger] u[j]).0 != q by {
                if j != p {
                    assert(u[j] == s[j]);
                }
            }
            assert(pq != p);
            assert(u[pq] == s[pq]);
            lemma_key_pos_at(u, q, pq);
        } else {
            assert forall|j: int| 0 <= j < u.len() implies (#[trigger] u[j]).0 != q by {
                if j != p && j < s.len() {
                    assert(u[j] == s[j]);
                }
            }
            lemma_key_pos_at(u, q, u.len() as int);
        }
    }
}

proof fn lemma_record_client_upsert(l: Seq<(u64, CountersView)>, id: u64, c: CountersView)
    ensures
        record_client(l, id, c) == upsert(l, id, merged_into(lookup(l, id), c)),
{
}

/// Recording `c` for client `id` of device `pci` merges `c` into that
/// client's counters (`c` alone for a new client) and leaves every other
/// client's counters as they were.
pub proof fn lemma_record_effect(
    t: Seq<(Seq<char>, Seq<(u64, CountersView)>)>,
    pci: Seq<char>,
    id: u64,
    c: CountersView,
    p: Seq<char>,
    i: u64,
)
    ensures
        client_counters(record_in_table(t, pci, id, c), p, i) == if p == pci && i == id {
            Some(merged_into(client_counters(t, p, i), c))
        } else {
            client_counters(t, p, i)
        },
{
    let l = match lookup(t, pci) {
        Some(l) => l,
        None => Seq::<(u64, CountersView)>::empty(),
    };
    let l1 = record_client(l, id, c);
    lemma_record_in_table_upsert(t, pci, id, c);
    lemma_lookup_upsert(t, pci, l1, p);
    lemma_record_client_upsert(l, id, c);
    lemma_lookup_upsert(l, id, merged_into(lookup(l, id), c), i);
    if lookup(t, pci) is None {
        assert(lookup(l, i) is None);
        assert(lookup(l, id) is None);
    }
}

/// The counters recorded for every client do not depend on the order in
/// which two descriptors are read.
pub proof fn lemma_record_order_independent(
    t: Seq<(Seq<char>, Seq<(u64, CountersView)>)>,
    pci1: Seq<char>,
    id1: u64,
    c1: CountersView,
    pci2: Seq<char>,
    id2: u64,
    c2: CountersView,
    p: Seq<char>,
    i: u64,
)
    ensures
        client_counters(record_in_table(record_in_table(t, pci1, id1, c1), pci2, id2, c2), p, i)
            == client_counters(record_in_table(record_in_table(t, pci2, id2, c2), pci1, id1, c1), p, i),
{
    let t1 = record_in_table(t, pci1, id1, c1);
    let t2 = record_in_table(t, pci2, id2, c2);
    lemma_record_effect(t, pci1, id1, c1, p, i);
    lemma_record_effect(t, pci2, id2, c2, p, i);
    lemma_record_effect(t1, pci2, id2, c2, p, i);
    lemma_record_effect(t2, pci1, id1, c1, p, i);
    match client_counters(t, p, i) {
        Some(x) => {
            lemma_merge_associative(x, c1, c2);
            lemma_merge_associative(x, c2, c1);
            lemma_merge_commutative(c1, c2);
        },
        None => {
            lemma_merge_commutative(c1, c2);
        },
    }
}

} // verus!
