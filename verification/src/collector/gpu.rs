//! Intel GPU collection (i915 and xe drivers only, by design).
//!
//! Cards are found under `/sys/class/drm/card*`; their `uevent` names the
//! driver and PCI identity, and the system `pci.ids` database names the
//! model. Activity comes from DRM `fdinfo` (see `fdinfo` and `engines`),
//! power from hwmon energy counters differenced between polls.
use vstd::prelude::*;

use std::path::PathBuf;

use crate::collector::fdinfo::{key_pos, lemma_key_pos_at, lookup, ClientCounters, ClientTable};
use crate::text::{
    append, chars_of, copy_range, decimal, decimal_of, has_prefix, last_segment, last_segment_of, lines,
    parse_decimal, parse_unsigned, same_chars, split_lines, split_once_at, split_once_text,
    starts_with, strip_prefix, trim, trim_chars, trim_start,
};

verus! {

#[verifier::external_type_specification]
#[verifier::external_body]
pub struct ExPathBuf(PathBuf);

/// The kernel driver of an Intel GPU.
#[derive(Clone, Copy, Debug, PartialEq, Eq, Structural)]
pub enum Driver {
    I915,
    Xe,
}

impl Driver {
    /// The driver's name as the kernel spells it.
    pub open spec fn name(self) -> Seq<char> {
        match self {
            Driver::I915 => "i915"@,
            Driver::Xe => "xe"@,
        }
    }

    /// `"i915"` or `"xe"`.
    pub fn as_str(&self) -> (r: &'static str)
        ensures
            r@ == self.name(),
    {
        match self {
            Driver::I915 => "i915",
            Driver::Xe => "xe",
        }
    }
}

/// The text after `p` on the first line that starts with `p`
/// (`lines().find_map(|l| l.strip_prefix(p))`).
pub open spec fn first_after_prefix(ls: Seq<Seq<char>>, p: Seq<char>) -> Option<Seq<char>>
    decreases ls.len(),
{
    if ls.len() == 0 {
        None
    } else if has_prefix(ls[0], p) {
        Some(ls[0].skip(p.len() as int))
    } else {
        first_after_prefix(ls.drop_first(), p)
    }
}

/// The value of `o`, or the empty text.
pub open spec fn or_empty(o: Option<Seq<char>>) -> Seq<char> {
    match o {
        Some(t) => t,
        None => Seq::empty(),
    }
}

/// What a card's `uevent` says of it.
pub struct CardIdentity {
    pub driver: Driver,
    /// `PCI_SLOT_NAME`, e.g. `0000:03:00.0`.
    pub pci: Vec<char>,
    /// The device part of `PCI_ID=8086:<id>`, as the kernel writes it.
    pub pci_id: Vec<char>,
    /// The device id as `pci.ids` lists it: the kernel writes ids in upper
    /// case, the database in lower case.
    pub lookup_id: Vec<char>,
    /// On the root bus (`0000:00:`), i.e. an integrated GPU.
    pub integrated: bool,
}

/// The identity an Intel GPU's `uevent` gives, or `None` when its driver
/// is neither i915 nor xe.
pub open spec fn uevent_identity(uevent: Seq<char>) -> Option<(Driver, Seq<char>, Seq<char>, bool)> {
    let ls = lines(uevent);
    let driver = or_empty(first_after_prefix(ls, "DRIVER="@));
    let pci = or_empty(first_after_prefix(ls, "PCI_SLOT_NAME="@));
    let pci_id = or_empty(first_after_prefix(ls, "PCI_ID=8086:"@));
    if driver == "i915"@ {
        Some((Driver::I915, pci, pci_id, has_prefix(pci, "0000:00:"@)))
    } else if driver == "xe"@ {
        Some((Driver::Xe, pci, pci_id, has_prefix(pci, "0000:00:"@)))
    } else {
        None
    }
}

fn first_after(ls: &Vec<Vec<char>>, p: &str) -> (r: Vec<char>)
    ensures
        r@ == or_empty(first_after_prefix(crate::text::text_views(ls@), p@)),
{
    let ghost v = crate::text::text_views(ls@);
    let pat = chars_of(p);
    let mut i: usize = 0;
    assert(v.skip(0) =~= v);
    while i < ls.len()
        invariant
            i <= ls@.len(),
            v == crate::text::text_views(ls@),
            pat@ == p@,
            first_after_prefix(v, p@) == first_after_prefix(v.skip(i as int), p@),
        decreases ls@.len() - i,
    {
        proof {
            assert(v.skip(i as int)[0] == ls@[i as int]@);
            assert(v.skip(i as int).drop_first() =~= v.skip(i + 1));
        }
        if let Some(rest) = strip_prefix(ls[i].as_slice(), pat.as_slice()) {
            return rest;
        }
        i = i + 1;
    }
    proof {
        assert(v.skip(i as int).len() == 0);
    }
    Vec::new()
}

/// The result of `str::to_lowercase`: the full Unicode lowercase mapping.
pub uninterp spec fn unicode_lowercase(s: Seq<char>) -> Seq<char>;

/// Calls `str::to_lowercase`. Claims only that the result is
/// `unicode_lowercase` of the argument, i.e. that it depends on the text
/// alone; the case mapping itself is not stated.
#[verifier::external_body]
fn to_lowercase(s: &[char]) -> (r: Vec<char>)
    ensures
        r@ == unicode_lowercase(s@),
{
    let text: String = s.iter().collect();
    text.to_lowercase().chars().collect()
}

/// Reads a card's `uevent`: `None` unless its driver is i915 or xe.
pub fn parse_uevent(uevent: &[char]) -> (r: Option<CardIdentity>)
    ensures
        match r {
            Some(c) => uevent_identity(uevent@) == Some((c.driver, c.pci@, c.pci_id@, c.integrated))
                && c.lookup_id@ == unicode_lowercase(c.pci_id@),
            None => uevent_identity(uevent@) is None,
        },
{
    let ls = split_lines(uevent);
    proof {
        assert(crate::text::text_views(ls@) =~= lines(uevent@));
    }
    let driver = first_after(&ls, "DRIVER=");
    let pci = first_after(&ls, "PCI_SLOT_NAME=");
    let pci_id = first_after(&ls, "PCI_ID=8086:");
    let integrated = starts_with(pci.as_slice(), chars_of("0000:00:").as_slice());
    let driver = if same_chars(driver.as_slice(), chars_of("i915").as_slice()) {
        Driver::I915
    } else if same_chars(driver.as_slice(), chars_of("xe").as_slice()) {
        Driver::Xe
    } else {
        return None;
    };
    let lookup_id = to_lowercase(pci_id.as_slice());
    Some(CardIdentity { driver, pci, pci_id, lookup_id, integrated })
}

/// Scans `pci.ids` lines for device `dev_id` of vendor 8086; `in_vendor`
/// tells whether the scan is inside the Intel section.
pub open spec fn pci_scan(ls: Seq<Seq<char>>, dev_id: Seq<char>, in_vendor: bool) -> Option<Seq<char>>
    decreases ls.len(),
{
    if ls.len() == 0 {
        None
    } else {
        let line = ls[0];
        let rest = ls.drop_first();
        if has_prefix(line, "#"@) {
            pci_scan(rest, dev_id, in_vendor)
        } else if has_prefix(line, "8086  "@) {
            pci_scan(rest, dev_id, true)
        } else if !in_vendor {
            pci_scan(rest, dev_id, false)
        } else if has_prefix(line, "\t"@) || has_prefix(line, "  "@) {
            match split_once_text(trim_start(line), "  "@) {
                Some((id, name)) => if trim(id) == dev_id {
                    Some(trim(name))
                } else {
                    pci_scan(rest, dev_id, true)
                },
                None => pci_scan(rest, dev_id, true),
            }
        } else if trim(line).len() != 0 {
            pci_scan(rest, dev_id, false)
        } else {
            pci_scan(rest, dev_id, true)
        }
    }
}

/// Looks up the marketing name of Intel device `dev_id` (lower case, e.g.
/// `e223`) in the content of a `pci.ids` database.
pub fn lookup_pci_name(db: &[char], dev_id: &[char]) -> (r: Option<Vec<char>>)
    ensures
        match r {
            Some(name) => pci_scan(lines(db@), dev_id@, false) == Some(name@),
            None => pci_scan(lines(db@), dev_id@, false) is None,
        },
{
    let ls = split_lines(db);
    let ghost v = lines(db@);
    let hash = chars_of("#");
    let vendor = chars_of("8086  ");
    let tab = chars_of("\t");
    let two = chars_of("  ");
    let mut in_vendor = false;
    let mut i: usize = 0;
    assert(v.skip(0) =~= v);
    while i < ls.len()
        invariant
            i <= ls@.len(),
            v == lines(db@),
            ls@.len() == v.len(),
            forall|j: int| 0 <= j < ls@.len() ==> #[trigger] ls@[j]@ == v[j],
            hash@ == "#"@,
            vendor@ == "8086  "@,
            tab@ == "\t"@,
            two@ == "  "@,
            pci_scan(v, dev_id@, false) == pci_scan(v.skip(i as int), dev_id@, in_vendor),
        decreases ls@.len() - i,
    {
        let line = ls[i].as_slice();
        proof {
            assert(v.skip(i as int)[0] == line@);
            assert(v.skip(i as int).drop_first() =~= v.skip(i + 1));
        }
        if starts_with(line, hash.as_slice()) {
        } else if starts_with(line, vendor.as_slice()) {
            in_vendor = true;
        } else if !in_vendor {
        } else if starts_with(line, tab.as_slice()) || starts_with(line, two.as_slice()) {
            let trimmed = trim_start_chars(line);
            if let Some((id, name)) = split_once_at(trimmed.as_slice(), two.as_slice()) {
                if same_chars(trim_chars(id.as_slice()).as_slice(), dev_id) {
                    return Some(trim_chars(name.as_slice()));
                }
            }
        } else if trim_chars(line).len() != 0 {
            in_vendor = false;
        }
        i = i + 1;
    }
    None
}

/// `str::trim_start`.
fn trim_start_chars(s: &[char]) -> (r: Vec<char>)
    ensures
        r@ == trim_start(s@),
{
    let mut a: usize = 0;
    while a < s.len() && crate::text::is_whitespace(s[a])
        invariant
            a <= s@.len(),
            forall|i: int| 0 <= i < a ==> crate::text::is_ws(#[trigger] s@[i]),
        decreases s@.len() - a,
    {
        a = a + 1;
    }
    proof {
        crate::text::lemma_trim_start_is_suffix(s@);
        let k = s@.len() - trim_start(s@).len();
        if k < a {
            assert(!crate::text::is_ws(trim_start(s@)[0]));
            assert(trim_start(s@)[0] == s@[k]);
        } else if k > a {
            assert(crate::text::is_ws(s@[a as int]));
        }
    }
    copy_range(s, a, s.len())
}

/// The model shown when `pci.ids` does not know the device.
pub open spec fn fallback_model_spec(pci_id: Seq<char>) -> Seq<char> {
    "Intel GPU "@ + pci_id
}

/// `"Intel GPU <id>"`.
pub fn fallback_model(pci_id: &[char]) -> (r: Vec<char>)
    ensures
        r@ == fallback_model_spec(pci_id@),
{
    let mut r = chars_of("Intel GPU ");
    let mut i: usize = 0;
    let ghost start = r@;
    while i < pci_id.len()
        invariant
            i <= pci_id@.len(),
            r@ == start + pci_id@.take(i as int),
            start == "Intel GPU "@,
        decreases pci_id@.len() - i,
    {
        r.push(pci_id[i]);
        proof {
            assert(start + pci_id@.take(i + 1) =~= (start + pci_id@.take(i as int)).push(pci_id@[i as int]));
        }
        i = i + 1;
    }
    assert(pci_id@.take(pci_id@.len() as int) =~= pci_id@);
    r
}

/// The number after `prefix` in a sysfs entry name (`card3`, `renderD128`).
pub open spec fn numbered(name: Seq<char>, prefix: Seq<char>) -> Option<u32> {
    if has_prefix(name, prefix) {
        match parse_unsigned(name.skip(prefix.len() as int), u32::MAX as nat) {
            Some(n) => Some(n as u32),
            None => None,
        }
    } else {
        None
    }
}

fn numbered_exec(name: &[char], prefix: &str) -> (r: Option<u32>)
    ensures
        r == numbered(name@, prefix@),
{
    match strip_prefix(name, chars_of(prefix).as_slice()) {
        Some(rest) => match parse_decimal(rest.as_slice(), u32::MAX as u64) {
            Some(n) => Some(n as u32),
            None => None,
        },
        None => None,
    }
}

/// The card number of a `/sys/class/drm` entry named `card<N>`.
pub fn card_index(name: &[char]) -> (r: Option<u32>)
    ensures
        r == numbered(name@, "card"@),
{
    numbered_exec(name, "card")
}

/// The minor of a `/sys/class/drm` entry named `renderD<N>`.
pub fn render_minor(name: &[char]) -> (r: Option<u32>)
    ensures
        r == numbered(name@, "renderD"@),
{
    numbered_exec(name, "renderD")
}

/// The render minor that an fd symlink target (`/dev/dri/renderD128`)
/// points to.
pub fn render_minor_of_link(target: &[char]) -> (r: Option<u32>)
    ensures
        r == numbered(last_segment(target@, '/'), "renderD"@),
{
    let seg = last_segment_of(target, '/');
    numbered_exec(seg.as_slice(), "renderD")
}

/// One Intel GPU found in `/sys/class/drm`.
pub struct GpuCard {
    /// DRM card number, e.g. 3 for card3.
    pub index: u32,
    pub pci: Vec<char>,
    pub driver: Driver,
    pub model: Vec<char>,
    pub integrated: bool,
    /// `/sys/class/drm/cardN`.
    pub sysfs: PathBuf,
    pub hwmon_dirs: Vec<PathBuf>,
    /// renderD minors owned by this card; used to attribute fdinfo
    /// entries that lack a `drm-pdev` key.
    pub render_minors: Vec<u32>,
}

/// The device of the last card (in order) that owns render minor `minor`.
pub open spec fn pci_of_minor(cards: Seq<GpuCard>, minor: u32) -> Option<Seq<char>>
    decreases cards.len(),
{
    if cards.len() == 0 {
        None
    } else if cards.last().render_minors@.contains(minor) {
        Some(cards.last().pci@)
    } else {
        pci_of_minor(cards.drop_last(), minor)
    }
}

/// The device (PCI address) that owns render minor `minor`: the last card
/// listing it, as a map collected from all cards' minors would keep.
pub fn pci_for_minor(cards: &Vec<GpuCard>, minor: u32) -> (r: Option<Vec<char>>)
    ensures
        match r {
            Some(p) => pci_of_minor(cards@, minor) == Some(p@),
            None => pci_of_minor(cards@, minor) is None,
        },
{
    let mut i: usize = cards.len();
    assert(cards@.take(cards@.len() as int) =~= cards@);
    while i > 0
        invariant
            i <= cards@.len(),
            pci_of_minor(cards@, minor) == pci_of_minor(cards@.take(i as int), minor),
        decreases i,
    {
        let card = &cards[i - 1];
        proof {
            assert(cards@.take(i as int).last() == *card);
            assert(cards@.take(i as int).drop_last() =~= cards@.take(i - 1));
        }
        let mut j: usize = 0;
        while j < card.render_minors.len() && card.render_minors[j] != minor
            invariant
                j <= card.render_minors@.len(),
                forall|x: int| 0 <= x < j ==> card.render_minors@[x] != minor,
            decreases card.render_minors@.len() - j,
        {
            j = j + 1;
        }
        if j < card.render_minors.len() {
            proof {
                assert(card.render_minors@.contains(minor));
            }
            return Some(copy_range(card.pci.as_slice(), 0, card.pci.len()));
        }
        proof {
            assert(!card.render_minors@.contains(minor));
        }
        i = i - 1;
    }
    None
}

/// The card numbers of `cards` never decrease.
pub open spec fn sorted_by_index(cards: Seq<GpuCard>) -> bool {
    forall|a: int, b: int| 0 <= a < b < cards.len() ==> cards[a].index <= cards[b].index
}

/// The cards of `cards` numbered `n`, in their order.
pub open spec fn numbered_cards(cards: Seq<GpuCard>, n: u32) -> Seq<GpuCard>
    decreases cards.len(),
{
    if cards.len() == 0 {
        Seq::empty()
    } else {
        (if cards[0].index == n {
            seq![cards[0]]
        } else {
            Seq::empty()
        }) + numbered_cards(cards.drop_first(), n)
    }
}

proof fn lemma_numbered_cards_add(a: Seq<GpuCard>, b: Seq<GpuCard>, n: u32)
    ensures
        numbered_cards(a + b, n) == numbered_cards(a, n) + numbered_cards(b, n),
    decreases a.len(),
{
    if a.len() == 0 {
        assert(a + b =~= b);
        assert(numbered_cards(a, n) + numbered_cards(b, n) =~= numbered_cards(b, n));
    } else {
        lemma_numbered_cards_add(a.drop_first(), b, n);
        assert((a + b).drop_first() =~= a.drop_first() + b);
        assert((a + b)[0] == a[0]);
        let head = if a[0].index == n {
            seq![a[0]]
        } else {
            Seq::<GpuCard>::empty()
        };
        assert(head + (numbered_cards(a.drop_first(), n) + numbered_cards(b, n)) =~= (head
            + numbered_cards(a.drop_first(), n)) + numbered_cards(b, n));
    }
}

proof fn lemma_numbered_cards_below(s: Seq<GpuCard>, n: u32)
    requires
        forall|x: int| 0 <= x < s.len() ==> s[x].index < n,
    ensures
        numbered_cards(s, n) == Seq::<GpuCard>::empty(),
    decreases s.len(),
{
    if s.len() > 0 {
        lemma_numbered_cards_below(s.drop_first(), n);
        assert(Seq::<GpuCard>::empty() + Seq::<GpuCard>::empty() =~= Seq::<GpuCard>::empty());
    }
}

/// `cards` ordered by card number, cards with the same number keeping
/// their order (`sort_by_key(|c| c.index)`, a stable sort).
pub fn sort_cards(cards: Vec<GpuCard>) -> (r: Vec<GpuCard>)
    ensures
        sorted_by_index(r@),
        forall|n: u32| #[trigger] numbered_cards(r@, n) == numbered_cards(cards@, n),
        r@.to_multiset() == cards@.to_multiset(),
{
    broadcast use vstd::seq_lib::to_multiset_build, vstd::seq_lib::to_multiset_insert;

    let mut rest = cards;
    let ghost all = rest@;
    let mut out: Vec<GpuCard> = Vec::new();
    proof {
        assert(out@.to_multiset() =~= vstd::multiset::Multiset::<GpuCard>::empty()) by {
            broadcast use vstd::multiset::group_multiset_axioms;
            out@.to_multiset_ensures();
        }
        assert(all.skip(all.len() as int) =~= Seq::<GpuCard>::empty());
        assert(all.take(all.len() as int) =~= all);
    }
    while rest.len() > 0
        invariant
            sorted_by_index(out@),
            out@.to_multiset().add(rest@.to_multiset()) == all.to_multiset(),
            rest@.len() <= all.len(),
            rest@ == all.take(rest@.len() as int),
            forall|n: u32| #[trigger] numbered_cards(out@, n) == numbered_cards(
                all.skip(rest@.len() as int),
                n,
            ),
        decreases rest@.len(),
    {
        let ghost before_rest = rest@;
        let ghost k = rest@.len() as int;
        let c = rest.pop().unwrap();
        proof {
            assert(before_rest =~= rest@.push(c));
            assert(rest@ =~= all.take(rest@.len() as int));
            assert(all.skip(k - 1) =~= seq![c] + all.skip(k));
        }
        let mut j: usize = 0;
        while j < out.len() && out[j].index < c.index
            invariant
                j <= out@.len(),
                forall|x: int| 0 <= x < j ==> out@[x].index < c.index,
            decreases out@.len() - j,
        {
            j = j + 1;
        }
        let ghost before_out = out@;
        out.insert(j, c);
        proof {
            assert(out@ =~= before_out.insert(j as int, c));
            assert forall|a: int, b: int| 0 <= a < b < out@.len() implies out@[a].index
                <= out@[b].index by {
                if b < j {
                    assert(out@[a] == before_out[a] && out@[b] == before_out[b]);
                } else if b == j {
                    assert(out@[a] == before_out[a]);
                } else if a == j {
                    assert(out@[b] == before_out[b - 1]);
                } else if a < j {
                    assert(out@[a] == before_out[a] && out@[b] == before_out[b - 1]);
                    if j < before_out.len() {
                        assert(before_out[j as int].index >= c.index);
                    }
                } else {
                    assert(out@[a] == before_out[a - 1] && out@[b] == before_out[b - 1]);
                }
            }
            let low = before_out.take(j as int);
            let high = before_out.skip(j as int);
            assert(out@ =~= low + (seq![c] + high));
            assert(before_out =~= low + high);
            assert forall|n: u32| #[trigger] numbered_cards(out@, n) == numbered_cards(
                all.skip(rest@.len() as int),
                n,
            ) by {
                lemma_numbered_cards_add(low, seq![c] + high, n);
                lemma_numbered_cards_add(seq![c], high, n);
                lemma_numbered_cards_add(low, high, n);
                lemma_numbered_cards_add(seq![c], all.skip(k), n);
                assert(numbered_cards(before_out, n) == numbered_cards(all.skip(k), n));
                assert(seq![c].drop_first() =~= Seq::<GpuCard>::empty());
                assert(seq![c][0] == c);
                assert(numbered_cards(seq![c].drop_first(), n) =~= Seq::<GpuCard>::empty());
                assert(numbered_cards(seq![c], n) =~= (if c.index == n {
                    seq![c]
                } else {
                    Seq::<GpuCard>::empty()
                }));
                if n == c.index {
                    lemma_numbered_cards_below(low, n);
                    assert(numbered_cards(low, n) + (numbered_cards(seq![c], n) + numbered_cards(high, n))
                        =~= numbered_cards(seq![c], n) + (numbered_cards(low, n) + numbered_cards(high, n)));
                } else {
                    assert(numbered_cards(seq![c], n) =~= Seq::<GpuCard>::empty());
                    assert(numbered_cards(low, n) + (numbered_cards(seq![c], n) + numbered_cards(high, n))
                        =~= numbered_cards(low, n) + numbered_cards(high, n));
                    assert(numbered_cards(seq![c], n) + numbered_cards(all.skip(k), n)
                        =~= numbered_cards(all.skip(k), n));
                }
            }
            assert(out@.to_multiset().add(rest@.to_multiset()) =~= before_out.to_multiset().add(
                before_rest.to_multiset(),
            )) by {
                broadcast use vstd::multiset::group_multiset_axioms;
                vstd::seq_lib::to_multiset_insert(before_out, j as int, c);
                vstd::seq_lib::to_multiset_build(rest@, c);
                assert(out@.to_multiset() == before_out.to_multiset().insert(c));
                assert(before_rest.to_multiset() == rest@.to_multiset().insert(c));
            }
        }
    }
    proof {
        assert(rest@.to_multiset() =~= vstd::multiset::Multiset::<GpuCard>::empty()) by {
            broadcast use vstd::multiset::group_multiset_axioms;
            rest@.to_multiset_ensures();
        }
        assert(out@.to_multiset().add(vstd::multiset::Multiset::<GpuCard>::empty()) =~= out@.to_multiset()) by {
            broadcast use vstd::multiset::group_multiset_axioms;
        }
        assert(all.skip(0) =~= all);
    }
    out
}

/// Power counters and the time they were read, per device.
pub open spec fn energy_view(s: Seq<(Vec<char>, Vec<u64>, u64)>) -> Seq<(Seq<char>, (Seq<u64>, u64))> {
    Seq::new(s.len(), |i: int| (s[i].0@, (s[i].1@, s[i].2)))
}

/// Energy drawn between two reads of a device's first energy counter:
/// (microjoules, nanoseconds). Nothing on the first read, when the
/// counter went backwards (wrapped) or when no time passed.
pub open spec fn energy_delta(prev: Option<(Seq<u64>, u64)>, energy: Seq<u64>, now_ns: u64) -> Option<
    (u64, u64),
> {
    match prev {
        Some((pv, pt)) => if energy.len() > 0 && pv.len() > 0 && energy[0] >= pv[0] && now_ns > pt {
            Some(((energy[0] - pv[0]) as u64, (now_ns - pt) as u64))
        } else {
            None
        },
        None => None,
    }
}

/// The remembered counters after a read of `energy` at `now_ns`: kept
/// only when the device exposes a counter.
pub open spec fn remember_energy(
    t: Seq<(Seq<char>, (Seq<u64>, u64))>,
    pci: Seq<char>,
    energy: Seq<u64>,
    now_ns: u64,
) -> Seq<(Seq<char>, (Seq<u64>, u64))> {
    if energy.len() == 0 {
        t
    } else {
        let p = key_pos(t, pci);
        if p < t.len() {
            t.update(p, (pci, (energy, now_ns)))
        } else {
            t.push((pci, (energy, now_ns)))
        }
    }
}

/// The notice raised when xe clients exist but report no engine activity.
pub open spec fn xe_counter_warning() -> Seq<char> {
    "xe utilization counters read zero — some kernels require CAP_PERFMON (see scripts/setup-permissions.sh)"@
}

/// Whether an xe card's clients showed no engine activity although the
/// card has clients: the sign of counters that read zero.
pub open spec fn xe_counters_silent(driver: Driver, has_clients: bool, engines_empty: bool) -> bool {
    driver == Driver::Xe && has_clients && engines_empty
}

/// Stateful GPU collector: the cards, and what the previous poll read.
pub struct GpuState {
    cards: Vec<GpuCard>,
    prev_clients: Option<ClientTable>,
    prev_clients_at: u64,
    prev_energy: Vec<(Vec<char>, Vec<u64>, u64)>,
    pending_warnings: Vec<String>,
    xe_counter_warning_emitted: bool,
    /// How many times the xe counter notice was raised.
    xe_notices: Ghost<nat>,
}

/// The view of a list of texts.
pub open spec fn texts(s: Seq<String>) -> Seq<Seq<char>> {
    Seq::new(s.len(), |i: int| s[i]@)
}

impl GpuState {
    /// The cards being watched.
    pub closed spec fn cards_view(&self) -> Seq<GpuCard> {
        self.cards@
    }

    /// Whether a previous `fdinfo` scan is held.
    pub closed spec fn has_previous_scan(&self) -> bool {
        self.prev_clients is Some
    }

    /// The previous `fdinfo` scan.
    pub closed spec fn previous_scan(&self) -> Seq<(Seq<char>, Seq<(u64, crate::collector::fdinfo::CountersView)>)> {
        match self.prev_clients {
            Some(t) => t@,
            None => Seq::empty(),
        }
    }

    /// When the previous `fdinfo` scan was taken (ns).
    pub closed spec fn previous_scan_at(&self) -> u64 {
        self.prev_clients_at
    }

    /// Energy counters of the previous poll, per device.
    pub closed spec fn previous_energy(&self) -> Seq<(Seq<char>, (Seq<u64>, u64))> {
        energy_view(self.prev_energy@)
    }

    /// Notices not yet handed out.
    pub closed spec fn warnings(&self) -> Seq<Seq<char>> {
        texts(self.pending_warnings@)
    }

    /// The xe counter notice was already raised.
    pub closed spec fn xe_warned(&self) -> bool {
        self.xe_counter_warning_emitted
    }

    /// How many times this collector has raised the xe counter notice.
    pub closed spec fn xe_notices_raised(&self) -> nat {
        self.xe_notices@
    }

    /// The notice is raised at most once, and only after it the collector
    /// counts as warned.
    #[verifier::type_invariant]
    spec fn notice_once(self) -> bool {
        &&& self.xe_notices@ <= 1
        &&& self.xe_notices@ == 1 ==> self.xe_counter_warning_emitted
    }

    /// Starts watching `cards` (as found in `/sys/class/drm`) at time
    /// `now_ns`, with nothing read yet.
    pub fn new(cards: Vec<GpuCard>, now_ns: u64) -> (r: GpuState)
        ensures
            r.cards_view() == cards@,
            !r.has_previous_scan(),
            r.previous_scan_at() == now_ns,
            r.previous_energy() == Seq::<(Seq<char>, (Seq<u64>, u64))>::empty(),
            r.warnings() == Seq::<Seq<char>>::empty(),
            !r.xe_warned(),
            r.xe_notices_raised() == 0,
    {
        let r = GpuState {
            cards,
            prev_clients: None,
            prev_clients_at: now_ns,
            prev_energy: Vec::new(),
            pending_warnings: Vec::new(),
            xe_counter_warning_emitted: false,
            xe_notices: Ghost(0),
        };
        assert(r.previous_energy() =~= Seq::<(Seq<char>, (Seq<u64>, u64))>::empty());
        assert(r.warnings() =~= Seq::<Seq<char>>::empty());
        r
    }

    /// The cards being watched.
    pub fn cards(&self) -> (r: &Vec<GpuCard>)
        ensures
            r@ == self.cards_view(),
    {
        &self.cards
    }

    /// The previous scan's clients of device `pci`: `None` before the
    /// first scan or when the device had no client then.
    pub fn previous_clients(&self, pci: &[char]) -> (r: Option<&Vec<(u64, ClientCounters)>>)
        ensures
            match r {
                Some(l) => self.has_previous_scan() && lookup(self.previous_scan(), pci@) == Some(
                    crate::collector::fdinfo::clients_view(l@),
                ) && crate::collector::fdinfo::keys_distinct(crate::collector::fdinfo::clients_view(l@)),
                None => !self.has_previous_scan() || lookup(self.previous_scan(), pci@) is None,
            },
    {
        match &self.prev_clients {
            Some(t) => t.clients(pci),
            None => None,
        }
    }

    /// Nanoseconds since the previous scan (0 if the clock went back).
    pub fn elapsed_since_scan(&self, now_ns: u64) -> (r: u64)
        ensures
            r == crate::collector::engines::sat_sub(now_ns, self.previous_scan_at()),
    {
        if now_ns >= self.prev_clients_at {
            now_ns - self.prev_clients_at
        } else {
            0
        }
    }

    /// Differences device `pci`'s energy counters `energy` (µJ), read at
    /// `now_ns`, against the previous read, and remembers them.
    pub fn power_delta(&mut self, pci: &[char], energy: Vec<u64>, now_ns: u64) -> (r: Option<(u64, u64)>)
        ensures
            r == energy_delta(lookup(old(self).previous_energy(), pci@), energy@, now_ns),
            final(self).previous_energy() == remember_energy(
                old(self).previous_energy(),
                pci@,
                energy@,
                now_ns,
            ),
            final(self).cards_view() == old(self).cards_view(),
            final(self).has_previous_scan() == old(self).has_previous_scan(),
            final(self).previous_scan() == old(self).previous_scan(),
            final(self).previous_scan_at() == old(self).previous_scan_at(),
            final(self).warnings() == old(self).warnings(),
            final(self).xe_warned() == old(self).xe_warned(),
            final(self).xe_notices_raised() == old(self).xe_notices_raised(),
    {
        proof {
            use_type_invariant(&*self);
        }
        let ghost t = self.previous_energy();
        let mut p: usize = 0;
        while p < self.prev_energy.len() && !same_chars(self.prev_energy[p].0.as_slice(), pci)
            invariant
                p <= self.prev_energy@.len(),
                t == energy_view(self.prev_energy@),
                forall|j: int| 0 <= j < p ==> (#[trigger] t[j]).0 != pci@,
            decreases self.prev_energy@.len() - p,
        {
            p = p + 1;
        }
        proof {
            lemma_key_pos_at(t, pci@, p as int);
        }
        let result = if p < self.prev_energy.len() {
            let pv = &self.prev_energy[p].1;
            let pt: u64 = self.prev_energy[p].2;
            if energy.len() > 0 && pv.len() > 0 && energy[0] >= pv[0] && now_ns > pt {
                Some((energy[0] - pv[0], now_ns - pt))
            } else {
                None
            }
        } else {
            None
        };
        if energy.len() > 0 {
            let key = copy_range(pci, 0, pci.len());
            assert(key@ =~= pci@);
            let ghost e = energy@;
            let mut pe: Vec<(Vec<char>, Vec<u64>, u64)> = Vec::new();
            std::mem::swap(&mut pe, &mut self.prev_energy);
            let ghost old_pe = pe@;
            if p < pe.len() {
                pe.set(p, (key, energy, now_ns));
                proof {
                    assert(pe@ == old_pe.update(p as int, (key, energy, now_ns)));
                    assert(energy_view(pe@) =~= t.update(p as int, (pci@, (e, now_ns))));
                }
            } else {
                pe.push((key, energy, now_ns));
                proof {
                    assert(energy_view(pe@) =~= t.push((pci@, (e, now_ns))));
                }
            }
            self.prev_energy = pe;
            proof {
                assert(self.previous_energy() =~= remember_energy(t, pci@, e, now_ns));
            }
        }
        result
    }

    /// Raises the xe counter notice, once per collector, when card `card`
    /// is an xe card whose clients showed no engine activity.
    pub fn note_engine_activity(&mut self, card: usize, has_clients: bool, engines_empty: bool)
        requires
            card < old(self).cards_view().len(),
        ensures
            final(self).xe_warned() == (old(self).xe_warned() || xe_counters_silent(
                old(self).cards_view()[card as int].driver,
                has_clients,
                engines_empty,
            )),
            final(self).warnings() == if !old(self).xe_warned() && xe_counters_silent(
                old(self).cards_view()[card as int].driver,
                has_clients,
                engines_empty,
            ) {
                old(self).warnings().push(xe_counter_warning())
            } else {
                old(self).warnings()
            },
            final(self).cards_view() == old(self).cards_view(),
            final(self).has_previous_scan() == old(self).has_previous_scan(),
            final(self).previous_scan() == old(self).previous_scan(),
            final(self).previous_scan_at() == old(self).previous_scan_at(),
            final(self).previous_energy() == old(self).previous_energy(),
            final(self).xe_notices_raised() == old(self).xe_notices_raised() + if !old(
                self,
            ).xe_warned() && xe_counters_silent(
                old(self).cards_view()[card as int].driver,
                has_clients,
                engines_empty,
            ) {
                1nat
            } else {
                0nat
            },
            final(self).xe_notices_raised() <= 1,
    {
        proof {
            use_type_invariant(&*self);
        }
        if self.cards[card].driver == Driver::Xe && !self.xe_counter_warning_emitted && has_clients
            && engines_empty {
            self.xe_counter_warning_emitted = true;
            self.xe_notices = Ghost(self.xe_notices@ + 1);
            let w = "xe utilization counters read zero — some kernels require CAP_PERFMON (see scripts/setup-permissions.sh)".to_owned();
            let ghost before = self.pending_warnings@;
            let mut pending: Vec<String> = Vec::new();
            std::mem::swap(&mut pending, &mut self.pending_warnings);
            pending.push(w);
            self.pending_warnings = pending;
            proof {
                assert(self.warnings() =~= texts(before).push(xe_counter_warning()));
            }
        }
    }

    /// Keeps this poll's `fdinfo` scan, taken at `now_ns`, for the next one.
    pub fn finish_scan(&mut self, clients: ClientTable, now_ns: u64)
        ensures
            final(self).has_previous_scan(),
            final(self).previous_scan() == clients@,
            final(self).previous_scan_at() == now_ns,
            final(self).cards_view() == old(self).cards_view(),
            final(self).previous_energy() == old(self).previous_energy(),
            final(self).warnings() == old(self).warnings(),
            final(self).xe_warned() == old(self).xe_warned(),
            final(self).xe_notices_raised() == old(self).xe_notices_raised(),
    {
        proof {
            use_type_invariant(&*self);
        }
        self.prev_clients = Some(clients);
        self.prev_clients_at = now_ns;
    }

    /// Hands out the pending notices, leaving none.
    pub fn take_warnings(&mut self) -> (r: Vec<String>)
        ensures
            texts(r@) == old(self).warnings(),
            final(self).warnings() == Seq::<Seq<char>>::empty(),
            final(self).xe_warned() == old(self).xe_warned(),
            final(self).cards_view() == old(self).cards_view(),
            final(self).has_previous_scan() == old(self).has_previous_scan(),
            final(self).previous_scan() == old(self).previous_scan(),
            final(self).previous_scan_at() == old(self).previous_scan_at(),
            final(self).previous_energy() == old(self).previous_energy(),
            final(self).xe_notices_raised() == old(self).xe_notices_raised(),
    {
        proof {
            use_type_invariant(&*self);
        }
        let mut r: Vec<String> = Vec::new();
        std::mem::swap(&mut r, &mut self.pending_warnings);
        assert(self.warnings() =~= Seq::<Seq<char>>::empty());
        r
    }
}

/// The label of a chassis fan: `"<device name> fan<N>"`, `N` counting from 1.
pub open spec fn fan_label_spec(name: Seq<char>, i: nat) -> Seq<char> {
    name + " fan"@ + decimal(i + 1)
}

/// Label of the `i`-th fan (from 0) of hwmon device `name`.
pub fn fan_label(name: &[char], i: usize) -> (r: Vec<char>)
    requires
        i < u64::MAX,
    ensures
        r@ == fan_label_spec(name@, i as nat),
{
    let mut r = copy_range(name, 0, name.len());
    append(&mut r, chars_of(" fan").as_slice());
    append(&mut r, decimal_of(i as u64 + 1).as_slice());
    r
}

/// The device a DRM descriptor belongs to: its `drm-pdev`, else the card
/// owning the render node its fd symlink points to.
pub open spec fn attributed_device(
    pdev: Option<Seq<char>>,
    cards: Seq<GpuCard>,
    link_target: Option<Seq<char>>,
) -> Option<Seq<char>> {
    match pdev {
        Some(p) => Some(p),
        None => match link_target {
            None => None,
            Some(t) => match numbered(last_segment(t, '/'), "renderD"@) {
                None => None,
                Some(m) => pci_of_minor(cards, m),
            },
        },
    }
}

/// The client table after accounting one DRM descriptor whose `fdinfo`
/// reads as `rec` (`link_target`: where its fd symlink points, if read).
pub open spec fn table_after_descriptor(
    t: Seq<(Seq<char>, Seq<(u64, crate::collector::fdinfo::CountersView)>)>,
    cards: Seq<GpuCard>,
    rec: crate::collector::fdinfo::FdinfoView,
    link_target: Option<Seq<char>>,
) -> Seq<(Seq<char>, Seq<(u64, crate::collector::fdinfo::CountersView)>)> {
    match attributed_device(rec.pdev, cards, link_target) {
        None => t,
        Some(pci) => match rec.client_id {
            None => t,
            Some(id) => crate::collector::fdinfo::record_in_table(t, pci, id, rec.counters),
        },
    }
}

/// Accounts one DRM descriptor read by `parse_fdinfo`: attributes it to a
/// device and merges its counters into `table` under its client id.
/// Descriptors that cannot be attributed or that carry no client id are
/// skipped. `link_target` is only consulted without a `drm-pdev`.
pub fn record_descriptor(
    table: &mut ClientTable,
    cards: &Vec<GpuCard>,
    rec: crate::collector::fdinfo::FdinfoRecord,
    link_target: Option<Vec<char>>,
)
    ensures
        final(table)@ == table_after_descriptor(
            old(table)@,
            cards@,
            rec@,
            crate::collector::fdinfo::opt_text(link_target),
        ),
{
    let pci = match rec.pdev {
        Some(p) => p,
        None => {
            let target = match link_target {
                Some(t) => t,
                None => return ,
            };
            let minor = match render_minor_of_link(target.as_slice()) {
                Some(m) => m,
                None => return ,
            };
            match pci_for_minor(cards, minor) {
                Some(p) => p,
                None => return ,
            }
        },
    };
    let id = match rec.client_id {
        Some(id) => id,
        None => return ,
    };
    table.record(pci, id, rec.counters);
}

} // verus!
