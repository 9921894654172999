//! Generic `hwmon` sysfs rules.
//!
//! Kernel sensors are exposed as `/sys/class/hwmon/hwmon*` directories
//! with a `name` file and numbered attribute files (`temp1_input`,
//! `fan1_input`, `energy1_input`, `power1_cap`, ...). GPU drivers create
//! hwmon entries too. Readings are kept as the caller's value type `T`
//! (what the attribute files hold, parsed).
use vstd::prelude::*;

use crate::order::{sort_order, sorts, SortKey};
use crate::text::{
    append, ends_with, has_suffix, chars_of, copy_range, decimal, decimal_of, find, find_from, has_prefix, parse_decimal,
    parse_unsigned, same_chars, starts_with, strip_prefix,
};

verus! {

/// The kinds of numbered attribute a readout uses.
#[derive(Clone, Copy, Debug, PartialEq, Eq, Structural)]
pub enum SensorKind {
    Temp,
    Fan,
    Energy,
    Power,
}

/// The file-name prefix of a kind.
pub open spec fn kind_name(k: SensorKind) -> Seq<char> {
    match k {
        SensorKind::Temp => "temp"@,
        SensorKind::Fan => "fan"@,
        SensorKind::Energy => "energy"@,
        SensorKind::Power => "power"@,
    }
}

/// The position of a kind's name in text order
/// ("energy" < "fan" < "power" < "temp").
pub open spec fn kind_rank(k: SensorKind) -> u64 {
    match k {
        SensorKind::Energy => 0,
        SensorKind::Fan => 1,
        SensorKind::Power => 2,
        SensorKind::Temp => 3,
    }
}

/// Ranks order kinds as their names order as texts.
pub proof fn lemma_kind_rank(a: SensorKind, b: SensorKind)
    ensures
        kind_rank(a) < kind_rank(b) <==> crate::order::text_lt(kind_name(a), kind_name(b)),
{
    reveal_strlit("temp");
    reveal_strlit("fan");
    reveal_strlit("energy");
    reveal_strlit("power");
    let e = kind_name(SensorKind::Energy);
    let f = kind_name(SensorKind::Fan);
    let p = kind_name(SensorKind::Power);
    let t = kind_name(SensorKind::Temp);
    assert(crate::order::text_lt(e, f));
    assert(crate::order::text_lt(f, p));
    assert(crate::order::text_lt(p, t));
    crate::order::lemma_text_lt_transitive(e, f, p);
    crate::order::lemma_text_lt_transitive(e, p, t);
    crate::order::lemma_text_lt_transitive(f, p, t);
    crate::order::lemma_text_lt_irreflexive(e);
    crate::order::lemma_text_lt_irreflexive(f);
    crate::order::lemma_text_lt_irreflexive(p);
    crate::order::lemma_text_lt_irreflexive(t);
    crate::order::lemma_text_lt_total(e, f);
    crate::order::lemma_text_lt_total(e, p);
    crate::order::lemma_text_lt_total(e, t);
    crate::order::lemma_text_lt_total(f, p);
    crate::order::lemma_text_lt_total(f, t);
    crate::order::lemma_text_lt_total(p, t);
}

/// The number in an attribute name after the kind prefix, up to the
/// first `_` (`"10_input"` gives 10).
pub open spec fn attr_number(rest: Seq<char>) -> Option<u32> {
    match parse_unsigned(rest.take(find(rest, '_')), u32::MAX as nat) {
        Some(n) => Some(n as u32),
        None => None,
    }
}

/// `name` read as an attribute of kind `k`.
pub open spec fn attr_as(name: Seq<char>, k: SensorKind) -> Option<u32> {
    if has_prefix(name, kind_name(k)) {
        attr_number(name.skip(kind_name(k).len() as int))
    } else {
        None
    }
}

/// The kind and number of an attribute file name, trying the kinds temp,
/// fan, energy and power in turn.
pub open spec fn hwmon_attr(name: Seq<char>) -> Option<(u32, SensorKind)> {
    if attr_as(name, SensorKind::Temp) is Some {
        Some((attr_as(name, SensorKind::Temp)->0, SensorKind::Temp))
    } else if attr_as(name, SensorKind::Fan) is Some {
        Some((attr_as(name, SensorKind::Fan)->0, SensorKind::Fan))
    } else if attr_as(name, SensorKind::Energy) is Some {
        Some((attr_as(name, SensorKind::Energy)->0, SensorKind::Energy))
    } else if attr_as(name, SensorKind::Power) is Some {
        Some((attr_as(name, SensorKind::Power)->0, SensorKind::Power))
    } else {
        None
    }
}

fn kind_text(k: SensorKind) -> (r: Vec<char>)
    ensures
        r@ == kind_name(k),
{
    match k {
        SensorKind::Temp => chars_of("temp"),
        SensorKind::Fan => chars_of("fan"),
        SensorKind::Energy => chars_of("energy"),
        SensorKind::Power => chars_of("power"),
    }
}

fn attr_as_exec(name: &[char], k: SensorKind) -> (r: Option<u32>)
    ensures
        r == attr_as(name@, k),
{
    match strip_prefix(name, kind_text(k).as_slice()) {
        Some(rest) => {
            let end = find_from(rest.as_slice(), '_', 0);
            proof {
                assert(rest@.skip(0) =~= rest@);
            }
            let num = copy_range(rest.as_slice(), 0, end);
            match parse_decimal(num.as_slice(), u32::MAX as u64) {
                Some(n) => Some(n as u32),
                None => None,
            }
        },
        None => None,
    }
}

/// The kind and number of attribute file `name` (`temp10_input` is
/// temperature sensor 10), if it is one a readout uses.
pub fn classify_attr(name: &[char]) -> (r: Option<(u32, SensorKind)>)
    ensures
        r == hwmon_attr(name@),
{
    if let Some(n) = attr_as_exec(name, SensorKind::Temp) {
        Some((n, SensorKind::Temp))
    } else if let Some(n) = attr_as_exec(name, SensorKind::Fan) {
        Some((n, SensorKind::Fan))
    } else if let Some(n) = attr_as_exec(name, SensorKind::Energy) {
        Some((n, SensorKind::Energy))
    } else if let Some(n) = attr_as_exec(name, SensorKind::Power) {
        Some((n, SensorKind::Power))
    } else {
        None
    }
}

/// One numbered attribute file of a hwmon directory.
pub struct HwmonAttr {
    pub number: u32,
    pub kind: SensorKind,
    pub file_name: Vec<char>,
}

impl View for HwmonAttr {
    type V = (u32, SensorKind, Seq<char>);

    open spec fn view(&self) -> (u32, SensorKind, Seq<char>) {
        (self.number, self.kind, self.file_name@)
    }
}

/// The sort key of an attribute: number, kind name, file name.
pub open spec fn attr_key(a: (u32, SensorKind, Seq<char>)) -> (u64, u64, Seq<char>) {
    (a.0 as u64, kind_rank(a.1), a.2)
}

/// The attributes among a directory's file `names` (in listing order).
pub open spec fn attrs_of(names: Seq<Vec<char>>) -> Seq<(u32, SensorKind, Seq<char>)>
    decreases names.len(),
{
    if names.len() == 0 {
        Seq::empty()
    } else {
        let before = attrs_of(names.drop_last());
        match hwmon_attr(names.last()@) {
            Some((n, k)) => before.push((n, k, names.last()@)),
            None => before,
        }
    }
}

/// The keys of a list of attributes.
pub open spec fn attr_keys(s: Seq<(u32, SensorKind, Seq<char>)>) -> Seq<(u64, u64, Seq<char>)> {
    Seq::new(s.len(), |i: int| attr_key(s[i]))
}

/// The views of a list of attributes.
pub open spec fn attr_views(s: Seq<HwmonAttr>) -> Seq<(u32, SensorKind, Seq<char>)> {
    Seq::new(s.len(), |i: int| s[i]@)
}

/// `out` is `attrs` put in the order `order`.
pub open spec fn permuted<T>(attrs: Seq<T>, order: Seq<usize>, out: Seq<T>) -> bool {
    &&& out.len() == order.len()
    &&& forall|i: int| 0 <= i < out.len() ==> out[i] == attrs[order[i] as int]
}

/// The numbered attributes among a directory's file `names`, ordered by
/// number, then kind name, then file name (as a sort of the tuples does).
pub fn collect_attrs(names: &Vec<Vec<char>>) -> (r: Vec<HwmonAttr>)
    ensures
        exists|order: Seq<usize>|
            sorts(attr_keys(attrs_of(names@)), order) && permuted(attrs_of(names@), order, attr_views(r@)),
{
    let mut attrs: Vec<HwmonAttr> = Vec::new();
    let mut i: usize = 0;
    while i < names.len()
        invariant
            i <= names@.len(),
            attr_views(attrs@) == attrs_of(names@.take(i as int)),
        decreases names@.len() - i,
    {
        proof {
            assert(names@.take(i + 1).drop_last() =~= names@.take(i as int));
        }
        let ghost before = attrs@;
        if let Some((n, k)) = classify_attr(names[i].as_slice()) {
            attrs.push(HwmonAttr { number: n, kind: k, file_name: names[i].clone() });
            proof {
                assert(attr_views(attrs@) =~= attr_views(before).push((n, k, names@[i as int]@)));
            }
        }
        i = i + 1;
    }
    assert(names@.take(names@.len() as int) =~= names@);
    let mut keys: Vec<SortKey> = Vec::new();
    let mut j: usize = 0;
    while j < attrs.len()
        invariant
            j <= attrs@.len(),
            keys@.len() == j,
            forall|x: int| 0 <= x < j ==> #[trigger] keys@[x]@ == attr_key(attrs@[x]@),
        decreases attrs@.len() - j,
    {
        let a = &attrs[j];
        keys.push(SortKey { major: a.number as u64, minor: rank_of(a.kind), text: a.file_name.clone() });
        j = j + 1;
    }
    assert(crate::order::key_views(keys@) =~= attr_keys(attr_views(attrs@)));
    let order = sort_order(&keys);
    let mut out: Vec<HwmonAttr> = Vec::new();
    let mut m: usize = 0;
    while m < order.len()
        invariant
            m <= order@.len(),
            sorts(crate::order::key_views(keys@), order@),
            keys@.len() == attrs@.len(),
            out@.len() == m,
            forall|x: int| 0 <= x < m ==> #[trigger] out@[x]@ == attrs@[order@[x] as int]@,
        decreases order@.len() - m,
    {
        let a = &attrs[order[m]];
        out.push(HwmonAttr { number: a.number, kind: a.kind, file_name: a.file_name.clone() });
        m = m + 1;
    }
    assert(permuted(attr_views(attrs@), order@, attr_views(out@)));
    out
}

fn rank_of(k: SensorKind) -> (r: u64)
    ensures
        r == kind_rank(k),
{
    match k {
        SensorKind::Energy => 0,
        SensorKind::Fan => 1,
        SensorKind::Power => 2,
        SensorKind::Temp => 3,
    }
}

/// What a readout does with one attribute.
#[derive(Clone, Copy, Debug, PartialEq, Eq, Structural)]
pub enum ReadAction {
    /// Read `temp<N>_input` (millidegrees) and its `temp<N>_label`.
    TempInput(u32),
    /// Read this `fan<N>_input` (RPM).
    FanInput,
    /// Read this `energy<N>_input` (µJ).
    EnergyInput,
    /// Consult the device's power limits.
    PowerLimit,
    /// Nothing to read.
    Skip,
}

/// The action for attribute `a`: inputs of temperatures, fans and energy
/// counters are read; any power attribute triggers the power-limit read.
pub open spec fn action_of(a: (u32, SensorKind, Seq<char>)) -> ReadAction {
    match a.1 {
        SensorKind::Temp => if has_suffix(a.2, "_input"@) {
            ReadAction::TempInput(a.0)
        } else {
            ReadAction::Skip
        },
        SensorKind::Fan => if has_suffix(a.2, "_input"@) {
            ReadAction::FanInput
        } else {
            ReadAction::Skip
        },
        SensorKind::Energy => if has_suffix(a.2, "_input"@) {
            ReadAction::EnergyInput
        } else {
            ReadAction::Skip
        },
        SensorKind::Power => ReadAction::PowerLimit,
    }
}

/// Only `_input` files are read as readings: a temperature, fan or energy
/// attribute is read exactly when its file name ends with `_input`
/// (`fan1_min`, `fan1_alarm`, `temp2_label`, `energy1_label` are skipped),
/// and every power attribute leads to the power-limit read.
pub proof fn lemma_only_inputs_are_read(a: (u32, SensorKind, Seq<char>))
    ensures
        ({
            let is_input = a.2.len() >= 6 && a.2.skip(a.2.len() - 6) == "_input"@;
            &&& a.1 == SensorKind::Temp ==> action_of(a) == if is_input {
                ReadAction::TempInput(a.0)
            } else {
                ReadAction::Skip
            }
            &&& a.1 == SensorKind::Fan ==> action_of(a) == if is_input {
                ReadAction::FanInput
            } else {
                ReadAction::Skip
            }
            &&& a.1 == SensorKind::Energy ==> action_of(a) == if is_input {
                ReadAction::EnergyInput
            } else {
                ReadAction::Skip
            }
            &&& a.1 == SensorKind::Power ==> action_of(a) == ReadAction::PowerLimit
        }),
{
    reveal_strlit("_input");
}

/// What to read for attribute `a`.
pub fn read_action(a: &HwmonAttr) -> (r: ReadAction)
    ensures
        r == action_of(a@),
{
    let input = chars_of("_input");
    match a.kind {
        SensorKind::Temp => if ends_with(a.file_name.as_slice(), input.as_slice()) {
            ReadAction::TempInput(a.number)
        } else {
            ReadAction::Skip
        },
        SensorKind::Fan => if ends_with(a.file_name.as_slice(), input.as_slice()) {
            ReadAction::FanInput
        } else {
            ReadAction::Skip
        },
        SensorKind::Energy => if ends_with(a.file_name.as_slice(), input.as_slice()) {
            ReadAction::EnergyInput
        } else {
            ReadAction::Skip
        },
        SensorKind::Power => ReadAction::PowerLimit,
    }
}

/// `prefix` followed by the decimal `n` and `suffix`.
pub open spec fn numbered_name(prefix: Seq<char>, n: u32, suffix: Seq<char>) -> Seq<char> {
    prefix + decimal(n as nat) + suffix
}

fn numbered_name_exec(prefix: &str, n: u32, suffix: &str) -> (r: Vec<char>)
    ensures
        r@ == numbered_name(prefix@, n, suffix@),
{
    let mut r = chars_of(prefix);
    append(&mut r, decimal_of(n as u64).as_slice());
    append(&mut r, chars_of(suffix).as_slice());
    r
}

/// The files of temperature sensor `n`: its input, its label, and the
/// label used when there is none (`temp<N>_input`, `temp<N>_label`,
/// `temp<N>`).
pub fn temp_files(n: u32) -> (r: (Vec<char>, Vec<char>, Vec<char>))
    ensures
        r.0@ == numbered_name("temp"@, n, "_input"@),
        r.1@ == numbered_name("temp"@, n, "_label"@),
        r.2@ == numbered_name("temp"@, n, ""@),
{
    (numbered_name_exec("temp", n, "_input"), numbered_name_exec("temp", n, "_label"), numbered_name_exec("temp", n, ""))
}

/// The power limit after consulting a power attribute: `power1_cap` if
/// readable, else `power1_max`, else, when no limit is known yet,
/// `power1_crit`.
pub open spec fn power_limit_after<T>(current: Option<T>, cap: Option<T>, max: Option<T>, crit: Option<T>) -> Option<T> {
    if cap is Some {
        cap
    } else if max is Some {
        max
    } else if current is None && crit is Some {
        crit
    } else {
        current
    }
}

/// Applies the power-limit preference (cap, then max, then crit when no
/// limit is known) to the readings of the three files.
pub fn choose_power_limit<T: Copy>(current: Option<T>, cap: Option<T>, max: Option<T>, crit: Option<T>) -> (r: Option<T>)
    ensures
        r == power_limit_after(current, cap, max, crit),
{
    if cap.is_some() {
        cap
    } else if max.is_some() {
        max
    } else if current.is_none() && crit.is_some() {
        crit
    } else {
        current
    }
}

/// One temperature sensor reading.
pub struct Temp<T> {
    pub label: Vec<char>,
    pub celsius: T,
}

impl<T> View for Temp<T> {
    type V = (Seq<char>, T);

    open spec fn view(&self) -> (Seq<char>, T) {
        (self.label@, self.celsius)
    }
}

/// Everything a readout keeps from one hwmon directory.
pub struct HwmonReadout<T> {
    pub temps: Vec<Temp<T>>,
    /// Fans in RPM, first fan first.
    pub fans_rpm: Vec<T>,
    /// Static power limit, if exposed.
    pub power_limit_w: Option<T>,
    /// Monotonic energy counters in microjoules, one per `energyN_input`.
    pub energy_uj: Vec<u64>,
}

/// The views of a list of temperatures.
pub open spec fn temp_views<T>(s: Seq<Temp<T>>) -> Seq<(Seq<char>, T)> {
    Seq::new(s.len(), |i: int| s[i]@)
}

/// What one readout stands for.
pub struct ReadoutView<T> {
    pub temps: Seq<(Seq<char>, T)>,
    pub fans_rpm: Seq<T>,
    pub power_limit_w: Option<T>,
    pub energy_uj: Seq<u64>,
}

impl<T> View for HwmonReadout<T> {
    type V = ReadoutView<T>;

    open spec fn view(&self) -> ReadoutView<T> {
        ReadoutView {
            temps: temp_views(self.temps@),
            fans_rpm: self.fans_rpm@,
            power_limit_w: self.power_limit_w,
            energy_uj: self.energy_uj@,
        }
    }
}

/// `c` as ASCII lower case.
pub open spec fn ascii_lower(c: char) -> char {
    if 'A' <= c && c <= 'Z' {
        ((c as u32) + 32) as char
    } else {
        c
    }
}

/// `str::eq_ignore_ascii_case`.
pub open spec fn eq_ignore_ascii_case(a: Seq<char>, b: Seq<char>) -> bool {
    a.len() == b.len() && forall|i: int| 0 <= i < a.len() ==> ascii_lower(a[i]) == ascii_lower(b[i])
}

fn ascii_lower_exec(c: char) -> (r: char)
    ensures
        r == ascii_lower(c),
{
    if 'A' <= c && c <= 'Z' {
        ((c as u8) + 32) as char
    } else {
        c
    }
}

fn eq_ignore_case(a: &[char], b: &[char]) -> (r: bool)
    ensures
        r == eq_ignore_ascii_case(a@, b@),
{
    if a.len() != b.len() {
        return false;
    }
    let mut i: usize = 0;
    while i < a.len()
        invariant
            a@.len() == b@.len(),
            i <= a@.len(),
            forall|j: int| 0 <= j < i ==> ascii_lower(a@[j]) == ascii_lower(b@[j]),
        decreases a@.len() - i,
    {
        if ascii_lower_exec(a[i]) != ascii_lower_exec(b[i]) {
            return false;
        }
        i = i + 1;
    }
    true
}

/// All temperatures of a card's readouts, directory by directory.
pub open spec fn all_temps<T>(rs: Seq<ReadoutView<T>>) -> Seq<(Seq<char>, T)>
    decreases rs.len(),
{
    if rs.len() == 0 {
        Seq::empty()
    } else {
        all_temps(rs.drop_last()) + rs.last().temps
    }
}

/// The first fan of the first directory that has a fan.
pub open spec fn first_fan<T>(rs: Seq<ReadoutView<T>>) -> Option<T>
    decreases rs.len(),
{
    if rs.len() == 0 {
        None
    } else if rs[0].fans_rpm.len() > 0 {
        Some(rs[0].fans_rpm[0])
    } else {
        first_fan(rs.drop_first())
    }
}

/// The first power limit any directory exposes.
pub open spec fn first_limit<T>(rs: Seq<ReadoutView<T>>) -> Option<T>
    decreases rs.len(),
{
    if rs.len() == 0 {
        None
    } else if rs[0].power_limit_w is Some {
        rs[0].power_limit_w
    } else {
        first_limit(rs.drop_first())
    }
}

/// The energy counters of the first directory that has any.
pub open spec fn first_energy<T>(rs: Seq<ReadoutView<T>>) -> Seq<u64>
    decreases rs.len(),
{
    if rs.len() == 0 {
        Seq::empty()
    } else if rs[0].energy_uj.len() > 0 {
        rs[0].energy_uj
    } else {
        first_energy(rs.drop_first())
    }
}

/// What a card's hwmon directories yield together.
pub struct CardSensors<T> {
    /// All temperature sensors, ordered by label (stable).
    pub temps: Vec<Temp<T>>,
    /// Position in `temps` of the sensor labeled "pkg" (any case).
    pub pkg: Option<usize>,
    pub fan_rpm: Option<T>,
    pub power_limit_w: Option<T>,
    pub energy_uj: Vec<u64>,
}

/// The label keys of a list of temperatures.
pub open spec fn label_keys<T>(s: Seq<(Seq<char>, T)>) -> Seq<(u64, u64, Seq<char>)> {
    Seq::new(s.len(), |i: int| (0u64, 0u64, s[i].0))
}

/// The first position whose label is "pkg" in any ASCII case.
pub open spec fn pkg_pos<T>(s: Seq<(Seq<char>, T)>) -> int
    decreases s.len(),
{
    if s.len() == 0 {
        0
    } else if eq_ignore_ascii_case(s[0].0, "pkg"@) {
        0
    } else {
        1 + pkg_pos(s.drop_first())
    }
}

/// The views of a list of readouts.
pub open spec fn readout_views<T>(s: Seq<HwmonReadout<T>>) -> Seq<ReadoutView<T>> {
    Seq::new(s.len(), |i: int| s[i]@)
}

/// Combines the readouts of a card's hwmon directories (in order): all
/// temperatures sorted by label, the primary ("pkg") sensor, the first
/// fan found, the first power limit found and the first non-empty set of
/// energy counters.
pub fn merge_card_readouts<T: Copy>(readouts: &Vec<HwmonReadout<T>>) -> (r: CardSensors<T>)
    ensures
        ({
            let rs = readout_views(readouts@);
            &&& exists|order: Seq<usize>|
                sorts(label_keys(all_temps(rs)), order) && permuted(
                    all_temps(rs),
                    order,
                    temp_views(r.temps@),
                )
            &&& r.pkg == if pkg_pos(temp_views(r.temps@)) < r.temps@.len() {
                Some(pkg_pos(temp_views(r.temps@)) as usize)
            } else {
                None::<usize>
            }
            &&& r.fan_rpm == first_fan(rs)
            &&& r.power_limit_w == first_limit(rs)
            &&& r.energy_uj@ == first_energy(rs)
        }),
{
    let ghost rs = readout_views(readouts@);
    let mut temps: Vec<Temp<T>> = Vec::new();
    let mut fan: Option<T> = None;
    let mut limit: Option<T> = None;
    let mut energy: Vec<u64> = Vec::new();
    let mut i: usize = 0;
    assert(rs.skip(0) =~= rs);
    while i < readouts.len()
        invariant
            i <= readouts@.len(),
            rs == readout_views(readouts@),
            temp_views(temps@) == all_temps(rs.take(i as int)),
            first_fan(rs) == if fan is Some {
                fan
            } else {
                first_fan(rs.skip(i as int))
            },
            first_limit(rs) == if limit is Some {
                limit
            } else {
                first_limit(rs.skip(i as int))
            },
            first_energy(rs) == if energy@.len() > 0 {
                energy@
            } else {
                first_energy(rs.skip(i as int))
            },
        decreases readouts@.len() - i,
    {
        let r = &readouts[i];
        proof {
            assert(rs.skip(i as int)[0] == r@);
            assert(rs.skip(i as int).drop_first() =~= rs.skip(i + 1));
            assert(rs.take(i + 1).drop_last() =~= rs.take(i as int));
            assert(rs.take(i + 1).last() == r@);
        }
        let ghost before = temps@;
        let mut k: usize = 0;
        while k < r.temps.len()
            invariant
                k <= r.temps@.len(),
                temp_views(temps@) == temp_views(before) + temp_views(r.temps@).take(k as int),
            decreases r.temps@.len() - k,
        {
            let t = &r.temps[k];
            let ghost prev = temps@;
            temps.push(Temp { label: t.label.clone(), celsius: t.celsius });
            proof {
                assert(temp_views(temps@) =~= temp_views(prev).push(t@));
                assert(temp_views(r.temps@).take(k + 1) =~= temp_views(r.temps@).take(k as int).push(t@));
            }
            k = k + 1;
        }
        proof {
            assert(temp_views(r.temps@).take(r.temps@.len() as int) =~= temp_views(r.temps@));
        }
        if fan.is_none() && r.fans_rpm.len() > 0 {
            fan = Some(r.fans_rpm[0]);
        }
        if limit.is_none() {
            limit = r.power_limit_w;
        }
        if energy.len() == 0 {
            energy = r.energy_uj.clone();
            proof {
                assert(energy@ =~= r.energy_uj@);
            }
        }
        i = i + 1;
    }
    proof {
        assert(rs.take(readouts@.len() as int) =~= rs);
        assert(rs.skip(readouts@.len() as int).len() == 0);
    }
    let mut keys: Vec<SortKey> = Vec::new();
    let mut j: usize = 0;
    while j < temps.len()
        invariant
            j <= temps@.len(),
            keys@.len() == j,
            forall|x: int| 0 <= x < j ==> #[trigger] keys@[x]@ == (0u64, 0u64, temps@[x].label@),
        decreases temps@.len() - j,
    {
        keys.push(SortKey { major: 0, minor: 0, text: temps[j].label.clone() });
        j = j + 1;
    }
    assert(crate::order::key_views(keys@) =~= label_keys(temp_views(temps@)));
    let order = sort_order(&keys);
    let mut sorted: Vec<Temp<T>> = Vec::new();
    let mut m: usize = 0;
    while m < order.len()
        invariant
            m <= order@.len(),
            sorts(crate::order::key_views(keys@), order@),
            keys@.len() == temps@.len(),
            sorted@.len() == m,
            forall|x: int| 0 <= x < m ==> #[trigger] sorted@[x]@ == temps@[order@[x] as int]@,
        decreases order@.len() - m,
    {
        let t = &temps[order[m]];
        sorted.push(Temp { label: t.label.clone(), celsius: t.celsius });
        m = m + 1;
    }
    assert(permuted(temp_views(temps@), order@, temp_views(sorted@)));
    let pkg_text = chars_of("pkg");
    let mut q: usize = 0;
    let ghost sv = temp_views(sorted@);
    assert(sv.skip(0) =~= sv);
    while q < sorted.len() && !eq_ignore_case(sorted[q].label.as_slice(), pkg_text.as_slice())
        invariant
            q <= sorted@.len(),
            sv == temp_views(sorted@),
            pkg_text@ == "pkg"@,
            pkg_pos(sv) == q + pkg_pos(sv.skip(q as int)),
        decreases sorted@.len() - q,
    {
        proof {
            assert(sv.skip(q as int)[0] == sv[q as int]);
            assert(sv.skip(q as int).drop_first() =~= sv.skip(q + 1));
        }
        q = q + 1;
    }
    proof {
        if q < sorted@.len() {
            assert(sv.skip(q as int)[0] == sv[q as int]);
        }
    }
    let pkg = if q < sorted.len() {
        Some(q)
    } else {
        None
    };
    CardSensors { temps: sorted, pkg, fan_rpm: fan, power_limit_w: limit, energy_uj: energy }
}

/// `s` with every leading repetition of `p` removed
/// (`str::trim_start_matches`).
pub open spec fn trim_start_matches(s: Seq<char>, p: Seq<char>) -> Seq<char>
    decreases s.len(),
{
    if p.len() > 0 && has_prefix(s, p) {
        trim_start_matches(s.skip(p.len() as int), p)
    } else {
        s
    }
}

/// The index of a `/sys/class/hwmon` entry (`hwmon3` is 3).
pub open spec fn hwmon_number(name: Seq<char>) -> Option<u32> {
    match parse_unsigned(trim_start_matches(name, "hwmon"@), u32::MAX as nat) {
        Some(n) => Some(n as u32),
        None => None,
    }
}

/// The index of hwmon directory `name`, if it is one.
pub fn hwmon_index(name: &[char]) -> (r: Option<u32>)
    ensures
        r == hwmon_number(name@),
{
    let p = chars_of("hwmon");
    proof {
        reveal_strlit("hwmon");
    }
    let mut rest = copy_range(name, 0, name.len());
    assert(rest@ =~= name@);
    while starts_with(rest.as_slice(), p.as_slice())
        invariant
            p@ == "hwmon"@,
            p@.len() > 0,
            trim_start_matches(name@, p@) == trim_start_matches(rest@, p@),
        decreases rest@.len(),
    {
        rest = copy_range(rest.as_slice(), p.len(), rest.len());
    }
    match parse_decimal(rest.as_slice(), u32::MAX as u64) {
        Some(n) => Some(n as u32),
        None => None,
    }
}

/// Sort keys of numbered entries: number, then name.
pub open spec fn numbered_keys(s: Seq<(u32, Vec<char>)>) -> Seq<(u64, u64, Seq<char>)> {
    Seq::new(s.len(), |i: int| (s[i].0 as u64, 0u64, s[i].1@))
}

/// The order of numbered directory entries `(index, name)` sorted by
/// index, then name (as a sort of `(index, path)` within one directory
/// does).
pub fn numbered_order(entries: &Vec<(u32, Vec<char>)>) -> (r: Vec<usize>)
    ensures
        sorts(numbered_keys(entries@), r@),
{
    let mut keys: Vec<SortKey> = Vec::new();
    let mut j: usize = 0;
    while j < entries.len()
        invariant
            j <= entries@.len(),
            keys@.len() == j,
            forall|x: int| 0 <= x < j ==> #[trigger] keys@[x]@ == (entries@[x].0 as u64, 0u64, entries@[x].1@),
        decreases entries@.len() - j,
    {
        keys.push(SortKey { major: entries[j].0 as u64, minor: 0, text: entries[j].1.clone() });
        j = j + 1;
    }
    assert(crate::order::key_views(keys@) =~= numbered_keys(entries@));
    sort_order(&keys)
}

/// Sort keys of names alone.
pub open spec fn name_keys(s: Seq<Vec<char>>) -> Seq<(u64, u64, Seq<char>)> {
    Seq::new(s.len(), |i: int| (0u64, 0u64, s[i]@))
}

/// The order of entry `names` of one directory sorted by name (as a sort
/// of their paths does).
pub fn name_order(names: &Vec<Vec<char>>) -> (r: Vec<usize>)
    ensures
        sorts(name_keys(names@), r@),
{
    let mut keys: Vec<SortKey> = Vec::new();
    let mut j: usize = 0;
    while j < names.len()
        invariant
            j <= names@.len(),
            keys@.len() == j,
            forall|x: int| 0 <= x < j ==> #[trigger] keys@[x]@ == (0u64, 0u64, names@[x]@),
        decreases names@.len() - j,
    {
        keys.push(SortKey { major: 0, minor: 0, text: names[j].clone() });
        j = j + 1;
    }
    assert(crate::order::key_views(keys@) =~= name_keys(names@));
    sort_order(&keys)
}

/// Package temperature (last sensor labeled "Package..." of a coretemp
/// device) and the other coretemp sensors in order, over the devices
/// `devs` given as (device name, temperatures).
pub open spec fn coretemp_split<T>(devs: Seq<(Seq<char>, Seq<(Seq<char>, T)>)>) -> (Option<T>, Seq<T>)
    decreases devs.len(),
{
    if devs.len() == 0 {
        (None, Seq::empty())
    } else {
        let before = coretemp_split(devs.drop_last());
        let (name, temps) = devs.last();
        if name == "coretemp"@ {
            sensor_split(temps, before)
        } else {
            before
        }
    }
}

/// Adds the sensors `temps` of one coretemp device to `acc`.
pub open spec fn sensor_split<T>(temps: Seq<(Seq<char>, T)>, acc: (Option<T>, Seq<T>)) -> (Option<T>, Seq<T>)
    decreases temps.len(),
{
    if temps.len() == 0 {
        acc
    } else {
        let a = sensor_split(temps.drop_last(), acc);
        let (label, c) = temps.last();
        if has_prefix(label, "Package"@) {
            (Some(c), a.1)
        } else {
            (a.0, a.1.push(c))
        }
    }
}

/// The views of hwmon devices as (name, temperatures).
pub open spec fn device_temps<T>(s: Seq<(Vec<char>, Vec<Temp<T>>)>) -> Seq<(Seq<char>, Seq<(Seq<char>, T)>)> {
    Seq::new(s.len(), |i: int| (s[i].0@, temp_views(s[i].1@)))
}

/// Extracts the package and per-core temperatures from the hwmon devices
/// `devs` (name, temperatures): only `coretemp` devices count; a sensor
/// labeled "Package..." is the package, the others are cores.
pub fn coretemps<T: Copy>(devs: &Vec<(Vec<char>, Vec<Temp<T>>)>) -> (r: (Option<T>, Vec<T>))
    ensures
        (r.0, r.1@) == coretemp_split(device_temps(devs@)),
{
    let ghost dv = device_temps(devs@);
    let coretemp = chars_of("coretemp");
    let package = chars_of("Package");
    let mut pkg: Option<T> = None;
    let mut cores: Vec<T> = Vec::new();
    let mut i: usize = 0;
    while i < devs.len()
        invariant
            i <= devs@.len(),
            dv == device_temps(devs@),
            coretemp@ == "coretemp"@,
            package@ == "Package"@,
            (pkg, cores@) == coretemp_split(dv.take(i as int)),
        decreases devs@.len() - i,
    {
        proof {
            assert(dv.take(i + 1).drop_last() =~= dv.take(i as int));
            assert(dv.take(i + 1).last() == dv[i as int]);
        }
        if same_chars(devs[i].0.as_slice(), coretemp.as_slice()) {
            let temps = &devs[i].1;
            let ghost tv = temp_views(temps@);
            let ghost acc = (pkg, cores@);
            let mut k: usize = 0;
            while k < temps.len()
                invariant
                    k <= temps@.len(),
                    tv == temp_views(temps@),
                    package@ == "Package"@,
                    (pkg, cores@) == sensor_split(tv.take(k as int), acc),
                decreases temps@.len() - k,
            {
                proof {
                    assert(tv.take(k + 1).drop_last() =~= tv.take(k as int));
                    assert(tv.take(k + 1).last() == tv[k as int]);
                }
                if starts_with(temps[k].label.as_slice(), package.as_slice()) {
                    pkg = Some(temps[k].celsius);
                } else {
                    cores.push(temps[k].celsius);
                }
                k = k + 1;
            }
            proof {
                assert(tv.take(temps@.len() as int) =~= tv);
            }
        }
        i = i + 1;
    }
    proof {
        assert(dv.take(devs@.len() as int) =~= dv);
    }
    (pkg, cores)
}

} // verus!
