use arcanum::collector::cpu::{parse_proc_stat, CpuState, RaplRead, RaplState};
use arcanum::collector::hwmon::{
    choose_power_limit, classify_attr, collect_attrs, coretemps, hwmon_index, merge_card_readouts,
    name_order, numbered_order, read_action, temp_files, HwmonReadout, ReadAction, SensorKind, Temp,
};
use arcanum::collector::memory::{meminfo_fields, meminfo_get};
use arcanum::collector::poll_warnings;

fn chars(s: &str) -> Vec<char> {
    s.chars().collect()
}

fn text(v: &[char]) -> String {
    v.iter().collect()
}

#[test]
fn attribute_names() {
    assert_eq!(classify_attr(&chars("temp10_input")), Some((10, SensorKind::Temp)));
    assert_eq!(classify_attr(&chars("fan1_input")), Some((1, SensorKind::Fan)));
    assert_eq!(classify_attr(&chars("energy1_input")), Some((1, SensorKind::Energy)));
    assert_eq!(classify_attr(&chars("power1_cap")), Some((1, SensorKind::Power)));
    assert_eq!(classify_attr(&chars("temp2")), Some((2, SensorKind::Temp)));
    assert_eq!(classify_attr(&chars("name")), None);
    assert_eq!(classify_attr(&chars("temp_input")), None);
    assert_eq!(classify_attr(&chars("in0_input")), None);
}

#[test]
fn attributes_sorted_numerically() {
    let names: Vec<Vec<char>> = ["temp10_input", "name", "temp2_label", "fan1_input", "temp2_input", "power1_cap", "energy1_input", "temp1_input"]
        .iter()
        .map(|s| chars(s))
        .collect();
    let attrs = collect_attrs(&names);
    let got: Vec<String> = attrs.iter().map(|a| text(&a.file_name)).collect();
    assert_eq!(
        got,
        vec!["energy1_input", "fan1_input", "power1_cap", "temp1_input", "temp2_input", "temp2_label", "temp10_input"]
    );
    let actions: Vec<ReadAction> = attrs.iter().map(|a| read_action(a)).collect();
    assert_eq!(
        actions,
        vec![
            ReadAction::EnergyInput,
            ReadAction::FanInput,
            ReadAction::PowerLimit,
            ReadAction::TempInput(1),
            ReadAction::TempInput(2),
            ReadAction::Skip,
            ReadAction::TempInput(10)
        ]
    );
}

#[test]
fn temperature_file_names() {
    let (input, label, fallback) = temp_files(12);
    assert_eq!(text(&input), "temp12_input");
    assert_eq!(text(&label), "temp12_label");
    assert_eq!(text(&fallback), "temp12");
}

#[test]
fn power_limit_preference() {
    assert_eq!(choose_power_limit(None, Some(275), Some(300), Some(400)), Some(275));
    assert_eq!(choose_power_limit(Some(1), None, Some(300), Some(400)), Some(300));
    assert_eq!(choose_power_limit(None, None, None, Some(400)), Some(400));
    assert_eq!(choose_power_limit(Some(1), None, None, Some(400)), Some(1));
    assert_eq!(choose_power_limit::<u32>(None, None, None, None), None);
}

fn temp(label: &str, c: i32) -> Temp<i32> {
    Temp { label: chars(label), celsius: c }
}

#[test]
fn card_readouts_merged() {
    let r1 = HwmonReadout { temps: vec![temp("vram", 50), temp("pkg", 60)], fans_rpm: vec![], power_limit_w: None, energy_uj: vec![] };
    let r2 = HwmonReadout { temps: vec![temp("mctrl", 40), temp("PKG", 61)], fans_rpm: vec![900, 1000], power_limit_w: Some(200), energy_uj: vec![5, 6] };
    let r3 = HwmonReadout { temps: vec![], fans_rpm: vec![1200], power_limit_w: Some(100), energy_uj: vec![9] };
    let s = merge_card_readouts(&vec![r1, r2, r3]);
    let labels: Vec<String> = s.temps.iter().map(|t| text(&t.label)).collect();
    assert_eq!(labels, vec!["PKG", "mctrl", "pkg", "vram"]);
    assert_eq!(s.pkg, Some(0));
    assert_eq!(s.temps[0].celsius, 61);
    assert_eq!(s.fan_rpm, Some(900));
    assert_eq!(s.power_limit_w, Some(200));
    assert_eq!(s.energy_uj, vec![5, 6]);
    let none = merge_card_readouts::<i32>(&vec![]);
    assert!(none.temps.is_empty() && none.pkg.is_none() && none.fan_rpm.is_none());
}

#[test]
fn equal_labels_keep_their_order() {
    let r = HwmonReadout { temps: vec![temp("vram_ch_0", 1), temp("a", 2), temp("vram_ch_0", 3)], fans_rpm: vec![], power_limit_w: None, energy_uj: vec![] };
    let s = merge_card_readouts(&vec![r]);
    let cs: Vec<i32> = s.temps.iter().map(|t| t.celsius).collect();
    assert_eq!(cs, vec![2, 1, 3]);
    assert_eq!(s.pkg, None);
}

#[test]
fn hwmon_directories() {
    assert_eq!(hwmon_index(&chars("hwmon3")), Some(3));
    assert_eq!(hwmon_index(&chars("hwmonhwmon7")), Some(7));
    assert_eq!(hwmon_index(&chars("hwmon")), None);
    assert_eq!(hwmon_index(&chars("power")), None);
    let entries = vec![(10, chars("hwmon10")), (2, chars("hwmon2")), (2, chars("hwmon02"))];
    assert_eq!(numbered_order(&entries), vec![2, 1, 0]);
    let names = vec![chars("hwmon5"), chars("hwmon12"), chars("hwmon1")];
    assert_eq!(name_order(&names), vec![2, 1, 0]);
}

#[test]
fn coretemp_package_and_cores() {
    let devs = vec![
        (chars("acpitz"), vec![temp("temp1", 30)]),
        (chars("coretemp"), vec![temp("Package id 0", 55), temp("Core 0", 50), temp("Core 4", 52)]),
        (chars("coretemp"), vec![temp("Core 8", 49), temp("Package id 1", 57)]),
    ];
    let (pkg, cores) = coretemps(&devs);
    assert_eq!(pkg, Some(57));
    assert_eq!(cores, vec![50, 52, 49]);
}

const STAT: &str = "cpu  10 0 10 70 10 0 0 0 0 0\n\
cpu0 5 0 5 35 5 0 0 0 0 0\n\
cpu1 5 0 5 35 5 0 0 0 0 0\n\
intr 12345 0 0\n\
cpu2 1 2\n\
ctxt 999\n";

#[test]
fn proc_stat_counters() {
    let st = parse_proc_stat(&chars(STAT));
    assert_eq!(st.total, 100);
    assert_eq!(st.idle, 80);
    assert_eq!(st.per_core, vec![(50, 40), (50, 40)]);
}

#[test]
fn cpu_deltas_between_polls() {
    let mut cpu = CpuState::new();
    assert_eq!(cpu.previous_core_count(), None);
    assert_eq!(cpu.sample(&parse_proc_stat(&chars(STAT))), None);
    assert_eq!(cpu.previous_core_count(), Some(2));
    let next = "cpu  60 0 10 110 20 0\ncpu0 30 0 5 60 10 0\ncpu1 30 0 5 50 10 0\n";
    let d = cpu.sample(&parse_proc_stat(&chars(next))).unwrap();
    assert_eq!(d, vec![(100, 50), (55, 30), (45, 20)]);
}

#[test]
fn cpu_brought_online_between_polls() {
    let mut cpu = CpuState::new();
    let one = "cpu  10 0 0 10 0 0\ncpu0 10 0 0 10 0 0\n";
    assert_eq!(cpu.sample(&parse_proc_stat(&chars(one))), None);
    let two = "cpu  30 0 0 20 0 0\ncpu0 20 0 0 15 0 0\ncpu1 7 0 0 3 0 0\n";
    let d = cpu.sample(&parse_proc_stat(&chars(two))).unwrap();
    // One entry per core listed now; the new core counts from zero.
    assert_eq!(d, vec![(30, 10), (15, 5), (10, 3)]);
    assert_eq!(cpu.previous_core_count(), Some(2));
    // A core taken offline: fewer entries, no panic.
    let d = cpu.sample(&parse_proc_stat(&chars(one))).unwrap();
    assert_eq!(d, vec![(0, 0), (0, 0)]);
}

#[test]
fn rapl_readings() {
    let mut r = RaplState::new();
    // Missing counter: not refused.
    assert_eq!(r.sample(RaplRead::Unreadable { exists: false }, 0), (None, false));
    // Present but unreadable: refused, and stays refused while unreadable.
    assert_eq!(r.sample(RaplRead::Unreadable { exists: true }, 1), (None, true));
    assert_eq!(r.sample(RaplRead::Unreadable { exists: false }, 2), (None, true));
    assert_eq!(r.sample(RaplRead::Content(chars("1000000\n")), 1_000), (None, false));
    assert_eq!(r.sample(RaplRead::Content(chars("3000000\n")), 1_000_001_000), (Some((2_000_000, 1_000_000_000)), false));
    assert_eq!(r.sample(RaplRead::Content(chars("garbage")), 2_000_000_000), (None, false));
    // Wrapped counter.
    assert_eq!(r.sample(RaplRead::Content(chars("5")), 3_000_000_000), (None, false));
    assert_eq!(r.sample(RaplRead::Content(chars("10")), 4_000_000_000), (Some((5, 1_000_000_000)), false));
    assert_eq!(r.sample(RaplRead::Unreadable { exists: false }, 5), (None, false));
}

#[test]
fn meminfo_values() {
    let content = "MemTotal:       32768000 kB\nMemFree:         1000 kB\nMemAvailable:   16384000 kB\nHugePages_Total:       0\nMemFree: 2000 kB\nbogus line\n";
    let f = meminfo_fields(&chars(content));
    assert_eq!(f.len(), 4);
    assert_eq!(text(meminfo_get(&f, "MemTotal").unwrap()), "32768000");
    assert_eq!(text(meminfo_get(&f, "MemFree").unwrap()), "2000");
    assert_eq!(text(meminfo_get(&f, "HugePages_Total").unwrap()), "0");
    assert!(meminfo_get(&f, "SwapTotal").is_none());
}

#[test]
fn warnings_of_a_poll() {
    let w = poll_warnings(vec!["gpu notice".to_string()], true);
    assert_eq!(w.len(), 2);
    assert!(w[1].starts_with("CPU package power unavailable"));
    assert_eq!(poll_warnings(vec![], false).len(), 0);
}
