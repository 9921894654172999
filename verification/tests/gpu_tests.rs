use std::path::PathBuf;

use arcanum::collector::engines::{client_memory, differ_engines, engine_label};
use arcanum::collector::fdinfo::{merge_max, parse_fdinfo, ClientCounters, ClientTable};
use arcanum::collector::gpu::{
    card_index, fallback_model, fan_label, lookup_pci_name, parse_uevent, pci_for_minor,
    record_descriptor, render_minor, render_minor_of_link, sort_cards, Driver, GpuCard, GpuState,
};

fn chars(s: &str) -> Vec<char> {
    s.chars().collect()
}

fn text(v: &[char]) -> String {
    v.iter().collect()
}

const I915_FDINFO: &str = "pos:\t0\nflags:\t02100002\nmnt_id:\t26\ndrm-driver:\ti915\n\
drm-client-id:\t7\ndrm-pdev:\t0000:00:02.0\ndrm-engine-render:\t1000 ns\ndrm-engine-copy:\t0 ns\n\
drm-engine-video:\t250 ns\ndrm-memory-shared:\t2048 KiB\n";

const XE_FDINFO: &str = "drm-driver:\txe\ndrm-client-id:\t12\ndrm-pdev:\t0000:03:00.0\n\
drm-total-vram0:\t4096 KiB\ndrm-cycles-rcs:\t500\ndrm-total-cycles-rcs:\t1000\n\
drm-engine-capacity-ccs:\t4\ndrm-cycles-ccs:\t100\ndrm-total-cycles-ccs:\t1000\n";

fn card(index: u32, pci: &str, driver: Driver, minors: Vec<u32>) -> GpuCard {
    GpuCard {
        index,
        pci: chars(pci),
        driver,
        model: chars("Test GPU"),
        integrated: false,
        sysfs: PathBuf::from(format!("/sys/class/drm/card{index}")),
        hwmon_dirs: Vec::new(),
        render_minors: minors,
    }
}

#[test]
fn engine_labels() {
    assert_eq!(engine_label(&chars("rcs")), "Render");
    assert_eq!(engine_label(&chars("render")), "Render");
    assert_eq!(engine_label(&chars("ccs")), "Compute");
    assert_eq!(engine_label(&chars("copy")), "Copy");
    assert_eq!(engine_label(&chars("vcs")), "Video");
    assert_eq!(engine_label(&chars("video-enhance")), "Video Enhance");
    assert_eq!(engine_label(&chars("gsc")), "Other");
}

#[test]
fn fdinfo_i915_counters() {
    let rec = parse_fdinfo(&chars(I915_FDINFO)).expect("a DRM descriptor");
    assert_eq!(rec.client_id, Some(7));
    assert_eq!(text(rec.pdev.as_ref().unwrap()), "0000:00:02.0");
    assert_eq!(rec.counters.engines_ns.get(&chars("render")), Some(1000));
    assert_eq!(rec.counters.engines_ns.get(&chars("video")), Some(250));
    assert_eq!(rec.counters.engines_ns.get(&chars("copy")), Some(0));
    assert_eq!(rec.counters.shared_kib, 2048);
    assert_eq!(rec.counters.vram_kib, 0);
}

#[test]
fn fdinfo_xe_counters() {
    let rec = parse_fdinfo(&chars(XE_FDINFO)).unwrap();
    assert_eq!(rec.client_id, Some(12));
    assert_eq!(rec.counters.engines_cycles.get(&chars("rcs")), Some(500));
    assert_eq!(rec.counters.engine_total_cycles.get(&chars("ccs")), Some(1000));
    assert_eq!(rec.counters.capacity.get(&chars("ccs")), Some(4));
    assert_eq!(rec.counters.engines_ns.get(&chars("ccs")), None);
    assert_eq!(rec.counters.vram_kib, 4096);
}

#[test]
fn fdinfo_without_drm_driver_is_skipped() {
    assert!(parse_fdinfo(&chars("pos:\t0\nflags:\t02\n")).is_none());
}

#[test]
fn repeated_engine_lines_keep_the_maximum() {
    let rec = parse_fdinfo(&chars("drm-driver: i915\ndrm-engine-render: 30 ns\ndrm-engine-render: 20 ns\n")).unwrap();
    assert_eq!(rec.counters.engines_ns.get(&chars("render")), Some(30));
    assert_eq!(rec.client_id, None);
}

#[test]
fn merge_keeps_maximum_never_sums() {
    let mut a = parse_fdinfo(&chars("drm-driver: i915\ndrm-engine-render: 100 ns\ndrm-memory-shared: 10\n")).unwrap().counters;
    let b = parse_fdinfo(&chars("drm-driver: i915\ndrm-engine-render: 80 ns\ndrm-engine-video: 5 ns\ndrm-memory-shared: 40\n")).unwrap().counters;
    merge_max(&mut a, &b);
    assert_eq!(a.engines_ns.get(&chars("render")), Some(100));
    assert_eq!(a.engines_ns.get(&chars("video")), Some(5));
    assert_eq!(a.shared_kib, 40);
}

#[test]
fn descriptors_attributed_by_pdev_or_render_node() {
    let cards = vec![card(0, "0000:00:02.0", Driver::I915, vec![128]), card(1, "0000:03:00.0", Driver::Xe, vec![129])];
    let mut table = ClientTable::new();
    record_descriptor(&mut table, &cards, parse_fdinfo(&chars(I915_FDINFO)).unwrap(), None);
    // Same client through a second descriptor: merged, not duplicated.
    record_descriptor(&mut table, &cards, parse_fdinfo(&chars(I915_FDINFO)).unwrap(), None);
    let no_pdev = "drm-driver: xe\ndrm-client-id: 3\ndrm-cycles-rcs: 10\ndrm-total-cycles-rcs: 20\n";
    record_descriptor(&mut table, &cards, parse_fdinfo(&chars(no_pdev)).unwrap(), Some(chars("/dev/dri/renderD129")));
    // Unattributable: no pdev and no link.
    record_descriptor(&mut table, &cards, parse_fdinfo(&chars(no_pdev)).unwrap(), None);
    // No client id.
    record_descriptor(&mut table, &cards, parse_fdinfo(&chars("drm-driver: xe\ndrm-pdev: 0000:03:00.0\n")).unwrap(), None);
    let igpu = table.clients(&chars("0000:00:02.0")).unwrap();
    assert_eq!(igpu.len(), 1);
    assert_eq!(igpu[0].0, 7);
    let dgpu = table.clients(&chars("0000:03:00.0")).unwrap();
    assert_eq!(dgpu.len(), 1);
    assert_eq!(dgpu[0].0, 3);
    assert!(table.clients(&chars("0000:04:00.0")).is_none());
}

#[test]
fn descriptor_order_does_not_change_client_counters() {
    let a = "drm-driver: i915\ndrm-pdev: 0000:00:02.0\ndrm-client-id: 9\ndrm-engine-render: 500 ns\ndrm-engine-video: 7 ns\n";
    let b = "drm-driver: i915\ndrm-pdev: 0000:00:02.0\ndrm-client-id: 9\ndrm-engine-render: 300 ns\ndrm-engine-copy: 4 ns\ndrm-memory-shared: 64\n";
    let mut ab = ClientTable::new();
    record_descriptor(&mut ab, &Vec::new(), parse_fdinfo(&chars(a)).unwrap(), None);
    record_descriptor(&mut ab, &Vec::new(), parse_fdinfo(&chars(b)).unwrap(), None);
    let mut ba = ClientTable::new();
    record_descriptor(&mut ba, &Vec::new(), parse_fdinfo(&chars(b)).unwrap(), None);
    record_descriptor(&mut ba, &Vec::new(), parse_fdinfo(&chars(a)).unwrap(), None);
    let x = &ab.clients(&chars("0000:00:02.0")).unwrap()[0].1;
    let y = &ba.clients(&chars("0000:00:02.0")).unwrap()[0].1;
    for engine in ["render", "video", "copy", "compute"] {
        assert_eq!(x.engines_ns.get(&chars(engine)), y.engines_ns.get(&chars(engine)));
    }
    assert_eq!(x.engines_ns.get(&chars("render")), Some(500));
    assert_eq!(x.engines_ns.get(&chars("copy")), Some(4));
    assert_eq!(x.shared_kib, 64);
    assert_eq!(y.shared_kib, 64);
}

fn one_client(pdev: &str, id: u64, lines: &str) -> ClientTable {
    let mut t = ClientTable::new();
    let content = format!("drm-driver: x\ndrm-pdev: {pdev}\ndrm-client-id: {id}\n{lines}");
    record_descriptor(&mut t, &Vec::new(), parse_fdinfo(&chars(&content)).unwrap(), None);
    t
}

#[test]
fn engine_deltas_between_scans() {
    let pci = chars("0000:00:02.0");
    let prev = one_client("0000:00:02.0", 1, "drm-engine-render: 1000\ndrm-engine-video: 500\n");
    let cur = one_client("0000:00:02.0", 1, "drm-engine-render: 4000\ndrm-engine-video: 400\ndrm-cycles-ccs: 30\ndrm-total-cycles-ccs: 60\n");
    let d = differ_engines(prev.clients(&pci), cur.clients(&pci), 1_000_000);
    let render = d.iter().find(|e| text(&e.key) == "render").unwrap();
    assert_eq!(render.busy_ns, 3000);
    assert_eq!(render.capacity, 1);
    let video = d.iter().find(|e| text(&e.key) == "video").unwrap();
    // Counters never go backwards in the result: a reset reads as zero.
    assert_eq!(video.busy_ns, 0);
    let ccs = d.iter().find(|e| text(&e.key) == "ccs").unwrap();
    assert_eq!(ccs.cycles, vec![(30, 60)]);
    assert_eq!(d.len(), 3);
    // No previous scan, no elapsed time: nothing.
    assert!(differ_engines(None, cur.clients(&pci), 1_000_000).is_empty());
    assert!(differ_engines(prev.clients(&pci), cur.clients(&pci), 0).is_empty());
    assert!(differ_engines(prev.clients(&pci), None, 5).is_empty());
}

#[test]
fn unchanged_scan_is_idle() {
    let pci = chars("0000:00:02.0");
    let mut t = one_client("0000:00:02.0", 1, "drm-engine-render: 1000\ndrm-cycles-ccs: 30\ndrm-total-cycles-ccs: 60\n");
    let more = "drm-driver: x\ndrm-pdev: 0000:00:02.0\ndrm-client-id: 2\ndrm-engine-video: 77\n";
    record_descriptor(&mut t, &Vec::new(), parse_fdinfo(&chars(more)).unwrap(), None);
    let d = differ_engines(t.clients(&pci), t.clients(&pci), 1_000_000);
    assert_eq!(d.len(), 2);
    for e in &d {
        assert_eq!(e.busy_ns, 0);
        assert!(e.cycles.is_empty());
    }
}

#[test]
fn xe_cycles_without_total_progress_do_not_count() {
    let pci = chars("p");
    let prev = one_client("p", 9, "drm-cycles-rcs: 10\ndrm-total-cycles-rcs: 100\n");
    let cur = one_client("p", 9, "drm-cycles-rcs: 50\ndrm-total-cycles-rcs: 100\n");
    assert!(differ_engines(prev.clients(&pci), cur.clients(&pci), 10).is_empty());
}

#[test]
fn client_memory_sums_clients() {
    let mut t = ClientTable::new();
    let a = "drm-driver: x\ndrm-pdev: p\ndrm-client-id: 1\ndrm-total-vram0: 1024 KiB\n";
    let b = "drm-driver: x\ndrm-pdev: p\ndrm-client-id: 2\ndrm-total-vram0: 3072 KiB\n";
    record_descriptor(&mut t, &Vec::new(), parse_fdinfo(&chars(a)).unwrap(), None);
    record_descriptor(&mut t, &Vec::new(), parse_fdinfo(&chars(b)).unwrap(), None);
    assert_eq!(client_memory(t.clients(&chars("p"))), (Some(4096), None));
    assert_eq!(client_memory(None), (None, None));
}

#[test]
fn uevent_identity() {
    let ue = "DRIVER=xe\nPCI_CLASS=30000\nPCI_ID=8086:E20B\nPCI_SLOT_NAME=0000:03:00.0\n";
    let id = parse_uevent(&chars(ue)).unwrap();
    assert_eq!(id.driver, Driver::Xe);
    assert_eq!(text(&id.pci), "0000:03:00.0");
    assert_eq!(text(&id.pci_id), "E20B");
    assert!(!id.integrated);
    let igpu = parse_uevent(&chars("DRIVER=i915\nPCI_SLOT_NAME=0000:00:02.0\nPCI_ID=8086:46A6\n")).unwrap();
    assert_eq!(igpu.driver, Driver::I915);
    assert!(igpu.integrated);
    assert!(parse_uevent(&chars("DRIVER=amdgpu\nPCI_SLOT_NAME=0000:01:00.0\n")).is_none());
    assert_eq!(text(&id.lookup_id), "e20b");
    assert_eq!(text(&igpu.lookup_id), "46a6");
    assert_eq!(text(&fallback_model(&id.pci_id)), "Intel GPU E20B");
}

const PCI_IDS: &str = "# pci.ids\n\
10de  NVIDIA Corporation\n\
\te20b  Not Intel\n\
8086  Intel Corporation\n\
\t46a6  Alder Lake-P GT2 [Iris Xe Graphics]\n\
# a comment inside the section\n\
\te20b  Battlemage G21 [Arc B580]\n\
\t\t8086 1100  Subsystem line\n\
8087  Intel Corp.\n\
\t0aaa  Elsewhere\n";

#[test]
fn pci_ids_lookup() {
    let name = lookup_pci_name(&chars(PCI_IDS), &chars("e20b")).unwrap();
    assert_eq!(text(&name), "Battlemage G21 [Arc B580]");
    assert_eq!(text(&lookup_pci_name(&chars(PCI_IDS), &chars("46a6")).unwrap()), "Alder Lake-P GT2 [Iris Xe Graphics]");
    assert!(lookup_pci_name(&chars(PCI_IDS), &chars("0aaa")).is_none());
    assert!(lookup_pci_name(&chars(PCI_IDS), &chars("ffff")).is_none());
}

#[test]
fn drm_entry_names() {
    assert_eq!(card_index(&chars("card3")), Some(3));
    assert_eq!(card_index(&chars("card0-DP-1")), None);
    assert_eq!(card_index(&chars("renderD128")), None);
    assert_eq!(render_minor(&chars("renderD128")), Some(128));
    assert_eq!(render_minor_of_link(&chars("/dev/dri/renderD129")), Some(129));
    assert_eq!(render_minor_of_link(&chars("/dev/dri/card0")), None);
}

#[test]
fn cards_sorted_and_minor_owner() {
    let cards = sort_cards(vec![
        card(3, "c", Driver::Xe, vec![130]),
        card(0, "a", Driver::I915, vec![128]),
        card(1, "b", Driver::Xe, vec![129, 130]),
    ]);
    let order: Vec<u32> = cards.iter().map(|c| c.index).collect();
    assert_eq!(order, vec![0, 1, 3]);
    assert_eq!(text(&pci_for_minor(&cards, 128).unwrap()), "a");
    // The last card listing a minor owns it.
    assert_eq!(text(&pci_for_minor(&cards, 130).unwrap()), "c");
    assert!(pci_for_minor(&cards, 131).is_none());
}

#[test]
fn cards_with_equal_numbers_keep_their_order() {
    let cards = sort_cards(vec![
        card(2, "x", Driver::Xe, vec![]),
        card(1, "first", Driver::I915, vec![]),
        card(2, "y", Driver::Xe, vec![]),
        card(1, "second", Driver::I915, vec![]),
    ]);
    let order: Vec<String> = cards.iter().map(|c| text(&c.pci)).collect();
    assert_eq!(order, vec!["first", "second", "x", "y"]);
}

#[test]
fn power_from_energy_counters() {
    let mut st = GpuState::new(vec![card(0, "p", Driver::Xe, vec![])], 0);
    assert_eq!(st.power_delta(&chars("p"), vec![1_000_000, 7], 1_000), None);
    assert_eq!(st.power_delta(&chars("p"), vec![3_000_000], 1_000_001_000), Some((2_000_000, 1_000_000_000)));
    // Counter wrapped: nothing, but remembered.
    assert_eq!(st.power_delta(&chars("p"), vec![5], 2_000_000_000), None);
    assert_eq!(st.power_delta(&chars("p"), vec![15], 3_000_000_000), Some((10, 1_000_000_000)));
    // No counter: nothing, and the last read stays.
    assert_eq!(st.power_delta(&chars("p"), vec![], 4_000_000_000), None);
    assert_eq!(st.power_delta(&chars("p"), vec![25], 5_000_000_000), Some((10, 2_000_000_000)));
    // No time passed.
    assert_eq!(st.power_delta(&chars("p"), vec![30], 5_000_000_000), None);
}

#[test]
fn xe_counter_warning_is_raised_once() {
    let mut st = GpuState::new(vec![card(0, "a", Driver::I915, vec![]), card(1, "b", Driver::Xe, vec![])], 0);
    st.note_engine_activity(0, true, true);
    assert!(st.take_warnings().is_empty());
    st.note_engine_activity(1, false, true);
    st.note_engine_activity(1, true, false);
    assert!(st.take_warnings().is_empty());
    st.note_engine_activity(1, true, true);
    st.note_engine_activity(1, true, true);
    let w = st.take_warnings();
    assert_eq!(w.len(), 1);
    assert!(w[0].contains("CAP_PERFMON"));
    assert!(st.take_warnings().is_empty());
}

#[test]
fn scans_are_kept_for_the_next_poll() {
    let mut st = GpuState::new(vec![card(0, "p", Driver::Xe, vec![])], 100);
    assert!(st.previous_clients(&chars("p")).is_none());
    assert_eq!(st.elapsed_since_scan(350), 250);
    st.finish_scan(one_client("p", 4, "drm-engine-rcs: 1\n"), 400);
    assert_eq!(st.previous_clients(&chars("p")).unwrap()[0].0, 4);
    assert!(st.previous_clients(&chars("q")).is_none());
    assert_eq!(st.elapsed_since_scan(1400), 1000);
    assert_eq!(st.elapsed_since_scan(10), 0);
    assert_eq!(st.cards().len(), 1);
}

#[test]
fn fan_labels() {
    assert_eq!(text(&fan_label(&chars("nct6799"), 0)), "nct6799 fan1");
    assert_eq!(text(&fan_label(&chars("asus"), 9)), "asus fan10");
}

#[test]
fn empty_counters() {
    let c = ClientCounters::new();
    assert_eq!(c.vram_kib, 0);
    assert!(c.engines_ns.pairs().is_empty());
}
