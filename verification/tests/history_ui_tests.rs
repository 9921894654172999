use arcanum::collector::gpu::Driver;
use arcanum::history::{Window, CAPACITY};
use arcanum::ui::{adapter_tag, page_for, status_line, Page, Tab};

#[test]
fn window_keeps_newest_points() {
    let mut w: Window<u32> = Window::new();
    assert_eq!(w.len(), 0);
    for i in 0..(CAPACITY as u32 + 5) {
        w.push(i);
    }
    assert_eq!(w.len(), CAPACITY);
    let all = w.tail(usize::MAX);
    assert_eq!(all.len(), CAPACITY);
    assert_eq!(all[0], 5);
    assert_eq!(*all.last().unwrap(), CAPACITY as u32 + 4);
    assert_eq!(w.tail(3), vec![CAPACITY as u32 + 2, CAPACITY as u32 + 3, CAPACITY as u32 + 4]);
    assert!(w.tail(0).is_empty());
}

#[test]
fn short_window_tail() {
    let mut w: Window<(i64, i64)> = Window::new();
    w.push((0, 1));
    w.push((1, 2));
    assert_eq!(w.tail(600), vec![(0, 1), (1, 2)]);
}

#[test]
fn tab_routing() {
    assert_eq!(page_for(Tab::Cpu, None), Page::AwaitingSample);
    assert_eq!(page_for(Tab::Summary, Some(0)), Page::Summary);
    assert_eq!(page_for(Tab::Memory, Some(2)), Page::Memory);
    assert_eq!(page_for(Tab::Gpu(1), Some(2)), Page::Gpu(1));
    assert_eq!(page_for(Tab::Gpu(2), Some(2)), Page::NoGpu);
}

#[test]
fn adapter_tags() {
    assert_eq!(adapter_tag(Driver::I915, true), "I915·IGPU");
    assert_eq!(adapter_tag(Driver::I915, false), "I915·DISCRETE");
    assert_eq!(adapter_tag(Driver::Xe, true), "XE·IGPU");
    assert_eq!(adapter_tag(Driver::Xe, false), "XE·DISCRETE");
    assert_eq!(Driver::Xe.as_str(), "xe");
}

fn text(v: Vec<char>) -> String {
    v.into_iter().collect()
}

#[test]
fn status_line_pads_minutes_and_seconds() {
    assert_eq!(text(status_line(125, 16, 1)), "T+02:05  │  16 CORES  │  1 GPU");
    assert_eq!(text(status_line(0, 4, 0)), "T+00:00  │  4 CORES  │  0 GPU");
    assert_eq!(text(status_line(59, 8, 2)), "T+00:59  │  8 CORES  │  2 GPU");
    // minutes are not wrapped into hours
    assert_eq!(text(status_line(6000, 12, 1)), "T+100:00  │  12 CORES  │  1 GPU");
}
