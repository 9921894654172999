//! Page routing and captions of the dashboard.
use vstd::prelude::*;

use crate::collector::gpu::Driver;
use crate::text::{append, chars_of, decimal, decimal_of};

verus! {

/// Which page is visible.
#[derive(Clone, Copy, Debug, PartialEq, Eq, Structural)]
pub enum Tab {
    Summary,
    Cpu,
    Memory,
    Gpu(usize),
}

/// What the content area shows.
#[derive(Clone, Copy, Debug, PartialEq, Eq, Structural)]
pub enum Page {
    /// No sample has arrived yet.
    AwaitingSample,
    Summary,
    Cpu,
    Memory,
    /// The detail page of the GPU at this position.
    Gpu(usize),
    /// A GPU tab whose adapter is not (or no longer) present.
    NoGpu,
}

/// The page for `tab`, given how many GPUs the latest sample holds
/// (`None` before the first sample).
pub open spec fn page_for_spec(tab: Tab, gpu_count: Option<usize>) -> Page {
    match gpu_count {
        None => Page::AwaitingSample,
        Some(n) => match tab {
            Tab::Summary => Page::Summary,
            Tab::Cpu => Page::Cpu,
            Tab::Memory => Page::Memory,
            Tab::Gpu(i) => if i < n {
                Page::Gpu(i)
            } else {
                Page::NoGpu
            },
        },
    }
}

/// Routes the selected tab to a page.
pub fn page_for(tab: Tab, gpu_count: Option<usize>) -> (r: Page)
    ensures
        r == page_for_spec(tab, gpu_count),
{
    match gpu_count {
        None => Page::AwaitingSample,
        Some(n) => match tab {
            Tab::Summary => Page::Summary,
            Tab::Cpu => Page::Cpu,
            Tab::Memory => Page::Memory,
            Tab::Gpu(i) => if i < n {
                Page::Gpu(i)
            } else {
                Page::NoGpu
            },
        },
    }
}

/// The tag on a GPU card: driver and kind of adapter.
pub open spec fn adapter_tag_spec(driver: Driver, integrated: bool) -> Seq<char> {
    match (driver, integrated) {
        (Driver::I915, true) => "I915·IGPU"@,
        (Driver::I915, false) => "I915·DISCRETE"@,
        (Driver::Xe, true) => "XE·IGPU"@,
        (Driver::Xe, false) => "XE·DISCRETE"@,
    }
}

/// The tag shown on a GPU card ("XE·DISCRETE", ...).
pub fn adapter_tag(driver: Driver, integrated: bool) -> (r: &'static str)
    ensures
        r@ == adapter_tag_spec(driver, integrated),
{
    match (driver, integrated) {
        (Driver::I915, true) => "I915·IGPU",
        (Driver::I915, false) => "I915·DISCRETE",
        (Driver::Xe, true) => "XE·IGPU",
        (Driver::Xe, false) => "XE·DISCRETE",
    }
}

/// `n` in decimal, padded with a leading zero to at least two digits.
pub open spec fn two_digits(n: nat) -> Seq<char> {
    if n < 10 {
        seq!['0'] + decimal(n)
    } else {
        decimal(n)
    }
}

/// The header's status: time since start as minutes and seconds, then the
/// core and GPU counts of the latest sample.
pub open spec fn status_line_spec(up_secs: nat, cores: nat, gpus: nat) -> Seq<char> {
    "T+"@ + two_digits(up_secs / 60) + ":"@ + two_digits(up_secs % 60) + "  │  "@ + decimal(cores)
        + " CORES  │  "@ + decimal(gpus) + " GPU"@
}

fn append_two_digits(r: &mut Vec<char>, n: u64)
    ensures
        final(r)@ == old(r)@ + two_digits(n as nat),
{
    if n < 10 {
        r.push('0');
    }
    let ghost mid = r@;
    append(r, decimal_of(n).as_slice());
    proof {
        if n < 10 {
            assert(mid + decimal(n as nat) =~= old(r)@ + (seq!['0'] + decimal(n as nat)));
        }
    }
}

/// The status shown in the header, `up_secs` seconds after start
/// (`"T+02:05  │  16 CORES  │  1 GPU"`).
pub fn status_line(up_secs: u64, cores: usize, gpus: usize) -> (r: Vec<char>)
    ensures
        r@ == status_line_spec(up_secs as nat, cores as nat, gpus as nat),
{
    let mut r = chars_of("T+");
    append_two_digits(&mut r, up_secs / 60);
    append(&mut r, chars_of(":").as_slice());
    append_two_digits(&mut r, up_secs % 60);
    append(&mut r, chars_of("  │  ").as_slice());
    append(&mut r, decimal_of(cores as u64).as_slice());
    append(&mut r, chars_of(" CORES  │  ").as_slice());
    append(&mut r, decimal_of(gpus as u64).as_slice());
    append(&mut r, chars_of(" GPU").as_slice());
    r
}

} // verus!
