//! Data collection: everything the dashboard computes from what the
//! kernel exposes, between two polls.
use vstd::prelude::*;

pub mod counts;
pub mod fdinfo;
pub mod engines;
pub mod gpu;
pub mod hwmon;
pub mod cpu;
pub mod memory;

verus! {

/// The notice shown when RAPL refuses to be read.
pub open spec fn rapl_warning() -> Seq<char> {
    "CPU package power unavailable: RAPL energy counters require root. See scripts/setup-permissions.sh"@
}

/// The notices of one poll: the GPU collector's, then the RAPL notice
/// when reading the package energy was refused.
pub fn poll_warnings(gpu: Vec<String>, rapl_denied: bool) -> (r: Vec<String>)
    ensures
        gpu::texts(r@) == if rapl_denied {
            gpu::texts(gpu@).push(rapl_warning())
        } else {
            gpu::texts(gpu@)
        },
{
    let mut w = gpu;
    if rapl_denied {
        let ghost before = w@;
        w.push("CPU package power unavailable: RAPL energy counters require root. See scripts/setup-permissions.sh".to_owned());
        assert(gpu::texts(w@) =~= gpu::texts(before).push(rapl_warning()));
    }
    w
}

} // verus!
