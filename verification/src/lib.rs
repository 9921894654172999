//! Verified core of arcanum, a live hardware dashboard for Intel graphics.
//!
//! The library holds everything the dashboard decides from the text that
//! the kernel exposes (`/proc/stat`, `/proc/meminfo`, hwmon and DRM sysfs
//! attributes, DRM `fdinfo`, `pci.ids`) and from the counters it keeps
//! between two polls. Reading files, sleeping, drawing and every
//! floating-point conversion live outside it.

pub mod collector;
pub mod history;
pub mod order;
pub mod text;
pub mod ui;
