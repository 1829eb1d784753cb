//! Budget profiles: named instantiations with a RAM budget.
//!
//! The device's own storage (e.g. a RAM disk or flash region) is extra.

use vstd::prelude::*;

use crate::db::scan::Scan;
use crate::db::Db;
use crate::device::BlockDevice;

verus! {

/// ESP32-S3 profile: the [`Db`] instantiation for 4 KiB SPI-flash sectors.
///
/// Keys to 32 bytes, values to 64, a 16-entry memtable over a 2 KiB arena,
/// 4 levels of up to 4 tables each, a 2-slot block cache. A block of 4096
/// bytes is the SPI flash sector size, required by
/// [`FlashBlockDevice`](crate::flash::FlashBlockDevice).
pub type Esp32S3Db<D> = Db<D, 4096, 32, 64, 16, 2048, 4, 4, 64, 2>;

/// [`Scan`] instantiated for the ESP32-S3 profile.
pub type Esp32S3Scan = Scan<4096, 32, 64, 4, 4>;

/// [`Compaction`](crate::compact::Compaction) scratch instantiated for the
/// ESP32-S3 profile.
pub type Esp32S3Compaction = crate::compact::merge::Compaction<4096, 32, 64, 64>;

/// RAM budget for the ESP32-S3 profile, in bytes: the figure that a board
/// sets aside for one [`Db`], one [`Scan`] and one compaction scratch, plus
/// the largest set of calls that can be live at once.
///
/// It is a figure to plan by: the types together stay below it, and leave
/// room for the calls.
pub const ESP32S3_RAM_BUDGET: usize = 114_688;

/// The profile's parameters are valid for a device of 4 KiB blocks: a
/// handle of it can be made.
pub proof fn law_profile_admitted<D: BlockDevice>()
    requires
        D::BLOCK == 4096,
    ensures
        Esp32S3Db::<D>::shape(),
{
}

} // verus!
