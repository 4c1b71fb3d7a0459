use vstd::prelude::*;

verus! {

/// How the receipt time of each ingested line is written.
pub const RECEIPT_TIME_FORMAT: &'static str = "%Y-%m-%d %H:%M:%S%.3f";

/// How the time embedded in an export file name is written; it sorts as it reads.
pub const FILE_TIME_FORMAT: &'static str = "%Y-%m-%d %H-%M-%S";

pub open spec fn is_known_time_format(fmt: Seq<char>) -> bool {
    fmt == RECEIPT_TIME_FORMAT@ || fmt == FILE_TIME_FORMAT@
}

/// The text chrono's `format` writes for the local date and time `t`, given as year,
/// month, day, hour, minute, second and nanosecond, with the format `fmt`.
pub uninterp spec fn chrono_text(t: (int, int, int, int, int, int, int), fmt: Seq<char>) -> Seq<
    char,
>;

/// Relies on chrono's `Local::now` and `DateTime::format`: the local date and time now,
/// written with `fmt`. Writing it out fails only for a malformed format, which the two
/// admitted formats are not. Which date and time it is depends on the clock.
#[verifier::external_body]
pub(crate) fn local_now_formatted(fmt: &str) -> (r: String)
    requires
        is_known_time_format(fmt@),
    ensures
        exists|t: (int, int, int, int, int, int, int)| r@ == chrono_text(t, fmt@),
{
    chrono::Local::now().format(fmt).to_string()
}

} // verus!
