use vstd::prelude::*;

verus! {

/// Corner of a tray where the first row and column start.
#[derive(Debug, Clone, Copy, PartialEq, Eq, Structural)]
pub enum TrayOrigin {
    TopLeft,
    TopRight,
    BottomLeft,
    BottomRight,
}

/// Default number of retries of a feeder operation.
pub fn default_retry_count() -> (n: u32)
    ensures
        n == 3,
{
    3
}

/// Trays are counted from the top left unless configured otherwise.
pub fn default_tray_origin() -> (o: TrayOrigin)
    ensures
        o == TrayOrigin::TopLeft,
{
    TrayOrigin::TopLeft
}

} // verus!
