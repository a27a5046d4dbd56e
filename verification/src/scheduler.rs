//! The daily backup check, run at start-up and then every hour for every
//! registered database.
use crate::foreign::{local_today, CalendarDate};
use vstd::prelude::*;

verus! {

/// Whether a database needs today's backup: unless its newest daily backup
/// is from today.
pub fn backup_due(last_backup: Option<CalendarDate>, today: CalendarDate) -> (r: bool)
    ensures
        r == (last_backup != Some(today)),
{
    match last_backup {
        Some(d) => !(d.year == today.year && d.month == today.month && d.day == today.day),
        None => true,
    }
}

} // verus!

verus! {

/// Whether a database needs a backup now: unless its newest daily backup is
/// from today's date on the machine's clock.
pub fn backup_due_now(last_backup: Option<CalendarDate>) -> (r: bool)
    ensures
        exists|today: CalendarDate| 1 <= today.month <= 12 && 1 <= today.day <= 31 && r == (last_backup != Some(today)),
        last_backup is None ==> r,
{
    let today = local_today();
    backup_due(last_backup, today)
}

} // verus!
