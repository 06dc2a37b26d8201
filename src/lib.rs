//! Buckets dated records into contiguous calendar periods (week, month,
//! quarter, year), keyed by the first day of each period.
use vstd::prelude::*;

pub mod date;
pub mod dated;
pub mod grouped;
pub mod period;

pub use crate::date::Date;
pub use crate::dated::Dated;
pub use crate::grouped::GroupedByPeriod;
pub use crate::period::{Month, Period, Quarter, Week, Year};

verus! {

pub type GroupedByWeek<T> = GroupedByPeriod<T, Week>;

pub type GroupedByMonth<T> = GroupedByPeriod<T, Month>;

pub type GroupedByQuarter<T> = GroupedByPeriod<T, Quarter>;

pub type GroupedByYear<T> = GroupedByPeriod<T, Year>;

} // verus!
