use vstd::prelude::*;

use crate::date::Date;

verus! {

/// A record that knows the calendar date it occurred on.
///
/// `date_of` names that date in contracts; `occurred_on` returns it.
pub trait Dated {
    /// The date the record occurred on.
    spec fn date_of(&self) -> Date;

    /// The date the record occurred on, a valid `Date`.
    fn occurred_on(&self) -> (r: Date)
        ensures
            r == self.date_of(),
            r.wf(),
    ;
}

} // verus!
