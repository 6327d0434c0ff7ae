//! The recurrence rules tasks carry. Reading a rule and rolling it forward
//! is the domain calendar's work; the application only asks. What the
//! calendar answers is a function of what it is asked.

use vstd::prelude::*;

use crate::domain::{Date, When};
use crate::ports::Text;

verus! {

/// Reads recurrence rules and rolls them forward.
pub trait Calendar {
    /// Whether `rule` reads as a recurrence rule.
    spec fn rule_reads(&self, rule: Text) -> bool;

    /// Why `rule` does not read as a recurrence rule.
    spec fn rule_error(&self, rule: Text) -> Text;

    /// The next due date of a task that recurs by `rule`, was due at `from`
    /// and is completed `today`; none when the rule does not read or recurs
    /// no more.
    spec fn next_after(&self, rule: Text, from: When, today: Date) -> Option<Date>;

    /// Whether `rule` reads as a recurrence rule; why not, when it does not.
    fn check_rule(&self, rule: &str) -> (r: Result<(), String>)
        ensures
            r is Ok <==> self.rule_reads(rule@),
            r matches Err(why) ==> why@ == self.rule_error(rule@),
    ;

    /// The next due date of a task that recurs by `rule`, was due at `from`
    /// and is completed `today`; none when the rule does not read or recurs
    /// no more.
    fn next_due(&self, rule: &str, from: When, today: Date) -> (r: Option<Date>)
        ensures
            r == self.next_after(rule@, from, today),
    ;
}

} // verus!
