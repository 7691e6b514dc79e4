//! Where a line goes, by the attention that it deserves.
use vstd::prelude::*;

use crate::judge::Verdict;
use crate::order::Score;

verus! {

/// Where a line goes.
#[derive(Debug, Clone, Copy, PartialEq, Eq, Hash, Structural)]
pub enum Route {
    Page,
    Ticket,
    Log,
}

impl Route {
    /// How urgent the route is.
    pub open spec fn urgency(self) -> int {
        match self {
            Route::Page => 2,
            Route::Ticket => 1,
            Route::Log => 0,
        }
    }
}

/// The attention that it takes to page, or to open a ticket.
#[derive(Debug, Clone, Copy)]
pub struct Thresholds {
    pub page: Score,
    pub ticket: Score,
}

impl Default for Thresholds {
    /// Pages from 0.75 on, and opens tickets from 0.5 on.
    fn default() -> (thresholds: Thresholds)
        ensures
            thresholds.page.bits == 0x3f40_0000,
            thresholds.ticket.bits == 0x3f00_0000,
    {
        Thresholds { page: Score { bits: 0x3f40_0000 }, ticket: Score { bits: 0x3f00_0000 } }
    }
}

/// The route of a line with the attention `attention`.
pub open spec fn route_of(thresholds: Thresholds, attention: Score) -> Route {
    if attention.reaches(thresholds.page) {
        Route::Page
    } else if attention.reaches(thresholds.ticket) {
        Route::Ticket
    } else {
        Route::Log
    }
}

impl Thresholds {
    /// The route of a line with the verdict `verdict`.
    pub fn route(&self, verdict: &Verdict) -> (route: Route)
        ensures
            route == route_of(*self, verdict@.attention),
    {
        if verdict.attention().at_least(self.page) {
            Route::Page
        } else if verdict.attention().at_least(self.ticket) {
            Route::Ticket
        } else {
            Route::Log
        }
    }
}

/// More attention never makes a route less urgent.
pub proof fn law_attention_raises_urgency(thresholds: Thresholds, less: Score, more: Score)
    requires
        more.reaches(less),
    ensures
        route_of(thresholds, more).urgency() >= route_of(thresholds, less).urgency(),
{
}

/// An attention that is no number goes to the log.
pub proof fn law_no_number_is_logged(thresholds: Thresholds, attention: Score)
    requires
        attention.nan(),
    ensures
        route_of(thresholds, attention) == Route::Log,
{
}

/// The configured thresholds decide, whatever they are: a line pages exactly
/// from the page threshold on, and below it a ticket is opened exactly from the
/// ticket threshold on.
pub proof fn law_thresholds_decide_the_route(thresholds: Thresholds, attention: Score)
    requires
        !thresholds.page.nan(),
        !thresholds.ticket.nan(),
        !attention.nan(),
    ensures
        route_of(thresholds, attention) == Route::Page <==> attention.rank()
            >= thresholds.page.rank(),
        route_of(thresholds, attention) == Route::Ticket <==> thresholds.ticket.rank()
            <= attention.rank() < thresholds.page.rank(),
        route_of(thresholds, attention) == Route::Log <==> attention.rank()
            < thresholds.page.rank() && attention.rank() < thresholds.ticket.rank(),
{
}

/// A line with just the attention of a threshold gets what the threshold is for,
/// and a threshold that is no number is never reached.
pub proof fn law_thresholds_are_inclusive(thresholds: Thresholds)
    ensures
        !thresholds.page.nan() ==> route_of(thresholds, thresholds.page) == Route::Page,
        !thresholds.ticket.nan() ==> route_of(thresholds, thresholds.ticket) != Route::Log,
        thresholds.page.nan() ==> forall|a: Score| #[trigger]
            route_of(thresholds, a) != Route::Page,
        thresholds.ticket.nan() ==> forall|a: Score| #[trigger]
            route_of(thresholds, a) != Route::Ticket,
{
}

/// Lower thresholds never make a route less urgent.
pub proof fn law_lower_thresholds_raise_urgency(
    low: Thresholds,
    high: Thresholds,
    attention: Score,
)
    requires
        high.page.reaches(low.page),
        high.ticket.reaches(low.ticket),
    ensures
        route_of(low, attention).urgency() >= route_of(high, attention).urgency(),
        route_of(high, attention) == Route::Page ==> route_of(low, attention) == Route::Page,
        route_of(low, attention) == Route::Log ==> route_of(high, attention) == Route::Log,
{
}

} // verus!
