//! Shared record shapes the scan produces and the tools read.

use vstd::prelude::*;

verus! {

/// Which blueprint activity yields a product. Manufacturing and reaction are
/// the two activities with `products`, and no product comes out of both.
#[derive(Clone, Copy, Debug, PartialEq, Eq, Structural)]
pub enum Activity {
    Manufacturing,
    Reaction,
}

/// The wire name of an activity.
pub open spec fn activity_name(a: Activity) -> Seq<char> {
    match a {
        Activity::Manufacturing => "manufacturing"@,
        Activity::Reaction => "reaction"@,
    }
}

impl Activity {
    /// `manufacturing` or `reaction`.
    pub fn as_str(self) -> (s: &'static str)
        ensures
            s@ == activity_name(self),
    {
        match self {
            Activity::Manufacturing => "manufacturing",
            Activity::Reaction => "reaction",
        }
    }
}

/// A product's source blueprint and the activity that produces it: the value
/// side of the product-to-blueprint reverse map.
#[derive(Clone, Copy, Debug, PartialEq, Eq, Structural)]
pub struct BlueprintRef {
    pub blueprint_id: u64,
    pub activity: Activity,
}

} // verus!
