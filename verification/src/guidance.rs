//! Where an agent should go next after a `sde_find_types` answer it is likely
//! to misread: an attribute predicate that matched nothing, or a truncated page.

use vstd::prelude::*;
use crate::text::{decimal, push_decimal, push_str};

verus! {


/// The predicates that can stand alone, as the messages name them.
pub open spec fn standalone_text() -> Seq<char> {
    "attribute {id, op?, value?}, group_ids, category_ids, type_ids"@
}

/// The predicates that can stand alone.
pub fn standalone() -> (s: &'static str)
    ensures
        s@ == standalone_text(),
{
    "attribute {id, op?, value?}, group_ids, category_ids, type_ids"
}

/// The predicates that only narrow a candidate set, as the messages name them.
pub open spec fn narrow_only_text() -> Seq<char> {
    "meta_group_ids, published_only and query"@
}

/// The predicates that only narrow a candidate set.
pub fn narrow_only() -> (s: &'static str)
    ensures
        s@ == narrow_only_text(),
{
    "meta_group_ids, published_only and query"
}

/// The message for an attribute `recorded` Types carry, none of which the rest
/// of the call admitted; `modifies` adds the pointer to `sde_get_modifiers`.
pub open spec fn over_narrowed_text(recorded: int, attr: u64, modifies: bool) -> Seq<char> {
    decimal(recorded as nat)
        + " Types record an ExplicitValue for attribute "@
        + decimal(attr as nat)
        + ", but none of them satisfied the rest of this call \u{2014} the attribute ID is not the problem. Relax the predicates before concluding the SDE has no answer: the op/value comparison first, then "@
        + narrow_only_text()
        + ", then any "@
        + standalone_text()
        + " you combined with it. Types with no ExplicitValue are absent by design; they still HAVE the attribute at its DefaultValue, which this tool never matches on."@
        + if modifies {
            " Something in the SDE also MODIFIES this attribute, so if you meant 'what boosts "@
        + decimal(attr as nat)
        + "' rather than 'what carries "@
        + decimal(attr as nat)
        + "', call sde_get_modifiers with attribute_id "@
        + decimal(attr as nat)
        + "."@
        } else {
            Seq::empty()
        }
}

/// The message for an attribute no Type records.
pub open spec fn unrecorded_text(attr: u64, modifies: bool) -> Seq<char> {
    if modifies {
        "No Type records an ExplicitValue for attribute "@
        + decimal(attr as nat)
        + ". Every Type still HAS it at its DefaultValue \u{2014} this tool matches stored rows only. Something in the SDE does MODIFY this attribute, so if you meant 'what boosts "@
        + decimal(attr as nat)
        + "' rather than 'what carries "@
        + decimal(attr as nat)
        + "', call sde_get_modifiers with attribute_id "@
        + decimal(attr as nat)
        + "."@
    } else {
        "No Type records an ExplicitValue for attribute "@
        + decimal(attr as nat)
        + ", and nothing in the SDE modifies it either. Every Type still HAS it at its DefaultValue \u{2014} this tool matches stored rows only. Check the attribute is the one you meant with sde_search_dogma."@
    }
}

/// The message for a truncated page of `total` matches.
pub open spec fn truncated_text(total: int) -> Seq<char> {
    decimal(total as nat)
        + " Types matched and only the first page is returned; raising limit alone will not make this cheap. The `groups` rollup below counts the full match set, not this page, so it is the axis to narrow on: re-ask naming the Groups you want. Any of "@
        + standalone_text()
        + " can carry the query; "@
        + narrow_only_text()
        + " narrow it further, and project_attributes keeps rows small when you do need many of them. There is no offset \u{2014} narrow the predicate rather than paging."@
}

/// The guidance a `sde_find_types` answer carries: for an attribute predicate
/// that matched nothing, whether the attribute is recorded at all and whether
/// something modifies it; for a truncated page, how to narrow; otherwise none.
pub open spec fn guidance_text(attribute_id: Option<u64>, recorded: int, total: int, truncated: bool, modifies: bool) -> Option<Seq<char>> {
    match attribute_id {
        Some(attr) if total == 0 => if recorded > 0 {
            Some(over_narrowed_text(recorded, attr, modifies))
        } else {
            Some(unrecorded_text(attr, modifies))
        },
        _ => if truncated { Some(truncated_text(total)) } else { None },
    }
}

/// The guidance for a `sde_find_types` answer. `recorded` is how many Types
/// record an ExplicitValue for the attribute at all; `anything_modifies` says
/// whether something modifies an attribute, and is asked only about the
/// attribute of an empty answer.
pub fn guidance_for<F: Fn(u64) -> bool>(attribute_id: Option<u64>, recorded: usize, total_matched: usize, truncated: bool, anything_modifies: F)
    -> (r: Option<String>)
    requires
        forall|a: u64| call_requires(anything_modifies, (a,)),
    ensures
        match attribute_id {
            Some(attr) if total_matched == 0 => exists|m: bool| call_ensures(anything_modifies, (attr,), m)
                && (r matches Some(s) && Some(s@) == guidance_text(attribute_id, recorded as int, total_matched as int, truncated, m)),
            _ => match r {
                Some(s) => guidance_text(attribute_id, recorded as int, total_matched as int, truncated, false) == Some(s@),
                None => guidance_text(attribute_id, recorded as int, total_matched as int, truncated, false) is None,
            },
        },
{
    if let Some(attr) = attribute_id {
        if total_matched == 0 {
            let m = anything_modifies(attr);
            let mut s = String::new();
            if recorded > 0 {
                push_decimal(&mut s, recorded as u64);
                push_str(&mut s, " Types record an ExplicitValue for attribute ");
                push_decimal(&mut s, attr);
                push_str(&mut s, ", but none of them satisfied the rest of this call \u{2014} the attribute ID is not the problem. Relax the predicates before concluding the SDE has no answer: the op/value comparison first, then ");
                push_str(&mut s, narrow_only());
                push_str(&mut s, ", then any ");
                push_str(&mut s, standalone());
                push_str(&mut s, " you combined with it. Types with no ExplicitValue are absent by design; they still HAVE the attribute at its DefaultValue, which this tool never matches on.");
                if m {
                    push_str(&mut s, " Something in the SDE also MODIFIES this attribute, so if you meant 'what boosts ");
                    push_decimal(&mut s, attr);
                    push_str(&mut s, "' rather than 'what carries ");
                    push_decimal(&mut s, attr);
                    push_str(&mut s, "', call sde_get_modifiers with attribute_id ");
                    push_decimal(&mut s, attr);
                    push_str(&mut s, ".");
                }
            } else if m {
                push_str(&mut s, "No Type records an ExplicitValue for attribute ");
                push_decimal(&mut s, attr);
                push_str(&mut s, ". Every Type still HAS it at its DefaultValue \u{2014} this tool matches stored rows only. Something in the SDE does MODIFY this attribute, so if you meant 'what boosts ");
                push_decimal(&mut s, attr);
                push_str(&mut s, "' rather than 'what carries ");
                push_decimal(&mut s, attr);
                push_str(&mut s, "', call sde_get_modifiers with attribute_id ");
                push_decimal(&mut s, attr);
                push_str(&mut s, ".");
            } else {
                push_str(&mut s, "No Type records an ExplicitValue for attribute ");
                push_decimal(&mut s, attr);
                push_str(&mut s, ", and nothing in the SDE modifies it either. Every Type still HAS it at its DefaultValue \u{2014} this tool matches stored rows only. Check the attribute is the one you meant with sde_search_dogma.");
            }
            return Some(s);
        }
    }
    if truncated {
        let mut s = String::new();
        push_decimal(&mut s, total_matched as u64);
        push_str(&mut s, " Types matched and only the first page is returned; raising limit alone will not make this cheap. The `groups` rollup below counts the full match set, not this page, so it is the axis to narrow on: re-ask naming the Groups you want. Any of ");
        push_str(&mut s, standalone());
        push_str(&mut s, " can carry the query; ");
        push_str(&mut s, narrow_only());
        push_str(&mut s, " narrow it further, and project_attributes keeps rows small when you do need many of them. There is no offset \u{2014} narrow the predicate rather than paging.");
        return Some(s);
    }
    None
}

} // verus!
