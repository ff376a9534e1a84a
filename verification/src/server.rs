//! What the server decides when a save is registered or brought up to date.

use crate::saves::{
    complete, enable_bool, extends, fact, has_bool_enabled, is_allowed_to_override,
    is_valid_number_of_keys, Packed, KEYS_COUNT,
};
use vstd::prelude::*;

verus! {

/// A request for a key to register saves with.
#[derive(Debug, PartialEq, Eq)]
pub struct AuthRequest {
    pub name: Option<String>,
}

/// A user as the server keeps it.
#[derive(Debug, PartialEq, Eq)]
pub struct User {
    pub name: Option<String>,
}

impl User {
    /// A user of that name.
    pub fn new(name: Option<String>) -> (user: Self)
        ensures
            user.name == name,
    {
        User { name }
    }
}

/// Why a save that was sent is not taken.
#[derive(Debug, Clone, Copy, PartialEq, Eq, Structural)]
pub enum Refusal {
    /// The save does not hold the valid number of keys.
    InvalidSave,
    /// The number of the fact is beyond the last key.
    NumTooBig,
    /// No save is registered under the id.
    NotFound,
    /// The save is registered to another user.
    Unauthorized,
    /// What was sent changes nothing.
    NotModified,
    /// The save that was sent lacks keys of the registered one.
    RemovesKeys,
}

/// Whether `new` may take the place of a registered save: of the save
/// `stored`, if there is one, and of a user who is its owner or not.
pub open spec fn update_verdict(new: Seq<u8>, stored: Option<(Seq<u8>, bool)>) -> Result<
    (),
    Refusal,
> {
    if !complete(new) {
        Err(Refusal::InvalidSave)
    } else {
        match stored {
            None => Err(Refusal::NotFound),
            Some((current, is_owner)) => if !is_owner {
                Err(Refusal::Unauthorized)
            } else if current == new {
                Err(Refusal::NotModified)
            } else if !extends(current, new) {
                Err(Refusal::RemovesKeys)
            } else {
                Ok(())
            },
        }
    }
}

/// Whether two saves hold the same units.
fn same_save(a: &[Packed], b: &[Packed]) -> (same: bool)
    ensures
        same == (a@ == b@),
{
    if a.len() != b.len() {
        return false;
    }
    let mut i: usize = 0;
    while i < a.len()
        invariant
            i <= a@.len(),
            a@.len() == b@.len(),
            forall|j: int| 0 <= j < i ==> a@[j] == b@[j],
        decreases a@.len() - i,
    {
        if a[i] != b[i] {
            return false;
        }
        i = i + 1;
    }
    proof {
        assert(a@ =~= b@);
    }
    true
}

/// Decides whether the save `new` may take the place of the registered one.
/// `stored` holds the registered save and whether the sender owns it, where
/// a save is registered under the id at all.
pub fn check_update(new: &[Packed], stored: Option<(&[Packed], bool)>) -> (verdict: Result<
    (),
    Refusal,
>)
    ensures
        verdict == update_verdict(new@, stored_view(stored)),
{
    if !is_valid_number_of_keys(new) {
        return Err(Refusal::InvalidSave);
    }
    let (current, is_owner) = match stored {
        Some(stored) => stored,
        None => {
            return Err(Refusal::NotFound);
        },
    };
    if !is_owner {
        return Err(Refusal::Unauthorized);
    }
    if same_save(current, new) {
        return Err(Refusal::NotModified);
    }
    if !is_allowed_to_override(current, new) {
        return Err(Refusal::RemovesKeys);
    }
    Ok(())
}

/// Whether fact `num` may be set in a registered save: in the save `stored`,
/// if there is one, and by a user who is its owner or not.
pub open spec fn fact_verdict(num: int, stored: Option<(Seq<u8>, bool)>) -> Result<(), Refusal> {
    if num >= KEYS_COUNT {
        Err(Refusal::NumTooBig)
    } else {
        match stored {
            None => Err(Refusal::NotFound),
            Some((current, is_owner)) => if !is_owner {
                Err(Refusal::Unauthorized)
            } else if fact(current, num) {
                Err(Refusal::NotModified)
            } else {
                Ok(())
            },
        }
    }
}

/// What is stored, as the decisions read it.
pub open spec fn stored_view(stored: Option<(&[Packed], bool)>) -> Option<(Seq<u8>, bool)> {
    match stored {
        Some((current, is_owner)) => Some((current@, is_owner)),
        None => None,
    }
}

/// Decides whether fact `num` may be set in the registered save, and gives
/// the save with the fact set where it may.
pub fn check_fact_update(num: usize, stored: Option<(&[Packed], bool)>) -> (verdict: Result<
    Vec<Packed>,
    Refusal,
>)
    requires
        stored matches Some((current, _)) ==> complete(current@),
    ensures
        match verdict {
            Ok(save) => {
                &&& fact_verdict(num as int, stored_view(stored)) is Ok
                &&& save@.len() == stored->Some_0.0@.len()
                &&& forall|k: int|
                    0 <= k < 8 * save@.len() ==> #[trigger] fact(save@, k) == (fact(
                        stored->Some_0.0@,
                        k,
                    ) || k == num)
            },
            Err(refusal) => fact_verdict(num as int, stored_view(stored)) == Err::<(), _>(refusal),
        },
{
    if num >= KEYS_COUNT {
        return Err(Refusal::NumTooBig);
    }
    let (current, is_owner) = match stored {
        Some(stored) => stored,
        None => {
            return Err(Refusal::NotFound);
        },
    };
    if !is_owner {
        return Err(Refusal::Unauthorized);
    }
    if has_bool_enabled(current, num) {
        return Err(Refusal::NotModified);
    }
    Ok(enable_bool(current, num))
}

} // verus!
