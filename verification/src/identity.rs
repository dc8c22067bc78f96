//! Identities of scopes, symbols and values, and the supply they are taken from.

use vstd::prelude::*;

verus! {

/// Whether `id` has the shape of a random (version 4) UUID: the four version bits hold 4
/// and the two variant bits hold binary 10.
pub open spec fn is_random_uuid(id: u128) -> bool {
    id & 0xF000_C000_0000_0000_0000u128 == 0x4000_8000_0000_0000_0000u128
}

/// Whether every identity of `ids` has the shape of a random UUID.
pub open spec fn all_random(ids: Seq<u128>) -> bool {
    forall|i: int| 0 <= i < ids.len() ==> is_random_uuid(#[trigger] ids[i])
}

/// No random UUID is as small as the fixed identities of the primitive types and of the
/// scopes that every analyzer starts with.
pub proof fn lemma_random_uuid_is_large(id: u128)
    requires
        is_random_uuid(id),
    ensures
        id >= 0x4000_8000_0000_0000_0000u128,
{
    assert(id & 0xF000_C000_0000_0000_0000u128 == 0x4000_8000_0000_0000_0000u128 ==> id
        >= 0x4000_8000_0000_0000_0000u128) by (bit_vector);
}

/// A fresh identity: the 128 bits of a random (version 4) UUID, from `uuid::Uuid::new_v4`
/// and `uuid::Uuid::as_u128`. The bits come from the operating system's random number
/// generator, but for those of the version and the variant, which `new_v4` sets; so
/// nothing else is claimed of them, and two calls may give the same identity, however
/// unlikely that is. Where the operating system cannot give random bytes, `new_v4`
/// panics.
#[verifier::external_body]
pub(crate) fn random_identity() -> (id: u128)
    ensures
        is_random_uuid(id),
{
    uuid::Uuid::new_v4().as_u128()
}

/// A supply of identities, handed out in order.
///
/// Analysis and evaluation take every identity they need from such a supply, so that what
/// they compute is a function of their input and of the identities supplied.
pub struct Identities {
    ids: Vec<u128>,
    next: usize,
}

impl View for Identities {
    type V = Seq<u128>;

    /// The identities that are left, in the order in which they will be handed out.
    closed spec fn view(&self) -> Seq<u128> {
        self.ids@.skip(self.next as int)
    }
}

impl Identities {
    #[verifier::type_invariant]
    spec fn within(&self) -> bool {
        self.next <= self.ids@.len()
    }

    /// A supply that hands out `ids`, first to last.
    pub fn new(ids: Vec<u128>) -> (supply: Identities)
        ensures
            supply@ == ids@,
    {
        proof {
            assert(ids@.skip(0) =~= ids@);
        }
        Identities { ids, next: 0 }
    }

    /// A supply of `count` freshly drawn random identities.
    pub fn draw(count: usize) -> (supply: Identities)
        ensures
            supply@.len() == count,
            all_random(supply@),
    {
        let mut ids: Vec<u128> = Vec::new();
        while ids.len() < count
            invariant
                ids@.len() <= count,
                all_random(ids@),
            decreases count - ids@.len(),
        {
            ids.push(random_identity());
        }
        Identities::new(ids)
    }

    /// The number of identities that are left.
    pub fn remaining(&self) -> (count: usize)
        ensures
            count == self@.len(),
    {
        proof {
            use_type_invariant(self);
        }
        self.ids.len() - self.next
    }

    /// Hands out the next identity, or `None` if none is left.
    pub fn take(&mut self) -> (id: Option<u128>)
        ensures
            old(self)@.len() == 0 ==> id is None && final(self)@ == old(self)@,
            old(self)@.len() > 0 ==> id == Some(old(self)@[0]) && final(self)@ == old(
                self,
            )@.drop_first(),
    {
        proof {
            use_type_invariant(&*self);
        }
        if self.next < self.ids.len() {
            let id = self.ids[self.next];
            proof {
                assert(self.ids@.skip(self.next as int).drop_first() =~= self.ids@.skip(
                    self.next as int + 1,
                ));
            }
            self.next = self.next + 1;
            Some(id)
        } else {
            None
        }
    }
}

} // verus!
