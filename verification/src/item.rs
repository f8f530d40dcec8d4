//! A stored record: who owns it and what it says.

use vstd::prelude::*;
use crate::principal::Principal;

verus! {

/// One record of the store: the owner's identity and the text it carries.
#[derive(Debug, PartialEq, Eq)]
pub struct Item {
    pub owner: Principal,
    pub content: String,
}

impl Clone for Item {
    fn clone(&self) -> (r: Self)
        ensures
            r@ == self@,
    {
        Item { owner: self.owner.clone(), content: self.content.clone() }
    }
}

/// The mathematical value of an [`Item`]: the owner's bytes and the
/// content's characters.
#[verifier::ext_equal]
pub struct ItemV {
    pub owner: Seq<u8>,
    pub content: Seq<char>,
}

impl View for Item {
    type V = ItemV;

    open spec fn view(&self) -> ItemV {
        ItemV { owner: self.owner@, content: self.content@ }
    }
}

impl Item {
    /// The owner fits the identity format.
    pub open spec fn wf(&self) -> bool {
        self.owner.wf()
    }

    pub fn new(owner: Principal, content: String) -> (r: Item)
        ensures
            r@ == (ItemV { owner: owner@, content: content@ }),
            owner.wf() ==> r.wf(),
    {
        Item { owner, content }
    }
}

} // verus!
