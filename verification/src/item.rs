//! The tournament entrant: a named, described item, with its ghost model.
use vstd::prelude::*;

verus! {

/// Mathematical model of an [`Item`]: the two string fields as character
/// sequences. Contracts all over the crate speak in terms of this model.
pub ghost struct ItemModel {
    pub name: Seq<char>,
    pub description: Seq<char>,
}

/// A tournament entrant. Immutable once created; identity is by value, and
/// duplicates are permitted and treated as distinct entries.
#[derive(Debug)]
pub struct Item {
    pub name: String,
    pub description: String,
}

impl View for Item {
    type V = ItemModel;

    open spec fn view(&self) -> ItemModel {
        ItemModel { name: self.name@, description: self.description@ }
    }
}

impl Item {
    /// A copy of this item with the same model.
    pub fn duplicate(&self) -> (r: Item)
        ensures
            r@ == self@,
    {
        Item { name: self.name.clone(), description: self.description.clone() }
    }
}

/// The models of a sequence of items, in order.
pub open spec fn models(s: Seq<Item>) -> Seq<ItemModel> {
    s.map_values(|i: Item| i@)
}

} // verus!
