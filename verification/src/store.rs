//! Rows of the durable store: the tag-preference table, stored recipes, the
//! pending-batch and history relations, and the singleton workflow record.

use vstd::prelude::*;
use crate::workflow::Mode;

verus! {

/// A tag with its accumulated preference score.
#[derive(Clone, Copy, Debug, PartialEq, Eq, Structural)]
pub struct Tag {
    pub id: i64,
    pub likes: i64,
}

/// A stored recipe: identity and display name.
#[derive(Debug, PartialEq, Eq)]
pub struct Recipe {
    pub id: i64,
    pub name: String,
}

/// Mathematical image of a stored [`Recipe`].
pub struct RecipeRowView {
    pub id: i64,
    pub name: Seq<char>,
}

impl View for Recipe {
    type V = RecipeRowView;

    open spec fn view(&self) -> RecipeRowView {
        RecipeRowView { id: self.id, name: self.name@ }
    }
}

impl Recipe {
    /// A field-exact copy.
    pub fn duplicate(&self) -> (r: Recipe)
        ensures
            r@ == self@,
    {
        Recipe { id: self.id, name: self.name.clone() }
    }
}

/// One row of the pending batch: a recipe selected in the last gather phase
/// and not yet reviewed.
#[derive(Clone, Copy, Debug, PartialEq, Eq, Structural)]
pub struct PreviousRecipe {
    pub recipe_id: i64,
}

/// One recipe-to-tag relationship.
#[derive(Clone, Copy, Debug, PartialEq, Eq, Structural)]
pub struct RecipeTag {
    pub recipe_id: i64,
    pub tag_id: i64,
}

/// The singleton workflow record: the current phase and how many recipes
/// have been consumed from the catalog.
#[derive(Clone, Copy, Debug, PartialEq, Eq, Structural)]
pub struct Data {
    pub mode: Mode,
    pub offset: i64,
}

} // verus!
