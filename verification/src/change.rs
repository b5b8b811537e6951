//! One recorded text replacement with the selections around it.
use crate::selection::Selection;
use vstd::prelude::*;

verus! {

/// A replacement of `old_text` at `old_range` by `new_text` at `new_range`.
#[derive(Debug, PartialEq)]
pub struct Change {
    pub old_range: Selection,
    pub old_text: String,
    pub new_range: Selection,
    pub new_text: String,
    pub selection_before: Selection,
    pub selection_after: Selection,
    pub selection_before_reversed: bool,
    pub selection_after_reversed: bool,
    pub version: usize,
}

impl Change {
    /// The same change with both recorded selections given one direction.
    pub fn with_selection_direction(self, reversed: bool) -> (c: Self)
        ensures
            c == (Change {
                selection_before_reversed: reversed,
                selection_after_reversed: reversed,
                ..self
            }),
    {
        Change { selection_before_reversed: reversed, selection_after_reversed: reversed, ..self }
    }

    pub fn new(
        old_range: Selection,
        old_text: &str,
        new_range: Selection,
        new_text: &str,
        selection_before: Selection,
        selection_after: Selection,
    ) -> (c: Self)
        ensures
            c.old_range == old_range,
            c.old_text@ == old_text@,
            c.new_range == new_range,
            c.new_text@ == new_text@,
            c.selection_before == selection_before,
            c.selection_after == selection_after,
            !c.selection_before_reversed,
            !c.selection_after_reversed,
            c.version == 0,
    {
        Change {
            old_range,
            old_text: old_text.to_owned(),
            new_range,
            new_text: new_text.to_owned(),
            selection_before,
            selection_after,
            selection_before_reversed: false,
            selection_after_reversed: false,
            version: 0,
        }
    }

    pub fn version(&self) -> (v: usize)
        ensures
            v == self.version,
    {
        self.version
    }

    pub fn set_version(&mut self, version: usize)
        ensures
            *final(self) == (Change { version, ..*old(self) }),
    {
        self.version = version;
    }

    /// Whether replaying this change would leave the text as it was.
    pub open spec fn spec_is_noop(self) -> bool {
        self.old_range == self.new_range && self.old_text@ == self.new_text@
    }

    pub fn is_noop(&self) -> (r: bool)
        ensures
            r == self.spec_is_noop(),
    {
        self.old_range == self.new_range && self.old_text == self.new_text
    }
}

impl Clone for Change {
    fn clone(&self) -> (c: Self)
        ensures
            c == *self,
    {
        Change {
            old_range: self.old_range,
            old_text: self.old_text.clone(),
            new_range: self.new_range,
            new_text: self.new_text.clone(),
            selection_before: self.selection_before,
            selection_after: self.selection_after,
            selection_before_reversed: self.selection_before_reversed,
            selection_after_reversed: self.selection_after_reversed,
            version: self.version,
        }
    }
}

} // verus!
