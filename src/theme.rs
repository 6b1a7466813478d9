//! Themes: named maps from colour roles to colours.
use crate::color::RGBA;
use vstd::prelude::*;

verus! {

/// The error of a failed colour conversion.
#[derive(Debug)]
pub enum AppError {
    ConversionError { msg: String },
}

/// A named set of colours, each under the role it plays (`color0`,
/// `foreground`, ...). Where a role is listed more than once, the last entry
/// holds.
#[derive(Debug, PartialEq)]
pub struct Theme {
    pub name: String,
    pub colors: Vec<(String, RGBA)>,
}

/// The colour of the last entry of `entries` listed under `role`.
pub open spec fn role_lookup(entries: Seq<(String, RGBA)>, role: Seq<char>) -> Option<RGBA>
    decreases entries.len(),
{
    if entries.len() == 0 {
        None
    } else if entries.last().0@ == role {
        Some(entries.last().1)
    } else {
        role_lookup(entries.drop_last(), role)
    }
}

impl Theme {
    /// The colour that the theme gives `role`, if any.
    pub open spec fn color_of(&self, role: Seq<char>) -> Option<RGBA> {
        role_lookup(self.colors@, role)
    }

    /// A theme with no colours.
    pub fn new(name: String) -> (t: Theme)
        ensures
            t.name == name,
            forall|role: Seq<char>| t.color_of(role) is None,
    {
        Theme { name, colors: Vec::new() }
    }

    /// The colour that the theme gives `role`, if any.
    pub fn get(&self, role: &String) -> (r: Option<RGBA>)
        ensures
            r == self.color_of(role@),
    {
        let mut i: usize = self.colors.len();
        assert(self.colors@.take(i as int) == self.colors@);
        while i > 0
            invariant
                i <= self.colors@.len(),
                role_lookup(self.colors@, role@) == role_lookup(self.colors@.take(i as int), role@),
            decreases i,
        {
            assert(self.colors@.take(i - 1) == self.colors@.take(i as int).drop_last());
            if self.colors[i - 1].0 == *role {
                return Some(self.colors[i - 1].1);
            }
            i -= 1;
        }
        None
    }

    /// Gives `role` the colour `color`, in place of any it had.
    pub fn insert(&mut self, role: String, color: RGBA)
        ensures
            final(self).name == old(self).name,
            final(self).color_of(role@) == Some(color),
            forall|other: Seq<char>|
                other != role@ ==> #[trigger] final(self).color_of(other) == old(self).color_of(
                    other,
                ),
    {
        self.colors.push((role, color));
        assert(final(self).colors@.drop_last() == old(self).colors@);
    }
}

} // verus!
