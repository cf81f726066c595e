//! The colors of a colored terminal sink.

use vstd::prelude::*;

verus! {

/// `termcolor::ColorSpec`, a color specification.
#[verifier::external_type_specification]
#[verifier::external_body]
pub struct ExColorSpec(termcolor::ColorSpec);

/// `ColorSpec::clone`: a color specification with the same settings.
#[verifier::external_body]
pub(crate) fn color_clone(color: &termcolor::ColorSpec) -> (c: termcolor::ColorSpec)
    ensures
        c == *color,
{
    color.clone()
}

/// What a colored sink does to its terminal after an annotation call.
pub enum ColorAction {
    /// Sets the color.
    Color(termcolor::ColorSpec),
    /// Goes back to the terminal's own colors.
    Reset,
}

/// The colors of the annotated parts that are open, the innermost last.
pub struct ColorStack {
    pub colors: Vec<termcolor::ColorSpec>,
}

impl ColorStack {
    /// The colors of the open parts, the innermost last.
    pub open spec fn view(&self) -> Seq<termcolor::ColorSpec> {
        self.colors@
    }

    /// No part is open.
    pub fn new() -> (s: Self)
        ensures
            s@ == Seq::<termcolor::ColorSpec>::empty(),
    {
        ColorStack { colors: Vec::new() }
    }

    /// A part in `color` starts: the terminal is set to it.
    pub fn push(&mut self, color: &termcolor::ColorSpec) -> (action: ColorAction)
        ensures
            final(self)@ == old(self)@.push(*color),
            action == ColorAction::Color(*color),
    {
        self.colors.push(color_clone(color));
        ColorAction::Color(color_clone(color))
    }

    /// The innermost part ends: the terminal goes back to the color of the
    /// part around it, or to its own colors where no part is open any more.
    pub fn pop(&mut self) -> (action: ColorAction)
        ensures
            final(self)@ == (if old(self)@.len() > 0 { old(self)@.drop_last() } else { old(self)@ }),
            action == (if final(self)@.len() > 0 {
                ColorAction::Color(final(self)@.last())
            } else {
                ColorAction::Reset
            }),
    {
        self.colors.pop();
        let n = self.colors.len();
        if n > 0 {
            ColorAction::Color(color_clone(&self.colors[n - 1]))
        } else {
            ColorAction::Reset
        }
    }
}

} // verus!
