use vstd::prelude::*;

pub mod automaton;
pub mod dot;
pub mod render;

verus! {

/// Data handed to the presentation shell when it displays a rendered
/// automaton: the finished vector image as markup text.
pub struct SAMRenderProperties {
    pub sam_string: String,
}

} // verus!
