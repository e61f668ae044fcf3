//! A speech-bubble renderer in the cowsay tradition: a message is word-wrapped
//! into a bordered bubble, and a named ASCII-art figure is printed beneath it
//! with its eyes, tongue and thought-link glyphs substituted into a template.
//!
//! The bubble layout and the template substitution are verified: each public
//! function carries a contract that pins its output down as a function of its
//! inputs, stated over sequence models of the texts involved.

pub mod assets;
pub mod bubble;
pub mod eyes;
pub mod figure;
pub mod text;

use vstd::prelude::*;

verus! {

use crate::bubble::{bubble_text, make_bubble};
use crate::eyes::{voice_choice, voice_glyph};
use crate::figure::{figure_text, format_animal};

/// One full rendering pass: the bubble above, the figure below. The single
/// `think` flag drives both the bubble's border style and the thought-link
/// glyph substituted into the figure, so the two can never disagree.
pub fn render(
    message: &str,
    template: &str,
    width: usize,
    think: bool,
    wrap: bool,
    eyes: &str,
    tongue: &str,
) -> (r: (Vec<char>, Vec<char>))
    requires
        1 <= width,
        message@.len() + 4 <= usize::MAX,
    ensures
        r.0@ == bubble_text(message@, width as nat, think, wrap),
        r.1@ == figure_text(template@, voice_choice(think), eyes@, tongue@),
{
    let bubble = make_bubble(message, width, think, wrap);
    let voice = voice_glyph(think);
    let figure = format_animal(template, voice, eyes, tongue);
    (bubble, figure)
}

} // verus!
