//! Font weights and what can serve as the content of a text node.
use vstd::prelude::*;
use crate::reactive::{MaybeSignal, Signal};

verus! {

/// A font weight on the usual scale, from 1 to 1000 (400 is regular, 700 bold).
#[derive(Debug, Clone, Copy, PartialEq, Eq, Structural, Hash)]
pub struct FontWeight(pub u16);

/// `raw` brought into the range 1 to 1000.
pub open spec fn clamp_weight(raw: u16) -> u16 {
    if raw < 1 {
        1
    } else if raw > 1000 {
        1000
    } else {
        raw
    }
}

impl FontWeight {
    /// The weight `raw`, brought into the range 1 to 1000.
    pub fn new(raw: u16) -> (r: FontWeight)
        ensures
            r.0 == clamp_weight(raw),
    {
        let raw = if raw < 1 {
            1
        } else if raw > 1000 {
            1000
        } else {
            raw
        };
        FontWeight(raw)
    }
}

/// What can serve as the content of a text node: fixed text, or a signal that holds it.
pub trait IntoTextContent: Sized {
    fn into_text_content(self) -> MaybeSignal<String>;
}

impl IntoTextContent for String {
    fn into_text_content(self) -> (r: MaybeSignal<String>)
        ensures
            r == MaybeSignal::<String>::Static(self),
    {
        MaybeSignal::Static(self)
    }
}

impl IntoTextContent for Signal {
    fn into_text_content(self) -> (r: MaybeSignal<String>)
        ensures
            r == MaybeSignal::<String>::Signal(self),
    {
        MaybeSignal::Signal(self)
    }
}

} // verus!
