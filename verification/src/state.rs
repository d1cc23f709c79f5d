//! Properties whose value depends on the interaction state: a base value, and values for the
//! hovered and the pressed node, each with its transition.
use vstd::prelude::*;
use crate::animation::{Duration, Easing, TransitionDir, TransitionSpec};
use crate::flags::{ComputedState, InteractionState, computed_state_of, states_of};

verus! {

/// A property value.
#[derive(Clone, Copy, Debug)]
pub enum PropertyValue<T> {
    Static(T),
}

impl<T> PropertyValue<T> {
    /// The value.
    pub fn get(self) -> (r: T)
        ensures
            self == PropertyValue::Static(r),
    {
        match self {
            PropertyValue::Static(v) => v,
        }
    }
}

/// The value a property takes in one state, and the transition into and out of it.
#[derive(Clone, Debug)]
pub struct StateValue<T> {
    pub value: PropertyValue<T>,
    pub transition: TransitionSpec,
}

/// The state value `v` reached and left instantly.
pub open spec fn instant_spec<T>(v: PropertyValue<T>) -> StateValue<T> {
    StateValue { value: v, transition: TransitionSpec { enter: None, exit: None } }
}

impl<T> StateValue<T> {
    /// The state value `v`, reached and left instantly.
    pub fn instant(v: PropertyValue<T>) -> (r: Self)
        ensures
            r == instant_spec(v),
    {
        StateValue { value: v, transition: TransitionSpec::default() }
    }
}

/// A property: its base value, and the values it takes while hovered and while pressed.
#[derive(Debug, Clone)]
pub struct Property<T> {
    pub base: PropertyValue<T>,
    pub hover: Option<StateValue<T>>,
    pub active: Option<StateValue<T>>,
}

/// The value property `p` shows in the computed state `s`: the pressed value, else the hovered
/// value while pressed or hovered, else the base value.
pub open spec fn resolved<T>(p: Property<T>, s: ComputedState) -> PropertyValue<T> {
    match s {
        ComputedState::Base => p.base,
        ComputedState::Hover => match p.hover {
            Some(sv) => sv.value,
            None => p.base,
        },
        ComputedState::Active => match p.active {
            Some(sv) => sv.value,
            None => match p.hover {
                Some(sv) => sv.value,
                None => p.base,
            },
        },
    }
}


/// What a property shows, case by case on the interaction state bits: while pressed, its pressed
/// value if set, else its hover value if set, else its base value; while hovered and not pressed,
/// its hover value if set, else its base value, never its pressed value; otherwise its base value.
pub proof fn lemma_resolved_by_state<T>(p: Property<T>, bits: u8)
    ensures
        (bits / 2) % 2 == 1 ==> resolved(p, computed_state_of(states_of(bits))) == (if p.active is Some {
            p.active->0.value
        } else if p.hover is Some {
            p.hover->0.value
        } else {
            p.base
        }),
        (bits / 2) % 2 != 1 && bits % 2 == 1 ==> resolved(p, computed_state_of(states_of(bits))) == (if p.hover is Some {
            p.hover->0.value
        } else {
            p.base
        }),
        (bits / 2) % 2 != 1 && bits % 2 != 1 ==> resolved(p, computed_state_of(states_of(bits))) == p.base,
{
    assert(states_of(bits).contains(1) == ((bits / 2) % 2 == 1));
    assert(states_of(bits).contains(0) == (bits % 2 == 1));
}

/// Property `p` with state value `sv` in the slot of state `s` (the base value for the base
/// state).
pub open spec fn with_state<T>(p: Property<T>, s: ComputedState, sv: StateValue<T>) -> Property<T> {
    match s {
        ComputedState::Base => Property { base: sv.value, ..p },
        ComputedState::Hover => Property { hover: Some(sv), ..p },
        ComputedState::Active => Property { active: Some(sv), ..p },
    }
}

impl<T> Property<T> {
    /// The property with base value `value` and no state values.
    pub fn base(value: PropertyValue<T>) -> (r: Self)
        ensures
            r.base == value,
            r.hover is None,
            r.active is None,
    {
        Property { base: value, hover: None, active: None }
    }

    /// Starts giving the property the value `v` while hovered.
    pub fn hover(self, v: PropertyValue<T>) -> (r: StateBuilder<T>)
        ensures
            r@ == (self, ComputedState::Hover, instant_spec(v)),
    {
        StateBuilder::new(self, ComputedState::Hover, v)
    }

    /// Starts giving the property the value `v` while pressed.
    pub fn active(self, v: PropertyValue<T>) -> (r: StateBuilder<T>)
        ensures
            r@ == (self, ComputedState::Active, instant_spec(v)),
    {
        StateBuilder::new(self, ComputedState::Active, v)
    }

    /// The value the property shows in the interaction states `state`.
    pub fn resolve(&self, state: InteractionState) -> (r: &PropertyValue<T>)
        ensures
            *r == resolved(*self, computed_state_of(states_of(state@))),
    {
        let computed = ComputedState::from_interaction(state);
        match computed {
            ComputedState::Base => &self.base,
            ComputedState::Hover => match &self.hover {
                Some(sv) => &sv.value,
                None => &self.base,
            },
            ComputedState::Active => match &self.active {
                Some(sv) => &sv.value,
                None => match &self.hover {
                    Some(sv) => &sv.value,
                    None => &self.base,
                },
            },
        }
    }

    /// Puts `sv` in the slot of `state` (the base value for the base state).
    pub fn set_state(&mut self, state: ComputedState, sv: StateValue<T>)
        ensures
            *final(self) == with_state(*old(self), state, sv),
    {
        match state {
            ComputedState::Base => {
                self.base = sv.value;
            },
            ComputedState::Hover => {
                self.hover = Some(sv);
            },
            ComputedState::Active => {
                self.active = Some(sv);
            },
        }
    }
}

/// A property being given a value for one state, whose transition can still be set.
pub struct StateBuilder<T> {
    property: Property<T>,
    state: ComputedState,
    sv: StateValue<T>,
}

impl<T> View for StateBuilder<T> {
    type V = (Property<T>, ComputedState, StateValue<T>);

    /// The property so far, the state being given a value, and that value.
    closed spec fn view(&self) -> (Property<T>, ComputedState, StateValue<T>) {
        (self.property, self.state, self.sv)
    }
}

impl<T> StateBuilder<T> {
    fn new(property: Property<T>, state: ComputedState, value: PropertyValue<T>) -> (r: Self)
        ensures
            r@ == (property, state, instant_spec(value)),
    {
        StateBuilder { property, state, sv: StateValue::instant(value) }
    }

    /// Finishes this state and starts giving the property the value `v` while hovered.
    pub fn hover(self, v: PropertyValue<T>) -> (r: StateBuilder<T>)
        ensures
            r@ == (with_state(self@.0, self@.1, self@.2), ComputedState::Hover, instant_spec(v)),
    {
        let prop = self.finalize();
        prop.hover(v)
    }

    /// Finishes this state and starts giving the property the value `v` while pressed.
    pub fn active(self, v: PropertyValue<T>) -> (r: StateBuilder<T>)
        ensures
            r@ == (with_state(self@.0, self@.1, self@.2), ComputedState::Active, instant_spec(v)),
    {
        let prop = self.finalize();
        prop.active(v)
    }

    /// The same transition into the state and out of it.
    pub fn transition(self, duration: Duration, easing: Easing) -> (r: Self)
        ensures
            r@.0 == self@.0,
            r@.1 == self@.1,
            r@.2.value == self@.2.value,
            r@.2.transition == (TransitionSpec {
                enter: Some(TransitionDir { duration, easing }),
                exit: Some(TransitionDir { duration, easing }),
            }),
    {
        self.enter(duration, easing).exit(duration, easing)
    }

    /// The transition into the state.
    pub fn enter(self, duration: Duration, easing: Easing) -> (r: Self)
        ensures
            r@.0 == self@.0,
            r@.1 == self@.1,
            r@.2.value == self@.2.value,
            r@.2.transition == (TransitionSpec { enter: Some(TransitionDir { duration, easing }), ..self@.2.transition }),
    {
        let mut b = self;
        b.sv.transition.enter = Some(TransitionDir { duration, easing });
        b
    }

    /// The transition out of the state.
    pub fn exit(self, duration: Duration, easing: Easing) -> (r: Self)
        ensures
            r@.0 == self@.0,
            r@.1 == self@.1,
            r@.2.value == self@.2.value,
            r@.2.transition == (TransitionSpec { exit: Some(TransitionDir { duration, easing }), ..self@.2.transition }),
    {
        let mut b = self;
        b.sv.transition.exit = Some(TransitionDir { duration, easing });
        b
    }

    /// The property with the state value in place.
    pub fn finalize(self) -> (r: Property<T>)
        ensures
            r == with_state(self@.0, self@.1, self@.2),
    {
        let mut property = self.property;
        property.set_state(self.state, self.sv);
        property
    }
}

} // verus!
