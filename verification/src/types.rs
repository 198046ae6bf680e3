//! Bounded integer domain types and the event model.
//!
//! `u2`, `u4` and `u7` are compact value types enforcing the legal ranges for
//! track indices, step indices / durations, and 7-bit protocol values. The
//! only checked constructor is `try_from`, so every value built through the
//! public surface lies in range.

use vstd::prelude::*;

verus! {

/// Error returned when a raw integer does not fit a bounded domain type.
#[derive(Clone, Copy, Debug, PartialEq, Eq, Structural)]
pub struct OutOfRange;

/// Bounded unsigned integer in `[0, 3]`: a track index.
#[allow(non_camel_case_types)]
#[derive(Clone, Copy, Debug, PartialEq, Eq, Structural)]
pub struct u2(pub u8);

impl View for u2 {
    type V = int;

    open spec fn view(&self) -> int {
        self.0 as int
    }
}

impl u2 {
    pub const MAX: u8 = 0x3;

    /// Accepts exactly the values in `[0, 3]`.
    pub fn try_from(value: u8) -> (r: Result<u2, OutOfRange>)
        ensures
            value <= 0x3 ==> r == Ok::<u2, OutOfRange>(u2(value)),
            value > 0x3 ==> r == Err::<u2, OutOfRange>(OutOfRange),
    {
        if value <= 0x3 {
            Ok(u2(value))
        } else {
            Err(OutOfRange)
        }
    }

    pub fn get(self) -> (r: u8)
        ensures
            r as int == self@,
    {
        self.0
    }
}

/// The result of the sequencer's wrapping step addition on `[0, 15]` values:
/// sums above 15 wrap by subtracting 15.
pub open spec fn u4_wrapped(v: int) -> int {
    if v > 15 {
        v - 15
    } else {
        v
    }
}

/// Bounded unsigned integer in `[0, 15]`: a step index or a note duration.
#[allow(non_camel_case_types)]
#[derive(Clone, Copy, Debug, PartialEq, Eq, Structural)]
pub struct u4(pub u8);

impl View for u4 {
    type V = int;

    open spec fn view(&self) -> int {
        self.0 as int
    }
}

impl u4 {
    pub const MAX: u8 = 0xF;

    /// Accepts exactly the values in `[0, 15]`.
    pub fn try_from(value: u8) -> (r: Result<u4, OutOfRange>)
        ensures
            value <= 0xF ==> r == Ok::<u4, OutOfRange>(u4(value)),
            value > 0xF ==> r == Err::<u4, OutOfRange>(OutOfRange),
    {
        if value <= 0xF {
            Ok(u4(value))
        } else {
            Err(OutOfRange)
        }
    }

    pub fn get(self) -> (r: u8)
        ensures
            r as int == self@,
    {
        self.0
    }

    /// Adds two in-range values, wrapping sums above 15 by subtracting 15.
    pub fn wrapping_add(self, rhs: Self) -> (r: Self)
        requires
            self@ <= 0xF,
            rhs@ <= 0xF,
        ensures
            r@ == u4_wrapped(self@ + rhs@),
    {
        let x = self.0 + rhs.0;
        if x > 0xF {
            u4(x - 0xF)
        } else {
            u4(x)
        }
    }
}

/// Bounded unsigned integer in `[0, 127]`: a pitch, velocity or controller
/// value.
#[allow(non_camel_case_types)]
#[derive(Clone, Copy, Debug, PartialEq, Eq, Structural)]
pub struct u7(pub u8);

impl View for u7 {
    type V = int;

    open spec fn view(&self) -> int {
        self.0 as int
    }
}

impl u7 {
    pub const MAX: u8 = 0x7F;

    /// Accepts exactly the values in `[0, 127]`.
    pub fn try_from(value: u8) -> (r: Result<u7, OutOfRange>)
        ensures
            value <= 0x7F ==> r == Ok::<u7, OutOfRange>(u7(value)),
            value > 0x7F ==> r == Err::<u7, OutOfRange>(OutOfRange),
    {
        if value <= 0x7F {
            Ok(u7(value))
        } else {
            Err(OutOfRange)
        }
    }

    pub fn get(self) -> (r: u8)
        ensures
            r as int == self@,
    {
        self.0
    }
}

/// A scheduled note: pitch, velocity, and how many steps it sustains.
/// Duration 0 means the matching note-off fires in the same batch as the
/// note-on.
#[derive(Clone, Copy, Debug, PartialEq, Eq, Structural)]
pub struct Note {
    pub pitch: u7,
    pub velocity: u7,
    pub duration: u4,
}

/// Every component of the note lies in its legal range.
pub open spec fn note_valid(n: Note) -> bool {
    &&& 0 <= n.pitch@ <= 127
    &&& 0 <= n.velocity@ <= 127
    &&& 0 <= n.duration@ <= 15
}

impl Note {
    /// A note with the given pitch, zero velocity and zero duration.
    pub fn from_pitch(pitch: u7) -> (r: Self)
        ensures
            r == (Note { pitch, velocity: u7(0), duration: u4(0) }),
    {
        Note { pitch, velocity: u7(0), duration: u4(0) }
    }
}

/// A scheduled controller change: which controller, and the new value.
#[derive(Clone, Copy, Debug, PartialEq, Eq, Structural)]
pub struct Param {
    pub controller: Controller,
    pub value: u7,
}

/// The param's value lies in its legal range.
pub open spec fn param_valid(p: Param) -> bool {
    0 <= p.value@ <= 127
}

impl Param {
    /// A param for the given controller with value zero.
    pub fn from_controller(controller: Controller) -> (r: Self)
        ensures
            r == (Param { controller, value: u7(0) }),
    {
        Param { controller, value: u7(0) }
    }
}

/// Output of the step engine, delivered once per occurrence within a step
/// batch.
#[derive(Clone, Copy, Debug, PartialEq, Eq, Structural)]
pub enum Event {
    NoteOn { channel: u4, pitch: u7, velocity: u7 },
    NoteOff { channel: u4, pitch: u7 },
    ControllerChange { channel: u4, controller: u7, value: u7 },
}

/// The closed set of supported controllers.
#[derive(Clone, Copy, Debug, PartialEq, Eq, Structural)]
pub enum Controller {
    Modulation,
    Breath,
    Volume,
    Pan,
}

/// The fixed numeric code of each controller. This mapping is part of the
/// external protocol contract and must not change.
pub open spec fn controller_number_spec(c: Controller) -> u7 {
    match c {
        Controller::Modulation => u7(1),
        Controller::Breath => u7(2),
        Controller::Volume => u7(7),
        Controller::Pan => u7(10),
    }
}

impl Controller {
    /// The controller's fixed numeric code: Modulation=1, Breath=2, Volume=7,
    /// Pan=10.
    pub fn number(&self) -> (r: u7)
        ensures
            r == controller_number_spec(*self),
    {
        match *self {
            Controller::Modulation => u7(1),
            Controller::Breath => u7(2),
            Controller::Volume => u7(7),
            Controller::Pan => u7(10),
        }
    }
}

} // verus!
