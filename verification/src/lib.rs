//! Day/night mode synchronization: decides whether the environment should be
//! in light or dark mode from solar events (or a forced override), and
//! prepares the idempotent updates of a config document, a persisted state
//! file, and live session commands. All I/O stays with the caller; this crate
//! holds the verified decisions, parsers, and rewrites.

use vstd::prelude::*;

pub mod geo;
pub mod orchestrate;
pub mod rewrite;
pub mod sessions;
pub mod solar;
pub mod store;
pub mod text;

verus! {

/// The two-valued day/night classification that drives the visual mode.
#[derive(Clone, Copy, Debug, PartialEq, Eq, Structural)]
pub enum SunState {
    Up,
    Down,
}

/// The error kinds a run can surface. `SessionError` is contained per session
/// and never aborts a run; every other kind is fatal.
#[derive(Clone, Copy, Debug, PartialEq, Eq, Structural)]
pub enum Error {
    NetworkError,
    ParseError,
    NotFound,
    IoError,
    SessionError,
}

/// Byte sequence of the literal token `light`.
pub open spec fn light_seq() -> Seq<u8> {
    seq![108u8, 105u8, 103u8, 104u8, 116u8]  // l i g h t
}

/// Byte sequence of the literal token `dark`.
pub open spec fn dark_seq() -> Seq<u8> {
    seq![100u8, 97u8, 114u8, 107u8]  // d a r k
}

/// The mode token of a state: `light` for `Up`, `dark` for `Down`.
pub open spec fn mode_seq(state: SunState) -> Seq<u8> {
    if state == SunState::Up {
        light_seq()
    } else {
        dark_seq()
    }
}

/// Builds the mode token of a state.
pub fn mode_token(state: SunState) -> (t: Vec<u8>)
    ensures
        t@ == mode_seq(state),
{
    let mut t: Vec<u8> = Vec::new();
    match state {
        SunState::Up => {
            t.push(108);  // l
            t.push(105);  // i
            t.push(103);  // g
            t.push(104);  // h
            t.push(116);  // t
            proof {
                assert(t@ =~= light_seq());
            }
        },
        SunState::Down => {
            t.push(100);  // d
            t.push(97);  // a
            t.push(114);  // r
            t.push(107);  // k
            proof {
                assert(t@ =~= dark_seq());
            }
        },
    }
    t
}

} // verus!
