use vstd::prelude::*;

use crate::text::{has_token_at, token_at, NL};
use crate::{dark_seq, mode_seq, mode_token, SunState};

verus! {

/// The content of a state file mentions the token `dark` somewhere.
pub open spec fn mentions_dark(s: Seq<u8>) -> bool {
    exists|i: int| token_at(s, i, dark_seq())
}

/// The state a stored content denotes: `Down` when the content mentions
/// `dark` anywhere, `Up` otherwise. Substring matching (rather than full-line
/// equality) deliberately tolerates trailing whitespace and newline variation.
pub open spec fn state_of_content(s: Seq<u8>) -> SunState {
    if mentions_dark(s) {
        SunState::Down
    } else {
        SunState::Up
    }
}

/// Classifies the content of the persisted state file.
pub fn read_state(content: &Vec<u8>) -> (state: SunState)
    ensures
        state == state_of_content(content@),
{
    let dark = mode_token(SunState::Down);
    let mut i: usize = 0;
    while i < content.len()
        invariant
            dark@ == dark_seq(),
            i <= content.len(),
            forall|j: int| 0 <= j < i ==> !token_at(content@, j, dark_seq()),
        decreases content.len() - i,
    {
        if has_token_at(content, i, &dark) {
            return SunState::Down;
        }
        i += 1;
    }
    assert(!mentions_dark(content@)) by {
        if mentions_dark(content@) {
            let j = choose|j: int| token_at(content@, j, dark_seq());
            assert(j + dark_seq().len() <= content@.len());
        }
    }
    SunState::Up
}

/// The canonical directive for a state: `set bg=light` / `set bg=dark`.
pub open spec fn directive_seq(state: SunState) -> Seq<u8> {
    seq![115u8, 101u8, 116u8, 32u8, 98u8, 103u8, 61u8] + mode_seq(state)  // "set bg=" + mode
}

/// The full one-line state-file content: the directive and a trailing newline.
pub open spec fn directive_line(state: SunState) -> Seq<u8> {
    directive_seq(state) + seq![NL]
}

/// Builds the directive string of a state (no trailing newline); this is also
/// the command sent to a live session to set its background mode.
pub fn directive(state: SunState) -> (d: Vec<u8>)
    ensures
        d@ == directive_seq(state),
{
    let mut d: Vec<u8> = Vec::new();
    d.push(115);  // s
    d.push(101);  // e
    d.push(116);  // t
    d.push(32);  // space
    d.push(98);  // b
    d.push(103);  // g
    d.push(61);  // =
    let mut m = mode_token(state);
    d.append(&mut m);
    proof {
        assert(d@ =~= directive_seq(state));
    }
    d
}

/// Builds the full one-line content written to the state file.
pub fn directive_content(state: SunState) -> (c: Vec<u8>)
    ensures
        c@ == directive_line(state),
{
    let mut c = directive(state);
    c.push(NL);
    c
}

/// The content a missing state file is bootstrapped with: the `Up` directive.
pub fn bootstrap_content() -> (c: Vec<u8>)
    ensures
        c@ == directive_line(SunState::Up),
        state_of_content(c@) == SunState::Up,
{
    proof {
        lemma_store_round_trip(SunState::Up);
    }
    directive_content(SunState::Up)
}

/// Law: writing a state and reading the file back yields the same state.
pub proof fn lemma_store_round_trip(state: SunState)
    ensures
        state_of_content(directive_line(state)) == state,
{
    let c = directive_line(state);
    match state {
        SunState::Down => {
            assert(c.subrange(7, 11) =~= dark_seq());
            assert(token_at(c, 7, dark_seq()));
        },
        SunState::Up => {
            assert(!mentions_dark(c)) by {
                if mentions_dark(c) {
                    let i = choose|i: int| token_at(c, i, dark_seq());
                    assert(c.subrange(i, i + 4)[0] == c[i]);
                    assert(c[i] == 100);
                    assert(c.len() == 13);
                    assert(forall|k: int| 0 <= k < 13 ==> c[k] != 100);
                }
            }
        },
    }
}

} // verus!
