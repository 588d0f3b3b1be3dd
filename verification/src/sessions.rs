use vstd::prelude::*;

verus! {

/// The command prefix that re-applies a theme: `AirlineTheme ` (the reply to
/// a bare `AirlineTheme` query is appended to it).
pub open spec fn reload_prefix() -> Seq<u8> {
    seq![65u8, 105u8, 114u8, 108u8, 105u8, 110u8, 101u8, 84u8, 104u8, 101u8, 109u8, 101u8,
        32u8]  // A i r l i n e T h e m e space
}

/// The full reload command for a reported theme name.
pub open spec fn reload_command_seq(theme: Seq<u8>) -> Seq<u8> {
    reload_prefix() + theme
}

/// Builds the command that re-applies the theme a session reported, forcing a
/// redraw of visual state that does not react to background-mode changes.
pub fn reload_command(theme: &Vec<u8>) -> (c: Vec<u8>)
    ensures
        c@ == reload_command_seq(theme@),
{
    let mut c: Vec<u8> = Vec::new();
    c.push(65);  // A
    c.push(105);  // i
    c.push(114);  // r
    c.push(108);  // l
    c.push(105);  // i
    c.push(110);  // n
    c.push(101);  // e
    c.push(84);  // T
    c.push(104);  // h
    c.push(101);  // e
    c.push(109);  // m
    c.push(101);  // e
    c.push(32);  // space
    assert(c@ =~= reload_prefix());
    let mut j: usize = 0;
    while j < theme.len()
        invariant
            j <= theme.len(),
            c@ == reload_prefix() + theme@.take(j as int),
        decreases theme.len() - j,
    {
        c.push(theme[j]);
        assert(c@ =~= reload_prefix() + theme@.take(j + 1));
        j += 1;
    }
    assert(theme@.take(theme@.len() as int) =~= theme@);
    c
}

/// The number of `true` entries in a sequence of per-session outcomes.
pub open spec fn count_true(s: Seq<bool>) -> int
    decreases s.len(),
{
    if s.len() == 0 {
        0
    } else {
        count_true(s.drop_last()) + if s.last() {
            1int
        } else {
            0int
        }
    }
}

/// Tallies a best-effort fan-out: how many sessions were updated
/// successfully. Per-session failures are counted, never propagated.
pub fn count_successes(outcomes: &Vec<bool>) -> (n: usize)
    ensures
        n == count_true(outcomes@),
        n <= outcomes@.len(),
{
    let mut n: usize = 0;
    let mut j: usize = 0;
    while j < outcomes.len()
        invariant
            j <= outcomes.len(),
            n <= j,
            n == count_true(outcomes@.take(j as int)),
        decreases outcomes.len() - j,
    {
        assert(outcomes@.take(j + 1).drop_last() =~= outcomes@.take(j as int));
        assert(outcomes@.take(j + 1).last() == outcomes@[j as int]);
        if outcomes[j] {
            n += 1;
        }
        j += 1;
    }
    assert(outcomes@.take(outcomes@.len() as int) =~= outcomes@);
    n
}

} // verus!
