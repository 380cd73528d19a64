//! Switches that the environment sets.

use vstd::prelude::*;

use crate::text::{chars_equal, chars_of};

verus! {

/// The value names the on state.
pub open spec fn names_on(value: Seq<char>) -> bool {
    value == "1"@ || value == "true"@ || value == "yes"@ || value == "on"@
}

/// The value names the off state.
pub open spec fn names_off(value: Seq<char>) -> bool {
    value == "0"@ || value == "false"@ || value == "no"@ || value == "off"@
}

/// Whether the value names the on state.
fn is_on(value: &str) -> (b: bool)
    ensures
        b == names_on(value@),
{
    let v = chars_of(value);
    chars_equal(v.as_slice(), "1") || chars_equal(v.as_slice(), "true") || chars_equal(
        v.as_slice(),
        "yes",
    ) || chars_equal(v.as_slice(), "on")
}

/// Whether the value names the off state.
fn is_off(value: &str) -> (b: bool)
    ensures
        b == names_off(value@),
{
    let v = chars_of(value);
    chars_equal(v.as_slice(), "0") || chars_equal(v.as_slice(), "false") || chars_equal(
        v.as_slice(),
        "no",
    ) || chars_equal(v.as_slice(), "off")
}

/// The state that a switch's value names. One that names neither leaves the
/// default: a typo selects nothing.
pub fn parse_switch(value: Option<&str>, default: bool) -> (b: bool)
    ensures
        b == (match value {
            Some(v) => names_on(v@) || (default && !names_off(v@)),
            None => default,
        }),
{
    proof {
        law_no_value_names_both();
    }
    match value {
        Some(v) => {
            if is_on(v) {
                true
            } else if is_off(v) {
                false
            } else {
                default
            }
        },
        None => default,
    }
}

/// No value names both states.
pub proof fn law_no_value_names_both()
    ensures
        forall|v: Seq<char>| !(#[trigger] names_on(v) && names_off(v)),
{
    reveal_strlit("1");
    reveal_strlit("true");
    reveal_strlit("yes");
    reveal_strlit("on");
    reveal_strlit("0");
    reveal_strlit("false");
    reveal_strlit("no");
    reveal_strlit("off");
    assert("1"@[0] == '1' && "0"@[0] == '0');
    assert("true"@.len() == 4 && "yes"@.len() == 3 && "on"@.len() == 2);
    assert("false"@.len() == 5 && "no"@.len() == 2 && "off"@.len() == 3);
    assert("on"@[0] == 'o' && "no"@[0] == 'n');
    assert("yes"@[0] == 'y' && "off"@[0] == 'o');
}

/// Whether a volume checks itself: as its variable says, where it is set, and
/// as the build says where it is not.
pub fn volume_invariants_enabled(value: Option<&str>, built_in: bool) -> (b: bool)
    ensures
        b == (match value {
            Some(v) => names_on(v@),
            None => built_in,
        }),
{
    match value {
        Some(v) => is_on(v),
        None => built_in,
    }
}

/// Whether promotes look for deltas: only where their variable asks for it.
pub fn delta_enabled(value: Option<&str>) -> (b: bool)
    ensures
        b == (value matches Some(v) && names_on(v@)),
{
    parse_switch(value, false)
}

/// Whether segments keep resemblance sketches: only where their variable asks
/// for it.
pub fn sketch_enabled(value: Option<&str>) -> (b: bool)
    ensures
        b == (value matches Some(v) && names_on(v@)),
{
    parse_switch(value, false)
}

/// How probing a process by signal went.
#[derive(Clone, Copy, Debug, PartialEq, Eq, Structural)]
pub enum ProbeOutcome {
    Delivered,
    NotPermitted,
    Failed,
}

/// The process to probe, where the number can be one.
pub fn probe_target(pid: u32) -> (raw: Option<i32>)
    ensures
        raw is Some == (pid <= i32::MAX),
        raw matches Some(p) ==> p == pid,
{
    if pid <= 0x7fff_ffff {
        Some(pid as i32)
    } else {
        None
    }
}

/// Whether a probed process exists: also where the caller may not signal it.
pub fn pid_is_alive(outcome: ProbeOutcome) -> (b: bool)
    ensures
        b == !(outcome is Failed),
{
    match outcome {
        ProbeOutcome::Delivered => true,
        ProbeOutcome::NotPermitted => true,
        ProbeOutcome::Failed => false,
    }
}

/// The words of a switch are these, and a word of the one state is none of the
/// other.
pub proof fn law_the_words_of_a_switch()
    ensures
        names_on("1"@) && names_on("true"@) && names_on("yes"@) && names_on("on"@),
        names_off("0"@) && names_off("false"@) && names_off("no"@) && names_off("off"@),
        !names_on("0"@) && !names_on("false"@) && !names_on("no"@) && !names_on("off"@),
        !names_on(""@) && !names_off(""@),
        forall|v: Seq<char>|
            v.len() > 5 ==> !(#[trigger] names_on(v)) && !names_off(v),
{
    law_no_value_names_both();
    reveal_strlit("");
    reveal_strlit("1");
    reveal_strlit("true");
    reveal_strlit("yes");
    reveal_strlit("on");
    reveal_strlit("0");
    reveal_strlit("false");
    reveal_strlit("no");
    reveal_strlit("off");
    assert(names_off("0"@) && names_off("false"@) && names_off("no"@) && names_off("off"@));
    assert(!(names_on("0"@) && names_off("0"@)));
    assert(!(names_on("false"@) && names_off("false"@)));
    assert(!(names_on("no"@) && names_off("no"@)));
    assert(!(names_on("off"@) && names_off("off"@)));
    assert(""@.len() == 0);
}

} // verus!
