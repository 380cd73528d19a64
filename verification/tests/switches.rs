//! Switches and the answer of a process probe.

use elide_core::switches::{
    delta_enabled, parse_switch, pid_is_alive, probe_target, sketch_enabled,
    volume_invariants_enabled, ProbeOutcome,
};

#[test]
fn a_switch_reads_both_states_and_holds_its_default() {
    for on in ["1", "true", "yes", "on"] {
        assert!(parse_switch(Some(on), false), "{on} names the on state");
    }
    for off in ["0", "false", "no", "off"] {
        assert!(!parse_switch(Some(off), true), "{off} names the off state");
    }
    assert!(parse_switch(Some("of"), true), "a typo holds the default");
    assert!(!parse_switch(Some("of"), false), "a typo holds the default");
    assert!(parse_switch(None, true));
    assert!(!parse_switch(None, false));
}

#[test]
fn the_self_check_answers_to_its_variable_and_then_to_the_build() {
    assert!(volume_invariants_enabled(Some("yes"), false));
    assert!(!volume_invariants_enabled(Some("of"), true));
    assert!(volume_invariants_enabled(None, true));
    assert!(!volume_invariants_enabled(None, false));
}

#[test]
fn the_delta_tiers_run_only_where_asked_for() {
    assert!(delta_enabled(Some("on")));
    assert!(!delta_enabled(Some("On")));
    assert!(!delta_enabled(None));
    assert!(sketch_enabled(Some("1")));
    assert!(!sketch_enabled(Some("0")));
}

#[test]
fn nonexistent_pid_is_not_alive() {
    // u32::MAX is no process number at all.
    assert_eq!(probe_target(u32::MAX), None);
    assert_eq!(probe_target(1), Some(1));
    assert!(!pid_is_alive(ProbeOutcome::Failed));
    assert!(pid_is_alive(ProbeOutcome::Delivered));
    assert!(pid_is_alive(ProbeOutcome::NotPermitted));
}
