//! The volume's configuration.

use elide_core::config::{
    find_ublk_conflict, JournalConfig, OtherVolume, UblkConfig, VolumeConfig,
};
use elide_core::ids::Ulid;
use elide_core::journal::JournalRanges;

fn named(name: Option<&str>, size: Option<u64>, ublk: Option<Option<i32>>) -> VolumeConfig {
    VolumeConfig {
        name: name.map(str::to_owned),
        size,
        ublk: ublk.map(|dev_id| UblkConfig { dev_id }),
        ..VolumeConfig::default()
    }
}

#[test]
fn bound_ublk_id_returns_none_when_no_section() {
    assert_eq!(VolumeConfig::default().bound_ublk_id(), None);
    // [ublk] enabled but no id bound yet.
    assert_eq!(named(None, None, Some(None)).bound_ublk_id(), None);
}

#[test]
fn set_bound_ublk_id_creates_section_and_preserves_other_fields() {
    let mut cfg = named(Some("alpha"), Some(1024), None);
    cfg.set_bound_ublk_id(5);

    assert_eq!(cfg.name.as_deref(), Some("alpha"));
    assert_eq!(cfg.size, Some(1024));
    assert_eq!(cfg.ublk.unwrap().dev_id, Some(5));
}

#[test]
fn set_bound_ublk_id_overwrites_existing_id() {
    let mut cfg = named(None, None, Some(Some(3)));
    cfg.set_bound_ublk_id(9);
    assert_eq!(cfg.bound_ublk_id(), Some(9));
}

#[test]
fn clear_bound_ublk_id_keeps_section_drops_id() {
    let mut cfg = named(None, None, Some(Some(5)));
    assert!(cfg.clear_bound_ublk_id());
    let ublk = cfg
        .ublk
        .expect("clearing the dev_id must not remove the [ublk] section");
    assert_eq!(ublk.dev_id, None);
}

#[test]
fn clear_bound_ublk_id_is_noop_without_section() {
    // No [ublk] section means there's nothing to clear.
    let mut cfg = named(Some("alpha"), None, None);
    assert!(!cfg.clear_bound_ublk_id());
    assert!(cfg.ublk.is_none());
    assert_eq!(cfg.name.as_deref(), Some("alpha"));
}

#[test]
fn clear_ublk_transport_drops_section_preserving_other_fields() {
    let mut cfg = named(Some("alpha"), Some(1024), Some(Some(5)));
    assert!(cfg.clear_ublk_transport());
    assert!(cfg.ublk.is_none(), "the whole [ublk] section must be gone");
    assert_eq!(cfg.name.as_deref(), Some("alpha"));
    assert_eq!(cfg.size, Some(1024));
}

#[test]
fn clear_ublk_transport_is_noop_without_section() {
    let mut cfg = named(Some("alpha"), None, None);
    assert!(!cfg.clear_ublk_transport());
    assert!(cfg.ublk.is_none());
    assert_eq!(cfg.name.as_deref(), Some("alpha"));
}

fn other(config: Option<VolumeConfig>, dir_name: &str) -> OtherVolume {
    OtherVolume {
        same: false,
        stopped: false,
        readonly: false,
        config,
        dir_name: dir_name.to_owned(),
    }
}

#[test]
fn find_ublk_conflict_detects_dev_id_collision() {
    let a = named(Some("alpha"), None, Some(Some(3)));
    let mut itself = other(Some(named(Some("alpha"), None, Some(Some(3)))), "01J000000000000000000000A0");
    itself.same = true;
    let b = other(Some(named(Some("beta"), None, Some(Some(3)))), "01J000000000000000000000B0");

    let conflict = find_ublk_conflict(&a, &vec![itself, b]).expect("conflict");
    assert_eq!(conflict.dev_id, 3);
    assert_eq!(conflict.name, "beta");
    assert_eq!(conflict.index, 1);
}

#[test]
fn find_ublk_conflict_ignores_auto_alloc() {
    let a = named(None, None, Some(None));
    let b = other(Some(named(None, None, Some(None))), "01J000000000000000000000B0");
    assert!(find_ublk_conflict(&a, &vec![b]).is_none());
}

#[test]
fn find_ublk_conflict_skips_stopped_volume() {
    let a = named(None, None, Some(Some(4)));
    let mut b = other(Some(named(None, None, Some(Some(4)))), "01J000000000000000000000B0");
    b.stopped = true;
    assert!(find_ublk_conflict(&a, &vec![b]).is_none());
}

#[test]
fn a_conflict_takes_the_directory_for_a_name_where_there_is_none() {
    let a = named(None, None, Some(Some(4)));
    let mut readonly = other(Some(named(None, None, Some(Some(4)))), "r");
    readonly.readonly = true;
    let unreadable = other(None, "u");
    let b = other(Some(named(None, None, Some(Some(4)))), "01J000000000000000000000B0");
    let conflict = find_ublk_conflict(&a, &vec![readonly, unreadable, b]).expect("conflict");
    assert_eq!(conflict.name, "01J000000000000000000000B0");
    assert_eq!(conflict.index, 2);
}

#[test]
fn the_journal_window_is_the_one_configured() {
    assert!(VolumeConfig::default().journal_window().ranges.is_empty());
    let activation = Ulid::from_parts(1234, 42);
    let mut cfg = VolumeConfig::default();
    cfg.set_name("alpha");
    assert_eq!(cfg.name.as_deref(), Some("alpha"));
    cfg.journal = Some(JournalConfig {
        ranges: JournalRanges::new(vec![(300, 4), (100, 16)]),
        activation: Some(activation),
    });
    let window = cfg.journal_window();
    assert_eq!(window.ranges.as_slice(), &[(100, 16), (300, 4)]);
    assert_eq!(window.activation, Some(activation));
}
