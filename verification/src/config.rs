//! A volume's configuration.

use vstd::prelude::*;

use crate::ids::Ulid;
use crate::journal::{JournalRanges, JournalWindow};

verus! {

/// The configuration's file.
pub const CONFIG_FILE: &'static str = "volume.toml";

/// The journal window that was found: empty ranges where the filesystem has no
/// journal of its own.
#[derive(Debug)]
pub struct JournalConfig {
    pub ranges: JournalRanges,
    /// The first segment the window applies to, where it was found while the
    /// volume was open.
    pub activation: Option<Ulid>,
}

impl Default for JournalConfig {
    fn default() -> (c: Self)
        ensures
            c.ranges@.len() == 0,
            c.activation is None,
    {
        JournalConfig { ranges: JournalRanges::default(), activation: None }
    }
}

/// How a volume is served over ublk.
#[derive(Clone, Copy, Debug, PartialEq, Eq, Structural)]
pub struct UblkConfig {
    /// The device's number: pinned, or bound when the device was added.
    pub dev_id: Option<i32>,
}

impl Default for UblkConfig {
    fn default() -> (c: Self)
        ensures
            c.dev_id is None,
    {
        UblkConfig { dev_id: None }
    }
}

/// A volume's configuration.
#[derive(Debug)]
pub struct VolumeConfig {
    pub ulid: Option<Ulid>,
    pub name: Option<String>,
    pub size: Option<u64>,
    /// Present where the volume is served over ublk.
    pub ublk: Option<UblkConfig>,
    pub lazy: Option<bool>,
    /// Absent where no window was ever found.
    pub journal: Option<JournalConfig>,
}

impl Default for VolumeConfig {
    fn default() -> (c: Self)
        ensures
            c == (VolumeConfig {
                ulid: None,
                name: None,
                size: None,
                ublk: None,
                lazy: None,
                journal: None,
            }),
    {
        VolumeConfig { ulid: None, name: None, size: None, ublk: None, lazy: None, journal: None }
    }
}

impl VolumeConfig {
    /// The device number that is pinned or bound.
    pub open spec fn pinned(&self) -> Option<i32> {
        match self.ublk {
            Some(u) => u.dev_id,
            None => None,
        }
    }

    /// The journal window; the empty one where none was found.
    pub fn journal_window(&self) -> (w: JournalWindow)
        ensures
            match self.journal {
                Some(j) => w.ranges@ == j.ranges@ && w.activation == j.activation,
                None => w.ranges@.len() == 0 && w.activation is None,
            },
    {
        match &self.journal {
            Some(j) => JournalWindow { ranges: j.ranges.duplicate(), activation: j.activation },
            None => JournalWindow::default(),
        }
    }

    /// The device number that is pinned or bound.
    pub fn bound_ublk_id(&self) -> (id: Option<i32>)
        ensures
            id == self.pinned(),
    {
        match self.ublk {
            Some(u) => u.dev_id,
            None => None,
        }
    }

    /// Bind the device number. Nothing else changes.
    pub fn set_bound_ublk_id(&mut self, id: i32)
        ensures
            *final(self) == (VolumeConfig {
                ublk: Some(UblkConfig { dev_id: Some(id) }),
                ..*old(self)
            }),
    {
        self.ublk = Some(UblkConfig { dev_id: Some(id) });
    }

    /// Unbind the device number and go on serving over ublk. Whether there was
    /// one to unbind.
    pub fn clear_bound_ublk_id(&mut self) -> (changed: bool)
        ensures
            changed == old(self).pinned() is Some,
            *final(self) == (if changed {
                VolumeConfig { ublk: Some(UblkConfig { dev_id: None }), ..*old(self) }
            } else {
                *old(self)
            }),
    {
        match self.ublk {
            Some(u) => {
                if u.dev_id.is_none() {
                    return false;
                }
                self.ublk = Some(UblkConfig { dev_id: None });
                true
            },
            None => false,
        }
    }

    /// Name the volume. Nothing else changes.
    pub fn set_name(&mut self, name: &str)
        ensures
            final(self).name matches Some(n) && n@ == name@,
            *final(self) == (VolumeConfig { name: final(self).name, ..*old(self) }),
    {
        self.name = Some(name.to_owned());
    }

    /// Serve over ublk no more. Whether the volume did.
    pub fn clear_ublk_transport(&mut self) -> (changed: bool)
        ensures
            changed == old(self).ublk is Some,
            *final(self) == (VolumeConfig { ublk: None, ..*old(self) }),
    {
        if self.ublk.is_none() {
            return false;
        }
        self.ublk = None;
        true
    }
}

/// Another volume of the host.
pub struct OtherVolume {
    /// It is the volume itself, under another path.
    pub same: bool,
    pub stopped: bool,
    pub readonly: bool,
    /// Its configuration, where it could be read.
    pub config: Option<VolumeConfig>,
    /// The name of its directory.
    pub dir_name: String,
}

impl OtherVolume {
    /// It may be served and pins this device number.
    pub open spec fn claims(&self, dev_id: i32) -> bool {
        &&& !self.same && !self.stopped && !self.readonly
        &&& self.config matches Some(c) && c.pinned() == Some(dev_id)
    }

    /// What it is called: its own name, or that of its directory.
    pub open spec fn called(&self) -> Seq<char> {
        match self.config {
            Some(VolumeConfig { name: Some(n), .. }) => n@,
            _ => self.dir_name@,
        }
    }
}

/// Another volume pins the same device number.
pub struct UblkConflict {
    pub dev_id: i32,
    /// What the other volume is called.
    pub name: String,
    /// Where it stands among the volumes given.
    pub index: usize,
}

/// The first of the other volumes that pins the same device number as this
/// one. A volume that pins none conflicts with none.
pub fn find_ublk_conflict(config: &VolumeConfig, others: &Vec<OtherVolume>) -> (r: Option<
    UblkConflict,
>)
    ensures
        match r {
            Some(c) => config.pinned() == Some(c.dev_id) && c.index < others@.len()
                && others@[c.index as int].claims(c.dev_id) && c.name@
                == others@[c.index as int].called() && forall|j: int|
                0 <= j < c.index ==> !(#[trigger] others@[j]).claims(c.dev_id),
            None => config.pinned() is None || forall|j: int|
                0 <= j < others@.len() ==> !(#[trigger] others@[j]).claims(config.pinned()->0),
        },
{
    let dev_id = match config.bound_ublk_id() {
        Some(id) => id,
        None => {
            return None;
        },
    };
    let mut i: usize = 0;
    while i < others.len()
        invariant
            i <= others@.len(),
            config.pinned() == Some(dev_id),
            forall|j: int| 0 <= j < i ==> !(#[trigger] others@[j]).claims(dev_id),
        decreases others.len() - i,
    {
        let other = &others[i];
        if !other.same && !other.stopped && !other.readonly {
            if let Some(c) = &other.config {
                if let Some(id) = c.bound_ublk_id() {
                    if id == dev_id {
                        let name = match &c.name {
                            Some(n) => n.clone(),
                            None => other.dir_name.clone(),
                        };
                        return Some(UblkConflict { dev_id, name, index: i });
                    }
                }
            }
        }
        i += 1;
    }
    None
}

/// Only another volume that may be served conflicts, and only one that pins the
/// very number: not the volume itself under another path, none that is stopped
/// or read only, none whose configuration cannot be read.
pub proof fn law_only_served_volumes_conflict(other: OtherVolume, dev_id: i32)
    ensures
        other.same || other.stopped || other.readonly || other.config is None ==> !other.claims(
            dev_id,
        ),
        !other.same && !other.stopped && !other.readonly && other.config is Some && (
        other.config->0).ublk is Some && ((other.config->0).ublk->0).dev_id == Some(dev_id)
            ==> other.claims(dev_id),
        other.claims(dev_id) ==> forall|n: i32| n != dev_id ==> !#[trigger] other.claims(n),
        other.config is Some && (other.config->0).ublk is None ==> !other.claims(dev_id),
        other.config is Some && (other.config->0).name is Some ==> other.called() == ((
        other.config->0).name->0)@,
        other.config is None ==> other.called() == other.dir_name@,
{
}

} // verus!
