//! The configuration of a server program.
use vstd::prelude::*;

use crate::server::{RingConfig, RingVersion};

verus! {

pub struct Options {
    /// A version number for the configuration.
    ///
    /// Always 1.
    pub version: u64,
    /// The size of the backing memory to create.
    pub size: u64,
    /// All rings and their data to generate.
    pub rings: Vec<RingOptions>,
    /// Duration used when sleeping on a client trigger, in nano seconds.
    ///
    /// Note that this is not a latency but rather a maximum time before waking, not a minimum
    /// time.
    ///
    /// Providing no value uses some arbitrary default below a second.
    pub sleep: Option<u64>,
}

#[derive(Clone, Copy, Debug, PartialEq, Eq, Structural)]
pub struct RingOptions {
    /// A version number, for differentiating different ring layouts later.
    ///
    /// Always 1.
    pub version: u64,
    /// The size (in bytes) to use for the entries in the ring.
    pub ring_size: u64,
    /// The size of an entry in the ring structures.
    pub slot_entry_size: u64,
    /// The size (in bytes) of auxiliary memory to reserve for the ring's communication partners
    /// which may be used fully between them.
    pub data_size: u64,
    /// The ID to advertise on the left of this ring when it falls to the server.
    pub lhs_id: Option<i32>,
    /// The ID to advertise on the right of this ring when it falls to the server.
    pub rhs_id: Option<i32>,
}

#[derive(Clone, Copy, Debug, PartialEq, Eq, Structural)]
pub enum OptionsError {
    UnsupportedVersion,
    FailedToUseMap,
}

/// The identifier, or zero, which advertises nothing.
pub open spec fn id_or_zero(id: Option<i32>) -> i32 {
    match id {
        Some(id) => id,
        None => 0,
    }
}

impl RingOptions {
    /// The ring to create.
    pub open spec fn config(self) -> RingConfig {
        RingConfig {
            version: RingVersion(1),
            ring_size: self.ring_size,
            data_size: self.data_size,
            slot_entry_size: self.slot_entry_size,
            rhs: id_or_zero(self.rhs_id),
            lhs: id_or_zero(self.lhs_id),
        }
    }
}

impl Options {
    /// How long to sleep if nothing is said of it, in nano seconds.
    pub const DEFAULT_SLEEP: u64 = 10_000_000;

    /// Whether there is nothing but what this version knows of.
    pub open spec fn supported(&self) -> bool {
        self.version == 1 && forall|i: int|
            0 <= i < self.rings@.len() ==> (#[trigger] self.rings@[i]).version == 1
    }

    /// Check the versions of the configuration and of all its rings.
    pub fn validate(&self) -> (r: Result<(), OptionsError>)
        ensures
            r == (if self.supported() {
                Ok(())
            } else {
                Err(OptionsError::UnsupportedVersion)
            }),
    {
        if self.version != 1 {
            return Err(OptionsError::UnsupportedVersion);
        }
        let mut i: usize = 0;
        while i < self.rings.len()
            invariant
                i <= self.rings@.len(),
                self.version == 1,
                forall|j: int| 0 <= j < i ==> (#[trigger] self.rings@[j]).version == 1,
            decreases self.rings@.len() - i,
        {
            if self.rings[i].version != 1 {
                return Err(OptionsError::UnsupportedVersion);
            }
            i = i + 1;
        }
        Ok(())
    }

    /// The rings to create.
    pub fn ring_configs(&self) -> (r: Vec<RingConfig>)
        ensures
            r@ == Seq::new(self.rings@.len(), |i: int| self.rings@[i].config()),
    {
        let mut configs: Vec<RingConfig> = Vec::new();
        let mut i: usize = 0;
        while i < self.rings.len()
            invariant
                i <= self.rings@.len(),
                configs@ =~= Seq::new(i as nat, |j: int| self.rings@[j].config()),
            decreases self.rings@.len() - i,
        {
            let opt: RingOptions = self.rings[i];
            let lhs: i32 = match opt.lhs_id {
                Some(id) => id,
                None => 0,
            };
            let rhs: i32 = match opt.rhs_id {
                Some(id) => id,
                None => 0,
            };
            configs.push(
                RingConfig {
                    version: RingVersion::default(),
                    ring_size: opt.ring_size,
                    data_size: opt.data_size,
                    slot_entry_size: opt.slot_entry_size,
                    rhs,
                    lhs,
                },
            );
            i = i + 1;
        }
        configs
    }

    /// How long to sleep: whole seconds, and nano seconds on top of them.
    pub fn sleep_duration(&self) -> (r: (u64, u32))
        ensures
            r.1 < 1_000_000_000,
            r.0 * 1_000_000_000 + r.1 == (match self.sleep {
                Some(nanos) => nanos,
                None => Options::DEFAULT_SLEEP,
            }),
            self.sleep is None ==> r == (0u64, 10_000_000u32),
    {
        let nanos: u64 = match self.sleep {
            Some(nanos) => nanos,
            None => Options::DEFAULT_SLEEP,
        };
        (nanos / 1_000_000_000, (nanos % 1_000_000_000) as u32)
    }
}

/// A ring is created with the sizes that were asked for. A side is advertised under the identifier
/// that was asked for, and not at all if there was none.
pub proof fn lemma_config(ring: RingOptions)
    ensures
        ({
            let config = ring.config();
            &&& config.ring_size == ring.ring_size
            &&& config.data_size == ring.data_size
            &&& config.slot_entry_size == ring.slot_entry_size
            &&& config.version.0 == 1
            &&& (ring.lhs_id matches Some(id) ==> config.lhs == id)
            &&& (ring.rhs_id matches Some(id) ==> config.rhs == id)
            &&& ring.lhs_id is None ==> config.lhs == 0
            &&& ring.rhs_id is None ==> config.rhs == 0
        }),
{
}

/// Nothing but version one is supported, neither of the configuration nor of any ring.
pub proof fn lemma_supported(options: &Options, i: int)
    requires
        0 <= i < options.rings@.len(),
    ensures
        options.version != 1 ==> !options.supported(),
        options.rings@[i].version != 1 ==> !options.supported(),
        options.version == 1 && (forall|j: int|
            0 <= j < options.rings@.len() ==> (#[trigger] options.rings@[j]).version == 1)
            ==> options.supported(),
{
}

} // verus!
