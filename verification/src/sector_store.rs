//! Sector store configurations: real and fake stores over a staging and a
//! sealed directory.
//!
//! The configuration side lives here and is verified; the store's disk
//! manager only carries the two directory paths, and the file operations on
//! them belong to the unverified shell around the library.

use vstd::prelude::*;

verus! {

/// Sector size of the proof-test store, in bytes.
pub const REAL_SECTOR_SIZE: u64 = 128;

/// Sector size of the fast fake store.
pub const FAST_SECTOR_SIZE: u64 = 1024;

/// Sector size of the slow fake store: one GiB.
pub const SLOW_SECTOR_SIZE: u64 = 0x4000_0000;

/// Simulated delay of the fast fake store, in seconds.
pub const FAST_DELAY_SECONDS: u32 = 10;

/// Simulated delay of the slow fake store.
pub const SLOW_DELAY_SECONDS: u32 = 4 * 60 * 60;

/// Configuration of a store backed by real replication.
pub struct RealConfig {
    pub sector_bytes: u64,
}

/// Configuration of a store that fakes replication, with a simulated delay.
pub struct FakeConfig {
    pub sector_bytes: u64,
    pub delay_seconds: u32,
}

/// Which preconfigured store to build.
#[derive(Clone, Copy, Debug)]
pub enum ConfiguredStore {
    Live,
    Test,
    ProofTest,
}

/// A store's configuration: real or fake.
pub enum SectorConfig {
    Real(RealConfig),
    Fake(FakeConfig),
}

impl SectorConfig {
    /// Sizes stay small enough for in-memory sectors, and only fake stores
    /// simulate a delay.
    pub open spec fn wf(self) -> bool {
        &&& self.spec_sector_bytes() <= 0x4000_0000
        &&& self.spec_sector_bytes() >= 32
        &&& self.spec_sector_bytes() % 32 == 0
    }

    pub open spec fn spec_is_fake(self) -> bool {
        self is Fake
    }

    pub open spec fn spec_sector_bytes(self) -> u64 {
        match self {
            SectorConfig::Real(c) => c.sector_bytes,
            SectorConfig::Fake(c) => c.sector_bytes,
        }
    }

    /// The simulated delay: only fake stores have one.
    pub open spec fn spec_delay(self) -> Option<u32> {
        match self {
            SectorConfig::Real(_) => None,
            SectorConfig::Fake(c) => Some(c.delay_seconds),
        }
    }

    /// Whether this store fakes replication.
    pub fn is_fake(&self) -> (r: bool)
        ensures
            r == self.spec_is_fake(),
    {
        match self {
            SectorConfig::Real(_) => false,
            SectorConfig::Fake(_) => true,
        }
    }

    /// The simulated delay, if any; only fake stores have one.
    pub fn simulate_delay_seconds(&self) -> (r: Option<u32>)
        ensures
            r == self.spec_delay(),
            r is Some <==> self.spec_is_fake(),
    {
        match self {
            SectorConfig::Real(_) => None,
            SectorConfig::Fake(c) => Some(c.delay_seconds),
        }
    }

    /// Capacity of one unsealed sector, in bytes.
    pub fn max_unsealed_bytes_per_sector(&self) -> (r: u64)
        ensures
            r == self.spec_sector_bytes(),
    {
        match self {
            SectorConfig::Real(c) => c.sector_bytes,
            SectorConfig::Fake(c) => c.sector_bytes,
        }
    }
}

/// The store's handle on its two directories. Provisioning accesses and
/// moving bytes to and from them is file work and lives outside the library.
pub struct DiskManager {
    pub staging_path: String,
    pub sealed_path: String,
}

/// A configured sector store.
pub struct ConcreteSectorStore {
    pub config: SectorConfig,
    pub manager: DiskManager,
}

impl ConcreteSectorStore {
    pub open spec fn wf(self) -> bool {
        self.config.wf()
    }

    pub fn config(&self) -> (c: &SectorConfig)
        ensures
            c == &self.config,
    {
        &self.config
    }

    pub fn manager(&self) -> (m: &DiskManager)
        ensures
            m == &self.manager,
    {
        &self.manager
    }
}

/// A store that really replicates, sized for proof tests.
pub fn new_real_sector_store(sealed_path: String, staging_path: String) -> (s: ConcreteSectorStore)
    ensures
        s.wf(),
        !s.config.spec_is_fake(),
        s.config.spec_sector_bytes() == REAL_SECTOR_SIZE,
        s.config.spec_delay() is None,
        s.manager.sealed_path@ == sealed_path@,
        s.manager.staging_path@ == staging_path@,
{
    ConcreteSectorStore {
        config: SectorConfig::Real(RealConfig { sector_bytes: REAL_SECTOR_SIZE }),
        manager: DiskManager { sealed_path, staging_path },
    }
}

/// The store selected by a `ConfiguredStore` tag: the proof-test store is
/// real and small; the test and live stores fake with a short and a long
/// delay.
pub fn new_sector_store(cs: &ConfiguredStore, sealed_path: String, staging_path: String) -> (s: ConcreteSectorStore)
    ensures
        s.wf(),
        cs is ProofTest ==> !s.config.spec_is_fake()
            && s.config.spec_sector_bytes() == REAL_SECTOR_SIZE
            && s.config.spec_delay() is None,
        cs is Test ==> s.config.spec_is_fake()
            && s.config.spec_sector_bytes() == FAST_SECTOR_SIZE
            && s.config.spec_delay() == Some(FAST_DELAY_SECONDS),
        cs is Live ==> s.config.spec_is_fake()
            && s.config.spec_sector_bytes() == SLOW_SECTOR_SIZE
            && s.config.spec_delay() == Some(SLOW_DELAY_SECONDS),
        s.manager.sealed_path@ == sealed_path@,
        s.manager.staging_path@ == staging_path@,
{
    match cs {
        ConfiguredStore::Live => new_slow_fake_sector_store(sealed_path, staging_path),
        ConfiguredStore::Test => new_fast_fake_sector_store(sealed_path, staging_path),
        ConfiguredStore::ProofTest => new_real_sector_store(sealed_path, staging_path),
    }
}

/// A fake store with the alpha-release sector size and delay.
pub fn new_slow_fake_sector_store(sealed_path: String, staging_path: String) -> (s: ConcreteSectorStore)
    ensures
        s.wf(),
        s.config.spec_is_fake(),
        s.config.spec_sector_bytes() == SLOW_SECTOR_SIZE,
        s.config.spec_delay() == Some(SLOW_DELAY_SECONDS),
        s.manager.sealed_path@ == sealed_path@,
        s.manager.staging_path@ == staging_path@,
{
    new_fake_sector_store(sealed_path, staging_path, SLOW_SECTOR_SIZE, SLOW_DELAY_SECONDS)
}

/// A fake store with a manageably small sector and delay.
pub fn new_fast_fake_sector_store(sealed_path: String, staging_path: String) -> (s: ConcreteSectorStore)
    ensures
        s.wf(),
        s.config.spec_is_fake(),
        s.config.spec_sector_bytes() == FAST_SECTOR_SIZE,
        s.config.spec_delay() == Some(FAST_DELAY_SECONDS),
        s.manager.sealed_path@ == sealed_path@,
        s.manager.staging_path@ == staging_path@,
{
    new_fake_sector_store(sealed_path, staging_path, FAST_SECTOR_SIZE, FAST_DELAY_SECONDS)
}

fn new_fake_sector_store(sealed_path: String, staging_path: String, sector_bytes: u64,
    delay_seconds: u32) -> (s: ConcreteSectorStore)
    requires
        32 <= sector_bytes <= 0x4000_0000,
        sector_bytes % 32 == 0,
    ensures
        s.wf(),
        s.config.spec_is_fake(),
        s.config.spec_sector_bytes() == sector_bytes,
        s.config.spec_delay() == Some(delay_seconds),
        s.manager.sealed_path@ == sealed_path@,
        s.manager.staging_path@ == staging_path@,
{
    ConcreteSectorStore {
        config: SectorConfig::Fake(FakeConfig { sector_bytes, delay_seconds }),
        manager: DiskManager { sealed_path, staging_path },
    }
}

} // verus!
