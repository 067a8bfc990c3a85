//! Registry data model: runtime descriptors, their invariants, the
//! admission-policy evaluator and the staking-threshold resolver.

use vstd::prelude::*;

use crate::keys::PublicKey;
use crate::policy::SignatureBundle;
use crate::staking::quantity_wf;
use crate::staking::threshold_kind_code;
use crate::staking::Quantity;
use crate::staking::ThresholdKind;

verus! {

/// The runtime-descriptor schema version this library reads and writes.
/// Readers must reject any other version rather than guess at its layout.
pub const RUNTIME_SCHEMA_VERSION: u16 = 1;

/// Length in bytes of a namespace identifier and of a state-root hash.
pub const NAMESPACE_LEN: usize = 32;

/// What a runtime is. The `KindInvalid` variant is the zero-value guard and
/// must never appear in a record admitted to consensus state.
#[derive(Clone, Copy, Debug, PartialEq, Eq, Hash, Structural)]
pub enum RuntimeKind {
    KindInvalid,
    KindCompute,
    KindKeyManager,
}

impl Default for RuntimeKind {
    fn default() -> (r: Self)
        ensures
            r == RuntimeKind::KindInvalid,
    {
        RuntimeKind::KindInvalid
    }
}

/// The TEE hardware a runtime requires. `TEEHardwareInvalid` is the
/// zero-value guard, never valid in committed state.
#[derive(Clone, Copy, Debug, PartialEq, Eq, Hash, Structural)]
pub enum TEEHardware {
    TEEHardwareInvalid,
    TEEHardwareIntelSGX,
}

impl Default for TEEHardware {
    fn default() -> (r: Self)
        ensures
            r == TEEHardware::TEEHardwareInvalid,
    {
        TEEHardware::TEEHardwareInvalid
    }
}

/// Who may amend a runtime record. `GovernanceInvalid` is the zero-value
/// guard, never valid in committed state.
#[derive(Clone, Copy, Debug, PartialEq, Eq, Hash, Structural)]
pub enum RuntimeGovernanceModel {
    GovernanceInvalid,
    GovernanceEntity,
    GovernanceRuntime,
    GovernanceConsensus,
}

impl Default for RuntimeGovernanceModel {
    fn default() -> (r: Self)
        ensures
            r == RuntimeGovernanceModel::GovernanceInvalid,
    {
        RuntimeGovernanceModel::GovernanceInvalid
    }
}

/// The roles a node may hold; map keys are ordered by bit value, ascending.
#[derive(Clone, Copy, Debug, PartialEq, Eq, Hash, Structural)]
pub enum RolesMask {
    RoleComputeWorker,
    RoleStorageWorker,
    RoleKeyManager,
    RoleValidator,
    RoleConsensusRPC,
}

/// The bit value of a role; also its canonical order as a map key.
pub open spec fn role_bit(r: RolesMask) -> u8 {
    match r {
        RolesMask::RoleComputeWorker => 1,
        RolesMask::RoleStorageWorker => 2,
        RolesMask::RoleKeyManager => 4,
        RolesMask::RoleValidator => 8,
        RolesMask::RoleConsensusRPC => 16,
    }
}

/// Computes the bit value of a role.
pub fn role_bit_of(r: RolesMask) -> (b: u8)
    ensures
        b == role_bit(r),
{
    match r {
        RolesMask::RoleComputeWorker => 1,
        RolesMask::RoleStorageWorker => 2,
        RolesMask::RoleKeyManager => 4,
        RolesMask::RoleValidator => 8,
        RolesMask::RoleConsensusRPC => 16,
    }
}

/// The role a bit value denotes, if any.
pub open spec fn role_of_bit(b: u8) -> Option<RolesMask> {
    if b == 1 {
        Some(RolesMask::RoleComputeWorker)
    } else if b == 2 {
        Some(RolesMask::RoleStorageWorker)
    } else if b == 4 {
        Some(RolesMask::RoleKeyManager)
    } else if b == 8 {
        Some(RolesMask::RoleValidator)
    } else if b == 16 {
        Some(RolesMask::RoleConsensusRPC)
    } else {
        None
    }
}

/// Decodes a role bit value.
pub fn role_of_bit_exec(b: u8) -> (r: Option<RolesMask>)
    ensures
        r == role_of_bit(b),
        r matches Some(m) ==> role_bit(m) == b,
{
    if b == 1 {
        Some(RolesMask::RoleComputeWorker)
    } else if b == 2 {
        Some(RolesMask::RoleStorageWorker)
    } else if b == 4 {
        Some(RolesMask::RoleKeyManager)
    } else if b == 8 {
        Some(RolesMask::RoleValidator)
    } else if b == 16 {
        Some(RolesMask::RoleConsensusRPC)
    } else {
        None
    }
}

/// A fixed-length namespace identifier.
#[derive(Debug)]
pub struct Namespace {
    pub bytes: Vec<u8>,
}

impl Namespace {
    pub open spec fn wf(&self) -> bool {
        self.bytes@.len() == NAMESPACE_LEN
    }
}

impl Clone for Namespace {
    fn clone(&self) -> (r: Self)
        ensures
            r.bytes@ == self.bytes@,
    {
        Namespace { bytes: self.bytes.clone() }
    }
}

/// A content hash, such as a genesis state root.
#[derive(Debug)]
pub struct Hash {
    pub bytes: Vec<u8>,
}

impl Hash {
    pub open spec fn wf(&self) -> bool {
        self.bytes@.len() == NAMESPACE_LEN
    }
}

impl Clone for Hash {
    fn clone(&self) -> (r: Self)
        ensures
            r.bytes@ == self.bytes@,
    {
        Hash { bytes: self.bytes.clone() }
    }
}

/// A software version number.
#[derive(Clone, Copy, Debug, Default, PartialEq, Eq, Hash, Structural)]
pub struct Version {
    pub major: u16,
    pub minor: u16,
    pub patch: u16,
}

/// A version number plus the optional hardware-specific attestation blob,
/// whose shape is opaque to the registry.
#[derive(Debug)]
pub struct VersionInfo {
    pub version: Version,
    pub tee: Option<Vec<u8>>,
}

/// The view of a `VersionInfo`.
#[verifier::ext_equal]
pub struct VersionInfoV {
    pub version: Version,
    pub tee: Option<Seq<u8>>,
}

impl View for VersionInfo {
    type V = VersionInfoV;

    open spec fn view(&self) -> VersionInfoV {
        VersionInfoV {
            version: self.version,
            tee: match self.tee {
                Some(ref t) => Some(t@),
                None => None,
            },
        }
    }
}

pub open spec fn version_info_wf(vi: VersionInfoV) -> bool {
    match vi.tee {
        Some(t) => t.len() <= u32::MAX,
        None => true,
    }
}

/// Executor committee parameters. Zero values are "unset" placeholders, not
/// valid operational values; callers validate before use.
#[derive(Clone, Copy, Debug, Default, PartialEq, Eq, Hash, Structural)]
pub struct ExecutorParameters {
    pub group_size: u64,
    pub group_backup_size: u64,
    pub allowed_stragglers: u64,
    pub round_timeout: i64,
    pub max_messages: u32,
    pub min_pool_size: u64,
}

/// Transaction-scheduler parameters. The algorithm name is kept as its
/// bytes; zero/empty values mean "unset".
#[derive(Debug)]
pub struct TxnSchedulerParameters {
    pub algorithm: Vec<u8>,
    pub batch_flush_timeout: i64,
    pub max_batch_size: u64,
    pub max_batch_size_bytes: u64,
    pub propose_batch_timeout: i64,
}

/// The view of a `TxnSchedulerParameters`.
#[verifier::ext_equal]
pub struct TxnSchedulerParametersV {
    pub algorithm: Seq<u8>,
    pub batch_flush_timeout: i64,
    pub max_batch_size: u64,
    pub max_batch_size_bytes: u64,
    pub propose_batch_timeout: i64,
}

impl View for TxnSchedulerParameters {
    type V = TxnSchedulerParametersV;

    open spec fn view(&self) -> TxnSchedulerParametersV {
        TxnSchedulerParametersV {
            algorithm: self.algorithm@,
            batch_flush_timeout: self.batch_flush_timeout,
            max_batch_size: self.max_batch_size,
            max_batch_size_bytes: self.max_batch_size_bytes,
            propose_batch_timeout: self.propose_batch_timeout,
        }
    }
}

pub open spec fn txn_scheduler_wf(t: TxnSchedulerParametersV) -> bool {
    t.algorithm.len() <= u32::MAX
}

/// Storage committee parameters; zero values mean "unset".
#[derive(Clone, Copy, Debug, Default, PartialEq, Eq, Hash, Structural)]
pub struct StorageParameters {
    pub group_size: u64,
    pub min_write_replication: u64,
    pub max_apply_write_log_entries: u64,
    pub max_apply_ops: u64,
    pub checkpoint_interval: u64,
    pub checkpoint_num_kept: u64,
    pub checkpoint_chunk_size: u64,
    pub min_pool_size: u64,
}

/// One key/value write of a genesis write log.
#[derive(Debug)]
pub struct LogEntry {
    pub key: Vec<u8>,
    pub value: Vec<u8>,
}

/// The view of a `LogEntry`.
#[verifier::ext_equal]
pub struct LogEntryV {
    pub key: Seq<u8>,
    pub value: Seq<u8>,
}

impl View for LogEntry {
    type V = LogEntryV;

    open spec fn view(&self) -> LogEntryV {
        LogEntryV { key: self.key@, value: self.value@ }
    }
}

impl Clone for LogEntry {
    fn clone(&self) -> (r: Self)
        ensures
            r@ == self@,
    {
        LogEntry { key: self.key.clone(), value: self.value.clone() }
    }
}

pub open spec fn log_entry_wf(e: LogEntryV) -> bool {
    e.key.len() <= u32::MAX && e.value.len() <= u32::MAX
}

pub open spec fn write_log_wf(s: Seq<LogEntryV>) -> bool {
    s.len() <= u32::MAX && forall|i: int| 0 <= i < s.len() ==> log_entry_wf(#[trigger] s[i])
}

/// A signature bundle is well formed when the declared key (if any) and the
/// signature have the Ed25519 lengths.
pub open spec fn bundle_wf(sb: crate::policy::SignatureBundleV) -> bool {
    &&& match sb.public_key {
        Some(k) => k.len() == crate::keys::PUBLIC_KEY_LEN,
        None => true,
    }
    &&& sb.signature.len() == crate::keys::SIGNATURE_LEN
}

pub open spec fn receipts_wf(s: Seq<crate::policy::SignatureBundleV>) -> bool {
    s.len() <= u32::MAX && forall|i: int| 0 <= i < s.len() ==> bundle_wf(#[trigger] s[i])
}

/// State a runtime starts from at its first round.
#[derive(Debug)]
pub struct RuntimeGenesis {
    /// State root at genesis time; the defined empty-state hash when the
    /// runtime starts empty.
    pub state_root: Hash,
    /// The write log that materializes `state_root`; may be absent when the
    /// root is the empty hash or the state is supplied out of band.
    pub state: Option<Vec<LogEntry>>,
    /// Signatures of storage nodes attesting that they hold `state`.
    pub storage_receipts: Option<Vec<SignatureBundle>>,
    /// Runtime round of this genesis.
    pub round: u64,
}

/// The view of a `RuntimeGenesis`.
#[verifier::ext_equal]
pub struct RuntimeGenesisV {
    pub state_root: Seq<u8>,
    pub state: Option<Seq<LogEntryV>>,
    pub storage_receipts: Option<Seq<crate::policy::SignatureBundleV>>,
    pub round: u64,
}

impl View for RuntimeGenesis {
    type V = RuntimeGenesisV;

    open spec fn view(&self) -> RuntimeGenesisV {
        RuntimeGenesisV {
            state_root: self.state_root.bytes@,
            state: match self.state {
                Some(ref s) => Some(s@.map_values(|e: LogEntry| e@)),
                None => None,
            },
            storage_receipts: match self.storage_receipts {
                Some(ref s) => Some(s@.map_values(|sb: SignatureBundle| sb@)),
                None => None,
            },
            round: self.round,
        }
    }
}

pub open spec fn genesis_wf(g: RuntimeGenesisV) -> bool {
    &&& g.state_root.len() == NAMESPACE_LEN
    &&& match g.state {
        Some(s) => write_log_wf(s),
        None => true,
    }
    &&& match g.storage_receipts {
        Some(s) => receipts_wf(s),
        None => true,
    }
}

/// Per-entity whitelist configuration: an optional cap, per role, on how
/// many of the entity's nodes may hold that role for this runtime. Absence
/// of a cap means unlimited.
#[derive(Debug)]
pub struct EntityWhitelistConfig {
    pub max_nodes: Option<Vec<(RolesMask, u16)>>,
}

/// The view of an `EntityWhitelistConfig`.
#[verifier::ext_equal]
pub struct EntityWhitelistConfigV {
    pub max_nodes: Option<Seq<(RolesMask, u16)>>,
}

impl View for EntityWhitelistConfig {
    type V = EntityWhitelistConfigV;

    open spec fn view(&self) -> EntityWhitelistConfigV {
        EntityWhitelistConfigV {
            max_nodes: match self.max_nodes {
                Some(ref m) => Some(m@),
                None => None,
            },
        }
    }
}

/// Copies a role-cap table.
fn clone_caps(m: &Vec<(RolesMask, u16)>) -> (r: Vec<(RolesMask, u16)>)
    ensures
        r@ == m@,
{
    let n = m.len();
    let mut r: Vec<(RolesMask, u16)> = Vec::new();
    let mut i: usize = 0;
    while i < n
        invariant
            n == m@.len(),
            0 <= i <= n,
            r@ == m@.subrange(0, i as int),
        decreases n - i,
    {
        r.push(m[i]);
        proof {
            assert(r@ =~= m@.subrange(0, i + 1 as int));
        }
        i += 1;
    }
    proof {
        assert(m@.subrange(0, n as int) =~= m@);
    }
    r
}

impl Clone for EntityWhitelistConfig {
    fn clone(&self) -> (r: Self)
        ensures
            r@ == self@,
    {
        EntityWhitelistConfig {
            max_nodes: match &self.max_nodes {
                Some(m) => Some(clone_caps(m)),
                None => None,
            },
        }
    }
}

/// Role-cap keys are single roles, strictly ascending by bit value.
pub open spec fn max_nodes_wf(m: Seq<(RolesMask, u16)>) -> bool {
    m.len() <= u32::MAX && forall|x: int|
        0 <= x && x + 1 < m.len() ==> role_bit((#[trigger] m[x]).0) < role_bit(m[x + 1].0)
}

pub open spec fn config_wf(c: EntityWhitelistConfigV) -> bool {
    match c.max_nodes {
        Some(m) => max_nodes_wf(m),
        None => true,
    }
}

/// An entity whitelist: only listed entities' nodes may register; keys are
/// entity public keys, strictly ascending in byte order.
#[derive(Debug)]
pub struct EntityWhitelistRuntimeAdmissionPolicy {
    pub entities: Option<Vec<(PublicKey, EntityWhitelistConfig)>>,
}

/// The view of an `EntityWhitelistRuntimeAdmissionPolicy`.
#[verifier::ext_equal]
pub struct EntityWhitelistRuntimeAdmissionPolicyV {
    pub entities: Option<Seq<(Seq<u8>, EntityWhitelistConfigV)>>,
}

impl View for EntityWhitelistRuntimeAdmissionPolicy {
    type V = EntityWhitelistRuntimeAdmissionPolicyV;

    open spec fn view(&self) -> EntityWhitelistRuntimeAdmissionPolicyV {
        EntityWhitelistRuntimeAdmissionPolicyV {
            entities: match self.entities {
                Some(ref es) => Some(
                    es@.map_values(|p: (PublicKey, EntityWhitelistConfig)| (p.0.bytes@, p.1@)),
                ),
                None => None,
            },
        }
    }
}

pub open spec fn entities_wf(es: Seq<(Seq<u8>, EntityWhitelistConfigV)>) -> bool {
    &&& es.len() <= u32::MAX
    &&& forall|i: int|
        0 <= i < es.len() ==> (#[trigger] es[i]).0.len() == crate::keys::PUBLIC_KEY_LEN
            && config_wf(es[i].1)
    &&& forall|x: int|
        0 <= x && x + 1 < es.len() ==> crate::bytes_lt((#[trigger] es[x]).0, es[x + 1].0)
}

pub open spec fn whitelist_wf(p: EntityWhitelistRuntimeAdmissionPolicyV) -> bool {
    match p.entities {
        Some(es) => entities_wf(es),
        None => true,
    }
}

/// How nodes are admitted to serve a runtime.
#[derive(Debug)]
pub enum RuntimeAdmissionPolicy {
    /// Any node satisfying hardware/role prerequisites may register.
    AnyNode {},
    /// Only nodes of whitelisted entities may register.
    EntityWhitelist { policy: EntityWhitelistRuntimeAdmissionPolicy },
}

impl Default for RuntimeAdmissionPolicy {
    fn default() -> (r: Self)
        ensures
            r@ == (RuntimeAdmissionPolicyV::AnyNode {}),
    {
        RuntimeAdmissionPolicy::AnyNode {}
    }
}

/// The view of a `RuntimeAdmissionPolicy`.
#[verifier::ext_equal]
pub enum RuntimeAdmissionPolicyV {
    AnyNode {},
    EntityWhitelist { policy: EntityWhitelistRuntimeAdmissionPolicyV },
}

impl View for RuntimeAdmissionPolicy {
    type V = RuntimeAdmissionPolicyV;

    open spec fn view(&self) -> RuntimeAdmissionPolicyV {
        match self {
            RuntimeAdmissionPolicy::AnyNode {} => RuntimeAdmissionPolicyV::AnyNode {},
            RuntimeAdmissionPolicy::EntityWhitelist { policy } => {
                RuntimeAdmissionPolicyV::EntityWhitelist { policy: policy@ }
            },
        }
    }
}

pub open spec fn admission_wf(a: RuntimeAdmissionPolicyV) -> bool {
    match a {
        RuntimeAdmissionPolicyV::AnyNode {} => true,
        RuntimeAdmissionPolicyV::EntityWhitelist { policy } => whitelist_wf(policy),
    }
}

/// Per-runtime overrides of minimum-stake thresholds, keyed by threshold
/// kind, strictly ascending by code. Logically empty overrides are held as
/// absent, never as an empty map, so that the canonical encoding is free of
/// empty-map artifacts.
#[derive(Debug)]
pub struct RuntimeStakingParameters {
    pub thresholds: Option<Vec<(ThresholdKind, Quantity)>>,
}

/// The view of a `RuntimeStakingParameters`.
#[verifier::ext_equal]
pub struct RuntimeStakingParametersV {
    pub thresholds: Option<Seq<(ThresholdKind, Seq<u8>)>>,
}

impl View for RuntimeStakingParameters {
    type V = RuntimeStakingParametersV;

    open spec fn view(&self) -> RuntimeStakingParametersV {
        RuntimeStakingParametersV {
            thresholds: match self.thresholds {
                Some(ref ts) => Some(
                    ts@.map_values(|p: (ThresholdKind, Quantity)| (p.0, p.1.bytes@)),
                ),
                None => None,
            },
        }
    }
}

pub open spec fn thresholds_wf(ts: Seq<(ThresholdKind, Seq<u8>)>) -> bool {
    &&& ts.len() <= u32::MAX
    &&& forall|i: int| 0 <= i < ts.len() ==> quantity_wf((#[trigger] ts[i]).1)
    &&& forall|x: int|
        0 <= x && x + 1 < ts.len() ==> threshold_kind_code((#[trigger] ts[x]).0)
            < threshold_kind_code(ts[x + 1].0)
}

pub open spec fn staking_wf(sp: RuntimeStakingParametersV) -> bool {
    match sp.thresholds {
        Some(ts) => ts.len() > 0 && thresholds_wf(ts),
        None => true,
    }
}

/// Builds staking parameters, normalizing logically empty overrides to
/// absent so that no empty-map artifact can reach the canonical encoding.
pub fn staking_params(thresholds: Option<Vec<(ThresholdKind, Quantity)>>) -> (r:
    RuntimeStakingParameters)
    ensures
        r@.thresholds is Some <==> (thresholds matches Some(ts) && ts@.len() > 0),
        r@.thresholds matches Some(ts) ==> thresholds matches Some(t0) && ts == t0@.map_values(
            |p: (ThresholdKind, Quantity)| (p.0, p.1.bytes@),
        ),
{
    match thresholds {
        Some(ts) => {
            if ts.len() == 0 {
                RuntimeStakingParameters { thresholds: None }
            } else {
                RuntimeStakingParameters { thresholds: Some(ts) }
            }
        },
        None => RuntimeStakingParameters { thresholds: None },
    }
}

/// The authoritative descriptor for one runtime in the registry.
#[derive(Debug)]
pub struct Runtime {
    /// Schema version of this descriptor.
    pub v: u16,
    /// Globally unique namespace identifier, immutable after creation.
    pub id: Namespace,
    /// Public key of the owning entity; authorizes updates.
    pub entity_id: PublicKey,
    /// The state the runtime starts from.
    pub genesis: RuntimeGenesis,
    /// What the runtime is.
    pub kind: RuntimeKind,
    /// Which TEE hardware the runtime requires.
    pub tee_hardware: TEEHardware,
    /// Version plus hardware-specific attestation blob.
    pub versions: VersionInfo,
    /// The key-manager runtime this runtime delegates secret management to.
    pub key_manager: Option<Namespace>,
    /// Executor committee parameters.
    pub executor: ExecutorParameters,
    /// Transaction-scheduler parameters.
    pub txn_scheduler: TxnSchedulerParameters,
    /// Storage committee parameters.
    pub storage: StorageParameters,
    /// How nodes are admitted to serve this runtime.
    pub admission_policy: RuntimeAdmissionPolicy,
    /// Per-runtime minimum-stake overrides.
    pub staking: RuntimeStakingParameters,
    /// Who may amend this record.
    pub governance_model: RuntimeGovernanceModel,
}

/// The view of a `Runtime`.
#[verifier::ext_equal]
pub struct RuntimeV {
    pub v: u16,
    pub id: Seq<u8>,
    pub entity_id: Seq<u8>,
    pub genesis: RuntimeGenesisV,
    pub kind: RuntimeKind,
    pub tee_hardware: TEEHardware,
    pub versions: VersionInfoV,
    pub key_manager: Option<Seq<u8>>,
    pub executor: ExecutorParameters,
    pub txn_scheduler: TxnSchedulerParametersV,
    pub storage: StorageParameters,
    pub admission_policy: RuntimeAdmissionPolicyV,
    pub staking: RuntimeStakingParametersV,
    pub governance_model: RuntimeGovernanceModel,
}

impl View for Runtime {
    type V = RuntimeV;

    open spec fn view(&self) -> RuntimeV {
        RuntimeV {
            v: self.v,
            id: self.id.bytes@,
            entity_id: self.entity_id.bytes@,
            genesis: self.genesis@,
            kind: self.kind,
            tee_hardware: self.tee_hardware,
            versions: self.versions@,
            key_manager: match self.key_manager {
                Some(ref n) => Some(n.bytes@),
                None => None,
            },
            executor: self.executor,
            txn_scheduler: self.txn_scheduler@,
            storage: self.storage,
            admission_policy: self.admission_policy@,
            staking: self.staking@,
            governance_model: self.governance_model,
        }
    }
}

/// Structural well-formedness: the supported schema version, fixed-length
/// identifiers, canonical map order and no empty-map artifact.
pub open spec fn runtime_wf_struct(r: RuntimeV) -> bool {
    &&& r.v == RUNTIME_SCHEMA_VERSION
    &&& r.id.len() == NAMESPACE_LEN
    &&& r.entity_id.len() == crate::keys::PUBLIC_KEY_LEN
    &&& genesis_wf(r.genesis)
    &&& version_info_wf(r.versions)
    &&& match r.key_manager {
        Some(k) => k.len() == NAMESPACE_LEN,
        None => true,
    }
    &&& txn_scheduler_wf(r.txn_scheduler)
    &&& admission_wf(r.admission_policy)
    &&& staking_wf(r.staking)
}

/// No sentinel "Invalid/zero" enum value may appear in committed state.
pub open spec fn runtime_sentinel_free(r: RuntimeV) -> bool {
    &&& r.kind != RuntimeKind::KindInvalid
    &&& r.tee_hardware != TEEHardware::TEEHardwareInvalid
    &&& r.governance_model != RuntimeGovernanceModel::GovernanceInvalid
}

/// A well-formed runtime record: structurally canonical and sentinel-free.
pub open spec fn runtime_wf(r: RuntimeV) -> bool {
    runtime_wf_struct(r) && runtime_sentinel_free(r)
}

/// Why a registry operation rejected its input.
#[derive(Clone, Copy, Debug, PartialEq, Eq, Structural)]
pub enum RegistryError {
    /// The record carries a schema version this reader does not know.
    SchemaVersionUnsupported,
    /// An Invalid/zero enum value reached committed state.
    InvalidSentinelVariant,
    /// The bytes are not the canonical encoding of any well-formed record.
    NonCanonicalEncoding,
    /// No network-wide default threshold exists for the requested kind.
    MissingNetworkDefault,
}

impl Runtime {
    /// Validates the boundary invariants of a record: the schema version
    /// must be supported and no sentinel enum value may be present.
    pub fn validate(&self) -> (r: Result<(), RegistryError>)
        ensures
            r matches Ok(()) <==> self@.v == RUNTIME_SCHEMA_VERSION && runtime_sentinel_free(self@),
            r == Err::<(), RegistryError>(RegistryError::SchemaVersionUnsupported) <==> self@.v
                != RUNTIME_SCHEMA_VERSION,
            r == Err::<(), RegistryError>(RegistryError::InvalidSentinelVariant) <==> self@.v
                == RUNTIME_SCHEMA_VERSION && !runtime_sentinel_free(self@),
    {
        if self.v != RUNTIME_SCHEMA_VERSION {
            return Err(RegistryError::SchemaVersionUnsupported);
        }
        if self.kind == RuntimeKind::KindInvalid || self.tee_hardware
            == TEEHardware::TEEHardwareInvalid || self.governance_model
            == RuntimeGovernanceModel::GovernanceInvalid {
            return Err(RegistryError::InvalidSentinelVariant);
        }
        Ok(())
    }
}

// ---------------------------------------------------------------------------
// Admission policy evaluation
// ---------------------------------------------------------------------------

/// Why a candidate node was not admitted.
#[derive(Clone, Copy, Debug, PartialEq, Eq, Structural)]
pub enum AdmissionError {
    /// The candidate's entity is not on the whitelist.
    NotWhitelisted,
    /// The per-role node cap for this role is already reached.
    RoleCapExceeded(RolesMask),
}

/// Whether `roles` contains `role`.
pub open spec fn has_role(roles: Seq<RolesMask>, role: RolesMask) -> bool {
    exists|i: int| 0 <= i < roles.len() && roles[i] == role
}

/// The cap configured for `role`, if any (first match).
pub open spec fn caps_lookup(caps: Seq<(RolesMask, u16)>, role: RolesMask) -> Option<u16>
    decreases caps.len(),
{
    if caps.len() == 0 {
        None
    } else if caps[0].0 == role {
        Some(caps[0].1)
    } else {
        caps_lookup(caps.drop_first(), role)
    }
}

/// How many of the entity's nodes currently hold `role` (first match;
/// missing means zero).
pub open spec fn counts_lookup(counts: Seq<(RolesMask, u64)>, role: RolesMask) -> u64
    decreases counts.len(),
{
    if counts.len() == 0 {
        0
    } else if counts[0].0 == role {
        counts[0].1
    } else {
        counts_lookup(counts.drop_first(), role)
    }
}

/// Whether the candidate requests `role` and the configured cap for `role`
/// is already reached.
pub open spec fn role_capped(
    cfg: EntityWhitelistConfigV,
    roles: Seq<RolesMask>,
    counts: Seq<(RolesMask, u64)>,
    role: RolesMask,
) -> bool {
    has_role(roles, role) && match cfg.max_nodes {
        Some(caps) => match caps_lookup(caps, role) {
            Some(cap) => counts_lookup(counts, role) >= cap,
            None => false,
        },
        None => false,
    }
}

/// The first requested role, in ascending bit order, whose cap is reached.
pub open spec fn first_capped_role(
    cfg: EntityWhitelistConfigV,
    roles: Seq<RolesMask>,
    counts: Seq<(RolesMask, u64)>,
) -> Option<RolesMask> {
    if role_capped(cfg, roles, counts, RolesMask::RoleComputeWorker) {
        Some(RolesMask::RoleComputeWorker)
    } else if role_capped(cfg, roles, counts, RolesMask::RoleStorageWorker) {
        Some(RolesMask::RoleStorageWorker)
    } else if role_capped(cfg, roles, counts, RolesMask::RoleKeyManager) {
        Some(RolesMask::RoleKeyManager)
    } else if role_capped(cfg, roles, counts, RolesMask::RoleValidator) {
        Some(RolesMask::RoleValidator)
    } else if role_capped(cfg, roles, counts, RolesMask::RoleConsensusRPC) {
        Some(RolesMask::RoleConsensusRPC)
    } else {
        None
    }
}

/// The whitelist configuration recorded for entity key `k` (first match).
pub open spec fn entities_lookup(
    es: Seq<(Seq<u8>, EntityWhitelistConfigV)>,
    k: Seq<u8>,
) -> Option<EntityWhitelistConfigV>
    decreases es.len(),
{
    if es.len() == 0 {
        None
    } else if es[0].0 == k {
        Some(es[0].1)
    } else {
        entities_lookup(es.drop_first(), k)
    }
}

/// What `may_admit` decides, as a function of the policy, the candidate's
/// entity and roles, and the entity's current per-role node counts.
pub open spec fn may_admit_spec(
    policy: RuntimeAdmissionPolicyV,
    entity: Seq<u8>,
    roles: Seq<RolesMask>,
    counts: Seq<(RolesMask, u64)>,
) -> Result<(), AdmissionError> {
    match policy {
        RuntimeAdmissionPolicyV::AnyNode {} => Ok(()),
        RuntimeAdmissionPolicyV::EntityWhitelist { policy: wl } => {
            let cfg = match wl.entities {
                Some(es) => entities_lookup(es, entity),
                None => None,
            };
            match cfg {
                None => Err(AdmissionError::NotWhitelisted),
                Some(cfg) => match first_capped_role(cfg, roles, counts) {
                    Some(role) => Err(AdmissionError::RoleCapExceeded(role)),
                    None => Ok(()),
                },
            }
        },
    }
}

/// Under `AnyNode` every candidate is admitted, whatever its entity, roles
/// or current counts.
pub proof fn lemma_any_node_admits(
    entity: Seq<u8>,
    roles: Seq<RolesMask>,
    counts: Seq<(RolesMask, u64)>,
)
    ensures
        may_admit_spec(RuntimeAdmissionPolicyV::AnyNode {}, entity, roles, counts) == Ok::<
            (),
            AdmissionError,
        >(()),
{
}

/// Under `EntityWhitelist` a candidate whose entity is not listed is always
/// rejected as `NotWhitelisted`.
pub proof fn lemma_unlisted_entity_rejected(
    wl: EntityWhitelistRuntimeAdmissionPolicyV,
    entity: Seq<u8>,
    roles: Seq<RolesMask>,
    counts: Seq<(RolesMask, u64)>,
)
    requires
        match wl.entities {
            Some(es) => entities_lookup(es, entity) is None,
            None => true,
        },
    ensures
        may_admit_spec(
            RuntimeAdmissionPolicyV::EntityWhitelist { policy: wl },
            entity,
            roles,
            counts,
        ) == Err::<(), AdmissionError>(AdmissionError::NotWhitelisted),
{
}

/// Finds the configuration recorded for `entity` (first match).
fn entities_find(
    es: &Vec<(PublicKey, EntityWhitelistConfig)>,
    entity: &PublicKey,
) -> (r: Option<EntityWhitelistConfig>)
    ensures
        ({
            let esv = es@.map_values(|p: (PublicKey, EntityWhitelistConfig)| (p.0.bytes@, p.1@));
            match r {
                Some(cfg) => entities_lookup(esv, entity.bytes@) == Some(cfg@),
                None => entities_lookup(esv, entity.bytes@) is None,
            }
        }),
{
    let ghost esv = es@.map_values(|p: (PublicKey, EntityWhitelistConfig)| (p.0.bytes@, p.1@));
    let n = es.len();
    let mut i: usize = 0;
    proof {
        assert(esv.skip(0) =~= esv);
    }
    while i < n
        invariant
            n == es@.len(),
            0 <= i <= n,
            esv == es@.map_values(|p: (PublicKey, EntityWhitelistConfig)| (p.0.bytes@, p.1@)),
            entities_lookup(esv.skip(i as int), entity.bytes@) == entities_lookup(
                esv,
                entity.bytes@,
            ),
        decreases n - i,
    {
        proof {
            assert(esv.skip(i as int)[0] == esv[i as int]);
            assert(esv.skip(i as int).drop_first() =~= esv.skip(i + 1));
        }
        if crate::bytes_eq(&es[i].0.bytes, &entity.bytes) {
            return Some(es[i].1.clone());
        }
        i += 1;
    }
    proof {
        assert(esv.skip(n as int) =~= Seq::<(Seq<u8>, EntityWhitelistConfigV)>::empty());
    }
    None
}

/// Looks up the cap configured for `role` (first match).
fn caps_find(caps: &Vec<(RolesMask, u16)>, role: RolesMask) -> (r: Option<u16>)
    ensures
        r == caps_lookup(caps@, role),
{
    let n = caps.len();
    let mut i: usize = 0;
    proof {
        assert(caps@.skip(0) =~= caps@);
    }
    while i < n
        invariant
            n == caps@.len(),
            0 <= i <= n,
            caps_lookup(caps@.skip(i as int), role) == caps_lookup(caps@, role),
        decreases n - i,
    {
        proof {
            assert(caps@.skip(i as int)[0] == caps@[i as int]);
            assert(caps@.skip(i as int).drop_first() =~= caps@.skip(i + 1));
        }
        if caps[i].0 == role {
            return Some(caps[i].1);
        }
        i += 1;
    }
    proof {
        assert(caps@.skip(n as int) =~= Seq::<(RolesMask, u16)>::empty());
    }
    None
}

/// Looks up how many nodes currently hold `role` (first match, zero when
/// missing).
fn counts_find(counts: &Vec<(RolesMask, u64)>, role: RolesMask) -> (r: u64)
    ensures
        r == counts_lookup(counts@, role),
{
    let n = counts.len();
    let mut i: usize = 0;
    proof {
        assert(counts@.skip(0) =~= counts@);
    }
    while i < n
        invariant
            n == counts@.len(),
            0 <= i <= n,
            counts_lookup(counts@.skip(i as int), role) == counts_lookup(counts@, role),
        decreases n - i,
    {
        proof {
            assert(counts@.skip(i as int)[0] == counts@[i as int]);
            assert(counts@.skip(i as int).drop_first() =~= counts@.skip(i + 1));
        }
        if counts[i].0 == role {
            return counts[i].1;
        }
        i += 1;
    }
    proof {
        assert(counts@.skip(n as int) =~= Seq::<(RolesMask, u64)>::empty());
    }
    0
}

/// Whether `roles` contains `role`.
fn roles_contain(roles: &Vec<RolesMask>, role: RolesMask) -> (r: bool)
    ensures
        r == has_role(roles@, role),
{
    let n = roles.len();
    let mut i: usize = 0;
    while i < n
        invariant
            n == roles@.len(),
            0 <= i <= n,
            forall|j: int| 0 <= j < i ==> roles@[j] != role,
        decreases n - i,
    {
        if roles[i] == role {
            return true;
        }
        i += 1;
    }
    false
}

/// Whether the cap for `role` is reached for this candidate.
fn role_capped_exec(
    cfg: &EntityWhitelistConfig,
    roles: &Vec<RolesMask>,
    counts: &Vec<(RolesMask, u64)>,
    role: RolesMask,
) -> (r: bool)
    ensures
        r == role_capped(cfg@, roles@, counts@, role),
{
    if !roles_contain(roles, role) {
        return false;
    }
    match &cfg.max_nodes {
        None => false,
        Some(caps) => match caps_find(caps, role) {
            None => false,
            Some(cap) => counts_find(counts, role) >= cap as u64,
        },
    }
}

/// Decides whether a candidate node may register to serve a runtime, per the
/// runtime's admission policy.
///
/// Under `AnyNode` every candidate is admitted. Under `EntityWhitelist` the
/// candidate's entity must be listed, and for every requested role whose cap
/// is configured the entity's current node count for that role must be below
/// the cap; caps are evaluated independently per role, in ascending bit
/// order. The function is pure: the caller updates role counts after an
/// admission.
pub fn may_admit(
    policy: &RuntimeAdmissionPolicy,
    candidate_entity: &PublicKey,
    candidate_roles: &Vec<RolesMask>,
    current_role_counts: &Vec<(RolesMask, u64)>,
) -> (r: Result<(), AdmissionError>)
    ensures
        r == may_admit_spec(policy@, candidate_entity.bytes@, candidate_roles@,
            current_role_counts@),
{
    match policy {
        RuntimeAdmissionPolicy::AnyNode {} => Ok(()),
        RuntimeAdmissionPolicy::EntityWhitelist { policy: wl } => {
            let cfg = match &wl.entities {
                Some(es) => entities_find(es, candidate_entity),
                None => None,
            };
            let cfg = match cfg {
                None => {
                    return Err(AdmissionError::NotWhitelisted);
                },
                Some(cfg) => cfg,
            };
            if role_capped_exec(&cfg, candidate_roles, current_role_counts,
                RolesMask::RoleComputeWorker) {
                return Err(AdmissionError::RoleCapExceeded(RolesMask::RoleComputeWorker));
            }
            if role_capped_exec(&cfg, candidate_roles, current_role_counts,
                RolesMask::RoleStorageWorker) {
                return Err(AdmissionError::RoleCapExceeded(RolesMask::RoleStorageWorker));
            }
            if role_capped_exec(&cfg, candidate_roles, current_role_counts,
                RolesMask::RoleKeyManager) {
                return Err(AdmissionError::RoleCapExceeded(RolesMask::RoleKeyManager));
            }
            if role_capped_exec(&cfg, candidate_roles, current_role_counts,
                RolesMask::RoleValidator) {
                return Err(AdmissionError::RoleCapExceeded(RolesMask::RoleValidator));
            }
            if role_capped_exec(&cfg, candidate_roles, current_role_counts,
                RolesMask::RoleConsensusRPC) {
                return Err(AdmissionError::RoleCapExceeded(RolesMask::RoleConsensusRPC));
            }
            Ok(())
        },
    }
}

// ---------------------------------------------------------------------------
// Staking threshold resolution
// ---------------------------------------------------------------------------

/// The threshold recorded for `kind` (first match).
pub open spec fn thresholds_lookup(
    ts: Seq<(ThresholdKind, Seq<u8>)>,
    kind: ThresholdKind,
) -> Option<Seq<u8>>
    decreases ts.len(),
{
    if ts.len() == 0 {
        None
    } else if ts[0].0 == kind {
        Some(ts[0].1)
    } else {
        thresholds_lookup(ts.drop_first(), kind)
    }
}

/// What `min_stake` resolves to: the runtime's own override for `kind` when
/// present, else the network-wide default; a missing network default is a
/// configuration error.
pub open spec fn min_stake_spec(
    r: RuntimeV,
    kind: ThresholdKind,
    network_defaults: Seq<(ThresholdKind, Seq<u8>)>,
) -> Result<Seq<u8>, RegistryError> {
    let over = match r.staking.thresholds {
        Some(ts) => thresholds_lookup(ts, kind),
        None => None,
    };
    match over {
        Some(q) => Ok(q),
        None => match thresholds_lookup(network_defaults, kind) {
            Some(q) => Ok(q),
            None => Err(RegistryError::MissingNetworkDefault),
        },
    }
}

/// Looks up the threshold recorded for `kind` (first match).
fn thresholds_find(ts: &Vec<(ThresholdKind, Quantity)>, kind: ThresholdKind) -> (r: Option<
    Quantity,
>)
    ensures
        ({
            let tsv = ts@.map_values(|p: (ThresholdKind, Quantity)| (p.0, p.1.bytes@));
            match r {
                Some(q) => thresholds_lookup(tsv, kind) == Some(q.bytes@),
                None => thresholds_lookup(tsv, kind) is None,
            }
        }),
{
    let ghost tsv = ts@.map_values(|p: (ThresholdKind, Quantity)| (p.0, p.1.bytes@));
    let n = ts.len();
    let mut i: usize = 0;
    proof {
        assert(tsv.skip(0) =~= tsv);
    }
    while i < n
        invariant
            n == ts@.len(),
            0 <= i <= n,
            tsv == ts@.map_values(|p: (ThresholdKind, Quantity)| (p.0, p.1.bytes@)),
            thresholds_lookup(tsv.skip(i as int), kind) == thresholds_lookup(tsv, kind),
        decreases n - i,
    {
        proof {
            assert(tsv.skip(i as int)[0] == tsv[i as int]);
            assert(tsv.skip(i as int).drop_first() =~= tsv.skip(i + 1));
        }
        if ts[i].0 == kind {
            return Some(ts[i].1.clone());
        }
        i += 1;
    }
    proof {
        assert(tsv.skip(n as int) =~= Seq::<(ThresholdKind, Seq<u8>)>::empty());
    }
    None
}

/// Resolves the minimum stake an entity must hold for `kind` under
/// `runtime`: the runtime's override when one exists, else the network-wide
/// default. A missing network default is a fatal configuration gap reported
/// as `MissingNetworkDefault`, never silently zero.
pub fn min_stake(
    runtime: &Runtime,
    kind: ThresholdKind,
    network_defaults: &Vec<(ThresholdKind, Quantity)>,
) -> (r: Result<Quantity, RegistryError>)
    ensures
        ({
            let dv = network_defaults@.map_values(|p: (ThresholdKind, Quantity)| (p.0, p.1.bytes@));
            match r {
                Ok(q) => min_stake_spec(runtime@, kind, dv) == Ok::<Seq<u8>, RegistryError>(
                    q.bytes@,
                ),
                Err(e) => min_stake_spec(runtime@, kind, dv) == Err::<Seq<u8>, RegistryError>(e),
            }
        }),
{
    let over = match &runtime.staking.thresholds {
        Some(ts) => thresholds_find(ts, kind),
        None => None,
    };
    match over {
        Some(q) => Ok(q),
        None => match thresholds_find(network_defaults, kind) {
            Some(q) => Ok(q),
            None => Err(RegistryError::MissingNetworkDefault),
        },
    }
}

} // verus!
