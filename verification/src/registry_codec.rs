//! Canonical encoding and decoding of registry entities.
//!
//! The encoding is deterministic and order-stable: equal logical records
//! yield byte-identical encodings on every replica, optional fields that are
//! logically absent contribute a single absent tag (never an empty-container
//! artifact), and map entries appear in their canonical key order. The
//! decoder accepts exactly the canonical encodings of well-formed records.

use vstd::prelude::*;

use crate::codec::enc_bytes;
use crate::codec::enc_i64;
use crate::codec::enc_u16;
use crate::codec::enc_u32;
use crate::codec::enc_u64;
use crate::codec::enc_u8;
use crate::codec::put_bytes;
use crate::codec::put_i64;
use crate::codec::put_raw;
use crate::codec::put_u16;
use crate::codec::put_u32;
use crate::codec::put_u64;
use crate::policy::SignatureBundle;
use crate::policy::SignatureBundleV;
use crate::registry::role_bit;
use crate::registry::role_bit_of;
use crate::registry::EntityWhitelistConfig;
use crate::registry::EntityWhitelistConfigV;
use crate::registry::EntityWhitelistRuntimeAdmissionPolicyV;
use crate::registry::LogEntry;
use crate::registry::LogEntryV;
use crate::registry::RolesMask;
use crate::registry::Runtime;
use crate::registry::RuntimeAdmissionPolicy;
use crate::registry::RuntimeAdmissionPolicyV;
use crate::registry::RuntimeGenesisV;
use crate::registry::RuntimeGovernanceModel;
use crate::registry::RuntimeKind;
use crate::registry::RuntimeStakingParametersV;
use crate::registry::RuntimeV;
use crate::registry::TEEHardware;
use crate::registry::TxnSchedulerParametersV;
use crate::registry::Version;
use crate::registry::VersionInfoV;
use crate::registry::ExecutorParameters;
use crate::registry::StorageParameters;
use crate::keys::PublicKey;
use crate::staking::threshold_kind_code;
use crate::staking::Quantity;
use crate::staking::ThresholdKind;

verus! {

/// The canonical code of a runtime kind.
pub open spec fn runtime_kind_code(k: RuntimeKind) -> u8 {
    match k {
        RuntimeKind::KindInvalid => 0,
        RuntimeKind::KindCompute => 1,
        RuntimeKind::KindKeyManager => 2,
    }
}

/// The runtime kind a code denotes, if any.
pub open spec fn runtime_kind_of_code(c: u8) -> Option<RuntimeKind> {
    if c == 0 {
        Some(RuntimeKind::KindInvalid)
    } else if c == 1 {
        Some(RuntimeKind::KindCompute)
    } else if c == 2 {
        Some(RuntimeKind::KindKeyManager)
    } else {
        None
    }
}

/// The canonical code of a TEE hardware kind.
pub open spec fn tee_hardware_code(t: TEEHardware) -> u8 {
    match t {
        TEEHardware::TEEHardwareInvalid => 0,
        TEEHardware::TEEHardwareIntelSGX => 1,
    }
}

/// The TEE hardware kind a code denotes, if any.
pub open spec fn tee_hardware_of_code(c: u8) -> Option<TEEHardware> {
    if c == 0 {
        Some(TEEHardware::TEEHardwareInvalid)
    } else if c == 1 {
        Some(TEEHardware::TEEHardwareIntelSGX)
    } else {
        None
    }
}

/// The canonical code of a governance model.
pub open spec fn governance_code(g: RuntimeGovernanceModel) -> u8 {
    match g {
        RuntimeGovernanceModel::GovernanceInvalid => 0,
        RuntimeGovernanceModel::GovernanceEntity => 1,
        RuntimeGovernanceModel::GovernanceRuntime => 2,
        RuntimeGovernanceModel::GovernanceConsensus => 3,
    }
}

/// The governance model a code denotes, if any.
pub open spec fn governance_of_code(c: u8) -> Option<RuntimeGovernanceModel> {
    if c == 0 {
        Some(RuntimeGovernanceModel::GovernanceInvalid)
    } else if c == 1 {
        Some(RuntimeGovernanceModel::GovernanceEntity)
    } else if c == 2 {
        Some(RuntimeGovernanceModel::GovernanceRuntime)
    } else if c == 3 {
        Some(RuntimeGovernanceModel::GovernanceConsensus)
    } else {
        None
    }
}

/// Canonical encoding of a version number.
pub open spec fn enc_version(v: Version) -> Seq<u8> {
    enc_u16(v.major) + enc_u16(v.minor) + enc_u16(v.patch)
}

/// Canonical encoding of a version-info group: the version, then the
/// attestation blob behind a presence tag (absent blobs are a single byte).
pub open spec fn enc_version_info(vi: VersionInfoV) -> Seq<u8> {
    enc_version(vi.version) + match vi.tee {
        None => seq![0u8],
        Some(t) => seq![1u8] + enc_bytes(t),
    }
}

/// Canonical encoding of the executor parameter group.
pub open spec fn enc_executor(e: ExecutorParameters) -> Seq<u8> {
    enc_u64(e.group_size) + enc_u64(e.group_backup_size) + enc_u64(e.allowed_stragglers) + enc_i64(
        e.round_timeout,
    ) + enc_u32(e.max_messages) + enc_u64(e.min_pool_size)
}

/// Canonical encoding of the transaction-scheduler parameter group.
pub open spec fn enc_txn_scheduler(t: TxnSchedulerParametersV) -> Seq<u8> {
    enc_bytes(t.algorithm) + enc_i64(t.batch_flush_timeout) + enc_u64(t.max_batch_size) + enc_u64(
        t.max_batch_size_bytes,
    ) + enc_i64(t.propose_batch_timeout)
}

/// Canonical encoding of the storage parameter group.
pub open spec fn enc_storage(s: StorageParameters) -> Seq<u8> {
    enc_u64(s.group_size) + enc_u64(s.min_write_replication) + enc_u64(
        s.max_apply_write_log_entries,
    ) + enc_u64(s.max_apply_ops) + enc_u64(s.checkpoint_interval) + enc_u64(s.checkpoint_num_kept)
        + enc_u64(s.checkpoint_chunk_size) + enc_u64(s.min_pool_size)
}

/// Canonical encoding of one write-log entry.
pub open spec fn enc_log_entry(e: LogEntryV) -> Seq<u8> {
    enc_bytes(e.key) + enc_bytes(e.value)
}

/// Canonical encoding of a run of write-log entries.
pub open spec fn enc_log_entries(s: Seq<LogEntryV>) -> Seq<u8>
    decreases s.len(),
{
    if s.len() == 0 {
        Seq::empty()
    } else {
        enc_log_entry(s[0]) + enc_log_entries(s.drop_first())
    }
}

/// Canonical encoding of a signature bundle: the declared key behind a
/// presence tag, then the signature bytes.
pub open spec fn enc_bundle(sb: SignatureBundleV) -> Seq<u8> {
    (match sb.public_key {
        None => seq![0u8],
        Some(k) => seq![1u8] + k,
    }) + sb.signature
}

/// Canonical encoding of a run of signature bundles.
pub open spec fn enc_bundles(s: Seq<SignatureBundleV>) -> Seq<u8>
    decreases s.len(),
{
    if s.len() == 0 {
        Seq::empty()
    } else {
        enc_bundle(s[0]) + enc_bundles(s.drop_first())
    }
}

/// Canonical encoding of one role-cap entry: the role's bit value, then the
/// cap.
pub open spec fn enc_cap(c: (RolesMask, u16)) -> Seq<u8> {
    enc_u8(role_bit(c.0)) + enc_u16(c.1)
}

/// Canonical encoding of a run of role-cap entries.
pub open spec fn enc_caps(s: Seq<(RolesMask, u16)>) -> Seq<u8>
    decreases s.len(),
{
    if s.len() == 0 {
        Seq::empty()
    } else {
        enc_cap(s[0]) + enc_caps(s.drop_first())
    }
}

/// Canonical encoding of a whitelist entry configuration.
pub open spec fn enc_config(c: EntityWhitelistConfigV) -> Seq<u8> {
    match c.max_nodes {
        None => seq![0u8],
        Some(m) => seq![1u8] + enc_u32(m.len() as u32) + enc_caps(m),
    }
}

/// Canonical encoding of one whitelist entry: the entity key, then its
/// configuration.
pub open spec fn enc_entity(e: (Seq<u8>, EntityWhitelistConfigV)) -> Seq<u8> {
    e.0 + enc_config(e.1)
}

/// Canonical encoding of a run of whitelist entries.
pub open spec fn enc_entities(s: Seq<(Seq<u8>, EntityWhitelistConfigV)>) -> Seq<u8>
    decreases s.len(),
{
    if s.len() == 0 {
        Seq::empty()
    } else {
        enc_entity(s[0]) + enc_entities(s.drop_first())
    }
}

/// Canonical encoding of an optional whitelist table.
pub open spec fn enc_entities_part(o: Option<Seq<(Seq<u8>, EntityWhitelistConfigV)>>) -> Seq<u8> {
    match o {
        None => seq![0u8],
        Some(es) => seq![1u8] + enc_u32(es.len() as u32) + enc_entities(es),
    }
}

/// Canonical encoding of an admission policy.
pub open spec fn enc_admission(a: RuntimeAdmissionPolicyV) -> Seq<u8> {
    match a {
        RuntimeAdmissionPolicyV::AnyNode {  } => seq![0u8],
        RuntimeAdmissionPolicyV::EntityWhitelist { policy } => seq![1u8] + enc_entities_part(
            policy.entities,
        ),
    }
}

/// Canonical encoding of one threshold override: the kind's code, then the
/// amount's magnitude bytes.
pub open spec fn enc_threshold(t: (ThresholdKind, Seq<u8>)) -> Seq<u8> {
    enc_u8(threshold_kind_code(t.0)) + enc_bytes(t.1)
}

/// Canonical encoding of a run of threshold overrides.
pub open spec fn enc_thresholds(s: Seq<(ThresholdKind, Seq<u8>)>) -> Seq<u8>
    decreases s.len(),
{
    if s.len() == 0 {
        Seq::empty()
    } else {
        enc_threshold(s[0]) + enc_thresholds(s.drop_first())
    }
}

/// Canonical encoding of the staking overrides; logically empty overrides
/// are a single absent tag.
pub open spec fn enc_staking(sp: RuntimeStakingParametersV) -> Seq<u8> {
    match sp.thresholds {
        None => seq![0u8],
        Some(ts) => seq![1u8] + enc_u32(ts.len() as u32) + enc_thresholds(ts),
    }
}

/// Canonical encoding of an optional genesis write log.
pub open spec fn enc_state_part(st: Option<Seq<LogEntryV>>) -> Seq<u8> {
    match st {
        None => seq![0u8],
        Some(s) => seq![1u8] + enc_u32(s.len() as u32) + enc_log_entries(s),
    }
}

/// Canonical encoding of an optional receipt list.
pub open spec fn enc_receipts_part(rc: Option<Seq<SignatureBundleV>>) -> Seq<u8> {
    match rc {
        None => seq![0u8],
        Some(s) => seq![1u8] + enc_u32(s.len() as u32) + enc_bundles(s),
    }
}

/// Canonical encoding of the genesis group.
pub open spec fn enc_genesis(g: RuntimeGenesisV) -> Seq<u8> {
    g.state_root + enc_state_part(g.state) + enc_receipts_part(g.storage_receipts) + enc_u64(
        g.round,
    )
}

/// Canonical encoding of a whole runtime descriptor: the schema version
/// first, then every field in declaration order.
/// Canonical encoding of an optional key-manager namespace.
pub open spec fn enc_km_part(o: Option<Seq<u8>>) -> Seq<u8> {
    match o {
        None => seq![0u8],
        Some(k) => seq![1u8] + k,
    }
}

/// Canonical encoding of a descriptor's identity quarter: version, ids and
/// genesis.
#[verifier::opaque]
pub open spec fn enc_head_ident(r: RuntimeV) -> Seq<u8> {
    enc_u16(r.v) + r.id + r.entity_id + enc_genesis(r.genesis)
}

/// Canonical encoding of a descriptor's trust quarter: kind, TEE hardware,
/// versions and key manager.
#[verifier::opaque]
pub open spec fn enc_head_tee(r: RuntimeV) -> Seq<u8> {
    enc_u8(runtime_kind_code(r.kind)) + enc_u8(tee_hardware_code(r.tee_hardware))
        + enc_version_info(r.versions) + enc_km_part(r.key_manager)
}

/// Canonical encoding of a descriptor's committee-parameter quarter.
#[verifier::opaque]
pub open spec fn enc_tail_params(r: RuntimeV) -> Seq<u8> {
    enc_executor(r.executor) + enc_txn_scheduler(r.txn_scheduler) + enc_storage(r.storage)
}

/// Canonical encoding of a descriptor's policy quarter: admission policy,
/// staking overrides and governance model.
#[verifier::opaque]
pub open spec fn enc_tail_policy(r: RuntimeV) -> Seq<u8> {
    enc_admission(r.admission_policy) + enc_staking(r.staking) + enc_u8(
        governance_code(r.governance_model),
    )
}

/// Canonical encoding of a descriptor's identity half: version, ids,
/// genesis, kinds, versions and key manager.
#[verifier::opaque]
pub open spec fn enc_runtime_head(r: RuntimeV) -> Seq<u8> {
    enc_head_ident(r) + enc_head_tee(r)
}

/// Canonical encoding of a descriptor's parameter half: the parameter
/// groups, admission policy, staking overrides and governance model.
#[verifier::opaque]
pub open spec fn enc_runtime_tail(r: RuntimeV) -> Seq<u8> {
    enc_tail_params(r) + enc_tail_policy(r)
}

#[verifier::opaque]
pub open spec fn enc_runtime(r: RuntimeV) -> Seq<u8> {
    enc_runtime_head(r) + enc_runtime_tail(r)
}

/// The deep view of a write log.
pub open spec fn log_view(s: Seq<LogEntry>) -> Seq<LogEntryV> {
    s.map_values(|e: LogEntry| e@)
}

/// The deep view of a receipt list.
pub open spec fn bundles_view(s: Seq<SignatureBundle>) -> Seq<SignatureBundleV> {
    s.map_values(|sb: SignatureBundle| sb@)
}

/// The deep view of a whitelist entry list.
pub open spec fn entities_view(s: Seq<(PublicKey, EntityWhitelistConfig)>) -> Seq<
    (Seq<u8>, EntityWhitelistConfigV),
> {
    s.map_values(|p: (PublicKey, EntityWhitelistConfig)| (p.0.bytes@, p.1@))
}

/// The deep view of a threshold override list.
pub open spec fn thresholds_view(s: Seq<(ThresholdKind, Quantity)>) -> Seq<
    (ThresholdKind, Seq<u8>),
> {
    s.map_values(|p: (ThresholdKind, Quantity)| (p.0, p.1.bytes@))
}

/// Computes the canonical code of a runtime kind.
pub fn runtime_kind_code_of(k: RuntimeKind) -> (c: u8)
    ensures
        c == runtime_kind_code(k),
{
    match k {
        RuntimeKind::KindInvalid => 0,
        RuntimeKind::KindCompute => 1,
        RuntimeKind::KindKeyManager => 2,
    }
}

/// Computes the canonical code of a TEE hardware kind.
pub fn tee_hardware_code_of(t: TEEHardware) -> (c: u8)
    ensures
        c == tee_hardware_code(t),
{
    match t {
        TEEHardware::TEEHardwareInvalid => 0,
        TEEHardware::TEEHardwareIntelSGX => 1,
    }
}

/// Computes the canonical code of a governance model.
pub fn governance_code_of(g: RuntimeGovernanceModel) -> (c: u8)
    ensures
        c == governance_code(g),
{
    match g {
        RuntimeGovernanceModel::GovernanceInvalid => 0,
        RuntimeGovernanceModel::GovernanceEntity => 1,
        RuntimeGovernanceModel::GovernanceRuntime => 2,
        RuntimeGovernanceModel::GovernanceConsensus => 3,
    }
}

/// Appends the entries of a write log from index `from` on.
fn encode_log_entries(out: &mut Vec<u8>, s: &Vec<LogEntry>, from: usize)
    requires
        from <= s@.len(),
        forall|k: int| 0 <= k < s@.len() ==> crate::registry::log_entry_wf(#[trigger] log_view(s@)[k]),
    ensures
        final(out)@ == old(out)@ + enc_log_entries(log_view(s@).skip(from as int)),
    decreases s@.len() - from,
{
    let ghost sv = log_view(s@);
    if from == s.len() {
        proof {
            assert(sv.skip(from as int) =~= Seq::<LogEntryV>::empty());
        }
        return ;
    }
    proof {
        assert(sv[from as int] == s@[from as int]@);
    }
    put_bytes(out, &s[from].key);
    put_bytes(out, &s[from].value);
    proof {
        assert(out@ =~= old(out)@ + enc_log_entry(sv[from as int]));
    }
    encode_log_entries(out, s, from + 1);
    proof {
        assert(sv.skip(from as int)[0] == sv[from as int]);
        assert(sv.skip(from as int).drop_first() =~= sv.skip(from + 1));
        assert(out@ =~= old(out)@ + enc_log_entries(sv.skip(from as int)));
    }
}

/// Appends the entries of a receipt list from index `from` on.
fn encode_bundles(out: &mut Vec<u8>, s: &Vec<SignatureBundle>, from: usize)
    requires
        from <= s@.len(),
    ensures
        final(out)@ == old(out)@ + enc_bundles(bundles_view(s@).skip(from as int)),
    decreases s@.len() - from,
{
    let ghost sv = bundles_view(s@);
    if from == s.len() {
        proof {
            assert(sv.skip(from as int) =~= Seq::<SignatureBundleV>::empty());
        }
        return ;
    }
    proof {
        assert(sv[from as int] == s@[from as int]@);
    }
    match &s[from].public_key {
        None => {
            crate::codec::put_u8(out, 0);
        },
        Some(pk) => {
            crate::codec::put_u8(out, 1);
            put_raw(out, &pk.bytes);
        },
    }
    put_raw(out, &s[from].signature.bytes);
    proof {
        assert(out@ =~= old(out)@ + enc_bundle(sv[from as int]));
    }
    encode_bundles(out, s, from + 1);
    proof {
        assert(sv.skip(from as int)[0] == sv[from as int]);
        assert(sv.skip(from as int).drop_first() =~= sv.skip(from + 1));
        assert(out@ =~= old(out)@ + enc_bundles(sv.skip(from as int)));
    }
}

/// Appends the entries of a role-cap table from index `from` on.
fn encode_caps(out: &mut Vec<u8>, m: &Vec<(RolesMask, u16)>, from: usize)
    requires
        from <= m@.len(),
    ensures
        final(out)@ == old(out)@ + enc_caps(m@.skip(from as int)),
    decreases m@.len() - from,
{
    if from == m.len() {
        proof {
            assert(m@.skip(from as int) =~= Seq::<(RolesMask, u16)>::empty());
        }
        return ;
    }
    let bit = role_bit_of(m[from].0);
    crate::codec::put_u8(out, bit);
    put_u16(out, m[from].1);
    proof {
        assert(out@ =~= old(out)@ + enc_cap(m@[from as int]));
    }
    encode_caps(out, m, from + 1);
    proof {
        assert(m@.skip(from as int)[0] == m@[from as int]);
        assert(m@.skip(from as int).drop_first() =~= m@.skip(from + 1));
        assert(out@ =~= old(out)@ + enc_caps(m@.skip(from as int)));
    }
}

/// Appends a whitelist entry configuration.
fn encode_config(out: &mut Vec<u8>, c: &EntityWhitelistConfig)
    requires
        crate::registry::config_wf(c@),
    ensures
        final(out)@ == old(out)@ + enc_config(c@),
{
    match &c.max_nodes {
        None => {
            crate::codec::put_u8(out, 0);
        },
        Some(m) => {
            crate::codec::put_u8(out, 1);
            put_u32(out, m.len() as u32);
            encode_caps(out, m, 0);
            proof {
                assert(m@.skip(0) =~= m@);
                assert(out@ =~= old(out)@ + enc_config(c@));
            }
        },
    }
}

/// Appends the entries of a whitelist from index `from` on.
fn encode_entities(out: &mut Vec<u8>, s: &Vec<(PublicKey, EntityWhitelistConfig)>, from: usize)
    requires
        from <= s@.len(),
        forall|k: int|
            0 <= k < s@.len() ==> crate::registry::config_wf((#[trigger] entities_view(s@)[k]).1),
    ensures
        final(out)@ == old(out)@ + enc_entities(entities_view(s@).skip(from as int)),
    decreases s@.len() - from,
{
    let ghost sv = entities_view(s@);
    if from == s.len() {
        proof {
            assert(sv.skip(from as int) =~= Seq::<(Seq<u8>, EntityWhitelistConfigV)>::empty());
        }
        return ;
    }
    proof {
        assert(sv[from as int] == (s@[from as int].0.bytes@, s@[from as int].1@));
    }
    put_raw(out, &s[from].0.bytes);
    encode_config(out, &s[from].1);
    proof {
        assert(out@ =~= old(out)@ + enc_entity(sv[from as int]));
    }
    encode_entities(out, s, from + 1);
    proof {
        assert(sv.skip(from as int)[0] == sv[from as int]);
        assert(sv.skip(from as int).drop_first() =~= sv.skip(from + 1));
        assert(out@ =~= old(out)@ + enc_entities(sv.skip(from as int)));
    }
}

/// Appends the entries of a threshold override table from index `from` on.
fn encode_thresholds(out: &mut Vec<u8>, s: &Vec<(ThresholdKind, Quantity)>, from: usize)
    requires
        from <= s@.len(),
        forall|k: int|
            0 <= k < s@.len() ==> crate::staking::quantity_wf(
                (#[trigger] thresholds_view(s@)[k]).1,
            ),
    ensures
        final(out)@ == old(out)@ + enc_thresholds(thresholds_view(s@).skip(from as int)),
    decreases s@.len() - from,
{
    let ghost sv = thresholds_view(s@);
    if from == s.len() {
        proof {
            assert(sv.skip(from as int) =~= Seq::<(ThresholdKind, Seq<u8>)>::empty());
        }
        return ;
    }
    proof {
        assert(sv[from as int] == (s@[from as int].0, s@[from as int].1.bytes@));
    }
    let code = crate::staking::kind_code(s[from].0);
    crate::codec::put_u8(out, code);
    put_bytes(out, &s[from].1.bytes);
    proof {
        assert(out@ =~= old(out)@ + enc_threshold(sv[from as int]));
    }
    encode_thresholds(out, s, from + 1);
    proof {
        assert(sv.skip(from as int)[0] == sv[from as int]);
        assert(sv.skip(from as int).drop_first() =~= sv.skip(from + 1));
        assert(out@ =~= old(out)@ + enc_thresholds(sv.skip(from as int)));
    }
}

/// Appends the canonical encoding of the genesis group.
fn encode_genesis(out: &mut Vec<u8>, g: &crate::registry::RuntimeGenesis)
    requires
        crate::registry::genesis_wf(g@),
    ensures
        final(out)@ == old(out)@ + enc_genesis(g@),
{
    put_raw(out, &g.state_root.bytes);
    match &g.state {
        None => {
            crate::codec::put_u8(out, 0);
        },
        Some(entries) => {
            crate::codec::put_u8(out, 1);
            put_u32(out, entries.len() as u32);
            encode_log_entries(out, entries, 0);
            proof {
                assert(log_view(entries@).skip(0) =~= log_view(entries@));
            }
        },
    }
    match &g.storage_receipts {
        None => {
            crate::codec::put_u8(out, 0);
        },
        Some(receipts) => {
            crate::codec::put_u8(out, 1);
            put_u32(out, receipts.len() as u32);
            encode_bundles(out, receipts, 0);
            proof {
                assert(bundles_view(receipts@).skip(0) =~= bundles_view(receipts@));
            }
        },
    }
    put_u64(out, g.round);
    proof {
        assert(out@ =~= old(out)@ + enc_genesis(g@));
    }
}

/// Appends the canonical encoding of the version-info group.
fn encode_version_info(out: &mut Vec<u8>, vi: &crate::registry::VersionInfo)
    requires
        crate::registry::version_info_wf(vi@),
    ensures
        final(out)@ == old(out)@ + enc_version_info(vi@),
{
    put_u16(out, vi.version.major);
    put_u16(out, vi.version.minor);
    put_u16(out, vi.version.patch);
    match &vi.tee {
        None => {
            crate::codec::put_u8(out, 0);
        },
        Some(t) => {
            crate::codec::put_u8(out, 1);
            put_bytes(out, t);
        },
    }
    proof {
        assert(out@ =~= old(out)@ + enc_version_info(vi@));
    }
}

/// Appends the canonical encoding of the executor parameter group.
fn encode_executor(out: &mut Vec<u8>, e: &ExecutorParameters)
    ensures
        final(out)@ == old(out)@ + enc_executor(*e),
{
    put_u64(out, e.group_size);
    put_u64(out, e.group_backup_size);
    put_u64(out, e.allowed_stragglers);
    put_i64(out, e.round_timeout);
    put_u32(out, e.max_messages);
    put_u64(out, e.min_pool_size);
    proof {
        assert(out@ =~= old(out)@ + enc_executor(*e));
    }
}

/// Appends the canonical encoding of the transaction-scheduler group.
fn encode_txn_scheduler(out: &mut Vec<u8>, t: &crate::registry::TxnSchedulerParameters)
    requires
        crate::registry::txn_scheduler_wf(t@),
    ensures
        final(out)@ == old(out)@ + enc_txn_scheduler(t@),
{
    put_bytes(out, &t.algorithm);
    put_i64(out, t.batch_flush_timeout);
    put_u64(out, t.max_batch_size);
    put_u64(out, t.max_batch_size_bytes);
    put_i64(out, t.propose_batch_timeout);
    proof {
        assert(out@ =~= old(out)@ + enc_txn_scheduler(t@));
    }
}

/// Appends the canonical encoding of the storage parameter group.
fn encode_storage(out: &mut Vec<u8>, st: &StorageParameters)
    ensures
        final(out)@ == old(out)@ + enc_storage(*st),
{
    put_u64(out, st.group_size);
    put_u64(out, st.min_write_replication);
    put_u64(out, st.max_apply_write_log_entries);
    put_u64(out, st.max_apply_ops);
    put_u64(out, st.checkpoint_interval);
    put_u64(out, st.checkpoint_num_kept);
    put_u64(out, st.checkpoint_chunk_size);
    put_u64(out, st.min_pool_size);
    proof {
        assert(out@ =~= old(out)@ + enc_storage(*st));
    }
}

/// Appends the canonical encoding of the admission policy.
#[verifier::rlimit(100)]
#[verifier::spinoff_prover]
fn encode_admission(out: &mut Vec<u8>, a: &RuntimeAdmissionPolicy)
    requires
        crate::registry::admission_wf(a@),
    ensures
        final(out)@ == old(out)@ + enc_admission(a@),
{
    match a {
        RuntimeAdmissionPolicy::AnyNode {  } => {
            crate::codec::put_u8(out, 0);
            proof {
                assert(out@ =~= old(out)@ + enc_admission(a@));
            }
        },
        RuntimeAdmissionPolicy::EntityWhitelist { policy } => {
            crate::codec::put_u8(out, 1);
            match &policy.entities {
                None => {
                    crate::codec::put_u8(out, 0);
                    proof {
                        assert(enc_admission(a@) == seq![1u8] + seq![0u8]);
                        assert(out@ =~= old(out)@ + enc_admission(a@));
                    }
                },
                Some(es) => {
                    crate::codec::put_u8(out, 1);
                    put_u32(out, es.len() as u32);
                    encode_entities(out, es, 0);
                    proof {
                        assert(entities_view(es@).skip(0) =~= entities_view(es@));
                        assert(enc_admission(a@) == seq![1u8] + (seq![1u8] + enc_u32(
                            entities_view(es@).len() as u32,
                        ) + enc_entities(entities_view(es@))));
                        assert(out@ =~= old(out)@ + enc_admission(a@));
                    }
                },
            }
        },
    }
}

/// Appends the canonical encoding of the staking overrides.
#[verifier::rlimit(100)]
#[verifier::spinoff_prover]
fn encode_staking(out: &mut Vec<u8>, sp: &crate::registry::RuntimeStakingParameters)
    requires
        crate::registry::staking_wf(sp@),
    ensures
        final(out)@ == old(out)@ + enc_staking(sp@),
{
    match &sp.thresholds {
        None => {
            crate::codec::put_u8(out, 0);
        },
        Some(ts) => {
            crate::codec::put_u8(out, 1);
            put_u32(out, ts.len() as u32);
            encode_thresholds(out, ts, 0);
            proof {
                assert(thresholds_view(ts@).skip(0) =~= thresholds_view(ts@));
            }
        },
    }
    proof {
        assert(out@ =~= old(out)@ + enc_staking(sp@));
    }
}

impl Runtime {
    /// Canonically encodes this descriptor. Equal records give byte-identical
    /// results; no optional field leaves an empty-container artifact.
    #[verifier::rlimit(100)]
    #[verifier::spinoff_prover]
    pub fn encode(&self) -> (r: Vec<u8>)
        requires
            crate::registry::runtime_wf_struct(self@),
        ensures
            r@ == enc_runtime(self@),
    {
        let mut out: Vec<u8> = Vec::new();
        put_u16(&mut out, self.v);
        let ghost e1 = enc_u16(self@.v);
        proof {
            assert(out@ =~= e1);
        }
        put_raw(&mut out, &self.id.bytes);
        let ghost e2 = e1 + self@.id;
        put_raw(&mut out, &self.entity_id.bytes);
        let ghost e3 = e2 + self@.entity_id;
        encode_genesis(&mut out, &self.genesis);
        let ghost e4 = e3 + enc_genesis(self@.genesis);
        let kc = runtime_kind_code_of(self.kind);
        crate::codec::put_u8(&mut out, kc);
        let ghost e5 = e4 + enc_u8(runtime_kind_code(self@.kind));
        let tc = tee_hardware_code_of(self.tee_hardware);
        crate::codec::put_u8(&mut out, tc);
        let ghost e6 = e5 + enc_u8(tee_hardware_code(self@.tee_hardware));
        encode_version_info(&mut out, &self.versions);
        let ghost e7 = e6 + enc_version_info(self@.versions);
        match &self.key_manager {
            None => {
                crate::codec::put_u8(&mut out, 0);
            },
            Some(n) => {
                crate::codec::put_u8(&mut out, 1);
                put_raw(&mut out, &n.bytes);
            },
        }
        let ghost e8 = e7 + enc_km_part(self@.key_manager);
        proof {
            assert(out@ =~= e8);
        }
        encode_executor(&mut out, &self.executor);
        let ghost e9 = e8 + enc_executor(self@.executor);
        encode_txn_scheduler(&mut out, &self.txn_scheduler);
        let ghost e10 = e9 + enc_txn_scheduler(self@.txn_scheduler);
        encode_storage(&mut out, &self.storage);
        let ghost e11 = e10 + enc_storage(self@.storage);
        encode_admission(&mut out, &self.admission_policy);
        let ghost e12 = e11 + enc_admission(self@.admission_policy);
        encode_staking(&mut out, &self.staking);
        let ghost e13 = e12 + enc_staking(self@.staking);
        let gc = governance_code_of(self.governance_model);
        crate::codec::put_u8(&mut out, gc);
        let ghost e14 = e13 + enc_u8(governance_code(self@.governance_model));
        proof {
            reveal(enc_runtime);
            reveal(enc_runtime_head);
            reveal(enc_runtime_tail);
            reveal(enc_head_ident);
            reveal(enc_head_tee);
            reveal(enc_tail_params);
            reveal(enc_tail_policy);
            assert(out@ == e14);
            assert(e4 == enc_head_ident(self@));
            assert(e8 =~= enc_head_ident(self@) + enc_head_tee(self@));
            assert(e11 =~= enc_runtime_head(self@) + enc_tail_params(self@));
            assert(e14 =~= enc_runtime_head(self@) + (enc_tail_params(self@) + enc_tail_policy(
                self@,
            )));
            assert(e14 == enc_runtime(self@));
        }
        out
    }
}

/// Reads a version number.
fn parse_version(b: &Vec<u8>, i: usize) -> (r: Option<(Version, usize)>)
    requires
        i <= b@.len(),
    ensures
        r matches Some((v, j)) ==> j == i + 6 && j <= b@.len() && enc_version(v) == b@.subrange(
            i as int,
            i + 6,
        ),
        forall|v: Version|
            i + 6 <= b@.len() && b@.subrange(i as int, i + 6) == #[trigger] enc_version(v) ==> r
                == Some((v, (i + 6) as usize)),
{
    let (major, j1) = match crate::codec::parse_u16(b, i) {
        None => {
            return None;
        },
        Some(p) => p,
    };
    let (minor, j2) = match crate::codec::parse_u16(b, j1) {
        None => {
            return None;
        },
        Some(p) => p,
    };
    let (patch, j3) = match crate::codec::parse_u16(b, j2) {
        None => {
            return None;
        },
        Some(p) => p,
    };
    let v = Version { major, minor, patch };
    proof {
        assert(enc_version(v) =~= b@.subrange(i as int, i + 6));
        assert forall|w: Version|
            b@.subrange(i as int, i + 6) == #[trigger] enc_version(w) implies w == v by {
            crate::codec::lemma_prefix_of_concat(
                enc_u16(w.major) + enc_u16(w.minor),
                enc_u16(w.patch),
                b@,
                i as int,
            );
            crate::codec::lemma_prefix_of_concat(enc_u16(w.major), enc_u16(w.minor), b@, i as int);
        }
    }
    Some((v, j3))
}

/// Reads a version-info group.
fn parse_version_info(b: &Vec<u8>, i: usize) -> (r: Option<(crate::registry::VersionInfo, usize)>)
    requires
        i <= b@.len(),
    ensures
        r matches Some((vi, j)) ==> i <= j <= b@.len() && crate::registry::version_info_wf(vi@)
            && enc_version_info(vi@) == b@.subrange(i as int, j as int),
        forall|w: VersionInfoV|
            crate::registry::version_info_wf(w) && i + enc_version_info(w).len() <= b@.len()
                && b@.subrange(i as int, i + enc_version_info(w).len())
                == #[trigger] enc_version_info(w) ==> (r matches Some((vi, j)) && vi@ == w && j == i
                + enc_version_info(w).len()),
{
    let (version, j1) = match parse_version(b, i) {
        None => {
            proof {
                assert forall|w: VersionInfoV|
                    crate::registry::version_info_wf(w) && i + enc_version_info(w).len()
                        <= b@.len() && b@.subrange(i as int, i + enc_version_info(w).len())
                        == #[trigger] enc_version_info(w) implies false by {
                    crate::codec::lemma_prefix_of_concat(
                        enc_version(w.version),
                        match w.tee {
                            None => seq![0u8],
                            Some(t) => seq![1u8] + enc_bytes(t),
                        },
                        b@,
                        i as int,
                    );
                }
            }
            return None;
        },
        Some(p) => p,
    };
    let (tag, j2) = match crate::codec::parse_u8(b, j1) {
        None => {
            proof {
                assert forall|w: VersionInfoV|
                    crate::registry::version_info_wf(w) && i + enc_version_info(w).len()
                        <= b@.len() && b@.subrange(i as int, i + enc_version_info(w).len())
                        == #[trigger] enc_version_info(w) implies false by {
                    lemma_split_version_info(b@, i as int, w);
                }
            }
            return None;
        },
        Some(p) => p,
    };
    proof {
        assert(enc_u8(tag)[0] == tag);
        assert(b@.subrange(j1 as int, j1 + 1)[0] == b@[j1 as int]);
        assert(tag == b@[j1 as int]);
    }
    if tag == 0 {
        let vi = crate::registry::VersionInfo { version, tee: None };
        proof {
            assert(enc_version_info(vi@) =~= b@.subrange(i as int, j2 as int));
            assert forall|w: VersionInfoV|
                crate::registry::version_info_wf(w) && i + enc_version_info(w).len() <= b@.len()
                    && b@.subrange(i as int, i + enc_version_info(w).len())
                    == #[trigger] enc_version_info(w) implies vi@ == w && j2 == i
                + enc_version_info(w).len() by {
                lemma_vi_tag(b@, i as int, w);
            }
        }
        return Some((vi, j2));
    }
    if tag != 1 {
        proof {
            assert forall|w: VersionInfoV|
                crate::registry::version_info_wf(w) && i + enc_version_info(w).len() <= b@.len()
                    && b@.subrange(i as int, i + enc_version_info(w).len())
                    == #[trigger] enc_version_info(w) implies false by {
                lemma_vi_tag(b@, i as int, w);
            }
        }
        return None;
    }
    let (tee, j3) = match crate::codec::parse_bytes(b, j2) {
        None => {
            proof {
                assert forall|w: VersionInfoV|
                    crate::registry::version_info_wf(w) && i + enc_version_info(w).len()
                        <= b@.len() && b@.subrange(i as int, i + enc_version_info(w).len())
                        == #[trigger] enc_version_info(w) implies false by {
                    lemma_vi_tag(b@, i as int, w);
                }
            }
            return None;
        },
        Some(p) => p,
    };
    let vi = crate::registry::VersionInfo { version, tee: Some(tee) };
    proof {
        assert(enc_version_info(vi@) =~= b@.subrange(i as int, j3 as int));
        assert forall|w: VersionInfoV|
            crate::registry::version_info_wf(w) && i + enc_version_info(w).len() <= b@.len()
                && b@.subrange(i as int, i + enc_version_info(w).len())
                == #[trigger] enc_version_info(w) implies vi@ == w && j3 == i + enc_version_info(
            w,
        ).len() by {
            lemma_vi_tag(b@, i as int, w);
        }
    }
    Some((vi, j3))
}

/// Splits a version-info encoding standing at `at` and relates its tag
/// byte and tee payload to the value.
proof fn lemma_vi_tag(b: Seq<u8>, at: int, w: VersionInfoV)
    requires
        0 <= at,
        at + enc_version_info(w).len() <= b.len(),
        b.subrange(at, at + enc_version_info(w).len()) == enc_version_info(w),
    ensures
        b.subrange(at, at + 6) == enc_version(w.version),
        b[at + 6] == (match w.tee {
            None => 0u8,
            Some(t) => 1u8,
        }),
        w.tee matches Some(t) ==> at + 7 + enc_bytes(t).len() == at + enc_version_info(w).len()
            && b.subrange(at + 7, at + 7 + enc_bytes(t).len()) == enc_bytes(t),
        enc_version_info(w).len() == (match w.tee {
            None => 7int,
            Some(t) => 7 + enc_bytes(t).len() as int,
        }),
{
    lemma_split_version_info(b, at, w);
    let l = enc_version_info(w).len() as int;
    match w.tee {
        None => {
            assert(b.subrange(at + 6, l + at)[0] == b[at + 6]);
            assert(seq![0u8][0] == 0u8);
        },
        Some(t) => {
            assert(b.subrange(at + 6, l + at)[0] == b[at + 6]);
            assert((seq![1u8] + enc_bytes(t))[0] == 1u8);
            crate::codec::lemma_prefix_of_concat(seq![1u8], enc_bytes(t), b, at + 6);
        },
    }
}

/// Splits a version-info encoding standing at `at` into its version part
/// and its tee part.
proof fn lemma_split_version_info(whole: Seq<u8>, at: int, w: VersionInfoV)
    requires
        0 <= at,
        at + enc_version_info(w).len() <= whole.len(),
        whole.subrange(at, at + enc_version_info(w).len()) == enc_version_info(w),
    ensures
        whole.subrange(at, at + 6) == enc_version(w.version),
        whole.subrange(at + 6, at + enc_version_info(w).len()) == (match w.tee {
            None => seq![0u8],
            Some(t) => seq![1u8] + enc_bytes(t),
        }),
{
    crate::codec::lemma_prefix_of_concat(
        enc_version(w.version),
        match w.tee {
            None => seq![0u8],
            Some(t) => seq![1u8] + enc_bytes(t),
        },
        whole,
        at,
    );
}

/// Reads an executor parameter group.
fn parse_executor(b: &Vec<u8>, i: usize) -> (r: Option<(ExecutorParameters, usize)>)
    requires
        i <= b@.len(),
    ensures
        r matches Some((v, j)) ==> j == i + 44 && j <= b@.len() && enc_executor(v) == b@.subrange(
            i as int,
            i + 44,
        ),
        forall|v: ExecutorParameters|
            i + 44 <= b@.len() && b@.subrange(i as int, i + 44) == #[trigger] enc_executor(v) ==> r
                == Some((v, (i + 44) as usize)),
{
    let (group_size, j1) = match crate::codec::parse_u64(b, i) {
        None => {
            return None;
        },
        Some(p) => p,
    };
    let (group_backup_size, j2) = match crate::codec::parse_u64(b, j1) {
        None => {
            return None;
        },
        Some(p) => p,
    };
    let (allowed_stragglers, j3) = match crate::codec::parse_u64(b, j2) {
        None => {
            return None;
        },
        Some(p) => p,
    };
    let (round_timeout, j4) = match crate::codec::parse_i64(b, j3) {
        None => {
            return None;
        },
        Some(p) => p,
    };
    let (max_messages, j5) = match crate::codec::parse_u32(b, j4) {
        None => {
            return None;
        },
        Some(p) => p,
    };
    let (min_pool_size, j6) = match crate::codec::parse_u64(b, j5) {
        None => {
            return None;
        },
        Some(p) => p,
    };
    let v = ExecutorParameters {
        group_size,
        group_backup_size,
        allowed_stragglers,
        round_timeout,
        max_messages,
        min_pool_size,
    };
    proof {
        assert(enc_executor(v) =~= b@.subrange(i as int, i + 44));
        assert forall|w: ExecutorParameters|
            b@.subrange(i as int, i + 44) == #[trigger] enc_executor(w) implies w == v by {
            let e1 = enc_u64(w.group_size);
            let e2 = e1 + enc_u64(w.group_backup_size);
            let e3 = e2 + enc_u64(w.allowed_stragglers);
            let e4 = e3 + enc_i64(w.round_timeout);
            let e5 = e4 + enc_u32(w.max_messages);
            crate::codec::lemma_prefix_of_concat(e5, enc_u64(w.min_pool_size), b@, i as int);
            crate::codec::lemma_prefix_of_concat(e4, enc_u32(w.max_messages), b@, i as int);
            crate::codec::lemma_prefix_of_concat(e3, enc_i64(w.round_timeout), b@, i as int);
            crate::codec::lemma_prefix_of_concat(e2, enc_u64(w.allowed_stragglers), b@, i as int);
            crate::codec::lemma_prefix_of_concat(e1, enc_u64(w.group_backup_size), b@, i as int);
        }
    }
    Some((v, j6))
}

/// Reads a storage parameter group.
#[verifier::rlimit(100)]
#[verifier::spinoff_prover]
fn parse_storage(b: &Vec<u8>, i: usize) -> (r: Option<(StorageParameters, usize)>)
    requires
        i <= b@.len(),
    ensures
        r matches Some((v, j)) ==> j == i + 64 && j <= b@.len() && enc_storage(v) == b@.subrange(
            i as int,
            i + 64,
        ),
        forall|v: StorageParameters|
            i + 64 <= b@.len() && b@.subrange(i as int, i + 64) == #[trigger] enc_storage(v) ==> r
                == Some((v, (i + 64) as usize)),
{
    let (group_size, j1) = match crate::codec::parse_u64(b, i) {
        None => {
            return None;
        },
        Some(p) => p,
    };
    let (min_write_replication, j2) = match crate::codec::parse_u64(b, j1) {
        None => {
            return None;
        },
        Some(p) => p,
    };
    let (max_apply_write_log_entries, j3) = match crate::codec::parse_u64(b, j2) {
        None => {
            return None;
        },
        Some(p) => p,
    };
    let (max_apply_ops, j4) = match crate::codec::parse_u64(b, j3) {
        None => {
            return None;
        },
        Some(p) => p,
    };
    let (checkpoint_interval, j5) = match crate::codec::parse_u64(b, j4) {
        None => {
            return None;
        },
        Some(p) => p,
    };
    let (checkpoint_num_kept, j6) = match crate::codec::parse_u64(b, j5) {
        None => {
            return None;
        },
        Some(p) => p,
    };
    let (checkpoint_chunk_size, j7) = match crate::codec::parse_u64(b, j6) {
        None => {
            return None;
        },
        Some(p) => p,
    };
    let (min_pool_size, j8) = match crate::codec::parse_u64(b, j7) {
        None => {
            return None;
        },
        Some(p) => p,
    };
    let v = StorageParameters {
        group_size,
        min_write_replication,
        max_apply_write_log_entries,
        max_apply_ops,
        checkpoint_interval,
        checkpoint_num_kept,
        checkpoint_chunk_size,
        min_pool_size,
    };
    proof {
        assert(enc_storage(v) =~= b@.subrange(i as int, i + 64));
        assert forall|w: StorageParameters|
            b@.subrange(i as int, i + 64) == #[trigger] enc_storage(w) implies w == v by {
            let e1 = enc_u64(w.group_size);
            let e2 = e1 + enc_u64(w.min_write_replication);
            let e3 = e2 + enc_u64(w.max_apply_write_log_entries);
            let e4 = e3 + enc_u64(w.max_apply_ops);
            let e5 = e4 + enc_u64(w.checkpoint_interval);
            let e6 = e5 + enc_u64(w.checkpoint_num_kept);
            let e7 = e6 + enc_u64(w.checkpoint_chunk_size);
            crate::codec::lemma_prefix_of_concat(e7, enc_u64(w.min_pool_size), b@, i as int);
            crate::codec::lemma_prefix_of_concat(e6, enc_u64(w.checkpoint_chunk_size), b@, i as int);
            crate::codec::lemma_prefix_of_concat(e5, enc_u64(w.checkpoint_num_kept), b@, i as int);
            crate::codec::lemma_prefix_of_concat(e4, enc_u64(w.checkpoint_interval), b@, i as int);
            crate::codec::lemma_prefix_of_concat(e3, enc_u64(w.max_apply_ops), b@, i as int);
            crate::codec::lemma_prefix_of_concat(e2, enc_u64(w.max_apply_write_log_entries), b@, i as int);
            crate::codec::lemma_prefix_of_concat(e1, enc_u64(w.min_write_replication), b@, i as int);
        }
    }
    Some((v, j8))
}

/// Reads a transaction-scheduler parameter group.
#[verifier::rlimit(100)]
#[verifier::spinoff_prover]
fn parse_txn_scheduler(b: &Vec<u8>, i: usize) -> (r: Option<
    (crate::registry::TxnSchedulerParameters, usize),
>)
    requires
        i <= b@.len(),
    ensures
        r matches Some((t, j)) ==> i <= j <= b@.len() && crate::registry::txn_scheduler_wf(t@)
            && enc_txn_scheduler(t@) == b@.subrange(i as int, j as int),
        forall|w: TxnSchedulerParametersV|
            crate::registry::txn_scheduler_wf(w) && i + enc_txn_scheduler(w).len() <= b@.len()
                && b@.subrange(i as int, i + enc_txn_scheduler(w).len())
                == #[trigger] enc_txn_scheduler(w) ==> (r matches Some((t, j)) && t@ == w && j == i
                + enc_txn_scheduler(w).len()),
{
    let (algorithm, j1) = match crate::codec::parse_bytes(b, i) {
        None => {
            proof {
                assert forall|w: TxnSchedulerParametersV|
                    crate::registry::txn_scheduler_wf(w) && i + enc_txn_scheduler(w).len()
                        <= b@.len() && b@.subrange(i as int, i + enc_txn_scheduler(w).len())
                        == #[trigger] enc_txn_scheduler(w) implies false by {
                    lemma_split_txn(b@, i as int, w);
                }
            }
            return None;
        },
        Some(p) => p,
    };
    let (batch_flush_timeout, j2) = match crate::codec::parse_i64(b, j1) {
        None => {
            proof {
                assert forall|w: TxnSchedulerParametersV|
                    crate::registry::txn_scheduler_wf(w) && i + enc_txn_scheduler(w).len()
                        <= b@.len() && b@.subrange(i as int, i + enc_txn_scheduler(w).len())
                        == #[trigger] enc_txn_scheduler(w) implies false by {
                    lemma_split_txn(b@, i as int, w);
                }
            }
            return None;
        },
        Some(p) => p,
    };
    let (max_batch_size, j3) = match crate::codec::parse_u64(b, j2) {
        None => {
            proof {
                assert forall|w: TxnSchedulerParametersV|
                    crate::registry::txn_scheduler_wf(w) && i + enc_txn_scheduler(w).len()
                        <= b@.len() && b@.subrange(i as int, i + enc_txn_scheduler(w).len())
                        == #[trigger] enc_txn_scheduler(w) implies false by {
                    lemma_split_txn(b@, i as int, w);
                }
            }
            return None;
        },
        Some(p) => p,
    };
    let (max_batch_size_bytes, j4) = match crate::codec::parse_u64(b, j3) {
        None => {
            proof {
                assert forall|w: TxnSchedulerParametersV|
                    crate::registry::txn_scheduler_wf(w) && i + enc_txn_scheduler(w).len()
                        <= b@.len() && b@.subrange(i as int, i + enc_txn_scheduler(w).len())
                        == #[trigger] enc_txn_scheduler(w) implies false by {
                    lemma_split_txn(b@, i as int, w);
                }
            }
            return None;
        },
        Some(p) => p,
    };
    let (propose_batch_timeout, j5) = match crate::codec::parse_i64(b, j4) {
        None => {
            proof {
                assert forall|w: TxnSchedulerParametersV|
                    crate::registry::txn_scheduler_wf(w) && i + enc_txn_scheduler(w).len()
                        <= b@.len() && b@.subrange(i as int, i + enc_txn_scheduler(w).len())
                        == #[trigger] enc_txn_scheduler(w) implies false by {
                    lemma_split_txn(b@, i as int, w);
                }
            }
            return None;
        },
        Some(p) => p,
    };
    let t = crate::registry::TxnSchedulerParameters {
        algorithm,
        batch_flush_timeout,
        max_batch_size,
        max_batch_size_bytes,
        propose_batch_timeout,
    };
    proof {
        assert(enc_txn_scheduler(t@) =~= b@.subrange(i as int, j5 as int));
        assert forall|w: TxnSchedulerParametersV|
            crate::registry::txn_scheduler_wf(w) && i + enc_txn_scheduler(w).len() <= b@.len()
                && b@.subrange(i as int, i + enc_txn_scheduler(w).len())
                == #[trigger] enc_txn_scheduler(w) implies t@ == w && j5 == i + enc_txn_scheduler(
            w,
        ).len() by {
            lemma_split_txn(b@, i as int, w);
        }
    }
    Some((t, j5))
}

/// Splits a transaction-scheduler encoding standing at `at` into its
/// five field encodings.
proof fn lemma_split_txn(whole: Seq<u8>, at: int, w: TxnSchedulerParametersV)
    requires
        0 <= at,
        at + enc_txn_scheduler(w).len() <= whole.len(),
        whole.subrange(at, at + enc_txn_scheduler(w).len()) == enc_txn_scheduler(w),
    ensures
        whole.subrange(at, at + enc_bytes(w.algorithm).len()) == enc_bytes(w.algorithm),
        whole.subrange(
            at + enc_bytes(w.algorithm).len(),
            at + enc_bytes(w.algorithm).len() + 8,
        ) == enc_i64(w.batch_flush_timeout),
        whole.subrange(
            at + enc_bytes(w.algorithm).len() + 8,
            at + enc_bytes(w.algorithm).len() + 16,
        ) == enc_u64(w.max_batch_size),
        whole.subrange(
            at + enc_bytes(w.algorithm).len() + 16,
            at + enc_bytes(w.algorithm).len() + 24,
        ) == enc_u64(w.max_batch_size_bytes),
        whole.subrange(
            at + enc_bytes(w.algorithm).len() + 24,
            at + enc_bytes(w.algorithm).len() + 32,
        ) == enc_i64(w.propose_batch_timeout),
{
    let e1 = enc_bytes(w.algorithm);
    let e2 = e1 + enc_i64(w.batch_flush_timeout);
    let e3 = e2 + enc_u64(w.max_batch_size);
    let e4 = e3 + enc_u64(w.max_batch_size_bytes);
    crate::codec::lemma_prefix_of_concat(e4, enc_i64(w.propose_batch_timeout), whole, at);
    crate::codec::lemma_prefix_of_concat(e3, enc_u64(w.max_batch_size_bytes), whole, at);
    crate::codec::lemma_prefix_of_concat(e2, enc_u64(w.max_batch_size), whole, at);
    crate::codec::lemma_prefix_of_concat(e1, enc_i64(w.batch_flush_timeout), whole, at);
}

/// Every entry of a write log is well formed.
pub open spec fn log_entries_wf_all(s: Seq<LogEntryV>) -> bool {
    forall|k: int| 0 <= k < s.len() ==> crate::registry::log_entry_wf(#[trigger] s[k])
}

/// Reads one write-log entry.
fn parse_log_entry(b: &Vec<u8>, i: usize) -> (r: Option<(LogEntry, usize)>)
    requires
        i <= b@.len(),
    ensures
        r matches Some((e, j)) ==> i <= j <= b@.len() && crate::registry::log_entry_wf(e@)
            && enc_log_entry(e@) == b@.subrange(i as int, j as int),
        forall|w: LogEntryV|
            crate::registry::log_entry_wf(w) && i + enc_log_entry(w).len() <= b@.len()
                && b@.subrange(i as int, i + enc_log_entry(w).len())
                == #[trigger] enc_log_entry(w) ==> (r matches Some((e, j)) && e@ == w && j == i
                + enc_log_entry(w).len()),
{
    let (key, j1) = match crate::codec::parse_bytes(b, i) {
        None => {
            proof {
                assert forall|w: LogEntryV|
                    crate::registry::log_entry_wf(w) && i + enc_log_entry(w).len() <= b@.len()
                        && b@.subrange(i as int, i + enc_log_entry(w).len())
                        == #[trigger] enc_log_entry(w) implies false by {
                    crate::codec::lemma_prefix_of_concat(
                        enc_bytes(w.key),
                        enc_bytes(w.value),
                        b@,
                        i as int,
                    );
                }
            }
            return None;
        },
        Some(p) => p,
    };
    let (value, j2) = match crate::codec::parse_bytes(b, j1) {
        None => {
            proof {
                assert forall|w: LogEntryV|
                    crate::registry::log_entry_wf(w) && i + enc_log_entry(w).len() <= b@.len()
                        && b@.subrange(i as int, i + enc_log_entry(w).len())
                        == #[trigger] enc_log_entry(w) implies false by {
                    crate::codec::lemma_prefix_of_concat(
                        enc_bytes(w.key),
                        enc_bytes(w.value),
                        b@,
                        i as int,
                    );
                }
            }
            return None;
        },
        Some(p) => p,
    };
    let e = LogEntry { key, value };
    proof {
        assert(enc_log_entry(e@) =~= b@.subrange(i as int, j2 as int));
        assert forall|w: LogEntryV|
            crate::registry::log_entry_wf(w) && i + enc_log_entry(w).len() <= b@.len()
                && b@.subrange(i as int, i + enc_log_entry(w).len())
                == #[trigger] enc_log_entry(w) implies e@ == w && j2 == i + enc_log_entry(
            w,
        ).len() by {
            crate::codec::lemma_prefix_of_concat(enc_bytes(w.key), enc_bytes(w.value), b@, i as int);
        }
    }
    Some((e, j2))
}

/// Reads `count` write-log entries.
#[verifier::rlimit(100)]
#[verifier::spinoff_prover]
fn parse_log_entries(b: &Vec<u8>, i: usize, count: usize) -> (r: Option<(Vec<LogEntry>, usize)>)
    requires
        i <= b@.len(),
    ensures
        r matches Some((v, j)) ==> (i <= j <= b@.len() && v@.len() == count && enc_log_entries(
            log_view(v@),
        ) == b@.subrange(i as int, j as int) && log_entries_wf_all(log_view(v@))),
        forall|s: Seq<LogEntryV>|
            (s.len() == count && log_entries_wf_all(s) && i + enc_log_entries(s).len() <= b@.len()
                && b@.subrange(i as int, i + enc_log_entries(s).len())
                == #[trigger] enc_log_entries(s)) ==> (r matches Some((v, j)) && log_view(v@) == s
                && j == i + enc_log_entries(s).len()),
    decreases count,
{
    if count == 0 {
        let v: Vec<LogEntry> = Vec::new();
        proof {
            assert(log_view(v@) =~= Seq::<LogEntryV>::empty());
            assert(enc_log_entries(log_view(v@)) =~= b@.subrange(i as int, i as int));
            assert forall|s: Seq<LogEntryV>|
                (s.len() == 0 && i + enc_log_entries(s).len() <= b@.len() && b@.subrange(
                    i as int,
                    i + enc_log_entries(s).len(),
                ) == #[trigger] enc_log_entries(s)) implies log_view(v@) == s by {
                assert(log_view(v@) =~= s);
            }
            assert(log_entries_wf_all(log_view(v@)));
        }
        return Some((v, i));
    }
    let (head, j1) = match parse_log_entry(b, i) {
        None => {
            proof {
                assert forall|s: Seq<LogEntryV>|
                    (s.len() == count && log_entries_wf_all(s) && i + enc_log_entries(s).len()
                        <= b@.len() && b@.subrange(i as int, i + enc_log_entries(s).len())
                        == #[trigger] enc_log_entries(s)) implies false by {
                    crate::codec::lemma_prefix_of_concat(
                        enc_log_entry(s[0]),
                        enc_log_entries(s.drop_first()),
                        b@,
                        i as int,
                    );
                    assert(crate::registry::log_entry_wf(s[0]));
                }
            }
            return None;
        },
        Some(p) => p,
    };
    let (tail, j2) = match parse_log_entries(b, j1, count - 1) {
        None => {
            proof {
                assert forall|s: Seq<LogEntryV>|
                    (s.len() == count && log_entries_wf_all(s) && i + enc_log_entries(s).len()
                        <= b@.len() && b@.subrange(i as int, i + enc_log_entries(s).len())
                        == #[trigger] enc_log_entries(s)) implies false by {
                    crate::codec::lemma_prefix_of_concat(
                        enc_log_entry(s[0]),
                        enc_log_entries(s.drop_first()),
                        b@,
                        i as int,
                    );
                    assert(crate::registry::log_entry_wf(s[0]));
                    assert(head@ == s[0]);
                    assert forall|k: int|
                        0 <= k < s.drop_first().len() implies crate::registry::log_entry_wf(
                        #[trigger] s.drop_first()[k],
                    ) by {
                        assert(s.drop_first()[k] == s[k + 1]);
                    }
                    assert(log_entries_wf_all(s.drop_first()));
                }
            }
            return None;
        },
        Some(p) => p,
    };
    let mut v: Vec<LogEntry> = Vec::new();
    v.push(head);
    let mut tail = tail;
    let ghost tail0 = tail@;
    v.append(&mut tail);
    proof {
        assert(log_view(v@)[0] == v@[0]@);
        assert(log_view(v@).drop_first() =~= log_view(v@.drop_first()));
        assert(v@.drop_first() =~= tail0);
    }
    proof {
        let vv = log_view(v@);
        assert(enc_log_entries(vv) == enc_log_entry(vv[0]) + enc_log_entries(vv.drop_first()));
        assert(enc_log_entries(vv) =~= b@.subrange(i as int, j2 as int));
        assert forall|k: int|
            0 <= k < vv.len() implies crate::registry::log_entry_wf(#[trigger] vv[k]) by {
            if k > 0 {
                assert(vv[k] == log_view(v@.drop_first())[k - 1]);
            }
        }
        assert(log_entries_wf_all(vv));
        assert forall|s: Seq<LogEntryV>|
            (s.len() == count && log_entries_wf_all(s) && i + enc_log_entries(s).len() <= b@.len()
                && b@.subrange(i as int, i + enc_log_entries(s).len())
                == #[trigger] enc_log_entries(s)) implies vv == s && j2 == i + enc_log_entries(
            s,
        ).len() by {
            crate::codec::lemma_prefix_of_concat(
                enc_log_entry(s[0]),
                enc_log_entries(s.drop_first()),
                b@,
                i as int,
            );
            assert(crate::registry::log_entry_wf(s[0]));
            assert(head@ == s[0]);
            assert forall|k: int|
                0 <= k < s.drop_first().len() implies crate::registry::log_entry_wf(
                #[trigger] s.drop_first()[k],
            ) by {
                assert(s.drop_first()[k] == s[k + 1]);
            }
            assert(log_entries_wf_all(s.drop_first()));
            assert(enc_log_entries(s).len() == enc_log_entry(s[0]).len() + enc_log_entries(
                s.drop_first(),
            ).len());
            assert(j1 == i + enc_log_entry(s[0]).len());
            assert(s.drop_first().len() == count - 1);
            assert(j1 + enc_log_entries(s.drop_first()).len() <= b@.len());
            assert(b@.subrange(j1 as int, j1 + enc_log_entries(s.drop_first()).len())
                == enc_log_entries(s.drop_first()));
            assert(log_view(tail0) == s.drop_first());
            assert(vv.drop_first() == log_view(tail0));
            assert(vv[0] == s[0]);
            assert forall|k: int| 0 < k < vv.len() implies vv[k] == s[k] by {
                assert(vv[k] == vv.drop_first()[k - 1]);
                assert(s[k] == s.drop_first()[k - 1]);
            }
            assert(vv =~= s);
        }
    }
    Some((v, j2))
}

/// Every bundle of a receipt list is well formed.
pub open spec fn bundles_wf_all(s: Seq<SignatureBundleV>) -> bool {
    forall|k: int| 0 <= k < s.len() ==> crate::registry::bundle_wf(#[trigger] s[k])
}

/// Splits a bundle encoding standing at `at` and relates its tag byte and
/// parts to the value.
proof fn lemma_bundle_tag(b: Seq<u8>, at: int, w: SignatureBundleV)
    requires
        0 <= at,
        crate::registry::bundle_wf(w),
        at + enc_bundle(w).len() <= b.len(),
        b.subrange(at, at + enc_bundle(w).len()) == enc_bundle(w),
    ensures
        b[at] == (match w.public_key {
            None => 0u8,
            Some(k) => 1u8,
        }),
        w.public_key matches Some(k) ==> enc_bundle(w).len() == 97 && b.subrange(at + 1, at + 33)
            == k && b.subrange(at + 33, at + 97) == w.signature,
        w.public_key is None ==> enc_bundle(w).len() == 65 && b.subrange(at + 1, at + 65)
            == w.signature,
{
    let m = (match w.public_key {
        None => seq![0u8],
        Some(k) => seq![1u8] + k,
    });
    crate::codec::lemma_prefix_of_concat(m, w.signature, b, at);
    let l = enc_bundle(w).len() as int;
    match w.public_key {
        None => {
            assert(b.subrange(at, at + 1)[0] == b[at]);
        },
        Some(k) => {
            assert(b.subrange(at, at + 33)[0] == b[at]);
            assert((seq![1u8] + k)[0] == 1u8);
            crate::codec::lemma_prefix_of_concat(seq![1u8], k, b, at);
        },
    }
}

/// Reads one signature bundle.
fn parse_bundle(b: &Vec<u8>, i: usize) -> (r: Option<(SignatureBundle, usize)>)
    requires
        i <= b@.len(),
    ensures
        r matches Some((e, j)) ==> i <= j <= b@.len() && crate::registry::bundle_wf(e@)
            && enc_bundle(e@) == b@.subrange(i as int, j as int),
        forall|w: SignatureBundleV|
            crate::registry::bundle_wf(w) && i + enc_bundle(w).len() <= b@.len() && b@.subrange(
                i as int,
                i + enc_bundle(w).len(),
            ) == #[trigger] enc_bundle(w) ==> (r matches Some((e, j)) && e@ == w && j == i
                + enc_bundle(w).len()),
{
    let (tag, j1) = match crate::codec::parse_u8(b, i) {
        None => {
            proof {
                assert forall|w: SignatureBundleV|
                    crate::registry::bundle_wf(w) && i + enc_bundle(w).len() <= b@.len()
                        && b@.subrange(i as int, i + enc_bundle(w).len())
                        == #[trigger] enc_bundle(w) implies false by {
                    lemma_bundle_tag(b@, i as int, w);
                }
            }
            return None;
        },
        Some(p) => p,
    };
    proof {
        assert(enc_u8(tag)[0] == tag);
        assert(b@.subrange(i as int, i + 1)[0] == b@[i as int]);
    }
    if tag == 0 {
        let (sig, j2) = match crate::codec::parse_raw(b, j1, 64) {
            None => {
                proof {
                    assert forall|w: SignatureBundleV|
                        crate::registry::bundle_wf(w) && i + enc_bundle(w).len() <= b@.len()
                            && b@.subrange(i as int, i + enc_bundle(w).len())
                            == #[trigger] enc_bundle(w) implies false by {
                        lemma_bundle_tag(b@, i as int, w);
                    }
                }
                return None;
            },
            Some(p) => p,
        };
        let e = SignatureBundle {
            public_key: None,
            signature: crate::keys::Signature { bytes: sig },
        };
        proof {
            assert(enc_bundle(e@) =~= b@.subrange(i as int, j2 as int));
            assert forall|w: SignatureBundleV|
                crate::registry::bundle_wf(w) && i + enc_bundle(w).len() <= b@.len()
                    && b@.subrange(i as int, i + enc_bundle(w).len())
                    == #[trigger] enc_bundle(w) implies e@ == w && j2 == i + enc_bundle(
                w,
            ).len() by {
                lemma_bundle_tag(b@, i as int, w);
            }
        }
        return Some((e, j2));
    }
    if tag != 1 {
        proof {
            assert forall|w: SignatureBundleV|
                crate::registry::bundle_wf(w) && i + enc_bundle(w).len() <= b@.len()
                    && b@.subrange(i as int, i + enc_bundle(w).len())
                    == #[trigger] enc_bundle(w) implies false by {
                lemma_bundle_tag(b@, i as int, w);
            }
        }
        return None;
    }
    let (pk, j2) = match crate::codec::parse_raw(b, j1, 32) {
        None => {
            proof {
                assert forall|w: SignatureBundleV|
                    crate::registry::bundle_wf(w) && i + enc_bundle(w).len() <= b@.len()
                        && b@.subrange(i as int, i + enc_bundle(w).len())
                        == #[trigger] enc_bundle(w) implies false by {
                    lemma_bundle_tag(b@, i as int, w);
                }
            }
            return None;
        },
        Some(p) => p,
    };
    let (sig, j3) = match crate::codec::parse_raw(b, j2, 64) {
        None => {
            proof {
                assert forall|w: SignatureBundleV|
                    crate::registry::bundle_wf(w) && i + enc_bundle(w).len() <= b@.len()
                        && b@.subrange(i as int, i + enc_bundle(w).len())
                        == #[trigger] enc_bundle(w) implies false by {
                    lemma_bundle_tag(b@, i as int, w);
                }
            }
            return None;
        },
        Some(p) => p,
    };
    let e = SignatureBundle {
        public_key: Some(crate::keys::PublicKey { bytes: pk }),
        signature: crate::keys::Signature { bytes: sig },
    };
    proof {
        assert(enc_bundle(e@) =~= b@.subrange(i as int, j3 as int));
        assert forall|w: SignatureBundleV|
            crate::registry::bundle_wf(w) && i + enc_bundle(w).len() <= b@.len() && b@.subrange(
                i as int,
                i + enc_bundle(w).len(),
            ) == #[trigger] enc_bundle(w) implies e@ == w && j3 == i + enc_bundle(w).len() by {
            lemma_bundle_tag(b@, i as int, w);
        }
    }
    Some((e, j3))
}

/// Reads `count` signature bundles.
#[verifier::rlimit(100)]
#[verifier::spinoff_prover]
fn parse_bundles(b: &Vec<u8>, i: usize, count: usize) -> (r: Option<(Vec<SignatureBundle>, usize)>)
    requires
        i <= b@.len(),
    ensures
        r matches Some((v, j)) ==> (i <= j <= b@.len() && v@.len() == count && enc_bundles(
            bundles_view(v@),
        ) == b@.subrange(i as int, j as int) && bundles_wf_all(bundles_view(v@))),
        forall|s: Seq<SignatureBundleV>|
            (s.len() == count && bundles_wf_all(s) && i + enc_bundles(s).len() <= b@.len()
                && b@.subrange(i as int, i + enc_bundles(s).len()) == #[trigger] enc_bundles(s))
                ==> (r matches Some((v, j)) && bundles_view(v@) == s && j == i + enc_bundles(
                s,
            ).len()),
    decreases count,
{
    if count == 0 {
        let v: Vec<SignatureBundle> = Vec::new();
        proof {
            assert(bundles_view(v@) =~= Seq::<SignatureBundleV>::empty());
            assert(enc_bundles(bundles_view(v@)) =~= b@.subrange(i as int, i as int));
            assert forall|s: Seq<SignatureBundleV>|
                (s.len() == 0 && i + enc_bundles(s).len() <= b@.len() && b@.subrange(
                    i as int,
                    i + enc_bundles(s).len(),
                ) == #[trigger] enc_bundles(s)) implies bundles_view(v@) == s by {
                assert(bundles_view(v@) =~= s);
            }
        }
        return Some((v, i));
    }
    let (head, j1) = match parse_bundle(b, i) {
        None => {
            proof {
                assert forall|s: Seq<SignatureBundleV>|
                    (s.len() == count && bundles_wf_all(s) && i + enc_bundles(s).len() <= b@.len()
                        && b@.subrange(i as int, i + enc_bundles(s).len())
                        == #[trigger] enc_bundles(s)) implies false by {
                    crate::codec::lemma_prefix_of_concat(
                        enc_bundle(s[0]),
                        enc_bundles(s.drop_first()),
                        b@,
                        i as int,
                    );
                    assert(crate::registry::bundle_wf(s[0]));
                }
            }
            return None;
        },
        Some(p) => p,
    };
    let (tail, j2) = match parse_bundles(b, j1, count - 1) {
        None => {
            proof {
                assert forall|s: Seq<SignatureBundleV>|
                    (s.len() == count && bundles_wf_all(s) && i + enc_bundles(s).len() <= b@.len()
                        && b@.subrange(i as int, i + enc_bundles(s).len())
                        == #[trigger] enc_bundles(s)) implies false by {
                    crate::codec::lemma_prefix_of_concat(
                        enc_bundle(s[0]),
                        enc_bundles(s.drop_first()),
                        b@,
                        i as int,
                    );
                    assert(crate::registry::bundle_wf(s[0]));
                    assert(head@ == s[0]);
                    assert forall|k: int|
                        0 <= k < s.drop_first().len() implies crate::registry::bundle_wf(
                        #[trigger] s.drop_first()[k],
                    ) by {
                        assert(s.drop_first()[k] == s[k + 1]);
                    }
                    assert(bundles_wf_all(s.drop_first()));
                }
            }
            return None;
        },
        Some(p) => p,
    };
    let mut v: Vec<SignatureBundle> = Vec::new();
    v.push(head);
    let mut tail = tail;
    let ghost tail0 = tail@;
    v.append(&mut tail);
    proof {
        assert(bundles_view(v@)[0] == v@[0]@);
        assert(bundles_view(v@).drop_first() =~= bundles_view(v@.drop_first()));
        assert(v@.drop_first() =~= tail0);
    }
    proof {
        let vv = bundles_view(v@);
        assert(enc_bundles(vv) == enc_bundle(vv[0]) + enc_bundles(vv.drop_first()));
        assert(enc_bundles(vv) =~= b@.subrange(i as int, j2 as int));
        assert forall|k: int|
            0 <= k < vv.len() implies crate::registry::bundle_wf(#[trigger] vv[k]) by {
            if k > 0 {
                assert(vv[k] == bundles_view(v@.drop_first())[k - 1]);
            }
        }
        assert(bundles_wf_all(vv));
        assert forall|s: Seq<SignatureBundleV>|
            (s.len() == count && bundles_wf_all(s) && i + enc_bundles(s).len() <= b@.len()
                && b@.subrange(i as int, i + enc_bundles(s).len()) == #[trigger] enc_bundles(s))
                implies vv == s && j2 == i + enc_bundles(s).len() by {
            crate::codec::lemma_prefix_of_concat(
                enc_bundle(s[0]),
                enc_bundles(s.drop_first()),
                b@,
                i as int,
            );
            assert(crate::registry::bundle_wf(s[0]));
            assert(head@ == s[0]);
            assert forall|k: int|
                0 <= k < s.drop_first().len() implies crate::registry::bundle_wf(
                #[trigger] s.drop_first()[k],
            ) by {
                assert(s.drop_first()[k] == s[k + 1]);
            }
            assert(bundles_wf_all(s.drop_first()));
            assert(enc_bundles(s).len() == enc_bundle(s[0]).len() + enc_bundles(
                s.drop_first(),
            ).len());
            assert(j1 == i + enc_bundle(s[0]).len());
            assert(s.drop_first().len() == count - 1);
            assert(j1 + enc_bundles(s.drop_first()).len() <= b@.len());
            assert(b@.subrange(j1 as int, j1 + enc_bundles(s.drop_first()).len()) == enc_bundles(
                s.drop_first(),
            ));
            assert(bundles_view(tail0) == s.drop_first());
            assert(vv.drop_first() == bundles_view(tail0));
            assert(vv[0] == s[0]);
            assert forall|k: int| 0 < k < vv.len() implies vv[k] == s[k] by {
                assert(vv[k] == vv.drop_first()[k - 1]);
                assert(s[k] == s.drop_first()[k - 1]);
            }
            assert(vv =~= s);
        }
    }
    Some((v, j2))
}

/// Role-cap entries strictly ascend by bit value, all above `prev`.
pub open spec fn caps_from_ok(s: Seq<(RolesMask, u16)>, prev: Option<u8>) -> bool {
    &&& (match prev {
        Some(p) => s.len() == 0 || p < role_bit(s[0].0),
        None => true,
    })
    &&& (forall|x: int|
        0 <= x && x + 1 < s.len() ==> role_bit((#[trigger] s[x]).0) < role_bit(s[x + 1].0))
}

/// Splits a non-empty run of role-cap entries at its head.
proof fn lemma_caps_cons(b: Seq<u8>, i: int, prev: Option<u8>, s: Seq<(RolesMask, u16)>)
    requires
        s.len() > 0,
        caps_from_ok(s, prev),
        0 <= i,
        i + enc_caps(s).len() <= b.len(),
        b.subrange(i, i + enc_caps(s).len()) == enc_caps(s),
    ensures
        enc_caps(s).len() == 3 + enc_caps(s.drop_first()).len(),
        b.subrange(i, i + 3) == enc_cap(s[0]),
        b.subrange(i + 3, i + enc_caps(s).len()) == enc_caps(s.drop_first()),
        caps_from_ok(s.drop_first(), Some(role_bit(s[0].0))),
        match prev {
            Some(p) => p < role_bit(s[0].0),
            None => true,
        },
{
    crate::codec::lemma_prefix_of_concat(enc_cap(s[0]), enc_caps(s.drop_first()), b, i);
    assert forall|x: int|
        0 <= x && x + 1 < s.drop_first().len() implies role_bit(
        (#[trigger] s.drop_first()[x]).0,
    ) < role_bit(s.drop_first()[x + 1].0) by {
        assert(s.drop_first()[x] == s[x + 1]);
        assert(s.drop_first()[x + 1] == s[x + 2]);
    }
    assert(s.drop_first().len() > 0 ==> s.drop_first()[0] == s[1]);
}

/// Reads one role-cap entry.
fn parse_cap(b: &Vec<u8>, i: usize) -> (r: Option<((RolesMask, u16), usize)>)
    requires
        i <= b@.len(),
    ensures
        r matches Some((c, j)) ==> j == i + 3 && j <= b@.len() && enc_cap(c) == b@.subrange(
            i as int,
            i + 3,
        ),
        forall|w: (RolesMask, u16)|
            i + 3 <= b@.len() && b@.subrange(i as int, i + 3) == #[trigger] enc_cap(w) ==> r
                == Some((w, (i + 3) as usize)),
{
    let (bit, j1) = match crate::codec::parse_u8(b, i) {
        None => {
            proof {
                assert forall|w: (RolesMask, u16)|
                    i + 3 <= b@.len() && b@.subrange(i as int, i + 3) == #[trigger] enc_cap(
                        w,
                    ) implies false by {
                }
            }
            return None;
        },
        Some(p) => p,
    };
    let role = match crate::registry::role_of_bit_exec(bit) {
        None => {
            proof {
                assert forall|w: (RolesMask, u16)|
                    i + 3 <= b@.len() && b@.subrange(i as int, i + 3) == #[trigger] enc_cap(
                        w,
                    ) implies false by {
                    crate::codec::lemma_prefix_of_concat(
                        enc_u8(role_bit(w.0)),
                        enc_u16(w.1),
                        b@,
                        i as int,
                    );
                    assert(crate::registry::role_of_bit(role_bit(w.0)) == Some(w.0));
                }
            }
            return None;
        },
        Some(m) => m,
    };
    let (cap, j2) = match crate::codec::parse_u16(b, j1) {
        None => {
            return None;
        },
        Some(p) => p,
    };
    let c = (role, cap);
    proof {
        assert(enc_cap(c) =~= b@.subrange(i as int, i + 3));
        assert forall|w: (RolesMask, u16)|
            b@.subrange(i as int, i + 3) == #[trigger] enc_cap(w) && i + 3 <= b@.len() implies w
                == c by {
            crate::codec::lemma_prefix_of_concat(enc_u8(role_bit(w.0)), enc_u16(w.1), b@, i as int);
            assert(crate::registry::role_of_bit(role_bit(w.0)) == Some(w.0));
        }
    }
    Some((c, j2))
}

/// Reads `count` role-cap entries whose keys strictly ascend above `prev`.
#[verifier::rlimit(100)]
#[verifier::spinoff_prover]
fn parse_caps(b: &Vec<u8>, i: usize, count: usize, prev: Option<u8>) -> (r: Option<
    (Vec<(RolesMask, u16)>, usize),
>)
    requires
        i <= b@.len(),
    ensures
        r matches Some((v, j)) ==> (i <= j <= b@.len() && v@.len() == count && enc_caps(v@)
            == b@.subrange(i as int, j as int) && caps_from_ok(v@, prev)),
        forall|s: Seq<(RolesMask, u16)>|
            (s.len() == count && caps_from_ok(s, prev) && i + enc_caps(s).len() <= b@.len()
                && b@.subrange(i as int, i + enc_caps(s).len()) == #[trigger] enc_caps(s)) ==> (
            r matches Some((v, j)) && v@ == s && j == i + enc_caps(s).len()),
    decreases count,
{
    if count == 0 {
        let v: Vec<(RolesMask, u16)> = Vec::new();
        proof {
            assert(enc_caps(v@) =~= b@.subrange(i as int, i as int));
            assert forall|s: Seq<(RolesMask, u16)>|
                (s.len() == 0 && i + enc_caps(s).len() <= b@.len() && b@.subrange(
                    i as int,
                    i + enc_caps(s).len(),
                ) == #[trigger] enc_caps(s)) implies v@ == s by {
                assert(v@ =~= s);
            }
        }
        return Some((v, i));
    }
    let (head, j1) = match parse_cap(b, i) {
        None => {
            proof {
                assert forall|s: Seq<(RolesMask, u16)>|
                    (s.len() == count && caps_from_ok(s, prev) && i + enc_caps(s).len() <= b@.len()
                        && b@.subrange(i as int, i + enc_caps(s).len()) == #[trigger] enc_caps(
                        s,
                    )) implies false by {
                    lemma_caps_cons(b@, i as int, prev, s);
                }
            }
            return None;
        },
        Some(p) => p,
    };
    let bit = role_bit_of(head.0);
    match prev {
        Some(p) => {
            if bit <= p {
                proof {
                    assert forall|s: Seq<(RolesMask, u16)>|
                        (s.len() == count && caps_from_ok(s, prev) && i + enc_caps(s).len()
                            <= b@.len() && b@.subrange(i as int, i + enc_caps(s).len())
                            == #[trigger] enc_caps(s)) implies false by {
                        lemma_caps_cons(b@, i as int, prev, s);
                        assert(head == s[0]);
                    }
                }
                return None;
            }
        },
        None => {},
    }
    let (tail, j2) = match parse_caps(b, j1, count - 1, Some(bit)) {
        None => {
            proof {
                assert forall|s: Seq<(RolesMask, u16)>|
                    (s.len() == count && caps_from_ok(s, prev) && i + enc_caps(s).len() <= b@.len()
                        && b@.subrange(i as int, i + enc_caps(s).len()) == #[trigger] enc_caps(
                        s,
                    )) implies false by {
                    lemma_caps_cons(b@, i as int, prev, s);
                    assert(head == s[0]);
                    assert(s.drop_first().len() == count - 1);
                }
            }
            return None;
        },
        Some(p) => p,
    };
    let mut v: Vec<(RolesMask, u16)> = Vec::new();
    v.push(head);
    let mut tail = tail;
    let ghost tail0 = tail@;
    v.append(&mut tail);
    proof {
        assert(v@.drop_first() =~= tail0);
        assert(enc_caps(v@) == enc_cap(v@[0]) + enc_caps(v@.drop_first()));
        assert(enc_caps(v@) =~= b@.subrange(i as int, j2 as int));
        assert forall|x: int|
            0 <= x && x + 1 < v@.len() implies role_bit((#[trigger] v@[x]).0) < role_bit(
            v@[x + 1].0,
        ) by {
            if x == 0 {
                assert(v@[1] == tail0[0]);
            } else {
                assert(v@[x] == tail0[x - 1]);
                assert(v@[x + 1] == tail0[x]);
            }
        }
        assert(caps_from_ok(v@, prev));
        assert forall|s: Seq<(RolesMask, u16)>|
            (s.len() == count && caps_from_ok(s, prev) && i + enc_caps(s).len() <= b@.len()
                && b@.subrange(i as int, i + enc_caps(s).len()) == #[trigger] enc_caps(s)) implies
            v@ == s && j2 == i + enc_caps(s).len() by {
            lemma_caps_cons(b@, i as int, prev, s);
            assert(head == s[0]);
            assert(j1 == i + 3);
            assert(s.drop_first().len() == count - 1);
            assert(b@.subrange(j1 as int, j1 + enc_caps(s.drop_first()).len()) == enc_caps(
                s.drop_first(),
            ));
            assert(tail0 == s.drop_first());
            assert(v@[0] == s[0]);
            assert forall|k: int| 0 < k < v@.len() implies v@[k] == s[k] by {
                assert(v@[k] == v@.drop_first()[k - 1]);
                assert(s[k] == s.drop_first()[k - 1]);
            }
            assert(v@ =~= s);
        }
    }
    Some((v, j2))
}

/// Threshold entries strictly ascend by kind code, all above `prev`.
pub open spec fn thresholds_from_ok(s: Seq<(ThresholdKind, Seq<u8>)>, prev: Option<u8>) -> bool {
    &&& (match prev {
        Some(p) => s.len() == 0 || p < threshold_kind_code(s[0].0),
        None => true,
    })
    &&& (forall|x: int|
        0 <= x && x + 1 < s.len() ==> threshold_kind_code((#[trigger] s[x]).0)
            < threshold_kind_code(s[x + 1].0))
}

/// Every amount of a threshold table is a canonical magnitude.
pub open spec fn thresholds_q_wf(s: Seq<(ThresholdKind, Seq<u8>)>) -> bool {
    forall|k: int| 0 <= k < s.len() ==> crate::staking::quantity_wf((#[trigger] s[k]).1)
}

/// Splits a non-empty run of threshold entries at its head.
proof fn lemma_thresholds_cons(b: Seq<u8>, i: int, prev: Option<u8>, s: Seq<(ThresholdKind, Seq<u8>)>)
    requires
        s.len() > 0,
        thresholds_from_ok(s, prev),
        thresholds_q_wf(s),
        0 <= i,
        i + enc_thresholds(s).len() <= b.len(),
        b.subrange(i, i + enc_thresholds(s).len()) == enc_thresholds(s),
    ensures
        enc_thresholds(s).len() == enc_threshold(s[0]).len() + enc_thresholds(
            s.drop_first(),
        ).len(),
        b.subrange(i, i + enc_threshold(s[0]).len()) == enc_threshold(s[0]),
        b.subrange(i + enc_threshold(s[0]).len(), i + enc_thresholds(s).len())
            == enc_thresholds(s.drop_first()),
        thresholds_from_ok(s.drop_first(), Some(threshold_kind_code(s[0].0))),
        thresholds_q_wf(s.drop_first()),
        crate::staking::quantity_wf(s[0].1),
        match prev {
            Some(p) => p < threshold_kind_code(s[0].0),
            None => true,
        },
{
    crate::codec::lemma_prefix_of_concat(enc_threshold(s[0]), enc_thresholds(s.drop_first()), b, i);
    assert forall|x: int|
        0 <= x && x + 1 < s.drop_first().len() implies threshold_kind_code(
        (#[trigger] s.drop_first()[x]).0,
    ) < threshold_kind_code(s.drop_first()[x + 1].0) by {
        assert(s.drop_first()[x] == s[x + 1]);
        assert(s.drop_first()[x + 1] == s[x + 2]);
    }
    assert forall|k: int|
        0 <= k < s.drop_first().len() implies crate::staking::quantity_wf(
        (#[trigger] s.drop_first()[k]).1,
    ) by {
        assert(s.drop_first()[k] == s[k + 1]);
    }
    assert(s.drop_first().len() > 0 ==> s.drop_first()[0] == s[1]);
}

/// Reads one threshold entry.
fn parse_threshold(b: &Vec<u8>, i: usize) -> (r: Option<((ThresholdKind, Quantity), usize)>)
    requires
        i <= b@.len(),
    ensures
        r matches Some((t, j)) ==> i <= j <= b@.len() && crate::staking::quantity_wf(t.1.bytes@)
            && enc_threshold((t.0, t.1.bytes@)) == b@.subrange(i as int, j as int),
        forall|w: (ThresholdKind, Seq<u8>)|
            crate::staking::quantity_wf(w.1) && i + enc_threshold(w).len() <= b@.len()
                && b@.subrange(i as int, i + enc_threshold(w).len()) == #[trigger] enc_threshold(
                w,
            ) ==> (r matches Some((t, j)) && t.0 == w.0 && t.1.bytes@ == w.1 && j == i
                + enc_threshold(w).len()),
{
    let (code, j1) = match crate::codec::parse_u8(b, i) {
        None => {
            proof {
                assert forall|w: (ThresholdKind, Seq<u8>)|
                    crate::staking::quantity_wf(w.1) && i + enc_threshold(w).len() <= b@.len()
                        && b@.subrange(i as int, i + enc_threshold(w).len())
                        == #[trigger] enc_threshold(w) implies false by {
                    crate::codec::lemma_prefix_of_concat(
                        enc_u8(threshold_kind_code(w.0)),
                        enc_bytes(w.1),
                        b@,
                        i as int,
                    );
                }
            }
            return None;
        },
        Some(p) => p,
    };
    let kind = match crate::staking::kind_of_code(code) {
        None => {
            proof {
                assert forall|w: (ThresholdKind, Seq<u8>)|
                    crate::staking::quantity_wf(w.1) && i + enc_threshold(w).len() <= b@.len()
                        && b@.subrange(i as int, i + enc_threshold(w).len())
                        == #[trigger] enc_threshold(w) implies false by {
                    crate::codec::lemma_prefix_of_concat(
                        enc_u8(threshold_kind_code(w.0)),
                        enc_bytes(w.1),
                        b@,
                        i as int,
                    );
                    assert(crate::staking::threshold_kind_of_code(threshold_kind_code(w.0))
                        == Some(w.0));
                }
            }
            return None;
        },
        Some(k) => k,
    };
    let (q, j2) = match crate::codec::parse_bytes(b, j1) {
        None => {
            proof {
                assert forall|w: (ThresholdKind, Seq<u8>)|
                    crate::staking::quantity_wf(w.1) && i + enc_threshold(w).len() <= b@.len()
                        && b@.subrange(i as int, i + enc_threshold(w).len())
                        == #[trigger] enc_threshold(w) implies false by {
                    crate::codec::lemma_prefix_of_concat(
                        enc_u8(threshold_kind_code(w.0)),
                        enc_bytes(w.1),
                        b@,
                        i as int,
                    );
                }
            }
            return None;
        },
        Some(p) => p,
    };
    if q.len() > 0 {
        if *q.get(0).unwrap() == 0u8 {
            proof {
                assert forall|w: (ThresholdKind, Seq<u8>)|
                    crate::staking::quantity_wf(w.1) && i + enc_threshold(w).len() <= b@.len()
                        && b@.subrange(i as int, i + enc_threshold(w).len())
                        == #[trigger] enc_threshold(w) implies false by {
                    crate::codec::lemma_prefix_of_concat(
                        enc_u8(threshold_kind_code(w.0)),
                        enc_bytes(w.1),
                        b@,
                        i as int,
                    );
                    assert(q@ == w.1);
                }
            }
            return None;
        }
    }
    let t = (kind, Quantity { bytes: q });
    proof {
        assert(enc_threshold((t.0, t.1.bytes@)) =~= b@.subrange(i as int, j2 as int));
        assert forall|w: (ThresholdKind, Seq<u8>)|
            crate::staking::quantity_wf(w.1) && i + enc_threshold(w).len() <= b@.len()
                && b@.subrange(i as int, i + enc_threshold(w).len()) == #[trigger] enc_threshold(
                w,
            ) implies t.0 == w.0 && t.1.bytes@ == w.1 && j2 == i + enc_threshold(w).len() by {
            crate::codec::lemma_prefix_of_concat(
                enc_u8(threshold_kind_code(w.0)),
                enc_bytes(w.1),
                b@,
                i as int,
            );
            assert(crate::staking::threshold_kind_of_code(threshold_kind_code(w.0)) == Some(w.0));
        }
    }
    Some((t, j2))
}

/// Reads `count` threshold entries whose kind codes strictly ascend above
/// `prev`.
#[verifier::rlimit(100)]
#[verifier::spinoff_prover]
fn parse_thresholds(b: &Vec<u8>, i: usize, count: usize, prev: Option<u8>) -> (r: Option<
    (Vec<(ThresholdKind, Quantity)>, usize),
>)
    requires
        i <= b@.len(),
    ensures
        r matches Some((v, j)) ==> (i <= j <= b@.len() && v@.len() == count && enc_thresholds(
            thresholds_view(v@),
        ) == b@.subrange(i as int, j as int) && thresholds_from_ok(thresholds_view(v@), prev)
            && thresholds_q_wf(thresholds_view(v@))),
        forall|s: Seq<(ThresholdKind, Seq<u8>)>|
            (s.len() == count && thresholds_from_ok(s, prev) && thresholds_q_wf(s) && i
                + enc_thresholds(s).len() <= b@.len() && b@.subrange(
                i as int,
                i + enc_thresholds(s).len(),
            ) == #[trigger] enc_thresholds(s)) ==> (r matches Some((v, j)) && thresholds_view(v@)
                == s && j == i + enc_thresholds(s).len()),
    decreases count,
{
    if count == 0 {
        let v: Vec<(ThresholdKind, Quantity)> = Vec::new();
        proof {
            assert(thresholds_view(v@) =~= Seq::<(ThresholdKind, Seq<u8>)>::empty());
            assert(enc_thresholds(thresholds_view(v@)) =~= b@.subrange(i as int, i as int));
            assert forall|s: Seq<(ThresholdKind, Seq<u8>)>|
                (s.len() == 0 && i + enc_thresholds(s).len() <= b@.len() && b@.subrange(
                    i as int,
                    i + enc_thresholds(s).len(),
                ) == #[trigger] enc_thresholds(s)) implies thresholds_view(v@) == s by {
                assert(thresholds_view(v@) =~= s);
            }
        }
        return Some((v, i));
    }
    let (head, j1) = match parse_threshold(b, i) {
        None => {
            proof {
                assert forall|s: Seq<(ThresholdKind, Seq<u8>)>|
                    (s.len() == count && thresholds_from_ok(s, prev) && thresholds_q_wf(s) && i
                        + enc_thresholds(s).len() <= b@.len() && b@.subrange(
                        i as int,
                        i + enc_thresholds(s).len(),
                    ) == #[trigger] enc_thresholds(s)) implies false by {
                    lemma_thresholds_cons(b@, i as int, prev, s);
                }
            }
            return None;
        },
        Some(p) => p,
    };
    let code = crate::staking::kind_code(head.0);
    match prev {
        Some(p) => {
            if code <= p {
                proof {
                    assert forall|s: Seq<(ThresholdKind, Seq<u8>)>|
                        (s.len() == count && thresholds_from_ok(s, prev) && thresholds_q_wf(s) && i
                            + enc_thresholds(s).len() <= b@.len() && b@.subrange(
                            i as int,
                            i + enc_thresholds(s).len(),
                        ) == #[trigger] enc_thresholds(s)) implies false by {
                        lemma_thresholds_cons(b@, i as int, prev, s);
                        assert(head.0 == s[0].0);
                    }
                }
                return None;
            }
        },
        None => {},
    }
    let ghost headv = (head.0, head.1.bytes@);
    let (tail, j2) = match parse_thresholds(b, j1, count - 1, Some(code)) {
        None => {
            proof {
                assert forall|s: Seq<(ThresholdKind, Seq<u8>)>|
                    (s.len() == count && thresholds_from_ok(s, prev) && thresholds_q_wf(s) && i
                        + enc_thresholds(s).len() <= b@.len() && b@.subrange(
                        i as int,
                        i + enc_thresholds(s).len(),
                    ) == #[trigger] enc_thresholds(s)) implies false by {
                    lemma_thresholds_cons(b@, i as int, prev, s);
                    assert(headv == s[0]);
                    assert(s.drop_first().len() == count - 1);
                }
            }
            return None;
        },
        Some(p) => p,
    };
    let mut v: Vec<(ThresholdKind, Quantity)> = Vec::new();
    v.push(head);
    let mut tail = tail;
    let ghost tail0 = tail@;
    v.append(&mut tail);
    proof {
        assert(v@.drop_first() =~= tail0);
        assert(thresholds_view(v@)[0] == headv);
        assert(thresholds_view(v@).drop_first() =~= thresholds_view(v@.drop_first()));
        let vv = thresholds_view(v@);
        assert(enc_thresholds(vv) == enc_threshold(vv[0]) + enc_thresholds(vv.drop_first()));
        assert(enc_thresholds(vv) =~= b@.subrange(i as int, j2 as int));
        assert forall|x: int|
            0 <= x && x + 1 < vv.len() implies threshold_kind_code((#[trigger] vv[x]).0)
                < threshold_kind_code(vv[x + 1].0) by {
            if x == 0 {
                assert(vv[1] == thresholds_view(tail0)[0]);
            } else {
                assert(vv[x] == thresholds_view(tail0)[x - 1]);
                assert(vv[x + 1] == thresholds_view(tail0)[x]);
            }
        }
        assert forall|k: int|
            0 <= k < vv.len() implies crate::staking::quantity_wf((#[trigger] vv[k]).1) by {
            if k > 0 {
                assert(vv[k] == thresholds_view(tail0)[k - 1]);
            }
        }
        assert(thresholds_from_ok(vv, prev));
        assert(thresholds_q_wf(vv));
        assert forall|s: Seq<(ThresholdKind, Seq<u8>)>|
            (s.len() == count && thresholds_from_ok(s, prev) && thresholds_q_wf(s) && i
                + enc_thresholds(s).len() <= b@.len() && b@.subrange(
                i as int,
                i + enc_thresholds(s).len(),
            ) == #[trigger] enc_thresholds(s)) implies vv == s && j2 == i + enc_thresholds(
            s,
        ).len() by {
            lemma_thresholds_cons(b@, i as int, prev, s);
            assert(headv == s[0]);
            assert(j1 == i + enc_threshold(s[0]).len());
            assert(s.drop_first().len() == count - 1);
            assert(b@.subrange(j1 as int, j1 + enc_thresholds(s.drop_first()).len())
                == enc_thresholds(s.drop_first()));
            assert(thresholds_view(tail0) == s.drop_first());
            assert(vv.drop_first() == thresholds_view(tail0));
            assert(vv[0] == s[0]);
            assert forall|k: int| 0 < k < vv.len() implies vv[k] == s[k] by {
                assert(vv[k] == vv.drop_first()[k - 1]);
                assert(s[k] == s.drop_first()[k - 1]);
            }
            assert(vv =~= s);
        }
    }
    Some((v, j2))
}

/// Whitelist entries strictly ascend by key bytes, all above `prev`.
pub open spec fn entities_from_ok(
    s: Seq<(Seq<u8>, EntityWhitelistConfigV)>,
    prev: Option<Seq<u8>>,
) -> bool {
    &&& (match prev {
        Some(p) => s.len() == 0 || crate::bytes_lt(p, s[0].0),
        None => true,
    })
    &&& (forall|x: int|
        0 <= x && x + 1 < s.len() ==> crate::bytes_lt((#[trigger] s[x]).0, s[x + 1].0))
}

/// Every whitelist entry has a full-length key and a well-formed
/// configuration.
pub open spec fn entities_wf_all(s: Seq<(Seq<u8>, EntityWhitelistConfigV)>) -> bool {
    forall|k: int|
        0 <= k < s.len() ==> (#[trigger] s[k]).0.len() == crate::keys::PUBLIC_KEY_LEN
            && crate::registry::config_wf(s[k].1)
}

/// Splits a config encoding standing at `at` and relates its tag byte and
/// parts to the value.
proof fn lemma_config_tag(b: Seq<u8>, at: int, w: EntityWhitelistConfigV)
    requires
        0 <= at,
        crate::registry::config_wf(w),
        at + enc_config(w).len() <= b.len(),
        b.subrange(at, at + enc_config(w).len()) == enc_config(w),
    ensures
        b[at] == (match w.max_nodes {
            None => 0u8,
            Some(m) => 1u8,
        }),
        w.max_nodes matches Some(m) ==> enc_config(w).len() == 5 + enc_caps(m).len() && b.subrange(
            at + 1,
            at + 5,
        ) == enc_u32(m.len() as u32) && b.subrange(at + 5, at + enc_config(w).len()) == enc_caps(m),
        w.max_nodes is None ==> enc_config(w).len() == 1,
{
    match w.max_nodes {
        None => {
            assert(b.subrange(at, at + 1)[0] == b[at]);
        },
        Some(m) => {
            crate::codec::lemma_prefix_of_concat(
                seq![1u8] + enc_u32(m.len() as u32),
                enc_caps(m),
                b,
                at,
            );
            crate::codec::lemma_prefix_of_concat(seq![1u8], enc_u32(m.len() as u32), b, at);
            assert(b.subrange(at, at + 1)[0] == b[at]);
            assert((seq![1u8])[0] == 1u8);
        },
    }
}

/// Reads a whitelist entry configuration.
#[verifier::rlimit(100)]
#[verifier::spinoff_prover]
fn parse_config(b: &Vec<u8>, i: usize) -> (r: Option<(EntityWhitelistConfig, usize)>)
    requires
        i <= b@.len(),
    ensures
        r matches Some((c, j)) ==> i <= j <= b@.len() && crate::registry::config_wf(c@)
            && enc_config(c@) == b@.subrange(i as int, j as int),
        forall|w: EntityWhitelistConfigV|
            crate::registry::config_wf(w) && i + enc_config(w).len() <= b@.len() && b@.subrange(
                i as int,
                i + enc_config(w).len(),
            ) == #[trigger] enc_config(w) ==> (r matches Some((c, j)) && c@ == w && j == i
                + enc_config(w).len()),
{
    let (tag, j1) = match crate::codec::parse_u8(b, i) {
        None => {
            proof {
                assert forall|w: EntityWhitelistConfigV|
                    crate::registry::config_wf(w) && i + enc_config(w).len() <= b@.len()
                        && b@.subrange(i as int, i + enc_config(w).len()) == #[trigger] enc_config(
                        w,
                    ) implies false by {
                    lemma_config_tag(b@, i as int, w);
                }
            }
            return None;
        },
        Some(p) => p,
    };
    proof {
        assert(enc_u8(tag)[0] == tag);
        assert(b@.subrange(i as int, i + 1)[0] == b@[i as int]);
    }
    if tag == 0 {
        let c = EntityWhitelistConfig { max_nodes: None };
        proof {
            assert(enc_config(c@) =~= b@.subrange(i as int, j1 as int));
            assert forall|w: EntityWhitelistConfigV|
                crate::registry::config_wf(w) && i + enc_config(w).len() <= b@.len()
                    && b@.subrange(i as int, i + enc_config(w).len()) == #[trigger] enc_config(
                    w,
                ) implies c@ == w && j1 == i + enc_config(w).len() by {
                lemma_config_tag(b@, i as int, w);
            }
        }
        return Some((c, j1));
    }
    if tag != 1 {
        proof {
            assert forall|w: EntityWhitelistConfigV|
                crate::registry::config_wf(w) && i + enc_config(w).len() <= b@.len()
                    && b@.subrange(i as int, i + enc_config(w).len()) == #[trigger] enc_config(
                    w,
                ) implies false by {
                lemma_config_tag(b@, i as int, w);
            }
        }
        return None;
    }
    let (n, j2) = match crate::codec::parse_u32(b, j1) {
        None => {
            proof {
                assert forall|w: EntityWhitelistConfigV|
                    crate::registry::config_wf(w) && i + enc_config(w).len() <= b@.len()
                        && b@.subrange(i as int, i + enc_config(w).len()) == #[trigger] enc_config(
                        w,
                    ) implies false by {
                    lemma_config_tag(b@, i as int, w);
                }
            }
            return None;
        },
        Some(p) => p,
    };
    let (m, j3) = match parse_caps(b, j2, n as usize, None) {
        None => {
            proof {
                assert forall|w: EntityWhitelistConfigV|
                    crate::registry::config_wf(w) && i + enc_config(w).len() <= b@.len()
                        && b@.subrange(i as int, i + enc_config(w).len()) == #[trigger] enc_config(
                        w,
                    ) implies false by {
                    lemma_config_tag(b@, i as int, w);
                    match w.max_nodes {
                        None => {},
                        Some(mm) => {
                            crate::codec::lemma_enc_u32_inj(n, mm.len() as u32);
                        },
                    }
                }
            }
            return None;
        },
        Some(p) => p,
    };
    let c = EntityWhitelistConfig { max_nodes: Some(m) };
    proof {
        assert(c@.max_nodes == Some(m@));
        assert(enc_config(c@) =~= b@.subrange(i as int, j3 as int));
        assert forall|w: EntityWhitelistConfigV|
            crate::registry::config_wf(w) && i + enc_config(w).len() <= b@.len() && b@.subrange(
                i as int,
                i + enc_config(w).len(),
            ) == #[trigger] enc_config(w) implies c@ == w && j3 == i + enc_config(w).len() by {
            lemma_config_tag(b@, i as int, w);
            match w.max_nodes {
                None => {},
                Some(mm) => {
                    crate::codec::lemma_enc_u32_inj(n, mm.len() as u32);
                    assert(mm.len() == n);
                    assert(m@ == mm);
                },
            }
        }
    }
    Some((c, j3))
}

/// Splits a non-empty run of whitelist entries at its head.
proof fn lemma_entities_cons(
    b: Seq<u8>,
    i: int,
    prev: Option<Seq<u8>>,
    s: Seq<(Seq<u8>, EntityWhitelistConfigV)>,
)
    requires
        s.len() > 0,
        entities_from_ok(s, prev),
        entities_wf_all(s),
        0 <= i,
        i + enc_entities(s).len() <= b.len(),
        b.subrange(i, i + enc_entities(s).len()) == enc_entities(s),
    ensures
        enc_entities(s).len() == enc_entity(s[0]).len() + enc_entities(s.drop_first()).len(),
        enc_entity(s[0]).len() == 32 + enc_config(s[0].1).len(),
        b.subrange(i, i + 32) == s[0].0,
        b.subrange(i + 32, i + enc_entity(s[0]).len()) == enc_config(s[0].1),
        b.subrange(i + enc_entity(s[0]).len(), i + enc_entities(s).len()) == enc_entities(
            s.drop_first(),
        ),
        entities_from_ok(s.drop_first(), Some(s[0].0)),
        entities_wf_all(s.drop_first()),
        crate::registry::config_wf(s[0].1),
        s[0].0.len() == 32,
        match prev {
            Some(p) => crate::bytes_lt(p, s[0].0),
            None => true,
        },
{
    crate::codec::lemma_prefix_of_concat(enc_entity(s[0]), enc_entities(s.drop_first()), b, i);
    crate::codec::lemma_prefix_of_concat(s[0].0, enc_config(s[0].1), b, i);
    assert forall|x: int|
        0 <= x && x + 1 < s.drop_first().len() implies crate::bytes_lt(
        (#[trigger] s.drop_first()[x]).0,
        s.drop_first()[x + 1].0,
    ) by {
        assert(s.drop_first()[x] == s[x + 1]);
        assert(s.drop_first()[x + 1] == s[x + 2]);
    }
    assert forall|k: int|
        0 <= k < s.drop_first().len() implies (#[trigger] s.drop_first()[k]).0.len()
            == crate::keys::PUBLIC_KEY_LEN && crate::registry::config_wf(s.drop_first()[k].1) by {
        assert(s.drop_first()[k] == s[k + 1]);
    }
    assert(s.drop_first().len() > 0 ==> s.drop_first()[0] == s[1]);
}

/// The view of an optional previous key.
pub open spec fn prev_key_view(prev: Option<&Vec<u8>>) -> Option<Seq<u8>> {
    match prev {
        Some(p) => Some(p@),
        None => None,
    }
}

/// Reads `count` whitelist entries whose keys strictly ascend above `prev`.
#[verifier::rlimit(100)]
#[verifier::spinoff_prover]
fn parse_entities(b: &Vec<u8>, i: usize, count: usize, prev: Option<&Vec<u8>>) -> (r: Option<
    (Vec<(PublicKey, EntityWhitelistConfig)>, usize),
>)
    requires
        i <= b@.len(),
    ensures
        r matches Some((v, j)) ==> (i <= j <= b@.len() && v@.len() == count && enc_entities(
            entities_view(v@),
        ) == b@.subrange(i as int, j as int) && entities_from_ok(
            entities_view(v@),
            prev_key_view(prev),
        ) && entities_wf_all(entities_view(v@))),
        forall|s: Seq<(Seq<u8>, EntityWhitelistConfigV)>|
            (s.len() == count && entities_from_ok(s, prev_key_view(prev)) && entities_wf_all(s)
                && i + enc_entities(s).len() <= b@.len() && b@.subrange(
                i as int,
                i + enc_entities(s).len(),
            ) == #[trigger] enc_entities(s)) ==> (r matches Some((v, j)) && entities_view(v@) == s
                && j == i + enc_entities(s).len()),
    decreases count,
{
    let ghost prevv = prev_key_view(prev);
    if count == 0 {
        let v: Vec<(PublicKey, EntityWhitelistConfig)> = Vec::new();
        proof {
            assert(entities_view(v@) =~= Seq::<(Seq<u8>, EntityWhitelistConfigV)>::empty());
            assert(enc_entities(entities_view(v@)) =~= b@.subrange(i as int, i as int));
            assert forall|s: Seq<(Seq<u8>, EntityWhitelistConfigV)>|
                (s.len() == 0 && i + enc_entities(s).len() <= b@.len() && b@.subrange(
                    i as int,
                    i + enc_entities(s).len(),
                ) == #[trigger] enc_entities(s)) implies entities_view(v@) == s by {
                assert(entities_view(v@) =~= s);
            }
        }
        return Some((v, i));
    }
    let (key, j1) = match crate::codec::parse_raw(b, i, 32) {
        None => {
            proof {
                assert forall|s: Seq<(Seq<u8>, EntityWhitelistConfigV)>|
                    (s.len() == count && entities_from_ok(s, prevv) && entities_wf_all(s) && i
                        + enc_entities(s).len() <= b@.len() && b@.subrange(
                        i as int,
                        i + enc_entities(s).len(),
                    ) == #[trigger] enc_entities(s)) implies false by {
                    lemma_entities_cons(b@, i as int, prevv, s);
                }
            }
            return None;
        },
        Some(p) => p,
    };
    match prev {
        Some(p) => {
            if !crate::bytes_lt_exec(p, &key) {
                proof {
                    assert forall|s: Seq<(Seq<u8>, EntityWhitelistConfigV)>|
                        (s.len() == count && entities_from_ok(s, prevv) && entities_wf_all(s) && i
                            + enc_entities(s).len() <= b@.len() && b@.subrange(
                            i as int,
                            i + enc_entities(s).len(),
                        ) == #[trigger] enc_entities(s)) implies false by {
                        lemma_entities_cons(b@, i as int, prevv, s);
                        assert(key@ == s[0].0);
                    }
                }
                return None;
            }
        },
        None => {},
    }
    let (cfg, j2) = match parse_config(b, j1) {
        None => {
            proof {
                assert forall|s: Seq<(Seq<u8>, EntityWhitelistConfigV)>|
                    (s.len() == count && entities_from_ok(s, prevv) && entities_wf_all(s) && i
                        + enc_entities(s).len() <= b@.len() && b@.subrange(
                        i as int,
                        i + enc_entities(s).len(),
                    ) == #[trigger] enc_entities(s)) implies false by {
                    lemma_entities_cons(b@, i as int, prevv, s);
                    assert(key@ == s[0].0);
                }
            }
            return None;
        },
        Some(p) => p,
    };
    let head = (PublicKey { bytes: key }, cfg);
    let ghost headv = (head.0.bytes@, head.1@);
    let (tail, j3) = match parse_entities(b, j2, count - 1, Some(&head.0.bytes)) {
        None => {
            proof {
                assert forall|s: Seq<(Seq<u8>, EntityWhitelistConfigV)>|
                    (s.len() == count && entities_from_ok(s, prevv) && entities_wf_all(s) && i
                        + enc_entities(s).len() <= b@.len() && b@.subrange(
                        i as int,
                        i + enc_entities(s).len(),
                    ) == #[trigger] enc_entities(s)) implies false by {
                    lemma_entities_cons(b@, i as int, prevv, s);
                    assert(headv == s[0]);
                    assert(s.drop_first().len() == count - 1);
                    assert(j2 == i + enc_entity(s[0]).len());
                }
            }
            return None;
        },
        Some(p) => p,
    };
    let mut v: Vec<(PublicKey, EntityWhitelistConfig)> = Vec::new();
    v.push(head);
    let mut tail = tail;
    let ghost tail0 = tail@;
    v.append(&mut tail);
    proof {
        assert(v@.drop_first() =~= tail0);
        assert(entities_view(v@)[0] == headv);
        assert(entities_view(v@).drop_first() =~= entities_view(v@.drop_first()));
        let vv = entities_view(v@);
        assert(enc_entities(vv) == enc_entity(vv[0]) + enc_entities(vv.drop_first()));
        assert(enc_entities(vv) =~= b@.subrange(i as int, j3 as int));
        assert forall|x: int|
            0 <= x && x + 1 < vv.len() implies crate::bytes_lt((#[trigger] vv[x]).0, vv[x + 1].0) by {
            if x == 0 {
                assert(vv[1] == entities_view(tail0)[0]);
            } else {
                assert(vv[x] == entities_view(tail0)[x - 1]);
                assert(vv[x + 1] == entities_view(tail0)[x]);
            }
        }
        assert forall|k: int|
            0 <= k < vv.len() implies (#[trigger] vv[k]).0.len() == crate::keys::PUBLIC_KEY_LEN
                && crate::registry::config_wf(vv[k].1) by {
            if k > 0 {
                assert(vv[k] == entities_view(tail0)[k - 1]);
            }
        }
        assert(entities_from_ok(vv, prevv));
        assert(entities_wf_all(vv));
        assert forall|s: Seq<(Seq<u8>, EntityWhitelistConfigV)>|
            (s.len() == count && entities_from_ok(s, prevv) && entities_wf_all(s) && i
                + enc_entities(s).len() <= b@.len() && b@.subrange(
                i as int,
                i + enc_entities(s).len(),
            ) == #[trigger] enc_entities(s)) implies vv == s && j3 == i + enc_entities(
            s,
        ).len() by {
            lemma_entities_cons(b@, i as int, prevv, s);
            assert(headv == s[0]);
            assert(j2 == i + enc_entity(s[0]).len());
            assert(s.drop_first().len() == count - 1);
            assert(b@.subrange(j2 as int, j2 + enc_entities(s.drop_first()).len()) == enc_entities(
                s.drop_first(),
            ));
            assert(entities_view(tail0) == s.drop_first());
            assert(vv.drop_first() == entities_view(tail0));
            assert(vv[0] == s[0]);
            assert forall|k: int| 0 < k < vv.len() implies vv[k] == s[k] by {
                assert(vv[k] == vv.drop_first()[k - 1]);
                assert(s[k] == s.drop_first()[k - 1]);
            }
            assert(vv =~= s);
        }
    }
    Some((v, j3))
}

/// The deep view of an optional write log.
pub open spec fn opt_log_view(o: Option<Vec<LogEntry>>) -> Option<Seq<LogEntryV>> {
    match o {
        Some(v) => Some(log_view(v@)),
        None => None,
    }
}

/// The deep view of an optional receipt list.
pub open spec fn opt_bundles_view(o: Option<Vec<SignatureBundle>>) -> Option<
    Seq<SignatureBundleV>,
> {
    match o {
        Some(v) => Some(bundles_view(v@)),
        None => None,
    }
}

/// Splits an optional-write-log encoding standing at `at`.
proof fn lemma_state_part(b: Seq<u8>, at: int, w: Option<Seq<LogEntryV>>)
    requires
        0 <= at,
        at + enc_state_part(w).len() <= b.len(),
        b.subrange(at, at + enc_state_part(w).len()) == enc_state_part(w),
    ensures
        b[at] == (match w {
            None => 0u8,
            Some(s) => 1u8,
        }),
        w matches Some(s) ==> enc_state_part(w).len() == 5 + enc_log_entries(s).len()
            && b.subrange(at + 1, at + 5) == enc_u32(s.len() as u32) && b.subrange(
            at + 5,
            at + enc_state_part(w).len(),
        ) == enc_log_entries(s),
        w is None ==> enc_state_part(w).len() == 1,
{
    match w {
        None => {
            assert(b.subrange(at, at + 1)[0] == b[at]);
        },
        Some(ss) => {
            crate::codec::lemma_prefix_of_concat(
                seq![1u8] + enc_u32(ss.len() as u32),
                enc_log_entries(ss),
                b,
                at,
            );
            crate::codec::lemma_prefix_of_concat(seq![1u8], enc_u32(ss.len() as u32), b, at);
            assert(b.subrange(at, at + 1)[0] == b[at]);
            assert((seq![1u8])[0] == 1u8);
        },
    }
}

/// Splits an optional-receipt-list encoding standing at `at`.
proof fn lemma_receipts_part(b: Seq<u8>, at: int, w: Option<Seq<SignatureBundleV>>)
    requires
        0 <= at,
        at + enc_receipts_part(w).len() <= b.len(),
        b.subrange(at, at + enc_receipts_part(w).len()) == enc_receipts_part(w),
    ensures
        b[at] == (match w {
            None => 0u8,
            Some(s) => 1u8,
        }),
        w matches Some(s) ==> enc_receipts_part(w).len() == 5 + enc_bundles(s).len()
            && b.subrange(at + 1, at + 5) == enc_u32(s.len() as u32) && b.subrange(
            at + 5,
            at + enc_receipts_part(w).len(),
        ) == enc_bundles(s),
        w is None ==> enc_receipts_part(w).len() == 1,
{
    match w {
        None => {
            assert(b.subrange(at, at + 1)[0] == b[at]);
        },
        Some(ss) => {
            crate::codec::lemma_prefix_of_concat(
                seq![1u8] + enc_u32(ss.len() as u32),
                enc_bundles(ss),
                b,
                at,
            );
            crate::codec::lemma_prefix_of_concat(seq![1u8], enc_u32(ss.len() as u32), b, at);
            assert(b.subrange(at, at + 1)[0] == b[at]);
            assert((seq![1u8])[0] == 1u8);
        },
    }
}

/// Whether an optional write log is well formed.
pub open spec fn opt_log_wf(w: Option<Seq<LogEntryV>>) -> bool {
    match w {
        Some(s) => crate::registry::write_log_wf(s),
        None => true,
    }
}

/// Whether an optional receipt list is well formed.
pub open spec fn opt_receipts_wf(w: Option<Seq<SignatureBundleV>>) -> bool {
    match w {
        Some(s) => crate::registry::receipts_wf(s),
        None => true,
    }
}

/// Reads an optional genesis write log.
#[verifier::rlimit(100)]
#[verifier::spinoff_prover]
fn parse_state_part(b: &Vec<u8>, i: usize) -> (r: Option<(Option<Vec<LogEntry>>, usize)>)
    requires
        i <= b@.len(),
    ensures
        r matches Some((st, j)) ==> i <= j <= b@.len() && opt_log_wf(opt_log_view(st))
            && enc_state_part(opt_log_view(st)) == b@.subrange(i as int, j as int),
        forall|w: Option<Seq<LogEntryV>>|
            opt_log_wf(w) && i + enc_state_part(w).len() <= b@.len() && b@.subrange(
                i as int,
                i + enc_state_part(w).len(),
            ) == #[trigger] enc_state_part(w) ==> (r matches Some((st, j)) && opt_log_view(st) == w
                && j == i + enc_state_part(w).len()),
{
    let (tag, j1) = match crate::codec::parse_u8(b, i) {
        None => {
            proof {
                assert forall|w: Option<Seq<LogEntryV>>|
                    opt_log_wf(w) && i + enc_state_part(w).len() <= b@.len() && b@.subrange(
                        i as int,
                        i + enc_state_part(w).len(),
                    ) == #[trigger] enc_state_part(w) implies false by {
                    lemma_state_part(b@, i as int, w);
                }
            }
            return None;
        },
        Some(p) => p,
    };
    proof {
        assert(enc_u8(tag)[0] == tag);
        assert(b@.subrange(i as int, i + 1)[0] == b@[i as int]);
    }
    if tag == 0 {
        let st: Option<Vec<LogEntry>> = None;
        proof {
            assert(enc_state_part(opt_log_view(st)) =~= b@.subrange(i as int, j1 as int));
            assert forall|w: Option<Seq<LogEntryV>>|
                opt_log_wf(w) && i + enc_state_part(w).len() <= b@.len() && b@.subrange(
                    i as int,
                    i + enc_state_part(w).len(),
                ) == #[trigger] enc_state_part(w) implies opt_log_view(st) == w && j1 == i
                + enc_state_part(w).len() by {
                lemma_state_part(b@, i as int, w);
            }
        }
        return Some((st, j1));
    }
    if tag != 1 {
        proof {
            assert forall|w: Option<Seq<LogEntryV>>|
                opt_log_wf(w) && i + enc_state_part(w).len() <= b@.len() && b@.subrange(
                    i as int,
                    i + enc_state_part(w).len(),
                ) == #[trigger] enc_state_part(w) implies false by {
                lemma_state_part(b@, i as int, w);
            }
        }
        return None;
    }
    let (n, j2) = match crate::codec::parse_u32(b, j1) {
        None => {
            proof {
                assert forall|w: Option<Seq<LogEntryV>>|
                    opt_log_wf(w) && i + enc_state_part(w).len() <= b@.len() && b@.subrange(
                        i as int,
                        i + enc_state_part(w).len(),
                    ) == #[trigger] enc_state_part(w) implies false by {
                    lemma_state_part(b@, i as int, w);
                }
            }
            return None;
        },
        Some(p) => p,
    };
    let (entries, j3) = match parse_log_entries(b, j2, n as usize) {
        None => {
            proof {
                assert forall|w: Option<Seq<LogEntryV>>|
                    opt_log_wf(w) && i + enc_state_part(w).len() <= b@.len() && b@.subrange(
                        i as int,
                        i + enc_state_part(w).len(),
                    ) == #[trigger] enc_state_part(w) implies false by {
                    lemma_state_part(b@, i as int, w);
                    match w {
                        None => {},
                        Some(ss) => {
                            crate::codec::lemma_enc_u32_inj(n, ss.len() as u32);
                        },
                    }
                }
            }
            return None;
        },
        Some(p) => p,
    };
    let st: Option<Vec<LogEntry>> = Some(entries);
    proof {
        assert(opt_log_view(st) == Some(log_view(st->0@)));
        assert(enc_state_part(opt_log_view(st)) =~= b@.subrange(i as int, j3 as int));
        assert forall|w: Option<Seq<LogEntryV>>|
            opt_log_wf(w) && i + enc_state_part(w).len() <= b@.len() && b@.subrange(
                i as int,
                i + enc_state_part(w).len(),
            ) == #[trigger] enc_state_part(w) implies opt_log_view(st) == w && j3 == i
            + enc_state_part(w).len() by {
            lemma_state_part(b@, i as int, w);
            match w {
                None => {},
                Some(ss) => {
                    crate::codec::lemma_enc_u32_inj(n, ss.len() as u32);
                    assert(ss.len() == n);
                },
            }
        }
    }
    Some((st, j3))
}

/// Reads an optional receipt list.
#[verifier::rlimit(100)]
#[verifier::spinoff_prover]
fn parse_receipts_part(b: &Vec<u8>, i: usize) -> (r: Option<
    (Option<Vec<SignatureBundle>>, usize),
>)
    requires
        i <= b@.len(),
    ensures
        r matches Some((st, j)) ==> i <= j <= b@.len() && opt_receipts_wf(opt_bundles_view(st))
            && enc_receipts_part(opt_bundles_view(st)) == b@.subrange(i as int, j as int),
        forall|w: Option<Seq<SignatureBundleV>>|
            opt_receipts_wf(w) && i + enc_receipts_part(w).len() <= b@.len() && b@.subrange(
                i as int,
                i + enc_receipts_part(w).len(),
            ) == #[trigger] enc_receipts_part(w) ==> (r matches Some((st, j)) && opt_bundles_view(
                st,
            ) == w && j == i + enc_receipts_part(w).len()),
{
    let (tag, j1) = match crate::codec::parse_u8(b, i) {
        None => {
            proof {
                assert forall|w: Option<Seq<SignatureBundleV>>|
                    opt_receipts_wf(w) && i + enc_receipts_part(w).len() <= b@.len()
                        && b@.subrange(i as int, i + enc_receipts_part(w).len())
                        == #[trigger] enc_receipts_part(w) implies false by {
                    lemma_receipts_part(b@, i as int, w);
                }
            }
            return None;
        },
        Some(p) => p,
    };
    proof {
        assert(enc_u8(tag)[0] == tag);
        assert(b@.subrange(i as int, i + 1)[0] == b@[i as int]);
    }
    if tag == 0 {
        let st: Option<Vec<SignatureBundle>> = None;
        proof {
            assert(enc_receipts_part(opt_bundles_view(st)) =~= b@.subrange(i as int, j1 as int));
            assert forall|w: Option<Seq<SignatureBundleV>>|
                opt_receipts_wf(w) && i + enc_receipts_part(w).len() <= b@.len() && b@.subrange(
                    i as int,
                    i + enc_receipts_part(w).len(),
                ) == #[trigger] enc_receipts_part(w) implies opt_bundles_view(st) == w && j1 == i
                + enc_receipts_part(w).len() by {
                lemma_receipts_part(b@, i as int, w);
            }
        }
        return Some((st, j1));
    }
    if tag != 1 {
        proof {
            assert forall|w: Option<Seq<SignatureBundleV>>|
                opt_receipts_wf(w) && i + enc_receipts_part(w).len() <= b@.len() && b@.subrange(
                    i as int,
                    i + enc_receipts_part(w).len(),
                ) == #[trigger] enc_receipts_part(w) implies false by {
                lemma_receipts_part(b@, i as int, w);
            }
        }
        return None;
    }
    let (n, j2) = match crate::codec::parse_u32(b, j1) {
        None => {
            proof {
                assert forall|w: Option<Seq<SignatureBundleV>>|
                    opt_receipts_wf(w) && i + enc_receipts_part(w).len() <= b@.len()
                        && b@.subrange(i as int, i + enc_receipts_part(w).len())
                        == #[trigger] enc_receipts_part(w) implies false by {
                    lemma_receipts_part(b@, i as int, w);
                }
            }
            return None;
        },
        Some(p) => p,
    };
    let (entries, j3) = match parse_bundles(b, j2, n as usize) {
        None => {
            proof {
                assert forall|w: Option<Seq<SignatureBundleV>>|
                    opt_receipts_wf(w) && i + enc_receipts_part(w).len() <= b@.len()
                        && b@.subrange(i as int, i + enc_receipts_part(w).len())
                        == #[trigger] enc_receipts_part(w) implies false by {
                    lemma_receipts_part(b@, i as int, w);
                    match w {
                        None => {},
                        Some(ss) => {
                            crate::codec::lemma_enc_u32_inj(n, ss.len() as u32);
                        },
                    }
                }
            }
            return None;
        },
        Some(p) => p,
    };
    let st: Option<Vec<SignatureBundle>> = Some(entries);
    proof {
        assert(opt_bundles_view(st) == Some(bundles_view(st->0@)));
        assert(enc_receipts_part(opt_bundles_view(st)) =~= b@.subrange(i as int, j3 as int));
        assert forall|w: Option<Seq<SignatureBundleV>>|
            opt_receipts_wf(w) && i + enc_receipts_part(w).len() <= b@.len() && b@.subrange(
                i as int,
                i + enc_receipts_part(w).len(),
            ) == #[trigger] enc_receipts_part(w) implies opt_bundles_view(st) == w && j3 == i
            + enc_receipts_part(w).len() by {
            lemma_receipts_part(b@, i as int, w);
            match w {
                None => {},
                Some(ss) => {
                    crate::codec::lemma_enc_u32_inj(n, ss.len() as u32);
                    assert(ss.len() == n);
                },
            }
        }
    }
    Some((st, j3))
}

/// Splits a genesis encoding standing at `at` into its four parts.
proof fn lemma_genesis_split(b: Seq<u8>, at: int, g: RuntimeGenesisV)
    requires
        0 <= at,
        crate::registry::genesis_wf(g),
        at + enc_genesis(g).len() <= b.len(),
        b.subrange(at, at + enc_genesis(g).len()) == enc_genesis(g),
    ensures
        enc_genesis(g).len() == 32 + enc_state_part(g.state).len() + enc_receipts_part(
            g.storage_receipts,
        ).len() + 8,
        b.subrange(at, at + 32) == g.state_root,
        b.subrange(at + 32, at + 32 + enc_state_part(g.state).len()) == enc_state_part(g.state),
        b.subrange(
            at + 32 + enc_state_part(g.state).len(),
            at + 32 + enc_state_part(g.state).len() + enc_receipts_part(g.storage_receipts).len(),
        ) == enc_receipts_part(g.storage_receipts),
        b.subrange(
            at + 32 + enc_state_part(g.state).len() + enc_receipts_part(g.storage_receipts).len(),
            at + enc_genesis(g).len(),
        ) == enc_u64(g.round),
{
    let root = g.state_root;
    let sp = enc_state_part(g.state);
    let rp = enc_receipts_part(g.storage_receipts);
    crate::codec::lemma_prefix_of_concat(root + sp + rp, enc_u64(g.round), b, at);
    crate::codec::lemma_prefix_of_concat(root + sp, rp, b, at);
    crate::codec::lemma_prefix_of_concat(root, sp, b, at);
}

/// Reads a genesis group.
#[verifier::rlimit(100)]
#[verifier::spinoff_prover]
fn parse_genesis(b: &Vec<u8>, i: usize) -> (r: Option<(crate::registry::RuntimeGenesis, usize)>)
    requires
        i <= b@.len(),
    ensures
        r matches Some((g, j)) ==> i <= j <= b@.len() && crate::registry::genesis_wf(g@)
            && enc_genesis(g@) == b@.subrange(i as int, j as int),
        forall|w: RuntimeGenesisV|
            crate::registry::genesis_wf(w) && i + enc_genesis(w).len() <= b@.len() && b@.subrange(
                i as int,
                i + enc_genesis(w).len(),
            ) == #[trigger] enc_genesis(w) ==> (r matches Some((g, j)) && g@ == w && j == i
                + enc_genesis(w).len()),
{
    let (root, j1) = match crate::codec::parse_raw(b, i, 32) {
        None => {
            proof {
                assert forall|w: RuntimeGenesisV|
                    crate::registry::genesis_wf(w) && i + enc_genesis(w).len() <= b@.len()
                        && b@.subrange(i as int, i + enc_genesis(w).len())
                        == #[trigger] enc_genesis(w) implies false by {
                    lemma_genesis_split(b@, i as int, w);
                }
            }
            return None;
        },
        Some(p) => p,
    };
    let (state, j2) = match parse_state_part(b, j1) {
        None => {
            proof {
                assert forall|w: RuntimeGenesisV|
                    crate::registry::genesis_wf(w) && i + enc_genesis(w).len() <= b@.len()
                        && b@.subrange(i as int, i + enc_genesis(w).len())
                        == #[trigger] enc_genesis(w) implies false by {
                    lemma_genesis_split(b@, i as int, w);
                }
            }
            return None;
        },
        Some(p) => p,
    };
    let (receipts, j3) = match parse_receipts_part(b, j2) {
        None => {
            proof {
                assert forall|w: RuntimeGenesisV|
                    crate::registry::genesis_wf(w) && i + enc_genesis(w).len() <= b@.len()
                        && b@.subrange(i as int, i + enc_genesis(w).len())
                        == #[trigger] enc_genesis(w) implies false by {
                    lemma_genesis_split(b@, i as int, w);
                }
            }
            return None;
        },
        Some(p) => p,
    };
    let (round, j4) = match crate::codec::parse_u64(b, j3) {
        None => {
            proof {
                assert forall|w: RuntimeGenesisV|
                    crate::registry::genesis_wf(w) && i + enc_genesis(w).len() <= b@.len()
                        && b@.subrange(i as int, i + enc_genesis(w).len())
                        == #[trigger] enc_genesis(w) implies false by {
                    lemma_genesis_split(b@, i as int, w);
                }
            }
            return None;
        },
        Some(p) => p,
    };
    let g = crate::registry::RuntimeGenesis {
        state_root: crate::registry::Hash { bytes: root },
        state,
        storage_receipts: receipts,
        round,
    };
    proof {
        assert(g@.state == opt_log_view(g.state));
        assert(g@.storage_receipts == opt_bundles_view(g.storage_receipts));
        assert(enc_genesis(g@) =~= b@.subrange(i as int, j4 as int));
        assert forall|w: RuntimeGenesisV|
            crate::registry::genesis_wf(w) && i + enc_genesis(w).len() <= b@.len() && b@.subrange(
                i as int,
                i + enc_genesis(w).len(),
            ) == #[trigger] enc_genesis(w) implies g@ == w && j4 == i + enc_genesis(w).len() by {
            lemma_genesis_split(b@, i as int, w);
        }
    }
    Some((g, j4))
}

/// Splits an optional-whitelist encoding standing at `at`.
proof fn lemma_entities_part(b: Seq<u8>, at: int, w: Option<Seq<(Seq<u8>, EntityWhitelistConfigV)>>)
    requires
        0 <= at,
        at + enc_entities_part(w).len() <= b.len(),
        b.subrange(at, at + enc_entities_part(w).len()) == enc_entities_part(w),
    ensures
        b[at] == (match w {
            None => 0u8,
            Some(s) => 1u8,
        }),
        w matches Some(s) ==> enc_entities_part(w).len() == 5 + enc_entities(s).len()
            && b.subrange(at + 1, at + 5) == enc_u32(s.len() as u32) && b.subrange(
            at + 5,
            at + enc_entities_part(w).len(),
        ) == enc_entities(s),
        w is None ==> enc_entities_part(w).len() == 1,
{
    match w {
        None => {
            assert(b.subrange(at, at + 1)[0] == b[at]);
        },
        Some(ss) => {
            crate::codec::lemma_prefix_of_concat(
                seq![1u8] + enc_u32(ss.len() as u32),
                enc_entities(ss),
                b,
                at,
            );
            crate::codec::lemma_prefix_of_concat(seq![1u8], enc_u32(ss.len() as u32), b, at);
            assert(b.subrange(at, at + 1)[0] == b[at]);
            assert((seq![1u8])[0] == 1u8);
        },
    }
}

/// The deep view of an optional whitelist table.
pub open spec fn opt_entities_view(o: Option<Vec<(PublicKey, EntityWhitelistConfig)>>) -> Option<
    Seq<(Seq<u8>, EntityWhitelistConfigV)>,
> {
    match o {
        Some(v) => Some(entities_view(v@)),
        None => None,
    }
}

/// Whether an optional whitelist table is well formed.
pub open spec fn opt_entities_wf(w: Option<Seq<(Seq<u8>, EntityWhitelistConfigV)>>) -> bool {
    match w {
        Some(s) => crate::registry::entities_wf(s),
        None => true,
    }
}

/// Reads an optional whitelist table.
#[verifier::rlimit(100)]
#[verifier::spinoff_prover]
fn parse_entities_part(b: &Vec<u8>, i: usize) -> (r: Option<
    (Option<Vec<(PublicKey, EntityWhitelistConfig)>>, usize),
>)
    requires
        i <= b@.len(),
    ensures
        r matches Some((es, j)) ==> i <= j <= b@.len() && opt_entities_wf(opt_entities_view(es))
            && enc_entities_part(opt_entities_view(es)) == b@.subrange(i as int, j as int),
        forall|w: Option<Seq<(Seq<u8>, EntityWhitelistConfigV)>>|
            opt_entities_wf(w) && i + enc_entities_part(w).len() <= b@.len() && b@.subrange(
                i as int,
                i + enc_entities_part(w).len(),
            ) == #[trigger] enc_entities_part(w) ==> (r matches Some((es, j)) && opt_entities_view(
                es,
            ) == w && j == i + enc_entities_part(w).len()),
{
    let (tag, j1) = match crate::codec::parse_u8(b, i) {
        None => {
            proof {
                assert forall|w: Option<Seq<(Seq<u8>, EntityWhitelistConfigV)>>|
                    opt_entities_wf(w) && i + enc_entities_part(w).len() <= b@.len()
                        && b@.subrange(i as int, i + enc_entities_part(w).len())
                        == #[trigger] enc_entities_part(w) implies false by {
                    lemma_entities_part(b@, i as int, w);
                }
            }
            return None;
        },
        Some(p) => p,
    };
    proof {
        assert(enc_u8(tag)[0] == tag);
        assert(b@.subrange(i as int, i + 1)[0] == b@[i as int]);
    }
    if tag == 0 {
        let es: Option<Vec<(PublicKey, EntityWhitelistConfig)>> = None;
        proof {
            assert(enc_entities_part(opt_entities_view(es)) =~= b@.subrange(i as int, j1 as int));
            assert forall|w: Option<Seq<(Seq<u8>, EntityWhitelistConfigV)>>|
                opt_entities_wf(w) && i + enc_entities_part(w).len() <= b@.len() && b@.subrange(
                    i as int,
                    i + enc_entities_part(w).len(),
                ) == #[trigger] enc_entities_part(w) implies opt_entities_view(es) == w && j1 == i
                + enc_entities_part(w).len() by {
                lemma_entities_part(b@, i as int, w);
            }
        }
        return Some((es, j1));
    }
    if tag != 1 {
        proof {
            assert forall|w: Option<Seq<(Seq<u8>, EntityWhitelistConfigV)>>|
                opt_entities_wf(w) && i + enc_entities_part(w).len() <= b@.len() && b@.subrange(
                    i as int,
                    i + enc_entities_part(w).len(),
                ) == #[trigger] enc_entities_part(w) implies false by {
                lemma_entities_part(b@, i as int, w);
            }
        }
        return None;
    }
    let (n, j2) = match crate::codec::parse_u32(b, j1) {
        None => {
            proof {
                assert forall|w: Option<Seq<(Seq<u8>, EntityWhitelistConfigV)>>|
                    opt_entities_wf(w) && i + enc_entities_part(w).len() <= b@.len()
                        && b@.subrange(i as int, i + enc_entities_part(w).len())
                        == #[trigger] enc_entities_part(w) implies false by {
                    lemma_entities_part(b@, i as int, w);
                }
            }
            return None;
        },
        Some(p) => p,
    };
    let (es0, j3) = match parse_entities(b, j2, n as usize, None) {
        None => {
            proof {
                assert forall|w: Option<Seq<(Seq<u8>, EntityWhitelistConfigV)>>|
                    opt_entities_wf(w) && i + enc_entities_part(w).len() <= b@.len()
                        && b@.subrange(i as int, i + enc_entities_part(w).len())
                        == #[trigger] enc_entities_part(w) implies false by {
                    lemma_entities_part(b@, i as int, w);
                    match w {
                        None => {},
                        Some(ss) => {
                            crate::codec::lemma_enc_u32_inj(n, ss.len() as u32);
                            assert(entities_from_ok(ss, prev_key_view(None)));
                        },
                    }
                }
            }
            return None;
        },
        Some(p) => p,
    };
    let es: Option<Vec<(PublicKey, EntityWhitelistConfig)>> = Some(es0);
    proof {
        assert(opt_entities_view(es) == Some(entities_view(es->0@)));
        assert(enc_entities_part(opt_entities_view(es)) =~= b@.subrange(i as int, j3 as int));
        assert forall|w: Option<Seq<(Seq<u8>, EntityWhitelistConfigV)>>|
            opt_entities_wf(w) && i + enc_entities_part(w).len() <= b@.len() && b@.subrange(
                i as int,
                i + enc_entities_part(w).len(),
            ) == #[trigger] enc_entities_part(w) implies opt_entities_view(es) == w && j3 == i
            + enc_entities_part(w).len() by {
            lemma_entities_part(b@, i as int, w);
            match w {
                None => {},
                Some(ss) => {
                    crate::codec::lemma_enc_u32_inj(n, ss.len() as u32);
                    assert(ss.len() == n);
                    assert(entities_from_ok(ss, prev_key_view(None)));
                },
            }
        }
    }
    Some((es, j3))
}

/// Reads an admission policy.
#[verifier::rlimit(100)]
#[verifier::spinoff_prover]
fn parse_admission(b: &Vec<u8>, i: usize) -> (r: Option<(RuntimeAdmissionPolicy, usize)>)
    requires
        i <= b@.len(),
    ensures
        r matches Some((a, j)) ==> i <= j <= b@.len() && crate::registry::admission_wf(a@)
            && enc_admission(a@) == b@.subrange(i as int, j as int),
        forall|w: RuntimeAdmissionPolicyV|
            crate::registry::admission_wf(w) && i + enc_admission(w).len() <= b@.len()
                && b@.subrange(i as int, i + enc_admission(w).len()) == #[trigger] enc_admission(
                w,
            ) ==> (r matches Some((a, j)) && a@ == w && j == i + enc_admission(w).len()),
{
    let (tag, j1) = match crate::codec::parse_u8(b, i) {
        None => {
            proof {
                assert forall|w: RuntimeAdmissionPolicyV|
                    crate::registry::admission_wf(w) && i + enc_admission(w).len() <= b@.len()
                        && b@.subrange(i as int, i + enc_admission(w).len())
                        == #[trigger] enc_admission(w) implies false by {
                    lemma_admission_tag(b@, i as int, w);
                }
            }
            return None;
        },
        Some(p) => p,
    };
    proof {
        assert(enc_u8(tag)[0] == tag);
        assert(b@.subrange(i as int, i + 1)[0] == b@[i as int]);
    }
    if tag == 0 {
        let a = RuntimeAdmissionPolicy::AnyNode {  };
        proof {
            assert(enc_admission(a@) =~= b@.subrange(i as int, j1 as int));
            assert forall|w: RuntimeAdmissionPolicyV|
                crate::registry::admission_wf(w) && i + enc_admission(w).len() <= b@.len()
                    && b@.subrange(i as int, i + enc_admission(w).len())
                    == #[trigger] enc_admission(w) implies a@ == w && j1 == i + enc_admission(
                w,
            ).len() by {
                lemma_admission_tag(b@, i as int, w);
            }
        }
        return Some((a, j1));
    }
    if tag != 1 {
        proof {
            assert forall|w: RuntimeAdmissionPolicyV|
                crate::registry::admission_wf(w) && i + enc_admission(w).len() <= b@.len()
                    && b@.subrange(i as int, i + enc_admission(w).len())
                    == #[trigger] enc_admission(w) implies false by {
                lemma_admission_tag(b@, i as int, w);
            }
        }
        return None;
    }
    let (es, j2) = match parse_entities_part(b, j1) {
        None => {
            proof {
                assert forall|w: RuntimeAdmissionPolicyV|
                    crate::registry::admission_wf(w) && i + enc_admission(w).len() <= b@.len()
                        && b@.subrange(i as int, i + enc_admission(w).len())
                        == #[trigger] enc_admission(w) implies false by {
                    lemma_admission_tag(b@, i as int, w);
                }
            }
            return None;
        },
        Some(p) => p,
    };
    let a = RuntimeAdmissionPolicy::EntityWhitelist {
        policy: crate::registry::EntityWhitelistRuntimeAdmissionPolicy { entities: es },
    };
    proof {
        assert(a@ matches RuntimeAdmissionPolicyV::EntityWhitelist { policy } && policy.entities
            == opt_entities_view(a->EntityWhitelist_policy.entities));
        assert(enc_admission(a@) =~= b@.subrange(i as int, j2 as int));
        assert forall|w: RuntimeAdmissionPolicyV|
            crate::registry::admission_wf(w) && i + enc_admission(w).len() <= b@.len()
                && b@.subrange(i as int, i + enc_admission(w).len()) == #[trigger] enc_admission(
                w,
            ) implies a@ == w && j2 == i + enc_admission(w).len() by {
            lemma_admission_tag(b@, i as int, w);
        }
    }
    Some((a, j2))
}

/// Splits an admission-policy encoding standing at `at`.
proof fn lemma_admission_tag(b: Seq<u8>, at: int, w: RuntimeAdmissionPolicyV)
    requires
        0 <= at,
        at + enc_admission(w).len() <= b.len(),
        b.subrange(at, at + enc_admission(w).len()) == enc_admission(w),
    ensures
        b[at] == (match w {
            RuntimeAdmissionPolicyV::AnyNode {  } => 0u8,
            RuntimeAdmissionPolicyV::EntityWhitelist { policy } => 1u8,
        }),
        w matches RuntimeAdmissionPolicyV::EntityWhitelist { policy } ==> enc_admission(w).len()
            == 1 + enc_entities_part(policy.entities).len() && b.subrange(
            at + 1,
            at + enc_admission(w).len(),
        ) == enc_entities_part(policy.entities),
        w matches RuntimeAdmissionPolicyV::AnyNode {  } ==> enc_admission(w).len() == 1,
{
    match w {
        RuntimeAdmissionPolicyV::AnyNode {  } => {
            assert(b.subrange(at, at + 1)[0] == b[at]);
        },
        RuntimeAdmissionPolicyV::EntityWhitelist { policy } => {
            crate::codec::lemma_prefix_of_concat(
                seq![1u8],
                enc_entities_part(policy.entities),
                b,
                at,
            );
            assert(b.subrange(at, at + 1)[0] == b[at]);
            assert((seq![1u8])[0] == 1u8);
        },
    }
}

/// Splits a staking-overrides encoding standing at `at`.
proof fn lemma_staking_tag(b: Seq<u8>, at: int, w: RuntimeStakingParametersV)
    requires
        0 <= at,
        crate::registry::staking_wf(w),
        at + enc_staking(w).len() <= b.len(),
        b.subrange(at, at + enc_staking(w).len()) == enc_staking(w),
    ensures
        b[at] == (match w.thresholds {
            None => 0u8,
            Some(ts) => 1u8,
        }),
        w.thresholds matches Some(ts) ==> enc_staking(w).len() == 5 + enc_thresholds(ts).len()
            && b.subrange(at + 1, at + 5) == enc_u32(ts.len() as u32) && b.subrange(
            at + 5,
            at + enc_staking(w).len(),
        ) == enc_thresholds(ts) && ts.len() > 0,
        w.thresholds is None ==> enc_staking(w).len() == 1,
{
    match w.thresholds {
        None => {
            assert(b.subrange(at, at + 1)[0] == b[at]);
        },
        Some(ts) => {
            crate::codec::lemma_prefix_of_concat(
                seq![1u8] + enc_u32(ts.len() as u32),
                enc_thresholds(ts),
                b,
                at,
            );
            crate::codec::lemma_prefix_of_concat(seq![1u8], enc_u32(ts.len() as u32), b, at);
            assert(b.subrange(at, at + 1)[0] == b[at]);
            assert((seq![1u8])[0] == 1u8);
        },
    }
}

/// Reads the staking overrides; a present-but-empty table is not canonical.
#[verifier::rlimit(100)]
#[verifier::spinoff_prover]
fn parse_staking(b: &Vec<u8>, i: usize) -> (r: Option<
    (crate::registry::RuntimeStakingParameters, usize),
>)
    requires
        i <= b@.len(),
    ensures
        r matches Some((sp, j)) ==> i <= j <= b@.len() && crate::registry::staking_wf(sp@)
            && enc_staking(sp@) == b@.subrange(i as int, j as int),
        forall|w: RuntimeStakingParametersV|
            crate::registry::staking_wf(w) && i + enc_staking(w).len() <= b@.len() && b@.subrange(
                i as int,
                i + enc_staking(w).len(),
            ) == #[trigger] enc_staking(w) ==> (r matches Some((sp, j)) && sp@ == w && j == i
                + enc_staking(w).len()),
{
    let (tag, j1) = match crate::codec::parse_u8(b, i) {
        None => {
            proof {
                assert forall|w: RuntimeStakingParametersV|
                    crate::registry::staking_wf(w) && i + enc_staking(w).len() <= b@.len()
                        && b@.subrange(i as int, i + enc_staking(w).len())
                        == #[trigger] enc_staking(w) implies false by {
                    lemma_staking_tag(b@, i as int, w);
                }
            }
            return None;
        },
        Some(p) => p,
    };
    proof {
        assert(enc_u8(tag)[0] == tag);
        assert(b@.subrange(i as int, i + 1)[0] == b@[i as int]);
    }
    if tag == 0 {
        let sp = crate::registry::RuntimeStakingParameters { thresholds: None };
        proof {
            assert(enc_staking(sp@) =~= b@.subrange(i as int, j1 as int));
            assert forall|w: RuntimeStakingParametersV|
                crate::registry::staking_wf(w) && i + enc_staking(w).len() <= b@.len()
                    && b@.subrange(i as int, i + enc_staking(w).len()) == #[trigger] enc_staking(
                    w,
                ) implies sp@ == w && j1 == i + enc_staking(w).len() by {
                lemma_staking_tag(b@, i as int, w);
            }
        }
        return Some((sp, j1));
    }
    if tag != 1 {
        proof {
            assert forall|w: RuntimeStakingParametersV|
                crate::registry::staking_wf(w) && i + enc_staking(w).len() <= b@.len()
                    && b@.subrange(i as int, i + enc_staking(w).len()) == #[trigger] enc_staking(
                    w,
                ) implies false by {
                lemma_staking_tag(b@, i as int, w);
            }
        }
        return None;
    }
    let (n, j2) = match crate::codec::parse_u32(b, j1) {
        None => {
            proof {
                assert forall|w: RuntimeStakingParametersV|
                    crate::registry::staking_wf(w) && i + enc_staking(w).len() <= b@.len()
                        && b@.subrange(i as int, i + enc_staking(w).len())
                        == #[trigger] enc_staking(w) implies false by {
                    lemma_staking_tag(b@, i as int, w);
                }
            }
            return None;
        },
        Some(p) => p,
    };
    if n == 0 {
        proof {
            assert forall|w: RuntimeStakingParametersV|
                crate::registry::staking_wf(w) && i + enc_staking(w).len() <= b@.len()
                    && b@.subrange(i as int, i + enc_staking(w).len()) == #[trigger] enc_staking(
                    w,
                ) implies false by {
                lemma_staking_tag(b@, i as int, w);
                match w.thresholds {
                    None => {},
                    Some(ts) => {
                        crate::codec::lemma_enc_u32_inj(n, ts.len() as u32);
                    },
                }
            }
        }
        return None;
    }
    let (ts, j3) = match parse_thresholds(b, j2, n as usize, None) {
        None => {
            proof {
                assert forall|w: RuntimeStakingParametersV|
                    crate::registry::staking_wf(w) && i + enc_staking(w).len() <= b@.len()
                        && b@.subrange(i as int, i + enc_staking(w).len())
                        == #[trigger] enc_staking(w) implies false by {
                    lemma_staking_tag(b@, i as int, w);
                    match w.thresholds {
                        None => {},
                        Some(tss) => {
                            crate::codec::lemma_enc_u32_inj(n, tss.len() as u32);
                        },
                    }
                }
            }
            return None;
        },
        Some(p) => p,
    };
    let sp = crate::registry::RuntimeStakingParameters { thresholds: Some(ts) };
    proof {
        assert(sp@.thresholds == Some(thresholds_view(sp.thresholds->0@)));
        assert(enc_staking(sp@) =~= b@.subrange(i as int, j3 as int));
        assert forall|w: RuntimeStakingParametersV|
            crate::registry::staking_wf(w) && i + enc_staking(w).len() <= b@.len() && b@.subrange(
                i as int,
                i + enc_staking(w).len(),
            ) == #[trigger] enc_staking(w) implies sp@ == w && j3 == i + enc_staking(w).len() by {
            lemma_staking_tag(b@, i as int, w);
            match w.thresholds {
                None => {},
                Some(tss) => {
                    crate::codec::lemma_enc_u32_inj(n, tss.len() as u32);
                    assert(tss.len() == n);
                },
            }
        }
    }
    Some((sp, j3))
}

/// Decodes a runtime-kind code.
fn runtime_kind_of_code_exec(c: u8) -> (r: Option<RuntimeKind>)
    ensures
        r == runtime_kind_of_code(c),
        r matches Some(k) ==> runtime_kind_code(k) == c,
{
    if c == 0 {
        Some(RuntimeKind::KindInvalid)
    } else if c == 1 {
        Some(RuntimeKind::KindCompute)
    } else if c == 2 {
        Some(RuntimeKind::KindKeyManager)
    } else {
        None
    }
}

/// Decodes a TEE hardware code.
fn tee_hardware_of_code_exec(c: u8) -> (r: Option<TEEHardware>)
    ensures
        r == tee_hardware_of_code(c),
        r matches Some(k) ==> tee_hardware_code(k) == c,
{
    if c == 0 {
        Some(TEEHardware::TEEHardwareInvalid)
    } else if c == 1 {
        Some(TEEHardware::TEEHardwareIntelSGX)
    } else {
        None
    }
}

/// Decodes a governance-model code.
fn governance_of_code_exec(c: u8) -> (r: Option<RuntimeGovernanceModel>)
    ensures
        r == governance_of_code(c),
        r matches Some(k) ==> governance_code(k) == c,
{
    if c == 0 {
        Some(RuntimeGovernanceModel::GovernanceInvalid)
    } else if c == 1 {
        Some(RuntimeGovernanceModel::GovernanceEntity)
    } else if c == 2 {
        Some(RuntimeGovernanceModel::GovernanceRuntime)
    } else if c == 3 {
        Some(RuntimeGovernanceModel::GovernanceConsensus)
    } else {
        None
    }
}

/// The view of an optional key-manager namespace.
pub open spec fn opt_ns_view(o: Option<crate::registry::Namespace>) -> Option<Seq<u8>> {
    match o {
        Some(n) => Some(n.bytes@),
        None => None,
    }
}

/// Splits an optional-namespace encoding standing at `at`.
proof fn lemma_km_tag(b: Seq<u8>, at: int, w: Option<Seq<u8>>)
    requires
        0 <= at,
        (match w {
            Some(k) => k.len() == 32,
            None => true,
        }),
        at + enc_km_part(w).len() <= b.len(),
        b.subrange(at, at + enc_km_part(w).len()) == enc_km_part(w),
    ensures
        b[at] == (match w {
            None => 0u8,
            Some(k) => 1u8,
        }),
        w matches Some(k) ==> enc_km_part(w).len() == 33 && b.subrange(at + 1, at + 33) == k,
        w is None ==> enc_km_part(w).len() == 1,
{
    match w {
        None => {
            assert(b.subrange(at, at + 1)[0] == b[at]);
        },
        Some(k) => {
            crate::codec::lemma_prefix_of_concat(seq![1u8], k, b, at);
            assert(b.subrange(at, at + 33)[0] == b[at]);
            assert((seq![1u8] + k)[0] == 1u8);
        },
    }
}

/// Reads an optional key-manager namespace.
fn parse_km_part(b: &Vec<u8>, i: usize) -> (r: Option<(Option<crate::registry::Namespace>, usize)>)
    requires
        i <= b@.len(),
    ensures
        r matches Some((o, j)) ==> i <= j <= b@.len() && (match opt_ns_view(o) {
            Some(k) => k.len() == 32,
            None => true,
        }) && enc_km_part(opt_ns_view(o)) == b@.subrange(i as int, j as int),
        forall|w: Option<Seq<u8>>|
            (match w {
                Some(k) => k.len() == 32,
                None => true,
            }) && i + enc_km_part(w).len() <= b@.len() && b@.subrange(
                i as int,
                i + enc_km_part(w).len(),
            ) == #[trigger] enc_km_part(w) ==> (r matches Some((o, j)) && opt_ns_view(o) == w && j
                == i + enc_km_part(w).len()),
{
    let (tag, j1) = match crate::codec::parse_u8(b, i) {
        None => {
            proof {
                assert forall|w: Option<Seq<u8>>|
                    (match w {
                        Some(k) => k.len() == 32,
                        None => true,
                    }) && i + enc_km_part(w).len() <= b@.len() && b@.subrange(
                        i as int,
                        i + enc_km_part(w).len(),
                    ) == #[trigger] enc_km_part(w) implies false by {
                    lemma_km_tag(b@, i as int, w);
                }
            }
            return None;
        },
        Some(p) => p,
    };
    proof {
        assert(enc_u8(tag)[0] == tag);
        assert(b@.subrange(i as int, i + 1)[0] == b@[i as int]);
    }
    if tag == 0 {
        let o: Option<crate::registry::Namespace> = None;
        proof {
            assert(enc_km_part(opt_ns_view(o)) =~= b@.subrange(i as int, j1 as int));
            assert forall|w: Option<Seq<u8>>|
                (match w {
                    Some(k) => k.len() == 32,
                    None => true,
                }) && i + enc_km_part(w).len() <= b@.len() && b@.subrange(
                    i as int,
                    i + enc_km_part(w).len(),
                ) == #[trigger] enc_km_part(w) implies opt_ns_view(o) == w && j1 == i + enc_km_part(
                w,
            ).len() by {
                lemma_km_tag(b@, i as int, w);
            }
        }
        return Some((o, j1));
    }
    if tag != 1 {
        proof {
            assert forall|w: Option<Seq<u8>>|
                (match w {
                    Some(k) => k.len() == 32,
                    None => true,
                }) && i + enc_km_part(w).len() <= b@.len() && b@.subrange(
                    i as int,
                    i + enc_km_part(w).len(),
                ) == #[trigger] enc_km_part(w) implies false by {
                lemma_km_tag(b@, i as int, w);
            }
        }
        return None;
    }
    let (ns, j2) = match crate::codec::parse_raw(b, j1, 32) {
        None => {
            proof {
                assert forall|w: Option<Seq<u8>>|
                    (match w {
                        Some(k) => k.len() == 32,
                        None => true,
                    }) && i + enc_km_part(w).len() <= b@.len() && b@.subrange(
                        i as int,
                        i + enc_km_part(w).len(),
                    ) == #[trigger] enc_km_part(w) implies false by {
                    lemma_km_tag(b@, i as int, w);
                }
            }
            return None;
        },
        Some(p) => p,
    };
    let o: Option<crate::registry::Namespace> = Some(crate::registry::Namespace { bytes: ns });
    proof {
        assert(enc_km_part(opt_ns_view(o)) =~= b@.subrange(i as int, j2 as int));
        assert forall|w: Option<Seq<u8>>|
            (match w {
                Some(k) => k.len() == 32,
                None => true,
            }) && i + enc_km_part(w).len() <= b@.len() && b@.subrange(
                i as int,
                i + enc_km_part(w).len(),
            ) == #[trigger] enc_km_part(w) implies opt_ns_view(o) == w && j2 == i + enc_km_part(
            w,
        ).len() by {
            lemma_km_tag(b@, i as int, w);
        }
    }
    Some((o, j2))
}

/// Splits a runtime encoding standing at `at` into its two halves.
proof fn lemma_runtime_split(b: Seq<u8>, at: int, w: RuntimeV)
    requires
        0 <= at,
        at + enc_runtime(w).len() <= b.len(),
        b.subrange(at, at + enc_runtime(w).len()) == enc_runtime(w),
    ensures
        enc_runtime(w).len() == enc_runtime_head(w).len() + enc_runtime_tail(w).len(),
        b.subrange(at, at + enc_runtime_head(w).len()) == enc_runtime_head(w),
        b.subrange(at + enc_runtime_head(w).len(), at + enc_runtime(w).len()) == enc_runtime_tail(
            w,
        ),
{
    reveal(enc_runtime);
    crate::codec::lemma_prefix_of_concat(enc_runtime_head(w), enc_runtime_tail(w), b, at);
}

/// Splits an identity-half encoding standing at `at` into its two quarters.
proof fn lemma_head_halves(b: Seq<u8>, at: int, w: RuntimeV)
    requires
        0 <= at,
        at + enc_runtime_head(w).len() <= b.len(),
        b.subrange(at, at + enc_runtime_head(w).len()) == enc_runtime_head(w),
    ensures
        enc_runtime_head(w).len() == enc_head_ident(w).len() + enc_head_tee(w).len(),
        b.subrange(at, at + enc_head_ident(w).len()) == enc_head_ident(w),
        b.subrange(at + enc_head_ident(w).len(), at + enc_runtime_head(w).len()) == enc_head_tee(
            w,
        ),
{
    reveal(enc_runtime_head);
    crate::codec::lemma_prefix_of_concat(enc_head_ident(w), enc_head_tee(w), b, at);
}

/// Splits a parameter-half encoding standing at `at` into its two quarters.
proof fn lemma_tail_halves(b: Seq<u8>, at: int, w: RuntimeV)
    requires
        0 <= at,
        at + enc_runtime_tail(w).len() <= b.len(),
        b.subrange(at, at + enc_runtime_tail(w).len()) == enc_runtime_tail(w),
    ensures
        enc_runtime_tail(w).len() == enc_tail_params(w).len() + enc_tail_policy(w).len(),
        b.subrange(at, at + enc_tail_params(w).len()) == enc_tail_params(w),
        b.subrange(at + enc_tail_params(w).len(), at + enc_runtime_tail(w).len())
            == enc_tail_policy(w),
{
    reveal(enc_runtime_tail);
    crate::codec::lemma_prefix_of_concat(enc_tail_params(w), enc_tail_policy(w), b, at);
}

/// Splits an identity-quarter encoding standing at `at` into its four field
/// encodings.
proof fn lemma_head_ident_split(b: Seq<u8>, at: int, w: RuntimeV)
    requires
        0 <= at,
        crate::registry::runtime_wf_struct(w),
        at + enc_head_ident(w).len() <= b.len(),
        b.subrange(at, at + enc_head_ident(w).len()) == enc_head_ident(w),
    ensures
        enc_head_ident(w).len() == 66 + enc_genesis(w.genesis).len(),
        b.subrange(at, at + 2) == enc_u16(w.v),
        b.subrange(at + 2, at + 34) == w.id,
        b.subrange(at + 34, at + 66) == w.entity_id,
        b.subrange(at + 66, at + enc_head_ident(w).len()) == enc_genesis(w.genesis),
{
    reveal(enc_head_ident);
    let e1 = enc_u16(w.v);
    let e2 = e1 + w.id;
    let e3 = e2 + w.entity_id;
    crate::codec::lemma_prefix_of_concat(e3, enc_genesis(w.genesis), b, at);
    crate::codec::lemma_prefix_of_concat(e2, w.entity_id, b, at);
    crate::codec::lemma_prefix_of_concat(e1, w.id, b, at);
}

/// Splits a trust-quarter encoding standing at `at` into its four field
/// encodings.
proof fn lemma_head_tee_split(b: Seq<u8>, at: int, w: RuntimeV)
    requires
        0 <= at,
        crate::registry::runtime_wf_struct(w),
        at + enc_head_tee(w).len() <= b.len(),
        b.subrange(at, at + enc_head_tee(w).len()) == enc_head_tee(w),
    ensures
        enc_head_tee(w).len() == 2 + enc_version_info(w.versions).len() + enc_km_part(
            w.key_manager,
        ).len(),
        b.subrange(at, at + 1) == enc_u8(runtime_kind_code(w.kind)),
        b.subrange(at + 1, at + 2) == enc_u8(tee_hardware_code(w.tee_hardware)),
        b.subrange(at + 2, at + 2 + enc_version_info(w.versions).len()) == enc_version_info(
            w.versions,
        ),
        b.subrange(at + 2 + enc_version_info(w.versions).len(), at + enc_head_tee(w).len())
            == enc_km_part(w.key_manager),
{
    reveal(enc_head_tee);
    let e1 = enc_u8(runtime_kind_code(w.kind));
    let e2 = e1 + enc_u8(tee_hardware_code(w.tee_hardware));
    let e3 = e2 + enc_version_info(w.versions);
    crate::codec::lemma_prefix_of_concat(e3, enc_km_part(w.key_manager), b, at);
    crate::codec::lemma_prefix_of_concat(e2, enc_version_info(w.versions), b, at);
    crate::codec::lemma_prefix_of_concat(e1, enc_u8(tee_hardware_code(w.tee_hardware)), b, at);
}

/// Splits a committee-parameter-quarter encoding standing at `at` into its
/// three field encodings.
proof fn lemma_tail_params_split(b: Seq<u8>, at: int, w: RuntimeV)
    requires
        0 <= at,
        crate::registry::runtime_wf_struct(w),
        at + enc_tail_params(w).len() <= b.len(),
        b.subrange(at, at + enc_tail_params(w).len()) == enc_tail_params(w),
    ensures
        enc_tail_params(w).len() == 108 + enc_txn_scheduler(w.txn_scheduler).len(),
        b.subrange(at, at + 44) == enc_executor(w.executor),
        b.subrange(at + 44, at + 44 + enc_txn_scheduler(w.txn_scheduler).len())
            == enc_txn_scheduler(w.txn_scheduler),
        b.subrange(
            at + 44 + enc_txn_scheduler(w.txn_scheduler).len(),
            at + enc_tail_params(w).len(),
        ) == enc_storage(w.storage),
{
    reveal(enc_tail_params);
    let e1 = enc_executor(w.executor);
    let e2 = e1 + enc_txn_scheduler(w.txn_scheduler);
    crate::codec::lemma_prefix_of_concat(e2, enc_storage(w.storage), b, at);
    crate::codec::lemma_prefix_of_concat(e1, enc_txn_scheduler(w.txn_scheduler), b, at);
}

/// Splits a policy-quarter encoding standing at `at` into its three field
/// encodings.
proof fn lemma_tail_policy_split(b: Seq<u8>, at: int, w: RuntimeV)
    requires
        0 <= at,
        crate::registry::runtime_wf_struct(w),
        at + enc_tail_policy(w).len() <= b.len(),
        b.subrange(at, at + enc_tail_policy(w).len()) == enc_tail_policy(w),
    ensures
        enc_tail_policy(w).len() == 1 + enc_admission(w.admission_policy).len() + enc_staking(
            w.staking,
        ).len(),
        b.subrange(at, at + enc_admission(w.admission_policy).len()) == enc_admission(
            w.admission_policy,
        ),
        b.subrange(
            at + enc_admission(w.admission_policy).len(),
            at + enc_admission(w.admission_policy).len() + enc_staking(w.staking).len(),
        ) == enc_staking(w.staking),
        b.subrange(
            at + enc_admission(w.admission_policy).len() + enc_staking(w.staking).len(),
            at + enc_tail_policy(w).len(),
        ) == enc_u8(governance_code(w.governance_model)),
{
    reveal(enc_tail_policy);
    let e1 = enc_admission(w.admission_policy);
    let e2 = e1 + enc_staking(w.staking);
    crate::codec::lemma_prefix_of_concat(e2, enc_u8(governance_code(w.governance_model)), b, at);
    crate::codec::lemma_prefix_of_concat(e1, enc_staking(w.staking), b, at);
}

proof fn lemma_runtime_codes(w: RuntimeV)
    ensures
        runtime_kind_of_code(runtime_kind_code(w.kind)) == Some(w.kind),
        tee_hardware_of_code(tee_hardware_code(w.tee_hardware)) == Some(w.tee_hardware),
        governance_of_code(governance_code(w.governance_model)) == Some(w.governance_model),
{
}

/// The identity quarter of a descriptor, as parsed.
struct HeadIdent {
    v: u16,
    id: crate::registry::Namespace,
    entity_id: PublicKey,
    genesis: crate::registry::RuntimeGenesis,
}

/// What the identity quarter of `w` requires of parsed fields.
spec fn ident_matches(x: HeadIdent, w: RuntimeV) -> bool {
    x.v == w.v && x.id.bytes@ == w.id && x.entity_id.bytes@ == w.entity_id && x.genesis@
        == w.genesis
}

/// The canonical bytes of parsed identity fields.
spec fn ident_enc(x: HeadIdent) -> Seq<u8> {
    enc_u16(x.v) + x.id.bytes@ + x.entity_id.bytes@ + enc_genesis(x.genesis@)
}

/// Structural well-formedness of parsed identity fields.
spec fn ident_wf(x: HeadIdent) -> bool {
    &&& x.v == crate::registry::RUNTIME_SCHEMA_VERSION
    &&& x.id.bytes@.len() == 32
    &&& x.entity_id.bytes@.len() == 32
    &&& crate::registry::genesis_wf(x.genesis@)
}

/// Reads the identity quarter of a descriptor.
#[verifier::rlimit(100)]
#[verifier::spinoff_prover]
fn parse_head_ident(b: &Vec<u8>, i: usize) -> (r: Option<(HeadIdent, usize)>)
    requires
        i <= b@.len(),
    ensures
        r matches Some((x, j)) ==> i <= j <= b@.len() && ident_wf(x) && ident_enc(x)
            == b@.subrange(i as int, j as int),
        forall|w: RuntimeV|
            crate::registry::runtime_wf_struct(w) && i + enc_head_ident(w).len() <= b@.len()
                && b@.subrange(i as int, i + enc_head_ident(w).len())
                == #[trigger] enc_head_ident(w) ==> (r matches Some((x, j)) && ident_matches(x, w)
                && j == i + enc_head_ident(w).len()),
{
    let (v0, j1) = match crate::codec::parse_u16(b, i) {
        None => {
            proof {
                assert forall|w: RuntimeV|
                    crate::registry::runtime_wf_struct(w) && i + enc_head_ident(w).len()
                        <= b@.len() && b@.subrange(i as int, i + enc_head_ident(w).len())
                        == #[trigger] enc_head_ident(w) implies false by {
                    lemma_head_ident_split(b@, i as int, w);
                }
            }
            return None;
        },
        Some(p) => p,
    };
    if v0 != crate::registry::RUNTIME_SCHEMA_VERSION {
        proof {
            assert forall|w: RuntimeV|
                crate::registry::runtime_wf_struct(w) && i + enc_head_ident(w).len() <= b@.len()
                    && b@.subrange(i as int, i + enc_head_ident(w).len())
                    == #[trigger] enc_head_ident(w) implies false by {
                lemma_head_ident_split(b@, i as int, w);
            }
        }
        return None;
    }
    let (id, j2) = match crate::codec::parse_raw(b, j1, 32) {
        None => {
            proof {
                assert forall|w: RuntimeV|
                    crate::registry::runtime_wf_struct(w) && i + enc_head_ident(w).len()
                        <= b@.len() && b@.subrange(i as int, i + enc_head_ident(w).len())
                        == #[trigger] enc_head_ident(w) implies false by {
                    lemma_head_ident_split(b@, i as int, w);
                }
            }
            return None;
        },
        Some(p) => p,
    };
    let (entity_id, j3) = match crate::codec::parse_raw(b, j2, 32) {
        None => {
            proof {
                assert forall|w: RuntimeV|
                    crate::registry::runtime_wf_struct(w) && i + enc_head_ident(w).len()
                        <= b@.len() && b@.subrange(i as int, i + enc_head_ident(w).len())
                        == #[trigger] enc_head_ident(w) implies false by {
                    lemma_head_ident_split(b@, i as int, w);
                }
            }
            return None;
        },
        Some(p) => p,
    };
    let (genesis, j4) = match parse_genesis(b, j3) {
        None => {
            proof {
                assert forall|w: RuntimeV|
                    crate::registry::runtime_wf_struct(w) && i + enc_head_ident(w).len()
                        <= b@.len() && b@.subrange(i as int, i + enc_head_ident(w).len())
                        == #[trigger] enc_head_ident(w) implies false by {
                    lemma_head_ident_split(b@, i as int, w);
                }
            }
            return None;
        },
        Some(p) => p,
    };
    let x = HeadIdent {
        v: v0,
        id: crate::registry::Namespace { bytes: id },
        entity_id: PublicKey { bytes: entity_id },
        genesis,
    };
    proof {
        assert(b@.subrange(i as int, j2 as int) =~= b@.subrange(i as int, j1 as int) + b@.subrange(
            j1 as int,
            j2 as int,
        ));
        assert(b@.subrange(i as int, j3 as int) =~= b@.subrange(i as int, j2 as int) + b@.subrange(
            j2 as int,
            j3 as int,
        ));
        assert(b@.subrange(i as int, j4 as int) =~= b@.subrange(i as int, j3 as int) + b@.subrange(
            j3 as int,
            j4 as int,
        ));
        assert(ident_enc(x) == b@.subrange(i as int, j4 as int));
        assert forall|w: RuntimeV|
            crate::registry::runtime_wf_struct(w) && i + enc_head_ident(w).len() <= b@.len()
                && b@.subrange(i as int, i + enc_head_ident(w).len())
                == #[trigger] enc_head_ident(w) implies ident_matches(x, w) && j4 == i
            + enc_head_ident(w).len() by {
            lemma_head_ident_split(b@, i as int, w);
        }
    }
    Some((x, j4))
}

/// The trust quarter of a descriptor, as parsed.
struct HeadTee {
    kind: RuntimeKind,
    tee_hardware: TEEHardware,
    versions: crate::registry::VersionInfo,
    key_manager: Option<crate::registry::Namespace>,
}

/// What the trust quarter of `w` requires of parsed fields.
spec fn tee_matches(x: HeadTee, w: RuntimeV) -> bool {
    x.kind == w.kind && x.tee_hardware == w.tee_hardware && x.versions@ == w.versions
        && opt_ns_view(x.key_manager) == w.key_manager
}

/// The canonical bytes of parsed trust fields.
spec fn tee_enc(x: HeadTee) -> Seq<u8> {
    enc_u8(runtime_kind_code(x.kind)) + enc_u8(tee_hardware_code(x.tee_hardware))
        + enc_version_info(x.versions@) + enc_km_part(opt_ns_view(x.key_manager))
}

/// Structural well-formedness of parsed trust fields.
spec fn tee_wf(x: HeadTee) -> bool {
    &&& crate::registry::version_info_wf(x.versions@)
    &&& match opt_ns_view(x.key_manager) {
        Some(k) => k.len() == 32,
        None => true,
    }
}

/// Reads the trust quarter of a descriptor.
#[verifier::rlimit(100)]
#[verifier::spinoff_prover]
fn parse_head_tee(b: &Vec<u8>, i: usize) -> (r: Option<(HeadTee, usize)>)
    requires
        i <= b@.len(),
    ensures
        r matches Some((x, j)) ==> i <= j <= b@.len() && tee_wf(x) && tee_enc(x) == b@.subrange(
            i as int,
            j as int,
        ),
        forall|w: RuntimeV|
            crate::registry::runtime_wf_struct(w) && i + enc_head_tee(w).len() <= b@.len()
                && b@.subrange(i as int, i + enc_head_tee(w).len()) == #[trigger] enc_head_tee(w)
                ==> (r matches Some((x, j)) && tee_matches(x, w) && j == i + enc_head_tee(
                w,
            ).len()),
{
    let (kc, j1) = match crate::codec::parse_u8(b, i) {
        None => {
            proof {
                assert forall|w: RuntimeV|
                    crate::registry::runtime_wf_struct(w) && i + enc_head_tee(w).len() <= b@.len()
                        && b@.subrange(i as int, i + enc_head_tee(w).len())
                        == #[trigger] enc_head_tee(w) implies false by {
                    lemma_head_tee_split(b@, i as int, w);
                }
            }
            return None;
        },
        Some(p) => p,
    };
    let kind = match runtime_kind_of_code_exec(kc) {
        None => {
            proof {
                assert forall|w: RuntimeV|
                    crate::registry::runtime_wf_struct(w) && i + enc_head_tee(w).len() <= b@.len()
                        && b@.subrange(i as int, i + enc_head_tee(w).len())
                        == #[trigger] enc_head_tee(w) implies false by {
                    lemma_head_tee_split(b@, i as int, w);
                    lemma_runtime_codes(w);
                }
            }
            return None;
        },
        Some(k) => k,
    };
    let (tc, j2) = match crate::codec::parse_u8(b, j1) {
        None => {
            proof {
                assert forall|w: RuntimeV|
                    crate::registry::runtime_wf_struct(w) && i + enc_head_tee(w).len() <= b@.len()
                        && b@.subrange(i as int, i + enc_head_tee(w).len())
                        == #[trigger] enc_head_tee(w) implies false by {
                    lemma_head_tee_split(b@, i as int, w);
                }
            }
            return None;
        },
        Some(p) => p,
    };
    let tee_hardware = match tee_hardware_of_code_exec(tc) {
        None => {
            proof {
                assert forall|w: RuntimeV|
                    crate::registry::runtime_wf_struct(w) && i + enc_head_tee(w).len() <= b@.len()
                        && b@.subrange(i as int, i + enc_head_tee(w).len())
                        == #[trigger] enc_head_tee(w) implies false by {
                    lemma_head_tee_split(b@, i as int, w);
                    lemma_runtime_codes(w);
                }
            }
            return None;
        },
        Some(k) => k,
    };
    let (versions, j3) = match parse_version_info(b, j2) {
        None => {
            proof {
                assert forall|w: RuntimeV|
                    crate::registry::runtime_wf_struct(w) && i + enc_head_tee(w).len() <= b@.len()
                        && b@.subrange(i as int, i + enc_head_tee(w).len())
                        == #[trigger] enc_head_tee(w) implies false by {
                    lemma_head_tee_split(b@, i as int, w);
                }
            }
            return None;
        },
        Some(p) => p,
    };
    let (key_manager, j4) = match parse_km_part(b, j3) {
        None => {
            proof {
                assert forall|w: RuntimeV|
                    crate::registry::runtime_wf_struct(w) && i + enc_head_tee(w).len() <= b@.len()
                        && b@.subrange(i as int, i + enc_head_tee(w).len())
                        == #[trigger] enc_head_tee(w) implies false by {
                    lemma_head_tee_split(b@, i as int, w);
                }
            }
            return None;
        },
        Some(p) => p,
    };
    let x = HeadTee { kind, tee_hardware, versions, key_manager };
    proof {
        assert(b@.subrange(i as int, j2 as int) =~= b@.subrange(i as int, j1 as int) + b@.subrange(
            j1 as int,
            j2 as int,
        ));
        assert(b@.subrange(i as int, j3 as int) =~= b@.subrange(i as int, j2 as int) + b@.subrange(
            j2 as int,
            j3 as int,
        ));
        assert(b@.subrange(i as int, j4 as int) =~= b@.subrange(i as int, j3 as int) + b@.subrange(
            j3 as int,
            j4 as int,
        ));
        assert(tee_enc(x) == b@.subrange(i as int, j4 as int));
        assert forall|w: RuntimeV|
            crate::registry::runtime_wf_struct(w) && i + enc_head_tee(w).len() <= b@.len()
                && b@.subrange(i as int, i + enc_head_tee(w).len()) == #[trigger] enc_head_tee(
                w,
            ) implies tee_matches(x, w) && j4 == i + enc_head_tee(w).len() by {
            lemma_head_tee_split(b@, i as int, w);
            lemma_runtime_codes(w);
        }
    }
    Some((x, j4))
}

/// The committee-parameter quarter of a descriptor, as parsed.
struct TailParams {
    executor: ExecutorParameters,
    txn_scheduler: crate::registry::TxnSchedulerParameters,
    storage: StorageParameters,
}

/// What the committee-parameter quarter of `w` requires of parsed fields.
spec fn params_matches(x: TailParams, w: RuntimeV) -> bool {
    x.executor == w.executor && x.txn_scheduler@ == w.txn_scheduler && x.storage == w.storage
}

/// The canonical bytes of parsed committee parameters.
spec fn params_enc(x: TailParams) -> Seq<u8> {
    enc_executor(x.executor) + enc_txn_scheduler(x.txn_scheduler@) + enc_storage(x.storage)
}

/// Reads the committee-parameter quarter of a descriptor.
#[verifier::rlimit(100)]
#[verifier::spinoff_prover]
fn parse_tail_params(b: &Vec<u8>, i: usize) -> (r: Option<(TailParams, usize)>)
    requires
        i <= b@.len(),
    ensures
        r matches Some((x, j)) ==> i <= j <= b@.len() && crate::registry::txn_scheduler_wf(
            x.txn_scheduler@,
        ) && params_enc(x) == b@.subrange(i as int, j as int),
        forall|w: RuntimeV|
            crate::registry::runtime_wf_struct(w) && i + enc_tail_params(w).len() <= b@.len()
                && b@.subrange(i as int, i + enc_tail_params(w).len())
                == #[trigger] enc_tail_params(w) ==> (r matches Some((x, j)) && params_matches(
                x,
                w,
            ) && j == i + enc_tail_params(w).len()),
{
    let (executor, j1) = match parse_executor(b, i) {
        None => {
            proof {
                assert forall|w: RuntimeV|
                    crate::registry::runtime_wf_struct(w) && i + enc_tail_params(w).len()
                        <= b@.len() && b@.subrange(i as int, i + enc_tail_params(w).len())
                        == #[trigger] enc_tail_params(w) implies false by {
                    lemma_tail_params_split(b@, i as int, w);
                }
            }
            return None;
        },
        Some(p) => p,
    };
    let (txn_scheduler, j2) = match parse_txn_scheduler(b, j1) {
        None => {
            proof {
                assert forall|w: RuntimeV|
                    crate::registry::runtime_wf_struct(w) && i + enc_tail_params(w).len()
                        <= b@.len() && b@.subrange(i as int, i + enc_tail_params(w).len())
                        == #[trigger] enc_tail_params(w) implies false by {
                    lemma_tail_params_split(b@, i as int, w);
                }
            }
            return None;
        },
        Some(p) => p,
    };
    let (storage, j3) = match parse_storage(b, j2) {
        None => {
            proof {
                assert forall|w: RuntimeV|
                    crate::registry::runtime_wf_struct(w) && i + enc_tail_params(w).len()
                        <= b@.len() && b@.subrange(i as int, i + enc_tail_params(w).len())
                        == #[trigger] enc_tail_params(w) implies false by {
                    lemma_tail_params_split(b@, i as int, w);
                }
            }
            return None;
        },
        Some(p) => p,
    };
    let x = TailParams { executor, txn_scheduler, storage };
    proof {
        assert(b@.subrange(i as int, j2 as int) =~= b@.subrange(i as int, j1 as int) + b@.subrange(
            j1 as int,
            j2 as int,
        ));
        assert(b@.subrange(i as int, j3 as int) =~= b@.subrange(i as int, j2 as int) + b@.subrange(
            j2 as int,
            j3 as int,
        ));
        assert(params_enc(x) == b@.subrange(i as int, j3 as int));
        assert forall|w: RuntimeV|
            crate::registry::runtime_wf_struct(w) && i + enc_tail_params(w).len() <= b@.len()
                && b@.subrange(i as int, i + enc_tail_params(w).len())
                == #[trigger] enc_tail_params(w) implies params_matches(x, w) && j3 == i
            + enc_tail_params(w).len() by {
            lemma_tail_params_split(b@, i as int, w);
        }
    }
    Some((x, j3))
}

/// The policy quarter of a descriptor, as parsed.
struct TailPolicy {
    admission_policy: RuntimeAdmissionPolicy,
    staking: crate::registry::RuntimeStakingParameters,
    governance_model: RuntimeGovernanceModel,
}

/// What the policy quarter of `w` requires of parsed fields.
spec fn policy_matches(x: TailPolicy, w: RuntimeV) -> bool {
    x.admission_policy@ == w.admission_policy && x.staking@ == w.staking && x.governance_model
        == w.governance_model
}

/// The canonical bytes of parsed policy fields.
spec fn policy_enc(x: TailPolicy) -> Seq<u8> {
    enc_admission(x.admission_policy@) + enc_staking(x.staking@) + enc_u8(
        governance_code(x.governance_model),
    )
}

/// Structural well-formedness of parsed policy fields.
spec fn policy_wf(x: TailPolicy) -> bool {
    crate::registry::admission_wf(x.admission_policy@) && crate::registry::staking_wf(x.staking@)
}

/// Reads the policy quarter of a descriptor.
#[verifier::rlimit(100)]
#[verifier::spinoff_prover]
fn parse_tail_policy(b: &Vec<u8>, i: usize) -> (r: Option<(TailPolicy, usize)>)
    requires
        i <= b@.len(),
    ensures
        r matches Some((x, j)) ==> i <= j <= b@.len() && policy_wf(x) && policy_enc(x)
            == b@.subrange(i as int, j as int),
        forall|w: RuntimeV|
            crate::registry::runtime_wf_struct(w) && i + enc_tail_policy(w).len() <= b@.len()
                && b@.subrange(i as int, i + enc_tail_policy(w).len())
                == #[trigger] enc_tail_policy(w) ==> (r matches Some((x, j)) && policy_matches(
                x,
                w,
            ) && j == i + enc_tail_policy(w).len()),
{
    let (admission_policy, j1) = match parse_admission(b, i) {
        None => {
            proof {
                assert forall|w: RuntimeV|
                    crate::registry::runtime_wf_struct(w) && i + enc_tail_policy(w).len()
                        <= b@.len() && b@.subrange(i as int, i + enc_tail_policy(w).len())
                        == #[trigger] enc_tail_policy(w) implies false by {
                    lemma_tail_policy_split(b@, i as int, w);
                }
            }
            return None;
        },
        Some(p) => p,
    };
    let (staking, j2) = match parse_staking(b, j1) {
        None => {
            proof {
                assert forall|w: RuntimeV|
                    crate::registry::runtime_wf_struct(w) && i + enc_tail_policy(w).len()
                        <= b@.len() && b@.subrange(i as int, i + enc_tail_policy(w).len())
                        == #[trigger] enc_tail_policy(w) implies false by {
                    lemma_tail_policy_split(b@, i as int, w);
                }
            }
            return None;
        },
        Some(p) => p,
    };
    let (gc, j3) = match crate::codec::parse_u8(b, j2) {
        None => {
            proof {
                assert forall|w: RuntimeV|
                    crate::registry::runtime_wf_struct(w) && i + enc_tail_policy(w).len()
                        <= b@.len() && b@.subrange(i as int, i + enc_tail_policy(w).len())
                        == #[trigger] enc_tail_policy(w) implies false by {
                    lemma_tail_policy_split(b@, i as int, w);
                }
            }
            return None;
        },
        Some(p) => p,
    };
    let governance_model = match governance_of_code_exec(gc) {
        None => {
            proof {
                assert forall|w: RuntimeV|
                    crate::registry::runtime_wf_struct(w) && i + enc_tail_policy(w).len()
                        <= b@.len() && b@.subrange(i as int, i + enc_tail_policy(w).len())
                        == #[trigger] enc_tail_policy(w) implies false by {
                    lemma_tail_policy_split(b@, i as int, w);
                    lemma_runtime_codes(w);
                }
            }
            return None;
        },
        Some(k) => k,
    };
    let x = TailPolicy { admission_policy, staking, governance_model };
    proof {
        assert(b@.subrange(i as int, j2 as int) =~= b@.subrange(i as int, j1 as int) + b@.subrange(
            j1 as int,
            j2 as int,
        ));
        assert(b@.subrange(i as int, j3 as int) =~= b@.subrange(i as int, j2 as int) + b@.subrange(
            j2 as int,
            j3 as int,
        ));
        assert(policy_enc(x) == b@.subrange(i as int, j3 as int));
        assert forall|w: RuntimeV|
            crate::registry::runtime_wf_struct(w) && i + enc_tail_policy(w).len() <= b@.len()
                && b@.subrange(i as int, i + enc_tail_policy(w).len())
                == #[trigger] enc_tail_policy(w) implies policy_matches(x, w) && j3 == i
            + enc_tail_policy(w).len() by {
            lemma_tail_policy_split(b@, i as int, w);
            lemma_runtime_codes(w);
        }
    }
    Some((x, j3))
}

/// The identity half of a descriptor, as parsed.
struct HeadPart {
    ident: HeadIdent,
    tee: HeadTee,
}

/// What the identity half of `w` requires of parsed head fields.
spec fn head_matches(h: HeadPart, w: RuntimeV) -> bool {
    ident_matches(h.ident, w) && tee_matches(h.tee, w)
}

/// The canonical bytes of parsed head fields.
spec fn head_enc(h: HeadPart) -> Seq<u8> {
    ident_enc(h.ident) + tee_enc(h.tee)
}

/// Structural well-formedness of parsed head fields.
spec fn head_wf(h: HeadPart) -> bool {
    ident_wf(h.ident) && tee_wf(h.tee)
}

/// Reads the identity half of a descriptor.
#[verifier::rlimit(100)]
#[verifier::spinoff_prover]
fn parse_runtime_head(b: &Vec<u8>, i: usize) -> (r: Option<(HeadPart, usize)>)
    requires
        i <= b@.len(),
    ensures
        r matches Some((h, j)) ==> i <= j <= b@.len() && head_wf(h) && head_enc(h) == b@.subrange(
            i as int,
            j as int,
        ),
        forall|w: RuntimeV|
            crate::registry::runtime_wf_struct(w) && i + enc_runtime_head(w).len() <= b@.len()
                && b@.subrange(i as int, i + enc_runtime_head(w).len())
                == #[trigger] enc_runtime_head(w) ==> (r matches Some((h, j)) && head_matches(h, w)
                && j == i + enc_runtime_head(w).len()),
{
    let (ident, j1) = match parse_head_ident(b, i) {
        None => {
            proof {
                assert forall|w: RuntimeV|
                    crate::registry::runtime_wf_struct(w) && i + enc_runtime_head(w).len()
                        <= b@.len() && b@.subrange(i as int, i + enc_runtime_head(w).len())
                        == #[trigger] enc_runtime_head(w) implies false by {
                    lemma_head_halves(b@, i as int, w);
                }
            }
            return None;
        },
        Some(p) => p,
    };
    let (tee, j2) = match parse_head_tee(b, j1) {
        None => {
            proof {
                assert forall|w: RuntimeV|
                    crate::registry::runtime_wf_struct(w) && i + enc_runtime_head(w).len()
                        <= b@.len() && b@.subrange(i as int, i + enc_runtime_head(w).len())
                        == #[trigger] enc_runtime_head(w) implies false by {
                    lemma_head_halves(b@, i as int, w);
                }
            }
            return None;
        },
        Some(p) => p,
    };
    let h = HeadPart { ident, tee };
    proof {
        assert(b@.subrange(i as int, j2 as int) =~= b@.subrange(i as int, j1 as int) + b@.subrange(
            j1 as int,
            j2 as int,
        ));
        assert(head_enc(h) == b@.subrange(i as int, j2 as int));
        assert forall|w: RuntimeV|
            crate::registry::runtime_wf_struct(w) && i + enc_runtime_head(w).len() <= b@.len()
                && b@.subrange(i as int, i + enc_runtime_head(w).len())
                == #[trigger] enc_runtime_head(w) implies head_matches(h, w) && j2 == i
            + enc_runtime_head(w).len() by {
            lemma_head_halves(b@, i as int, w);
        }
    }
    Some((h, j2))
}

/// The parameter half of a descriptor, as parsed.
struct TailPart {
    params: TailParams,
    policy: TailPolicy,
}

/// What the parameter half of `w` requires of parsed tail fields.
spec fn tail_matches(t: TailPart, w: RuntimeV) -> bool {
    params_matches(t.params, w) && policy_matches(t.policy, w)
}

/// The canonical bytes of parsed tail fields.
spec fn tail_enc(t: TailPart) -> Seq<u8> {
    params_enc(t.params) + policy_enc(t.policy)
}

/// Structural well-formedness of parsed tail fields.
spec fn tail_wf(t: TailPart) -> bool {
    crate::registry::txn_scheduler_wf(t.params.txn_scheduler@) && policy_wf(t.policy)
}

/// Reads the parameter half of a descriptor.
#[verifier::rlimit(100)]
#[verifier::spinoff_prover]
fn parse_runtime_tail(b: &Vec<u8>, i: usize) -> (r: Option<(TailPart, usize)>)
    requires
        i <= b@.len(),
    ensures
        r matches Some((t, j)) ==> i <= j <= b@.len() && tail_wf(t) && tail_enc(t) == b@.subrange(
            i as int,
            j as int,
        ),
        forall|w: RuntimeV|
            crate::registry::runtime_wf_struct(w) && i + enc_runtime_tail(w).len() <= b@.len()
                && b@.subrange(i as int, i + enc_runtime_tail(w).len())
                == #[trigger] enc_runtime_tail(w) ==> (r matches Some((t, j)) && tail_matches(t, w)
                && j == i + enc_runtime_tail(w).len()),
{
    let (params, j1) = match parse_tail_params(b, i) {
        None => {
            proof {
                assert forall|w: RuntimeV|
                    crate::registry::runtime_wf_struct(w) && i + enc_runtime_tail(w).len()
                        <= b@.len() && b@.subrange(i as int, i + enc_runtime_tail(w).len())
                        == #[trigger] enc_runtime_tail(w) implies false by {
                    lemma_tail_halves(b@, i as int, w);
                }
            }
            return None;
        },
        Some(p) => p,
    };
    let (policy, j2) = match parse_tail_policy(b, j1) {
        None => {
            proof {
                assert forall|w: RuntimeV|
                    crate::registry::runtime_wf_struct(w) && i + enc_runtime_tail(w).len()
                        <= b@.len() && b@.subrange(i as int, i + enc_runtime_tail(w).len())
                        == #[trigger] enc_runtime_tail(w) implies false by {
                    lemma_tail_halves(b@, i as int, w);
                }
            }
            return None;
        },
        Some(p) => p,
    };
    let t = TailPart { params, policy };
    proof {
        assert(b@.subrange(i as int, j2 as int) =~= b@.subrange(i as int, j1 as int) + b@.subrange(
            j1 as int,
            j2 as int,
        ));
        assert(tail_enc(t) == b@.subrange(i as int, j2 as int));
        assert forall|w: RuntimeV|
            crate::registry::runtime_wf_struct(w) && i + enc_runtime_tail(w).len() <= b@.len()
                && b@.subrange(i as int, i + enc_runtime_tail(w).len())
                == #[trigger] enc_runtime_tail(w) implies tail_matches(t, w) && j2 == i
            + enc_runtime_tail(w).len() by {
            lemma_tail_halves(b@, i as int, w);
        }
    }
    Some((t, j2))
}

/// Two descriptor views with equal fields are the same view.
proof fn lemma_runtime_view_eq(a: RuntimeV, w: RuntimeV)
    requires
        a.v == w.v,
        a.id == w.id,
        a.entity_id == w.entity_id,
        a.genesis == w.genesis,
        a.kind == w.kind,
        a.tee_hardware == w.tee_hardware,
        a.versions == w.versions,
        a.key_manager == w.key_manager,
        a.executor == w.executor,
        a.txn_scheduler == w.txn_scheduler,
        a.storage == w.storage,
        a.admission_policy == w.admission_policy,
        a.staking == w.staking,
        a.governance_model == w.governance_model,
    ensures
        a == w,
{
    assert(a =~= w);
}

/// A view whose halves match parsed parts encodes as those parts do.
proof fn lemma_enc_of_matching(h: HeadPart, t: TailPart, a: RuntimeV)
    requires
        head_matches(h, a),
        tail_matches(t, a),
    ensures
        enc_runtime_head(a) == head_enc(h),
        enc_runtime_tail(a) == tail_enc(t),
{
    reveal(enc_runtime_head);
    reveal(enc_runtime_tail);
    reveal(enc_head_ident);
    reveal(enc_head_tee);
    reveal(enc_tail_params);
    reveal(enc_tail_policy);
}

/// The first two bytes of a well-formed descriptor's encoding carry the
/// supported schema version.
proof fn lemma_enc_runtime_version(b: Seq<u8>, w: RuntimeV)
    requires
        crate::registry::runtime_wf_struct(w),
        b == enc_runtime(w),
    ensures
        b.len() >= 2,
        b.subrange(0, 2) == enc_u16(w.v),
        w.v == crate::registry::RUNTIME_SCHEMA_VERSION,
{
    assert(b.subrange(0, enc_runtime(w).len() as int) =~= b);
    lemma_runtime_split(b, 0, w);
    lemma_head_halves(b, 0, w);
    lemma_head_ident_split(b, 0, w);
}

/// Reads both halves of a runtime descriptor.
#[verifier::rlimit(100)]
#[verifier::spinoff_prover]
fn parse_runtime_parts(b: &Vec<u8>, i: usize) -> (r: Option<((HeadPart, TailPart), usize)>)
    requires
        i <= b@.len(),
    ensures
        r matches Some(((h, t), j)) ==> (i <= j <= b@.len() && head_wf(h) && tail_wf(t)
            && head_enc(h) + tail_enc(t) == b@.subrange(i as int, j as int)),
        forall|w: RuntimeV|
            crate::registry::runtime_wf_struct(w) && i + enc_runtime(w).len() <= b@.len()
                && b@.subrange(i as int, i + enc_runtime(w).len()) == #[trigger] enc_runtime(w)
                ==> (r matches Some(((h, t), j)) && head_matches(h, w) && tail_matches(t, w) && j
                == i + enc_runtime(w).len()),
{
    let (h, j1) = match parse_runtime_head(b, i) {
        None => {
            proof {
                assert forall|w: RuntimeV|
                    crate::registry::runtime_wf_struct(w) && i + enc_runtime(w).len() <= b@.len()
                        && b@.subrange(i as int, i + enc_runtime(w).len())
                        == #[trigger] enc_runtime(w) implies false by {
                    lemma_runtime_split(b@, i as int, w);
                }
            }
            return None;
        },
        Some(p) => p,
    };
    let (t, j2) = match parse_runtime_tail(b, j1) {
        None => {
            proof {
                assert forall|w: RuntimeV|
                    crate::registry::runtime_wf_struct(w) && i + enc_runtime(w).len() <= b@.len()
                        && b@.subrange(i as int, i + enc_runtime(w).len())
                        == #[trigger] enc_runtime(w) implies false by {
                    lemma_runtime_split(b@, i as int, w);
                    assert(j1 == i + enc_runtime_head(w).len());
                }
            }
            return None;
        },
        Some(p) => p,
    };
    proof {
        assert(b@.subrange(i as int, j2 as int) =~= b@.subrange(i as int, j1 as int) + b@.subrange(
            j1 as int,
            j2 as int,
        ));
        assert forall|w: RuntimeV|
            crate::registry::runtime_wf_struct(w) && i + enc_runtime(w).len() <= b@.len()
                && b@.subrange(i as int, i + enc_runtime(w).len()) == #[trigger] enc_runtime(
                w,
            ) implies head_matches(h, w) && tail_matches(t, w) && j2 == i + enc_runtime(
            w,
        ).len() by {
            lemma_runtime_split(b@, i as int, w);
            assert(j1 == i + enc_runtime_head(w).len());
        }
    }
    Some(((h, t), j2))
}

/// Reads a whole runtime descriptor.
#[verifier::rlimit(100)]
#[verifier::spinoff_prover]
fn parse_runtime(b: &Vec<u8>, i: usize) -> (r: Option<(Runtime, usize)>)
    requires
        i <= b@.len(),
    ensures
        r matches Some((rt, j)) ==> i <= j <= b@.len() && crate::registry::runtime_wf_struct(rt@)
            && enc_runtime(rt@) == b@.subrange(i as int, j as int),
        forall|w: RuntimeV|
            crate::registry::runtime_wf_struct(w) && i + enc_runtime(w).len() <= b@.len()
                && b@.subrange(i as int, i + enc_runtime(w).len()) == #[trigger] enc_runtime(w)
                ==> (r matches Some((rt, j)) && rt@ == w && j == i + enc_runtime(w).len()),
{
    let ((h, t), j2) = match parse_runtime_parts(b, i) {
        None => {
            return None;
        },
        Some(p) => p,
    };
    let rt = Runtime {
        v: h.ident.v,
        id: h.ident.id,
        entity_id: h.ident.entity_id,
        genesis: h.ident.genesis,
        kind: h.tee.kind,
        tee_hardware: h.tee.tee_hardware,
        versions: h.tee.versions,
        key_manager: h.tee.key_manager,
        executor: t.params.executor,
        txn_scheduler: t.params.txn_scheduler,
        storage: t.params.storage,
        admission_policy: t.policy.admission_policy,
        staking: t.policy.staking,
        governance_model: t.policy.governance_model,
    };
    proof {
        assert(rt@.key_manager == opt_ns_view(rt.key_manager));
        assert(head_matches(h, rt@));
        assert(tail_matches(t, rt@));
        lemma_enc_of_matching(h, t, rt@);
        assert(enc_runtime(rt@) == enc_runtime_head(rt@) + enc_runtime_tail(rt@)) by {
            reveal(enc_runtime);
        }
        assert(enc_runtime(rt@) == b@.subrange(i as int, j2 as int));
        assert(crate::registry::runtime_wf_struct(rt@));
        assert forall|w: RuntimeV|
            crate::registry::runtime_wf_struct(w) && i + enc_runtime(w).len() <= b@.len()
                && b@.subrange(i as int, i + enc_runtime(w).len()) == #[trigger] enc_runtime(
                w,
            ) implies rt@ == w && j2 == i + enc_runtime(w).len() by {
            assert(head_matches(h, w));
            assert(tail_matches(t, w));
            lemma_runtime_view_eq(rt@, w);
        }
    }
    Some((rt, j2))
}

impl Runtime {
    /// Decodes a canonical runtime descriptor. Exactly the canonical
    /// encodings of well-formed, sentinel-free records are accepted, each to
    /// the record that produced it, so encode-decode-encode reproduces the
    /// input bytes, byte for byte.
    #[verifier::rlimit(100)]
    #[verifier::spinoff_prover]
    pub fn decode(bytes: &Vec<u8>) -> (r: Result<Runtime, crate::registry::RegistryError>)
        ensures
            r matches Ok(rt) ==> crate::registry::runtime_wf(rt@) && enc_runtime(rt@) == bytes@,
            forall|w: RuntimeV|
                crate::registry::runtime_wf(w) && bytes@ == #[trigger] enc_runtime(w) ==> (
                r matches Ok(rt) && rt@ == w),
            forall|w: RuntimeV|
                crate::registry::runtime_wf_struct(w)
                    && !crate::registry::runtime_sentinel_free(w) && bytes@
                    == #[trigger] enc_runtime(w) ==> r == Err::<
                    Runtime,
                    crate::registry::RegistryError,
                >(crate::registry::RegistryError::InvalidSentinelVariant),
            r == Err::<Runtime, crate::registry::RegistryError>(
                crate::registry::RegistryError::InvalidSentinelVariant,
            ) ==> exists|w: RuntimeV|
                crate::registry::runtime_wf_struct(w) && !crate::registry::runtime_sentinel_free(w)
                    && bytes@ == #[trigger] enc_runtime(w),
            r == Err::<Runtime, crate::registry::RegistryError>(
                crate::registry::RegistryError::SchemaVersionUnsupported,
            ) <==> (bytes@.len() >= 2 && bytes@.subrange(0, 2) != enc_u16(
                crate::registry::RUNTIME_SCHEMA_VERSION,
            )),
    {
        let (v0, _) = match crate::codec::parse_u16(bytes, 0) {
            None => {
                proof {
                    assert forall|w: RuntimeV|
                        crate::registry::runtime_wf_struct(w) && bytes@ == #[trigger] enc_runtime(
                            w,
                        ) implies false by {
                        lemma_enc_runtime_version(bytes@, w);
                    }
                }
                return Err(crate::registry::RegistryError::NonCanonicalEncoding);
            },
            Some(p) => p,
        };
        if v0 != crate::registry::RUNTIME_SCHEMA_VERSION {
            proof {
                assert(bytes@.subrange(0, 2) == enc_u16(v0));
                assert forall|w: RuntimeV|
                    crate::registry::runtime_wf_struct(w) && bytes@ == #[trigger] enc_runtime(
                        w,
                    ) implies false by {
                    lemma_enc_runtime_version(bytes@, w);
                    crate::codec::lemma_enc_u16_inj(v0, w.v);
                }
            }
            return Err(crate::registry::RegistryError::SchemaVersionUnsupported);
        }
        proof {
            assert(bytes@.subrange(0, 2) == enc_u16(crate::registry::RUNTIME_SCHEMA_VERSION));
        }
        let (rt, j) = match parse_runtime(bytes, 0) {
            None => {
                proof {
                    assert forall|w: RuntimeV|
                        crate::registry::runtime_wf_struct(w) && bytes@ == #[trigger] enc_runtime(
                            w,
                        ) implies false by {
                        assert(bytes@.subrange(0, enc_runtime(w).len() as int) =~= bytes@);
                    }
                }
                return Err(crate::registry::RegistryError::NonCanonicalEncoding);
            },
            Some(p) => p,
        };
        if j != bytes.len() {
            proof {
                assert forall|w: RuntimeV|
                    crate::registry::runtime_wf_struct(w) && bytes@ == #[trigger] enc_runtime(
                        w,
                    ) implies false by {
                    assert(bytes@.subrange(0, enc_runtime(w).len() as int) =~= bytes@);
                }
            }
            return Err(crate::registry::RegistryError::NonCanonicalEncoding);
        }
        proof {
            assert(bytes@.subrange(0, j as int) =~= bytes@);
        }
        match rt.validate() {
            Ok(()) => {
                proof {
                    assert forall|w: RuntimeV|
                        crate::registry::runtime_wf_struct(w) && bytes@ == #[trigger] enc_runtime(
                            w,
                        ) implies rt@ == w by {
                        assert(bytes@.subrange(0, enc_runtime(w).len() as int) =~= bytes@);
                    }
                }
                Ok(rt)
            },
            Err(crate::registry::RegistryError::InvalidSentinelVariant) => {
                proof {
                    assert(crate::registry::runtime_wf_struct(rt@)
                        && !crate::registry::runtime_sentinel_free(rt@) && bytes@ == enc_runtime(
                        rt@,
                    ));
                    assert forall|w: RuntimeV|
                        crate::registry::runtime_wf_struct(w) && bytes@ == #[trigger] enc_runtime(
                            w,
                        ) implies rt@ == w by {
                        assert(bytes@.subrange(0, enc_runtime(w).len() as int) =~= bytes@);
                    }
                }
                Err(crate::registry::RegistryError::InvalidSentinelVariant)
            },
            Err(e) => {
                proof {
                    assert(false);
                }
                Err(e)
            },
        }
    }
}

} // verus!
