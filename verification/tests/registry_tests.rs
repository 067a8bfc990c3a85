use registry_core::keys::PublicKey;
use registry_core::registry::may_admit;
use registry_core::registry::min_stake;
use registry_core::registry::staking_params;
use registry_core::registry::AdmissionError;
use registry_core::registry::EntityWhitelistConfig;
use registry_core::registry::EntityWhitelistRuntimeAdmissionPolicy;
use registry_core::registry::ExecutorParameters;
use registry_core::registry::LogEntry;
use registry_core::registry::Namespace;
use registry_core::registry::RegistryError;
use registry_core::registry::RolesMask;
use registry_core::registry::Runtime;
use registry_core::registry::RuntimeAdmissionPolicy;
use registry_core::registry::RuntimeGenesis;
use registry_core::registry::RuntimeGovernanceModel;
use registry_core::registry::RuntimeKind;
use registry_core::registry::StorageParameters;
use registry_core::registry::TEEHardware;
use registry_core::registry::TxnSchedulerParameters;
use registry_core::registry::Version;
use registry_core::registry::VersionInfo;
use registry_core::registry::RUNTIME_SCHEMA_VERSION;
use registry_core::staking::Quantity;
use registry_core::staking::ThresholdKind;

fn quantity(v: &[u8]) -> Quantity {
    Quantity { bytes: v.to_vec() }
}

fn entity(seed: u8) -> PublicKey {
    PublicKey {
        bytes: vec![seed; 32],
    }
}

fn sample_runtime() -> Runtime {
    Runtime {
        v: RUNTIME_SCHEMA_VERSION,
        id: Namespace {
            bytes: vec![7u8; 32],
        },
        entity_id: entity(9),
        genesis: RuntimeGenesis {
            state_root: registry_core::registry::Hash {
                bytes: vec![0u8; 32],
            },
            state: Some(vec![LogEntry {
                key: b"genesis-key".to_vec(),
                value: b"genesis-value".to_vec(),
            }]),
            storage_receipts: None,
            round: 42,
        },
        kind: RuntimeKind::KindCompute,
        tee_hardware: TEEHardware::TEEHardwareIntelSGX,
        versions: VersionInfo {
            version: Version {
                major: 1,
                minor: 2,
                patch: 3,
            },
            tee: Some(vec![0xAB, 0xCD]),
        },
        key_manager: Some(Namespace {
            bytes: vec![5u8; 32],
        }),
        executor: ExecutorParameters {
            group_size: 3,
            group_backup_size: 1,
            allowed_stragglers: 1,
            round_timeout: -5,
            max_messages: 128,
            min_pool_size: 3,
        },
        txn_scheduler: TxnSchedulerParameters {
            algorithm: b"simple".to_vec(),
            batch_flush_timeout: 1_000_000_000,
            max_batch_size: 1000,
            max_batch_size_bytes: 1 << 20,
            propose_batch_timeout: 2_000_000_000,
        },
        storage: StorageParameters {
            group_size: 2,
            min_write_replication: 2,
            max_apply_write_log_entries: 10_000,
            max_apply_ops: 2,
            checkpoint_interval: 100,
            checkpoint_num_kept: 2,
            checkpoint_chunk_size: 1 << 16,
            min_pool_size: 2,
        },
        admission_policy: RuntimeAdmissionPolicy::EntityWhitelist {
            policy: EntityWhitelistRuntimeAdmissionPolicy {
                entities: Some(vec![(
                    entity(9),
                    EntityWhitelistConfig {
                        max_nodes: Some(vec![
                            (RolesMask::RoleComputeWorker, 1),
                            (RolesMask::RoleStorageWorker, 2),
                        ]),
                    },
                )]),
            },
        },
        staking: staking_params(Some(vec![(
            ThresholdKind::KindNodeCompute,
            quantity(&[100]),
        )])),
        governance_model: RuntimeGovernanceModel::GovernanceEntity,
    }
}

#[test]
fn encode_decode_encode_is_byte_identical() {
    let rt = sample_runtime();
    let bytes = rt.encode();
    let decoded = Runtime::decode(&bytes).unwrap();
    let again = decoded.encode();
    assert_eq!(bytes, again);
    assert_eq!(decoded.kind, RuntimeKind::KindCompute);
    assert_eq!(decoded.genesis.round, 42);
    assert_eq!(decoded.txn_scheduler.algorithm, b"simple".to_vec());
}

#[test]
fn unknown_schema_version_is_rejected() {
    let mut rt = sample_runtime();
    rt.v = RUNTIME_SCHEMA_VERSION; // encode requires the supported version
    let mut bytes = rt.encode();
    bytes[1] = 99; // forge another version
    let r = Runtime::decode(&bytes);
    assert!(matches!(r, Err(RegistryError::SchemaVersionUnsupported)));
}

#[test]
fn sentinel_variant_is_rejected() {
    let mut rt = sample_runtime();
    rt.kind = RuntimeKind::KindInvalid;
    let bytes = rt.encode();
    let r = Runtime::decode(&bytes);
    assert!(matches!(r, Err(RegistryError::InvalidSentinelVariant)));
    assert!(matches!(
        rt.validate(),
        Err(RegistryError::InvalidSentinelVariant)
    ));
    assert!(sample_runtime().validate().is_ok());
}

#[test]
fn trailing_bytes_are_not_canonical() {
    let rt = sample_runtime();
    let mut bytes = rt.encode();
    bytes.push(0);
    let r = Runtime::decode(&bytes);
    assert!(matches!(r, Err(RegistryError::NonCanonicalEncoding)));
}

#[test]
fn unsorted_threshold_keys_are_not_canonical() {
    let mut rt = sample_runtime();
    rt.staking = staking_params(Some(vec![
        (ThresholdKind::KindNodeStorage, quantity(&[1])),
        (ThresholdKind::KindNodeCompute, quantity(&[2])),
    ]));
    // The canonical order is by kind code, ascending; this table is reversed,
    // so its bytes would never be produced by encode. Craft them by hand:
    // encode the sorted version, then swap the two kind codes.
    let sorted = {
        let mut s = sample_runtime();
        s.staking = staking_params(Some(vec![
            (ThresholdKind::KindNodeCompute, quantity(&[2])),
            (ThresholdKind::KindNodeStorage, quantity(&[1])),
        ]));
        s.encode()
    };
    // Find the staking table: it sits just before the final governance byte.
    // entries: code 2, len 1, [2], code 3, len 1, [1]
    let n = sorted.len();
    let mut forged = sorted.clone();
    forged[n - 13] = 3; // first entry code
    forged[n - 7] = 2; // second entry code
    assert!(matches!(
        Runtime::decode(&forged),
        Err(RegistryError::NonCanonicalEncoding)
    ));
    let _ = rt;
}

#[test]
fn any_node_admits_everyone() {
    let policy = RuntimeAdmissionPolicy::AnyNode {};
    let r = may_admit(
        &policy,
        &entity(1),
        &vec![RolesMask::RoleComputeWorker, RolesMask::RoleValidator],
        &vec![(RolesMask::RoleComputeWorker, 1000)],
    );
    assert!(r.is_ok());
}

#[test]
fn unlisted_entity_is_not_whitelisted() {
    let rt = sample_runtime();
    let r = may_admit(&rt.admission_policy, &entity(8), &vec![], &vec![]);
    assert!(matches!(r, Err(AdmissionError::NotWhitelisted)));
}

#[test]
fn role_caps_are_enforced_per_role() {
    let rt = sample_runtime();
    // ComputeWorker cap is 1 and one node already holds the role.
    let counts = vec![(RolesMask::RoleComputeWorker, 1u64)];
    let r = may_admit(
        &rt.admission_policy,
        &entity(9),
        &vec![RolesMask::RoleComputeWorker],
        &counts,
    );
    assert!(matches!(
        r,
        Err(AdmissionError::RoleCapExceeded(RolesMask::RoleComputeWorker))
    ));
    // A storage-only candidate is under its cap of 2 and is admitted.
    let r = may_admit(
        &rt.admission_policy,
        &entity(9),
        &vec![RolesMask::RoleStorageWorker],
        &counts,
    );
    assert!(r.is_ok());
    // An uncapped role (KeyManager has no cap entry) is admitted.
    let r = may_admit(
        &rt.admission_policy,
        &entity(9),
        &vec![RolesMask::RoleKeyManager],
        &vec![(RolesMask::RoleKeyManager, 1000)],
    );
    assert!(r.is_ok());
}

#[test]
fn min_stake_prefers_runtime_override() {
    let rt = sample_runtime();
    let defaults = vec![
        (ThresholdKind::KindEntity, quantity(&[50])),
        (ThresholdKind::KindNodeCompute, quantity(&[10])),
    ];
    let q = min_stake(&rt, ThresholdKind::KindNodeCompute, &defaults).unwrap();
    assert_eq!(q.bytes, vec![100]);

    let mut plain = sample_runtime();
    plain.staking = staking_params(None);
    let q = min_stake(&plain, ThresholdKind::KindNodeCompute, &defaults).unwrap();
    assert_eq!(q.bytes, vec![10]);

    let r = min_stake(&plain, ThresholdKind::KindNodeStorage, &defaults);
    assert!(matches!(r, Err(RegistryError::MissingNetworkDefault)));
}

#[test]
fn empty_staking_overrides_normalize_to_absent() {
    let sp = staking_params(Some(Vec::new()));
    assert!(sp.thresholds.is_none());
}
