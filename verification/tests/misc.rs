use std::time::Duration;

use greptime::actor_model::AckMode;
use greptime::config::{positive_bytes, CorruptedSegmentAction, ObjectStoreWalConfig};
use greptime::error::{Error, InvalidSetting};
use greptime::file_purger::{
    CacheManager, FileMeta, FilePurger, IndexType, LocalFilePurger, NoopFilePurger, PurgeRequest,
    PurgeStep, RegionFileId,
};
use greptime::id::RegionId;
use greptime::logstore::{AppendBatchResponse, AppendResponse, Provider, ProviderKind, WalIndex};
use greptime::options::QueryOptions;
use greptime::table_name::{TableName, TableReference};
use greptime::version::{product_version_line, source_timestamp_line};

fn parts(parts: &[&str]) -> Vec<String> {
    parts.iter().map(|part| part.to_string()).collect()
}

#[test]
fn table_names_take_one_to_three_parts() {
    let name = TableName::try_from(parts(&["t"])).unwrap();
    assert_eq!("greptime.public.t", name.full_name());
    let name = TableName::try_from(parts(&["s", "t"])).unwrap();
    assert_eq!("greptime.s.t", name.full_name());
    let name = TableName::try_from(parts(&["c", "s", "t"])).unwrap();
    assert_eq!("c.s.t", name.full_name());
    assert_eq!(
        TableName::new("c".to_string(), "s".to_string(), "t".to_string()),
        name
    );

    let error = TableName::try_from(Vec::new()).unwrap_err();
    assert_eq!("[]", error.s);
    let error = TableName::try_from(parts(&["a", "b\"", "c", "d"])).unwrap_err();
    assert_eq!(r#"["a", "b\"", "c", "d"]"#, error.s);
}

#[test]
fn table_references_borrow_the_parts() {
    let name = TableName::new("c".to_string(), "s".to_string(), "t".to_string());
    let reference = name.table_ref();
    assert_eq!(("c", "s", "t"), (reference.catalog, reference.schema, reference.table));
    let again = TableName::from_reference(TableReference {
        catalog: "c",
        schema: "s",
        table: "t",
    });
    assert_eq!(name, again);
}

#[test]
fn query_options_have_defaults() {
    let options = QueryOptions::default();
    assert_eq!(0, options.parallelism);
    assert!(!options.allow_query_fallback);
}

#[test]
fn wal_config_has_defaults() {
    let config = ObjectStoreWalConfig::default();
    assert_eq!("", config.storage_provider);
    assert_eq!("wal", config.prefix);
    assert_eq!(1_000_000_000, config.flush_interval);
    assert_eq!(8 << 20, config.max_batch_bytes);
    assert_eq!(AckMode::Durable, config.ack_mode);
    assert_eq!(64 << 20, config.max_unpersisted_bytes);
    assert_eq!(8_000_000_000, config.max_unpersisted_age);
    assert_eq!(CorruptedSegmentAction::Skip, config.on_corrupted_segment);
    let settings = config.actor_settings(7).unwrap();
    assert_eq!(8 << 20, settings.max_batch_bytes);
    assert_eq!(64 << 20, settings.max_unpersisted_bytes);
    assert_eq!(7, settings.writer_instance);
}

#[test]
fn wal_config_is_checked() {
    let default = ObjectStoreWalConfig::default;
    let cases = [
        (
            ObjectStoreWalConfig { flush_interval: 9_999_999, ..default() },
            InvalidSetting::FlushInterval { nanos: 9_999_999 },
        ),
        (
            ObjectStoreWalConfig { max_batch_bytes: 0, ..default() },
            InvalidSetting::MaxBatchBytes { bytes: 0 },
        ),
        (
            ObjectStoreWalConfig { max_unpersisted_bytes: 0, ..default() },
            InvalidSetting::MaxUnpersistedBytes { bytes: 0 },
        ),
        (
            ObjectStoreWalConfig { max_unpersisted_age: 0, ..default() },
            InvalidSetting::MaxUnpersistedAge,
        ),
    ];
    for (config, reason) in cases {
        let error = config.actor_settings(0).unwrap_err();
        assert_eq!(Error::InvalidWalObjectStore { reason }, error);
    }
    assert!(ObjectStoreWalConfig { flush_interval: 10_000_000, ..default() }
        .actor_settings(0)
        .is_ok());
    assert_eq!(None, positive_bytes(0));
    assert_eq!(Some(5), positive_bytes(5));
    assert_eq!(
        "invalid object store WAL: max batch bytes 0 is zero or too large",
        Error::InvalidWalObjectStore {
            reason: InvalidSetting::MaxBatchBytes { bytes: 0 }
        }
        .message()
    );
}

#[test]
fn intervals_are_shown_as_durations() {
    for (nanos, shown) in [
        (0, "0ns"),
        (999, "999ns"),
        (1_000, "1µs"),
        (1_050, "1.05µs"),
        (999_999, "999.999µs"),
        (1_000_000, "1ms"),
        (9_000_000, "9ms"),
        (9_999_999, "9.999999ms"),
        (9_500_000, "9.5ms"),
        (1_000_000_000, "1s"),
        (61_000_000_010, "61.00000001s"),
        (u64::MAX, "18446744073.709551615s"),
    ] {
        assert_eq!(shown, format!("{:?}", Duration::from_nanos(nanos)));
        let error = Error::InvalidWalObjectStore {
            reason: InvalidSetting::FlushInterval { nanos },
        };
        assert_eq!(
            format!("invalid object store WAL: flush interval {shown} is shorter than 10ms"),
            error.message()
        );
    }
}

#[test]
fn wal_index_and_responses() {
    let region_id = RegionId::new(1, 2);
    let index = WalIndex::new(region_id, 9);
    assert_eq!((region_id, 9), (index.region_id, index.location_id));
    assert_eq!(0, AppendResponse::default().last_entry_id);
    assert!(AppendBatchResponse::default().last_entry_ids.is_empty());
    let provider = Provider::object_store_provider(region_id, "wal".to_string());
    assert_eq!(ProviderKind::ObjectStore, provider.kind());
    assert_eq!(provider, provider.clone());
    assert_eq!(ProviderKind::Kafka, Provider::Other(ProviderKind::Kafka).kind());
}

fn meta(indexes: Vec<IndexType>) -> FileMeta {
    FileMeta {
        region_id: RegionId::new(1, 1),
        file_id: 42,
        available_indexes: indexes,
    }
}

const FILE: RegionFileId = RegionFileId {
    region_id: RegionId(1 << 32 | 1),
    file_id: 42,
};

#[test]
fn local_purger_deletes_the_file_and_what_is_staged() {
    let purger = LocalFilePurger::new(None);
    let plan = purger.send_request(PurgeRequest { file_meta: meta(Vec::new()) });
    assert!(plan.immediate.is_empty());
    assert_eq!(
        vec![PurgeStep::DeleteSst(FILE), PurgeStep::PurgeStager(FILE)],
        plan.scheduled
    );
}

#[test]
fn local_purger_cleans_its_caches() {
    let purger = LocalFilePurger::new(Some(CacheManager { has_write_cache: true }));
    let plan = purger.send_request(PurgeRequest {
        file_meta: meta(vec![IndexType::InvertedIndex]),
    });
    assert_eq!(vec![PurgeStep::RemoveMetaFromCache(FILE)], plan.immediate);
    assert_eq!(
        vec![
            PurgeStep::DeleteSst(FILE),
            PurgeStep::RemoveIndexFromWriteCache(FILE),
            PurgeStep::RemoveSstFromWriteCache(FILE),
            PurgeStep::PurgeStager(FILE),
        ],
        plan.scheduled
    );
    let plan = purger.send_request(PurgeRequest { file_meta: meta(Vec::new()) });
    assert_eq!(
        vec![
            PurgeStep::DeleteSst(FILE),
            PurgeStep::RemoveSstFromWriteCache(FILE),
            PurgeStep::PurgeStager(FILE),
        ],
        plan.scheduled
    );

    let purger = LocalFilePurger::new(Some(CacheManager { has_write_cache: false }));
    let plan = purger.send_request(PurgeRequest {
        file_meta: meta(vec![IndexType::BloomFilterIndex]),
    });
    assert_eq!(1, plan.immediate.len());
    assert_eq!(2, plan.scheduled.len());
}

#[test]
fn noop_purger_does_nothing() {
    let plan = NoopFilePurger.send_request(PurgeRequest {
        file_meta: meta(vec![IndexType::FulltextIndex]),
    });
    assert!(plan.immediate.is_empty());
    assert!(plan.scheduled.is_empty());
}

#[test]
fn builds_announce_their_version() {
    assert_eq!(
        "cargo:rustc-env=SOURCE_TIMESTAMP=2026-09-06T00:00:00Z",
        source_timestamp_line(Some("2026-09-06T00:00:00Z".to_string()))
    );
    assert_eq!("cargo:rustc-env=SOURCE_TIMESTAMP=", source_timestamp_line(None));
    let package = || "1.2.3".to_string();
    assert_eq!(
        "cargo:rustc-env=GREPTIME_PRODUCT_VERSION=4.5.6",
        product_version_line(Some("4.5.6".to_string()), package())
    );
    assert_eq!(
        "cargo:rustc-env=GREPTIME_PRODUCT_VERSION=1.2.3",
        product_version_line(None, package())
    );
}
