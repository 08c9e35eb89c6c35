pub mod actor;
pub mod actor_answers;
pub mod actor_laws;
pub mod actor_model;
pub mod batch;
pub mod batch_laws;
pub mod catalog;
pub mod catalog_laws;
pub mod codec;
pub mod collection_laws;
pub mod config;
pub mod crc;
pub mod durability;
pub mod encode_laws;
pub mod error;
pub mod file_purger;
pub mod format;
pub mod id;
pub mod index_laws;
pub mod layout_laws;
pub mod ledger;
pub mod ledger_laws;
pub mod ledger_pool;
pub mod logstore;
pub mod object;
pub mod options;
pub mod ordmap;
pub mod outcome_laws;
pub mod progress_laws;
pub mod read_laws;
pub mod recovery;
pub mod recovery_laws;
pub mod request_laws;
pub mod semaphore;
pub mod stop_laws;
pub mod store;
pub mod store_laws;
pub mod table_name;
pub mod text;
pub mod text_laws;
pub mod version;
pub mod writer_laws;
