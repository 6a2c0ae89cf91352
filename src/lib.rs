//! A log-structured key-value store: the record format of its segment files,
//! the index that maps each key to the record of its value, recovery,
//! compaction, and the request and response shapes of its network protocol.
use vstd::prelude::*;

pub mod client;
pub mod codec;
pub mod engine;
pub mod paths;

pub use codec::{decode_command, encode_command, Command, Message, Response};
pub use engine::{error_text, read_value, Compaction, KvStore, KvStoreError, LogPointer, COMPACTION_THRESHOLD};
pub use paths::{log_path, parse_log_name, sorted_log_gens};

verus! {

} // verus!
