//! Word-count MapReduce: the names of the task files, the framing of
//! intermediate records, grouping and partitioning of map output, decoding
//! and reducing of partitions, and the master's scheduling decisions.
pub mod text;
pub mod names;
pub mod flat_names;
pub mod records;
pub mod grouping;
pub mod hashing;
pub mod json;
pub mod worker;
pub mod wordcount;
pub mod master;

pub use names::{get_map_split_file, get_reduce_split_file};
pub use hashing::generate_hash;
pub use wordcount::{wc_map_fn, wc_reduce_fn};
pub use master::{Master, WorkerTask, Scheduler, Action, Phase};
pub use worker::{TaskWorker, TaskError};
pub use records::{DELIMITOR, format_record};
