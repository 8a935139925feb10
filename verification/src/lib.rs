//! Declarative planning of ZFS dataset changes: compare a desired
//! specification with the datasets that exist and derive the `zfs`
//! commands that bring the two in line.

pub mod action;
pub mod cleanup;
pub mod laws;
pub mod model;
pub mod plan;
pub mod producer;
pub mod strmap;
pub mod value;

pub use action::{ActionSet, ZfsAction};
pub use model::{
    Dataset, DatasetType, Property, PropertySource, ZfsListOutput, ZfsListOutputVersion, ZfsSpec,
    ZfsSpecDataset,
};
pub use plan::eval_spec;
pub use producer::{ActionProducer, VecActionProducer};
pub use strmap::StrMap;
pub use value::PropertyValue;
