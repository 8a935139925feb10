use vstd::prelude::*;

use crate::strmap::{has_key, key_index, lookup, StrMap};
use crate::value::PropertyValue;

verus! {

/// Where the current value of a property comes from.
#[derive(Debug)]
pub enum PropertySource {
    Local { data: String },
    NoSource { data: String },
    Inherited { data: String },
    Default { data: String },
    TEMPORARY { data: String },
}

/// The current value of a property of an existing dataset, and its source.
#[derive(Debug)]
pub struct Property {
    pub value: PropertyValue,
    pub source: PropertySource,
}

/// The kind of an existing dataset.
#[derive(Debug, Clone, Copy, PartialEq, Eq, Structural)]
pub enum DatasetType {
    FileSystem,
    Snapshot,
    Zvol,
}

/// An existing dataset, as `zfs get` reports it.
pub struct Dataset {
    pub name: String,
    pub kind: DatasetType,
    pub pool: String,
    pub createtxg: i32,
    pub properties: StrMap<Property>,
}

impl Dataset {
    /// The current state of the property `name`.
    pub fn get_property(&self, name: &str) -> (r: Option<&Property>)
        ensures
            match r {
                Some(p) => lookup(self.properties.pairs(), name@) == Some(*p),
                None => lookup(self.properties.pairs(), name@) is None,
            },
    {
        self.properties.get(name)
    }

    /// The current state of the property `name`, to be changed in place.
    pub fn get_property_mut(&mut self, name: &str) -> (r: Option<&mut Property>)
        ensures
            r is None <==> !has_key(old(self).properties.pairs(), name@),
            r is None ==> *final(self) == *old(self),
            r is Some ==> {
                let i = key_index(old(self).properties.pairs(), name@);
                &&& lookup(old(self).properties.pairs(), name@) == Some(*r.unwrap())
                &&& final(self).properties.pairs() == old(self).properties.pairs().update(
                    i,
                    (name@, *final(r.unwrap())),
                )
                &&& final(self).name == old(self).name
                &&& final(self).kind == old(self).kind
                &&& final(self).pool == old(self).pool
                &&& final(self).createtxg == old(self).createtxg
            },
    {
        self.properties.get_mut(name)
    }
}

/// The format version that `zfs get --json` reports.
pub struct ZfsListOutputVersion {
    pub command: String,
    pub vers_major: i32,
    pub vers_minor: i32,
}

/// All existing datasets, by name.
pub struct ZfsListOutput {
    pub output_version: ZfsListOutputVersion,
    pub datasets: StrMap<Dataset>,
}

impl ZfsListOutput {
    /// The existing dataset called `name`.
    pub fn get_dataset(&self, name: &str) -> (r: Option<&Dataset>)
        ensures
            match r {
                Some(d) => lookup(self.datasets.pairs(), name@) == Some(*d),
                None => lookup(self.datasets.pairs(), name@) is None,
            },
    {
        self.datasets.get(name)
    }

    /// The existing dataset called `name`, to be changed in place.
    pub fn get_dataset_mut(&mut self, name: &str) -> (r: Option<&mut Dataset>)
        ensures
            r is None <==> !has_key(old(self).datasets.pairs(), name@),
            r is None ==> *final(self) == *old(self),
            r is Some ==> {
                let i = key_index(old(self).datasets.pairs(), name@);
                &&& lookup(old(self).datasets.pairs(), name@) == Some(*r.unwrap())
                &&& final(self).datasets.pairs() == old(self).datasets.pairs().update(
                    i,
                    (name@, *final(r.unwrap())),
                )
                &&& final(self).output_version == old(self).output_version
            },
    {
        self.datasets.get_mut(name)
    }
}

/// A dataset as the specification declares it: its name and the
/// properties it should have.
pub struct ZfsSpecDataset {
    pub name: String,
    pub properties: StrMap<PropertyValue>,
}

impl ZfsSpecDataset {
    /// A declared dataset called `name` with the given properties.
    pub fn new(name: &str, properties: StrMap<PropertyValue>) -> (r: ZfsSpecDataset)
        ensures
            r.name@ == name@,
            r.properties == properties,
    {
        ZfsSpecDataset { name: name.to_owned(), properties }
    }
}

/// The desired state: the datasets to have, in order.
pub struct ZfsSpec {
    pub datasets: Vec<ZfsSpecDataset>,
}

} // verus!
