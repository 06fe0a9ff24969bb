//! Group metadata.
use crate::array::AdditionalField;
use crate::codec::str_eq;
use vstd::prelude::*;
use vstd::string::StringExecFns;

verus! {

/// Group metadata, in each of its versions.
#[derive(Debug, Clone, PartialEq, Eq)]
pub enum GroupMetadata {
    V3(GroupMetadataV3),
}

/// Group metadata: format 3, node type `group`.
#[derive(Debug, Clone, PartialEq, Eq)]
pub struct GroupMetadataV3 {
    pub zarr_format: usize,
    pub node_type: String,
    /// The attributes, as JSON text.
    pub attributes: String,
    pub additional_fields: Vec<AdditionalField>,
}

impl GroupMetadataV3 {
    /// Group metadata with these attributes and additional fields.
    pub fn new(attributes: String, additional_fields: Vec<AdditionalField>) -> (r: GroupMetadataV3)
        ensures
            r.zarr_format == 3,
            r.node_type@ == "group"@,
            r.attributes@ == attributes@,
            r.additional_fields@ == additional_fields@,
    {
        GroupMetadataV3 {
            zarr_format: 3,
            node_type: String::from_str("group"),
            attributes,
            additional_fields,
        }
    }

    /// Whether `zarr_format` is 3.
    pub fn validate_format(&self) -> (r: bool)
        ensures
            r == (self.zarr_format == 3),
    {
        self.zarr_format == 3
    }

    /// Whether `node_type` is `group`.
    pub fn validate_node_type(&self) -> (r: bool)
        ensures
            r == (self.node_type@ == "group"@),
    {
        str_eq(self.node_type.as_str(), "group")
    }
}

} // verus!
