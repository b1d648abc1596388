//! The decoded wire structure: a stream is a sequence of group records,
//! each an ordered list of fields. The decode collaborator (outside this
//! crate) turns the concrete encoding into these plain values; the merge
//! works on them alone.

use vstd::prelude::*;

use crate::store::{Schema, SchemaModel};

verus! {

/// One contiguous run of raw component bytes, as the decode collaborator
/// hands it over: `elems` elements of some component type, `bytes` holding
/// their concatenated byte images.
#[derive(Debug, PartialEq)]
pub struct Run {
    pub bytes: Vec<u8>,
    pub elems: usize,
}

#[verifier::ext_equal]
pub ghost struct RunModel {
    pub bytes: Seq<u8>,
    pub elems: nat,
}

impl View for Run {
    type V = RunModel;

    open spec fn view(&self) -> RunModel {
        RunModel { bytes: self.bytes@, elems: self.elems as nat }
    }
}

impl DeepView for Run {
    type V = RunModel;

    open spec fn deep_view(&self) -> RunModel {
        self@
    }
}

/// The decoded data of one component type for one block record: one or
/// more runs whose element counts must sum to the record's row count.
#[derive(Debug, PartialEq)]
pub struct ComponentData {
    pub runs: Vec<Run>,
}

impl View for ComponentData {
    type V = Seq<RunModel>;

    open spec fn view(&self) -> Seq<RunModel> {
        self.runs.deep_view()
    }
}

impl DeepView for ComponentData {
    type V = Seq<RunModel>;

    open spec fn deep_view(&self) -> Seq<RunModel> {
        self@
    }
}

/// A temporary grouping-key column: one decoded key value per incoming key
/// row, for one key type.
#[derive(Debug, PartialEq)]
pub struct KeyColumn {
    pub values: Vec<Vec<u8>>,
}

impl View for KeyColumn {
    type V = Seq<Seq<u8>>;

    open spec fn view(&self) -> Seq<Seq<u8>> {
        self.values.deep_view()
    }
}

impl DeepView for KeyColumn {
    type V = Seq<Seq<u8>>;

    open spec fn deep_view(&self) -> Seq<Seq<u8>> {
        self@
    }
}

/// A field of a block record, in arrival order: the row identities, then
/// one `ComponentData` per component type of the resolved schema.
#[derive(Debug, PartialEq)]
pub enum BlockField {
    Rows(Vec<u64>),
    Components(Vec<ComponentData>),
}

#[verifier::ext_equal]
pub ghost enum BlockFieldModel {
    Rows(Seq<u64>),
    Components(Seq<Seq<RunModel>>),
}

impl View for BlockField {
    type V = BlockFieldModel;

    open spec fn view(&self) -> BlockFieldModel {
        match self {
            BlockField::Rows(ids) => BlockFieldModel::Rows(ids@),
            BlockField::Components(cs) => BlockFieldModel::Components(cs.deep_view()),
        }
    }
}

impl DeepView for BlockField {
    type V = BlockFieldModel;

    open spec fn deep_view(&self) -> BlockFieldModel {
        self@
    }
}

/// A block record: the fields for one batch of incoming rows landing in
/// one bucket. A well-formed record holds exactly `rows` then
/// `components`.
#[derive(Debug, PartialEq)]
pub struct BlockRecord {
    pub fields: Vec<BlockField>,
}

impl View for BlockRecord {
    type V = Seq<BlockFieldModel>;

    open spec fn view(&self) -> Seq<BlockFieldModel> {
        self.fields.deep_view()
    }
}

impl DeepView for BlockRecord {
    type V = Seq<BlockFieldModel>;

    open spec fn deep_view(&self) -> Seq<BlockFieldModel> {
        self@
    }
}

/// The block lists of one group record: for each incoming key row, the
/// block records whose rows land in that row's bucket.
#[derive(Debug, PartialEq)]
pub struct BlockList {
    pub records: Vec<BlockRecord>,
}

impl View for BlockList {
    type V = Seq<Seq<BlockFieldModel>>;

    open spec fn view(&self) -> Seq<Seq<BlockFieldModel>> {
        self.records.deep_view()
    }
}

impl DeepView for BlockList {
    type V = Seq<Seq<BlockFieldModel>>;

    open spec fn deep_view(&self) -> Seq<Seq<BlockFieldModel>> {
        self@
    }
}

/// A field of a group record, in arrival order: the schema description,
/// then the grouping-key columns, then the per-key-row block lists.
#[derive(Debug, PartialEq)]
pub enum GroupField {
    Schema(Schema),
    Keys(Vec<KeyColumn>),
    Buckets(Vec<BlockList>),
}

#[verifier::ext_equal]
pub ghost enum GroupFieldModel {
    Schema(SchemaModel),
    Keys(Seq<Seq<Seq<u8>>>),
    Buckets(Seq<Seq<Seq<BlockFieldModel>>>),
}

impl View for GroupField {
    type V = GroupFieldModel;

    open spec fn view(&self) -> GroupFieldModel {
        match self {
            GroupField::Schema(s) => GroupFieldModel::Schema(s@),
            GroupField::Keys(cols) => GroupFieldModel::Keys(cols.deep_view()),
            GroupField::Buckets(lists) => GroupFieldModel::Buckets(lists.deep_view()),
        }
    }
}

impl DeepView for GroupField {
    type V = GroupFieldModel;

    open spec fn deep_view(&self) -> GroupFieldModel {
        self@
    }
}

/// One group record of the stream. A well-formed record holds exactly
/// `schema`, then `keys`, then `buckets`.
#[derive(Debug, PartialEq)]
pub struct GroupRecord {
    pub fields: Vec<GroupField>,
}

impl View for GroupRecord {
    type V = Seq<GroupFieldModel>;

    open spec fn view(&self) -> Seq<GroupFieldModel> {
        self.fields.deep_view()
    }
}

impl DeepView for GroupRecord {
    type V = Seq<GroupFieldModel>;

    open spec fn deep_view(&self) -> Seq<GroupFieldModel> {
        self@
    }
}

} // verus!
