//! The canonical full-store export: one group record per group, in group
//! order, with key columns at bucket granularity and one block record per
//! block. Merging such an export into an empty store rebuilds the store.

use vstd::prelude::*;

use crate::records::{
    BlockField, BlockFieldModel, BlockList, BlockRecord, ComponentData, GroupField,
    GroupFieldModel, GroupRecord, KeyColumn, Run, RunModel,
};
use crate::store::{
    lemma_bytes_deep_view, lemma_ids_deep_view, lemma_vec_deep_view_index, lemma_vec_deep_view_len,
    Block, BlockModel, BucketModel, GroupModel, SchemaModel, Store, StoreModel,
};

verus! {

broadcast use
    lemma_vec_deep_view_len,
    lemma_vec_deep_view_index,
    lemma_ids_deep_view,
    lemma_bytes_deep_view,
;

/// Each component column of a block leaves as a single run.
pub open spec fn export_block_comps(b: BlockModel, schema: SchemaModel) -> Seq<Seq<RunModel>> {
    Seq::new(
        schema.components.len(),
        |c: int| seq![RunModel { bytes: b.columns[c], elems: b.rows.len() }],
    )
}

/// A block exports its row identities and, per component type, a single
/// run holding its whole column.
pub open spec fn export_block_spec(b: BlockModel, schema: SchemaModel) -> Seq<BlockFieldModel> {
    seq![
        BlockFieldModel::Rows(b.rows),
        BlockFieldModel::Components(export_block_comps(b, schema)),
    ]
}

pub open spec fn export_bucket_spec(bk: BucketModel, schema: SchemaModel) -> Seq<
    Seq<BlockFieldModel>,
> {
    Seq::new(bk.blocks.len(), |i: int| export_block_spec(bk.blocks[i], schema))
}

/// Key columns at bucket granularity: column `k` holds bucket `b`'s value
/// for key type `k` at row `b`.
pub open spec fn export_key_cols_spec(g: GroupModel) -> Seq<Seq<Seq<u8>>> {
    Seq::new(
        g.schema.keys.len(),
        |k: int| Seq::new(g.buckets.len(), |b: int| g.buckets[b].keys[k]),
    )
}

pub open spec fn export_group_spec(g: GroupModel) -> Seq<GroupFieldModel> {
    seq![
        GroupFieldModel::Schema(g.schema),
        GroupFieldModel::Keys(export_key_cols_spec(g)),
        GroupFieldModel::Buckets(
            Seq::new(g.buckets.len(), |b: int| export_bucket_spec(g.buckets[b], g.schema)),
        ),
    ]
}

pub open spec fn export_spec(s: StoreModel) -> Seq<Seq<GroupFieldModel>> {
    Seq::new(s.groups.len(), |g: int| export_group_spec(s.groups[g]))
}

fn copy_byte_vec(src: &Vec<u8>) -> (r: Vec<u8>)
    ensures
        r@ == src@,
{
    let mut r: Vec<u8> = Vec::new();
    let mut i: usize = 0;
    while i < src.len()
        invariant
            0 <= i <= src@.len(),
            r@ == src@.take(i as int),
        decreases src.len() - i,
    {
        r.push(src[i]);
        proof {
            assert(src@.take(i + 1) =~= src@.take(i as int).push(src@[i as int]));
        }
        i += 1;
    }
    proof {
        assert(src@.take(src@.len() as int) =~= src@);
    }
    r
}

fn export_block(b: &Block, ncomp: usize) -> (r: BlockRecord)
    requires
        b@.columns.len() == ncomp,
    ensures
        forall|schema: SchemaModel|
            schema.components.len() == ncomp ==> r.deep_view() == export_block_spec(b@, schema),
{
    let mut rows: Vec<u64> = Vec::new();
    let mut i: usize = 0;
    while i < b.rows.len()
        invariant
            0 <= i <= b.rows@.len(),
            rows@ == b.rows@.take(i as int),
        decreases b.rows.len() - i,
    {
        rows.push(b.rows[i]);
        proof {
            assert(b.rows@.take(i + 1) =~= b.rows@.take(i as int).push(b.rows@[i as int]));
        }
        i += 1;
    }
    proof {
        assert(b.rows@.take(b.rows@.len() as int) =~= b.rows@);
    }
    let nrows = b.rows.len();
    let mut comps: Vec<ComponentData> = Vec::new();
    let mut c: usize = 0;
    while c < ncomp
        invariant
            0 <= c <= ncomp,
            b@.columns.len() == ncomp,
            nrows == b.rows@.len(),
            comps@.len() == c,
            forall|q: int|
                0 <= q < c ==> (#[trigger] comps@[q]@) == seq![
                    RunModel { bytes: b@.columns[q], elems: b@.rows.len() },
                ],
        decreases ncomp - c,
    {
        let bytes = copy_byte_vec(&b.columns[c]);
        let run = Run { bytes, elems: nrows };
        let mut runs: Vec<Run> = Vec::new();
        runs.push(run);
        let cd = ComponentData { runs };
        proof {
            assert(cd@ =~= seq![RunModel { bytes: b@.columns[c as int], elems: b@.rows.len() }]);
            assert(b@.columns[c as int] == b.columns@[c as int]@);
        }
        comps.push(cd);
        c += 1;
    }
    let mut fields: Vec<BlockField> = Vec::new();
    fields.push(BlockField::Rows(rows));
    fields.push(BlockField::Components(comps));
    let r = BlockRecord { fields };
    proof {
        assert forall|schema: SchemaModel|
            schema.components.len() == ncomp implies r.deep_view() == export_block_spec(
            b@,
            schema,
        ) by {
            assert(r.deep_view()[0] == BlockFieldModel::Rows(b@.rows));
            assert forall|q: int|
                0 <= q < ncomp implies comps.deep_view()[q] == seq![
                RunModel { bytes: b@.columns[q], elems: b@.rows.len() },
            ] by {
                assert(comps.deep_view()[q] == comps@[q].deep_view());
            }
            assert(comps.deep_view() =~= Seq::new(
                schema.components.len(),
                |q: int| seq![RunModel { bytes: b@.columns[q], elems: b@.rows.len() }],
            ));
            assert(r.deep_view()[1] == BlockFieldModel::Components(comps.deep_view()));
            assert(r.deep_view() =~= export_block_spec(b@, schema));
        }
    }
    r
}

impl Store {
    /// Export the whole store as a record stream. Merging the result into
    /// an empty store of the same capacity rebuilds this store.
    pub fn export_records(&self) -> (r: Vec<GroupRecord>)
        requires
            forall|q: int| 0 <= q < self@.groups.len() ==> export_group_shape(
                #[trigger] self@.groups[q],
            ),
        ensures
            r.deep_view() == export_spec(self@),
    {
        let mut out: Vec<GroupRecord> = Vec::new();
        let mut g: usize = 0;
        while g < self.groups.len()
            invariant
                0 <= g <= self.groups@.len(),
                forall|q: int| 0 <= q < self@.groups.len() ==> export_group_shape(
                    #[trigger] self@.groups[q],
                ),
                out@.len() == g,
                forall|q: int|
                    0 <= q < g ==> (#[trigger] out@[q].deep_view()) == export_group_spec(
                        self@.groups[q],
                    ),
            decreases self.groups.len() - g,
        {
            proof {
                assert(self.groups@[g as int]@ == self@.groups[g as int]);
            }
            let rec = export_group(&self.groups[g]);
            out.push(rec);
            g += 1;
        }
        proof {
            assert forall|q: int| 0 <= q < out@.len() implies out.deep_view()[q] == export_spec(
                self@,
            )[q] by {
                assert(out.deep_view()[q] == out@[q].deep_view());
            }
            assert(out.deep_view() =~= export_spec(self@));
        }
        out
    }
}

/// Every bucket stores one key value per key type, and every block one
/// column per component type: what the exporter needs to address them.
pub open spec fn export_group_shape(g: GroupModel) -> bool {
    forall|b: int|
        0 <= b < g.buckets.len() ==> (#[trigger] g.buckets[b]).keys.len() == g.schema.keys.len()
            && forall|i: int|
            0 <= i < g.buckets[b].blocks.len() ==> (#[trigger] g.buckets[b].blocks[
                i]).columns.len() == g.schema.components.len()
}

fn export_group(g: &crate::store::Group) -> (r: GroupRecord)
    requires
        export_group_shape(g@),
    ensures
        r.deep_view() == export_group_spec(g@),
{
    let ghost gm = g@;
    // the schema field
    let desc = crate::schema::duplicate_schema(&g.schema);
    // key columns, one per key type, one value per bucket
    let nkeys = g.schema.keys.len();
    let mut cols: Vec<KeyColumn> = Vec::new();
    let mut k: usize = 0;
    while k < nkeys
        invariant
            0 <= k <= nkeys,
            gm == g@,
            export_group_shape(gm),
            nkeys == g.schema.keys@.len(),
            cols@.len() == k,
            forall|q: int|
                0 <= q < k ==> (#[trigger] cols@[q]@) =~= Seq::new(
                    gm.buckets.len(),
                    |b: int| gm.buckets[b].keys[q],
                ),
        decreases nkeys - k,
    {
        let mut values: Vec<Vec<u8>> = Vec::new();
        let mut b: usize = 0;
        while b < g.buckets.len()
            invariant
                0 <= b <= g.buckets@.len(),
                0 <= k < nkeys,
                gm == g@,
                export_group_shape(gm),
                nkeys == g.schema.keys@.len(),
                nkeys as int == gm.schema.keys.len(),
                gm.buckets.len() == g.buckets@.len(),
                values@.len() == b,
                values.deep_view() =~= Seq::new(b as nat, |x: int| gm.buckets[x].keys[k as int]),
            decreases g.buckets.len() - b,
        {
            proof {
                assert(gm.buckets[b as int] == g.buckets@[b as int]@);
                assert(gm.buckets[b as int].keys.len() == nkeys as int);
                assert(gm.buckets[b as int].keys[k as int] == g.buckets@[b as int].keys@[
                    k as int]@);
            }
            let v = copy_byte_vec(&g.buckets[b].keys[k]);
            let ghost vm = v@;
            let ghost pre_deep = values.deep_view();
            values.push(v);
            proof {
                assert forall|x: int| 0 <= x < b + 1 implies values.deep_view()[x]
                    == gm.buckets[x].keys[k as int] by {
                    assert(values.deep_view()[x] == values@[x].deep_view());
                    if x < b {
                        assert(values@[x].deep_view() == pre_deep[x]);
                    } else {
                        assert(values@[x].deep_view() == vm);
                    }
                }
                assert(values.deep_view() =~= Seq::new(
                    (b + 1) as nat,
                    |x: int| gm.buckets[x].keys[k as int],
                ));
            }
            b += 1;
        }
        cols.push(KeyColumn { values });
        proof {
            assert(cols@[k as int]@ =~= Seq::new(
                gm.buckets.len(),
                |x: int| gm.buckets[x].keys[k as int],
            ));
        }
        k += 1;
    }
    // one block list per bucket, one block record per block
    let mut lists: Vec<BlockList> = Vec::new();
    let mut b2: usize = 0;
    while b2 < g.buckets.len()
        invariant
            0 <= b2 <= g.buckets@.len(),
            gm == g@,
            export_group_shape(gm),
            gm.buckets.len() == g.buckets@.len(),
            lists@.len() == b2,
            forall|q: int|
                0 <= q < b2 ==> (#[trigger] lists@[q]@) =~= export_bucket_spec(
                    gm.buckets[q],
                    gm.schema,
                ),
        decreases g.buckets.len() - b2,
    {
        let ncomp = g.schema.components.len();
        let mut records: Vec<BlockRecord> = Vec::new();
        let mut i: usize = 0;
        while i < g.buckets[b2].blocks.len()
            invariant
                0 <= b2 < g.buckets@.len(),
                0 <= i <= gm.buckets[b2 as int].blocks.len(),
                gm == g@,
                export_group_shape(gm),
                gm.buckets.len() == g.buckets@.len(),
                gm.buckets[b2 as int].blocks.len() == g.buckets@[b2 as int].blocks@.len(),
                ncomp as int == gm.schema.components.len(),
                records@.len() == i,
                forall|q: int|
                    0 <= q < i ==> (#[trigger] records@[q].deep_view()) == export_block_spec(
                        gm.buckets[b2 as int].blocks[q],
                        gm.schema,
                    ),
            decreases g.buckets[b2 as int].blocks.len() - i,
        {
            proof {
                assert(gm.buckets[b2 as int] == g.buckets@[b2 as int]@);
                assert(gm.buckets[b2 as int].blocks[i as int] == g.buckets@[b2 as int].blocks@[
                    i as int]@);
                assert(gm.buckets[b2 as int].blocks[i as int].columns.len() == ncomp as int);
            }
            let rec = export_block(&g.buckets[b2].blocks[i], ncomp);
            records.push(rec);
            i += 1;
        }
        lists.push(BlockList { records });
        proof {
            assert(gm.buckets[b2 as int] == g.buckets@[b2 as int]@);
            assert(lists@[b2 as int]@ =~= export_bucket_spec(gm.buckets[b2 as int], gm.schema));
        }
        b2 += 1;
    }
    let mut fields: Vec<GroupField> = Vec::new();
    fields.push(GroupField::Schema(desc));
    fields.push(GroupField::Keys(cols));
    fields.push(GroupField::Buckets(lists));
    let r = GroupRecord { fields };
    proof {
        assert(r.deep_view()[0] == GroupFieldModel::Schema(gm.schema));
        assert forall|q: int| 0 <= q < cols@.len() implies cols.deep_view()[q]
            == export_key_cols_spec(gm)[q] by {
            assert(cols.deep_view()[q] == cols@[q].deep_view());
        }
        assert(cols.deep_view() =~= export_key_cols_spec(gm));
        assert(r.deep_view()[1] == GroupFieldModel::Keys(cols.deep_view()));
        assert forall|q: int| 0 <= q < lists@.len() implies lists.deep_view()[q] == Seq::new(
            gm.buckets.len(),
            |x: int| export_bucket_spec(gm.buckets[x], gm.schema),
        )[q] by {
            assert(lists.deep_view()[q] == lists@[q].deep_view());
        }
        assert(lists.deep_view() =~= Seq::new(
            gm.buckets.len(),
            |x: int| export_bucket_spec(gm.buckets[x], gm.schema),
        ));
        assert(r.deep_view()[2] == GroupFieldModel::Buckets(lists.deep_view()));
        assert(r.deep_view() =~= export_group_spec(gm));
    }
    r
}

} // verus!
