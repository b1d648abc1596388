//! The stream walker: drive the merge of a decoded record stream into the
//! live store in one forward pass, enforcing field order at every level
//! and stopping at the first failure.

use vstd::prelude::*;

use crate::keys::merge_keys_spec;
use crate::pack::{pack_spec, ranges_total};
use crate::records::{BlockFieldModel, BlockList, BlockRecord, GroupFieldModel, GroupRecord};
use crate::scatter::{comp_data_ok, runs_bytes, scatter_spec};
use crate::schema::resolve_spec;
use crate::store::{
    lemma_bytes_deep_view, lemma_ids_deep_view, lemma_vec_deep_view_index, lemma_vec_deep_view_len,
    BlockModel, BucketModel, GroupModel, SchemaModel, Store, StoreModel,
};
use crate::records::RunModel;
use crate::MergeError;

verus! {

broadcast use
    lemma_vec_deep_view_len,
    lemma_vec_deep_view_index,
    lemma_ids_deep_view,
    lemma_bytes_deep_view,
;

/// The shape every live bucket must have for the packer and the scatter
/// writer to address it: blocks within capacity, one column per component
/// type of the owning group's schema.
pub open spec fn bucket_shape(bk: BucketModel, ncomp: nat, cap: nat) -> bool {
    forall|i: int|
        0 <= i < bk.blocks.len() ==> (#[trigger] bk.blocks[i]).rows.len() <= cap && bk.blocks[
            i].columns.len() == ncomp
}

pub open spec fn group_shape(g: GroupModel, cap: nat) -> bool {
    forall|b: int|
        0 <= b < g.buckets.len() ==> bucket_shape(
            #[trigger] g.buckets[b],
            g.schema.components.len(),
            cap,
        )
}

pub open spec fn store_shape(s: StoreModel) -> bool {
    &&& s.capacity >= 1
    &&& forall|g: int| 0 <= g < s.groups.len() ==> group_shape(#[trigger] s.groups[g], s.capacity)
}

/// The two ordered fields of a block record, or `None` when the record is
/// malformed: `rows` must arrive first, then `components`, nothing else.
pub open spec fn block_record_parts(rec: Seq<BlockFieldModel>) -> Option<
    (Seq<u64>, Seq<Seq<RunModel>>),
> {
    if rec.len() == 2 {
        match (rec[0], rec[1]) {
            (BlockFieldModel::Rows(ids), BlockFieldModel::Components(cs)) => Some((ids, cs)),
            _ => None,
        }
    } else {
        None
    }
}

/// Scattering the first `c` component types of the schema, in declared
/// order, across the placement ranges.
pub open spec fn scatter_upto(
    blocks: Seq<BlockModel>,
    schema: SchemaModel,
    comps: Seq<Seq<RunModel>>,
    rs: Seq<(int, int)>,
    c: int,
) -> Seq<BlockModel>
    decreases c,
{
    if c <= 0 {
        blocks
    } else {
        scatter_spec(
            scatter_upto(blocks, schema, comps, rs, c - 1),
            c - 1,
            schema.components[c - 1].size,
            runs_bytes(comps[c - 1]),
            rs,
        )
    }
}

/// Merging one block record into one bucket: parse the ordered fields,
/// check every component's runs against the record's row count, then pack
/// the rows and scatter every component column.
pub open spec fn merge_block_spec(
    bucket: BucketModel,
    schema: SchemaModel,
    cap: nat,
    rec: Seq<BlockFieldModel>,
) -> Result<BucketModel, MergeError> {
    match block_record_parts(rec) {
        None => Err(MergeError::Format),
        Some((ids, comps)) => {
            if comps.len() != schema.components.len() {
                Err(MergeError::Format)
            } else if !(forall|c: int|
                0 <= c < comps.len() ==> comp_data_ok(
                    #[trigger] comps[c],
                    schema.components[c].size,
                    ids.len() as int,
                )) {
                Err(MergeError::Mismatch)
            } else {
                let (b2, rs) = pack_spec(bucket.blocks, ids, cap, schema.components.len());
                Ok(
                    BucketModel {
                        keys: bucket.keys,
                        blocks: scatter_upto(b2, schema, comps, rs, schema.components.len() as int),
                    },
                )
            }
        },
    }
}

/// Merging one key row's block list into its bucket, in order, stopping
/// at the first failure.
pub open spec fn merge_list_spec(
    g: GroupModel,
    cap: nat,
    bidx: int,
    list: Seq<Seq<BlockFieldModel>>,
) -> Result<GroupModel, MergeError>
    decreases list.len(),
{
    if list.len() == 0 {
        Ok(g)
    } else {
        match merge_list_spec(g, cap, bidx, list.drop_last()) {
            Err(e) => Err(e),
            Ok(g2) => {
                if !(0 <= bidx < g2.buckets.len()) {
                    Err(MergeError::Format)
                } else {
                    match merge_block_spec(g2.buckets[bidx], g2.schema, cap, list.last()) {
                        Err(e) => Err(e),
                        Ok(bk) => Ok(
                            GroupModel { schema: g2.schema, buckets: g2.buckets.update(bidx, bk) },
                        ),
                    }
                }
            },
        }
    }
}

/// Merging the block lists of the first `n` incoming key rows, each into
/// the bucket its mapping entry names.
pub open spec fn merge_lists_upto(
    g: GroupModel,
    cap: nat,
    mapping: Seq<int>,
    lists: Seq<Seq<Seq<BlockFieldModel>>>,
    n: int,
) -> Result<GroupModel, MergeError>
    decreases n,
{
    if n <= 0 {
        Ok(g)
    } else {
        match merge_lists_upto(g, cap, mapping, lists, n - 1) {
            Err(e) => Err(e),
            Ok(g2) => merge_list_spec(g2, cap, mapping[n - 1], lists[n - 1]),
        }
    }
}

/// Merging one group record: the ordered fields `schema`, `keys`,
/// `buckets`; schema resolution, key-row routing, then one block list per
/// incoming key row.
pub open spec fn merge_group_spec(s: StoreModel, rec: Seq<GroupFieldModel>) -> Result<
    StoreModel,
    MergeError,
> {
    if rec.len() != 3 {
        Err(MergeError::Format)
    } else {
        match (rec[0], rec[1], rec[2]) {
            (
                GroupFieldModel::Schema(desc),
                GroupFieldModel::Keys(cols),
                GroupFieldModel::Buckets(lists),
            ) => {
                let (groups2, gi) = resolve_spec(s.groups, desc);
                match merge_keys_spec(groups2[gi], cols) {
                    Err(e) => Err(e),
                    Ok((g2, mapping)) => {
                        if lists.len() != mapping.len() {
                            Err(MergeError::Format)
                        } else {
                            match merge_lists_upto(
                                g2,
                                s.capacity,
                                mapping,
                                lists,
                                mapping.len() as int,
                            ) {
                                Err(e) => Err(e),
                                Ok(g3) => Ok(
                                    StoreModel {
                                        capacity: s.capacity,
                                        groups: groups2.update(gi, g3),
                                    },
                                ),
                            }
                        }
                    },
                }
            },
            _ => Err(MergeError::Format),
        }
    }
}

/// Merging a whole record stream, stopping at the first failure.
pub open spec fn merge_spec(s: StoreModel, records: Seq<Seq<GroupFieldModel>>) -> Result<
    StoreModel,
    MergeError,
>
    decreases records.len(),
{
    if records.len() == 0 {
        Ok(s)
    } else {
        match merge_spec(s, records.drop_last()) {
            Err(e) => Err(e),
            Ok(s2) => merge_group_spec(s2, records.last()),
        }
    }
}

impl Store {
    /// Does the store have the shape the merge requires? True for every
    /// store the library built or extended.
    pub fn shape_ok(&self) -> (r: bool)
        ensures
            r == store_shape(self@),
    {
        if self.capacity < 1 {
            return false;
        }
        let mut g: usize = 0;
        while g < self.groups.len()
            invariant
                0 <= g <= self.groups@.len(),
                self@.capacity >= 1,
                forall|q: int| 0 <= q < g ==> group_shape(#[trigger] self@.groups[q], self@.capacity),
            decreases self.groups.len() - g,
        {
            let ncomp = self.groups[g].schema.components.len();
            let mut b: usize = 0;
            while b < self.groups[g].buckets.len()
                invariant
                    0 <= g < self.groups@.len(),
                    0 <= b <= self@.groups[g as int].buckets.len(),
                    ncomp as int == self@.groups[g as int].schema.components.len(),
                    forall|q: int| 0 <= q < b ==> bucket_shape(
                        #[trigger] self@.groups[g as int].buckets[q],
                        self@.groups[g as int].schema.components.len(),
                        self@.capacity,
                    ),
                decreases self.groups[g as int].buckets.len() - b,
            {
                let mut i: usize = 0;
                while i < self.groups[g].buckets[b].blocks.len()
                    invariant
                        0 <= g < self.groups@.len(),
                        0 <= b < self@.groups[g as int].buckets.len(),
                        0 <= i <= self@.groups[g as int].buckets[b as int].blocks.len(),
                        ncomp as int == self@.groups[g as int].schema.components.len(),
                        forall|q: int| 0 <= q < i ==> (#[trigger] self@.groups[g as int].buckets[
                            b as int].blocks[q]).rows.len() <= self@.capacity && self@.groups[
                            g as int].buckets[b as int].blocks[q].columns.len()
                            == self@.groups[g as int].schema.components.len(),
                    decreases self.groups[g as int].buckets[b as int].blocks.len() - i,
                {
                    proof {
                        assert(self@.groups[g as int] == self.groups@[g as int]@);
                        assert(self@.groups[g as int].buckets[b as int] == self.groups@[
                            g as int].buckets@[b as int]@);
                        assert(self@.groups[g as int].buckets[b as int].blocks[i as int]
                            == self.groups@[g as int].buckets@[b as int].blocks@[i as int]@);
                    }
                    let blk = &self.groups[g].buckets[b].blocks[i];
                    if blk.rows.len() > self.capacity || blk.columns.len() != ncomp {
                        return false;
                    }
                    i += 1;
                }
                b += 1;
            }
            g += 1;
        }
        true
    }
}

impl crate::store::Group {
    /// Merge one block record into the bucket at `bidx`: decode order is
    /// `rows` then `components`; every component's runs are checked
    /// against the row count before any block is touched, so a rejected
    /// record leaves the group exactly as it was.
    pub fn merge_block_record(&mut self, cap: usize, bidx: usize, rec: &BlockRecord) -> (r: Result<
        (),
        MergeError,
    >)
        requires
            cap >= 1,
            bidx < old(self)@.buckets.len(),
            bucket_shape(
                old(self)@.buckets[bidx as int],
                old(self)@.schema.components.len(),
                cap as nat,
            ),
        ensures
            final(self)@.schema == old(self)@.schema,
            final(self)@.buckets.len() == old(self)@.buckets.len(),
            match r {
                Ok(()) => ({
                    let res = merge_block_spec(
                        old(self)@.buckets[bidx as int],
                        old(self)@.schema,
                        cap as nat,
                        rec.deep_view(),
                    );
                    &&& res is Ok
                    &&& final(self)@ == (GroupModel {
                        schema: old(self)@.schema,
                        buckets: old(self)@.buckets.update(bidx as int, res.unwrap()),
                    })
                    &&& bucket_shape(res.unwrap(), old(self)@.schema.components.len(), cap as nat)
                }),
                Err(e) => merge_block_spec(
                    old(self)@.buckets[bidx as int],
                    old(self)@.schema,
                    cap as nat,
                    rec.deep_view(),
                ) == Err::<BucketModel, MergeError>(e) && final(self)@ == old(self)@,
            },
    {
        let ghost g0 = self@;
        let ghost bk0 = self@.buckets[bidx as int];
        let ghost schema_m = self@.schema;
        let ghost rec_m = rec.deep_view();
        let ghost ncomp_m = schema_m.components.len();
        if rec.fields.len() != 2 {
            proof {
                assert(block_record_parts(rec_m) is None);
            }
            return Err(MergeError::Format);
        }
        proof {
            assert(rec_m[0] == rec.fields@[0]@);
            assert(rec_m[1] == rec.fields@[1]@);
        }
        match (&rec.fields[0], &rec.fields[1]) {
            (crate::records::BlockField::Rows(ids), crate::records::BlockField::Components(
                comps,
            )) => {
                let ghost ids_m = ids@;
                let ghost comps_m = comps.deep_view();
                proof {
                    assert(rec_m[0] == BlockFieldModel::Rows(ids_m));
                    assert(rec_m[1] == BlockFieldModel::Components(comps_m));
                    assert(block_record_parts(rec_m) == Some((ids_m, comps_m)));
                }
                let ncomp = self.schema.components.len();
                if comps.len() != ncomp {
                    return Err(MergeError::Format);
                }
                // check every component's runs before touching the store
                let m = ids.len();
                let mut c: usize = 0;
                while c < ncomp
                    invariant
                        0 <= c <= ncomp,
                        self@ == g0,
                        ncomp as nat == ncomp_m,
                        schema_m == g0.schema,
                        ncomp_m == schema_m.components.len(),
                        self.schema.components@.len() == ncomp as int,
                        comps_m == comps.deep_view(),
                        comps_m.len() == ncomp_m,
                        comps@.len() == ncomp as int,
                        ids_m == ids@,
                        m == ids@.len(),
                        rec_m == rec.deep_view(),
                        block_record_parts(rec_m) == Some((ids_m, comps_m)),
                        forall|q: int|
                            0 <= q < c ==> comp_data_ok(
                                #[trigger] comps_m[q],
                                schema_m.components[q].size,
                                m as int,
                            ),
                    decreases ncomp - c,
                {
                    proof {
                        assert(comps_m[c as int] == comps@[c as int]@);
                        assert(schema_m.components[c as int] == self.schema.components@[
                            c as int]@);
                    }
                    if !crate::scatter::check_component(
                        &comps[c],
                        self.schema.components[c].size,
                        m,
                    ) {
                        proof {
                            assert(!comp_data_ok(
                                comps_m[c as int],
                                schema_m.components[c as int].size,
                                m as int,
                            ));
                        }
                        return Err(MergeError::Mismatch);
                    }
                    c += 1;
                }
                proof {
                    assert(forall|q: int|
                        0 <= q < comps_m.len() ==> comp_data_ok(
                            #[trigger] comps_m[q],
                            schema_m.components[q].size,
                            ids_m.len() as int,
                        ));
                    assert(merge_block_spec(bk0, schema_m, cap as nat, rec_m) is Ok);
                }
                // pack the row identities, then scatter each column
                let ghost pack_r = pack_spec(bk0.blocks, ids_m, cap as nat, ncomp_m);
                proof {
                    crate::pack::lemma_pack_spec_props(bk0.blocks, ids_m, cap as nat, ncomp_m);
                    assert(self@.buckets[bidx as int] == bk0);
                    assert(self.buckets@[bidx as int]@ == bk0);
                    assert(self.buckets@[bidx as int].blocks.deep_view() == bk0.blocks);
                }
                let ranges = crate::pack::pack_rows(&mut self.buckets[bidx].blocks, ids, cap, ncomp);
                let ghost rsm = ranges@.map_values(|p: (usize, usize)| (p.0 as int, p.1 as int));
                proof {
                    assert(self@.buckets =~~= g0.buckets.update(
                        bidx as int,
                        BucketModel { keys: bk0.keys, blocks: pack_r.0 },
                    ));
                    assert(rsm == pack_r.1);
                    let fb = crate::pack::first_pack_block(bk0.blocks, cap as nat);
                    assert(scatter_upto(pack_r.0, schema_m, comps_m, rsm, 0) == pack_r.0);
                    if ids_m.len() == 0 {
                        assert(pack_r.0 == bk0.blocks);
                        assert(rsm.len() == 0);
                        assert(ranges_total(rsm) == 0);
                    }
                    assert forall|i: int|
                        0 <= i < pack_r.0.len() implies (#[trigger] pack_r.0[i]).columns.len()
                            == ncomp_m && pack_r.0[i].rows.len() <= cap as nat by {
                        if ids_m.len() == 0 {
                            assert(pack_r.0[i] == bk0.blocks[i]);
                        } else if i < fb {
                            assert(pack_r.0[i] == bk0.blocks[i]);
                        } else {
                            let r = i - fb;
                            assert(pack_r.0[fb + r].columns == crate::pack::cols_at(
                                bk0.blocks,
                                fb + r,
                                ncomp_m,
                            ));
                            assert(pack_r.0[fb + r].rows.len() <= cap as nat);
                            if fb + r < bk0.blocks.len() {
                                assert(bk0.blocks[fb + r].columns.len() == ncomp_m);
                            }
                        }
                    }
                    assert forall|q: int| 0 <= q < rsm.len() implies 0 <= (#[trigger] rsm[q]).0
                        < pack_r.0.len() by {
                        assert(rsm[q].0 == crate::pack::first_pack_block(bk0.blocks, cap as nat)
                            + q);
                    }
                    assert forall|q1: int, q2: int|
                        0 <= q1 < q2 < rsm.len() implies rsm[q1].0 < rsm[q2].0 by {
                        assert(rsm[q1].0 == fb + q1);
                        assert(rsm[q2].0 == fb + q2);
                    }
                    if ids_m.len() > 0 {
                        assert(ranges_total(rsm) == m as int);
                    }
                }
                let mut c2: usize = 0;
                while c2 < ncomp
                    invariant
                        0 <= c2 <= ncomp,
                        cap >= 1,
                        (bidx as int) < g0.buckets.len(),
                        self.buckets@.len() == g0.buckets.len(),
                        ncomp as nat == ncomp_m,
                        schema_m == g0.schema,
                        ncomp_m == schema_m.components.len(),
                        self.schema.components@.len() == ncomp as int,
                        comps_m == comps.deep_view(),
                        comps_m.len() == ncomp_m,
                        comps@.len() == ncomp as int,
                        ids_m == ids@,
                        m == ids@.len(),
                        self@.schema == schema_m,
                        rsm == ranges@.map_values(|p: (usize, usize)| (p.0 as int, p.1 as int)),
                        rsm == pack_r.1,
                        pack_r == pack_spec(bk0.blocks, ids_m, cap as nat, ncomp_m),
                        forall|q: int|
                            0 <= q < comps_m.len() ==> comp_data_ok(
                                #[trigger] comps_m[q],
                                schema_m.components[q].size,
                                m as int,
                            ),
                        self@.buckets =~~= g0.buckets.update(
                            bidx as int,
                            BucketModel {
                                keys: bk0.keys,
                                blocks: scatter_upto(pack_r.0, schema_m, comps_m, rsm, c2 as int),
                            },
                        ),
                        forall|i: int|
                            0 <= i < scatter_upto(pack_r.0, schema_m, comps_m, rsm, c2 as int).len()
                                ==> (#[trigger] scatter_upto(
                                pack_r.0,
                                schema_m,
                                comps_m,
                                rsm,
                                c2 as int,
                            )[i]).columns.len() == ncomp_m && scatter_upto(
                                pack_r.0,
                                schema_m,
                                comps_m,
                                rsm,
                                c2 as int,
                            )[i].rows.len() <= cap as nat,
                        scatter_upto(pack_r.0, schema_m, comps_m, rsm, c2 as int).len()
                            == pack_r.0.len(),
                        forall|q: int| 0 <= q < rsm.len() ==> 0 <= (#[trigger] rsm[q]).0
                            < pack_r.0.len(),
                        forall|q1: int, q2: int| 0 <= q1 < q2 < rsm.len() ==> rsm[q1].0
                            < rsm[q2].0,
                        ranges_total(rsm) == m as int,
                    decreases ncomp - c2,
                {
                    let ghost pre_blocks = scatter_upto(pack_r.0, schema_m, comps_m, rsm, c2 as int);
                    proof {
                        assert(schema_m.components[c2 as int] == self.schema.components@[
                            c2 as int]@);
                        assert(comps_m[c2 as int] == comps@[c2 as int]@);
                        crate::scatter::lemma_runs_bytes_len(
                            comps_m[c2 as int],
                            schema_m.components[c2 as int].size,
                        );
                        assert(self@.buckets[bidx as int] == BucketModel {
                            keys: bk0.keys,
                            blocks: pre_blocks,
                        });
                        assert(self.buckets@[bidx as int]@.blocks == pre_blocks);
                        assert(self.buckets@[bidx as int].blocks.deep_view() == pre_blocks);
                    }
                    let ghost pre_bvec = self.buckets@;
                    let size_c = self.schema.components[c2].size;
                    let res = crate::scatter::scatter_component(
                        &mut self.buckets[bidx].blocks,
                        c2,
                        size_c,
                        &comps[c2],
                        &ranges,
                        m,
                    );
                    proof {
                        crate::scatter::lemma_scatter_spec_props(
                            pre_blocks,
                            c2 as int,
                            schema_m.components[c2 as int].size,
                            runs_bytes(comps_m[c2 as int]),
                            rsm,
                        );
                    }
                    match res {
                        Ok(()) => {
                            proof {
                                let next_blocks = scatter_spec(
                                    pre_blocks,
                                    c2 as int,
                                    schema_m.components[c2 as int].size,
                                    runs_bytes(comps_m[c2 as int]),
                                    rsm,
                                );
                                assert(scatter_upto(pack_r.0, schema_m, comps_m, rsm, c2 + 1)
                                    == next_blocks);
                                assert(self.buckets@[bidx as int].blocks.deep_view()
                                    == next_blocks);
                                assert(self.buckets@[bidx as int].keys
                                    == pre_bvec[bidx as int].keys);
                                assert(pre_bvec[bidx as int].keys.deep_view() == bk0.keys);
                                assert(self.buckets@[bidx as int]@ == BucketModel {
                                    keys: bk0.keys,
                                    blocks: next_blocks,
                                });
                                let target = g0.buckets.update(
                                    bidx as int,
                                    BucketModel { keys: bk0.keys, blocks: next_blocks },
                                );
                                assert forall|i: int|
                                    0 <= i < self.buckets@.len() implies self.buckets.deep_view()[
                                    i] == target[i] by {
                                    assert(self.buckets.deep_view()[i] == self.buckets@[
                                        i].deep_view());
                                    if i == bidx as int {
                                    } else {
                                        assert(self.buckets@[i] == pre_bvec[i]);
                                        assert(pre_bvec[i].deep_view() == g0.buckets.update(
                                            bidx as int,
                                            BucketModel { keys: bk0.keys, blocks: pre_blocks },
                                        )[i]);
                                    }
                                }
                                assert(self@.buckets =~~= target);
                            }
                        },
                        Err(_) => {
                            proof {
                                assert(comp_data_ok(
                                    comps_m[c2 as int],
                                    schema_m.components[c2 as int].size,
                                    m as int,
                                ));
                                assert(false);
                            }
                        },
                    }
                    c2 += 1;
                }
                proof {
                    let res = merge_block_spec(bk0, schema_m, cap as nat, rec_m);
                    assert(res.unwrap() == BucketModel {
                        keys: bk0.keys,
                        blocks: scatter_upto(pack_r.0, schema_m, comps_m, rsm, ncomp_m as int),
                    });
                    assert(self@ =~~= GroupModel {
                        schema: schema_m,
                        buckets: g0.buckets.update(bidx as int, res.unwrap()),
                    });
                }
                Ok(())
            },
            _ => {
                proof {
                    assert(block_record_parts(rec_m) is None);
                }
                Err(MergeError::Format)
            },
        }
    }
}

impl crate::store::Group {
    /// Merge one incoming key row's block list into its bucket, record by
    /// record, stopping at the first failure.
    pub fn merge_block_list(&mut self, cap: usize, bidx: usize, list: &BlockList) -> (r: Result<
        (),
        MergeError,
    >)
        requires
            cap >= 1,
            bidx < old(self)@.buckets.len(),
            group_shape(old(self)@, cap as nat),
        ensures
            final(self)@.schema == old(self)@.schema,
            final(self)@.buckets.len() == old(self)@.buckets.len(),
            group_shape(final(self)@, cap as nat),
            final(self)@ == merge_list_state(old(self)@, cap as nat, bidx as int, list.deep_view()),
            match r {
                Ok(()) => merge_list_spec(old(self)@, cap as nat, bidx as int, list.deep_view())
                    == Ok::<GroupModel, MergeError>(final(self)@),
                Err(e) => merge_list_spec(old(self)@, cap as nat, bidx as int, list.deep_view())
                    == Err::<GroupModel, MergeError>(e),
            },
    {
        let ghost g0 = self@;
        let ghost list_m = list.deep_view();
        let mut i: usize = 0;
        proof {
            assert(list_m.take(0) =~= Seq::<Seq<BlockFieldModel>>::empty());
        }
        while i < list.records.len()
            invariant
                0 <= i <= list.records@.len(),
                cap >= 1,
                g0 == old(self)@,
                (bidx as int) < g0.buckets.len(),
                list_m == list.deep_view(),
                list_m.len() == list.records@.len(),
                merge_list_spec(g0, cap as nat, bidx as int, list_m.take(i as int)) == Ok::<
                    GroupModel,
                    MergeError,
                >(self@),
                self@.schema == g0.schema,
                self@.buckets.len() == g0.buckets.len(),
                group_shape(self@, cap as nat),
            decreases list.records.len() - i,
        {
            let ghost pre = self@;
            proof {
                assert(list_m[i as int] == list.records@[i as int]@);
                assert(bucket_shape(
                    pre.buckets[bidx as int],
                    pre.schema.components.len(),
                    cap as nat,
                ));
            }
            let res = self.merge_block_record(cap, bidx, &list.records[i]);
            proof {
                assert(list.records@[i as int].deep_view() == list_m[i as int]);
                assert(list_m.take(i + 1).drop_last() =~= list_m.take(i as int));
                assert(list_m.take(i + 1).last() == list_m[i as int]);
            }
            match res {
                Ok(()) => {
                    proof {
                        let step = merge_block_spec(
                            pre.buckets[bidx as int],
                            pre.schema,
                            cap as nat,
                            list_m[i as int],
                        );
                        assert(step is Ok);
                        assert(self@ == GroupModel {
                            schema: pre.schema,
                            buckets: pre.buckets.update(bidx as int, step.unwrap()),
                        });
                        assert(merge_list_spec(g0, cap as nat, bidx as int, list_m.take(i + 1))
                            == Ok::<GroupModel, MergeError>(self@));
                        assert forall|b: int|
                            0 <= b < self@.buckets.len() implies bucket_shape(
                            #[trigger] self@.buckets[b],
                            self@.schema.components.len(),
                            cap as nat,
                        ) by {
                            if b != bidx as int {
                                assert(self@.buckets[b] == pre.buckets[b]);
                            }
                        }
                    }
                },
                Err(e) => {
                    proof {
                        assert(merge_list_spec(g0, cap as nat, bidx as int, list_m.take(i + 1))
                            == Err::<GroupModel, MergeError>(e));
                        lemma_merge_list_prefix_err(
                            g0,
                            cap as nat,
                            bidx as int,
                            list_m,
                            i + 1,
                        );
                        // the failing record contributed nothing, so the
                        // state is the one the successful prefix built
                        lemma_merge_list_state_ok(
                            g0,
                            cap as nat,
                            bidx as int,
                            list_m.take(i as int),
                        );
                        assert(merge_list_state(g0, cap as nat, bidx as int, list_m.take(i + 1))
                            == self@);
                        lemma_merge_list_state_prefix_err(
                            g0,
                            cap as nat,
                            bidx as int,
                            list_m,
                            i + 1,
                        );
                    }
                    return Err(e);
                },
            }
            i += 1;
        }
        proof {
            assert(list_m.take(list_m.len() as int) =~= list_m);
            lemma_merge_list_state_ok(g0, cap as nat, bidx as int, list_m);
        }
        Ok(())
    }
}

impl Store {
    /// Merge one group record: resolve its schema to a group, route its
    /// key rows to buckets, then merge one block list per incoming key
    /// row. The three fields must arrive as `schema`, `keys`, `buckets`,
    /// in that order and nothing else.
    pub fn merge_group_record(&mut self, rec: &GroupRecord) -> (r: Result<(), MergeError>)
        requires
            store_shape(old(self)@),
        ensures
            store_shape(final(self)@),
            final(self)@.capacity == old(self)@.capacity,
            final(self)@ == merge_group_state(old(self)@, rec.deep_view()),
            match r {
                Ok(()) => merge_group_spec(old(self)@, rec.deep_view()) == Ok::<
                    StoreModel,
                    MergeError,
                >(final(self)@),
                Err(e) => merge_group_spec(old(self)@, rec.deep_view()) == Err::<
                    StoreModel,
                    MergeError,
                >(e),
            },
    {
        let ghost s0 = self@;
        let ghost rec_m = rec.deep_view();
        if rec.fields.len() != 3 {
            return Err(MergeError::Format);
        }
        proof {
            assert(rec_m[0] == rec.fields@[0]@);
            assert(rec_m[1] == rec.fields@[1]@);
            assert(rec_m[2] == rec.fields@[2]@);
        }
        match (&rec.fields[0], &rec.fields[1], &rec.fields[2]) {
            (
                crate::records::GroupField::Schema(desc),
                crate::records::GroupField::Keys(cols),
                crate::records::GroupField::Buckets(lists),
            ) => {
                let ghost desc_m = desc@;
                let ghost cols_m = cols.deep_view();
                let ghost lists_m = lists.deep_view();
                proof {
                    assert(rec_m[0] == GroupFieldModel::Schema(desc_m));
                    assert(rec_m[1] == GroupFieldModel::Keys(cols_m));
                    assert(rec_m[2] == GroupFieldModel::Buckets(lists_m));
                }
                let gidx = self.resolve_group(desc);
                let ghost groups2 = self@.groups;
                proof {
                    assert((groups2, gidx as int) == resolve_spec(s0.groups, desc_m));
                    assert forall|g: int| 0 <= g < groups2.len() implies group_shape(
                        #[trigger] groups2[g],
                        s0.capacity,
                    ) by {
                        if g < s0.groups.len() {
                            assert(groups2[g] == s0.groups[g]);
                        } else {
                            assert(groups2[g].buckets.len() == 0);
                        }
                    }
                }
                let r_keys = self.groups[gidx].match_key_rows(cols);
                match r_keys {
                    Err(e) => {
                        proof {
                            assert(merge_keys_spec(groups2[gidx as int], cols_m) == Err::<
                                (GroupModel, Seq<int>),
                                MergeError,
                            >(e));
                            assert(self@.groups =~= groups2);
                            assert(self@ =~~= StoreModel {
                                capacity: s0.capacity,
                                groups: groups2,
                            });
                        }
                        Err(e)
                    },
                    Ok(mapping) => {
                        let ghost g2_m = self.groups@[gidx as int]@;
                        let ghost mapping_m = mapping@.map_values(|x: usize| x as int);
                        proof {
                            assert(merge_keys_spec(groups2[gidx as int], cols_m) == Ok::<
                                (GroupModel, Seq<int>),
                                MergeError,
                            >((g2_m, mapping_m)));
                            assert(self@.groups =~= groups2.update(gidx as int, g2_m));
                            // routing only appends fresh empty buckets
                            crate::keys::lemma_match_rows_props(
                                groups2[gidx as int].buckets,
                                crate::keys::incoming_rows(cols_m),
                            );
                            assert(group_shape(g2_m, s0.capacity)) by {
                                let old_g = groups2[gidx as int];
                                assert forall|b: int|
                                    0 <= b < g2_m.buckets.len() implies bucket_shape(
                                    #[trigger] g2_m.buckets[b],
                                    g2_m.schema.components.len(),
                                    s0.capacity,
                                ) by {
                                    if b < old_g.buckets.len() {
                                        assert(g2_m.buckets[b] == old_g.buckets[b]);
                                        assert(group_shape(old_g, s0.capacity));
                                    } else {
                                        assert(g2_m.buckets[b].blocks.len() == 0);
                                    }
                                }
                            }
                            assert forall|q: int|
                                0 <= q < mapping_m.len() implies 0 <= #[trigger] mapping_m[q]
                                    < g2_m.buckets.len() by {
                                assert(mapping_m[q] == mapping@[q] as int);
                            }
                        }
                        if lists.len() != mapping.len() {
                            proof {
                                assert(self@ =~~= StoreModel {
                                    capacity: s0.capacity,
                                    groups: groups2.update(gidx as int, g2_m),
                                });
                            }
                            return Err(MergeError::Format);
                        }
                        let cap = self.capacity;
                        let ghost capn = self@.capacity;
                        let mut i: usize = 0;
                        while i < lists.len()
                            invariant
                                0 <= i <= lists@.len(),
                                cap as nat == capn,
                                capn == s0.capacity,
                                cap >= 1,
                                s0 == old(self)@,
                                rec_m == rec.deep_view(),
                                rec_m.len() == 3,
                                rec_m[0] == GroupFieldModel::Schema(desc_m),
                                rec_m[1] == GroupFieldModel::Keys(cols_m),
                                rec_m[2] == GroupFieldModel::Buckets(lists_m),
                                (groups2, gidx as int) == resolve_spec(s0.groups, desc_m),
                                merge_keys_spec(groups2[gidx as int], cols_m) == Ok::<
                                    (GroupModel, Seq<int>),
                                    MergeError,
                                >((g2_m, mapping_m)),
                                self@.capacity == capn,
                                (gidx as int) < groups2.len(),
                                self.groups@.len() == groups2.len(),
                                lists_m == lists.deep_view(),
                                lists_m.len() == lists@.len(),
                                mapping_m == mapping@.map_values(|x: usize| x as int),
                                mapping@.len() == lists@.len(),
                                mapping_m.len() == lists_m.len(),
                                forall|q: int|
                                    0 <= q < mapping_m.len() ==> 0 <= #[trigger] mapping_m[q]
                                        < g2_m.buckets.len(),
                                forall|g: int| 0 <= g < groups2.len() ==> group_shape(
                                    #[trigger] groups2[g],
                                    capn,
                                ),
                                merge_lists_upto(g2_m, capn, mapping_m, lists_m, i as int) == Ok::<
                                    GroupModel,
                                    MergeError,
                                >(self@.groups[gidx as int]),
                                self@.groups == groups2.update(
                                    gidx as int,
                                    self@.groups[gidx as int],
                                ),
                                self@.groups[gidx as int].buckets.len() == g2_m.buckets.len(),
                                group_shape(self@.groups[gidx as int], capn),
                            decreases lists.len() - i,
                        {
                            let ghost cur_g = self@.groups[gidx as int];
                            let ghost pre_vec = self.groups@;
                            let bidx = mapping[i];
                            proof {
                                assert(mapping_m[i as int] == mapping@[i as int] as int);
                                assert(lists_m[i as int] == lists@[i as int]@);
                            }
                            let res = self.groups[gidx].merge_block_list(cap, bidx, &lists[i]);
                            proof {
                                assert(lists@[i as int].deep_view() == lists_m[i as int]);
                                assert(self.groups@ =~= pre_vec.update(
                                    gidx as int,
                                    self.groups@[gidx as int],
                                ));
                                assert forall|q: int|
                                    0 <= q < self.groups@.len() implies self.groups.deep_view()[q]
                                        == groups2.update(
                                        gidx as int,
                                        self@.groups[gidx as int],
                                    )[q] by {
                                    assert(self.groups.deep_view()[q] == self.groups@[
                                        q].deep_view());
                                    if q != gidx as int {
                                        assert(self.groups@[q] == pre_vec[q]);
                                        assert(pre_vec[q].deep_view() == groups2.update(
                                            gidx as int,
                                            cur_g,
                                        )[q]);
                                    }
                                }
                                assert(self@.groups =~= groups2.update(
                                    gidx as int,
                                    self@.groups[gidx as int],
                                ));
                            }
                            match res {
                                Ok(()) => {
                                    proof {
                                        let step = merge_list_spec(
                                            cur_g,
                                            capn,
                                            bidx as int,
                                            lists_m[i as int],
                                        );
                                        assert(step == Ok::<GroupModel, MergeError>(
                                            self@.groups[gidx as int],
                                        ));
                                        assert(merge_lists_upto(
                                            g2_m,
                                            capn,
                                            mapping_m,
                                            lists_m,
                                            i + 1,
                                        ) == Ok::<GroupModel, MergeError>(
                                            self@.groups[gidx as int],
                                        ));
                                        assert(self@.groups =~= groups2.update(
                                            gidx as int,
                                            self@.groups[gidx as int],
                                        ));
                                    }
                                },
                                Err(e) => {
                                    proof {
                                        assert(merge_lists_upto(
                                            g2_m,
                                            capn,
                                            mapping_m,
                                            lists_m,
                                            i + 1,
                                        ) == Err::<GroupModel, MergeError>(e));
                                        lemma_merge_lists_prefix_err(
                                            g2_m,
                                            capn,
                                            mapping_m,
                                            lists_m,
                                            i + 1,
                                            mapping_m.len() as int,
                                        );
                                        assert(merge_group_spec(s0, rec_m) == Err::<
                                            StoreModel,
                                            MergeError,
                                        >(e));
                                        assert(self@.groups =~= groups2.update(
                                            gidx as int,
                                            self@.groups[gidx as int],
                                        ));
                                        assert(store_shape(self@));
                                        // the state is the one the successful
                                        // key rows and block lists built
                                        lemma_merge_lists_state_ok(
                                            g2_m,
                                            capn,
                                            mapping_m,
                                            lists_m,
                                            i as int,
                                        );
                                        assert(merge_lists_state(
                                            g2_m,
                                            capn,
                                            mapping_m,
                                            lists_m,
                                            i as int,
                                        ) == cur_g);
                                        assert(merge_lists_state(
                                            g2_m,
                                            capn,
                                            mapping_m,
                                            lists_m,
                                            i + 1,
                                        ) == self@.groups[gidx as int]);
                                        lemma_merge_lists_state_prefix_err(
                                            g2_m,
                                            capn,
                                            mapping_m,
                                            lists_m,
                                            i + 1,
                                            mapping_m.len() as int,
                                        );
                                        assert(self@ =~~= StoreModel {
                                            capacity: s0.capacity,
                                            groups: groups2.update(
                                                gidx as int,
                                                merge_lists_state(
                                                    g2_m,
                                                    capn,
                                                    mapping_m,
                                                    lists_m,
                                                    mapping_m.len() as int,
                                                ),
                                            ),
                                        });
                                    }
                                    return Err(e);
                                },
                            }
                            i += 1;
                        }
                        proof {
                            assert(merge_lists_upto(
                                g2_m,
                                capn,
                                mapping_m,
                                lists_m,
                                mapping_m.len() as int,
                            ) == Ok::<GroupModel, MergeError>(self@.groups[gidx as int]));
                            assert(self@ =~~= StoreModel {
                                capacity: s0.capacity,
                                groups: groups2.update(gidx as int, self@.groups[gidx as int]),
                            });
                            assert(merge_group_spec(s0, rec_m) == Ok::<StoreModel, MergeError>(
                                self@,
                            ));
                            assert(store_shape(self@));
                            lemma_merge_group_state_ok(s0, rec_m);
                        }
                        Ok(())
                    },
                }
            },
            _ => Err(MergeError::Format),
        }
    }

    /// Merge a whole decoded stream of group records into the live store,
    /// in one forward pass, stopping at the first failure. On failure the
    /// records before the failing one remain merged: there is no rollback.
    pub fn merge(&mut self, records: &Vec<GroupRecord>) -> (r: Result<(), MergeError>)
        requires
            store_shape(old(self)@),
        ensures
            store_shape(final(self)@),
            final(self)@.capacity == old(self)@.capacity,
            final(self)@ == merge_state_spec(old(self)@, records.deep_view()),
            crate::store::store_wf(old(self)@) && r is Ok ==> crate::store::store_wf(
                final(self)@,
            ),
            match r {
                Ok(()) => merge_spec(old(self)@, records.deep_view()) == Ok::<
                    StoreModel,
                    MergeError,
                >(final(self)@),
                Err(e) => merge_spec(old(self)@, records.deep_view()) == Err::<
                    StoreModel,
                    MergeError,
                >(e),
            },
    {
        let ghost s0 = self@;
        let ghost records_m = records.deep_view();
        let mut i: usize = 0;
        proof {
            assert(records_m.take(0) =~= Seq::<Seq<GroupFieldModel>>::empty());
        }
        while i < records.len()
            invariant
                0 <= i <= records@.len(),
                s0 == old(self)@,
                records_m == records.deep_view(),
                records_m.len() == records@.len(),
                merge_spec(s0, records_m.take(i as int)) == Ok::<StoreModel, MergeError>(self@),
                self@.capacity == s0.capacity,
                store_shape(self@),
            decreases records.len() - i,
        {
            let ghost pre = self@;
            proof {
                assert(records_m[i as int] == records@[i as int]@);
            }
            let res = self.merge_group_record(&records[i]);
            proof {
                assert(records@[i as int].deep_view() == records_m[i as int]);
                assert(records_m.take(i + 1).drop_last() =~= records_m.take(i as int));
                assert(records_m.take(i + 1).last() == records_m[i as int]);
            }
            match res {
                Ok(()) => {},
                Err(e) => {
                    proof {
                        assert(merge_spec(s0, records_m.take(i + 1)) == Err::<
                            StoreModel,
                            MergeError,
                        >(e));
                        lemma_merge_spec_prefix_err(s0, records_m, i + 1);
                        // the state is the successfully merged prefix plus
                        // the failing record's own successful phases
                        lemma_merge_state_ok(s0, records_m.take(i as int));
                        assert(merge_state_spec(s0, records_m.take(i as int)) == pre);
                        assert(merge_state_spec(s0, records_m.take(i + 1)) == merge_group_state(
                            pre,
                            records_m[i as int],
                        ));
                        assert(merge_state_spec(s0, records_m.take(i + 1)) == self@);
                        lemma_merge_state_prefix_err(s0, records_m, i + 1);
                    }
                    return Err(e);
                },
            }
            i += 1;
        }
        proof {
            assert(records_m.take(records_m.len() as int) =~= records_m);
            lemma_merge_state_ok(s0, records_m);
            if crate::store::store_wf(s0) {
                crate::laws::law_merge_preserves_wf(s0, records_m);
            }
        }
        Ok(())
    }
}

/// The group state a block-list merge leaves behind, whether it succeeds
/// or stops at the first bad record: records before the failure stay
/// merged, the failing record and everything after it contribute nothing.
pub open spec fn merge_list_state(
    g: GroupModel,
    cap: nat,
    bidx: int,
    list: Seq<Seq<BlockFieldModel>>,
) -> GroupModel
    decreases list.len(),
{
    if list.len() == 0 {
        g
    } else {
        let g2 = merge_list_state(g, cap, bidx, list.drop_last());
        if merge_list_spec(g, cap, bidx, list.drop_last()) is Err {
            g2
        } else if !(0 <= bidx < g2.buckets.len()) {
            g2
        } else {
            match merge_block_spec(g2.buckets[bidx], g2.schema, cap, list.last()) {
                Err(_) => g2,
                Ok(bk) => GroupModel { schema: g2.schema, buckets: g2.buckets.update(bidx, bk) },
            }
        }
    }
}

/// The group state after merging the block lists of the first `n` key
/// rows, stopping at the first failure.
pub open spec fn merge_lists_state(
    g: GroupModel,
    cap: nat,
    mapping: Seq<int>,
    lists: Seq<Seq<Seq<BlockFieldModel>>>,
    n: int,
) -> GroupModel
    decreases n,
{
    if n <= 0 {
        g
    } else {
        let g2 = merge_lists_state(g, cap, mapping, lists, n - 1);
        if merge_lists_upto(g, cap, mapping, lists, n - 1) is Err {
            g2
        } else {
            merge_list_state(g2, cap, mapping[n - 1], lists[n - 1])
        }
    }
}

/// The store state one group record leaves behind: a malformed record
/// touches nothing; after that, each phase keeps what the phases before
/// it built — a resolved group survives a key failure, routed buckets
/// survive a block-list failure.
pub open spec fn merge_group_state(s: StoreModel, rec: Seq<GroupFieldModel>) -> StoreModel {
    if rec.len() != 3 {
        s
    } else {
        match (rec[0], rec[1], rec[2]) {
            (
                GroupFieldModel::Schema(desc),
                GroupFieldModel::Keys(cols),
                GroupFieldModel::Buckets(lists),
            ) => {
                let (groups2, gi) = resolve_spec(s.groups, desc);
                match merge_keys_spec(groups2[gi], cols) {
                    Err(_) => StoreModel { capacity: s.capacity, groups: groups2 },
                    Ok((g2, mapping)) => {
                        if lists.len() != mapping.len() {
                            StoreModel { capacity: s.capacity, groups: groups2.update(gi, g2) }
                        } else {
                            StoreModel {
                                capacity: s.capacity,
                                groups: groups2.update(
                                    gi,
                                    merge_lists_state(
                                        g2,
                                        s.capacity,
                                        mapping,
                                        lists,
                                        mapping.len() as int,
                                    ),
                                ),
                            }
                        }
                    },
                }
            },
            _ => s,
        }
    }
}

/// The store state a whole merge leaves behind: exactly the records
/// before the first failure, plus the failing record's own successful
/// phases. The final store is a function of the old store and the stream
/// alone.
pub open spec fn merge_state_spec(s: StoreModel, records: Seq<Seq<GroupFieldModel>>) -> StoreModel
    decreases records.len(),
{
    if records.len() == 0 {
        s
    } else {
        let s2 = merge_state_spec(s, records.drop_last());
        if merge_spec(s, records.drop_last()) is Err {
            s2
        } else {
            merge_group_state(s2, records.last())
        }
    }
}

/// On success, the state a merge leaves behind is the success state.
pub proof fn lemma_merge_list_state_ok(
    g: GroupModel,
    cap: nat,
    bidx: int,
    list: Seq<Seq<BlockFieldModel>>,
)
    requires
        merge_list_spec(g, cap, bidx, list) is Ok,
    ensures
        merge_list_state(g, cap, bidx, list) == merge_list_spec(g, cap, bidx, list).unwrap(),
    decreases list.len(),
{
    if list.len() > 0 {
        lemma_merge_list_state_ok(g, cap, bidx, list.drop_last());
    }
}

pub proof fn lemma_merge_lists_state_ok(
    g: GroupModel,
    cap: nat,
    mapping: Seq<int>,
    lists: Seq<Seq<Seq<BlockFieldModel>>>,
    n: int,
)
    requires
        merge_lists_upto(g, cap, mapping, lists, n) is Ok,
    ensures
        merge_lists_state(g, cap, mapping, lists, n) == merge_lists_upto(
            g,
            cap,
            mapping,
            lists,
            n,
        ).unwrap(),
    decreases n,
{
    if n > 0 {
        lemma_merge_lists_state_ok(g, cap, mapping, lists, n - 1);
        lemma_merge_list_state_ok(
            merge_lists_upto(g, cap, mapping, lists, n - 1).unwrap(),
            cap,
            mapping[n - 1],
            lists[n - 1],
        );
    }
}

pub proof fn lemma_merge_group_state_ok(s: StoreModel, rec: Seq<GroupFieldModel>)
    requires
        merge_group_spec(s, rec) is Ok,
    ensures
        merge_group_state(s, rec) == merge_group_spec(s, rec).unwrap(),
{
    let (groups2, gi) = resolve_spec(
        s.groups,
        match rec[0] {
            GroupFieldModel::Schema(d) => d,
            _ => arbitrary(),
        },
    );
    match rec[1] {
        GroupFieldModel::Keys(cols) => {
            let keyed = merge_keys_spec(groups2[gi], cols);
            let (g2, mapping) = keyed.unwrap();
            lemma_merge_lists_state_ok(g2, s.capacity, mapping, match rec[2] {
                GroupFieldModel::Buckets(l) => l,
                _ => arbitrary(),
            }, mapping.len() as int);
        },
        _ => {},
    }
}

pub proof fn lemma_merge_state_ok(s: StoreModel, records: Seq<Seq<GroupFieldModel>>)
    requires
        merge_spec(s, records) is Ok,
    ensures
        merge_state_spec(s, records) == merge_spec(s, records).unwrap(),
    decreases records.len(),
{
    if records.len() > 0 {
        lemma_merge_state_ok(s, records.drop_last());
        lemma_merge_group_state_ok(merge_spec(s, records.drop_last()).unwrap(), records.last());
    }
}

/// After a failed prefix, the rest of the input never changes the state.
pub proof fn lemma_merge_list_state_prefix_err(
    g: GroupModel,
    cap: nat,
    bidx: int,
    list: Seq<Seq<BlockFieldModel>>,
    i: int,
)
    requires
        0 <= i <= list.len(),
        merge_list_spec(g, cap, bidx, list.take(i)) is Err,
    ensures
        merge_list_state(g, cap, bidx, list) == merge_list_state(g, cap, bidx, list.take(i)),
    decreases list.len() - i,
{
    if i == list.len() {
        assert(list.take(i) =~= list);
    } else {
        assert(list.take(i + 1).drop_last() =~= list.take(i));
        lemma_merge_list_state_prefix_err(g, cap, bidx, list, i + 1);
    }
}

pub proof fn lemma_merge_lists_state_prefix_err(
    g: GroupModel,
    cap: nat,
    mapping: Seq<int>,
    lists: Seq<Seq<Seq<BlockFieldModel>>>,
    i: int,
    n: int,
)
    requires
        0 <= i <= n,
        merge_lists_upto(g, cap, mapping, lists, i) is Err,
    ensures
        merge_lists_state(g, cap, mapping, lists, n) == merge_lists_state(
            g,
            cap,
            mapping,
            lists,
            i,
        ),
    decreases n - i,
{
    if i < n {
        lemma_merge_lists_prefix_err(g, cap, mapping, lists, i, n - 1);
        lemma_merge_lists_state_prefix_err(g, cap, mapping, lists, i, n - 1);
    }
}

pub proof fn lemma_merge_state_prefix_err(
    s: StoreModel,
    records: Seq<Seq<GroupFieldModel>>,
    i: int,
)
    requires
        0 <= i <= records.len(),
        merge_spec(s, records.take(i)) is Err,
    ensures
        merge_state_spec(s, records) == merge_state_spec(s, records.take(i)),
    decreases records.len() - i,
{
    if i == records.len() {
        assert(records.take(i) =~= records);
    } else {
        assert(records.take(i + 1).drop_last() =~= records.take(i));
        lemma_merge_state_prefix_err(s, records, i + 1);
    }
}

/// A failed prefix decides the whole list: later records are not reached.
pub proof fn lemma_merge_list_prefix_err(
    g: GroupModel,
    cap: nat,
    bidx: int,
    list: Seq<Seq<BlockFieldModel>>,
    i: int,
)
    requires
        0 <= i <= list.len(),
        merge_list_spec(g, cap, bidx, list.take(i)) is Err,
    ensures
        merge_list_spec(g, cap, bidx, list) == merge_list_spec(g, cap, bidx, list.take(i)),
    decreases list.len() - i,
{
    if i == list.len() {
        assert(list.take(i) =~= list);
    } else {
        assert(list.take(i + 1).drop_last() =~= list.take(i));
        lemma_merge_list_prefix_err(g, cap, bidx, list, i + 1);
    }
}

pub proof fn lemma_merge_lists_prefix_err(
    g: GroupModel,
    cap: nat,
    mapping: Seq<int>,
    lists: Seq<Seq<Seq<BlockFieldModel>>>,
    i: int,
    n: int,
)
    requires
        0 <= i <= n,
        merge_lists_upto(g, cap, mapping, lists, i) is Err,
    ensures
        merge_lists_upto(g, cap, mapping, lists, n) == merge_lists_upto(g, cap, mapping, lists, i),
    decreases n - i,
{
    if i < n {
        lemma_merge_lists_prefix_err(g, cap, mapping, lists, i + 1, n);
    }
}

pub proof fn lemma_merge_spec_prefix_err(
    s: StoreModel,
    records: Seq<Seq<GroupFieldModel>>,
    i: int,
)
    requires
        0 <= i <= records.len(),
        merge_spec(s, records.take(i)) is Err,
    ensures
        merge_spec(s, records) == merge_spec(s, records.take(i)),
    decreases records.len() - i,
{
    if i == records.len() {
        assert(records.take(i) =~= records);
    } else {
        assert(records.take(i + 1).drop_last() =~= records.take(i));
        lemma_merge_spec_prefix_err(s, records, i + 1);
    }
}

} // verus!
