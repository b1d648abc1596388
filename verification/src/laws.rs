//! Laws of the merge, stated and proved over the same models the
//! executable functions are specified against.

use vstd::multiset::Multiset;
use vstd::prelude::*;

use crate::export::{
    export_block_comps, export_block_spec, export_bucket_spec, export_group_spec,
    export_key_cols_spec, export_spec,
};
use crate::keys::{
    find_bucket, incoming_rows, key_cols_same_len, key_cols_sizes_ok, lemma_find_bucket_is_first,
    match_rows_spec, match_step, merge_keys_spec,
};
use crate::pack::{first_pack_block, pack_spec, ranges_total};
use crate::records::{BlockFieldModel, GroupFieldModel, RunModel};
use crate::scatter::{comp_data_ok, run_ok, runs_bytes, runs_total, scatter_spec};
use crate::schema::{
    find_equiv_group, lemma_find_equiv_group_is_first, lemma_schema_equiv_sym,
    lemma_schema_equiv_trans, resolve_spec, schema_equiv,
};
use crate::store::{
    block_wf, bucket_wf, group_wf, store_wf, BlockModel, BucketModel, GroupModel, SchemaModel,
    StoreModel,
};
use crate::walk::{
    block_record_parts, merge_block_spec, merge_group_spec, merge_group_state, merge_list_spec,
    merge_list_state, merge_lists_state, merge_lists_upto, merge_spec, merge_state_spec,
    scatter_upto,
};
use crate::MergeError;

verus! {

/// `find_equiv_group` is determined by the first-match property: any index
/// that matches and has no earlier match is the one found.
proof fn lemma_find_equiv_group_unique(groups: Seq<GroupModel>, desc: SchemaModel, i: int)
    requires
        0 <= i < groups.len(),
        schema_equiv(groups[i].schema, desc),
        forall|j: int| 0 <= j < i ==> !schema_equiv(#[trigger] groups[j].schema, desc),
    ensures
        find_equiv_group(groups, desc) == Some(i),
{
    lemma_find_equiv_group_is_first(groups, desc);
    let f = find_equiv_group(groups, desc);
    assert(f is Some);
    let fi = f.unwrap();
    assert(!(fi < i));
    assert(!(i < fi));
}

/// Idempotent schema resolution: resolving a second schema description
/// that is structurally equal to an earlier one routes it to the same
/// group index and allocates nothing.
pub proof fn law_resolve_idempotent(groups: Seq<GroupModel>, d1: SchemaModel, d2: SchemaModel)
    requires
        schema_equiv(d1, d2),
    ensures
        ({
            let (g1, i1) = resolve_spec(groups, d1);
            let (g2, i2) = resolve_spec(g1, d2);
            i2 == i1 && g2 == g1
        }),
{
    lemma_find_equiv_group_is_first(groups, d1);
    let f1 = find_equiv_group(groups, d1);
    lemma_schema_equiv_sym(d1, d2);
    match f1 {
        Some(i) => {
            // every group equivalent to d1 is equivalent to d2 and back
            lemma_schema_equiv_trans(groups[i].schema, d1, d2);
            assert forall|j: int| 0 <= j < i implies !schema_equiv(
                #[trigger] groups[j].schema,
                d2,
            ) by {
                if schema_equiv(groups[j].schema, d2) {
                    lemma_schema_equiv_trans(groups[j].schema, d2, d1);
                }
            }
            lemma_find_equiv_group_unique(groups, d2, i);
        },
        None => {
            let g1 = groups.push(GroupModel { schema: d1, buckets: Seq::<BucketModel>::empty() });
            assert(schema_equiv(g1[groups.len() as int].schema, d2));
            assert forall|j: int| 0 <= j < groups.len() implies !schema_equiv(
                #[trigger] g1[j].schema,
                d2,
            ) by {
                assert(g1[j] == groups[j]);
                if schema_equiv(g1[j].schema, d2) {
                    lemma_schema_equiv_trans(groups[j].schema, d2, d1);
                }
            }
            lemma_find_equiv_group_unique(g1, d2, groups.len() as int);
        },
    }
}

/// Distinct schema resolution: a description structurally equal to no live
/// group's schema allocates a fresh empty group at the next index, so
/// pairwise-distinct descriptions allocate one group each.
pub proof fn law_resolve_allocates(groups: Seq<GroupModel>, d: SchemaModel)
    requires
        forall|j: int| 0 <= j < groups.len() ==> !schema_equiv(#[trigger] groups[j].schema, d),
    ensures
        resolve_spec(groups, d) == (
            groups.push(GroupModel { schema: d, buckets: Seq::<BucketModel>::empty() }),
            groups.len() as int,
        ),
{
    lemma_find_equiv_group_is_first(groups, d);
    let f = find_equiv_group(groups, d);
    assert(f is None) by {
        if f is Some {
            let i = f.unwrap();
            assert(schema_equiv(groups[i].schema, d));
        }
    }
}

/// Bucket dedup, reuse half: a key row whose values byte-match a live
/// bucket's key values on every key type is routed into the first such
/// bucket, and no bucket is allocated.
pub proof fn law_bucket_dedup_reuses(buckets: Seq<BucketModel>, row: Seq<Seq<u8>>, j: int)
    requires
        0 <= j < buckets.len(),
        buckets[j].keys == row,
        forall|q: int| 0 <= q < j ==> (#[trigger] buckets[q].keys) != row,
    ensures
        match_step(buckets, row) == (buckets, j),
{
    lemma_find_bucket_is_first(buckets, row);
    let f = find_bucket(buckets, row);
    assert(f is Some);
    let fj = f.unwrap();
    assert(!(fj < j));
    assert(!(j < fj));
}

/// Bucket dedup, allocation half: a key row that differs from every live
/// bucket in at least one key type's bytes gets a fresh bucket holding
/// exactly its key values and no blocks.
pub proof fn law_bucket_dedup_allocates(buckets: Seq<BucketModel>, row: Seq<Seq<u8>>)
    requires
        forall|q: int| 0 <= q < buckets.len() ==> (#[trigger] buckets[q].keys) != row,
    ensures
        match_step(buckets, row) == (
            buckets.push(BucketModel { keys: row, blocks: Seq::<BlockModel>::empty() }),
            buckets.len() as int,
        ),
{
    lemma_find_bucket_is_first(buckets, row);
    let f = find_bucket(buckets, row);
    assert(f is None) by {
        if f is Some {
            let i = f.unwrap();
            assert(buckets[i].keys == row);
        }
    }
}

/// Block capacity: packing `M` row identities into a bucket whose current
/// block has `F` free slots yields range counts of exactly `min(F, M)`
/// first (or `min(C, M)` when no block has room), then whole blocks of
/// `C`, then a final remainder; they total `M` and none exceeds `C`.
pub proof fn law_pack_counts(blocks: Seq<BlockModel>, ids: Seq<u64>, cap: nat, ncomp: nat)
    requires
        cap >= 1,
        ids.len() > 0,
        forall|i: int| 0 <= i < blocks.len() ==> (#[trigger] blocks[i]).rows.len() <= cap,
    ensures
        ({
            let rs = pack_spec(blocks, ids, cap, ncomp).1;
            let free: int = if blocks.len() > 0 && blocks.last().rows.len() < cap {
                cap - blocks.last().rows.len()
            } else {
                0
            };
            let first: int = if free > 0 {
                if free < ids.len() {
                    free
                } else {
                    ids.len() as int
                }
            } else {
                if cap < ids.len() {
                    cap as int
                } else {
                    ids.len() as int
                }
            };
            &&& rs.len() >= 1
            &&& rs[0].1 == first
            &&& forall|r: int| 1 <= r < rs.len() - 1 ==> (#[trigger] rs[r]).1 == cap
            &&& ranges_total(rs) == ids.len()
            &&& forall|r: int| 0 <= r < rs.len() ==> 1 <= (#[trigger] rs[r]).1 <= cap
        }),
{
    crate::pack::lemma_pack_spec_props(blocks, ids, cap, ncomp);
    let rs = pack_spec(blocks, ids, cap, ncomp).1;
    if blocks.len() > 0 && blocks.last().rows.len() < cap {
        let free = cap - blocks.last().rows.len();
        let t = if free < ids.len() { free as int } else { ids.len() as int };
        let nb = BlockModel {
            rows: blocks.last().rows + ids.take(t),
            columns: blocks.last().columns,
        };
        let base = blocks.update(blocks.len() - 1, nb);
        let rf = pack_spec(base, ids.skip(t), cap, ncomp).1;
        assert(rs == seq![(first_pack_block(blocks, cap), t)] + rf);
        assert(rs[0].1 == t);
        if ids.len() > free {
            assert(base.last().rows.len() == cap);
            lemma_pack_full_chunks(base, ids.skip(t), cap, ncomp);
            assert forall|r: int| 1 <= r < rs.len() - 1 implies (#[trigger] rs[r]).1 == cap by {
                assert(rs[r] == rf[r - 1]);
            }
        }
    } else {
        lemma_pack_full_chunks(blocks, ids, cap, ncomp);
    }
}

/// When no existing block has free room, every range but the last fills a
/// whole fresh block of `cap` rows, and the first takes `min(cap, m)`.
proof fn lemma_pack_full_chunks(blocks: Seq<BlockModel>, ids: Seq<u64>, cap: nat, ncomp: nat)
    requires
        cap >= 1,
        !(blocks.len() > 0 && blocks.last().rows.len() < cap),
    ensures
        ({
            let rs = pack_spec(blocks, ids, cap, ncomp).1;
            &&& ids.len() > 0 ==> rs.len() >= 1 && rs[0].1 == (if cap < ids.len() {
                cap as int
            } else {
                ids.len() as int
            })
            &&& forall|r: int| 0 <= r < rs.len() - 1 ==> (#[trigger] rs[r]).1 == cap
        }),
    decreases ids.len(),
{
    if ids.len() == 0 {
        return ;
    }
    let t = if cap < ids.len() { cap as int } else { ids.len() as int };
    let nb = BlockModel {
        rows: ids.take(t),
        columns: Seq::new(ncomp, |c: int| Seq::<u8>::empty()),
    };
    let base = blocks.push(nb);
    let rf = pack_spec(base, ids.skip(t), cap, ncomp).1;
    let rs = pack_spec(blocks, ids, cap, ncomp).1;
    assert(rs == seq![(blocks.len() as int, t)] + rf);
    if ids.len() <= cap {
        assert(ids.skip(t).len() == 0);
        assert(rs =~= seq![(blocks.len() as int, t)]);
    } else {
        assert(t == cap);
        assert(base.last().rows.len() == cap);
        lemma_pack_full_chunks(base, ids.skip(t), cap, ncomp);
        assert(rf.len() >= 1);
        assert forall|r: int| 0 <= r < rs.len() - 1 implies (#[trigger] rs[r]).1 == cap by {
            if r > 0 {
                assert(rs[r] == rf[r - 1]);
            }
        }
    }
}

/// A store an export can rebuild exactly: distinct group schemas (else
/// the import would merge groups), distinct bucket keys within a group
/// (else it would merge buckets), a single bucket for a key-less schema,
/// every block non-empty, and only the last block of a bucket partial.
pub open spec fn bucket_export_wf(bk: BucketModel, cap: nat) -> bool {
    &&& forall|i: int| 0 <= i < bk.blocks.len() - 1 ==> (#[trigger] bk.blocks[i]).rows.len() == cap
    &&& forall|i: int| 0 <= i < bk.blocks.len() ==> (#[trigger] bk.blocks[i]).rows.len() >= 1
}

pub open spec fn group_export_wf(g: GroupModel, cap: nat) -> bool {
    &&& g.schema.keys.len() == 0 ==> g.buckets.len() == 1
    &&& forall|b1: int, b2: int|
        0 <= b1 < b2 < g.buckets.len() ==> g.buckets[b1].keys != g.buckets[b2].keys
    &&& forall|b: int| 0 <= b < g.buckets.len() ==> bucket_export_wf(#[trigger] g.buckets[b], cap)
}

pub open spec fn export_wf(s: StoreModel) -> bool {
    &&& store_wf(s)
    &&& forall|g1: int, g2: int|
        0 <= g1 < g2 < s.groups.len() ==> !schema_equiv(s.groups[g1].schema, s.groups[g2].schema)
    &&& forall|g: int| 0 <= g < s.groups.len() ==> group_export_wf(#[trigger] s.groups[g], s.capacity)
}

/// The columns of a block being rebuilt: the first `c` component columns
/// already filled, the rest still empty.
spec fn partial_cols(b: BlockModel, ncomp: nat, c: int) -> Seq<Seq<u8>> {
    Seq::new(ncomp, |q: int| if q < c { b.columns[q] } else { Seq::<u8>::empty() })
}

proof fn lemma_scatter_upto_export(
    base: Seq<BlockModel>,
    schema: SchemaModel,
    b: BlockModel,
    idx: int,
    c: int,
)
    requires
        0 <= idx < base.len(),
        0 <= c <= schema.components.len(),
        forall|q: int|
            0 <= q < schema.components.len() ==> (#[trigger] b.columns[q]).len() == b.rows.len()
                * schema.components[q].size,
        base[idx] == (BlockModel {
            rows: b.rows,
            columns: partial_cols(b, schema.components.len(), 0),
        }),
    ensures
        scatter_upto(base, schema, export_block_comps(b, schema), seq![(idx, b.rows.len() as int)], c)
            == base.update(
            idx,
            BlockModel { rows: b.rows, columns: partial_cols(b, schema.components.len(), c) },
        ),
    decreases c,
{
    let ncomp = schema.components.len();
    let comps = export_block_comps(b, schema);
    let rs = seq![(idx, b.rows.len() as int)];
    if c <= 0 {
        assert(partial_cols(b, ncomp, 0) =~= base[idx].columns);
        assert(base.update(idx, BlockModel { rows: b.rows, columns: partial_cols(b, ncomp, 0) })
            =~= base);
    } else {
        lemma_scatter_upto_export(base, schema, b, idx, c - 1);
        let st = base.update(
            idx,
            BlockModel { rows: b.rows, columns: partial_cols(b, ncomp, c - 1) },
        );
        let size = schema.components[c - 1].size;
        let one = comps[c - 1];
        assert(one == seq![RunModel { bytes: b.columns[c - 1], elems: b.rows.len() }]);
        let data = runs_bytes(one);
        assert(data == b.columns[c - 1]) by {
            assert(one.drop_last() =~= Seq::<RunModel>::empty());
            assert(runs_bytes(one) == runs_bytes(one.drop_last()) + one.last().bytes);
            assert(Seq::<u8>::empty() + b.columns[c - 1] =~= b.columns[c - 1]);
        }
        let m = b.rows.len() as int;
        assert(data.len() == m * size);
        let nb = BlockModel {
            rows: st[idx].rows,
            columns: st[idx].columns.update(c - 1, st[idx].columns[c - 1] + data.take(m * size)),
        };
        assert(data.take(m * size) =~= data);
        assert(st[idx].columns[c - 1] == Seq::<u8>::empty());
        assert(st[idx].columns[c - 1] + data.take(m * size) =~= b.columns[c - 1]);
        assert(scatter_spec(st, c - 1, size, data, rs) == scatter_spec(
            st.update(idx, nb),
            c - 1,
            size,
            data.skip(m * size),
            rs.drop_first(),
        ));
        assert(rs.drop_first() =~= Seq::<(int, int)>::empty());
        assert(nb.columns =~= partial_cols(b, ncomp, c));
        assert(st.update(idx, nb) =~~= base.update(
            idx,
            BlockModel { rows: b.rows, columns: partial_cols(b, ncomp, c) },
        ));
        assert(scatter_upto(base, schema, comps, rs, c) == scatter_spec(
            scatter_upto(base, schema, comps, rs, c - 1),
            c - 1,
            size,
            runs_bytes(comps[c - 1]),
            rs,
        ));
    }
}

/// Re-importing one exported block appends exactly that block.
proof fn lemma_block_round_trip(bk: BucketModel, schema: SchemaModel, cap: nat, b: BlockModel)
    requires
        cap >= 1,
        block_wf(b, schema, cap),
        b.rows.len() >= 1,
        !(bk.blocks.len() > 0 && bk.blocks.last().rows.len() < cap),
    ensures
        merge_block_spec(bk, schema, cap, export_block_spec(b, schema)) == Ok::<
            BucketModel,
            MergeError,
        >(BucketModel { keys: bk.keys, blocks: bk.blocks.push(b) }),
{
    let rec = export_block_spec(b, schema);
    let comps = export_block_comps(b, schema);
    let ncomp = schema.components.len();
    let m = b.rows.len();
    assert(block_record_parts(rec) == Some((b.rows, comps)));
    assert forall|c: int| 0 <= c < comps.len() implies comp_data_ok(
        #[trigger] comps[c],
        schema.components[c].size,
        m as int,
    ) by {
        let one = comps[c];
        assert(one.drop_last() =~= Seq::<RunModel>::empty());
        assert(runs_total(one) == runs_total(one.drop_last()) + one.last().elems);
        assert(run_ok(one[0], schema.components[c].size));
    }
    let (b2, rs) = pack_spec(bk.blocks, b.rows, cap, ncomp);
    let nb0 = BlockModel {
        rows: b.rows.take(m as int),
        columns: Seq::new(ncomp, |q: int| Seq::<u8>::empty()),
    };
    assert(b.rows.take(m as int) =~= b.rows);
    assert(b.rows.skip(m as int) =~= Seq::<u64>::empty());
    assert(pack_spec(bk.blocks.push(nb0), b.rows.skip(m as int), cap, ncomp) == (
        bk.blocks.push(nb0),
        Seq::<(int, int)>::empty(),
    ));
    assert(b2 == bk.blocks.push(nb0) && rs == seq![(bk.blocks.len() as int, m as int)] + Seq::<
        (int, int),
    >::empty());
    assert(rs =~= seq![(bk.blocks.len() as int, m as int)]);
    let idx = bk.blocks.len() as int;
    assert(nb0 =~~= BlockModel { rows: b.rows, columns: partial_cols(b, ncomp, 0) });
    lemma_scatter_upto_export(b2, schema, b, idx, ncomp as int);
    let final_blocks = scatter_upto(b2, schema, comps, seq![(idx, m as int)], ncomp as int);
    assert(scatter_upto(b2, schema, comps, rs, ncomp as int) == final_blocks);
    assert(partial_cols(b, ncomp, ncomp as int) =~= b.columns);
    assert(final_blocks =~~= bk.blocks.push(b));
    assert(merge_block_spec(bk, schema, cap, rec) == Ok::<BucketModel, MergeError>(
        BucketModel { keys: bk.keys, blocks: scatter_upto(b2, schema, comps, rs, ncomp as int) },
    ));
    assert(BucketModel { keys: bk.keys, blocks: final_blocks } =~~= BucketModel {
        keys: bk.keys,
        blocks: bk.blocks.push(b),
    });
}

/// Re-importing an exported block list into an empty bucket rebuilds its
/// blocks exactly.
proof fn lemma_list_round_trip(g0: GroupModel, cap: nat, bidx: int, orig: Seq<BlockModel>, n: int)
    requires
        cap >= 1,
        0 <= bidx < g0.buckets.len(),
        g0.buckets[bidx].blocks.len() == 0,
        0 <= n <= orig.len(),
        forall|i: int| 0 <= i < orig.len() ==> block_wf(#[trigger] orig[i], g0.schema, cap),
        forall|i: int| 0 <= i < orig.len() - 1 ==> (#[trigger] orig[i]).rows.len() == cap,
        forall|i: int| 0 <= i < orig.len() ==> (#[trigger] orig[i]).rows.len() >= 1,
    ensures
        merge_list_spec(
            g0,
            cap,
            bidx,
            Seq::new(orig.len(), |i: int| export_block_spec(orig[i], g0.schema)).take(n),
        ) == Ok::<GroupModel, MergeError>(
            GroupModel {
                schema: g0.schema,
                buckets: g0.buckets.update(
                    bidx,
                    BucketModel { keys: g0.buckets[bidx].keys, blocks: orig.take(n) },
                ),
            },
        ),
    decreases n,
{
    let list = Seq::new(orig.len(), |i: int| export_block_spec(orig[i], g0.schema));
    if n == 0 {
        assert(list.take(0) =~= Seq::<Seq<BlockFieldModel>>::empty());
        assert(orig.take(0) =~= Seq::<BlockModel>::empty());
        assert(BucketModel { keys: g0.buckets[bidx].keys, blocks: orig.take(0) } =~~= g0.buckets[
            bidx]);
        assert(g0.buckets.update(bidx, g0.buckets[bidx]) =~= g0.buckets);
        assert(GroupModel {
            schema: g0.schema,
            buckets: g0.buckets.update(
                bidx,
                BucketModel { keys: g0.buckets[bidx].keys, blocks: orig.take(0) },
            ),
        } =~~= g0);
    } else {
        lemma_list_round_trip(g0, cap, bidx, orig, n - 1);
        assert(list.take(n).drop_last() =~= list.take(n - 1));
        assert(list.take(n).last() == list[n - 1]);
        let bk = BucketModel { keys: g0.buckets[bidx].keys, blocks: orig.take(n - 1) };
        let g_prev = GroupModel { schema: g0.schema, buckets: g0.buckets.update(bidx, bk) };
        assert(g_prev.buckets[bidx] == bk);
        if n - 1 > 0 {
            assert(bk.blocks.last() == orig[n - 2]);
            assert(orig[n - 2].rows.len() == cap);
        }
        lemma_block_round_trip(bk, g0.schema, cap, orig[n - 1]);
        assert(merge_block_spec(g_prev.buckets[bidx], g_prev.schema, cap, list[n - 1]) == Ok::<
            BucketModel,
            MergeError,
        >(BucketModel { keys: bk.keys, blocks: bk.blocks.push(orig[n - 1]) }));
        assert(bk.blocks.push(orig[n - 1]) =~= orig.take(n));
        assert(BucketModel { keys: bk.keys, blocks: bk.blocks.push(orig[n - 1]) } =~~= BucketModel {
            keys: g0.buckets[bidx].keys,
            blocks: orig.take(n),
        });
        assert(g_prev.buckets.update(bidx, BucketModel {
            keys: bk.keys,
            blocks: bk.blocks.push(orig[n - 1]),
        }) =~= g0.buckets.update(
            bidx,
            BucketModel { keys: g0.buckets[bidx].keys, blocks: orig.take(n) },
        ));
    }
}

/// Routing pairwise-distinct key rows into an empty group allocates one
/// bucket per row, in order.
proof fn lemma_match_rows_distinct(rows: Seq<Seq<Seq<u8>>>)
    requires
        forall|i: int, j: int| 0 <= i < j < rows.len() ==> rows[i] != rows[j],
    ensures
        match_rows_spec(Seq::<BucketModel>::empty(), rows) == (
            Seq::new(
                rows.len(),
                |b: int| BucketModel { keys: rows[b], blocks: Seq::<BlockModel>::empty() },
            ),
            Seq::new(rows.len(), |i: int| i),
        ),
    decreases rows.len(),
{
    if rows.len() == 0 {
        let (b, m) = match_rows_spec(Seq::<BucketModel>::empty(), rows);
        assert(b =~= Seq::new(
            rows.len(),
            |q: int| BucketModel { keys: rows[q], blocks: Seq::<BlockModel>::empty() },
        ));
        assert(m =~= Seq::new(rows.len(), |i: int| i));
    } else {
        assert(forall|i: int, j: int|
            0 <= i < j < rows.len() - 1 ==> #[trigger] rows.drop_last()[i]
                != #[trigger] rows.drop_last()[j]);
        lemma_match_rows_distinct(rows.drop_last());
        let (b1, m1) = match_rows_spec(Seq::<BucketModel>::empty(), rows.drop_last());
        let row = rows.last();
        lemma_find_bucket_is_first(b1, row);
        let f = find_bucket(b1, row);
        assert(f is None) by {
            if f is Some {
                let j = f.unwrap();
                assert(b1[j].keys == rows.drop_last()[j]);
                assert(rows[j] != rows[rows.len() - 1]);
            }
        }
        let (b2, m2) = match_rows_spec(Seq::<BucketModel>::empty(), rows);
        assert(b2 =~= Seq::new(
            rows.len(),
            |q: int| BucketModel { keys: rows[q], blocks: Seq::<BlockModel>::empty() },
        ));
        assert(m2 =~= Seq::new(rows.len(), |i: int| i));
    }
}

/// Re-importing a group's exported key columns into its fresh empty group
/// rebuilds its buckets' keys, mapping each incoming row to its own
/// bucket.
proof fn lemma_keys_round_trip(orig: GroupModel, cap: nat)
    requires
        cap >= 1,
        group_wf(orig, cap),
        group_export_wf(orig, cap),
    ensures
        merge_keys_spec(
            GroupModel { schema: orig.schema, buckets: Seq::<BucketModel>::empty() },
            export_key_cols_spec(orig),
        ) == Ok::<(GroupModel, Seq<int>), MergeError>(
            (
                GroupModel {
                    schema: orig.schema,
                    buckets: Seq::new(
                        orig.buckets.len(),
                        |b: int| BucketModel {
                            keys: orig.buckets[b].keys,
                            blocks: Seq::<BlockModel>::empty(),
                        },
                    ),
                },
                Seq::new(orig.buckets.len(), |i: int| i),
            ),
        ),
{
    let fresh = GroupModel { schema: orig.schema, buckets: Seq::<BucketModel>::empty() };
    let cols = export_key_cols_spec(orig);
    let nkeys = orig.schema.keys.len();
    assert(cols.len() == nkeys);
    assert(key_cols_same_len(cols));
    assert forall|k: int, i: int|
        0 <= k < cols.len() && 0 <= i < cols[k].len() implies (#[trigger] cols[k][i]).len()
            == fresh.schema.keys[k].size by {
        assert(cols[k][i] == orig.buckets[i].keys[k]);
        assert(bucket_wf(orig.buckets[i], orig.schema, cap));
    }
    assert(key_cols_sizes_ok(cols, fresh.schema));
    let rows = incoming_rows(cols);
    if nkeys == 0 {
        assert(orig.buckets.len() == 1);
        assert(rows =~= seq![Seq::<Seq<u8>>::empty()]);
        assert(forall|i: int, j: int| 0 <= i < j < rows.len() ==> rows[i] != rows[j]);
        lemma_match_rows_distinct(rows);
        let (b2, m2) = match_rows_spec(fresh.buckets, rows);
        assert(bucket_wf(orig.buckets[0], orig.schema, cap));
        assert(orig.buckets[0].keys.len() == 0);
        assert(rows[0] =~= orig.buckets[0].keys);
        assert(b2 =~= Seq::new(
            orig.buckets.len(),
            |b: int| BucketModel { keys: orig.buckets[b].keys, blocks: Seq::<BlockModel>::empty() },
        ));
        assert(m2 =~= Seq::new(orig.buckets.len(), |i: int| i));
    } else {
        assert(rows.len() == orig.buckets.len());
        assert forall|b: int| 0 <= b < rows.len() implies #[trigger] rows[b] == orig.buckets[
            b].keys by {
            assert(bucket_wf(orig.buckets[b], orig.schema, cap));
            assert(rows[b] =~= orig.buckets[b].keys);
        }
        assert forall|i: int, j: int| 0 <= i < j < rows.len() implies rows[i] != rows[j] by {
            assert(orig.buckets[i].keys != orig.buckets[j].keys);
        }
        lemma_match_rows_distinct(rows);
        let (b2, m2) = match_rows_spec(fresh.buckets, rows);
        assert(b2 =~= Seq::new(
            orig.buckets.len(),
            |b: int| BucketModel { keys: orig.buckets[b].keys, blocks: Seq::<BlockModel>::empty() },
        ));
        assert(m2 =~= Seq::new(orig.buckets.len(), |i: int| i));
    }
}

/// Re-importing every exported block list rebuilds every bucket's blocks.
proof fn lemma_lists_round_trip(g2: GroupModel, cap: nat, orig: GroupModel, n: int)
    requires
        cap >= 1,
        g2.schema == orig.schema,
        g2.buckets.len() == orig.buckets.len(),
        forall|b: int|
            0 <= b < orig.buckets.len() ==> #[trigger] g2.buckets[b] == (BucketModel {
                keys: orig.buckets[b].keys,
                blocks: Seq::<BlockModel>::empty(),
            }),
        0 <= n <= orig.buckets.len(),
        group_wf(orig, cap),
        group_export_wf(orig, cap),
    ensures
        merge_lists_upto(
            g2,
            cap,
            Seq::new(orig.buckets.len(), |i: int| i),
            Seq::new(orig.buckets.len(), |b: int| export_bucket_spec(orig.buckets[b], orig.schema)),
            n,
        ) == Ok::<GroupModel, MergeError>(
            GroupModel {
                schema: orig.schema,
                buckets: Seq::new(
                    orig.buckets.len(),
                    |b: int| if b < n {
                        orig.buckets[b]
                    } else {
                        g2.buckets[b]
                    },
                ),
            },
        ),
    decreases n,
{
    let mapping = Seq::new(orig.buckets.len(), |i: int| i);
    let lists = Seq::new(
        orig.buckets.len(),
        |b: int| export_bucket_spec(orig.buckets[b], orig.schema),
    );
    if n == 0 {
        assert(Seq::new(orig.buckets.len(), |b: int| if b < 0 { orig.buckets[b] } else { g2.buckets[b] })
            =~= g2.buckets);
        assert(GroupModel {
            schema: orig.schema,
            buckets: Seq::new(
                orig.buckets.len(),
                |b: int| if b < 0 { orig.buckets[b] } else { g2.buckets[b] },
            ),
        } =~~= g2);
    } else {
        lemma_lists_round_trip(g2, cap, orig, n - 1);
        let g_prev = GroupModel {
            schema: orig.schema,
            buckets: Seq::new(
                orig.buckets.len(),
                |b: int| if b < n - 1 {
                    orig.buckets[b]
                } else {
                    g2.buckets[b]
                },
            ),
        };
        assert(g_prev.buckets[n - 1] == g2.buckets[n - 1]);
        assert(g_prev.buckets[n - 1].blocks.len() == 0);
        assert(bucket_wf(orig.buckets[n - 1], orig.schema, cap));
        assert(bucket_export_wf(orig.buckets[n - 1], cap));
        lemma_list_round_trip(g_prev, cap, n - 1, orig.buckets[n - 1].blocks, orig.buckets[
            n - 1].blocks.len() as int);
        let full = orig.buckets[n - 1].blocks;
        assert(Seq::new(full.len(), |i: int| export_block_spec(full[i], g_prev.schema)).take(
            full.len() as int,
        ) =~= export_bucket_spec(orig.buckets[n - 1], orig.schema));
        assert(lists[n - 1] == export_bucket_spec(orig.buckets[n - 1], orig.schema));
        assert(full.take(full.len() as int) =~= full);
        let built = BucketModel { keys: g_prev.buckets[n - 1].keys, blocks: full.take(full.len() as int) };
        assert(built =~~= orig.buckets[n - 1]);
        assert(merge_list_spec(g_prev, cap, n - 1, lists[n - 1]) == Ok::<GroupModel, MergeError>(
            GroupModel { schema: g_prev.schema, buckets: g_prev.buckets.update(n - 1, built) },
        ));
        assert(g_prev.buckets.update(n - 1, built) =~= Seq::new(
            orig.buckets.len(),
            |b: int| if b < n {
                orig.buckets[b]
            } else {
                g2.buckets[b]
            },
        ));
        assert(mapping[n - 1] == n - 1);
    }
}

/// Re-importing one exported group record into a store with no
/// structurally equal schema appends exactly that group.
proof fn lemma_group_round_trip(groups: Seq<GroupModel>, cap: nat, orig: GroupModel)
    requires
        cap >= 1,
        group_wf(orig, cap),
        group_export_wf(orig, cap),
        forall|j: int| 0 <= j < groups.len() ==> !schema_equiv(
            (#[trigger] groups[j]).schema,
            orig.schema,
        ),
    ensures
        merge_group_spec(StoreModel { capacity: cap, groups }, export_group_spec(orig)) == Ok::<
            StoreModel,
            MergeError,
        >(StoreModel { capacity: cap, groups: groups.push(orig) }),
{
    let rec = export_group_spec(orig);
    assert(rec.len() == 3);
    assert(rec[0] == GroupFieldModel::Schema(orig.schema));
    assert(rec[1] == GroupFieldModel::Keys(export_key_cols_spec(orig)));
    let lists = Seq::new(
        orig.buckets.len(),
        |b: int| export_bucket_spec(orig.buckets[b], orig.schema),
    );
    assert(rec[2] == GroupFieldModel::Buckets(lists));
    law_resolve_allocates(groups, orig.schema);
    let fresh = GroupModel { schema: orig.schema, buckets: Seq::<BucketModel>::empty() };
    let groups2 = groups.push(fresh);
    let gi = groups.len() as int;
    assert(resolve_spec(groups, orig.schema) == (groups2, gi));
    assert(groups2[gi] == fresh);
    lemma_keys_round_trip(orig, cap);
    let g2 = GroupModel {
        schema: orig.schema,
        buckets: Seq::new(
            orig.buckets.len(),
            |b: int| BucketModel { keys: orig.buckets[b].keys, blocks: Seq::<BlockModel>::empty() },
        ),
    };
    let mapping = Seq::new(orig.buckets.len(), |i: int| i);
    assert(merge_keys_spec(fresh, export_key_cols_spec(orig)) == Ok::<
        (GroupModel, Seq<int>),
        MergeError,
    >((g2, mapping)));
    assert(lists.len() == mapping.len());
    lemma_lists_round_trip(g2, cap, orig, orig.buckets.len() as int);
    let g3 = GroupModel {
        schema: orig.schema,
        buckets: Seq::new(
            orig.buckets.len(),
            |b: int| if b < orig.buckets.len() as int {
                orig.buckets[b]
            } else {
                g2.buckets[b]
            },
        ),
    };
    assert(merge_lists_upto(g2, cap, mapping, lists, mapping.len() as int) == Ok::<
        GroupModel,
        MergeError,
    >(g3));
    assert(g3 =~~= orig);
    assert(groups2.update(gi, g3) =~= groups.push(orig));
}

/// Round trip: merging a full-store export into an empty store of the
/// same capacity rebuilds the identical store, group for group, bucket
/// for bucket, block for block, byte for byte.
pub proof fn law_round_trip(s: StoreModel)
    requires
        export_wf(s),
    ensures
        merge_spec(
            StoreModel { capacity: s.capacity, groups: Seq::<GroupModel>::empty() },
            export_spec(s),
        ) == Ok::<StoreModel, MergeError>(s),
{
    lemma_round_trip_upto(s, s.groups.len() as int);
    assert(s.groups.take(s.groups.len() as int) =~= s.groups);
    assert(StoreModel { capacity: s.capacity, groups: s.groups.take(s.groups.len() as int) } =~~= s);
    assert(export_spec(s).take(s.groups.len() as int) =~= export_spec(s));
}

proof fn lemma_round_trip_upto(s: StoreModel, n: int)
    requires
        export_wf(s),
        0 <= n <= s.groups.len(),
    ensures
        merge_spec(
            StoreModel { capacity: s.capacity, groups: Seq::<GroupModel>::empty() },
            export_spec(s).take(n),
        ) == Ok::<StoreModel, MergeError>(
            StoreModel { capacity: s.capacity, groups: s.groups.take(n) },
        ),
    decreases n,
{
    let records = export_spec(s);
    let empty = StoreModel { capacity: s.capacity, groups: Seq::<GroupModel>::empty() };
    if n == 0 {
        assert(records.take(0) =~= Seq::<Seq<GroupFieldModel>>::empty());
        assert(s.groups.take(0) =~= Seq::<GroupModel>::empty());
    } else {
        lemma_round_trip_upto(s, n - 1);
        assert(records.take(n).drop_last() =~= records.take(n - 1));
        assert(records.take(n).last() == records[n - 1]);
        assert(records[n - 1] == export_group_spec(s.groups[n - 1]));
        let prev = StoreModel { capacity: s.capacity, groups: s.groups.take(n - 1) };
        assert(group_wf(s.groups[n - 1], s.capacity));
        assert(group_export_wf(s.groups[n - 1], s.capacity));
        assert forall|j: int| 0 <= j < prev.groups.len() implies !schema_equiv(
            (#[trigger] prev.groups[j]).schema,
            s.groups[n - 1].schema,
        ) by {
            assert(prev.groups[j] == s.groups[j]);
        }
        lemma_group_round_trip(prev.groups, s.capacity, s.groups[n - 1]);
        assert(prev.groups.push(s.groups[n - 1]) =~= s.groups.take(n));
    }
}

/// Scattering the first `c` components onto freshly packed blocks: rows
/// are untouched, column counts are kept, scattered columns reach their
/// final one-element-per-row length, and the rest keep their packed
/// length.
proof fn lemma_scatter_upto_wf(
    b2: Seq<BlockModel>,
    schema: SchemaModel,
    comps: Seq<Seq<RunModel>>,
    rs: Seq<(int, int)>,
    m: int,
    c: int,
)
    requires
        0 <= c <= schema.components.len(),
        comps.len() == schema.components.len(),
        forall|q: int| 0 <= q < comps.len() ==> comp_data_ok(
            #[trigger] comps[q],
            schema.components[q].size,
            m,
        ),
        forall|r: int| 0 <= r < rs.len() ==> 0 <= (#[trigger] rs[r]).0 < b2.len(),
        forall|r: int| 0 <= r < rs.len() ==> (#[trigger] rs[r]).1 >= 0,
        forall|r1: int, r2: int| 0 <= r1 < r2 < rs.len() ==> rs[r1].0 < rs[r2].0,
        ranges_total(rs) == m,
        forall|i: int| 0 <= i < b2.len() ==> (#[trigger] b2[i]).columns.len()
            == schema.components.len(),
    ensures
        ({
            let st = scatter_upto(b2, schema, comps, rs, c);
            &&& st.len() == b2.len()
            &&& forall|i: int| 0 <= i < st.len() ==> (#[trigger] st[i]).rows == b2[i].rows
            &&& forall|i: int| 0 <= i < st.len() ==> (#[trigger] st[i]).columns.len()
                == schema.components.len()
            &&& forall|i: int, q: int|
                0 <= i < st.len() && c <= q < schema.components.len() ==> (#[trigger] st[
                    i].columns[q]).len() == b2[i].columns[q].len()
            &&& forall|r: int, q: int|
                0 <= r < rs.len() && 0 <= q < c ==> (#[trigger] scatter_upto(
                    b2,
                    schema,
                    comps,
                    rs,
                    c,
                )[rs[r].0].columns[q]).len() == b2[rs[r].0].columns[q].len() + rs[r].1
                    * schema.components[q].size
            &&& forall|i: int, q: int|
                0 <= i < st.len() && 0 <= q < c && (forall|r: int|
                    0 <= r < rs.len() ==> (#[trigger] rs[r]).0 != i) ==> (#[trigger] st[
                    i].columns[q]).len() == b2[i].columns[q].len()
        }),
    decreases c,
{
    if c == 0 {
        return ;
    }
    lemma_scatter_upto_wf(b2, schema, comps, rs, m, c - 1);
    let prev = scatter_upto(b2, schema, comps, rs, c - 1);
    let size = schema.components[c - 1].size;
    let data = runs_bytes(comps[c - 1]);
    crate::scatter::lemma_runs_bytes_len(comps[c - 1], size);
    assert(data.len() == m * size);
    crate::scatter::lemma_scatter_spec_props(prev, c - 1, size, data, rs);
    let st = scatter_upto(b2, schema, comps, rs, c);
    assert(st == scatter_spec(prev, c - 1, size, data, rs));
    assert forall|r: int, q: int|
        0 <= r < rs.len() && 0 <= q < c implies (#[trigger] st[rs[r].0].columns[q]).len()
            == b2[rs[r].0].columns[q].len() + rs[r].1 * schema.components[q].size by {
        crate::pack::lemma_ranges_total_take_bounds(rs, r);
        crate::pack::lemma_ranges_total_take_bounds(rs, r + 1);
        assert(prev.len() == b2.len());
        assert(0 <= rs[r].0 < st.len());
        if q == c - 1 {
            assert(0 <= ranges_total(rs.take(r)) * size <= ranges_total(rs.take(r + 1)) * size
                <= data.len()) by (nonlinear_arith)
                requires
                    0 <= ranges_total(rs.take(r)) <= ranges_total(rs.take(r + 1)),
                    ranges_total(rs.take(r + 1)) <= ranges_total(rs),
                    data.len() == ranges_total(rs) * size,
                    size >= 0,
            ;
            assert(scatter_upto(b2, schema, comps, rs, c - 1)[rs[r].0].columns[q].len() == b2[rs[
                r].0].columns[q].len());
            assert(st[rs[r].0].columns == prev[rs[r].0].columns.update(
                c - 1,
                prev[rs[r].0].columns[c - 1] + data.subrange(
                    ranges_total(rs.take(r)) * size,
                    ranges_total(rs.take(r + 1)) * size,
                ),
            ));
            assert((ranges_total(rs.take(r)) + rs[r].1) * size == ranges_total(rs.take(r)) * size
                + rs[r].1 * size) by (nonlinear_arith);
            assert(prev[rs[r].0].columns[c - 1].len() == b2[rs[r].0].columns[c - 1].len());
        } else {
            assert(scatter_upto(b2, schema, comps, rs, c - 1)[rs[r].0].columns[q].len() == b2[rs[
                r].0].columns[q].len() + rs[r].1 * schema.components[q].size);
            assert(st[rs[r].0].columns[q] == prev[rs[r].0].columns[q]);
        }
    }
    assert forall|i: int, q: int|
        0 <= i < st.len() && 0 <= q < c && (forall|r: int|
            0 <= r < rs.len() ==> (#[trigger] rs[r]).0 != i) implies (#[trigger] st[
        i].columns[q]).len() == b2[i].columns[q].len() by {
        assert(st[i] == prev[i]);
    }
    assert forall|i: int, q: int|
        0 <= i < st.len() && c <= q < schema.components.len() implies (#[trigger] st[
        i].columns[q]).len() == b2[i].columns[q].len() by {
        if exists|r: int| 0 <= r < rs.len() && (#[trigger] rs[r]).0 == i {
            let r = choose|r: int| 0 <= r < rs.len() && (#[trigger] rs[r]).0 == i;
            assert(st[rs[r].0].columns == prev[rs[r].0].columns.update(
                c - 1,
                prev[rs[r].0].columns[c - 1] + data.subrange(
                    ranges_total(rs.take(r)) * size,
                    ranges_total(rs.take(r + 1)) * size,
                ),
            ));
            assert(st[i].columns[q] == prev[i].columns[q]);
        } else {
            assert(st[i] == prev[i]);
        }
    }
    assert forall|i: int| 0 <= i < st.len() implies (#[trigger] st[i]).rows == b2[i].rows by {
        if exists|r: int| 0 <= r < rs.len() && (#[trigger] rs[r]).0 == i {
            let r = choose|r: int| 0 <= r < rs.len() && (#[trigger] rs[r]).0 == i;
            assert(st[rs[r].0].rows == prev[rs[r].0].rows);
        } else {
            assert(st[i] == prev[i]);
        }
    }
    assert forall|i: int| 0 <= i < st.len() implies (#[trigger] st[i]).columns.len()
        == schema.components.len() by {
        if exists|r: int| 0 <= r < rs.len() && (#[trigger] rs[r]).0 == i {
            let r = choose|r: int| 0 <= r < rs.len() && (#[trigger] rs[r]).0 == i;
            assert(st[rs[r].0].columns == prev[rs[r].0].columns.update(
                c - 1,
                prev[rs[r].0].columns[c - 1] + data.subrange(
                    ranges_total(rs.take(r)) * size,
                    ranges_total(rs.take(r + 1)) * size,
                ),
            ));
        } else {
            assert(st[i] == prev[i]);
        }
    }
}

/// Merging one block record into a well-formed bucket yields a
/// well-formed bucket: capacity, column count, and one element per row in
/// every column are all maintained.
proof fn lemma_merge_block_spec_wf(
    bucket: BucketModel,
    schema: SchemaModel,
    cap: nat,
    rec: Seq<BlockFieldModel>,
)
    requires
        cap >= 1,
        bucket_wf(bucket, schema, cap),
        merge_block_spec(bucket, schema, cap, rec) is Ok,
    ensures
        bucket_wf(merge_block_spec(bucket, schema, cap, rec).unwrap(), schema, cap),
{
    let parts = block_record_parts(rec);
    let (ids, comps) = parts.unwrap();
    let ncomp = schema.components.len();
    let m = ids.len() as int;
    crate::pack::lemma_pack_spec_props(bucket.blocks, ids, cap, ncomp);
    let (b2, rs) = pack_spec(bucket.blocks, ids, cap, ncomp);
    let fb = first_pack_block(bucket.blocks, cap);
    let result = merge_block_spec(bucket, schema, cap, rec).unwrap();
    if ids.len() == 0 {
        assert(b2 == bucket.blocks && rs.len() == 0);
        assert forall|i: int| 0 <= i < b2.len() implies (#[trigger] b2[i]).columns.len()
            == ncomp by {
            assert(block_wf(bucket.blocks[i], schema, cap));
        }
        lemma_scatter_upto_wf(b2, schema, comps, rs, m, ncomp as int);
        let st = scatter_upto(b2, schema, comps, rs, ncomp as int);
        assert forall|i: int| 0 <= i < st.len() implies block_wf(#[trigger] st[i], schema, cap) by {
            assert(block_wf(bucket.blocks[i], schema, cap));
            assert forall|q: int| 0 <= q < ncomp implies (#[trigger] st[i].columns[q]).len()
                == st[i].rows.len() * schema.components[q].size by {
                assert(st[i].columns[q].len() == b2[i].columns[q].len());
                assert(forall|r: int| 0 <= r < rs.len() ==> (#[trigger] rs[r]).0 != i);
            }
        }
        return ;
    }
    // packed blocks carry the old columns (or fresh empty ones) and the
    // appended rows; scattering restores one element per row
    assert forall|i: int| 0 <= i < b2.len() implies (#[trigger] b2[i]).columns.len()
        == ncomp by {
        if i < fb {
            assert(b2[i] == bucket.blocks[i]);
            assert(block_wf(bucket.blocks[i], schema, cap));
        } else {
            let r = i - fb;
            assert(b2[fb + r].columns == crate::pack::cols_at(bucket.blocks, fb + r, ncomp));
            if fb + r < bucket.blocks.len() {
                assert(block_wf(bucket.blocks[fb + r], schema, cap));
            }
        }
    }
    lemma_scatter_upto_wf(b2, schema, comps, rs, m, ncomp as int);
    let st = scatter_upto(b2, schema, comps, rs, ncomp as int);
    assert forall|i: int| 0 <= i < st.len() implies block_wf(#[trigger] st[i], schema, cap) by {
        if i < fb {
            assert(b2[i] == bucket.blocks[i]);
            assert(block_wf(bucket.blocks[i], schema, cap));
            assert forall|q: int| 0 <= q < ncomp implies (#[trigger] st[i].columns[q]).len()
                == st[i].rows.len() * schema.components[q].size by {
                assert forall|r: int| 0 <= r < rs.len() implies (#[trigger] rs[r]).0 != i by {
                    assert(rs[r].0 == fb + r);
                }
                assert(st[i].columns[q].len() == b2[i].columns[q].len());
            }
        } else {
            let r = i - fb;
            assert(0 <= r < rs.len());
            assert(rs[r].0 == fb + r);
            assert(b2[fb + r].rows == crate::pack::rows_at(bucket.blocks, fb + r) + ids.subrange(
                ranges_total(rs.take(r)),
                ranges_total(rs.take(r + 1)),
            ));
            assert(b2[fb + r].columns == crate::pack::cols_at(bucket.blocks, fb + r, ncomp));
            crate::pack::lemma_ranges_total_take_bounds(rs, r);
            crate::pack::lemma_ranges_total_take_bounds(rs, r + 1);
            assert(ids.subrange(
                ranges_total(rs.take(r)),
                ranges_total(rs.take(r + 1)),
            ).len() == rs[r].1);
            assert(b2[i].rows.len() == crate::pack::rows_at(bucket.blocks, i).len() + rs[r].1);
            assert forall|q: int| 0 <= q < ncomp implies (#[trigger] st[i].columns[q]).len()
                == st[i].rows.len() * schema.components[q].size by {
                assert(st[rs[r].0].columns[q].len() == b2[rs[r].0].columns[q].len() + rs[r].1
                    * schema.components[q].size);
                if i < bucket.blocks.len() {
                    assert(b2[i].columns[q].len() == bucket.blocks[i].rows.len()
                        * schema.components[q].size) by {
                        assert(block_wf(bucket.blocks[i], schema, cap));
                    }
                    assert((bucket.blocks[i].rows.len() + rs[r].1) * schema.components[q].size
                        == bucket.blocks[i].rows.len() * schema.components[q].size + rs[r].1
                        * schema.components[q].size) by (nonlinear_arith);
                } else {
                    assert(b2[i].columns[q].len() == 0);
                    assert(crate::pack::rows_at(bucket.blocks, i).len() == 0);
                }
            }
        }
    }
}

/// Merging an entire record stream into a well-formed store yields a
/// well-formed store, and never changes the schema of a live group.
pub proof fn law_merge_preserves_wf(s: StoreModel, records: Seq<Seq<GroupFieldModel>>)
    requires
        store_wf(s),
        merge_spec(s, records) is Ok,
    ensures
        store_wf(merge_spec(s, records).unwrap()),
        merge_spec(s, records).unwrap().groups.len() >= s.groups.len(),
        forall|g: int|
            0 <= g < s.groups.len() ==> (#[trigger] merge_spec(s, records).unwrap().groups[
                g]).schema == s.groups[g].schema,
    decreases records.len(),
{
    if records.len() > 0 {
        let prefix = merge_spec(s, records.drop_last());
        assert(prefix is Ok);
        law_merge_preserves_wf(s, records.drop_last());
        lemma_merge_group_spec_wf(prefix.unwrap(), records.last());
    }
}

proof fn lemma_merge_group_spec_wf(s: StoreModel, rec: Seq<GroupFieldModel>)
    requires
        store_wf(s),
        merge_group_spec(s, rec) is Ok,
    ensures
        store_wf(merge_group_spec(s, rec).unwrap()),
        merge_group_spec(s, rec).unwrap().groups.len() >= s.groups.len(),
        forall|g: int|
            0 <= g < s.groups.len() ==> (#[trigger] merge_group_spec(s, rec).unwrap().groups[
                g]).schema == s.groups[g].schema,
{
    let desc = match rec[0] {
        GroupFieldModel::Schema(d) => d,
        _ => arbitrary(),
    };
    let cols = match rec[1] {
        GroupFieldModel::Keys(c) => c,
        _ => arbitrary(),
    };
    let lists = match rec[2] {
        GroupFieldModel::Buckets(l) => l,
        _ => arbitrary(),
    };
    let (groups2, gi) = resolve_spec(s.groups, desc);
    lemma_find_equiv_group_is_first(s.groups, desc);
    assert(0 <= gi < groups2.len());
    assert forall|g: int| 0 <= g < groups2.len() implies group_wf(
        #[trigger] groups2[g],
        s.capacity,
    ) by {
        if g < s.groups.len() {
            assert(groups2[g] == s.groups[g]);
        } else {
            assert(groups2[g].buckets.len() == 0);
        }
    }
    let keyed = merge_keys_spec(groups2[gi], cols);
    assert(keyed is Ok);
    let (g2, mapping) = keyed.unwrap();
    crate::keys::lemma_match_rows_props(groups2[gi].buckets, incoming_rows(cols));
    assert(group_wf(g2, s.capacity)) by {
        let old_g = groups2[gi];
        assert forall|b: int| 0 <= b < g2.buckets.len() implies bucket_wf(
            #[trigger] g2.buckets[b],
            g2.schema,
            s.capacity,
        ) by {
            if b < old_g.buckets.len() {
                assert(g2.buckets[b] == old_g.buckets[b]);
                assert(group_wf(old_g, s.capacity));
            } else {
                let rows = incoming_rows(cols);
                let q = choose|q: int| 0 <= q < rows.len() && g2.buckets[b].keys == rows[q];
                assert(g2.buckets[b].blocks.len() == 0);
                if cols.len() == 0 {
                    assert(rows[q] =~= Seq::<Seq<u8>>::empty());
                } else {
                    assert(rows[q].len() == cols.len());
                    assert forall|k: int| 0 <= k < g2.buckets[b].keys.len() implies (
                    #[trigger] g2.buckets[b].keys[k]).len() == g2.schema.keys[k].size by {
                        assert(rows[q][k] == cols[k][q]);
                        assert(key_cols_sizes_ok(cols, g2.schema));
                    }
                }
            }
        }
    }
    let merged = merge_lists_upto(g2, s.capacity, mapping, lists, mapping.len() as int);
    assert(merged is Ok);
    lemma_merge_lists_upto_wf(g2, s.capacity, mapping, lists, mapping.len() as int);
    let g3 = merged.unwrap();
    let result = merge_group_spec(s, rec).unwrap();
    assert(result == StoreModel { capacity: s.capacity, groups: groups2.update(gi, g3) });
    assert forall|g: int| 0 <= g < result.groups.len() implies group_wf(
        #[trigger] result.groups[g],
        result.capacity,
    ) by {
        if g != gi {
            assert(result.groups[g] == groups2[g]);
        }
    }
}

proof fn lemma_merge_lists_upto_wf(
    g: GroupModel,
    cap: nat,
    mapping: Seq<int>,
    lists: Seq<Seq<Seq<BlockFieldModel>>>,
    n: int,
)
    requires
        cap >= 1,
        group_wf(g, cap),
        merge_lists_upto(g, cap, mapping, lists, n) is Ok,
    ensures
        group_wf(merge_lists_upto(g, cap, mapping, lists, n).unwrap(), cap),
        merge_lists_upto(g, cap, mapping, lists, n).unwrap().schema == g.schema,
        merge_lists_upto(g, cap, mapping, lists, n).unwrap().buckets.len() == g.buckets.len(),
    decreases n,
{
    if n <= 0 {
    } else {
        lemma_merge_lists_upto_wf(g, cap, mapping, lists, n - 1);
        let g2 = merge_lists_upto(g, cap, mapping, lists, n - 1).unwrap();
        lemma_merge_list_spec_wf(g2, cap, mapping[n - 1], lists[n - 1]);
    }
}

proof fn lemma_merge_list_spec_wf(g: GroupModel, cap: nat, bidx: int, list: Seq<Seq<BlockFieldModel>>)
    requires
        cap >= 1,
        group_wf(g, cap),
        merge_list_spec(g, cap, bidx, list) is Ok,
    ensures
        group_wf(merge_list_spec(g, cap, bidx, list).unwrap(), cap),
        merge_list_spec(g, cap, bidx, list).unwrap().schema == g.schema,
        merge_list_spec(g, cap, bidx, list).unwrap().buckets.len() == g.buckets.len(),
    decreases list.len(),
{
    if list.len() == 0 {
    } else {
        lemma_merge_list_spec_wf(g, cap, bidx, list.drop_last());
        let g2 = merge_list_spec(g, cap, bidx, list.drop_last()).unwrap();
        let stepped = merge_block_spec(g2.buckets[bidx], g2.schema, cap, list.last());
        assert(stepped is Ok);
        assert(bucket_wf(g2.buckets[bidx], g2.schema, cap));
        lemma_merge_block_spec_wf(g2.buckets[bidx], g2.schema, cap, list.last());
        let g3 = merge_list_spec(g, cap, bidx, list).unwrap();
        assert forall|b: int| 0 <= b < g3.buckets.len() implies bucket_wf(
            #[trigger] g3.buckets[b],
            g3.schema,
            cap,
        ) by {
            if b != bidx {
                assert(g3.buckets[b] == g2.buckets[b]);
            }
        }
    }
}

/// One sequence is an unchanged prefix of another: merging never rewrites
/// what a column or row list already held, it only appends.
pub open spec fn prefix_of<A>(o: Seq<A>, n: Seq<A>) -> bool {
    o.len() <= n.len() && o == n.take(o.len() as int)
}

pub open spec fn block_extends(o: BlockModel, n: BlockModel) -> bool {
    &&& prefix_of(o.rows, n.rows)
    &&& o.columns.len() == n.columns.len()
    &&& forall|c: int| 0 <= c < o.columns.len() ==> prefix_of(#[trigger] o.columns[c], n.columns[c])
}

pub open spec fn bucket_extends(o: BucketModel, n: BucketModel) -> bool {
    &&& n.keys == o.keys
    &&& o.blocks.len() <= n.blocks.len()
    &&& forall|i: int| 0 <= i < o.blocks.len() ==> block_extends(#[trigger] o.blocks[i], n.blocks[i])
}

pub open spec fn group_extends(o: GroupModel, n: GroupModel) -> bool {
    &&& n.schema == o.schema
    &&& o.buckets.len() <= n.buckets.len()
    &&& forall|b: int| 0 <= b < o.buckets.len() ==> bucket_extends(#[trigger] o.buckets[b], n.buckets[b])
}

/// The merge only appends: nothing a store held — no group, bucket,
/// block, row identity, key byte or component byte — is removed or
/// altered, and no group's schema changes.
pub open spec fn store_extends(o: StoreModel, n: StoreModel) -> bool {
    &&& n.capacity == o.capacity
    &&& o.groups.len() <= n.groups.len()
    &&& forall|g: int| 0 <= g < o.groups.len() ==> group_extends(#[trigger] o.groups[g], n.groups[g])
}

proof fn lemma_prefix_of_refl<A>(o: Seq<A>)
    ensures
        prefix_of(o, o),
{
    assert(o.take(o.len() as int) =~= o);
}

proof fn lemma_prefix_of_trans<A>(a: Seq<A>, b: Seq<A>, c: Seq<A>)
    requires
        prefix_of(a, b),
        prefix_of(b, c),
    ensures
        prefix_of(a, c),
{
    assert(c.take(b.len() as int).take(a.len() as int) =~= c.take(a.len() as int));
}

proof fn lemma_store_extends_refl(o: StoreModel)
    ensures
        store_extends(o, o),
{
    assert forall|g: int| 0 <= g < o.groups.len() implies group_extends(
        #[trigger] o.groups[g],
        o.groups[g],
    ) by {
        lemma_group_extends_refl(o.groups[g]);
    }
}

proof fn lemma_group_extends_refl(o: GroupModel)
    ensures
        group_extends(o, o),
{
    assert forall|b: int| 0 <= b < o.buckets.len() implies bucket_extends(
        #[trigger] o.buckets[b],
        o.buckets[b],
    ) by {
        lemma_bucket_extends_refl(o.buckets[b]);
    }
}

proof fn lemma_bucket_extends_refl(o: BucketModel)
    ensures
        bucket_extends(o, o),
{
    assert forall|i: int| 0 <= i < o.blocks.len() implies block_extends(
        #[trigger] o.blocks[i],
        o.blocks[i],
    ) by {
        lemma_block_extends_refl(o.blocks[i]);
    }
}

proof fn lemma_block_extends_refl(o: BlockModel)
    ensures
        block_extends(o, o),
{
    lemma_prefix_of_refl(o.rows);
    assert forall|c: int| 0 <= c < o.columns.len() implies prefix_of(
        #[trigger] o.columns[c],
        o.columns[c],
    ) by {
        lemma_prefix_of_refl(o.columns[c]);
    }
}

proof fn lemma_block_extends_trans(a: BlockModel, b: BlockModel, c: BlockModel)
    requires
        block_extends(a, b),
        block_extends(b, c),
    ensures
        block_extends(a, c),
{
    lemma_prefix_of_trans(a.rows, b.rows, c.rows);
    assert forall|q: int| 0 <= q < a.columns.len() implies prefix_of(
        #[trigger] a.columns[q],
        c.columns[q],
    ) by {
        lemma_prefix_of_trans(a.columns[q], b.columns[q], c.columns[q]);
    }
}

proof fn lemma_bucket_extends_trans(a: BucketModel, b: BucketModel, c: BucketModel)
    requires
        bucket_extends(a, b),
        bucket_extends(b, c),
    ensures
        bucket_extends(a, c),
{
    assert forall|i: int| 0 <= i < a.blocks.len() implies block_extends(
        #[trigger] a.blocks[i],
        c.blocks[i],
    ) by {
        lemma_block_extends_trans(a.blocks[i], b.blocks[i], c.blocks[i]);
    }
}

proof fn lemma_group_extends_trans(a: GroupModel, b: GroupModel, c: GroupModel)
    requires
        group_extends(a, b),
        group_extends(b, c),
    ensures
        group_extends(a, c),
{
    assert forall|q: int| 0 <= q < a.buckets.len() implies bucket_extends(
        #[trigger] a.buckets[q],
        c.buckets[q],
    ) by {
        lemma_bucket_extends_trans(a.buckets[q], b.buckets[q], c.buckets[q]);
    }
}

proof fn lemma_store_extends_trans(a: StoreModel, b: StoreModel, c: StoreModel)
    requires
        store_extends(a, b),
        store_extends(b, c),
    ensures
        store_extends(a, c),
{
    assert forall|g: int| 0 <= g < a.groups.len() implies group_extends(
        #[trigger] a.groups[g],
        c.groups[g],
    ) by {
        lemma_group_extends_trans(a.groups[g], b.groups[g], c.groups[g]);
    }
}

/// Scattering only appends to columns: every column of every block keeps
/// its old bytes as an unchanged prefix.
proof fn lemma_scatter_upto_prefix(
    b2: Seq<BlockModel>,
    schema: SchemaModel,
    comps: Seq<Seq<RunModel>>,
    rs: Seq<(int, int)>,
    m: int,
    c: int,
)
    requires
        0 <= c <= schema.components.len(),
        comps.len() == schema.components.len(),
        forall|q: int| 0 <= q < comps.len() ==> comp_data_ok(
            #[trigger] comps[q],
            schema.components[q].size,
            m,
        ),
        forall|r: int| 0 <= r < rs.len() ==> 0 <= (#[trigger] rs[r]).0 < b2.len(),
        forall|r: int| 0 <= r < rs.len() ==> (#[trigger] rs[r]).1 >= 0,
        forall|r1: int, r2: int| 0 <= r1 < r2 < rs.len() ==> rs[r1].0 < rs[r2].0,
        ranges_total(rs) == m,
        forall|i: int| 0 <= i < b2.len() ==> (#[trigger] b2[i]).columns.len()
            == schema.components.len(),
    ensures
        forall|i: int, q: int|
            0 <= i < b2.len() && 0 <= q < schema.components.len() ==> prefix_of(
                #[trigger] b2[i].columns[q],
                scatter_upto(b2, schema, comps, rs, c)[i].columns[q],
            ),
    decreases c,
{
    lemma_scatter_upto_wf(b2, schema, comps, rs, m, c);
    let st = scatter_upto(b2, schema, comps, rs, c);
    if c == 0 {
        assert forall|i: int, q: int|
            0 <= i < b2.len() && 0 <= q < schema.components.len() implies prefix_of(
            #[trigger] b2[i].columns[q],
            st[i].columns[q],
        ) by {
            lemma_prefix_of_refl(b2[i].columns[q]);
        }
        return ;
    }
    lemma_scatter_upto_prefix(b2, schema, comps, rs, m, c - 1);
    lemma_scatter_upto_wf(b2, schema, comps, rs, m, c - 1);
    let prev = scatter_upto(b2, schema, comps, rs, c - 1);
    let size = schema.components[c - 1].size;
    let data = runs_bytes(comps[c - 1]);
    crate::scatter::lemma_runs_bytes_len(comps[c - 1], size);
    crate::scatter::lemma_scatter_spec_props(prev, c - 1, size, data, rs);
    assert(st == scatter_spec(prev, c - 1, size, data, rs));
    assert forall|i: int, q: int|
        0 <= i < b2.len() && 0 <= q < schema.components.len() implies prefix_of(
        #[trigger] b2[i].columns[q],
        st[i].columns[q],
    ) by {
        if exists|r: int| 0 <= r < rs.len() && (#[trigger] rs[r]).0 == i {
            let r = choose|r: int| 0 <= r < rs.len() && (#[trigger] rs[r]).0 == i;
            assert(st[rs[r].0].columns == prev[rs[r].0].columns.update(
                c - 1,
                prev[rs[r].0].columns[c - 1] + data.subrange(
                    ranges_total(rs.take(r)) * size,
                    ranges_total(rs.take(r + 1)) * size,
                ),
            ));
            if q == c - 1 {
                let seg = data.subrange(
                    ranges_total(rs.take(r)) * size,
                    ranges_total(rs.take(r + 1)) * size,
                );
                assert(prefix_of(prev[i].columns[q], prev[i].columns[q] + seg)) by {
                    assert((prev[i].columns[q] + seg).take(prev[i].columns[q].len() as int)
                        =~= prev[i].columns[q]);
                }
                lemma_prefix_of_trans(b2[i].columns[q], prev[i].columns[q], st[i].columns[q]);
            } else {
                assert(st[i].columns[q] == prev[i].columns[q]);
            }
        } else {
            assert(st[i] == prev[i]);
        }
    }
}

/// Merging one block record only appends to its bucket.
proof fn lemma_merge_block_spec_extends(
    bucket: BucketModel,
    schema: SchemaModel,
    cap: nat,
    rec: Seq<BlockFieldModel>,
)
    requires
        cap >= 1,
        bucket_wf(bucket, schema, cap),
        merge_block_spec(bucket, schema, cap, rec) is Ok,
    ensures
        bucket_extends(bucket, merge_block_spec(bucket, schema, cap, rec).unwrap()),
{
    let parts = block_record_parts(rec);
    let (ids, comps) = parts.unwrap();
    let ncomp = schema.components.len();
    let m = ids.len() as int;
    crate::pack::lemma_pack_spec_props(bucket.blocks, ids, cap, ncomp);
    let (b2, rs) = pack_spec(bucket.blocks, ids, cap, ncomp);
    let fb = first_pack_block(bucket.blocks, cap);
    assert forall|i: int| 0 <= i < b2.len() implies (#[trigger] b2[i]).columns.len()
        == ncomp by {
        if ids.len() == 0 {
            assert(b2[i] == bucket.blocks[i]);
            assert(block_wf(bucket.blocks[i], schema, cap));
        } else if i < fb {
            assert(b2[i] == bucket.blocks[i]);
            assert(block_wf(bucket.blocks[i], schema, cap));
        } else {
            let r = i - fb;
            assert(b2[fb + r].columns == crate::pack::cols_at(bucket.blocks, fb + r, ncomp));
            if fb + r < bucket.blocks.len() {
                assert(block_wf(bucket.blocks[fb + r], schema, cap));
            }
        }
    }
    lemma_scatter_upto_prefix(b2, schema, comps, rs, m, ncomp as int);
    lemma_scatter_upto_wf(b2, schema, comps, rs, m, ncomp as int);
    let st = scatter_upto(b2, schema, comps, rs, ncomp as int);
    // every old block survives into the packed blocks as a prefix
    assert forall|i: int| 0 <= i < bucket.blocks.len() implies block_extends(
        #[trigger] bucket.blocks[i],
        b2[i],
    ) by {
        if ids.len() == 0 || i < fb {
            assert(b2[i] == bucket.blocks[i]);
            lemma_block_extends_refl(bucket.blocks[i]);
        } else {
            let r = i - fb;
            assert(r == 0 && fb < bucket.blocks.len());
            assert(b2[fb + 0].rows == crate::pack::rows_at(bucket.blocks, fb) + ids.subrange(
                ranges_total(rs.take(0)),
                ranges_total(rs.take(1)),
            ));
            assert(b2[fb + 0].columns == crate::pack::cols_at(bucket.blocks, fb, ncomp));
            assert(prefix_of(bucket.blocks[i].rows, b2[i].rows)) by {
                assert(b2[i].rows.take(bucket.blocks[i].rows.len() as int)
                    =~= bucket.blocks[i].rows);
            }
            assert(block_wf(bucket.blocks[i], schema, cap));
            assert forall|q: int| 0 <= q < bucket.blocks[i].columns.len() implies prefix_of(
                #[trigger] bucket.blocks[i].columns[q],
                b2[i].columns[q],
            ) by {
                assert(b2[i].columns[q] == bucket.blocks[i].columns[q]);
                lemma_prefix_of_refl(bucket.blocks[i].columns[q]);
            }
        }
    }
    // scattering then appends to columns only
    assert forall|i: int| 0 <= i < bucket.blocks.len() implies block_extends(
        #[trigger] bucket.blocks[i],
        st[i],
    ) by {
        assert(block_extends(bucket.blocks[i], b2[i]));
        assert(block_wf(bucket.blocks[i], schema, cap));
        assert(st[i].rows == b2[i].rows);
        lemma_prefix_of_refl(b2[i].rows);
        assert forall|q: int| 0 <= q < bucket.blocks[i].columns.len() implies prefix_of(
            #[trigger] bucket.blocks[i].columns[q],
            st[i].columns[q],
        ) by {
            assert(prefix_of(b2[i].columns[q], st[i].columns[q]));
            lemma_prefix_of_trans(bucket.blocks[i].columns[q], b2[i].columns[q], st[i].columns[q]);
        }
        lemma_prefix_of_trans(bucket.blocks[i].rows, b2[i].rows, st[i].rows);
    }
}

/// Merging a block list only appends to the group, whether it succeeds
/// or stops at the first failure.
proof fn lemma_merge_list_state_extends(
    g: GroupModel,
    cap: nat,
    bidx: int,
    list: Seq<Seq<BlockFieldModel>>,
)
    requires
        cap >= 1,
        group_wf(g, cap),
    ensures
        group_extends(g, merge_list_state(g, cap, bidx, list)),
        group_wf(merge_list_state(g, cap, bidx, list), cap),
    decreases list.len(),
{
    if list.len() == 0 {
        lemma_group_extends_refl(g);
    } else {
        lemma_merge_list_state_extends(g, cap, bidx, list.drop_last());
        let g2 = merge_list_state(g, cap, bidx, list.drop_last());
        if merge_list_spec(g, cap, bidx, list.drop_last()) is Err {
        } else if !(0 <= bidx < g2.buckets.len()) {
        } else {
            match merge_block_spec(g2.buckets[bidx], g2.schema, cap, list.last()) {
                Err(_) => {},
                Ok(bk) => {
                    assert(bucket_wf(g2.buckets[bidx], g2.schema, cap));
                    lemma_merge_block_spec_extends(g2.buckets[bidx], g2.schema, cap, list.last());
                    lemma_merge_block_spec_wf(g2.buckets[bidx], g2.schema, cap, list.last());
                    let g3 = GroupModel {
                        schema: g2.schema,
                        buckets: g2.buckets.update(bidx, bk),
                    };
                    assert(group_extends(g2, g3)) by {
                        assert forall|b: int| 0 <= b < g2.buckets.len() implies bucket_extends(
                            #[trigger] g2.buckets[b],
                            g3.buckets[b],
                        ) by {
                            if b == bidx {
                            } else {
                                lemma_bucket_extends_refl(g2.buckets[b]);
                            }
                        }
                    }
                    lemma_group_extends_trans(g, g2, g3);
                    assert forall|b: int| 0 <= b < g3.buckets.len() implies bucket_wf(
                        #[trigger] g3.buckets[b],
                        g3.schema,
                        cap,
                    ) by {
                        if b != bidx {
                            assert(g3.buckets[b] == g2.buckets[b]);
                        }
                    }
                },
            }
        }
    }
}

proof fn lemma_merge_lists_state_extends(
    g: GroupModel,
    cap: nat,
    mapping: Seq<int>,
    lists: Seq<Seq<Seq<BlockFieldModel>>>,
    n: int,
)
    requires
        cap >= 1,
        group_wf(g, cap),
    ensures
        group_extends(g, merge_lists_state(g, cap, mapping, lists, n)),
        group_wf(merge_lists_state(g, cap, mapping, lists, n), cap),
    decreases n,
{
    if n <= 0 {
        lemma_group_extends_refl(g);
    } else {
        lemma_merge_lists_state_extends(g, cap, mapping, lists, n - 1);
        let g2 = merge_lists_state(g, cap, mapping, lists, n - 1);
        if merge_lists_upto(g, cap, mapping, lists, n - 1) is Err {
        } else {
            lemma_merge_list_state_extends(g2, cap, mapping[n - 1], lists[n - 1]);
            lemma_group_extends_trans(
                g,
                g2,
                merge_list_state(g2, cap, mapping[n - 1], lists[n - 1]),
            );
        }
    }
}

proof fn lemma_merge_group_state_extends(s: StoreModel, rec: Seq<GroupFieldModel>)
    requires
        store_wf(s),
    ensures
        store_extends(s, merge_group_state(s, rec)),
        store_wf(merge_group_state(s, rec)),
{
    if rec.len() != 3 {
        lemma_store_extends_refl(s);
        return ;
    }
    match (rec[0], rec[1], rec[2]) {
        (
            GroupFieldModel::Schema(desc),
            GroupFieldModel::Keys(cols),
            GroupFieldModel::Buckets(lists),
        ) => {
            let (groups2, gi) = resolve_spec(s.groups, desc);
            lemma_find_equiv_group_is_first(s.groups, desc);
            let mid = StoreModel { capacity: s.capacity, groups: groups2 };
            assert(store_extends(s, mid)) by {
                assert forall|g: int| 0 <= g < s.groups.len() implies group_extends(
                    #[trigger] s.groups[g],
                    groups2[g],
                ) by {
                    assert(groups2[g] == s.groups[g]);
                    lemma_group_extends_refl(s.groups[g]);
                }
            }
            assert(store_wf(mid)) by {
                assert forall|g: int| 0 <= g < groups2.len() implies group_wf(
                    #[trigger] groups2[g],
                    s.capacity,
                ) by {
                    if g < s.groups.len() {
                        assert(groups2[g] == s.groups[g]);
                    } else {
                        assert(groups2[g].buckets.len() == 0);
                    }
                }
            }
            match merge_keys_spec(groups2[gi], cols) {
                Err(_) => {},
                Ok((g2, mapping)) => {
                    crate::keys::lemma_match_rows_props(
                        groups2[gi].buckets,
                        incoming_rows(cols),
                    );
                    assert(group_extends(groups2[gi], g2)) by {
                        assert forall|b: int|
                            0 <= b < groups2[gi].buckets.len() implies bucket_extends(
                            #[trigger] groups2[gi].buckets[b],
                            g2.buckets[b],
                        ) by {
                            assert(g2.buckets[b] == groups2[gi].buckets[b]);
                            lemma_bucket_extends_refl(groups2[gi].buckets[b]);
                        }
                    }
                    assert(group_wf(g2, s.capacity)) by {
                        let old_g = groups2[gi];
                        assert forall|b: int| 0 <= b < g2.buckets.len() implies bucket_wf(
                            #[trigger] g2.buckets[b],
                            g2.schema,
                            s.capacity,
                        ) by {
                            if b < old_g.buckets.len() {
                                assert(g2.buckets[b] == old_g.buckets[b]);
                                assert(group_wf(old_g, s.capacity));
                            } else {
                                let rows = incoming_rows(cols);
                                let q = choose|q: int|
                                    0 <= q < rows.len() && g2.buckets[b].keys == rows[q];
                                assert(g2.buckets[b].blocks.len() == 0);
                                if cols.len() == 0 {
                                    assert(rows[q] =~= Seq::<Seq<u8>>::empty());
                                } else {
                                    assert(rows[q].len() == cols.len());
                                    assert forall|k: int|
                                        0 <= k < g2.buckets[b].keys.len() implies (
                                    #[trigger] g2.buckets[b].keys[k]).len() == g2.schema.keys[
                                        k].size by {
                                        assert(rows[q][k] == cols[k][q]);
                                        assert(key_cols_sizes_ok(cols, g2.schema));
                                    }
                                }
                            }
                        }
                    }
                    let gfinal = if lists.len() != mapping.len() {
                        g2
                    } else {
                        merge_lists_state(g2, s.capacity, mapping, lists, mapping.len() as int)
                    };
                    if lists.len() != mapping.len() {
                        lemma_group_extends_refl(g2);
                    } else {
                        lemma_merge_lists_state_extends(
                            g2,
                            s.capacity,
                            mapping,
                            lists,
                            mapping.len() as int,
                        );
                    }
                    lemma_group_extends_trans(groups2[gi], g2, gfinal);
                    let result = StoreModel {
                        capacity: s.capacity,
                        groups: groups2.update(gi, gfinal),
                    };
                    assert(store_extends(mid, result)) by {
                        assert forall|g: int| 0 <= g < groups2.len() implies group_extends(
                            #[trigger] groups2[g],
                            result.groups[g],
                        ) by {
                            if g == gi {
                            } else {
                                lemma_group_extends_refl(groups2[g]);
                            }
                        }
                    }
                    lemma_store_extends_trans(s, mid, result);
                    assert(store_wf(result)) by {
                        assert forall|g: int| 0 <= g < result.groups.len() implies group_wf(
                            #[trigger] result.groups[g],
                            result.capacity,
                        ) by {
                            if g != gi {
                                assert(result.groups[g] == groups2[g]);
                            }
                        }
                    }
                },
            }
        },
        _ => {
            lemma_store_extends_refl(s);
        },
    }
}

/// The merge only appends, on success and on failure alike: the state it
/// leaves behind extends the old store, and stays well formed.
pub proof fn law_merge_extends(s: StoreModel, records: Seq<Seq<GroupFieldModel>>)
    requires
        store_wf(s),
    ensures
        store_extends(s, crate::walk::merge_state_spec(s, records)),
        store_wf(crate::walk::merge_state_spec(s, records)),
    decreases records.len(),
{
    if records.len() == 0 {
        lemma_store_extends_refl(s);
    } else {
        law_merge_extends(s, records.drop_last());
        let s2 = crate::walk::merge_state_spec(s, records.drop_last());
        if merge_spec(s, records.drop_last()) is Err {
        } else {
            lemma_merge_group_state_extends(s2, records.last());
            lemma_store_extends_trans(s, s2, crate::walk::merge_group_state(s2, records.last()));
        }
    }
}

/// Bucket dedup, reuse half, stated under the group invariant that no
/// two live buckets share key values: a matching bucket is then unique,
/// so the first-match rule routes the row into it and allocates nothing.
pub proof fn law_bucket_dedup_reuses_unique(buckets: Seq<BucketModel>, row: Seq<Seq<u8>>, j: int)
    requires
        forall|b1: int, b2: int|
            0 <= b1 < b2 < buckets.len() ==> buckets[b1].keys != buckets[b2].keys,
        0 <= j < buckets.len(),
        buckets[j].keys == row,
    ensures
        match_step(buckets, row) == (buckets, j),
{
    assert forall|q: int| 0 <= q < j implies (#[trigger] buckets[q].keys) != row by {
        assert(buckets[q].keys != buckets[j].keys);
    }
    law_bucket_dedup_reuses(buckets, row, j);
}

/// The row identities a block list holds, as a multiset.
pub open spec fn blocks_ids(blocks: Seq<BlockModel>) -> Multiset<u64>
    decreases blocks.len(),
{
    if blocks.len() == 0 {
        Multiset::<u64>::empty()
    } else {
        blocks_ids(blocks.drop_last()).add(blocks.last().rows.to_multiset())
    }
}

pub open spec fn buckets_ids(buckets: Seq<BucketModel>) -> Multiset<u64>
    decreases buckets.len(),
{
    if buckets.len() == 0 {
        Multiset::<u64>::empty()
    } else {
        buckets_ids(buckets.drop_last()).add(blocks_ids(buckets.last().blocks))
    }
}

/// All row identities a store holds, as a multiset.
pub open spec fn store_ids(s: StoreModel) -> Multiset<u64>
    decreases s.groups.len(),
{
    if s.groups.len() == 0 {
        Multiset::<u64>::empty()
    } else {
        store_ids(StoreModel { capacity: s.capacity, groups: s.groups.drop_last() }).add(
            buckets_ids(s.groups.last().buckets),
        )
    }
}

/// The row identities a record stream carries, as a multiset.
pub open spec fn block_rec_ids(rec: Seq<BlockFieldModel>) -> Multiset<u64> {
    match block_record_parts(rec) {
        Some((ids, _)) => ids.to_multiset(),
        None => Multiset::<u64>::empty(),
    }
}

pub open spec fn list_ids(list: Seq<Seq<BlockFieldModel>>) -> Multiset<u64>
    decreases list.len(),
{
    if list.len() == 0 {
        Multiset::<u64>::empty()
    } else {
        list_ids(list.drop_last()).add(block_rec_ids(list.last()))
    }
}

pub open spec fn lists_ids_upto(lists: Seq<Seq<Seq<BlockFieldModel>>>, n: int) -> Multiset<u64>
    decreases n,
{
    if n <= 0 {
        Multiset::<u64>::empty()
    } else {
        lists_ids_upto(lists, n - 1).add(list_ids(lists[n - 1]))
    }
}

pub open spec fn group_rec_ids(rec: Seq<GroupFieldModel>) -> Multiset<u64> {
    if rec.len() == 3 {
        match rec[2] {
            GroupFieldModel::Buckets(lists) => lists_ids_upto(lists, lists.len() as int),
            _ => Multiset::<u64>::empty(),
        }
    } else {
        Multiset::<u64>::empty()
    }
}

pub open spec fn records_ids(records: Seq<Seq<GroupFieldModel>>) -> Multiset<u64>
    decreases records.len(),
{
    if records.len() == 0 {
        Multiset::<u64>::empty()
    } else {
        records_ids(records.drop_last()).add(group_rec_ids(records.last()))
    }
}

/// Packing moves exactly the incoming identities into the blocks.
proof fn lemma_pack_spec_ids(blocks: Seq<BlockModel>, ids: Seq<u64>, cap: nat, ncomp: nat)
    requires
        cap >= 1,
    ensures
        blocks_ids(pack_spec(blocks, ids, cap, ncomp).0) =~= blocks_ids(blocks).add(
            ids.to_multiset(),
        ),
    decreases ids.len(),
{
    broadcast use vstd::seq_lib::group_to_multiset_ensures;
    broadcast use vstd::multiset::group_multiset_axioms;

    if ids.len() == 0 {
        vstd::multiset::lemma_multiset_empty_len(ids.to_multiset());
        assert(ids.to_multiset() =~= Multiset::<u64>::empty());
        return ;
    }
    if blocks.len() > 0 && blocks.last().rows.len() < cap {
        let free = cap - blocks.last().rows.len();
        let t = if free < ids.len() { free as int } else { ids.len() as int };
        let nb = BlockModel {
            rows: blocks.last().rows + ids.take(t),
            columns: blocks.last().columns,
        };
        let base = blocks.update(blocks.len() - 1, nb);
        assert(base.drop_last() =~= blocks.drop_last());
        assert(base.last() == nb);
        vstd::seq_lib::lemma_multiset_commutative(blocks.last().rows, ids.take(t));
        assert(blocks_ids(base) =~= blocks_ids(blocks).add(ids.take(t).to_multiset()));
        lemma_pack_spec_ids(base, ids.skip(t), cap, ncomp);
        assert(ids =~= ids.take(t) + ids.skip(t));
        vstd::seq_lib::lemma_multiset_commutative(ids.take(t), ids.skip(t));
    } else {
        let t = if cap < ids.len() { cap as int } else { ids.len() as int };
        let nb = BlockModel {
            rows: ids.take(t),
            columns: Seq::new(ncomp, |c: int| Seq::<u8>::empty()),
        };
        let base = blocks.push(nb);
        assert(base.drop_last() =~= blocks);
        assert(base.last() == nb);
        lemma_pack_spec_ids(base, ids.skip(t), cap, ncomp);
        assert(ids =~= ids.take(t) + ids.skip(t));
        vstd::seq_lib::lemma_multiset_commutative(ids.take(t), ids.skip(t));
    }
}

/// Identity multisets depend on the rows alone.
proof fn lemma_blocks_ids_rows_eq(a: Seq<BlockModel>, b: Seq<BlockModel>)
    requires
        a.len() == b.len(),
        forall|i: int| 0 <= i < a.len() ==> (#[trigger] a[i]).rows == b[i].rows,
    ensures
        blocks_ids(a) == blocks_ids(b),
    decreases a.len(),
{
    if a.len() > 0 {
        assert(forall|i: int|
            0 <= i < a.len() - 1 ==> (#[trigger] a.drop_last()[i]).rows == b.drop_last()[i].rows);
        lemma_blocks_ids_rows_eq(a.drop_last(), b.drop_last());
    }
}

/// Merging one block record moves exactly its row identities into the
/// bucket.
proof fn lemma_merge_block_spec_ids(
    bucket: BucketModel,
    schema: SchemaModel,
    cap: nat,
    rec: Seq<BlockFieldModel>,
)
    requires
        cap >= 1,
        bucket_wf(bucket, schema, cap),
        merge_block_spec(bucket, schema, cap, rec) is Ok,
    ensures
        blocks_ids(merge_block_spec(bucket, schema, cap, rec).unwrap().blocks) == blocks_ids(
            bucket.blocks,
        ).add(block_rec_ids(rec)),
{
    let parts = block_record_parts(rec);
    let (ids, comps) = parts.unwrap();
    let ncomp = schema.components.len();
    let m = ids.len() as int;
    crate::pack::lemma_pack_spec_props(bucket.blocks, ids, cap, ncomp);
    let (b2, rs) = pack_spec(bucket.blocks, ids, cap, ncomp);
    let fb = first_pack_block(bucket.blocks, cap);
    assert forall|i: int| 0 <= i < b2.len() implies (#[trigger] b2[i]).columns.len()
        == ncomp by {
        if ids.len() == 0 {
            assert(b2[i] == bucket.blocks[i]);
            assert(block_wf(bucket.blocks[i], schema, cap));
        } else if i < fb {
            assert(b2[i] == bucket.blocks[i]);
            assert(block_wf(bucket.blocks[i], schema, cap));
        } else {
            let r = i - fb;
            assert(b2[fb + r].columns == crate::pack::cols_at(bucket.blocks, fb + r, ncomp));
            if fb + r < bucket.blocks.len() {
                assert(block_wf(bucket.blocks[fb + r], schema, cap));
            }
        }
    }
    lemma_pack_spec_ids(bucket.blocks, ids, cap, ncomp);
    lemma_scatter_upto_wf(b2, schema, comps, rs, m, ncomp as int);
    let st = scatter_upto(b2, schema, comps, rs, ncomp as int);
    lemma_blocks_ids_rows_eq(st, b2);
}

/// Replacing one bucket changes the identity multiset by exactly the
/// bucket's own change.
proof fn lemma_buckets_ids_update(buckets: Seq<BucketModel>, b: int, nb: BucketModel)
    requires
        0 <= b < buckets.len(),
    ensures
        buckets_ids(buckets.update(b, nb)).add(blocks_ids(buckets[b].blocks)) == buckets_ids(
            buckets,
        ).add(blocks_ids(nb.blocks)),
    decreases buckets.len(),
{
    broadcast use vstd::multiset::group_multiset_axioms;

    let upd = buckets.update(b, nb);
    if b == buckets.len() - 1 {
        assert(upd.drop_last() =~= buckets.drop_last());
        assert(upd.last() == nb);
        assert(buckets_ids(upd).add(blocks_ids(buckets[b].blocks)) =~= buckets_ids(buckets).add(
            blocks_ids(nb.blocks),
        ));
    } else {
        assert(upd.drop_last() =~= buckets.drop_last().update(b, nb));
        assert(upd.last() == buckets.last());
        lemma_buckets_ids_update(buckets.drop_last(), b, nb);
        assert(buckets.drop_last()[b] == buckets[b]);
        assert forall|id: u64| true implies #[trigger] buckets_ids(upd).add(blocks_ids(
            buckets[b].blocks,
        )).count(id) == buckets_ids(buckets).add(blocks_ids(nb.blocks)).count(id) by {
            assert(buckets_ids(upd) == buckets_ids(upd.drop_last()).add(blocks_ids(
                upd.last().blocks,
            )));
            assert(buckets_ids(buckets) == buckets_ids(buckets.drop_last()).add(blocks_ids(
                buckets.last().blocks,
            )));
            assert(buckets_ids(buckets.drop_last().update(b, nb)).add(blocks_ids(
                buckets.drop_last()[b].blocks,
            )).count(id) == buckets_ids(buckets.drop_last()).add(blocks_ids(nb.blocks)).count(
                id,
            ));
        }
        assert(buckets_ids(upd).add(blocks_ids(buckets[b].blocks)) =~= buckets_ids(buckets).add(
            blocks_ids(nb.blocks),
        ));
    }
}

/// Merging one block list moves exactly its row identities into the
/// group.
proof fn lemma_merge_list_spec_ids(
    g: GroupModel,
    cap: nat,
    bidx: int,
    list: Seq<Seq<BlockFieldModel>>,
)
    requires
        cap >= 1,
        group_wf(g, cap),
        merge_list_spec(g, cap, bidx, list) is Ok,
    ensures
        buckets_ids(merge_list_spec(g, cap, bidx, list).unwrap().buckets) == buckets_ids(
            g.buckets,
        ).add(list_ids(list)),
    decreases list.len(),
{
    broadcast use vstd::multiset::group_multiset_axioms;

    if list.len() == 0 {
        vstd::multiset::lemma_multiset_empty_len(list_ids(list));
        assert(buckets_ids(g.buckets).add(list_ids(list)) =~= buckets_ids(g.buckets));
    } else {
        lemma_merge_list_spec_ids(g, cap, bidx, list.drop_last());
        lemma_merge_list_spec_wf(g, cap, bidx, list.drop_last());
        let g2 = merge_list_spec(g, cap, bidx, list.drop_last()).unwrap();
        let stepped = merge_block_spec(g2.buckets[bidx], g2.schema, cap, list.last());
        assert(stepped is Ok);
        assert(bucket_wf(g2.buckets[bidx], g2.schema, cap));
        lemma_merge_block_spec_ids(g2.buckets[bidx], g2.schema, cap, list.last());
        lemma_buckets_ids_update(g2.buckets, bidx, stepped.unwrap());
        let lhs = buckets_ids(merge_list_spec(g, cap, bidx, list).unwrap().buckets);
        assert forall|id: u64| true implies #[trigger] lhs.count(id) == buckets_ids(
            g.buckets,
        ).add(list_ids(list)).count(id) by {
            assert(lhs.add(blocks_ids(g2.buckets[bidx].blocks)).count(id) == buckets_ids(
                g2.buckets,
            ).add(blocks_ids(stepped.unwrap().blocks)).count(id));
        }
        assert(lhs =~= buckets_ids(g.buckets).add(list_ids(list)));
    }
}

proof fn lemma_merge_lists_upto_ids(
    g: GroupModel,
    cap: nat,
    mapping: Seq<int>,
    lists: Seq<Seq<Seq<BlockFieldModel>>>,
    n: int,
)
    requires
        cap >= 1,
        group_wf(g, cap),
        merge_lists_upto(g, cap, mapping, lists, n) is Ok,
    ensures
        buckets_ids(merge_lists_upto(g, cap, mapping, lists, n).unwrap().buckets) == buckets_ids(
            g.buckets,
        ).add(lists_ids_upto(lists, n)),
    decreases n,
{
    broadcast use vstd::multiset::group_multiset_axioms;

    if n <= 0 {
        vstd::multiset::lemma_multiset_empty_len(lists_ids_upto(lists, n));
        assert(buckets_ids(g.buckets).add(lists_ids_upto(lists, n)) =~= buckets_ids(g.buckets));
    } else {
        lemma_merge_lists_upto_ids(g, cap, mapping, lists, n - 1);
        lemma_merge_lists_upto_wf(g, cap, mapping, lists, n - 1);
        let g2 = merge_lists_upto(g, cap, mapping, lists, n - 1).unwrap();
        lemma_merge_list_spec_ids(g2, cap, mapping[n - 1], lists[n - 1]);
        assert(buckets_ids(merge_lists_upto(g, cap, mapping, lists, n).unwrap().buckets)
            =~= buckets_ids(g.buckets).add(lists_ids_upto(lists, n)));
    }
}

/// Routing key rows allocates only empty buckets, so it moves no
/// identities.
proof fn lemma_buckets_ids_append_empty(old: Seq<BucketModel>, b2: Seq<BucketModel>)
    requires
        old.len() <= b2.len(),
        forall|i: int| 0 <= i < old.len() ==> #[trigger] b2[i] == old[i],
        forall|i: int| old.len() <= i < b2.len() ==> (#[trigger] b2[i]).blocks.len() == 0,
    ensures
        buckets_ids(b2) == buckets_ids(old),
    decreases b2.len(),
{
    broadcast use vstd::multiset::group_multiset_axioms;

    if b2.len() == old.len() {
        lemma_buckets_ids_congruent(old, b2);
    } else {
        assert(forall|i: int|
            0 <= i < old.len() ==> #[trigger] b2.drop_last()[i] == old[i]);
        lemma_buckets_ids_append_empty(old, b2.drop_last());
        assert(blocks_ids(b2.last().blocks) =~= Multiset::<u64>::empty());
        assert(buckets_ids(b2) =~= buckets_ids(old));
    }
}

proof fn lemma_buckets_ids_congruent(a: Seq<BucketModel>, b: Seq<BucketModel>)
    requires
        a.len() == b.len(),
        forall|i: int| 0 <= i < a.len() ==> #[trigger] b[i] == a[i],
    ensures
        buckets_ids(b) == buckets_ids(a),
    decreases a.len(),
{
    if a.len() > 0 {
        assert(forall|i: int|
            0 <= i < a.len() - 1 ==> #[trigger] b.drop_last()[i] == a.drop_last()[i]);
        lemma_buckets_ids_congruent(a.drop_last(), b.drop_last());
    }
}

/// Replacing one group changes the store's identity multiset by exactly
/// the group's own change.
proof fn lemma_store_ids_update(s: StoreModel, g: int, ng: GroupModel)
    requires
        0 <= g < s.groups.len(),
    ensures
        store_ids(StoreModel { capacity: s.capacity, groups: s.groups.update(g, ng) }).add(
            buckets_ids(s.groups[g].buckets),
        ) == store_ids(s).add(buckets_ids(ng.buckets)),
    decreases s.groups.len(),
{
    broadcast use vstd::multiset::group_multiset_axioms;

    let upd = s.groups.update(g, ng);
    if g == s.groups.len() - 1 {
        assert(upd.drop_last() =~= s.groups.drop_last());
        assert(upd.last() == ng);
        assert(store_ids(StoreModel { capacity: s.capacity, groups: upd }).add(buckets_ids(
            s.groups[g].buckets,
        )) =~= store_ids(s).add(buckets_ids(ng.buckets)));
    } else {
        assert(upd.drop_last() =~= s.groups.drop_last().update(g, ng));
        assert(upd.last() == s.groups.last());
        let dl = StoreModel { capacity: s.capacity, groups: s.groups.drop_last() };
        lemma_store_ids_update(dl, g, ng);
        assert(s.groups.drop_last()[g] == s.groups[g]);
        assert forall|id: u64| true implies #[trigger] store_ids(
            StoreModel { capacity: s.capacity, groups: upd },
        ).add(buckets_ids(s.groups[g].buckets)).count(id) == store_ids(s).add(buckets_ids(
            ng.buckets,
        )).count(id) by {
            assert(store_ids(StoreModel { capacity: s.capacity, groups: upd }) == store_ids(
                StoreModel { capacity: s.capacity, groups: upd.drop_last() },
            ).add(buckets_ids(upd.last().buckets)));
            assert(store_ids(s) == store_ids(dl).add(buckets_ids(s.groups.last().buckets)));
            assert(StoreModel { capacity: s.capacity, groups: upd.drop_last() } == StoreModel {
                capacity: s.capacity,
                groups: dl.groups.update(g, ng),
            });
            assert(store_ids(StoreModel { capacity: s.capacity, groups: dl.groups.update(g, ng) }).add(
                buckets_ids(dl.groups[g].buckets),
            ).count(id) == store_ids(dl).add(buckets_ids(ng.buckets)).count(id));
        }
        assert(store_ids(StoreModel { capacity: s.capacity, groups: upd }).add(buckets_ids(
            s.groups[g].buckets,
        )) =~= store_ids(s).add(buckets_ids(ng.buckets)));
    }
}

/// Merging one group record moves exactly its row identities into the
/// store.
proof fn lemma_merge_group_spec_ids(s: StoreModel, rec: Seq<GroupFieldModel>)
    requires
        store_wf(s),
        merge_group_spec(s, rec) is Ok,
    ensures
        store_ids(merge_group_spec(s, rec).unwrap()) == store_ids(s).add(group_rec_ids(rec)),
{
    broadcast use vstd::multiset::group_multiset_axioms;

    let desc = match rec[0] {
        GroupFieldModel::Schema(d) => d,
        _ => arbitrary(),
    };
    let cols = match rec[1] {
        GroupFieldModel::Keys(c) => c,
        _ => arbitrary(),
    };
    let lists = match rec[2] {
        GroupFieldModel::Buckets(l) => l,
        _ => arbitrary(),
    };
    let (groups2, gi) = resolve_spec(s.groups, desc);
    lemma_find_equiv_group_is_first(s.groups, desc);
    let mid = StoreModel { capacity: s.capacity, groups: groups2 };
    assert(store_ids(mid) == store_ids(s)) by {
        if groups2.len() > s.groups.len() {
            assert(groups2.drop_last() =~= s.groups);
            assert(groups2.last().buckets.len() == 0);
            assert(buckets_ids(groups2.last().buckets) =~= Multiset::<u64>::empty());
            assert(store_ids(mid) =~= store_ids(s));
        } else {
            assert(groups2 == s.groups);
        }
    }
    assert forall|g: int| 0 <= g < groups2.len() implies group_wf(
        #[trigger] groups2[g],
        s.capacity,
    ) by {
        if g < s.groups.len() {
            assert(groups2[g] == s.groups[g]);
        } else {
            assert(groups2[g].buckets.len() == 0);
        }
    }
    let keyed = merge_keys_spec(groups2[gi], cols);
    let (g2, mapping) = keyed.unwrap();
    crate::keys::lemma_match_rows_props(groups2[gi].buckets, incoming_rows(cols));
    assert(buckets_ids(g2.buckets) == buckets_ids(groups2[gi].buckets)) by {
        lemma_buckets_ids_append_empty(groups2[gi].buckets, g2.buckets);
    }
    assert(group_wf(g2, s.capacity)) by {
        let old_g = groups2[gi];
        assert forall|b: int| 0 <= b < g2.buckets.len() implies bucket_wf(
            #[trigger] g2.buckets[b],
            g2.schema,
            s.capacity,
        ) by {
            if b < old_g.buckets.len() {
                assert(g2.buckets[b] == old_g.buckets[b]);
                assert(group_wf(old_g, s.capacity));
            } else {
                let rows = incoming_rows(cols);
                let q = choose|q: int| 0 <= q < rows.len() && g2.buckets[b].keys == rows[q];
                assert(g2.buckets[b].blocks.len() == 0);
                if cols.len() == 0 {
                    assert(rows[q] =~= Seq::<Seq<u8>>::empty());
                } else {
                    assert(rows[q].len() == cols.len());
                    assert forall|k: int| 0 <= k < g2.buckets[b].keys.len() implies (
                    #[trigger] g2.buckets[b].keys[k]).len() == g2.schema.keys[k].size by {
                        assert(rows[q][k] == cols[k][q]);
                        assert(key_cols_sizes_ok(cols, g2.schema));
                    }
                }
            }
        }
    }
    let merged = merge_lists_upto(g2, s.capacity, mapping, lists, mapping.len() as int);
    assert(merged is Ok);
    lemma_merge_lists_upto_ids(g2, s.capacity, mapping, lists, mapping.len() as int);
    let g3 = merged.unwrap();
    assert(lists.len() == mapping.len());
    assert(buckets_ids(g3.buckets) == buckets_ids(groups2[gi].buckets).add(group_rec_ids(rec)));
    lemma_store_ids_update(mid, gi, g3);
    let result = merge_group_spec(s, rec).unwrap();
    assert(result == StoreModel { capacity: s.capacity, groups: groups2.update(gi, g3) });
    assert forall|id: u64| true implies #[trigger] store_ids(result).count(id) == store_ids(
        s,
    ).add(group_rec_ids(rec)).count(id) by {
        assert(store_ids(result).add(buckets_ids(mid.groups[gi].buckets)).count(id) == store_ids(
            mid,
        ).add(buckets_ids(g3.buckets)).count(id));
    }
    assert(store_ids(result) =~= store_ids(s).add(group_rec_ids(rec)));
}

/// Conservation of row identities: a successful merge adds exactly the
/// identities the stream carries, nothing more, nothing less.
pub proof fn law_merge_conserves_ids(s: StoreModel, records: Seq<Seq<GroupFieldModel>>)
    requires
        store_wf(s),
        merge_spec(s, records) is Ok,
    ensures
        store_ids(merge_spec(s, records).unwrap()) == store_ids(s).add(records_ids(records)),
    decreases records.len(),
{
    broadcast use vstd::multiset::group_multiset_axioms;

    if records.len() == 0 {
        vstd::multiset::lemma_multiset_empty_len(records_ids(records));
        assert(store_ids(s).add(records_ids(records)) =~= store_ids(s));
    } else {
        law_merge_conserves_ids(s, records.drop_last());
        law_merge_preserves_wf(s, records.drop_last());
        let s2 = merge_spec(s, records.drop_last()).unwrap();
        lemma_merge_group_spec_ids(s2, records.last());
        assert(store_ids(merge_spec(s, records).unwrap()) =~= store_ids(s).add(records_ids(
            records,
        )));
    }
}

/// No row identity occurs more than once.
pub open spec fn ids_unique(m: Multiset<u64>) -> bool {
    forall|id: u64| #[trigger] m.count(id) <= 1
}

/// Merging preserves store-wide row-identity uniqueness whenever the
/// incoming identities are pairwise distinct and fresh — that is, when
/// the old store's identities and the stream's identities together
/// contain no duplicate.
pub proof fn law_merge_preserves_unique_ids(s: StoreModel, records: Seq<Seq<GroupFieldModel>>)
    requires
        store_wf(s),
        merge_spec(s, records) is Ok,
        ids_unique(store_ids(s).add(records_ids(records))),
    ensures
        ids_unique(store_ids(merge_spec(s, records).unwrap())),
{
    broadcast use vstd::multiset::group_multiset_axioms;

    law_merge_conserves_ids(s, records);
}

} // verus!
