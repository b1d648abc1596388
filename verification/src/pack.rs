//! The row packer: append incoming row identities into a bucket's blocks,
//! filling the current (last) block up to the shared capacity and opening
//! fresh blocks as needed, and report the placement ranges.

use vstd::prelude::*;

use crate::store::{
    lemma_bytes_deep_view, lemma_ids_deep_view, lemma_vec_deep_view_index, lemma_vec_deep_view_len,
    Block, BlockModel,
};

verus! {

broadcast use
    lemma_vec_deep_view_len,
    lemma_vec_deep_view_index,
    lemma_ids_deep_view,
    lemma_bytes_deep_view,
;

/// The block a pack starts filling: the last block when it has free room,
/// otherwise the fresh block appended right after the existing ones.
pub open spec fn first_pack_block(blocks: Seq<BlockModel>, cap: nat) -> int {
    if blocks.len() > 0 && blocks.last().rows.len() < cap {
        blocks.len() - 1
    } else {
        blocks.len() as int
    }
}

pub open spec fn rows_at(blocks: Seq<BlockModel>, x: int) -> Seq<u64> {
    if 0 <= x < blocks.len() {
        blocks[x].rows
    } else {
        Seq::<u64>::empty()
    }
}

pub open spec fn cols_at(blocks: Seq<BlockModel>, x: int, ncomp: nat) -> Seq<Seq<u8>> {
    if 0 <= x < blocks.len() {
        blocks[x].columns
    } else {
        Seq::new(ncomp, |c: int| Seq::<u8>::empty())
    }
}

/// Packing row identities into blocks: fill the current block's free room,
/// then whole fresh blocks of `cap` rows, then a final remainder. Returns
/// the new blocks and the ordered placement ranges (block index, count).
pub open spec fn pack_spec(blocks: Seq<BlockModel>, ids: Seq<u64>, cap: nat, ncomp: nat) -> (
    Seq<BlockModel>,
    Seq<(int, int)>,
)
    decreases ids.len(),
{
    if ids.len() == 0 || cap < 1 {
        (blocks, Seq::<(int, int)>::empty())
    } else if blocks.len() > 0 && blocks.last().rows.len() < cap {
        let free = cap - blocks.last().rows.len();
        let t = if free < ids.len() { free as int } else { ids.len() as int };
        let nb = BlockModel {
            rows: blocks.last().rows + ids.take(t),
            columns: blocks.last().columns,
        };
        let b2 = blocks.update(blocks.len() - 1, nb);
        let (bf, rf) = pack_spec(b2, ids.skip(t), cap, ncomp);
        (bf, seq![(blocks.len() - 1, t)] + rf)
    } else {
        let t = if cap < ids.len() { cap as int } else { ids.len() as int };
        let nb = BlockModel {
            rows: ids.take(t),
            columns: Seq::new(ncomp, |c: int| Seq::<u8>::empty()),
        };
        let (bf, rf) = pack_spec(blocks.push(nb), ids.skip(t), cap, ncomp);
        (bf, seq![(blocks.len() as int, t)] + rf)
    }
}

/// The number of rows a range list places.
pub open spec fn ranges_total(rs: Seq<(int, int)>) -> int
    decreases rs.len(),
{
    if rs.len() == 0 {
        0
    } else {
        ranges_total(rs.drop_last()) + rs.last().1
    }
}

pub proof fn lemma_ranges_total_prepend(x: (int, int), rs: Seq<(int, int)>)
    ensures
        ranges_total(seq![x] + rs) == x.1 + ranges_total(rs),
    decreases rs.len(),
{
    if rs.len() == 0 {
        assert(seq![x] + rs =~= seq![x]);
        assert(ranges_total(seq![x]) == ranges_total(seq![x].drop_last()) + x.1);
        assert(seq![x].drop_last() =~= Seq::<(int, int)>::empty());
    } else {
        lemma_ranges_total_prepend(x, rs.drop_last());
        assert((seq![x] + rs).drop_last() =~= seq![x] + rs.drop_last());
        assert((seq![x] + rs).last() == rs.last());
    }
}

/// The placement ranges a pack produces: consecutive block indices from
/// the first pack block, each count between 1 and the capacity, counts
/// summing to the number of incoming identities; blocks before the first
/// pack block are untouched, and each packed block keeps its old contents
/// and gains its range's slice of the identities.
pub proof fn lemma_pack_spec_props(blocks: Seq<BlockModel>, ids: Seq<u64>, cap: nat, ncomp: nat)
    requires
        cap >= 1,
        forall|i: int| 0 <= i < blocks.len() ==> (#[trigger] blocks[i]).rows.len() <= cap,
    ensures
        ({
            let (b2, rs) = pack_spec(blocks, ids, cap, ncomp);
            let fb = first_pack_block(blocks, cap);
            &&& ids.len() == 0 ==> b2 == blocks && rs.len() == 0
            &&& ids.len() > 0 ==> {
                &&& rs.len() >= 1
                &&& b2.len() == fb + rs.len()
                &&& b2.len() >= blocks.len()
                &&& forall|r: int| 0 <= r < rs.len() ==> (#[trigger] rs[r]).0 == fb + r
                &&& forall|r: int| 0 <= r < rs.len() ==> 1 <= (#[trigger] rs[r]).1 <= cap
                &&& ranges_total(rs) == ids.len()
                &&& forall|i: int| 0 <= i < blocks.len() && i < fb ==> #[trigger] b2[i]
                    == blocks[i]
                &&& forall|r: int|
                    0 <= r < rs.len() ==> (#[trigger] b2[fb + r]).rows == rows_at(blocks, fb + r)
                        + ids.subrange(
                        ranges_total(rs.take(r)),
                        ranges_total(rs.take(r + 1)),
                    )
                &&& forall|r: int|
                    0 <= r < rs.len() ==> (#[trigger] b2[fb + r]).columns == cols_at(
                        blocks,
                        fb + r,
                        ncomp,
                    )
                &&& forall|i: int| 0 <= i < b2.len() ==> (#[trigger] b2[i]).rows.len() <= cap
            }
        }),
    decreases ids.len(),
{
    if ids.len() == 0 {
        return ;
    }
    let (b2, rs) = pack_spec(blocks, ids, cap, ncomp);
    let fb = first_pack_block(blocks, cap);
    if blocks.len() > 0 && blocks.last().rows.len() < cap {
        let free = cap - blocks.last().rows.len();
        let t = if free < ids.len() { free as int } else { ids.len() as int };
        let nb = BlockModel {
            rows: blocks.last().rows + ids.take(t),
            columns: blocks.last().columns,
        };
        let base = blocks.update(blocks.len() - 1, nb);
        let (bf, rf) = pack_spec(base, ids.skip(t), cap, ncomp);
        lemma_pack_spec_props(base, ids.skip(t), cap, ncomp);
        lemma_ranges_total_prepend((fb, t), rf);
        assert(rs =~= seq![(fb, t)] + rf);
        assert(rs[0] == (fb, t));
        if ids.len() <= free {
            // the whole batch fits in the current block
            assert(ids.skip(t).len() == 0);
            assert(rs =~= seq![(fb, t)]);
            assert(rs.take(0) =~= Seq::<(int, int)>::empty());
            assert(rs.take(1) =~= rs);
            assert(ids.subrange(0, t) =~= ids.take(t));
            assert(b2[fb].rows == rows_at(blocks, fb) + ids.subrange(0, t));
        } else {
            assert(t == free);
            assert(nb.rows.len() == cap);
            assert(base.last() == nb);
            assert(first_pack_block(base, cap) == base.len() as int);
            assert(base.len() == blocks.len());
            // stitch the first range onto the recursive result
            assert forall|r: int| 0 <= r < rs.len() implies (#[trigger] rs[r]).0 == fb + r by {
                if r > 0 {
                    assert(rs[r] == rf[r - 1]);
                }
            }
            assert forall|r: int| 0 <= r < rs.len() implies 1 <= (#[trigger] rs[r]).1 <= cap by {
                if r > 0 {
                    assert(rs[r] == rf[r - 1]);
                }
            }
            assert forall|r: int|
                0 <= r < rs.len() implies (#[trigger] b2[fb + r]).rows == rows_at(blocks, fb + r)
                    + ids.subrange(
                    ranges_total(rs.take(r)),
                    ranges_total(rs.take(r + 1)),
                ) by {
                assert(rs.take(0) =~= Seq::<(int, int)>::empty());
                if r == 0 {
                    assert(rs.take(1) =~= seq![(fb, t)]);
                    assert(ranges_total(rs.take(1)) == t) by {
                        lemma_ranges_total_prepend((fb, t), Seq::<(int, int)>::empty());
                        assert(seq![(fb, t)] + Seq::<(int, int)>::empty() =~= seq![(fb, t)]);
                    }
                    assert(fb + 1 == base.len());
                    assert(bf[fb] == base[fb]) by {
                        assert(first_pack_block(base, cap) == base.len() as int);
                    }
                    assert(ids.subrange(0, t) =~= ids.take(t));
                } else {
                    assert(rs[r] == rf[r - 1]);
                    assert(rs.take(r + 1) =~= seq![(fb, t)] + rf.take(r));
                    assert(rs.take(r) =~= seq![(fb, t)] + rf.take(r - 1));
                    lemma_ranges_total_prepend((fb, t), rf.take(r));
                    lemma_ranges_total_prepend((fb, t), rf.take(r - 1));
                    let fb2 = first_pack_block(base, cap);
                    assert(fb2 == fb + 1);
                    assert(b2[fb + r] == bf[fb2 + (r - 1)]);
                    assert(bf[fb2 + (r - 1)].rows == rows_at(base, fb2 + (r - 1)) + ids.skip(
                        t,
                    ).subrange(
                        ranges_total(rf.take(r - 1)),
                        ranges_total(rf.take(r)),
                    ));
                    assert(rows_at(base, fb2 + (r - 1)) == rows_at(blocks, fb + r)) by {
                        if fb + r < blocks.len() {
                            assert(base[fb + r] == blocks[fb + r]);
                        }
                    }
                    assert(ids.skip(t).subrange(
                        ranges_total(rf.take(r - 1)),
                        ranges_total(rf.take(r)),
                    ) =~= ids.subrange(
                        t + ranges_total(rf.take(r - 1)),
                        t + ranges_total(rf.take(r)),
                    )) by {
                        lemma_pack_spec_props(base, ids.skip(t), cap, ncomp);
                        lemma_ranges_total_take_bounds(rf, r - 1);
                        lemma_ranges_total_take_bounds(rf, r);
                    }
                }
            }
            assert forall|r: int|
                0 <= r < rs.len() implies (#[trigger] b2[fb + r]).columns == cols_at(
                    blocks,
                    fb + r,
                    ncomp,
                ) by {
                if r == 0 {
                    assert(bf[fb] == base[fb]);
                } else {
                    assert(rs[r] == rf[r - 1]);
                    let fb2 = first_pack_block(base, cap);
                    assert(b2[fb + r] == bf[fb2 + (r - 1)]);
                    assert(cols_at(base, fb + r, ncomp) == cols_at(blocks, fb + r, ncomp)) by {
                        if fb + r < blocks.len() {
                            assert(base[fb + r] == blocks[fb + r]);
                        }
                    }
                }
            }
            assert(ranges_total(rs) == ids.len());
        }
    } else {
        let t = if cap < ids.len() { cap as int } else { ids.len() as int };
        let nb = BlockModel {
            rows: ids.take(t),
            columns: Seq::new(ncomp, |c: int| Seq::<u8>::empty()),
        };
        let base = blocks.push(nb);
        let (bf, rf) = pack_spec(base, ids.skip(t), cap, ncomp);
        lemma_pack_spec_props(base, ids.skip(t), cap, ncomp);
        lemma_ranges_total_prepend((fb, t), rf);
        assert(fb == blocks.len());
        assert(rs =~= seq![(fb, t)] + rf);
        assert(rs[0] == (fb, t));
        if ids.len() <= cap {
            assert(ids.skip(t).len() == 0);
            assert(rs =~= seq![(fb, t)]);
            assert(rs.take(0) =~= Seq::<(int, int)>::empty());
            assert(rs.take(1) =~= rs);
            assert(ids.subrange(0, t) =~= ids.take(t));
            assert(b2[fb] == nb);
            assert(rows_at(blocks, fb) =~= Seq::<u64>::empty());
            assert(b2[fb].rows =~= rows_at(blocks, fb) + ids.subrange(0, t));
            assert(b2[fb].columns =~= cols_at(blocks, fb, ncomp));
        } else {
            assert(t == cap);
            assert(nb.rows.len() == cap);
            assert(base.last() == nb);
            assert(first_pack_block(base, cap) == base.len() as int);
            assert(base.len() == blocks.len() + 1);
            assert forall|r: int| 0 <= r < rs.len() implies (#[trigger] rs[r]).0 == fb + r by {
                if r > 0 {
                    assert(rs[r] == rf[r - 1]);
                }
            }
            assert forall|r: int| 0 <= r < rs.len() implies 1 <= (#[trigger] rs[r]).1 <= cap by {
                if r > 0 {
                    assert(rs[r] == rf[r - 1]);
                }
            }
            assert forall|r: int|
                0 <= r < rs.len() implies (#[trigger] b2[fb + r]).rows == rows_at(blocks, fb + r)
                    + ids.subrange(
                    ranges_total(rs.take(r)),
                    ranges_total(rs.take(r + 1)),
                ) by {
                assert(rs.take(0) =~= Seq::<(int, int)>::empty());
                if r == 0 {
                    assert(rs.take(1) =~= seq![(fb, t)]);
                    assert(ranges_total(rs.take(1)) == t) by {
                        lemma_ranges_total_prepend((fb, t), Seq::<(int, int)>::empty());
                        assert(seq![(fb, t)] + Seq::<(int, int)>::empty() =~= seq![(fb, t)]);
                    }
                    assert(b2[fb] == bf[fb]);
                    assert(bf[fb] == base[fb]) by {
                        assert(first_pack_block(base, cap) == base.len() as int);
                    }
                    assert(rows_at(blocks, fb) =~= Seq::<u64>::empty());
                    assert(ids.subrange(0, t) =~= ids.take(t));
                    assert(b2[fb].rows =~= rows_at(blocks, fb) + ids.subrange(0, t));
                } else {
                    assert(rs[r] == rf[r - 1]);
                    assert(rs.take(r + 1) =~= seq![(fb, t)] + rf.take(r));
                    assert(rs.take(r) =~= seq![(fb, t)] + rf.take(r - 1));
                    lemma_ranges_total_prepend((fb, t), rf.take(r));
                    lemma_ranges_total_prepend((fb, t), rf.take(r - 1));
                    let fb2 = first_pack_block(base, cap);
                    assert(fb2 == fb + 1);
                    assert(b2[fb + r] == bf[fb2 + (r - 1)]);
                    assert(rows_at(base, fb2 + (r - 1)) == rows_at(blocks, fb + r)) by {
                        if fb2 + (r - 1) < base.len() {
                            assert(base[fb2 + (r - 1)] == blocks[fb2 + (r - 1)] || fb2 + (r - 1)
                                == blocks.len());
                        }
                        assert(fb2 + (r - 1) >= blocks.len() + 1 ==> rows_at(base, fb2 + (r - 1))
                            =~= Seq::<u64>::empty());
                        assert(rows_at(blocks, fb + r) =~= Seq::<u64>::empty());
                    }
                    assert(ids.skip(t).subrange(
                        ranges_total(rf.take(r - 1)),
                        ranges_total(rf.take(r)),
                    ) =~= ids.subrange(
                        t + ranges_total(rf.take(r - 1)),
                        t + ranges_total(rf.take(r)),
                    )) by {
                        lemma_ranges_total_take_bounds(rf, r - 1);
                        lemma_ranges_total_take_bounds(rf, r);
                    }
                }
            }
            assert forall|r: int|
                0 <= r < rs.len() implies (#[trigger] b2[fb + r]).columns == cols_at(
                    blocks,
                    fb + r,
                    ncomp,
                ) by {
                let fb2 = first_pack_block(base, cap);
                if r == 0 {
                    assert(b2[fb] == bf[fb]);
                    assert(bf[fb] == base[fb]);
                    assert(cols_at(blocks, fb, ncomp) =~= nb.columns);
                } else {
                    assert(rs[r] == rf[r - 1]);
                    assert(b2[fb + r] == bf[fb2 + (r - 1)]);
                    assert(cols_at(base, fb + r, ncomp) =~= cols_at(blocks, fb + r, ncomp));
                }
            }
            assert(ranges_total(rs) == ids.len());
        }
    }
}

/// Partial range totals are monotone and bounded by the full total.
pub proof fn lemma_ranges_total_take_bounds(rs: Seq<(int, int)>, r: int)
    requires
        0 <= r <= rs.len(),
        forall|q: int| 0 <= q < rs.len() ==> (#[trigger] rs[q]).1 >= 0,
    ensures
        0 <= ranges_total(rs.take(r)) <= ranges_total(rs),
        r < rs.len() ==> ranges_total(rs.take(r + 1)) == ranges_total(rs.take(r)) + rs[r].1,
    decreases rs.len(),
{
    lemma_ranges_total_take_monotone(rs, r);
    if r < rs.len() {
        assert(rs.take(r + 1).drop_last() =~= rs.take(r));
        assert(rs.take(r + 1).last() == rs[r]);
    }
}

proof fn lemma_ranges_total_take_monotone(rs: Seq<(int, int)>, r: int)
    requires
        0 <= r <= rs.len(),
        forall|q: int| 0 <= q < rs.len() ==> (#[trigger] rs[q]).1 >= 0,
    ensures
        0 <= ranges_total(rs.take(r)) <= ranges_total(rs),
    decreases rs.len() - r,
{
    if r == rs.len() {
        assert(rs.take(r) =~= rs);
        lemma_ranges_total_nonneg(rs);
    } else {
        assert(rs.take(r + 1).drop_last() =~= rs.take(r));
        assert(rs.take(r + 1).last() == rs[r]);
        lemma_ranges_total_take_monotone(rs, r + 1);
        lemma_ranges_total_nonneg(rs.take(r));
    }
}

/// Append incoming row identities into a bucket's blocks, filling the
/// last block first, and report the ordered placement ranges.
pub fn pack_rows(blocks: &mut Vec<Block>, ids: &Vec<u64>, cap: usize, ncomp: usize) -> (ranges: Vec<
    (usize, usize),
>)
    requires
        cap >= 1,
        forall|i: int|
            0 <= i < old(blocks)@.len() ==> (#[trigger] old(blocks).deep_view()[i]).rows.len()
                <= cap,
    ensures
        ({
            let (b2, rs) = pack_spec(old(blocks).deep_view(), ids@, cap as nat, ncomp as nat);
            &&& final(blocks).deep_view() == b2
            &&& ranges@.map_values(|p: (usize, usize)| (p.0 as int, p.1 as int)) == rs
        }),
{
    let ghost b0 = blocks.deep_view();
    let ghost full = pack_spec(b0, ids@, cap as nat, ncomp as nat);
    let mut ranges: Vec<(usize, usize)> = Vec::new();
    let mut k: usize = 0;
    proof {
        assert(ids@.skip(0) =~= ids@);
    }
    while k < ids.len()
        invariant
            0 <= k <= ids@.len(),
            cap >= 1,
            full == pack_spec(b0, ids@, cap as nat, ncomp as nat),
            b0 == old(blocks).deep_view(),
            forall|i: int|
                0 <= i < blocks@.len() ==> (#[trigger] blocks.deep_view()[i]).rows.len() <= cap,
            pack_spec(blocks.deep_view(), ids@.skip(k as int), cap as nat, ncomp as nat).0
                == full.0,
            ranges@.map_values(|p: (usize, usize)| (p.0 as int, p.1 as int)) + pack_spec(
                blocks.deep_view(),
                ids@.skip(k as int),
                cap as nat,
                ncomp as nat,
            ).1 == full.1,
        decreases ids.len() - k,
    {
        let ghost pre = blocks.deep_view();
        let ghost rem_ids = ids@.skip(k as int);
        let blen = blocks.len();
        let target: usize;
        let free: usize;
        if blen > 0 && blocks[blen - 1].rows.len() < cap {
            target = blen - 1;
            free = cap - blocks[blen - 1].rows.len();
            proof {
                assert(pre.last() == blocks@[blen - 1]@);
            }
        } else {
            // open a fresh block with one empty column per component type
            let mut columns: Vec<Vec<u8>> = Vec::new();
            let mut c: usize = 0;
            while c < ncomp
                invariant
                    0 <= c <= ncomp,
                    columns@.len() == c,
                    forall|j: int| 0 <= j < c ==> (#[trigger] columns@[j])@.len() == 0,
                decreases ncomp - c,
            {
                columns.push(Vec::new());
                c += 1;
            }
            proof {
                assert forall|x: int| 0 <= x < ncomp implies columns.deep_view()[x]
                    == Seq::<u8>::empty() by {
                    assert(columns.deep_view()[x] == columns@[x].deep_view());
                    assert(columns@[x]@.len() == 0);
                    assert(columns@[x]@ =~= Seq::<u8>::empty());
                }
                assert(columns.deep_view() =~= Seq::new(ncomp as nat, |x: int| Seq::<u8>::empty()));
            }
            let nb = Block { rows: Vec::new(), columns };
            proof {
                assert(nb@.rows =~= Seq::<u64>::empty());
                assert(nb@.columns =~= Seq::new(ncomp as nat, |x: int| Seq::<u8>::empty()));
            }
            blocks.push(nb);
            target = blen;
            free = cap;
            proof {
                assert(blocks.deep_view() =~= pre.push(nb@));
            }
        }
        let ghost mid = blocks.deep_view();
        let rem = ids.len() - k;
        let t = if free < rem {
            free
        } else {
            rem
        };
        // append this range's identities into the target block
        let mut q: usize = 0;
        while q < t
            invariant
                0 <= q <= t,
                k + t <= ids@.len(),
                ids@.len() <= usize::MAX,
                (target as int) < mid.len(),
                mid.len() == blocks@.len(),
                blocks.deep_view() =~= mid.update(
                    target as int,
                    BlockModel {
                        rows: mid[target as int].rows + ids@.subrange(k as int, k + q),
                        columns: mid[target as int].columns,
                    },
                ),
            decreases t - q,
        {
            let ghost before = blocks.deep_view();
            proof {
                assert(k + q < ids@.len());
            }
            let idx = k + q;
            blocks[target].rows.push(ids[idx]);
            proof {
                assert(blocks.deep_view() =~= before.update(
                    target as int,
                    BlockModel {
                        rows: before[target as int].rows.push(ids@[k + q]),
                        columns: before[target as int].columns,
                    },
                ));
                assert(mid[target as int].rows + ids@.subrange(k as int, k + q + 1) =~= (mid[
                    target as int].rows + ids@.subrange(k as int, k + q)).push(ids@[k + q]));
                assert(blocks.deep_view() =~= mid.update(
                    target as int,
                    BlockModel {
                        rows: mid[target as int].rows + ids@.subrange(k as int, k + q + 1),
                        columns: mid[target as int].columns,
                    },
                ));
            }
            q += 1;
        }
        ranges.push((target, t));
        proof {
            // one unfolding of the packing recursion matches this chunk
            let tm = t as int;
            assert(rem_ids.len() == ids@.len() - k);
            assert(rem_ids.take(tm) =~= ids@.subrange(k as int, k + tm));
            assert(rem_ids.skip(tm) =~= ids@.skip(k + tm));
            if pre.len() > 0 && pre.last().rows.len() < cap as nat {
                assert(target as int == pre.len() - 1);
                assert(mid == pre);
                let nb = BlockModel {
                    rows: pre.last().rows + rem_ids.take(tm),
                    columns: pre.last().columns,
                };
                assert(blocks.deep_view() =~= pre.update(pre.len() - 1, nb));
                assert(pack_spec(pre, rem_ids, cap as nat, ncomp as nat).0 == pack_spec(
                    blocks.deep_view(),
                    rem_ids.skip(tm),
                    cap as nat,
                    ncomp as nat,
                ).0);
                assert(pack_spec(pre, rem_ids, cap as nat, ncomp as nat).1 == seq![
                    (pre.len() - 1, tm),
                ] + pack_spec(
                    blocks.deep_view(),
                    rem_ids.skip(tm),
                    cap as nat,
                    ncomp as nat,
                ).1);
            } else {
                assert(target as int == pre.len());
                let nb = BlockModel {
                    rows: rem_ids.take(tm),
                    columns: Seq::new(ncomp as nat, |x: int| Seq::<u8>::empty()),
                };
                assert(mid[target as int].rows =~= Seq::<u64>::empty());
                assert(mid[target as int].rows + ids@.subrange(k as int, k + tm) =~= rem_ids.take(
                    tm,
                ));
                assert(mid =~= pre.push(
                    BlockModel {
                        rows: Seq::<u64>::empty(),
                        columns: Seq::new(ncomp as nat, |x: int| Seq::<u8>::empty()),
                    },
                ));
                assert(blocks.deep_view() =~= pre.push(nb));
                assert(pack_spec(pre, rem_ids, cap as nat, ncomp as nat).0 == pack_spec(
                    blocks.deep_view(),
                    rem_ids.skip(tm),
                    cap as nat,
                    ncomp as nat,
                ).0);
                assert(pack_spec(pre, rem_ids, cap as nat, ncomp as nat).1 == seq![
                    (pre.len() as int, tm),
                ] + pack_spec(
                    blocks.deep_view(),
                    rem_ids.skip(tm),
                    cap as nat,
                    ncomp as nat,
                ).1);
            }
            let old_m = ranges@.drop_last().map_values(
                |p: (usize, usize)| (p.0 as int, p.1 as int),
            );
            let new_m = ranges@.map_values(|p: (usize, usize)| (p.0 as int, p.1 as int));
            assert(new_m =~= old_m.push((target as int, tm)));
            assert(old_m + (seq![(target as int, tm)] + pack_spec(
                blocks.deep_view(),
                rem_ids.skip(tm),
                cap as nat,
                ncomp as nat,
            ).1) =~= new_m + pack_spec(
                blocks.deep_view(),
                rem_ids.skip(tm),
                cap as nat,
                ncomp as nat,
            ).1);
        }
        k += t;
    }
    proof {
        assert(ids@.skip(k as int) =~= Seq::<u64>::empty());
        assert(pack_spec(blocks.deep_view(), ids@.skip(k as int), cap as nat, ncomp as nat).0
            == blocks.deep_view());
        assert(ranges@.map_values(|p: (usize, usize)| (p.0 as int, p.1 as int)) + pack_spec(
            blocks.deep_view(),
            ids@.skip(k as int),
            cap as nat,
            ncomp as nat,
        ).1 =~= ranges@.map_values(|p: (usize, usize)| (p.0 as int, p.1 as int)));
    }
    ranges
}

proof fn lemma_ranges_total_nonneg(rs: Seq<(int, int)>)
    requires
        forall|q: int| 0 <= q < rs.len() ==> (#[trigger] rs[q]).1 >= 0,
    ensures
        ranges_total(rs) >= 0,
    decreases rs.len(),
{
    if rs.len() > 0 {
        assert(forall|q: int|
            0 <= q < rs.len() - 1 ==> (#[trigger] rs.drop_last()[q]).1 == rs[q].1);
        lemma_ranges_total_nonneg(rs.drop_last());
    }
}

} // verus!
