//! The column scatter-writer: distribute one component type's flat byte
//! runs across the blocks named by the row packer's placement ranges,
//! appending to each block's column exactly one element per row the range
//! placed there.

use vstd::prelude::*;

use crate::pack::ranges_total;
use crate::records::{ComponentData, RunModel};
use crate::store::{
    lemma_bytes_deep_view, lemma_vec_deep_view_index, lemma_vec_deep_view_len, Block, BlockModel,
};
use crate::MergeError;

verus! {

broadcast use lemma_vec_deep_view_len, lemma_vec_deep_view_index, lemma_bytes_deep_view;

/// A run is consistent when its byte length is exactly its element count
/// times the element size.
pub open spec fn run_ok(r: RunModel, size: nat) -> bool {
    r.bytes.len() == r.elems * size
}

/// Total element count delivered by a list of runs.
pub open spec fn runs_total(rs: Seq<RunModel>) -> int
    decreases rs.len(),
{
    if rs.len() == 0 {
        0
    } else {
        runs_total(rs.drop_last()) + rs.last().elems
    }
}

/// The concatenated bytes of a list of runs.
pub open spec fn runs_bytes(rs: Seq<RunModel>) -> Seq<u8>
    decreases rs.len(),
{
    if rs.len() == 0 {
        Seq::<u8>::empty()
    } else {
        runs_bytes(rs.drop_last()) + rs.last().bytes
    }
}

/// One component's decoded data is acceptable for `m` incoming rows: every
/// run is consistent and the element counts sum to exactly `m`.
pub open spec fn comp_data_ok(rs: Seq<RunModel>, size: nat, m: int) -> bool {
    &&& forall|i: int| 0 <= i < rs.len() ==> run_ok(#[trigger] rs[i], size)
    &&& runs_total(rs) == m
}

/// Consistent runs concatenate to exactly `total * size` bytes.
pub proof fn lemma_runs_bytes_len(rs: Seq<RunModel>, size: nat)
    requires
        forall|i: int| 0 <= i < rs.len() ==> run_ok(#[trigger] rs[i], size),
    ensures
        runs_bytes(rs).len() == runs_total(rs) * size,
        runs_total(rs) >= 0,
    decreases rs.len(),
{
    if rs.len() == 0 {
        assert(runs_total(rs) * size == 0) by (nonlinear_arith)
            requires
                runs_total(rs) == 0,
        ;
    } else {
        assert(forall|i: int|
            0 <= i < rs.len() - 1 ==> #[trigger] rs.drop_last()[i] == rs[i]);
        lemma_runs_bytes_len(rs.drop_last(), size);
        assert(run_ok(rs.last(), size));
        assert((runs_total(rs.drop_last()) + rs.last().elems as int) * size == runs_total(
            rs.drop_last(),
        ) * size + rs.last().elems * size) by (nonlinear_arith);
    }
}

/// Scattering a flat byte image across placement ranges: each range in
/// order appends its share of the bytes to its block's column for the
/// component.
pub open spec fn scatter_spec(
    blocks: Seq<BlockModel>,
    c: int,
    size: nat,
    data: Seq<u8>,
    rs: Seq<(int, int)>,
) -> Seq<BlockModel>
    decreases rs.len(),
{
    if rs.len() == 0 {
        blocks
    } else {
        let b = rs[0].0;
        let n = rs[0].1;
        let nb = BlockModel {
            rows: blocks[b].rows,
            columns: blocks[b].columns.update(c, blocks[b].columns[c] + data.take(n * size)),
        };
        scatter_spec(blocks.update(b, nb), c, size, data.skip(n * size), rs.drop_first())
    }
}

/// Where every byte lands: a block outside the ranges is untouched; the
/// block of range `r` keeps its rows and every other column, and its
/// column for the component grows by the bytes of elements
/// `ranges_total(rs.take(r))` up to `ranges_total(rs.take(r + 1))`.
pub proof fn lemma_scatter_spec_props(
    blocks: Seq<BlockModel>,
    c: int,
    size: nat,
    data: Seq<u8>,
    rs: Seq<(int, int)>,
)
    requires
        forall|r: int| 0 <= r < rs.len() ==> 0 <= (#[trigger] rs[r]).0 < blocks.len(),
        forall|r: int| 0 <= r < rs.len() ==> (#[trigger] rs[r]).1 >= 0,
        forall|r1: int, r2: int| 0 <= r1 < r2 < rs.len() ==> rs[r1].0 < rs[r2].0,
        data.len() == ranges_total(rs) * size,
        0 <= c,
    ensures
        ({
            let b2 = scatter_spec(blocks, c, size, data, rs);
            &&& b2.len() == blocks.len()
            &&& forall|i: int|
                0 <= i < blocks.len() && (forall|r: int|
                    0 <= r < rs.len() ==> (#[trigger] rs[r]).0 != i) ==> #[trigger] b2[i]
                    == blocks[i]
            &&& forall|r: int|
                0 <= r < rs.len() ==> (#[trigger] b2[rs[r].0]).rows == blocks[rs[r].0].rows
            &&& forall|r: int|
                0 <= r < rs.len() ==> (#[trigger] b2[rs[r].0]).columns
                    == blocks[rs[r].0].columns.update(
                    c,
                    blocks[rs[r].0].columns[c] + data.subrange(
                        ranges_total(rs.take(r)) * size,
                        ranges_total(rs.take(r + 1)) * size,
                    ),
                )
        }),
    decreases rs.len(),
{
    if rs.len() == 0 {
        return ;
    }
    let b = rs[0].0;
    let n = rs[0].1;
    let nb = BlockModel {
        rows: blocks[b].rows,
        columns: blocks[b].columns.update(c, blocks[b].columns[c] + data.take(n * size)),
    };
    let base = blocks.update(b, nb);
    let rest = rs.drop_first();
    let data2 = data.skip(n * size);
    assert(rs =~= seq![rs[0]] + rest);
    crate::pack::lemma_ranges_total_prepend(rs[0], rest);
    assert(ranges_total(rs) == n + ranges_total(rest));
    crate::pack::lemma_ranges_total_take_bounds(rs, 0);
    assert forall|q: int| 0 <= q < rest.len() implies (#[trigger] rest[q]).1 >= 0 by {
        assert(rest[q] == rs[q + 1]);
    }
    lemma_ranges_total_nonneg_pub(rest);
    assert(n * size <= data.len()) by (nonlinear_arith)
        requires
            data.len() == (n + ranges_total(rest)) * size,
            ranges_total(rest) >= 0,
            n >= 0,
            size >= 0,
    ;
    assert(data2.len() == ranges_total(rest) * size) by (nonlinear_arith)
        requires
            data2.len() == data.len() - n * size,
            data.len() == (n + ranges_total(rest)) * size,
    ;
    lemma_scatter_spec_props(base, c, size, data2, rest);
    let b2 = scatter_spec(blocks, c, size, data, rs);
    assert(b2 == scatter_spec(base, c, size, data2, rest));
    // the first range's block is untouched by the remaining ranges
    assert(forall|r: int| 0 <= r < rest.len() ==> (#[trigger] rest[r]).0 != b);
    assert(b2[b] == base[b]);
    assert forall|r: int|
        0 <= r < rs.len() implies (#[trigger] b2[rs[r].0]).columns
            == blocks[rs[r].0].columns.update(
            c,
            blocks[rs[r].0].columns[c] + data.subrange(
                ranges_total(rs.take(r)) * size,
                ranges_total(rs.take(r + 1)) * size,
            ),
        ) by {
        if r == 0 {
            assert(rs.take(0) =~= Seq::<(int, int)>::empty());
            assert(rs.take(1) =~= seq![rs[0]]);
            crate::pack::lemma_ranges_total_prepend(rs[0], Seq::<(int, int)>::empty());
            assert(seq![rs[0]] + Seq::<(int, int)>::empty() =~= seq![rs[0]]);
            assert(ranges_total(rs.take(1)) == n);
            assert(data.subrange(0, n * size) =~= data.take(n * size));
        } else {
            assert(rs[r] == rest[r - 1]);
            assert(rs.take(r) =~= seq![rs[0]] + rest.take(r - 1));
            assert(rs.take(r + 1) =~= seq![rs[0]] + rest.take(r));
            crate::pack::lemma_ranges_total_prepend(rs[0], rest.take(r - 1));
            crate::pack::lemma_ranges_total_prepend(rs[0], rest.take(r));
            assert(base[rs[r].0] == blocks[rs[r].0]);
            let lo = ranges_total(rest.take(r - 1));
            let hi = ranges_total(rest.take(r));
            crate::pack::lemma_ranges_total_take_bounds(rest, r - 1);
            crate::pack::lemma_ranges_total_take_bounds(rest, r);
            lemma_ranges_total_nonneg_pub(rest);
            assert(data2.subrange(lo * size, hi * size) =~= data.subrange(
                (n + lo) * size,
                (n + hi) * size,
            )) by {
                assert(0 <= lo * size && lo * size <= hi * size && hi * size <= data2.len())
                    by (nonlinear_arith)
                    requires
                        0 <= lo <= hi <= ranges_total(rest),
                        data2.len() == ranges_total(rest) * size,
                        size >= 0,
                ;
                assert((n + lo) * size == n * size + lo * size) by (nonlinear_arith);
                assert((n + hi) * size == n * size + hi * size) by (nonlinear_arith);
            }
        }
    }
}

pub proof fn lemma_runs_total_take_step(rs: Seq<RunModel>, i: int)
    requires
        0 <= i < rs.len(),
    ensures
        runs_total(rs.take(i + 1)) == runs_total(rs.take(i)) + rs[i].elems,
        runs_bytes(rs.take(i + 1)) == runs_bytes(rs.take(i)) + rs[i].bytes,
{
    assert(rs.take(i + 1).drop_last() =~= rs.take(i));
    assert(rs.take(i + 1).last() == rs[i]);
}

pub proof fn lemma_runs_total_take_le(rs: Seq<RunModel>, i: int)
    requires
        0 <= i <= rs.len(),
    ensures
        runs_total(rs.take(i)) <= runs_total(rs),
        runs_total(rs.take(i)) >= 0,
    decreases rs.len() - i,
{
    if i == rs.len() {
        assert(rs.take(i) =~= rs);
        lemma_runs_total_nonneg(rs.take(i));
    } else {
        lemma_runs_total_take_step(rs, i);
        lemma_runs_total_take_le(rs, i + 1);
        lemma_runs_total_nonneg(rs.take(i));
    }
}

proof fn lemma_runs_total_nonneg(rs: Seq<RunModel>)
    ensures
        runs_total(rs) >= 0,
    decreases rs.len(),
{
    if rs.len() > 0 {
        lemma_runs_total_nonneg(rs.drop_last());
    }
}

/// Scatter one component type's decoded byte runs across the placement
/// ranges, appending each range's share to its block's column for the
/// component. The runs are rejected — and the blocks left untouched —
/// unless every run's byte length matches its element count and the
/// element counts sum to exactly the rows the ranges place.
pub fn scatter_component(
    blocks: &mut Vec<Block>,
    comp: usize,
    size: usize,
    data: &ComponentData,
    ranges: &Vec<(usize, usize)>,
    expect: usize,
) -> (r: Result<(), MergeError>)
    requires
        ({
            let rsm = ranges@.map_values(|p: (usize, usize)| (p.0 as int, p.1 as int));
            &&& forall|q: int| 0 <= q < rsm.len() ==> 0 <= (#[trigger] rsm[q]).0
                < old(blocks)@.len()
            &&& forall|q1: int, q2: int| 0 <= q1 < q2 < rsm.len() ==> rsm[q1].0 < rsm[q2].0
            &&& ranges_total(rsm) == expect as int
            &&& forall|i: int|
                0 <= i < old(blocks)@.len() ==> (comp as int)
                    < (#[trigger] old(blocks).deep_view()[i]).columns.len()
        }),
    ensures
        ({
            let rsm = ranges@.map_values(|p: (usize, usize)| (p.0 as int, p.1 as int));
            match r {
                Ok(()) => comp_data_ok(data@, size as nat, expect as int)
                    && final(blocks).deep_view() == scatter_spec(
                    old(blocks).deep_view(),
                    comp as int,
                    size as nat,
                    runs_bytes(data@),
                    rsm,
                ),
                Err(e) => e == MergeError::Mismatch && !comp_data_ok(
                    data@,
                    size as nat,
                    expect as int,
                ) && final(blocks)@ == old(blocks)@,
            }
        }),
{
    let ghost rsm = ranges@.map_values(|p: (usize, usize)| (p.0 as int, p.1 as int));
    let ghost runs_m = data@;
    // validate the runs before touching any block
    if !check_component(data, size, expect) {
        return Err(MergeError::Mismatch);
    }
    proof {
        lemma_runs_bytes_len(runs_m, size as nat);
    }
    // assemble the flat byte image of all runs
    let mut flat: Vec<u8> = Vec::new();
    let mut i2: usize = 0;
    while i2 < data.runs.len()
        invariant
            0 <= i2 <= data.runs@.len(),
            runs_m == data@,
            runs_m.len() == data.runs@.len(),
            flat@ == runs_bytes(runs_m.take(i2 as int)),
        decreases data.runs.len() - i2,
    {
        let mut j: usize = 0;
        let ghost flat0 = flat@;
        while j < data.runs[i2].bytes.len()
            invariant
                0 <= i2 < data.runs@.len(),
                0 <= j <= data.runs@[i2 as int].bytes@.len(),
                flat@ == flat0 + data.runs@[i2 as int].bytes@.take(j as int),
            decreases data.runs[i2 as int].bytes.len() - j,
        {
            flat.push(data.runs[i2].bytes[j]);
            proof {
                assert(data.runs@[i2 as int].bytes@.take(j + 1) =~= data.runs@[
                    i2 as int].bytes@.take(j as int).push(data.runs@[i2 as int].bytes@[j as int]));
                assert(flat@ =~= flat0 + data.runs@[i2 as int].bytes@.take(j + 1));
            }
            j += 1;
        }
        proof {
            let bs = data.runs@[i2 as int].bytes@;
            assert(bs.take(bs.len() as int) =~= bs);
            lemma_runs_total_take_step(runs_m, i2 as int);
            assert(runs_m[i2 as int] == data.runs@[i2 as int]@);
            assert(flat@ == runs_bytes(runs_m.take(i2 + 1)));
        }
        i2 += 1;
    }
    proof {
        assert(runs_m.take(runs_m.len() as int) =~= runs_m);
        assert(flat@ == runs_bytes(runs_m));
    }
    // walk the placement ranges, copying each range's share
    let ghost b0 = blocks.deep_view();
    let ghost goal = scatter_spec(b0, comp as int, size as nat, flat@, rsm);
    let mut off: usize = 0;
    let mut ridx: usize = 0;
    proof {
        vstd::std_specs::vec::axiom_spec_len(&flat);
        assert(flat@.skip(0) =~= flat@);
        assert(rsm.skip(0) =~= rsm);
        assert(rsm.take(0) =~= Seq::<(int, int)>::empty());
    }
    while ridx < ranges.len()
        invariant
            0 <= ridx <= ranges@.len(),
            rsm == ranges@.map_values(|p: (usize, usize)| (p.0 as int, p.1 as int)),
            rsm.len() == ranges@.len(),
            forall|q: int| 0 <= q < rsm.len() ==> 0 <= (#[trigger] rsm[q]).0 < blocks@.len(),
            blocks@.len() == b0.len(),
            forall|i: int|
                0 <= i < blocks@.len() ==> (comp as int) < (#[trigger] blocks.deep_view()[
                    i]).columns.len(),
            off as int == ranges_total(rsm.take(ridx as int)) * (size as int),
            off <= flat@.len(),
            flat@.len() <= usize::MAX,
            flat@.len() == ranges_total(rsm) * (size as int),
            forall|q: int| 0 <= q < rsm.len() ==> (#[trigger] rsm[q]).1 >= 0,
            goal == scatter_spec(
                blocks.deep_view(),
                comp as int,
                size as nat,
                flat@.skip(off as int),
                rsm.skip(ridx as int),
            ),
        decreases ranges.len() - ridx,
    {
        let (b, n) = (ranges[ridx].0, ranges[ridx].1);
        let ghost pre = blocks.deep_view();
        let ghost data_rem = flat@.skip(off as int);
        let ghost rs_rem = rsm.skip(ridx as int);
        proof {
            assert(rsm[ridx as int] == (b as int, n as int));
            assert(rs_rem[0] == rsm[ridx as int]);
            crate::pack::lemma_ranges_total_take_bounds(rsm, ridx as int);
            crate::pack::lemma_ranges_total_take_bounds(rsm, ridx as int + 1);
            assert(ranges_total(rsm.take(ridx as int + 1)) == ranges_total(rsm.take(ridx as int))
                + n as int);
            lemma_ranges_total_take_mul_le(rsm, ridx as int + 1, size as int);
            assert((ranges_total(rsm.take(ridx as int)) + n as int) * (size as int)
                == ranges_total(rsm.take(ridx as int)) * (size as int) + (n as int) * (
            size as int)) by (nonlinear_arith);
            assert(off as int + (n as int) * (size as int) <= flat@.len());
        }
        let nbytes = n * size;
        let mut jj: usize = 0;
        while jj < nbytes
            invariant
                0 <= jj <= nbytes,
                off + nbytes <= flat@.len(),
                flat@.len() <= usize::MAX,
                (b as int) < pre.len(),
                pre.len() == blocks@.len(),
                (comp as int) < pre[b as int].columns.len(),
                blocks.deep_view() =~~= pre.update(
                    b as int,
                    BlockModel {
                        rows: pre[b as int].rows,
                        columns: pre[b as int].columns.update(
                            comp as int,
                            pre[b as int].columns[comp as int] + flat@.subrange(
                                off as int,
                                off + jj,
                            ),
                        ),
                    },
                ),
            decreases nbytes - jj,
        {
            let ghost before = blocks.deep_view();
            proof {
                assert((b as int) < blocks@.len());
                assert(blocks.deep_view()[b as int] == blocks@[b as int]@);
                assert(blocks.deep_view()[b as int].columns.len() == pre[b as int].columns.len());
                assert(blocks@[b as int]@.columns.len() == blocks@[b as int].columns@.len());
                assert((comp as int) < blocks@[b as int].columns@.len());
            }
            blocks[b].columns[comp].push(flat[off + jj]);
            proof {
                assert(blocks.deep_view() =~~= before.update(
                    b as int,
                    BlockModel {
                        rows: before[b as int].rows,
                        columns: before[b as int].columns.update(
                            comp as int,
                            before[b as int].columns[comp as int].push(flat@[off + jj]),
                        ),
                    },
                ));
                assert(pre[b as int].columns[comp as int] + flat@.subrange(off as int, off + jj + 1)
                    =~= (pre[b as int].columns[comp as int] + flat@.subrange(
                    off as int,
                    off + jj,
                )).push(flat@[off + jj]));
                assert(blocks.deep_view() =~~= pre.update(
                    b as int,
                    BlockModel {
                        rows: pre[b as int].rows,
                        columns: pre[b as int].columns.update(
                            comp as int,
                            pre[b as int].columns[comp as int] + flat@.subrange(
                                off as int,
                                off + jj + 1,
                            ),
                        ),
                    },
                ));
            }
            jj += 1;
        }
        proof {
            // one unfolding of the scatter recursion matches this range
            let nb = BlockModel {
                rows: pre[b as int].rows,
                columns: pre[b as int].columns.update(
                    comp as int,
                    pre[b as int].columns[comp as int] + data_rem.take((n as int) * (size as int)),
                ),
            };
            assert(data_rem.take((n as int) * (size as int)) =~= flat@.subrange(
                off as int,
                off + (n as int) * (size as int),
            ));
            assert(blocks.deep_view() =~~= pre.update(b as int, nb));
            assert(data_rem.skip((n as int) * (size as int)) =~= flat@.skip(
                off + (n as int) * (size as int),
            ));
            assert(rs_rem.drop_first() =~= rsm.skip(ridx as int + 1));
            assert(scatter_spec(pre, comp as int, size as nat, data_rem, rs_rem) == scatter_spec(
                pre.update(b as int, nb),
                comp as int,
                size as nat,
                data_rem.skip((n as int) * (size as int)),
                rs_rem.drop_first(),
            ));
            crate::pack::lemma_ranges_total_take_bounds(rsm, ridx as int);
        }
        off = off + nbytes;
        ridx += 1;
    }
    proof {
        assert(rsm.skip(ridx as int) =~= Seq::<(int, int)>::empty());
        assert(goal == blocks.deep_view());
    }
    Ok(())
}

/// A prefix of consistent runs.
pub open spec fn self_consistent_prefix(rs: Seq<RunModel>, i: int, size: nat) -> bool {
    forall|q: int| 0 <= q < i ==> run_ok(#[trigger] rs[q], size)
}

/// Are one component type's decoded runs acceptable for `expect` incoming
/// rows? True exactly when every run's byte length matches its element
/// count and the element counts sum to `expect`.
pub fn check_component(data: &ComponentData, size: usize, expect: usize) -> (b: bool)
    ensures
        b == comp_data_ok(data@, size as nat, expect as int),
{
    let ghost runs_m = data@;
    let mut total: u128 = 0;
    let mut i: usize = 0;
    while i < data.runs.len()
        invariant
            0 <= i <= data.runs@.len(),
            runs_m == data@,
            runs_m.len() == data.runs@.len(),
            self_consistent_prefix(runs_m, i as int, size as nat),
            total == runs_total(runs_m.take(i as int)),
            total <= expect as u128,
            expect <= usize::MAX,
        decreases data.runs.len() - i,
    {
        proof {
            assert(runs_m[i as int] == data.runs@[i as int]@);
        }
        let elems = data.runs[i].elems;
        let nbytes = data.runs[i].bytes.len();
        proof {
            assert((elems as u128) * (size as u128) <= u128::MAX) by (nonlinear_arith)
                requires
                    0 <= elems as u128 <= u64::MAX as u128,
                    0 <= size as u128 <= u64::MAX as u128,
            ;
        }
        if (elems as u128) * (size as u128) != (nbytes as u128) {
            proof {
                assert(!run_ok(runs_m[i as int], size as nat));
            }
            return false;
        }
        proof {
            lemma_runs_total_take_step(runs_m, i as int);
        }
        total = total + (elems as u128);
        if total > (expect as u128) {
            proof {
                lemma_runs_total_take_le(runs_m, i as int + 1);
                assert(runs_total(runs_m) > expect as int);
            }
            return false;
        }
        i += 1;
    }
    proof {
        assert(runs_m.take(runs_m.len() as int) =~= runs_m);
    }
    if total != (expect as u128) {
        return false;
    }
    proof {
        assert(comp_data_ok(runs_m, size as nat, expect as int));
    }
    true
}

proof fn lemma_ranges_total_take_mul_le(rs: Seq<(int, int)>, r: int, size: int)
    requires
        0 <= r <= rs.len(),
        forall|q: int| 0 <= q < rs.len() ==> (#[trigger] rs[q]).1 >= 0,
        size >= 0,
    ensures
        ranges_total(rs.take(r)) * size <= ranges_total(rs) * size,
{
    crate::pack::lemma_ranges_total_take_bounds(rs, r);
    assert(ranges_total(rs.take(r)) * size <= ranges_total(rs) * size) by (nonlinear_arith)
        requires
            ranges_total(rs.take(r)) <= ranges_total(rs),
            size >= 0,
    ;
}

pub proof fn lemma_ranges_total_nonneg_pub(rs: Seq<(int, int)>)
    requires
        forall|q: int| 0 <= q < rs.len() ==> (#[trigger] rs[q]).1 >= 0,
    ensures
        ranges_total(rs) >= 0,
    decreases rs.len(),
{
    if rs.len() > 0 {
        assert(forall|q: int|
            0 <= q < rs.len() - 1 ==> (#[trigger] rs.drop_last()[q]).1 == rs[q].1);
        lemma_ranges_total_nonneg_pub(rs.drop_last());
    }
}

} // verus!
