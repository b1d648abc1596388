//! The bucket matcher: route each incoming grouping-key row to the first
//! live bucket whose stored key values byte-match it on every key type, or
//! allocate a new bucket holding the row's key values.

use vstd::prelude::*;

use crate::records::KeyColumn;
use crate::store::{
    lemma_bytes_deep_view, lemma_vec_deep_view_index, lemma_vec_deep_view_len, Bucket, BucketModel,
    Group, GroupModel, SchemaModel,
};
use crate::MergeError;

verus! {

broadcast use lemma_vec_deep_view_len, lemma_vec_deep_view_index, lemma_bytes_deep_view;

/// All key columns hold one value per incoming key row, so their lengths
/// agree.
pub open spec fn key_cols_same_len(cols: Seq<Seq<Seq<u8>>>) -> bool {
    forall|k: int| 0 <= k < cols.len() ==> #[trigger] cols[k].len() == cols[0].len()
}

/// Every decoded key value has the byte width its key type declares.
pub open spec fn key_cols_sizes_ok(cols: Seq<Seq<Seq<u8>>>, schema: SchemaModel) -> bool {
    forall|k: int, i: int|
        0 <= k < cols.len() && 0 <= i < cols[k].len() ==> (#[trigger] cols[k][i]).len()
            == schema.keys[k].size
}

/// The incoming key rows: row `i` is the tuple of the `i`th value of every
/// column. A schema with no key types has a single implicit empty row, so
/// that row and component data still have a bucket to land in.
pub open spec fn incoming_rows(cols: Seq<Seq<Seq<u8>>>) -> Seq<Seq<Seq<u8>>> {
    if cols.len() == 0 {
        seq![Seq::<Seq<u8>>::empty()]
    } else {
        Seq::new(cols[0].len(), |i: int| Seq::new(cols.len(), |k: int| cols[k][i]))
    }
}

/// The first live bucket whose key values equal the row on every key type,
/// if any.
pub open spec fn find_bucket(buckets: Seq<BucketModel>, row: Seq<Seq<u8>>) -> Option<int>
    decreases buckets.len(),
{
    if buckets.len() == 0 {
        None
    } else if buckets[0].keys == row {
        Some(0)
    } else {
        match find_bucket(buckets.drop_first(), row) {
            Some(j) => Some(j + 1),
            None => None,
        }
    }
}

pub proof fn lemma_find_bucket_is_first(buckets: Seq<BucketModel>, row: Seq<Seq<u8>>)
    ensures
        match find_bucket(buckets, row) {
            Some(j) => 0 <= j < buckets.len() && buckets[j].keys == row && forall|q: int|
                0 <= q < j ==> (#[trigger] buckets[q].keys) != row,
            None => forall|q: int|
                0 <= q < buckets.len() ==> (#[trigger] buckets[q].keys) != row,
        },
    decreases buckets.len(),
{
    if buckets.len() == 0 {
    } else if buckets[0].keys == row {
    } else {
        lemma_find_bucket_is_first(buckets.drop_first(), row);
        assert(forall|q: int|
            1 <= q < buckets.len() ==> #[trigger] buckets[q] == buckets.drop_first()[q - 1]);
    }
}

/// Routing one incoming key row: reuse the first matching bucket, or
/// append a fresh bucket owning the row's key values.
pub open spec fn match_step(buckets: Seq<BucketModel>, row: Seq<Seq<u8>>) -> (Seq<BucketModel>, int) {
    match find_bucket(buckets, row) {
        Some(j) => (buckets, j),
        None => (
            buckets.push(BucketModel { keys: row, blocks: Seq::<crate::store::BlockModel>::empty() }),
            buckets.len() as int,
        ),
    }
}

/// Routing all incoming key rows in order. Later rows see the buckets
/// allocated for earlier ones, so duplicate incoming rows share a bucket.
pub open spec fn match_rows_spec(buckets: Seq<BucketModel>, rows: Seq<Seq<Seq<u8>>>) -> (
    Seq<BucketModel>,
    Seq<int>,
)
    decreases rows.len(),
{
    if rows.len() == 0 {
        (buckets, Seq::<int>::empty())
    } else {
        let (b1, m1) = match_rows_spec(buckets, rows.drop_last());
        let (b2, j) = match_step(b1, rows.last());
        (b2, m1.push(j))
    }
}

/// Routing never disturbs existing buckets: it only appends fresh empty
/// buckets, one per unmatched distinct incoming row, and every mapping
/// entry indexes a live bucket.
pub proof fn lemma_match_rows_props(buckets: Seq<BucketModel>, rows: Seq<Seq<Seq<u8>>>)
    ensures
        ({
            let (b2, m) = match_rows_spec(buckets, rows);
            &&& m.len() == rows.len()
            &&& b2.len() >= buckets.len()
            &&& forall|i: int| 0 <= i < buckets.len() ==> b2[i] == buckets[i]
            &&& forall|i: int|
                buckets.len() <= i < b2.len() ==> (#[trigger] b2[i]).blocks.len() == 0 && exists|q: int|
                    0 <= q < rows.len() && b2[i].keys == rows[q]
            &&& forall|i: int| 0 <= i < m.len() ==> 0 <= #[trigger] m[i] < b2.len()
        }),
    decreases rows.len(),
{
    if rows.len() == 0 {
    } else {
        lemma_match_rows_props(buckets, rows.drop_last());
        let (b1, m1) = match_rows_spec(buckets, rows.drop_last());
        lemma_find_bucket_is_first(b1, rows.last());
        assert(forall|q: int|
            0 <= q < rows.len() - 1 ==> #[trigger] rows.drop_last()[q] == rows[q]);
    }
}

/// The whole keys step for one group record: validate the decoded columns
/// against the resolved schema, then route every incoming key row.
pub open spec fn merge_keys_spec(g: GroupModel, cols: Seq<Seq<Seq<u8>>>) -> Result<
    (GroupModel, Seq<int>),
    MergeError,
> {
    if cols.len() != g.schema.keys.len() {
        Err(MergeError::Format)
    } else if !key_cols_same_len(cols) {
        Err(MergeError::Mismatch)
    } else if !key_cols_sizes_ok(cols, g.schema) {
        Err(MergeError::Mismatch)
    } else {
        let (b2, m) = match_rows_spec(g.buckets, incoming_rows(cols));
        Ok((GroupModel { schema: g.schema, buckets: b2 }, m))
    }
}

/// Byte equality of two values.
fn bytes_eq(a: &Vec<u8>, b: &Vec<u8>) -> (r: bool)
    ensures
        r == (a@ == b@),
{
    if a.len() != b.len() {
        return false;
    }
    let mut i: usize = 0;
    while i < a.len()
        invariant
            0 <= i <= a.len(),
            a@.len() == b@.len(),
            forall|j: int| 0 <= j < i ==> a@[j] == b@[j],
        decreases a.len() - i,
    {
        if a[i] != b[i] {
            return false;
        }
        i += 1;
    }
    proof {
        assert(a@ =~= b@);
    }
    true
}

/// An owned copy of a decoded key value.
fn copy_bytes(src: &Vec<u8>) -> (r: Vec<u8>)
    ensures
        r@ == src@,
{
    let mut r: Vec<u8> = Vec::new();
    let mut i: usize = 0;
    while i < src.len()
        invariant
            0 <= i <= src.len(),
            r@ == src@.take(i as int),
        decreases src.len() - i,
    {
        r.push(src[i]);
        proof {
            assert(src@.take(i + 1) =~= src@.take(i as int).push(src@[i as int]));
        }
        i += 1;
    }
    proof {
        assert(src@.take(src@.len() as int) =~= src@);
    }
    r
}

/// Does this bucket's key set byte-match incoming row `i`?
fn bucket_matches_row(bk: &Bucket, cols: &Vec<KeyColumn>, i: usize) -> (r: bool)
    requires
        key_cols_same_len(cols.deep_view()),
        cols@.len() == 0 ==> i == 0,
        cols@.len() > 0 ==> i < cols.deep_view()[0].len(),
    ensures
        r == (bk@.keys == incoming_rows(cols.deep_view())[i as int]),
{
    let ghost row = incoming_rows(cols.deep_view())[i as int];
    proof {
        if cols@.len() > 0 {
            assert(row.len() == cols@.len());
        } else {
            assert(row =~= Seq::<Seq<u8>>::empty());
        }
    }
    if bk.keys.len() != cols.len() {
        proof {
            assert(bk@.keys.len() == bk.keys@.len());
            assert(bk@.keys != row);
        }
        return false;
    }
    let mut k: usize = 0;
    while k < cols.len()
        invariant
            0 <= k <= cols@.len(),
            bk@.keys.len() == cols@.len(),
            key_cols_same_len(cols.deep_view()),
            cols@.len() == 0 ==> i == 0,
            cols@.len() > 0 ==> i < cols.deep_view()[0].len(),
            row == incoming_rows(cols.deep_view())[i as int],
            forall|q: int| 0 <= q < k ==> #[trigger] bk@.keys[q] == row[q],
        decreases cols.len() - k,
    {
        proof {
            assert(cols.deep_view()[k as int].len() == cols.deep_view()[0].len());
            assert(row[k as int] == cols.deep_view()[k as int][i as int]);
            assert(cols.deep_view()[k as int] == cols@[k as int]@);
            assert(cols@[k as int]@[i as int] == cols@[k as int].values@[i as int]@);
        }
        if !bytes_eq(&bk.keys[k], &cols[k].values[i]) {
            proof {
                assert(bk@.keys[k as int] == bk.keys@[k as int]@);
                assert(bk@.keys[k as int] != row[k as int]);
            }
            return false;
        }
        k += 1;
    }
    proof {
        assert(bk@.keys =~= row);
    }
    true
}

impl Group {
    /// Route every incoming grouping-key row of one group record to a live
    /// bucket, allocating buckets for unmatched rows. Returns the mapping
    /// from incoming row index to bucket index.
    ///
    /// A record whose column count disagrees with the schema is a format
    /// error; columns of unequal row counts or values of the wrong byte
    /// width are a structural mismatch. On any error the group is
    /// untouched.
    pub fn match_key_rows(&mut self, cols: &Vec<KeyColumn>) -> (r: Result<
        Vec<usize>,
        MergeError,
    >)
        ensures
            match r {
                Ok(mapping) => merge_keys_spec(old(self)@, cols.deep_view()) == Ok::<
                    (GroupModel, Seq<int>),
                    MergeError,
                >((final(self)@, mapping@.map_values(|x: usize| x as int))),
                Err(e) => merge_keys_spec(old(self)@, cols.deep_view()) == Err::<
                    (GroupModel, Seq<int>),
                    MergeError,
                >(e) && final(self)@ == old(self)@,
            },
            final(self)@.schema == old(self)@.schema,
    {
        let ghost cols_m = cols.deep_view();
        if cols.len() != self.schema.keys.len() {
            proof {
                assert(cols_m.len() == cols@.len());
                assert(self@.schema.keys.len() == self.schema.keys@.len());
            }
            return Err(MergeError::Format);
        }
        proof {
            assert(cols_m.len() == cols@.len());
            assert(self@.schema.keys.len() == self.schema.keys@.len());
        }
        // all columns must report the same row count
        let mut k: usize = 1;
        while k < cols.len()
            invariant
                1 <= k <= cols@.len() || cols@.len() == 0,
                self@ == old(self)@,
                cols_m == cols.deep_view(),
                cols_m.len() == cols@.len(),
                cols@.len() == self@.schema.keys.len(),
                forall|q: int| 0 <= q < k && q < cols_m.len() ==> #[trigger] cols_m[q].len()
                    == cols_m[0].len(),
            decreases cols.len() - k,
        {
            if cols[k].values.len() != cols[0].values.len() {
                proof {
                    assert(cols_m[k as int].len() != cols_m[0].len());
                    assert(!key_cols_same_len(cols_m));
                }
                return Err(MergeError::Mismatch);
            }
            k += 1;
        }
        proof {
            assert(key_cols_same_len(cols_m));
        }
        // every value must have the width its key type declares
        let mut k2: usize = 0;
        while k2 < cols.len()
            invariant
                0 <= k2 <= cols@.len(),
                self@ == old(self)@,
                cols_m == cols.deep_view(),
                cols_m.len() == cols@.len(),
                cols@.len() == self@.schema.keys.len(),
                key_cols_same_len(cols_m),
                forall|q: int, i: int|
                    0 <= q < k2 && 0 <= i < cols_m[q].len() ==> (#[trigger] cols_m[q][i]).len()
                        == self@.schema.keys[q].size,
            decreases cols.len() - k2,
        {
            let mut i: usize = 0;
            while i < cols[k2].values.len()
                invariant
                    0 <= k2 < cols@.len(),
                    0 <= i <= cols_m[k2 as int].len(),
                    self@ == old(self)@,
                    cols_m == cols.deep_view(),
                    cols_m.len() == cols@.len(),
                    cols@.len() == self@.schema.keys.len(),
                    key_cols_same_len(cols_m),
                    forall|q: int, t: int|
                        0 <= q < k2 && 0 <= t < cols_m[q].len() ==> (#[trigger] cols_m[q][t]).len()
                            == self@.schema.keys[q].size,
                    forall|t: int| 0 <= t < i ==> (#[trigger] cols_m[k2 as int][t]).len()
                        == self@.schema.keys[k2 as int].size,
                decreases cols[k2 as int].values.len() - i,
            {
                if cols[k2].values[i].len() != self.schema.keys[k2].size {
                    proof {
                        assert(cols_m[k2 as int][i as int].len()
                            != self@.schema.keys[k2 as int].size);
                        assert(!key_cols_sizes_ok(cols_m, self@.schema));
                    }
                    return Err(MergeError::Mismatch);
                }
                i += 1;
            }
            k2 += 1;
        }
        proof {
            assert(key_cols_sizes_ok(cols_m, self@.schema));
        }
        // route each incoming row, newest buckets included in the scan
        let ghost rows = incoming_rows(cols_m);
        let ghost b0 = self@.buckets;
        let n_rows: usize = if cols.len() == 0 {
            1
        } else {
            cols[0].values.len()
        };
        proof {
            assert(rows.len() == n_rows as int);
        }
        let mut mapping: Vec<usize> = Vec::new();
        let mut i: usize = 0;
        while i < n_rows
            invariant
                0 <= i <= n_rows,
                rows == incoming_rows(cols_m),
                rows.len() == n_rows as int,
                cols_m == cols.deep_view(),
                cols_m.len() == cols@.len(),
                cols@.len() == old(self)@.schema.keys.len(),
                key_cols_same_len(cols_m),
                key_cols_sizes_ok(cols_m, old(self)@.schema),
                b0 == old(self)@.buckets,
                cols@.len() == 0 ==> n_rows == 1,
                cols@.len() > 0 ==> n_rows as int == cols_m[0].len(),
                self@.schema == old(self)@.schema,
                (self@.buckets, mapping@.map_values(|x: usize| x as int)) == match_rows_spec(
                    b0,
                    rows.take(i as int),
                ),
                mapping@.len() == i,
                forall|q: int| 0 <= q < mapping@.len() ==> ((#[trigger] mapping@[q]) as int)
                    < self@.buckets.len(),
            decreases n_rows - i,
        {
            let ghost pre_buckets = self@.buckets;
            let ghost row = rows[i as int];
            proof {
                lemma_find_bucket_is_first(pre_buckets, row);
            }
            // scan all live buckets, first full match wins
            let mut j: usize = 0;
            let mut found: bool = false;
            let mut chosen: usize = 0;
            while j < self.buckets.len() && !found
                invariant
                    0 <= j <= self@.buckets.len(),
                    self@.buckets == pre_buckets,
                    self@.schema == old(self)@.schema,
                    cols_m == cols.deep_view(),
                    key_cols_same_len(cols_m),
                    cols@.len() == 0 ==> i == 0,
                    cols@.len() > 0 ==> i < cols_m[0].len(),
                    row == incoming_rows(cols_m)[i as int],
                    !found ==> forall|q: int|
                        0 <= q < j ==> (#[trigger] pre_buckets[q].keys) != row,
                    found ==> chosen < j && pre_buckets[chosen as int].keys == row && forall|
                        q: int,
                    |
                        0 <= q < chosen ==> (#[trigger] pre_buckets[q].keys) != row,
                decreases self.buckets.len() - j + (if found { 0int } else { 1int }),
            {
                proof {
                    assert(self.buckets.deep_view()[j as int] == self.buckets@[j as int]@);
                }
                if bucket_matches_row(&self.buckets[j], cols, i) {
                    found = true;
                    chosen = j;
                }
                j += 1;
            }
            proof {
                lemma_find_bucket_is_first(pre_buckets, row);
            }
            if found {
                proof {
                    let f = find_bucket(pre_buckets, row);
                    assert(f is Some);
                    let fj = f.unwrap();
                    assert(!(fj < chosen as int));
                    assert(!((chosen as int) < fj));
                    assert(match_step(pre_buckets, row) == (pre_buckets, chosen as int));
                }
                mapping.push(chosen);
            } else {
                proof {
                    assert(find_bucket(pre_buckets, row) is None);
                }
                // allocate a new bucket owning this row's key values
                let mut new_keys: Vec<Vec<u8>> = Vec::new();
                let mut k3: usize = 0;
                while k3 < cols.len()
                    invariant
                        0 <= k3 <= cols@.len(),
                        cols_m == cols.deep_view(),
                        key_cols_same_len(cols_m),
                        cols@.len() == 0 ==> i == 0,
                        cols@.len() > 0 ==> i < cols_m[0].len(),
                        row == incoming_rows(cols_m)[i as int],
                        new_keys.deep_view() =~= row.take(k3 as int),
                    decreases cols.len() - k3,
                {
                    proof {
                        assert(cols_m[k3 as int].len() == cols_m[0].len());
                        assert(row[k3 as int] == cols_m[k3 as int][i as int]);
                        assert(cols_m[k3 as int] == cols@[k3 as int]@);
                        assert(cols@[k3 as int]@[i as int] == cols@[k3 as int].values@[i as int]@);
                    }
                    let v = copy_bytes(&cols[k3].values[i]);
                    new_keys.push(v);
                    proof {
                        assert(new_keys.deep_view() =~= row.take(k3 as int).push(row[k3 as int]));
                        assert(row.take(k3 + 1) =~= row.take(k3 as int).push(row[k3 as int]));
                    }
                    k3 += 1;
                }
                proof {
                    if cols@.len() > 0 {
                        assert(row.len() == cols@.len());
                    } else {
                        assert(row =~= Seq::<Seq<u8>>::empty());
                    }
                    assert(row.take(row.len() as int) =~= row);
                    assert(new_keys.deep_view() == row);
                }
                let nb = Bucket { keys: new_keys, blocks: Vec::new() };
                proof {
                    assert(nb@.blocks =~= Seq::<crate::store::BlockModel>::empty());
                    assert(nb@.keys == row);
                }
                let idx = self.buckets.len();
                self.buckets.push(nb);
                proof {
                    assert(self@.buckets =~= pre_buckets.push(nb@));
                    assert(match_step(pre_buckets, row) == (
                        self@.buckets,
                        pre_buckets.len() as int,
                    ));
                }
                mapping.push(idx);
            }
            proof {
                let (bp, mp) = match_rows_spec(b0, rows.take(i as int));
                assert(rows.take(i + 1).drop_last() =~= rows.take(i as int));
                assert(rows.take(i + 1).last() == rows[i as int]);
                assert(mapping@.map_values(|x: usize| x as int) =~= mp.push(
                    mapping@.last() as int,
                ));
            }
            i += 1;
        }
        proof {
            assert(rows.take(rows.len() as int) =~= rows);
        }
        Ok(mapping)
    }
}

} // verus!
