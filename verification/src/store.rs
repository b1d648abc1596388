//! The live store: groups keyed by schema, buckets keyed by grouping-key
//! values, fixed-capacity blocks of row identities and component columns.
//!
//! Every structure has a ghost model (`...Model`) reached through `view`,
//! and the store's invariant is `store_wf` over that model.

use vstd::prelude::*;

verus! {

/// Runtime descriptor of one component or key type: an identifier and the
/// byte width of one element. Equality, copying and destruction of values
/// are byte-wise, so the width is all the merge needs.
#[derive(Clone, Copy, Debug, PartialEq, Eq, Structural)]
pub struct TypeDesc {
    pub id: u64,
    pub size: usize,
}

#[verifier::ext_equal]
pub ghost struct TypeDescModel {
    pub id: u64,
    pub size: nat,
}

impl View for TypeDesc {
    type V = TypeDescModel;

    open spec fn view(&self) -> TypeDescModel {
        TypeDescModel { id: self.id, size: self.size as nat }
    }
}

impl DeepView for TypeDesc {
    type V = TypeDescModel;

    open spec fn deep_view(&self) -> TypeDescModel {
        self@
    }
}

/// A schema description: the component types and grouping-key types that
/// define a group. Two schemas are interchangeable when they hold the same
/// sets of typed members, regardless of declaration order.
#[derive(Debug, PartialEq)]
pub struct Schema {
    pub components: Vec<TypeDesc>,
    pub keys: Vec<TypeDesc>,
}

#[verifier::ext_equal]
pub ghost struct SchemaModel {
    pub components: Seq<TypeDescModel>,
    pub keys: Seq<TypeDescModel>,
}

impl View for Schema {
    type V = SchemaModel;

    open spec fn view(&self) -> SchemaModel {
        SchemaModel { components: self.components.deep_view(), keys: self.keys.deep_view() }
    }
}

impl DeepView for Schema {
    type V = SchemaModel;

    open spec fn deep_view(&self) -> SchemaModel {
        self@
    }
}

/// A fixed-capacity container of row identities plus one column of bytes
/// per component type of the owning group's schema.
#[derive(Debug, PartialEq)]
pub struct Block {
    pub rows: Vec<u64>,
    pub columns: Vec<Vec<u8>>,
}

#[verifier::ext_equal]
pub ghost struct BlockModel {
    pub rows: Seq<u64>,
    pub columns: Seq<Seq<u8>>,
}

impl View for Block {
    type V = BlockModel;

    open spec fn view(&self) -> BlockModel {
        BlockModel { rows: self.rows@, columns: self.columns.deep_view() }
    }
}

impl DeepView for Block {
    type V = BlockModel;

    open spec fn deep_view(&self) -> BlockModel {
        self@
    }
}

/// A subdivision of a group holding the rows whose grouping-key values are
/// byte-identical. The key values are stored once, one per key type of the
/// schema, in schema order.
#[derive(Debug, PartialEq)]
pub struct Bucket {
    pub keys: Vec<Vec<u8>>,
    pub blocks: Vec<Block>,
}

#[verifier::ext_equal]
pub ghost struct BucketModel {
    pub keys: Seq<Seq<u8>>,
    pub blocks: Seq<BlockModel>,
}

impl View for Bucket {
    type V = BucketModel;

    open spec fn view(&self) -> BucketModel {
        BucketModel { keys: self.keys.deep_view(), blocks: self.blocks.deep_view() }
    }
}

impl DeepView for Bucket {
    type V = BucketModel;

    open spec fn deep_view(&self) -> BucketModel {
        self@
    }
}

/// A live partition of the store holding exactly one schema. Its index in
/// the store is stable for the store's lifetime.
#[derive(Debug, PartialEq)]
pub struct Group {
    pub schema: Schema,
    pub buckets: Vec<Bucket>,
}

#[verifier::ext_equal]
pub ghost struct GroupModel {
    pub schema: SchemaModel,
    pub buckets: Seq<BucketModel>,
}

impl View for Group {
    type V = GroupModel;

    open spec fn view(&self) -> GroupModel {
        GroupModel { schema: self.schema@, buckets: self.buckets.deep_view() }
    }
}

impl DeepView for Group {
    type V = GroupModel;

    open spec fn deep_view(&self) -> GroupModel {
        self@
    }
}

/// The live store: an arena of groups and the block capacity shared by
/// every block in the store.
#[derive(Debug, PartialEq)]
pub struct Store {
    pub capacity: usize,
    pub groups: Vec<Group>,
}

#[verifier::ext_equal]
pub ghost struct StoreModel {
    pub capacity: nat,
    pub groups: Seq<GroupModel>,
}

impl View for Store {
    type V = StoreModel;

    open spec fn view(&self) -> StoreModel {
        StoreModel { capacity: self.capacity as nat, groups: self.groups.deep_view() }
    }
}

impl DeepView for Store {
    type V = StoreModel;

    open spec fn deep_view(&self) -> StoreModel {
        self@
    }
}

/// The deep view of a vector is the sequence of its elements' deep views.
pub broadcast proof fn lemma_vec_deep_view_len<T: DeepView>(v: Vec<T>)
    ensures
        #[trigger] v.deep_view().len() == v@.len(),
{
}

pub broadcast proof fn lemma_vec_deep_view_index<T: DeepView>(v: Vec<T>, i: int)
    requires
        0 <= i < v@.len(),
    ensures
        #[trigger] v.deep_view()[i] == v@[i].deep_view(),
{
}

/// For vectors of primitives, the deep view coincides with the view.
pub broadcast proof fn lemma_bytes_deep_view(v: Vec<u8>)
    ensures
        #[trigger] v.deep_view() == v@,
{
    assert(v.deep_view() =~= v@);
}

pub broadcast proof fn lemma_ids_deep_view(v: Vec<u64>)
    ensures
        #[trigger] v.deep_view() == v@,
{
    assert(v.deep_view() =~= v@);
}

/// A block never exceeds the capacity, carries one column per component
/// type, and each column holds exactly one element per row.
pub open spec fn block_wf(b: BlockModel, schema: SchemaModel, cap: nat) -> bool {
    &&& b.rows.len() <= cap
    &&& b.columns.len() == schema.components.len()
    &&& forall|c: int|
        0 <= c < schema.components.len() ==> #[trigger] b.columns[c].len() == b.rows.len()
            * schema.components[c].size
}

/// A bucket stores one key value per key type of the schema, each of the
/// declared width, and only well-formed blocks.
pub open spec fn bucket_wf(bk: BucketModel, schema: SchemaModel, cap: nat) -> bool {
    &&& bk.keys.len() == schema.keys.len()
    &&& forall|k: int|
        0 <= k < bk.keys.len() ==> #[trigger] bk.keys[k].len() == schema.keys[k].size
    &&& forall|i: int| 0 <= i < bk.blocks.len() ==> block_wf(#[trigger] bk.blocks[i], schema, cap)
}

pub open spec fn group_wf(g: GroupModel, cap: nat) -> bool {
    forall|b: int| 0 <= b < g.buckets.len() ==> bucket_wf(#[trigger] g.buckets[b], g.schema, cap)
}

/// The store invariant: positive block capacity and well-formed groups.
pub open spec fn store_wf(s: StoreModel) -> bool {
    &&& s.capacity >= 1
    &&& forall|g: int| 0 <= g < s.groups.len() ==> group_wf(#[trigger] s.groups[g], s.capacity)
}

/// Total number of rows held by a group, summed over buckets and blocks.
pub open spec fn bucket_row_total(bk: BucketModel) -> nat
    decreases bk.blocks.len(),
{
    if bk.blocks.len() == 0 {
        0
    } else {
        bucket_row_total(BucketModel { keys: bk.keys, blocks: bk.blocks.drop_last() })
            + bk.blocks.last().rows.len()
    }
}

pub open spec fn group_row_total(g: GroupModel) -> nat
    decreases g.buckets.len(),
{
    if g.buckets.len() == 0 {
        0
    } else {
        group_row_total(GroupModel { schema: g.schema, buckets: g.buckets.drop_last() })
            + bucket_row_total(g.buckets.last())
    }
}

/// Total number of rows held by the store.
pub open spec fn store_row_total(s: StoreModel) -> nat
    decreases s.groups.len(),
{
    if s.groups.len() == 0 {
        0
    } else {
        store_row_total(StoreModel { capacity: s.capacity, groups: s.groups.drop_last() })
            + group_row_total(s.groups.last())
    }
}

impl Store {
    /// An empty store with the given block capacity.
    pub fn new(capacity: usize) -> (s: Store)
        requires
            capacity >= 1,
        ensures
            s@ == (StoreModel { capacity: capacity as nat, groups: Seq::<GroupModel>::empty() }),
            store_wf(s@),
    {
        let s = Store { capacity, groups: Vec::new() };
        proof {
            assert(s@.groups =~= Seq::<GroupModel>::empty());
        }
        s
    }

    /// The number of live groups.
    pub fn group_count(&self) -> (n: usize)
        ensures
            n == self@.groups.len(),
    {
        self.groups.len()
    }

    /// The number of rows in the store, or `None` if the count does not
    /// fit in a `u64`.
    pub fn total_rows(&self) -> (r: Option<u64>)
        ensures
            store_row_total(self@) <= u64::MAX ==> r == Some(store_row_total(self@) as u64),
            store_row_total(self@) > u64::MAX ==> r is None,
    {
        let mut total: u64 = 0;
        let mut g: usize = 0;
        let mut overflow = false;
        while g < self.groups.len()
            invariant
                0 <= g <= self.groups.len(),
                !overflow ==> total == store_row_total(
                    StoreModel { capacity: self@.capacity, groups: self@.groups.take(g as int) },
                ),
                overflow ==> store_row_total(
                    StoreModel { capacity: self@.capacity, groups: self@.groups.take(g as int) },
                ) > u64::MAX,
                store_row_total(
                    StoreModel { capacity: self@.capacity, groups: self@.groups.take(g as int) },
                ) <= store_row_total(self@),
            decreases self.groups.len() - g,
        {
            proof {
                lemma_store_row_total_take_step(self@, g as int);
                lemma_store_row_total_prefix(self@, g as int + 1);
            }
            let gt = group_rows(&self.groups[g]);
            match gt {
                Some(n) => {
                    if !overflow {
                        match total.checked_add(n) {
                            Some(t) => {
                                total = t;
                            },
                            None => {
                                overflow = true;
                            },
                        }
                    }
                },
                None => {
                    overflow = true;
                },
            }
            g += 1;
        }
        proof {
            assert(self@.groups.take(self.groups.len() as int) =~= self@.groups);
        }
        if overflow {
            None
        } else {
            Some(total)
        }
    }
}

proof fn lemma_store_row_total_take_step(s: StoreModel, g: int)
    requires
        0 <= g < s.groups.len(),
    ensures
        store_row_total(StoreModel { capacity: s.capacity, groups: s.groups.take(g + 1) })
            == store_row_total(StoreModel { capacity: s.capacity, groups: s.groups.take(g) })
            + group_row_total(s.groups[g]),
{
    let pre = StoreModel { capacity: s.capacity, groups: s.groups.take(g + 1) };
    assert(pre.groups.drop_last() =~= s.groups.take(g));
    assert(pre.groups.last() == s.groups[g]);
}

proof fn lemma_store_row_total_prefix(s: StoreModel, g: int)
    requires
        0 <= g <= s.groups.len(),
    ensures
        store_row_total(StoreModel { capacity: s.capacity, groups: s.groups.take(g) })
            <= store_row_total(s),
    decreases s.groups.len() - g,
{
    if g == s.groups.len() {
        assert(s.groups.take(g) =~= s.groups);
    } else {
        lemma_store_row_total_take_step(s, g);
        lemma_store_row_total_prefix(s, g + 1);
    }
}

fn group_rows(g: &Group) -> (r: Option<u64>)
    ensures
        group_row_total(g@) <= u64::MAX ==> r == Some(group_row_total(g@) as u64),
        group_row_total(g@) > u64::MAX ==> r is None,
{
    let mut total: u64 = 0;
    let mut b: usize = 0;
    let mut overflow = false;
    while b < g.buckets.len()
        invariant
            0 <= b <= g.buckets.len(),
            !overflow ==> total == group_row_total(
                GroupModel { schema: g@.schema, buckets: g@.buckets.take(b as int) },
            ),
            overflow ==> group_row_total(
                GroupModel { schema: g@.schema, buckets: g@.buckets.take(b as int) },
            ) > u64::MAX,
        decreases g.buckets.len() - b,
    {
        proof {
            let pre = GroupModel { schema: g@.schema, buckets: g@.buckets.take(b + 1) };
            assert(pre.buckets.drop_last() =~= g@.buckets.take(b as int));
            assert(pre.buckets.last() == g@.buckets[b as int]);
        }
        let bt = bucket_rows(&g.buckets[b]);
        match bt {
            Some(n) => {
                if !overflow {
                    match total.checked_add(n) {
                        Some(t) => {
                            total = t;
                        },
                        None => {
                            overflow = true;
                        },
                    }
                }
            },
            None => {
                overflow = true;
            },
        }
        b += 1;
    }
    proof {
        assert(g@.buckets.take(g.buckets.len() as int) =~= g@.buckets);
    }
    if overflow {
        None
    } else {
        Some(total)
    }
}

fn bucket_rows(bk: &Bucket) -> (r: Option<u64>)
    ensures
        bucket_row_total(bk@) <= u64::MAX ==> r == Some(bucket_row_total(bk@) as u64),
        bucket_row_total(bk@) > u64::MAX ==> r is None,
{
    let mut total: u64 = 0;
    let mut i: usize = 0;
    let mut overflow = false;
    while i < bk.blocks.len()
        invariant
            0 <= i <= bk.blocks.len(),
            !overflow ==> total == bucket_row_total(
                BucketModel { keys: bk@.keys, blocks: bk@.blocks.take(i as int) },
            ),
            overflow ==> bucket_row_total(
                BucketModel { keys: bk@.keys, blocks: bk@.blocks.take(i as int) },
            ) > u64::MAX,
        decreases bk.blocks.len() - i,
    {
        proof {
            let pre = BucketModel { keys: bk@.keys, blocks: bk@.blocks.take(i + 1) };
            assert(pre.blocks.drop_last() =~= bk@.blocks.take(i as int));
            assert(pre.blocks.last() == bk@.blocks[i as int]);
        }
        let n = bk.blocks[i].rows.len();
        if !overflow {
            match total.checked_add(n as u64) {
                Some(t) => {
                    total = t;
                },
                None => {
                    overflow = true;
                },
            }
        }
        i += 1;
    }
    proof {
        assert(bk@.blocks.take(bk.blocks.len() as int) =~= bk@.blocks);
    }
    if overflow {
        None
    } else {
        Some(total)
    }
}

} // verus!
