//! Schema resolution: map an incoming schema description to a live group
//! index, reusing a group on structural equality and allocating otherwise.

use vstd::prelude::*;

use crate::store::{
    lemma_vec_deep_view_index, lemma_vec_deep_view_len, Group, GroupModel, Schema, SchemaModel,
    Store, TypeDesc, TypeDescModel,
};

verus! {

broadcast use lemma_vec_deep_view_len, lemma_vec_deep_view_index;

/// A typed member occurs somewhere in a member list.
pub open spec fn desc_in(s: Seq<TypeDescModel>, d: TypeDescModel) -> bool {
    exists|i: int| 0 <= i < s.len() && s[i] == d
}

/// Two member lists describe the same set of typed members: equal length
/// and mutual inclusion, independent of declaration order.
pub open spec fn descs_equiv(a: Seq<TypeDescModel>, b: Seq<TypeDescModel>) -> bool {
    &&& a.len() == b.len()
    &&& forall|i: int| 0 <= i < a.len() ==> desc_in(b, #[trigger] a[i])
    &&& forall|i: int| 0 <= i < b.len() ==> desc_in(a, #[trigger] b[i])
}

/// Structural schema equality: set equality over component members and over
/// key members.
pub open spec fn schema_equiv(a: SchemaModel, b: SchemaModel) -> bool {
    &&& descs_equiv(a.components, b.components)
    &&& descs_equiv(a.keys, b.keys)
}

pub proof fn lemma_schema_equiv_refl(a: SchemaModel)
    ensures
        schema_equiv(a, a),
{
}

pub proof fn lemma_schema_equiv_sym(a: SchemaModel, b: SchemaModel)
    requires
        schema_equiv(a, b),
    ensures
        schema_equiv(b, a),
{
}

pub proof fn lemma_schema_equiv_trans(a: SchemaModel, b: SchemaModel, c: SchemaModel)
    requires
        schema_equiv(a, b),
        schema_equiv(b, c),
    ensures
        schema_equiv(a, c),
{
    assert forall|i: int| 0 <= i < a.components.len() implies desc_in(
        c.components,
        #[trigger] a.components[i],
    ) by {
        let j = choose|j: int|
            0 <= j < b.components.len() && b.components[j] == a.components[i];
        assert(desc_in(c.components, b.components[j]));
    }
    assert forall|i: int| 0 <= i < c.components.len() implies desc_in(
        a.components,
        #[trigger] c.components[i],
    ) by {
        let j = choose|j: int|
            0 <= j < b.components.len() && b.components[j] == c.components[i];
        assert(desc_in(a.components, b.components[j]));
    }
    assert forall|i: int| 0 <= i < a.keys.len() implies desc_in(
        c.keys,
        #[trigger] a.keys[i],
    ) by {
        let j = choose|j: int| 0 <= j < b.keys.len() && b.keys[j] == a.keys[i];
        assert(desc_in(c.keys, b.keys[j]));
    }
    assert forall|i: int| 0 <= i < c.keys.len() implies desc_in(
        a.keys,
        #[trigger] c.keys[i],
    ) by {
        let j = choose|j: int| 0 <= j < b.keys.len() && b.keys[j] == c.keys[i];
        assert(desc_in(a.keys, b.keys[j]));
    }
}

/// One member list is included in another.
fn descs_included(a: &Vec<TypeDesc>, b: &Vec<TypeDesc>) -> (r: bool)
    ensures
        r == forall|i: int| 0 <= i < a.deep_view().len() ==> desc_in(
            b.deep_view(),
            #[trigger] a.deep_view()[i],
        ),
{
    let mut i: usize = 0;
    while i < a.len()
        invariant
            0 <= i <= a.len(),
            forall|j: int| 0 <= j < i ==> desc_in(b.deep_view(), #[trigger] a.deep_view()[j]),
        decreases a.len() - i,
    {
        let mut found = false;
        let mut j: usize = 0;
        while j < b.len()
            invariant
                0 <= i < a.len(),
                0 <= j <= b.len(),
                found == exists|k: int|
                    0 <= k < j && b.deep_view()[k] == a.deep_view()[i as int],
            decreases b.len() - j,
        {
            if b[j].id == a[i].id && b[j].size == a[i].size {
                proof {
                    assert(b.deep_view()[j as int] == a.deep_view()[i as int]);
                }
                found = true;
            }
            j += 1;
        }
        if !found {
            proof {
                assert(!desc_in(b.deep_view(), a.deep_view()[i as int]));
            }
            return false;
        }
        i += 1;
    }
    true
}

/// Structural equality of two schema descriptions.
pub fn schema_eq(a: &Schema, b: &Schema) -> (r: bool)
    ensures
        r == schema_equiv(a@, b@),
{
    if a.components.len() != b.components.len() || a.keys.len() != b.keys.len() {
        return false;
    }
    let c1 = descs_included(&a.components, &b.components);
    let c2 = descs_included(&b.components, &a.components);
    let k1 = descs_included(&a.keys, &b.keys);
    let k2 = descs_included(&b.keys, &a.keys);
    c1 && c2 && k1 && k2
}

/// The first live group whose schema structurally equals the description,
/// if any.
pub open spec fn find_equiv_group(groups: Seq<GroupModel>, desc: SchemaModel) -> Option<int>
    decreases groups.len(),
{
    if groups.len() == 0 {
        None
    } else if schema_equiv(groups[0].schema, desc) {
        Some(0)
    } else {
        match find_equiv_group(groups.drop_first(), desc) {
            Some(i) => Some(i + 1),
            None => None,
        }
    }
}

/// `find_equiv_group` returns the smallest matching index, or `None` when
/// no group matches.
pub proof fn lemma_find_equiv_group_is_first(groups: Seq<GroupModel>, desc: SchemaModel)
    ensures
        match find_equiv_group(groups, desc) {
            Some(i) => 0 <= i < groups.len() && schema_equiv(groups[i].schema, desc)
                && forall|j: int| 0 <= j < i ==> !schema_equiv(#[trigger] groups[j].schema, desc),
            None => forall|j: int|
                0 <= j < groups.len() ==> !schema_equiv(#[trigger] groups[j].schema, desc),
        },
    decreases groups.len(),
{
    if groups.len() == 0 {
    } else if schema_equiv(groups[0].schema, desc) {
    } else {
        lemma_find_equiv_group_is_first(groups.drop_first(), desc);
        assert(forall|j: int|
            1 <= j < groups.len() ==> #[trigger] groups[j] == groups.drop_first()[j - 1]);
    }
}

/// The outcome of schema resolution on the group arena: the arena (with a
/// fresh empty group appended on a miss) and the resolved index.
pub open spec fn resolve_spec(groups: Seq<GroupModel>, desc: SchemaModel) -> (Seq<GroupModel>, int) {
    match find_equiv_group(groups, desc) {
        Some(i) => (groups, i),
        None => (
            groups.push(GroupModel { schema: desc, buckets: Seq::<crate::store::BucketModel>::empty() }),
            groups.len() as int,
        ),
    }
}

/// An owned copy of a schema description.
pub fn duplicate_schema(desc: &Schema) -> (r: Schema)
    ensures
        r@ == desc@,
{
    let mut components: Vec<TypeDesc> = Vec::new();
    let mut i: usize = 0;
    while i < desc.components.len()
        invariant
            0 <= i <= desc.components@.len(),
            components@.len() == i,
            forall|q: int| 0 <= q < i ==> #[trigger] components@[q] == desc.components@[q],
        decreases desc.components.len() - i,
    {
        components.push(desc.components[i]);
        i += 1;
    }
    let mut keys: Vec<TypeDesc> = Vec::new();
    let mut j: usize = 0;
    while j < desc.keys.len()
        invariant
            0 <= j <= desc.keys@.len(),
            keys@.len() == j,
            forall|q: int| 0 <= q < j ==> #[trigger] keys@[q] == desc.keys@[q],
        decreases desc.keys.len() - j,
    {
        keys.push(desc.keys[j]);
        j += 1;
    }
    let r = Schema { components, keys };
    proof {
        assert forall|q: int| 0 <= q < r.components@.len() implies r.components.deep_view()[q]
            == desc.components.deep_view()[q] by {
            assert(r.components.deep_view()[q] == r.components@[q].deep_view());
            assert(desc.components.deep_view()[q] == desc.components@[q].deep_view());
        }
        assert(r.components.deep_view() =~= desc.components.deep_view());
        assert forall|q: int| 0 <= q < r.keys@.len() implies r.keys.deep_view()[q]
            == desc.keys.deep_view()[q] by {
            assert(r.keys.deep_view()[q] == r.keys@[q].deep_view());
            assert(desc.keys.deep_view()[q] == desc.keys@[q].deep_view());
        }
        assert(r.keys.deep_view() =~= desc.keys.deep_view());
        assert(r@ =~~= desc@);
    }
    r
}

impl Store {
    /// Resolve an incoming schema description to a stable group index:
    /// reuse the first group with a structurally equal schema, or allocate
    /// a new empty group for the description.
    pub fn resolve_group(&mut self, desc: &Schema) -> (idx: usize)
        ensures
            final(self)@.capacity == old(self)@.capacity,
            (final(self)@.groups, idx as int) == resolve_spec(old(self)@.groups, desc@),
            idx < final(self)@.groups.len(),
    {
        proof {
            lemma_find_equiv_group_is_first(self@.groups, desc@);
        }
        let ghost groups0 = self@.groups;
        let mut i: usize = 0;
        while i < self.groups.len()
            invariant
                0 <= i <= self.groups.len(),
                self@.groups == groups0,
                self@.capacity == old(self)@.capacity,
                forall|j: int| 0 <= j < i ==> !schema_equiv(
                    #[trigger] groups0[j].schema,
                    desc@,
                ),
            decreases self.groups.len() - i,
        {
            if schema_eq(&self.groups[i].schema, desc) {
                proof {
                    lemma_find_equiv_group_is_first(groups0, desc@);
                    assert(groups0[i as int].schema == self.groups@[i as int]@.schema);
                    assert(schema_equiv(groups0[i as int].schema, desc@));
                    let f = find_equiv_group(groups0, desc@);
                    assert(f is Some);
                    let fi = f.unwrap();
                    assert(!(fi < i as int));
                    assert(!((i as int) < fi));
                }
                return i;
            }
            i += 1;
        }
        proof {
            lemma_find_equiv_group_is_first(groups0, desc@);
            assert(find_equiv_group(groups0, desc@) is None);
        }
        let g = Group { schema: duplicate_schema(desc), buckets: Vec::new() };
        proof {
            assert(g@.buckets =~= Seq::<crate::store::BucketModel>::empty());
        }
        let idx = self.groups.len();
        self.groups.push(g);
        proof {
            assert(self@.groups =~= groups0.push(g@));
        }
        idx
    }
}

} // verus!
