use store_merge::records::{
    BlockField, BlockList, BlockRecord, ComponentData, GroupField, GroupRecord, KeyColumn, Run,
};
use store_merge::store::{Block, Bucket, Group, Schema, Store, TypeDesc};
use store_merge::MergeError;

fn schema_rh() -> Schema {
    // one key type `region` (id 1), one component `hp` (id 2), 1 byte each
    Schema {
        components: vec![TypeDesc { id: 2, size: 1 }],
        keys: vec![TypeDesc { id: 1, size: 1 }],
    }
}

fn run1(bytes: Vec<u8>) -> ComponentData {
    let elems = bytes.len();
    ComponentData { runs: vec![Run { bytes, elems }] }
}

fn block_record(ids: Vec<u64>, comps: Vec<ComponentData>) -> BlockRecord {
    BlockRecord { fields: vec![BlockField::Rows(ids), BlockField::Components(comps)] }
}

fn group_record(schema: Schema, cols: Vec<KeyColumn>, lists: Vec<BlockList>) -> GroupRecord {
    GroupRecord {
        fields: vec![
            GroupField::Schema(schema),
            GroupField::Keys(cols),
            GroupField::Buckets(lists),
        ],
    }
}

#[test]
fn merge_into_empty_store_builds_one_group() {
    let mut store = Store::new(4);
    let rec = group_record(
        schema_rh(),
        vec![KeyColumn { values: vec![vec![1]] }],
        vec![BlockList { records: vec![block_record(vec![7], vec![run1(vec![99])])] }],
    );
    let r = store.merge(&vec![rec]);
    assert!(r.is_ok());
    assert_eq!(store.group_count(), 1);
    assert_eq!(store.groups[0].buckets.len(), 1);
    assert_eq!(store.groups[0].buckets[0].keys, vec![vec![1]]);
    assert_eq!(store.groups[0].buckets[0].blocks.len(), 1);
    assert_eq!(store.groups[0].buckets[0].blocks[0].rows, vec![7]);
    assert_eq!(store.groups[0].buckets[0].blocks[0].columns, vec![vec![99]]);
    assert_eq!(store.total_rows(), Some(1));
}

// the concrete scenario: an existing group with one `region=1` bucket of
// two rows; merging three rows for `region=1` and one for `region=2`
#[test]
fn concrete_scenario_appends_and_allocates() {
    let mut store = Store {
        capacity: 4,
        groups: vec![Group {
            schema: schema_rh(),
            buckets: vec![Bucket {
                keys: vec![vec![1]],
                blocks: vec![Block { rows: vec![1, 2], columns: vec![vec![7, 8]] }],
            }],
        }],
    };
    assert_eq!(store.total_rows(), Some(2));
    let rec = group_record(
        schema_rh(),
        vec![KeyColumn { values: vec![vec![1], vec![2]] }],
        vec![
            BlockList { records: vec![block_record(vec![10, 11, 12], vec![run1(vec![10, 20, 30])])] },
            BlockList { records: vec![block_record(vec![13], vec![run1(vec![40])])] },
        ],
    );
    let r = store.merge(&vec![rec]);
    assert!(r.is_ok());
    // still one group, schema matched
    assert_eq!(store.group_count(), 1);
    let g = &store.groups[0];
    // region=1 rows appended to the existing bucket, spilling to a new block
    assert_eq!(g.buckets.len(), 2);
    assert_eq!(g.buckets[0].keys, vec![vec![1]]);
    assert_eq!(g.buckets[0].blocks.len(), 2);
    assert_eq!(g.buckets[0].blocks[0].rows, vec![1, 2, 10, 11]);
    assert_eq!(g.buckets[0].blocks[0].columns, vec![vec![7, 8, 10, 20]]);
    assert_eq!(g.buckets[0].blocks[1].rows, vec![12]);
    assert_eq!(g.buckets[0].blocks[1].columns, vec![vec![30]]);
    // a new bucket for region=2 holding one row with hp=40
    assert_eq!(g.buckets[1].keys, vec![vec![2]]);
    assert_eq!(g.buckets[1].blocks.len(), 1);
    assert_eq!(g.buckets[1].blocks[0].rows, vec![13]);
    assert_eq!(g.buckets[1].blocks[0].columns, vec![vec![40]]);
    // total store row count increased by 4
    assert_eq!(store.total_rows(), Some(6));
}

// idempotent schema resolution: byte-equal schemas share a group, and
// member order does not matter
#[test]
fn equal_schemas_share_a_group() {
    let mut store = Store::new(8);
    let s1 = Schema {
        components: vec![TypeDesc { id: 2, size: 1 }, TypeDesc { id: 3, size: 2 }],
        keys: vec![],
    };
    let s2 = Schema {
        components: vec![TypeDesc { id: 3, size: 2 }, TypeDesc { id: 2, size: 1 }],
        keys: vec![],
    };
    let i1 = store.resolve_group(&s1);
    let i2 = store.resolve_group(&s2);
    assert_eq!(i1, i2);
    assert_eq!(store.group_count(), 1);
}

#[test]
fn distinct_schemas_allocate_one_group_each() {
    let mut store = Store::new(8);
    for id in 0..5u64 {
        let s = Schema { components: vec![TypeDesc { id, size: 1 }], keys: vec![] };
        let idx = store.resolve_group(&s);
        assert_eq!(idx, id as usize);
    }
    assert_eq!(store.group_count(), 5);
}

// bucket dedup: a byte-matching key row reuses the live bucket, a
// differing one allocates
#[test]
fn matching_key_row_reuses_bucket() {
    let mut g = Group {
        schema: schema_rh(),
        buckets: vec![
            Bucket { keys: vec![vec![5]], blocks: vec![] },
            Bucket { keys: vec![vec![6]], blocks: vec![] },
        ],
    };
    let cols = vec![KeyColumn { values: vec![vec![6], vec![7], vec![6]] }];
    let mapping = g.match_key_rows(&cols).unwrap();
    // row 0 matches bucket 1; row 1 allocates bucket 2; row 2 matches 1
    assert_eq!(mapping, vec![1, 2, 1]);
    assert_eq!(g.buckets.len(), 3);
    assert_eq!(g.buckets[2].keys, vec![vec![7]]);
    assert!(g.buckets[2].blocks.is_empty());
}

#[test]
fn zero_key_schema_uses_implicit_bucket() {
    let mut g = Group {
        schema: Schema { components: vec![TypeDesc { id: 2, size: 1 }], keys: vec![] },
        buckets: vec![],
    };
    let mapping = g.match_key_rows(&vec![]).unwrap();
    assert_eq!(mapping, vec![0]);
    assert_eq!(g.buckets.len(), 1);
    assert!(g.buckets[0].keys.is_empty());
}

// block capacity: F free slots first, then whole blocks of C, then the
// remainder, and no block ever exceeds C
#[test]
fn packing_respects_capacity() {
    let mut bucket = Bucket {
        keys: vec![vec![1]],
        blocks: vec![Block { rows: vec![1, 2], columns: vec![vec![7, 8]] }],
    };
    // C = 4, F = 2, M = 7: counts must be 2, 4, 1
    let ids: Vec<u64> = vec![10, 11, 12, 13, 14, 15, 16];
    let ranges = store_merge::pack::pack_rows(&mut bucket.blocks, &ids, 4, 1);
    assert_eq!(ranges, vec![(0, 2), (1, 4), (2, 1)]);
    assert_eq!(bucket.blocks.len(), 3);
    assert_eq!(bucket.blocks[0].rows, vec![1, 2, 10, 11]);
    assert_eq!(bucket.blocks[1].rows, vec![12, 13, 14, 15]);
    assert_eq!(bucket.blocks[2].rows, vec![16]);
    for b in &bucket.blocks {
        assert!(b.rows.len() <= 4);
    }
}

// scatter exactness: each element lands at the row-aligned offset implied
// by its range's block and the rows already in that block
#[test]
fn scatter_lands_each_element_in_place() {
    let mut blocks = vec![
        Block { rows: vec![1, 2, 10, 11], columns: vec![vec![7, 8]] },
        Block { rows: vec![12], columns: vec![vec![]] },
    ];
    // two ranges over two blocks; element size 1; data split across runs
    let data = ComponentData {
        runs: vec![Run { bytes: vec![10], elems: 1 }, Run { bytes: vec![20, 30], elems: 2 }],
    };
    let ranges = vec![(0usize, 2usize), (1usize, 1usize)];
    let r = store_merge::scatter::scatter_component(&mut blocks, 0, 1, &data, &ranges, 3);
    assert!(r.is_ok());
    assert_eq!(blocks[0].columns[0], vec![7, 8, 10, 20]);
    assert_eq!(blocks[1].columns[0], vec![30]);
}

#[test]
fn scatter_rejects_wrong_total() {
    let mut blocks = vec![Block { rows: vec![1, 2], columns: vec![vec![]] }];
    // placement expects 2 elements, the run carries 3
    let data = ComponentData { runs: vec![Run { bytes: vec![1, 2, 3], elems: 3 }] };
    let ranges = vec![(0usize, 2usize)];
    let r = store_merge::scatter::scatter_component(&mut blocks, 0, 1, &data, &ranges, 2);
    assert_eq!(r, Err(MergeError::Mismatch));
    // nothing was written
    assert_eq!(blocks[0].columns[0], Vec::<u8>::new());
}

#[test]
fn scatter_rejects_misaligned_run() {
    let mut blocks = vec![Block { rows: vec![1, 2], columns: vec![vec![]] }];
    // element size 2, but the run holds 3 bytes for 2 elements
    let data = ComponentData { runs: vec![Run { bytes: vec![1, 2, 3], elems: 2 }] };
    let ranges = vec![(0usize, 2usize)];
    let r = store_merge::scatter::scatter_component(&mut blocks, 0, 2, &data, &ranges, 2);
    assert_eq!(r, Err(MergeError::Mismatch));
}

// field order: schema must precede keys, keys must precede buckets, and a
// block record's rows must precede its components
#[test]
fn keys_before_schema_is_a_format_error() {
    let mut store = Store::new(4);
    let rec = GroupRecord {
        fields: vec![
            GroupField::Keys(vec![]),
            GroupField::Schema(schema_rh()),
            GroupField::Buckets(vec![]),
        ],
    };
    assert_eq!(store.merge(&vec![rec]), Err(MergeError::Format));
    assert_eq!(store.group_count(), 0);
}

#[test]
fn missing_buckets_field_is_a_format_error() {
    let mut store = Store::new(4);
    let rec = GroupRecord {
        fields: vec![GroupField::Schema(schema_rh()), GroupField::Keys(vec![])],
    };
    assert_eq!(store.merge(&vec![rec]), Err(MergeError::Format));
}

#[test]
fn components_before_rows_is_a_format_error() {
    let mut store = Store::new(4);
    let rec = group_record(
        schema_rh(),
        vec![KeyColumn { values: vec![vec![1]] }],
        vec![BlockList {
            records: vec![BlockRecord {
                fields: vec![
                    BlockField::Components(vec![run1(vec![9])]),
                    BlockField::Rows(vec![7]),
                ],
            }],
        }],
    );
    assert_eq!(store.merge(&vec![rec]), Err(MergeError::Format));
}

#[test]
fn wrong_key_column_count_is_a_format_error() {
    let mut store = Store::new(4);
    // schema declares one key type, the record carries two columns
    let rec = group_record(
        schema_rh(),
        vec![
            KeyColumn { values: vec![vec![1]] },
            KeyColumn { values: vec![vec![2]] },
        ],
        vec![BlockList { records: vec![] }],
    );
    assert_eq!(store.merge(&vec![rec]), Err(MergeError::Format));
}

#[test]
fn unequal_key_row_counts_are_a_mismatch() {
    let mut store = Store::new(4);
    let schema = Schema {
        components: vec![],
        keys: vec![TypeDesc { id: 1, size: 1 }, TypeDesc { id: 9, size: 1 }],
    };
    let rec = group_record(
        schema,
        vec![
            KeyColumn { values: vec![vec![1], vec![2]] },
            KeyColumn { values: vec![vec![3]] },
        ],
        vec![],
    );
    assert_eq!(store.merge(&vec![rec]), Err(MergeError::Mismatch));
}

#[test]
fn wrong_key_value_width_is_a_mismatch() {
    let mut store = Store::new(4);
    // key type declares 1 byte, the value carries 2
    let rec = group_record(
        schema_rh(),
        vec![KeyColumn { values: vec![vec![1, 1]] }],
        vec![BlockList { records: vec![] }],
    );
    assert_eq!(store.merge(&vec![rec]), Err(MergeError::Mismatch));
}

#[test]
fn wrong_bucket_list_count_is_a_format_error() {
    let mut store = Store::new(4);
    // one key row but two block lists
    let rec = group_record(
        schema_rh(),
        vec![KeyColumn { values: vec![vec![1]] }],
        vec![BlockList { records: vec![] }, BlockList { records: vec![] }],
    );
    assert_eq!(store.merge(&vec![rec]), Err(MergeError::Format));
}

#[test]
fn wrong_component_count_is_a_format_error() {
    let mut store = Store::new(4);
    // schema declares one component, the record carries none
    let rec = group_record(
        schema_rh(),
        vec![KeyColumn { values: vec![vec![1]] }],
        vec![BlockList { records: vec![block_record(vec![7], vec![])] }],
    );
    assert_eq!(store.merge(&vec![rec]), Err(MergeError::Format));
}

#[test]
fn a_failing_record_leaves_earlier_records_merged() {
    let mut store = Store::new(4);
    let good = group_record(
        schema_rh(),
        vec![KeyColumn { values: vec![vec![1]] }],
        vec![BlockList { records: vec![block_record(vec![7], vec![run1(vec![9])])] }],
    );
    let bad = GroupRecord { fields: vec![] };
    assert_eq!(store.merge(&vec![good, bad]), Err(MergeError::Format));
    // the first record's work is retained: no rollback
    assert_eq!(store.group_count(), 1);
    assert_eq!(store.total_rows(), Some(1));
}

// round trip: exporting a store and merging the export into an empty
// store of the same capacity rebuilds the identical structure and bytes
#[test]
fn round_trip_rebuilds_the_store() {
    let store = Store {
        capacity: 2,
        groups: vec![
            Group {
                schema: schema_rh(),
                buckets: vec![
                    Bucket {
                        keys: vec![vec![1]],
                        blocks: vec![
                            Block { rows: vec![1, 2], columns: vec![vec![7, 8]] },
                            Block { rows: vec![3], columns: vec![vec![9]] },
                        ],
                    },
                    Bucket {
                        keys: vec![vec![2]],
                        blocks: vec![Block { rows: vec![4], columns: vec![vec![10]] }],
                    },
                ],
            },
            Group {
                schema: Schema {
                    components: vec![],
                    keys: vec![TypeDesc { id: 3, size: 2 }],
                },
                buckets: vec![Bucket { keys: vec![vec![0, 1]], blocks: vec![] }],
            },
        ],
    };
    let records = store.export_records();
    let mut rebuilt = Store::new(2);
    let r = rebuilt.merge(&records);
    assert!(r.is_ok());
    assert_eq!(rebuilt, store);
}

#[test]
fn empty_key_rows_merge_nothing() {
    let mut store = Store::new(4);
    // one key type, zero key rows: no buckets, no block lists
    let rec = group_record(schema_rh(), vec![KeyColumn { values: vec![] }], vec![]);
    assert!(store.merge(&vec![rec]).is_ok());
    assert_eq!(store.group_count(), 1);
    assert_eq!(store.groups[0].buckets.len(), 0);
}

// two full records with byte-equal schemas route into the same group
#[test]
fn two_records_with_equal_schemas_share_a_group() {
    let mut store = Store::new(4);
    let rec1 = group_record(
        schema_rh(),
        vec![KeyColumn { values: vec![vec![1]] }],
        vec![BlockList { records: vec![block_record(vec![7], vec![run1(vec![9])])] }],
    );
    let rec2 = group_record(
        schema_rh(),
        vec![KeyColumn { values: vec![vec![1]] }],
        vec![BlockList { records: vec![block_record(vec![8], vec![run1(vec![10])])] }],
    );
    assert!(store.merge(&vec![rec1, rec2]).is_ok());
    assert_eq!(store.group_count(), 1);
    // both rows landed in the single region=1 bucket
    assert_eq!(store.groups[0].buckets.len(), 1);
    assert_eq!(store.groups[0].buckets[0].blocks[0].rows, vec![7, 8]);
    assert_eq!(store.groups[0].buckets[0].blocks[0].columns, vec![vec![9, 10]]);
}

// records with pairwise-distinct schemas allocate one group each
#[test]
fn records_with_distinct_schemas_allocate_groups() {
    let mut store = Store::new(4);
    let mut records = Vec::new();
    for id in 0..3u64 {
        let schema = Schema {
            components: vec![TypeDesc { id: 100 + id, size: 1 }],
            keys: vec![TypeDesc { id: 1, size: 1 }],
        };
        records.push(group_record(
            schema,
            vec![KeyColumn { values: vec![vec![1]] }],
            vec![BlockList { records: vec![block_record(vec![id], vec![run1(vec![5])])] }],
        ));
    }
    assert!(store.merge(&records).is_ok());
    assert_eq!(store.group_count(), 3);
}

// a failure inside a record keeps the phases that succeeded — the
// resolved group and the routed bucket — but merges none of its rows
#[test]
fn failure_after_keys_keeps_routed_buckets_only() {
    let mut store = Store::new(4);
    // the block record lacks its components field, so the list fails
    let rec = group_record(
        schema_rh(),
        vec![KeyColumn { values: vec![vec![1]] }],
        vec![BlockList {
            records: vec![BlockRecord { fields: vec![BlockField::Rows(vec![7])] }],
        }],
    );
    assert_eq!(store.merge(&vec![rec]), Err(MergeError::Format));
    // the group was resolved and the key row routed before the failure
    assert_eq!(store.group_count(), 1);
    assert_eq!(store.groups[0].buckets.len(), 1);
    assert_eq!(store.groups[0].buckets[0].keys, vec![vec![1]]);
    // but the failing block record contributed nothing
    assert!(store.groups[0].buckets[0].blocks.is_empty());
    assert_eq!(store.total_rows(), Some(0));
}
