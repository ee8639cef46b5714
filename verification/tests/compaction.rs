//! What selections of views keep alive.
use arrow_array::{Array as _, StringViewArray};
use arrow_buffer::{Buffer, NullBuffer};
use arrow_take::array::{Array, ArrayRef, Native, Offsets, Values};
use arrow_take::compact::{
    allocation_id, compact_byte_view, plan_compaction, retains_little, Compaction,
    COMPACT_MAX_SKIP_BUFFERS, COMPACT_MIN_CAPACITY,
};
use arrow_take::datatype::{type_contains_views, DataType, Field, IntType, PrimitiveType, UnionMode};
use arrow_take::deep::{deep_compact_data, deep_compact_views};
use arrow_take::take::take;
use std::sync::Arc;

fn from_views(array: &StringViewArray) -> Array {
    Array {
        data_type: Arc::new(DataType::Utf8View),
        len: array.len(),
        nulls: array.nulls().cloned(),
        values: Values::Views {
            views: array.views().to_vec(),
            buffers: array.data_buffers().to_vec(),
        },
    }
}

fn parts(a: &Array) -> (&Vec<u128>, &Vec<Buffer>) {
    match &a.values {
        Values::Views { views, buffers } => (views, buffers),
        _ => unreachable!(),
    }
}

fn buffers(a: &Array) -> &Vec<Buffer> {
    parts(a).1
}

fn is_null(a: &Array, i: usize) -> bool {
    match &a.nulls {
        Some(n) => n.is_null(i),
        None => false,
    }
}

fn value(a: &Array, i: usize) -> String {
    assert!(!is_null(a, i));
    let (views, buffers) = parts(a);
    let view = views[i];
    let len = (view as u32) as usize;
    let bytes = if len <= 12 {
        view.to_le_bytes()[4..4 + len].to_vec()
    } else {
        let buffer = (view >> 64) as u32 as usize;
        let offset = (view >> 96) as u32 as usize;
        buffers[buffer].as_slice()[offset..offset + len].to_vec()
    };
    String::from_utf8(bytes).unwrap()
}

fn capacity(a: &Array) -> usize {
    buffers(a).iter().map(|b| b.capacity()).sum()
}

fn used(a: &Array) -> usize {
    let lens = parts(a).0.iter().map(|v| (*v as u32) as usize);
    lens.filter(|len| *len > 12).sum()
}

fn uint32(data: Vec<u32>) -> Array {
    Array {
        data_type: Arc::new(DataType::Primitive(PrimitiveType::Int(IntType::UInt32))),
        len: data.len(),
        nulls: None,
        values: Values::Native(Native::W32(data)),
    }
}

fn field(name: &str, data_type: Arc<DataType>) -> Arc<Field> {
    Arc::new(Field {
        name: name.to_string(),
        data_type,
        nullable: true,
        dict_id: 0,
        dict_is_ordered: false,
        metadata: vec![],
    })
}

fn row(i: usize) -> String {
    format!("row-{i}-{}", "x".repeat(50))
}

/// Values too long for their views, and enough of them to be worth a scan.
fn big_string_view() -> Array {
    from_views(&(0..40_000).map(|i| Some(row(i))).collect::<StringViewArray>())
}

/// The same values in one buffer.
fn gathered(array: StringViewArray) -> Array {
    from_views(&array.gc())
}

fn slice(a: &Array, start: usize, len: usize) -> Array {
    let (views, buffers) = parts(a);
    Array {
        data_type: a.data_type.clone(),
        len,
        nulls: a.nulls.as_ref().map(|n| n.slice(start, len)),
        values: Values::Views {
            views: views[start..start + len].to_vec(),
            buffers: buffers.clone(),
        },
    }
}

/// A view whose buffer comes `by` later in the list.
fn shifted(view: u128, by: usize) -> u128 {
    if (view as u32) > 12 {
        view + ((by as u128) << 64)
    } else {
        view
    }
}

/// Arrays one after the other, with every data buffer of each.
fn concat(inputs: &[&Array]) -> ArrayRef {
    let mut all_views: Vec<u128> = Vec::new();
    let mut all_buffers: Vec<Buffer> = Vec::new();
    for input in inputs {
        let (views, buffers) = parts(input);
        all_views.extend(views.iter().map(|v| shifted(*v, all_buffers.len())));
        all_buffers.extend(buffers.iter().cloned());
    }
    deep_compact_views(Arc::new(Array {
        data_type: inputs[0].data_type.clone(),
        len: all_views.len(),
        nulls: None,
        values: Values::Views { views: all_views, buffers: all_buffers },
    }))
}

/// Rows of several arrays, with every data buffer of each.
fn interleave(inputs: &[&Array], picks: &[(usize, usize)]) -> ArrayRef {
    let mut starts: Vec<usize> = Vec::new();
    let mut all_buffers: Vec<Buffer> = Vec::new();
    for input in inputs {
        starts.push(all_buffers.len());
        all_buffers.extend(buffers(input).iter().cloned());
    }
    let views: Vec<u128> =
        picks.iter().map(|(a, i)| shifted(parts(inputs[*a]).0[*i], starts[*a])).collect();
    deep_compact_views(Arc::new(Array {
        data_type: inputs[0].data_type.clone(),
        len: views.len(),
        nulls: None,
        values: Values::Views { views, buffers: all_buffers },
    }))
}

#[test]
fn test_take_compacts_sparse_string_view() {
    let big = big_string_view();
    let taken = take(&big, &uint32(vec![3, 7]), None).unwrap();
    assert_eq!(taken.len, 2);
    assert_eq!(value(&taken, 0), value(&big, 3));
    assert_eq!(value(&taken, 1), value(&big, 7));
    assert!(buffers(&taken).len() <= 2, "{} buffers kept", buffers(&taken).len());
    let retained = capacity(&taken);
    assert!(retained <= 1024 * 1024, "take output retains {retained} buffer bytes for 2 rows");
    // Taking every row copies nothing.
    let dense = take(&big, &uint32((0..40_000).collect()), None).unwrap();
    assert_eq!(buffers(&dense).len(), buffers(&big).len());
    assert!(buffers(&dense)[0].ptr_eq(&buffers(&big)[0]));
}

#[test]
fn test_concat_compacts_sparse_string_view() {
    let big = big_string_view();
    let out = concat(&[&slice(&big, 0, 2), &slice(&big, 5, 2)]);
    assert_eq!(out.len, 4);
    assert_eq!(value(&out, 0), value(&big, 0));
    assert_eq!(value(&out, 2), value(&big, 5));
    assert!(buffers(&out).len() <= 2, "{} buffers kept", buffers(&out).len());
    let retained = capacity(&out);
    assert!(retained <= 1024 * 1024, "concat output retains {retained} buffer bytes for 4 rows");
}

fn key(i: usize) -> String {
    format!("key-{i}-{}", "k".repeat(50))
}

fn val(i: usize) -> String {
    format!("val-{i}-{}", "v".repeat(50))
}

/// Maps of at most one entry: none where `present` says so.
fn view_map(len: usize, present: fn(usize) -> bool) -> Array {
    let kept: Vec<usize> = (0..len).filter(|i| present(*i)).collect();
    let keys = from_views(&kept.iter().map(|i| Some(key(*i))).collect::<StringViewArray>());
    let values = from_views(&kept.iter().map(|i| Some(val(*i))).collect::<StringViewArray>());
    let mut offsets: Vec<i32> = vec![0];
    for i in 0..len {
        offsets.push(offsets[i] + present(i) as i32);
    }
    let entries = Array {
        data_type: Arc::new(DataType::Struct(vec![
            field("keys", keys.data_type.clone()),
            field("values", values.data_type.clone()),
        ])),
        len: kept.len(),
        nulls: None,
        values: Values::Struct { columns: vec![Arc::new(keys), Arc::new(values)] },
    };
    let valid: Vec<bool> = (0..len).map(present).collect();
    Array {
        data_type: Arc::new(DataType::MapType(
            field("entries", entries.data_type.clone()),
            false,
        )),
        len,
        nulls: if kept.len() == len { None } else { Some(NullBuffer::from(valid)) },
        values: Values::List { offsets: Offsets::Small(offsets), child: Arc::new(entries) },
    }
}

fn entries(map: &Array) -> &Vec<ArrayRef> {
    match &map.values {
        Values::List { child, .. } => match &child.values {
            Values::Struct { columns } => columns,
            _ => unreachable!(),
        },
        _ => unreachable!(),
    }
}

fn check_map_entries(map: &Array) {
    let keys = &entries(map)[0];
    assert_eq!(value(keys, 0), key(3));
    assert_eq!(value(keys, 1), key(7));
    for column in entries(map) {
        let retained = capacity(column);
        assert!(
            retained <= 1024 * 1024,
            "nested view column retains {retained} buffer bytes for 2 rows"
        );
    }
}

#[test]
fn test_take_compacts_sparse_views_nested_in_map() {
    let map = view_map(20_000, |_| true);
    let taken = take(&map, &uint32(vec![3, 7]), None).unwrap();
    check_map_entries(&taken);
}

#[test]
fn test_interleave_compacts_sparse_string_view() {
    let a = big_string_view();
    let b = big_string_view();
    let out = interleave(&[&a, &b], &[(0, 3), (1, 7), (0, 11)]);
    assert_eq!(out.len, 3);
    assert_eq!(value(&out, 0), value(&a, 3));
    assert_eq!(value(&out, 1), value(&b, 7));
    assert_eq!(value(&out, 2), value(&a, 11));
    let retained = capacity(&out);
    assert!(
        retained <= 1024 * 1024,
        "interleave output retains {retained} buffer bytes for 3 rows"
    );
    // Every row of one source: its buffers are all kept, and nothing is copied.
    let all: Vec<(usize, usize)> = (0..a.len).map(|i| (0, i)).collect();
    let dense = interleave(&[&a, &b], &all);
    assert_eq!(buffers(&dense).len(), buffers(&a).len());
    assert!(buffers(&dense)[0].ptr_eq(&buffers(&a)[0]));
}

#[test]
fn test_interleave_compacts_sparse_views_nested_in_map() {
    let map = view_map(20_000, |_| true);
    let columns: Vec<ArrayRef> =
        entries(&map).iter().map(|c| interleave(&[c, c], &[(0, 3), (1, 7)])).collect();
    let merged = Array {
        data_type: match &*map.data_type {
            DataType::MapType(f, _) => f.data_type.clone(),
            _ => unreachable!(),
        },
        len: 2,
        nulls: None,
        values: Values::Struct { columns },
    };
    let out = deep_compact_views(Arc::new(Array {
        data_type: map.data_type.clone(),
        len: 2,
        nulls: None,
        values: Values::List { offsets: Offsets::Small(vec![0, 1, 2]), child: Arc::new(merged) },
    }));
    check_map_entries(&out);
}

#[test]
fn test_concat_dedups_repeated_buffers_without_copy() {
    let big = big_string_view();
    let out = concat(&vec![&big; 8]);
    assert_eq!(out.len, 320_000);
    assert_eq!(value(&out, 3), value(&big, 3));
    assert_eq!(value(&out, 280_007), value(&big, 7));
    // The same buffers, each kept once.
    assert_eq!(buffers(&out).len(), buffers(&big).len());
    assert!(buffers(&out)[0].ptr_eq(&buffers(&big)[0]));
}

#[test]
fn test_take_on_list_view_keeps_values_correct_without_growth() {
    let child = from_views(&(0..20_000).map(|i| Some(row(i))).collect::<StringViewArray>());
    let input_capacity = capacity(&child);
    let list = Array {
        data_type: Arc::new(DataType::ListView(field("item", child.data_type.clone()))),
        len: 20_000,
        nulls: None,
        values: Values::ListView {
            offsets: Offsets::Small((0..20_000).collect()),
            sizes: Offsets::Small(vec![1; 20_000]),
            child: Arc::new(child),
        },
    };
    let taken = take(&list, &uint32(vec![3, 7]), None).unwrap();
    match &taken.values {
        Values::ListView { offsets, sizes, child } => {
            assert_eq!(sizes.get(0), 1);
            assert_eq!(value(child, offsets.get(0) as usize), row(3));
            assert!(capacity(child) <= input_capacity);
        }
        _ => panic!(),
    }
}

#[test]
fn test_take_compacts_map_with_null_slots() {
    let map = view_map(10_000, |i| i % 3 != 0);
    let taken = take(&map, &uint32(vec![3, 4, 6]), None).unwrap();
    assert!(is_null(&taken, 0), "row 3 was a null map slot");
    assert!(is_null(&taken, 2), "row 6 was a null map slot");
    match &taken.values {
        Values::List { offsets, .. } => {
            assert_eq!((offsets.get(1), offsets.get(2)), (0, 1));
            assert_eq!(value(&entries(&taken)[0], 0), key(4));
        }
        _ => panic!(),
    }
}

#[test]
fn test_take_copies_when_pruning_cannot_shrink() {
    let big = gathered((0..40_000).map(|i| Some(row(i))).collect());
    assert_eq!(buffers(&big).len(), 1);
    let taken = take(&big, &uint32(vec![3, 7]), None).unwrap();
    assert_eq!(value(&taken, 0), value(&big, 3));
    let (retained, referenced) = (capacity(&taken), used(&taken));
    assert!(
        retained <= referenced * 2,
        "sparse take of one huge buffer retains {retained} bytes for {referenced} referenced"
    );
}

#[test]
fn test_concat_remap_preserves_values_across_surviving_buffers() {
    let a = gathered((0..12_000).map(|i| Some(format!("a-{i}-{}", "a".repeat(50)))).collect());
    let b = gathered((0..12_000).map(|i| Some(format!("b-{i}-{}", "b".repeat(50)))).collect());
    // The buffer of `a` stands twice in the list, and once in the result.
    let out = concat(&[&a, &b, &a]);
    assert_eq!(buffers(&out).len(), 2);
    assert_eq!(value(&out, 3), value(&a, 3));
    assert_eq!(value(&out, 12_003), value(&b, 3));
    assert_eq!(value(&out, 24_003), value(&a, 3));
}

#[test]
fn test_take_compaction_preserves_nulls_in_view_column() {
    let big = from_views(
        &(0..40_000)
            .map(|i| if i % 2 == 0 { Some(row(i)) } else { None })
            .collect::<StringViewArray>(),
    );
    let taken = take(&big, &uint32(vec![2, 3, 4]), None).unwrap();
    assert_eq!(value(&taken, 0), value(&big, 2));
    assert!(is_null(&taken, 1));
    assert_eq!(value(&taken, 2), value(&big, 4));
    assert!(capacity(&taken) <= 1024 * 1024);
}

#[test]
fn test_take_compacts_sparse_views_nested_in_union() {
    let strings = from_views(&(0..20_000).map(|i| Some(row(i))).collect::<StringViewArray>());
    let union = Array {
        data_type: Arc::new(DataType::Union(
            vec![(0, field("s", strings.data_type.clone()))],
            UnionMode::Sparse,
        )),
        len: 20_000,
        nulls: None,
        values: Values::Union {
            type_ids: vec![0; 20_000],
            slots: None,
            children: vec![Arc::new(strings)],
        },
    };
    let taken = take(&union, &uint32(vec![3, 7]), None).unwrap();
    match &taken.values {
        Values::Union { children, .. } => {
            assert_eq!(value(&children[0], 0), row(3));
            let retained = capacity(&children[0]);
            assert!(
                retained <= 1024 * 1024,
                "union view child retains {retained} buffer bytes for 2 rows"
            );
        }
        _ => panic!(),
    }
}

/// Merging and selecting in turn: the rows stay as many, so whatever grows is retention.
#[test]
fn compounding_across_levels_stays_bounded() {
    let source = big_string_view();
    let mut current: ArrayRef = Arc::new(slice(&source, 0, 64));
    let rows = current.len;
    for level in 1..=4 {
        let merged = concat(&vec![&*current; 16]);
        current = take(&merged, &uint32((0..rows as u32).collect()), None).unwrap();
        let bytes = capacity(&current);
        assert_eq!(current.len, rows, "row count must stay constant");
        assert_eq!(value(&current, 0), value(&source, 0));
        assert!(
            bytes <= 4 * 1024 * 1024,
            "level {level} retains {bytes} bytes for {rows} rows"
        );
    }
}

/// A view of `len` bytes, at an offset of a buffer.
fn view(len: u32, buffer: u32, offset: u32) -> u128 {
    len as u128 | (buffer as u128) << 64 | (offset as u128) << 96
}

#[test]
fn little_is_left_alone() {
    assert_eq!(COMPACT_MIN_CAPACITY, 1024 * 1024);
    assert_eq!(COMPACT_MAX_SKIP_BUFFERS, 16);
    assert!(retains_little(&vec![]));
    assert!(retains_little(&vec![1024 * 1024]));
    assert!(!retains_little(&vec![1024 * 1024, 1]));
    assert!(retains_little(&vec![0; 16]));
    assert!(!retains_little(&vec![0; 17]));
    assert!(!retains_little(&vec![usize::MAX, usize::MAX]));
    let views = vec![view(20, 0, 0)];
    assert_eq!(plan_compaction(&views, &vec![1024 * 1024], &vec![0]), Compaction::Unchanged);
}

#[test]
fn waste_beyond_both_bounds_is_copied() {
    let min = COMPACT_MIN_CAPACITY;
    let views = vec![view(20, 0, 0)];
    // More than twice what is referred to, and more than the minimum besides.
    assert_eq!(plan_compaction(&views, &vec![min + 21], &vec![0]), Compaction::Copy);
    // Exactly the minimum besides.
    assert_eq!(plan_compaction(&views, &vec![min + 20], &vec![0]), Compaction::Unchanged);
    // Twice what is referred to, and no more.
    let large = 4 * min as u32;
    let views = vec![view(large, 0, 0)];
    assert_eq!(plan_compaction(&views, &vec![8 * min], &vec![0]), Compaction::Unchanged);
    assert_eq!(plan_compaction(&views, &vec![8 * min + 1], &vec![0]), Compaction::Copy);
}

#[test]
fn unreferenced_and_repeated_buffers_are_pruned() {
    let min = COMPACT_MIN_CAPACITY as u32;
    // Buffers one and three are one allocation, and nothing refers to buffers zero and four.
    let views = vec![view(min, 1, 0), view(5, 9, 9), view(min, 3, 7), view(min, 2, 0)];
    let capacities = vec![min as usize; 5];
    let plan = plan_compaction(&views, &capacities, &vec![0, 1, 2, 1, 4]);
    let remap = vec![u32::MAX, 0, 1, 0, u32::MAX];
    assert_eq!(plan, Compaction::Prune { kept: vec![1, 2], remap });
}

#[test]
fn the_first_of_an_allocation_stands_for_it() {
    assert_eq!(allocation_id(&vec![]), 0);
    assert_eq!(allocation_id(&vec![false, false]), 2);
    assert_eq!(allocation_id(&vec![false, true, false, true]), 1);
}

#[test]
fn an_allocation_that_occurs_three_times_is_kept_once() {
    let big = gathered((0..40_000).map(|i| Some(row(i))).collect());
    let (views, buffers) = parts(&big);
    let handles = vec![buffers[0].clone(), buffers[0].clone(), buffers[0].clone()];
    let spread: Vec<u128> =
        views.iter().enumerate().map(|(i, v)| *v + (((i % 3) as u128) << 64)).collect();
    let (new_views, new_buffers) = compact_byte_view(&spread, &handles).unwrap();
    assert_eq!(new_views, *views);
    assert_eq!(new_buffers.len(), 1);
    // Everything is referred to, so nothing is copied.
    assert!(new_buffers[0].ptr_eq(&buffers[0]));
}

#[test]
fn pruning_twice_changes_nothing() {
    let min = COMPACT_MIN_CAPACITY as u32;
    let views = vec![view(min, 1, 0), view(min, 3, 7), view(min, 2, 0)];
    let plan = plan_compaction(&views, &vec![min as usize; 4], &vec![0, 1, 2, 1]);
    assert!(matches!(plan, Compaction::Prune { .. }));
    let views = vec![view(min, 0, 0), view(min, 0, 7), view(min, 1, 0)];
    let plan = plan_compaction(&views, &vec![min as usize; 2], &vec![0, 1]);
    assert_eq!(plan, Compaction::Unchanged);
}

#[test]
fn dangling_views_are_left_alone() {
    let views = vec![view(20, 1, 0)];
    let plan = plan_compaction(&views, &vec![8 * COMPACT_MIN_CAPACITY], &vec![0]);
    assert_eq!(plan, Compaction::Unchanged);
    let buffers = vec![Buffer::from_vec(vec![0u8; 2 * COMPACT_MIN_CAPACITY])];
    assert!(compact_byte_view(&views, &buffers).is_none());
}

#[test]
fn copied_buffers_hold_what_is_referred_to() {
    let big = gathered((0..40_000).map(|i| Some(row(i))).collect());
    let (views, buffers) = parts(&big);
    let picks = vec![views[11], views[12], views[11]];
    let (new_views, new_buffers) = compact_byte_view(&picks, buffers).unwrap();
    let lens: Vec<usize> = new_views.iter().map(|v| (*v as u32) as usize).collect();
    let held: usize = new_buffers.iter().map(|b| b.len()).sum();
    assert_eq!(held, lens.iter().sum::<usize>());
    let copy = Array {
        data_type: Arc::new(DataType::Utf8View),
        len: 3,
        nulls: None,
        values: Values::Views { views: new_views, buffers: new_buffers },
    };
    assert_eq!(value(&copy, 0), row(11));
    assert_eq!(value(&copy, 1), row(12));
    assert_eq!(value(&copy, 2), row(11));
}

#[test]
fn an_array_without_views_is_handed_back() {
    let numbers = Arc::new(uint32(vec![1, 2, 3]));
    assert!(!type_contains_views(&numbers.data_type));
    assert!(deep_compact_data(&numbers).is_none());
    let same = deep_compact_views(numbers.clone());
    assert!(Arc::ptr_eq(&numbers, &same));

    let small = Arc::new(slice(&big_string_view(), 0, 2));
    assert!(type_contains_views(&small.data_type));
    let pruned = deep_compact_views(small.clone());
    assert!(!Arc::ptr_eq(&small, &pruned));
    let settled = deep_compact_views(pruned.clone());
    assert!(Arc::ptr_eq(&pruned, &settled));
}

fn beside(small: &ArrayRef, big: ArrayRef) -> Array {
    Array {
        data_type: Arc::new(DataType::Struct(vec![
            field("small", small.data_type.clone()),
            field("big", big.data_type.clone()),
        ])),
        len: small.len,
        nulls: None,
        values: Values::Struct { columns: vec![small.clone(), big] },
    }
}

#[test]
fn compacting_again_changes_nothing() {
    let big = big_string_view();
    let mut picked = big_string_view();
    if let Values::Views { views, .. } = &mut picked.values {
        *views = vec![views[3], views[7]];
    }
    picked.len = 2;
    let small: ArrayRef = Arc::new(from_views(&StringViewArray::from(vec!["a", "b"])));
    let whole = Arc::new(beside(&small, Arc::new(picked)));
    let once = deep_compact_views(whole.clone());
    assert!(!Arc::ptr_eq(&once, &whole));
    let columns = match &once.values {
        Values::Struct { columns } => columns,
        _ => unreachable!(),
    };
    // The column in which nothing changes is the same one.
    assert!(Arc::ptr_eq(&columns[0], &small));
    assert_eq!(value(&columns[1], 0), value(&big, 3));
    assert_eq!(value(&columns[1], 1), value(&big, 7));
    assert!(buffers(&columns[1]).len() <= 2);
    let held: usize = buffers(&columns[1]).iter().map(|b| b.len()).sum();
    assert!(held <= used(&columns[1]) + COMPACT_MIN_CAPACITY);
    assert!(deep_compact_data(&once).is_none());
    assert!(Arc::ptr_eq(&deep_compact_views(once.clone()), &once));
}

#[test]
fn a_buffer_is_no_larger_than_its_allocation() {
    let whole = Buffer::from(vec![7u8; 100]);
    assert!(whole.capacity() >= 100);
    let part = whole.slice_with_length(10, 20);
    assert!(part.capacity() >= 20);
}
