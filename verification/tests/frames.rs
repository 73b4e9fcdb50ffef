use polars_kernels::cells::{Bytes, Float64};
use polars_kernels::frame::{Data, DataFrame, MergeError, Series, StructData};
use polars_kernels::gather::{merge_ca, merge_series};
use polars_kernels::heap::{HeapEntry, MergeHeap};
use polars_kernels::indicator::series_to_merge_indicator;
use polars_kernels::merge_frames::_merge_sorted_dfs;
use polars_kernels::merge_many::many_merge_indicator;
use polars_kernels::merge_many_frames::{
    merge_ordered_frames, merge_sorted_dfs_pairwise, _merge_sorted_dfs_many,
};
use std::cmp::Ordering;
use std::sync::Arc;

fn bytes(s: &str) -> Bytes {
    Bytes { data: Arc::new(s.as_bytes().to_vec()) }
}

fn text(b: &Bytes) -> String {
    String::from_utf8(b.data.to_vec()).unwrap()
}

fn series(name: &str, dtype: &str, data: Data) -> Series {
    Series { name: name.to_string(), dtype: dtype.to_string(), data }
}

fn ints(name: &str, v: &[i128]) -> Series {
    series(name, "i64", Data::Int(v.iter().map(|x| Some(*x)).collect()))
}

fn opt_ints(name: &str, v: &[Option<i128>]) -> Series {
    series(name, "i64", Data::Int(v.to_vec()))
}

fn strings(name: &str, v: &[&str]) -> Series {
    series(name, "str", Data::String(v.iter().map(|s| Some(bytes(s))).collect()))
}

fn frame(columns: Vec<Series>) -> DataFrame {
    let height = columns[0].len();
    DataFrame { height, columns: columns.into_iter().map(Arc::new).collect() }
}

fn keyed(keys: &[i128], tag: &str) -> DataFrame {
    let tags: Vec<String> = (0..keys.len()).map(|i| format!("{}{}", tag, i)).collect();
    let refs: Vec<&str> = tags.iter().map(|s| s.as_str()).collect();
    frame(vec![ints("k", keys), strings("t", &refs)])
}

fn int_column(df: &DataFrame, c: usize) -> Vec<Option<i128>> {
    match &df.columns[c].data {
        Data::Int(v) => v.clone(),
        other => panic!("not integers: {:?}", other),
    }
}

fn uint_values(data: &Data) -> Vec<Option<u128>> {
    match data {
        Data::UInt(v) => v.clone(),
        other => panic!("not unsigned integers: {:?}", other),
    }
}

fn int_values(data: &Data) -> Vec<Option<i128>> {
    match data {
        Data::Int(v) => v.clone(),
        other => panic!("not integers: {:?}", other),
    }
}

fn dates(name: &str, v: &[i128]) -> Series {
    let days = ints("", v);
    let stored = Series { name: days.name, dtype: "i32".to_string(), data: days.data };
    series(name, "date", Data::Logical(Box::new(stored)))
}

fn date_values(s: &Series) -> Vec<Option<i128>> {
    match &s.data {
        Data::Logical(stored) => int_values(&stored.data),
        other => panic!("not dates: {:?}", other),
    }
}

fn text_column(df: &DataFrame, c: usize) -> Vec<String> {
    match &df.columns[c].data {
        Data::String(v) => v.iter().map(|b| text(b.as_ref().unwrap())).collect(),
        other => panic!("not text: {:?}", other),
    }
}

fn merge_two(left: &DataFrame, right: &DataFrame, check: bool) -> Result<DataFrame, MergeError> {
    let l = left.column("k").unwrap();
    let r = right.column("k").unwrap();
    _merge_sorted_dfs(left, right, l, r, check)
}

#[test]
fn merge_ca_reads_each_array_in_turn() {
    let a: Vec<Option<i128>> = vec![Some(1), None];
    let b: Vec<Option<i128>> = vec![Some(7)];
    let out = merge_ca(&vec![&a, &b], &vec![0, 1, 0]);
    assert_eq!(out, vec![Some(1), Some(7), None]);
}

#[test]
fn two_frames_merge_row_by_row() {
    let left = keyed(&[1, 2, 4, 6, 9], "a");
    let right = keyed(&[2, 3, 4, 5, 10], "b");
    let out = merge_two(&left, &right, true).unwrap();
    assert_eq!(out.height, 10);
    let keys: Vec<i128> = int_column(&out, 0).into_iter().map(|x| x.unwrap()).collect();
    assert_eq!(keys, vec![1, 2, 2, 3, 4, 4, 5, 6, 9, 10]);
    assert_eq!(
        text_column(&out, 1),
        vec!["a0", "a1", "b0", "b1", "a2", "b2", "b3", "a3", "a4", "b4"]
    );
    assert_eq!(out.columns[1].name, "t");
    assert_eq!(out.columns[1].dtype, "str");
}

#[test]
fn an_empty_frame_gives_the_other_one() {
    let left = keyed(&[], "a");
    let right = keyed(&[5], "b");
    assert_eq!(text_column(&merge_two(&left, &right, true).unwrap(), 1), vec!["b0"]);
    assert_eq!(text_column(&merge_two(&right, &left, true).unwrap(), 1), vec!["b0"]);
}

#[test]
fn differing_schemas_are_refused_where_they_are_checked() {
    let left = keyed(&[1], "a");
    let right = frame(vec![ints("k", &[2]), strings("u", &["b0"])]);
    match merge_two(&left, &right, true) {
        Err(MergeError::NameMismatch { left, right }) => {
            assert_eq!((left.as_str(), right.as_str()), ("t", "u"));
        },
        other => panic!("{:?}", other),
    }
    let unchecked = merge_two(&left, &right, false).unwrap();
    assert_eq!(unchecked.columns[1].name, "t");

    let typed = frame(vec![ints("k", &[2]), ints("t", &[2])]);
    match merge_two(&left, &typed, true) {
        Err(MergeError::SchemaMismatch { left, right }) => {
            assert_eq!((left.as_str(), right.as_str()), ("str", "i64"));
        },
        other => panic!("{:?}", other),
    }
}

#[test]
fn keys_of_different_types_are_refused() {
    let left = keyed(&[1], "a");
    let right = frame(vec![strings("k", &["x"]), strings("t", &["b0"])]);
    match merge_two(&left, &right, false) {
        Err(MergeError::DataTypeMismatch { left, right }) => {
            assert_eq!((left.as_str(), right.as_str()), ("i64", "str"));
        },
        other => panic!("{:?}", other),
    }
}

#[test]
fn columns_beyond_the_common_width_are_left_out() {
    let left = keyed(&[1], "a");
    let right = frame(vec![ints("k", &[2])]);
    let out = merge_two(&left, &right, true).unwrap();
    assert_eq!(out.width(), 1);
    assert_eq!(int_column(&out, 0), vec![Some(1), Some(2)]);
}

#[test]
fn unsupported_columns_are_refused() {
    let odd = |x: i128| frame(vec![ints("k", &[x]), series("o", "object", Data::Opaque(1))]);
    match merge_two(&odd(1), &odd(2), true) {
        Err(MergeError::Unsupported { dtype }) => assert_eq!(dtype, "object"),
        other => panic!("{:?}", other),
    }
    let a = series("k", "object", Data::Opaque(1));
    match series_to_merge_indicator(&a, &a) {
        Err(MergeError::Unsupported { dtype }) => assert_eq!(dtype, "object"),
        other => panic!("{:?}", other),
    }
    let offset = series("k", "binary[offset]", Data::BinaryOffset(vec![Some(bytes("x"))]));
    assert_eq!(series_to_merge_indicator(&offset, &offset).unwrap(), vec![0, 1]);
    match merge_series(&vec![&offset], &vec![0]) {
        Err(MergeError::Unsupported { dtype }) => assert_eq!(dtype, "binary[offset]"),
        other => panic!("{:?}", other),
    }
}

#[test]
fn keys_of_every_type_are_ordered() {
    let bools = |v: &[Option<bool>]| series("k", "bool", Data::Boolean(v.to_vec()));
    let l = bools(&[None, Some(false), Some(true)]);
    let r = bools(&[Some(false), Some(true)]);
    assert_eq!(series_to_merge_indicator(&l, &r).unwrap(), vec![0, 0, 1, 0, 1]);

    let l = strings("k", &["a", "ab", "b"]);
    let r = strings("k", &["", "aa", "b"]);
    assert_eq!(series_to_merge_indicator(&l, &r).unwrap(), vec![1, 0, 1, 0, 0, 1]);

    let uints = |v: &[u128]| {
        series("k", "u128", Data::UInt(v.iter().map(|x| Some(*x)).collect()))
    };
    assert_eq!(
        series_to_merge_indicator(&uints(&[u128::MAX]), &uints(&[0, 1])).unwrap(),
        vec![1, 1, 0]
    );

    let floats = |v: &[f64]| {
        let bits = v.iter().map(|x| Some(Float64 { bits: x.to_bits() })).collect();
        series("k", "f64", Data::Float(bits))
    };
    assert_eq!(
        series_to_merge_indicator(&floats(&[-1.5, 2.0]), &floats(&[-2.0, 0.5])).unwrap(),
        vec![1, 0, 1, 0]
    );
    // Nothing is at or before what is no number.
    assert_eq!(
        series_to_merge_indicator(&floats(&[1.0]), &floats(&[f64::NAN, 2.0])).unwrap(),
        vec![1, 0, 1]
    );

    let rows = |v: &[&str]| series("k", "list", Data::Rows(v.iter().map(|s| bytes(s)).collect()));
    assert_eq!(
        series_to_merge_indicator(&rows(&["b"]), &rows(&["a", "c"])).unwrap(),
        vec![1, 0, 1]
    );

    let nulls = |n: usize| series("k", "null", Data::Null(n));
    assert_eq!(series_to_merge_indicator(&nulls(2), &nulls(1)).unwrap(), vec![0, 0, 0]);
}

#[test]
fn categoricals_merge_by_text_in_pairs_and_by_code_at_once() {
    let names = Arc::new(vec![bytes("zebra"), bytes("ant")]);
    let cat = |v: &[u128]| {
        let codes = series("", "u32", Data::UInt(v.iter().map(|c| Some(*c)).collect()));
        series("k", "cat", Data::Categorical(Box::new(codes), names.clone()))
    };
    // By text, "ant" (1) goes before "zebra" (0).
    let (l, r) = (cat(&[0]), cat(&[1]));
    assert_eq!(series_to_merge_indicator(&l, &r).unwrap(), vec![1, 0]);
    let out = _merge_sorted_dfs_many(&[frame(vec![l]), frame(vec![r])], "k", true).unwrap();
    match &out.columns[0].data {
        Data::Categorical(codes, kept) => {
            assert_eq!(uint_values(&codes.data), vec![Some(0), Some(1)]);
            assert_eq!(text(&kept[1]), "ant");
        },
        other => panic!("{:?}", other),
    }
}

#[test]
fn structs_merge_field_by_field_with_their_validity() {
    let make = |xs: &[i128], validity: Option<Vec<bool>>| {
        let rows = xs.iter().map(|x| bytes(&x.to_string())).collect();
        let data = StructData { fields: vec![ints("x", xs)], validity, rows };
        series("s", "struct", Data::Struct(data))
    };
    let a = make(&[1, 3], Some(vec![true, false]));
    let b = make(&[2], None);
    let out = merge_series(&vec![&a, &b], &vec![0, 1, 0]).unwrap();
    match &out.data {
        Data::Struct(s) => {
            assert_eq!(s.validity, Some(vec![true, true, false]));
            assert_eq!(s.fields[0].name, "x");
            match &s.fields[0].data {
                Data::Int(v) => assert_eq!(v, &vec![Some(1), Some(2), Some(3)]),
                other => panic!("{:?}", other),
            }
            let rows: Vec<String> = s.rows.iter().map(text).collect();
            assert_eq!(rows, vec!["1", "2", "3"]);
        },
        other => panic!("{:?}", other),
    }
    // Without a null row there is no validity.
    let c = make(&[1, 3], Some(vec![true, true]));
    match &merge_series(&vec![&c, &b], &vec![0, 1, 0]).unwrap().data {
        Data::Struct(s) => assert_eq!(s.validity, None),
        other => panic!("{:?}", other),
    }
}

#[test]
fn other_columns_follow_the_order() {
    let order = vec![1, 0];
    let nulls = series("n", "null", Data::Null(1));
    let out = merge_series(&vec![&nulls, &nulls], &order).unwrap();
    assert!(matches!(out.data, Data::Null(2)));

    let ext = |x: i128| series("e", "ext", Data::Extension(Box::new(ints("e", &[x]))));
    match merge_series(&vec![&ext(1), &ext(2)], &order).unwrap().data {
        Data::Extension(s) => match s.data {
            Data::Int(v) => assert_eq!(v, vec![Some(2), Some(1)]),
            other => panic!("{:?}", other),
        },
        other => panic!("{:?}", other),
    }

    let rows = |s: &str| series("l", "list", Data::Rows(vec![bytes(s)]));
    match merge_series(&vec![&rows("p"), &rows("q")], &order).unwrap().data {
        Data::Rows(v) => assert_eq!(v.iter().map(text).collect::<Vec<_>>(), vec!["q", "p"]),
        other => panic!("{:?}", other),
    }

    let bin = |s: &str| series("b", "binary", Data::Binary(vec![Some(bytes(s))]));
    match merge_series(&vec![&bin("p"), &bin("q")], &order).unwrap().data {
        Data::Binary(v) => assert_eq!(text(v[0].as_ref().unwrap()), "q"),
        other => panic!("{:?}", other),
    }
}

#[test]
fn heap_entries_come_out_by_key_and_then_by_input() {
    let e = |input_idx: usize, key: i32| HeapEntry { input_idx, key };
    assert_eq!(e(0, 1).cmp(&e(1, 2)), Ordering::Greater);
    assert_eq!(e(1, 2).cmp(&e(0, 1)), Ordering::Less);
    assert_eq!(e(0, 3).cmp(&e(1, 3)), Ordering::Greater);
    assert_eq!(e(2, 3).cmp(&e(2, 3)), Ordering::Equal);
    assert_eq!(e(0, 1).partial_cmp(&e(1, 2)), Some(Ordering::Greater));

    let mut heap: MergeHeap<i32> = MergeHeap::with_capacity(3);
    heap.push(e(0, 5));
    heap.push(e(1, 2));
    heap.push(e(2, 2));
    assert_eq!(heap.peek(), Some(2));
    let out: Vec<usize> = (0..3).map(|_| heap.pop().unwrap().input_idx).collect();
    assert_eq!(out, vec![1, 2, 0]);
    assert!(heap.pop().is_none());
    assert_eq!(heap.peek(), None);
}

#[test]
fn many_inputs_merge_in_key_order() {
    let keys = vec![vec![1, 4, 9], vec![2, 3], vec![0, 5]];
    assert_eq!(many_merge_indicator(&keys), vec![2, 0, 1, 1, 0, 2, 0]);
    // Among equal first keys the earliest input goes first.
    assert_eq!(many_merge_indicator(&vec![vec![1, 5], vec![1, 6]]), vec![0, 1, 0, 1]);
    // An input goes on through keys equal to the next one of another input.
    assert_eq!(many_merge_indicator(&vec![vec![2], vec![1, 2, 3]]), vec![1, 1, 0, 1]);
    assert_eq!(many_merge_indicator(&vec![vec![3, 3, 3]]), vec![0, 0, 0]);
}

#[test]
fn ordered_frames_merge_at_once() {
    let dfs = [keyed(&[1, 4], "a"), keyed(&[2], "b"), keyed(&[0, 9], "c")];
    let refs: Vec<&DataFrame> = dfs.iter().collect();
    let out = merge_ordered_frames(&refs, &vec![vec![1i128, 4], vec![2], vec![0, 9]]).unwrap();
    assert_eq!(out.height, 5);
    assert_eq!(text_column(&out, 1), vec!["c0", "a0", "b0", "a1", "c1"]);
    let all = _merge_sorted_dfs_many(&dfs, "k", true).unwrap();
    assert_eq!(text_column(&all, 1), vec!["c0", "a0", "b0", "a1", "c1"]);
}

#[test]
fn floats_merge_at_once_in_total_order() {
    let floats = |v: &[f64]| {
        let bits = v.iter().map(|x| Some(Float64 { bits: x.to_bits() })).collect();
        frame(vec![series("k", "f64", Data::Float(bits))])
    };
    let dfs = [floats(&[1.0, f64::NAN]), floats(&[-3.0, 2.0])];
    let out = _merge_sorted_dfs_many(&dfs, "k", true).unwrap();
    match &out.columns[0].data {
        Data::Float(v) => {
            let values: Vec<f64> = v.iter().map(|x| f64::from_bits(x.unwrap().bits)).collect();
            assert_eq!(&values[..3], &[-3.0, 1.0, 2.0]);
            assert!(values[3].is_nan());
        },
        other => panic!("{:?}", other),
    }
}

#[test]
fn nulls_and_other_types_merge_in_pairs() {
    let a = frame(vec![opt_ints("k", &[None, Some(2)])]);
    let b = frame(vec![opt_ints("k", &[Some(1), Some(2)])]);
    let out = _merge_sorted_dfs_many(&[a, b], "k", true).unwrap();
    assert_eq!(int_column(&out, 0), vec![None, Some(1), Some(2), Some(2)]);

    let dfs = [
        frame(vec![strings("k", &["b", "d"])]),
        frame(vec![strings("k", &[])]),
        frame(vec![strings("k", &["a", "e"])]),
        frame(vec![strings("k", &["c"])]),
    ];
    let out = _merge_sorted_dfs_many(&dfs, "k", true).unwrap();
    assert_eq!(text_column(&out, 0), vec!["a", "b", "c", "d", "e"]);

    let nulls = |n: usize| frame(vec![series("k", "null", Data::Null(n))]);
    let out = _merge_sorted_dfs_many(&[nulls(2), nulls(3)], "k", true).unwrap();
    assert_eq!(out.height, 5);
    assert!(matches!(out.columns[0].data, Data::Null(5)));
}

#[test]
fn few_frames_with_rows_are_given_back() {
    let empty = || keyed(&[], "a");
    assert_eq!(_merge_sorted_dfs_many(&[empty(), empty()], "k", true).unwrap().height, 0);
    let out = _merge_sorted_dfs_many(&[empty(), keyed(&[7], "b"), empty()], "k", true).unwrap();
    assert_eq!(text_column(&out, 1), vec!["b0"]);
}

#[test]
fn bad_lists_of_frames_are_refused() {
    assert!(matches!(_merge_sorted_dfs_many(&[], "k", true), Err(MergeError::NoData)));
    let dfs = [keyed(&[1], "a"), keyed(&[2], "b")];
    assert!(matches!(
        _merge_sorted_dfs_many(&dfs, "missing", true),
        Err(MergeError::ColumnNotFound)
    ));
    let named = [keyed(&[1], "a"), frame(vec![ints("j", &[2]), strings("t", &["x"])])];
    assert!(matches!(
        _merge_sorted_dfs_many(&named, "k", true),
        Err(MergeError::NameMismatch { .. })
    ));
    assert!(matches!(
        _merge_sorted_dfs_many(&named, "k", false),
        Err(MergeError::ColumnNotFound)
    ));
    let typed = [keyed(&[1], "a"), frame(vec![strings("k", &["x"]), strings("t", &["x"])])];
    assert!(matches!(
        _merge_sorted_dfs_many(&typed, "k", true),
        Err(MergeError::SchemaMismatch { .. })
    ));
    assert!(matches!(
        _merge_sorted_dfs_many(&typed, "k", false),
        Err(MergeError::DataTypeMismatch { .. })
    ));
}

#[test]
fn merges_stay_sorted_and_keep_their_rows() {
    let dfs = [
        frame(vec![strings("k", &["a", "c", "c"]), ints("v", &[1, 2, 3])]),
        frame(vec![strings("k", &["b", "c"]), ints("v", &[4, 5])]),
        frame(vec![strings("k", &["a", "d"]), ints("v", &[6, 7])]),
    ];
    let out = _merge_sorted_dfs_many(&dfs, "k", true).unwrap();
    assert_eq!(out.height, 7);
    let keys = text_column(&out, 0);
    assert!(keys.windows(2).all(|w| w[0] <= w[1]));
    // Rows stay together, and among equal keys the earlier frame goes first.
    let values: Vec<i128> = int_column(&out, 1).into_iter().map(|x| x.unwrap()).collect();
    assert_eq!(values, vec![1, 6, 4, 2, 3, 5, 7]);
}

#[test]
fn a_frame_shares_its_columns_with_its_duplicate() {
    let df = keyed(&[1, 2], "a");
    let copy = df.duplicate();
    assert_eq!(copy.height, 2);
    assert!(Arc::ptr_eq(&df.columns[1], &copy.columns[1]));
    assert_eq!(text_column(&copy, 1), vec!["a0", "a1"]);
}

#[test]
fn the_first_column_of_a_name_is_found() {
    let df = frame(vec![ints("a", &[1]), ints("k", &[2]), ints("k", &[3])]);
    match &df.column("k").unwrap().data {
        Data::Int(v) => assert_eq!(v, &vec![Some(2)]),
        other => panic!("{:?}", other),
    }
    assert!(df.column("z").is_none());
    assert!(df.schema_equal(&df).is_ok());
    assert!(df.columns[0].has_type_of(&df.columns[1]));
    assert!(!df.columns[0].has_type_of(&strings("a", &["x"])));
}

#[test]
fn a_merged_series_has_no_name() {
    let ss = [ints("a", &[10, 11]), ints("b", &[20]), ints("c", &[30, 31])];
    let refs: Vec<&Series> = ss.iter().collect();
    let out = merge_series(&refs, &vec![2, 0, 2, 1, 0]).unwrap();
    assert_eq!(out.name, "");
    assert_eq!(out.dtype, "i64");
    let expected: Vec<Option<i128>> = [30, 10, 31, 20, 11].iter().map(|x| Some(*x)).collect();
    assert_eq!(int_values(&out.data), expected);
}

#[test]
fn sources_beyond_the_last_number_of_an_order_are_empty() {
    let mut ss: Vec<Series> = (0..300).map(|_| ints("e", &[])).collect();
    ss[0] = ints("a", &[1, 2]);
    ss[255] = ints("z", &[7]);
    let refs: Vec<&Series> = ss.iter().collect();
    let out = merge_series(&refs, &vec![0, 255, 0]).unwrap();
    assert_eq!(int_values(&out.data), vec![Some(1), Some(7), Some(2)]);
}

#[test]
fn logical_series_are_refused_and_logical_columns_are_not() {
    let (a, b) = (dates("d", &[1, 5]), dates("d", &[3]));
    match merge_series(&vec![&a, &b], &vec![0, 1, 0]) {
        Err(MergeError::Unsupported { dtype }) => assert_eq!(dtype, "date"),
        other => panic!("{:?}", other),
    }
    let codes = series("", "u32", Data::UInt(vec![Some(0)]));
    let names = Arc::new(vec![bytes("x")]);
    let cat = series("c", "cat", Data::Categorical(Box::new(codes), names));
    match merge_series(&vec![&cat], &vec![0]) {
        Err(MergeError::Unsupported { dtype }) => assert_eq!(dtype, "cat"),
        other => panic!("{:?}", other),
    }
    let phys = a.to_physical_repr();
    assert_eq!((phys.name.as_str(), phys.dtype.as_str()), ("d", "i32"));
    assert!(phys.is_physical_repr() && !a.is_physical_repr());
    let other = b.to_physical_repr();
    let out = merge_series(&vec![&phys, &other], &vec![0, 1, 0]).unwrap();
    assert_eq!(int_values(&out.data), vec![Some(1), Some(3), Some(5)]);

    let (left, right) = (frame(vec![a]), frame(vec![b]));
    for out in [
        _merge_sorted_dfs(&left, &right, &left.columns[0], &right.columns[0], true).unwrap(),
        _merge_sorted_dfs_many(&[left, right], "d", true).unwrap(),
    ] {
        assert_eq!(out.columns[0].name, "d");
        assert_eq!(out.columns[0].dtype, "date");
        assert_eq!(date_values(&out.columns[0]), vec![Some(1), Some(3), Some(5)]);
    }
}

#[test]
fn logical_fields_of_structs_are_turned_and_restored() {
    let make = |k: i128, day: i128| {
        let data = StructData {
            fields: vec![dates("day", &[day]), ints("n", &[k])],
            validity: None,
            rows: vec![bytes("r")],
        };
        frame(vec![ints("k", &[k]), series("s", "struct", Data::Struct(data))])
    };
    let out = merge_two(&make(2, 20), &make(1, 10), true).unwrap();
    match &out.columns[1].data {
        Data::Struct(s) => {
            assert_eq!(s.fields[0].name, "day");
            assert_eq!(s.fields[0].dtype, "date");
            assert_eq!(date_values(&s.fields[0]), vec![Some(10), Some(20)]);
            assert_eq!(int_values(&s.fields[1].data), vec![Some(1), Some(2)]);
        },
        other => panic!("{:?}", other),
    }
    // An extension over a logical type.
    let ext = |k: i128| {
        let e = series("e", "ext", Data::Extension(Box::new(dates("e", &[k * 10]))));
        frame(vec![ints("k", &[k]), e])
    };
    let out = merge_two(&ext(2), &ext(1), true).unwrap();
    match &out.columns[1].data {
        Data::Extension(s) => assert_eq!(date_values(s), vec![Some(10), Some(20)]),
        other => panic!("{:?}", other),
    }
}

#[test]
fn lengths_do_not_matter_where_nothing_is_merged() {
    let left = keyed(&[1, 2], "a");
    let right = keyed(&[3], "b");
    let none = ints("k", &[]);
    // The key says that there is nothing on the right.
    let out = _merge_sorted_dfs(&left, &right, &left.columns[0], &none, true).unwrap();
    assert_eq!(text_column(&out, 1), vec!["a0", "a1"]);
    match _merge_sorted_dfs(&left, &right, &none, &strings("k", &["x"]), true) {
        Err(MergeError::DataTypeMismatch { .. }) => {},
        other => panic!("{:?}", other),
    }
}

#[test]
fn merging_one_more_is_merging_with_the_result() {
    let dfs = || {
        vec![
            frame(vec![strings("k", &["b", "d"]), ints("v", &[1, 2])]),
            frame(vec![strings("k", &["b", "c"]), ints("v", &[3, 4])]),
            frame(vec![strings("k", &["a", "b"]), ints("v", &[5, 6])]),
        ]
    };
    let all = merge_sorted_dfs_pairwise(&dfs(), "k", true).unwrap();
    let two = merge_sorted_dfs_pairwise(&dfs()[..2], "k", true).unwrap();
    let last = &dfs()[2];
    let step = merge_two(&two, last, true).unwrap();
    assert_eq!(text_column(&all, 0), text_column(&step, 0));
    assert_eq!(int_column(&all, 1), int_column(&step, 1));
    // Equal keys come out in the order of their frames.
    let values: Vec<i128> = int_column(&all, 1).into_iter().map(|x| x.unwrap()).collect();
    assert_eq!(values, vec![5, 1, 3, 6, 4, 2]);
    // Keys that are no numbers fall back to the same.
    let many = _merge_sorted_dfs_many(&dfs(), "k", true).unwrap();
    assert_eq!(int_column(&many, 1), int_column(&all, 1));
    assert!(matches!(merge_sorted_dfs_pairwise(&[], "k", true), Err(MergeError::NoData)));
}

#[test]
fn merging_at_once_and_pairwise_agree() {
    let shared = || vec![keyed(&[2], "a"), keyed(&[1, 2], "b"), keyed(&[2, 3], "c")];
    let at_once = _merge_sorted_dfs_many(&shared(), "k", true).unwrap();
    let folded = merge_sorted_dfs_pairwise(&shared(), "k", true).unwrap();
    assert_eq!(int_column(&at_once, 0), int_column(&folded, 0));
    assert_ne!(text_column(&at_once, 1), text_column(&folded, 1));

    let apart = || vec![keyed(&[2, 7], "a"), keyed(&[1, 4], "b"), keyed(&[3], "c")];
    let at_once = _merge_sorted_dfs_many(&apart(), "k", true).unwrap();
    let folded = merge_sorted_dfs_pairwise(&apart(), "k", true).unwrap();
    assert_eq!(int_column(&at_once, 0), int_column(&folded, 0));
    assert_eq!(text_column(&at_once, 1), text_column(&folded, 1));
}

#[test]
fn integers_go_with_what_is_stored_as_such_where_schemas_are_not_checked() {
    let plain = |k: i128, v: i128| {
        let n = series("v", "i32", Data::Int(vec![Some(v)]));
        frame(vec![ints("k", &[k]), n])
    };
    let dated = |k: i128, v: i128| frame(vec![ints("k", &[k]), dates("d", &[v])]);

    let out = merge_two(&dated(1, 10), &plain(2, 20), false).unwrap();
    assert_eq!((out.columns[1].name.as_str(), out.columns[1].dtype.as_str()), ("d", "date"));
    assert_eq!(date_values(&out.columns[1]), vec![Some(10), Some(20)]);

    let out = merge_two(&plain(2, 20), &dated(1, 10), false).unwrap();
    assert_eq!((out.columns[1].name.as_str(), out.columns[1].dtype.as_str()), ("v", "i32"));
    assert_eq!(int_column(&out, 1), vec![Some(10), Some(20)]);

    // At once, one after the other, and refused where schemas are checked.
    let dfs = || vec![dated(2, 20), plain(1, 10), dated(3, 30)];
    for out in [
        _merge_sorted_dfs_many(&dfs(), "k", false).unwrap(),
        merge_sorted_dfs_pairwise(&dfs(), "k", false).unwrap(),
    ] {
        assert_eq!(date_values(&out.columns[1]), vec![Some(10), Some(20), Some(30)]);
    }
    assert!(matches!(
        merge_sorted_dfs_pairwise(&dfs(), "k", true),
        Err(MergeError::NameMismatch { .. })
    ));
}

#[test]
fn codes_go_into_a_categorical_that_names_them() {
    let names = Arc::new(vec![bytes("x"), bytes("y")]);
    let codes = series("", "u32", Data::UInt(vec![Some(1)]));
    let cat = series("c", "cat", Data::Categorical(Box::new(codes), names));
    let left = frame(vec![ints("k", &[2]), cat]);
    let number = series("c", "u32", Data::UInt(vec![Some(0)]));
    let right = frame(vec![ints("k", &[1]), number]);
    let out = merge_two(&left, &right, false).unwrap();
    match &out.columns[1].data {
        Data::Categorical(codes, kept) => {
            assert_eq!(uint_values(&codes.data), vec![Some(0), Some(1)]);
            assert_eq!(text(&kept[0]), "x");
        },
        other => panic!("{:?}", other),
    }
    let out = merge_two(&right, &left, false).unwrap();
    assert_eq!(uint_values(&out.columns[1].data), vec![Some(0), Some(1)]);
}

#[test]
fn a_step_that_fails_ends_the_merge() {
    let dfs = vec![
        frame(vec![strings("k", &["a"]), ints("v", &[1])]),
        frame(vec![strings("k", &["b"]), ints("v", &[2])]),
        frame(vec![strings("k", &["c"]), strings("v", &["z"])]),
    ];
    match merge_sorted_dfs_pairwise(&dfs, "k", true) {
        Err(MergeError::SchemaMismatch { left, right }) => {
            assert_eq!((left.as_str(), right.as_str()), ("i64", "str"));
        },
        other => panic!("{:?}", other),
    }
    // The step itself answers the same.
    let acc = merge_sorted_dfs_pairwise(&dfs[..2], "k", true).unwrap();
    assert!(matches!(merge_two(&acc, &dfs[2], true), Err(MergeError::SchemaMismatch { .. })));

    // What comes after is not looked at.
    let mut longer: Vec<DataFrame> = dfs.iter().map(|d| d.duplicate()).collect();
    longer.push(frame(vec![ints("j", &[1])]));
    assert!(matches!(
        merge_sorted_dfs_pairwise(&longer, "k", true),
        Err(MergeError::SchemaMismatch { .. })
    ));

    let typed = vec![dfs[0].duplicate(), frame(vec![ints("k", &[1]), ints("v", &[2])])];
    assert!(matches!(
        merge_sorted_dfs_pairwise(&typed, "k", false),
        Err(MergeError::DataTypeMismatch { .. })
    ));
    let keyless = vec![dfs[0].duplicate(), frame(vec![strings("j", &["b"])])];
    assert!(matches!(
        merge_sorted_dfs_pairwise(&keyless, "k", false),
        Err(MergeError::ColumnNotFound)
    ));
}

#[test]
fn columns_that_an_earlier_frame_cut_off_are_not_read() {
    let dfs = vec![
        frame(vec![strings("k", &["a"]), ints("v", &[1])]),
        frame(vec![strings("k", &["c"])]),
        frame(vec![strings("k", &["b"]), strings("v", &["z"])]),
    ];
    for out in [
        merge_sorted_dfs_pairwise(&dfs, "k", false).unwrap(),
        _merge_sorted_dfs_many(&dfs, "k", false).unwrap(),
    ] {
        assert_eq!(out.width(), 1);
        assert_eq!(text_column(&out, 0), vec!["a", "b", "c"]);
    }
}

#[test]
fn columns_after_one_that_is_refused_are_not_read() {
    let left = frame(vec![
        ints("k", &[1]),
        series("o", "object", Data::Opaque(1)),
        ints("v", &[1]),
    ]);
    let right = frame(vec![
        ints("k", &[2]),
        series("o", "object", Data::Opaque(1)),
        strings("v", &["z"]),
    ]);
    for res in [
        merge_two(&left, &right, false),
        _merge_sorted_dfs_many(&[left, right], "k", false),
    ] {
        match res {
            Err(MergeError::Unsupported { dtype }) => assert_eq!(dtype, "object"),
            other => panic!("{:?}", other),
        }
    }
}
