//! Values, conditions, indexes, storage and times.

use srrdb::engine::catalog::Catalog;
use srrdb::engine::compare::{equal_in_condition, like_match, order_in_condition};
use srrdb::engine::index::{IndexData, IndexDef, IndexType};
use srrdb::engine::schema::column_type_name;
use srrdb::engine::storage::{Row, RowTable, Storage};
use srrdb::engine::time::format_timestamp;
use srrdb::engine::types::{Column, ColumnType, Numbers, Value};
use srrdb::float;
use srrdb::names::NameMap;
use srrdb::order::Order;

fn ints(list: &[i64]) -> Vec<Value> {
    list.iter().map(|n| Value::Int(*n)).collect()
}

fn text(s: &str) -> Value {
    Value::Text(s.to_string())
}

fn double(n: f64) -> Value {
    Value::Double(n.to_bits())
}

#[test]
fn type_names_stand_for_types() {
    assert_eq!(ColumnType::from_sql_type("int"), ColumnType::Long);
    assert_eq!(ColumnType::from_sql_type("BIGINT"), ColumnType::LongLong);
    assert_eq!(ColumnType::from_sql_type("Bool"), ColumnType::Tiny);
    assert_eq!(ColumnType::from_sql_type("numeric"), ColumnType::NewDecimal);
    assert_eq!(ColumnType::from_sql_type("clob"), ColumnType::Blob);
    assert_eq!(ColumnType::from_sql_type("anything"), ColumnType::VarChar);
    assert_eq!(ColumnType::Long.default_length(), 11);
    assert_eq!(ColumnType::VarString.default_length(), 65535);
    assert_eq!(ColumnType::Json.default_length(), 255);
    assert_eq!(ColumnType::Geometry.code(), 255);
    assert_eq!(ColumnType::VarChar.code(), 15);
    assert_eq!(column_type_name(ColumnType::String, 255), "char(255)");
    assert_eq!(column_type_name(ColumnType::VarString, 65535), "varchar");
    assert_eq!(column_type_name(ColumnType::SetOf, 1), "set");
    assert_eq!(column_type_name(ColumnType::Blob, 65535), "text");
}

#[test]
fn values_compare_across_kinds() {
    let mut numbers = Numbers::new();
    numbers.learn_double(2.0f64.to_bits(), "2".to_string());
    assert!(matches!(order_in_condition(&Value::Int(1), &double(1.5)), Some(Order::Less)));
    assert!(matches!(order_in_condition(&double(2.5), &Value::Int(2)), Some(Order::Greater)));
    assert!(matches!(order_in_condition(&text("b"), &text("a")), Some(Order::Greater)));
    assert!(matches!(order_in_condition(&Value::Int(10), &text("9")), Some(Order::Less)));
    assert!(order_in_condition(&Value::Null, &Value::Null).is_none());
    assert!(order_in_condition(&double(f64::NAN), &double(1.0)).is_none());
    assert!(equal_in_condition(&numbers, &Value::Int(2), &double(2.0)));
    assert!(equal_in_condition(&numbers, &Value::Int(12), &text("12")));
    assert!(equal_in_condition(&numbers, &text("2"), &double(2.0)));
    assert!(equal_in_condition(&numbers, &text("ab"), &Value::Bytes(b"ab".to_vec())));
    assert!(!equal_in_condition(&numbers, &Value::Null, &Value::Null));
    assert!(equal_in_condition(&numbers, &double(0.1 + 0.2), &double(0.3)));
    assert!(!equal_in_condition(&numbers, &double(0.3), &double(0.31)));
}

#[test]
fn patterns_ignore_case() {
    assert!(like_match(&text("Apple"), &text("a%")));
    assert!(like_match(&text("APPLE"), &text("%pl_")));
    assert!(like_match(&text(""), &text("%")));
    assert!(!like_match(&text(""), &text("_")));
    assert!(!like_match(&text("apple"), &text("app")));
    assert!(like_match(&text("a%b"), &text("a%b")));
    assert!(like_match(&text("abc"), &text("abc%%")));
    assert!(like_match(&text(""), &text("%%")));
    assert!(like_match(&text("abc"), &text("%%c")));
    assert!(like_match(&text("Ae"), &text("a%e")));
    assert!(!like_match(&text("abc"), &text("%_%_%_%_%")));
    assert!(!like_match(&Value::Int(5), &text("5")));
}

#[test]
fn floating_point_numbers_are_ordered_by_value() {
    let cases = [
        f64::NEG_INFINITY,
        -1.0e300,
        -1.5,
        -1.0e-310,
        0.0,
        5.0e-324,
        1.0,
        1.0000000000000002,
        2.0f64.powi(63),
        f64::INFINITY,
    ];
    for (i, a) in cases.iter().enumerate() {
        for (j, b) in cases.iter().enumerate() {
            let found = float::order_numbers(a.to_bits(), b.to_bits(), float::DOUBLE);
            let expected = if i < j {
                Order::Less
            } else if i > j {
                Order::Greater
            } else {
                Order::Equal
            };
            assert_eq!(found, Some(expected), "{a} {b}");
        }
    }
    assert_eq!(
        float::order_numbers(0.0f64.to_bits(), (-0.0f64).to_bits(), float::DOUBLE),
        Some(Order::Equal)
    );
    assert_eq!(float::order_numbers(f64::NAN.to_bits(), 0, float::DOUBLE), None);
    assert_eq!(
        float::order_total((-0.0f64).to_bits(), 0.0f64.to_bits(), float::DOUBLE),
        Order::Less
    );
    for n in [0i64, 1, -1, 3, 1 << 53, (1 << 53) + 1, i64::MAX, i64::MIN, 123456789012345678] {
        assert_eq!(float::double_of(n), (n as f64).to_bits(), "{n}");
        assert_eq!(float::single_of(n), (n as f32).to_bits(), "{n}");
    }
    assert!(float::are_near(1.0f64.to_bits(), 1.0f64.to_bits(), float::DOUBLE));
    assert!(!float::are_near(
        f64::INFINITY.to_bits(),
        f64::INFINITY.to_bits(),
        float::DOUBLE
    ));
}

#[test]
fn timestamps_are_dates_of_the_calendar() {
    assert_eq!(format_timestamp(0), "1970-01-01 00:00:00");
    assert_eq!(format_timestamp(951_782_400), "2000-02-29 00:00:00");
    assert_eq!(format_timestamp(1_709_251_199), "2024-02-29 23:59:59");
    assert_eq!(format_timestamp(4_107_542_400), "2100-03-01 00:00:00");
}

#[test]
fn indexes_find_keys_and_ranges() {
    for kind in [IndexType::BTree, IndexType::Hash] {
        let mut index = IndexData::new(kind);
        for (id, n) in [(1u64, 30i64), (2, 10), (3, 20), (4, 10)] {
            index.insert(&ints(&[n]), id);
        }
        assert_eq!(index.lookup_eq(&ints(&[10])), vec![2, 4]);
        assert!(index.lookup_eq(&ints(&[11])).is_empty());
        index.delete(&ints(&[10]), 2);
        assert_eq!(index.lookup_eq(&ints(&[10])), vec![4]);
        index.clear();
        assert!(index.lookup_eq(&ints(&[20])).is_empty());
    }
    let mut index = IndexData::new(IndexType::BTree);
    for (id, key) in [(1u64, [1i64, 1]), (2, [1, 2]), (3, [2, 1]), (4, [3, 0])] {
        index.insert(&ints(&key), id);
    }
    assert_eq!(index.lookup_range(Some(ints(&[1, 2])), None), vec![2, 3, 4]);
    assert_eq!(index.lookup_range(None, Some(ints(&[1, 2]))), vec![1, 2]);
    assert_eq!(index.lookup_between(&ints(&[1, 2]), &ints(&[3, 0])), vec![2, 3]);
    assert_eq!(index.lookup_prefix(&ints(&[1])), vec![1, 2]);
    assert_eq!(index.lookup_prefix(&[]), Vec::<u64>::new());
    assert_eq!(IndexType::BTree.to_string(), "BTREE");
    assert_eq!(IndexType::Hash.to_string(), "HASH");
}

#[test]
fn rows_get_numbers() {
    let mut storage = Storage::new();
    let rows = vec![
        Row { id: 0, values: ints(&[1]) },
        Row { id: 9, values: ints(&[2]) },
        Row { id: 0, values: ints(&[3]) },
    ];
    assert!(storage.can_insert_rows("T", &rows));
    assert_eq!(storage.insert_rows("T", rows), vec![1, 9, 10]);
    assert_eq!(storage.get_rows("t").len(), 3);
    assert!(storage.get_row("t", 9).is_some());
    assert!(storage.get_row("t", 2).is_none());
    assert!(!storage.can_insert_rows("t", &vec![Row { id: u64::MAX, values: vec![] }]));
    storage.clear_table("T");
    assert!(storage.get_rows("t").is_empty());
}

#[test]
fn inserted_rows_stand_under_their_numbers() {
    let mut storage = Storage::new();
    storage.insert_rows("t", vec![Row { id: 0, values: ints(&[1]) }]);
    storage.insert_rows("other", vec![Row { id: 0, values: ints(&[100]) }]);
    let rows = vec![
        Row { id: 4, values: ints(&[2]) },
        Row { id: 0, values: ints(&[3]) },
        Row { id: 4, values: ints(&[4]) },
        Row { id: 1, values: ints(&[5]) },
        Row { id: 0, values: ints(&[6]) },
    ];
    assert_eq!(storage.insert_rows("t", rows), vec![4, 5, 4, 1, 6]);
    let held: Vec<(u64, String)> =
        storage.get_rows("t").iter().map(|r| (r.id, format!("{:?}", r.values))).collect();
    assert_eq!(
        held,
        vec![
            (1, "[Int(5)]".to_string()),
            (4, "[Int(4)]".to_string()),
            (5, "[Int(3)]".to_string()),
            (6, "[Int(6)]".to_string()),
        ]
    );
    assert_eq!(storage.insert_rows("t", vec![Row { id: 0, values: ints(&[7]) }]), vec![7]);
    assert_eq!(storage.get_rows("other").len(), 1);
}

#[test]
fn tables_keep_rows_in_order() {
    let mut table = RowTable::new();
    for id in [5u64, 1, 3] {
        table.put(Row { id, values: ints(&[id as i64]) });
    }
    let ids: Vec<u64> = table.rows().iter().map(|r| r.id).collect();
    assert_eq!(ids, vec![1, 3, 5]);
    table.change(3, ints(&[30]));
    table.remove(1);
    table.remove(2);
    let shown: Vec<String> = table.rows().iter().map(|r| format!("{r:?}")).collect();
    assert_eq!(shown[0], "Row { id: 3, values: [Int(30)] }");
    assert_eq!(shown.len(), 2);
    assert!(table.get(5).is_some());
}

#[test]
fn catalogs_know_databases_tables_and_indexes() {
    let mut catalog = Catalog::new();
    assert!(catalog.database_exists("SRRDB"));
    catalog.create_database("Blog");
    catalog.create_database("BLOG");
    assert_eq!(catalog.get_database("blog").expect("database").name, "Blog");
    let columns = vec![Column::new("a", "t", ColumnType::Long)];
    catalog.create_table("blog", "T", columns.clone()).expect("table");
    assert_eq!(
        catalog.create_table("blog", "t", columns.clone()).unwrap_err(),
        "Table 't' already exists"
    );
    assert_eq!(
        catalog.create_table("nowhere", "t", columns).unwrap_err(),
        "Unknown database: nowhere"
    );
    assert!(catalog.get_table("blog", "T").is_ok());
    assert_eq!(catalog.next_row_id("t", 2), 1);
    assert_eq!(catalog.next_row_id("T", 1), 3);
    assert_eq!(catalog.coming_row_id("t"), 4);
    let def = IndexDef {
        name: "I".to_string(),
        index_type: IndexType::BTree,
        table_name: "t".to_string(),
        columns: vec!["a".to_string()],
        unique: false,
    };
    catalog.create_index("blog", def.clone()).expect("index");
    assert!(catalog.create_index("blog", def).is_err());
    assert!(catalog.get_index("blog", "t", "i").is_some());
    assert!(catalog.drop_index("blog", "i", "t").is_ok());
    assert_eq!(
        catalog.drop_index("blog", "i", "t").unwrap_err(),
        "Unknown index: i"
    );
    catalog.drop_table("blog", "t").expect("drop");
    assert_eq!(catalog.drop_table("blog", "t").unwrap_err(), "Unknown table: t");
    assert!(catalog.remove_database("blog").is_some());
    assert!(catalog.remove_database("blog").is_none());
}

#[test]
fn names_are_listed_in_order() {
    let mut map: NameMap<u64> = NameMap::new();
    for (i, name) in ["b", "a", "B", "ab"].iter().enumerate() {
        map.insert(name.to_string(), i as u64);
    }
    let names: Vec<&str> = (0..map.len()).map(|i| map.name_at(i).as_str()).collect();
    assert_eq!(names, vec!["B", "a", "ab", "b"]);
    map.insert("a".to_string(), 9);
    assert_eq!(map.get("a"), Some(&9));
    map.remove_prefix("a");
    assert_eq!(map.len(), 2);
    assert_eq!(map.take("b"), Some(0));
    assert!(!map.contains("b"));
}
