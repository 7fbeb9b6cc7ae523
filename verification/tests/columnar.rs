//! Tests of the columns that are appended to the blocks of tables stored by column.

use galaxdb_storage::column::ColumnType;
use galaxdb_storage::columnar::{
    columnar_data_columns, columns_of_rows, data_column_index, is_valid_marker, placeholder_bytes,
    registration_for, registration_position, validity_column_index, ColumnarRegistration,
    RowColumnSplitter, NULL, VALID,
};
use galaxdb_storage::pax::CodecId;

struct TwoColSplitter;
impl RowColumnSplitter for TwoColSplitter {
    fn column_types(&self) -> Vec<ColumnType> {
        vec![ColumnType::Int64, ColumnType::Text]
    }
    // value layout: first 8 bytes present-int (or marker 0xFF.. for null),
    // remainder is the name; an empty name encodes a NULL name.
    fn split(&self, value: &[u8]) -> Option<Vec<Option<Vec<u8>>>> {
        if value.len() < 8 {
            return None;
        }
        let id_bytes = value[0..8].to_vec();
        let id = if id_bytes == vec![0xFFu8; 8] {
            None
        } else {
            Some(id_bytes)
        };
        let name = &value[8..];
        let name_cell = if name.is_empty() {
            None
        } else {
            Some(name.to_vec())
        };
        Some(vec![id, name_cell])
    }
}

#[test]
fn emits_data_and_validity_pairs() {
    let mut v1 = 7i64.to_le_bytes().to_vec();
    v1.extend_from_slice(b"alice");
    let values = vec![Some(v1)];
    let (cols, codecs) = columnar_data_columns(&values, &TwoColSplitter).unwrap();
    // 2 SQL columns to 4 appended columns (data, validity) times 2.
    assert_eq!(cols.len(), 4);
    assert_eq!(codecs.len(), 4);
    assert_eq!(cols[0].col_type, ColumnType::Int64);
    assert_eq!(cols[1].col_type, ColumnType::Blob); // validity
    assert_eq!(cols[2].col_type, ColumnType::Text);
    assert_eq!(cols[3].col_type, ColumnType::Blob); // validity
    assert_eq!(cols[1].values[0], vec![VALID]);
    assert_eq!(cols[3].values[0], vec![VALID]);
}

#[test]
fn null_cell_gets_placeholder_and_zero_validity() {
    // id present, name NULL (empty).
    let v = 9i64.to_le_bytes().to_vec(); // no name to NULL name
    let values = vec![Some(v)];
    let (cols, _) = columnar_data_columns(&values, &TwoColSplitter).unwrap();
    // name data column: placeholder empty, validity 0.
    assert_eq!(cols[2].values[0], Vec::<u8>::new());
    assert_eq!(cols[3].values[0], vec![NULL]);
    // id present.
    assert_eq!(cols[1].values[0], vec![VALID]);

    // Now a NULL id (0xFF marker), present name.
    let mut v2 = vec![0xFFu8; 8];
    v2.extend_from_slice(b"bob");
    let (cols2, _) = columnar_data_columns(&[Some(v2)], &TwoColSplitter).unwrap();
    // id data column: width-exact 8-byte zero placeholder, validity 0.
    assert_eq!(cols2[0].values[0], vec![0u8; 8]);
    assert_eq!(cols2[1].values[0], vec![NULL]);
    assert_eq!(cols2[3].values[0], vec![VALID]);
}

#[test]
fn tombstone_row_is_all_null() {
    let values = vec![None];
    let (cols, _) = columnar_data_columns(&values, &TwoColSplitter).unwrap();
    assert_eq!(cols[1].values[0], vec![NULL]);
    assert_eq!(cols[3].values[0], vec![NULL]);
    assert_eq!(cols[0].values[0], vec![0u8; 8]); // int placeholder
}

#[test]
fn index_helpers() {
    assert_eq!(data_column_index(0), 3);
    assert_eq!(validity_column_index(0), 4);
    assert_eq!(data_column_index(1), 5);
    assert_eq!(validity_column_index(1), 6);
}

/// A splitter for values that hold their bytes, one cell each.
struct ByteSplitter {
    columns: usize,
}

impl RowColumnSplitter for ByteSplitter {
    fn column_types(&self) -> Vec<ColumnType> {
        vec![ColumnType::UInt8; self.columns]
    }

    fn split(&self, value: &[u8]) -> Option<Vec<Option<Vec<u8>>>> {
        Some(value.iter().map(|byte| Some(vec![*byte])).collect())
    }
}

#[test]
fn rows_that_do_not_fit_the_columns_are_not_split() {
    let splitter = ByteSplitter { columns: 2 };
    assert!(columnar_data_columns(&[Some(vec![1, 2]), Some(vec![3])], &splitter).is_none());
    assert!(columnar_data_columns(&[Some(vec![1, 2]), Some(vec![3, 4])], &splitter).is_some());
    assert!(columnar_data_columns(&[Some(vec![])], &ByteSplitter { columns: 0 }).is_none());
    assert!(columnar_data_columns(&[Some(vec![1])], &TwoColSplitter).is_none());
}

#[test]
fn cells_stand_in_the_order_of_rows_and_columns() {
    let types = vec![ColumnType::UInt8, ColumnType::Blob];
    let rows = vec![Some(vec![Some(vec![1]), None]), None, Some(vec![None, Some(vec![7, 8])])];
    let (columns, codecs) = columns_of_rows(&types, &rows);
    assert_eq!(columns[0].values, vec![vec![1], vec![0], vec![0]]);
    assert_eq!(columns[1].values, vec![vec![VALID], vec![NULL], vec![NULL]]);
    assert_eq!(columns[2].values, vec![vec![], vec![], vec![7, 8]]);
    assert_eq!(columns[3].values, vec![vec![NULL], vec![NULL], vec![VALID]]);
    assert_eq!(codecs[1], CodecId::Zstd);
    assert_eq!(codecs[0], CodecId::for_column_type(&ColumnType::UInt8));
}

#[test]
fn the_longest_matching_prefix_wins() {
    let registrations = [
        ColumnarRegistration { prefix: b"t:".to_vec(), splitter: ByteSplitter { columns: 1 } },
        ColumnarRegistration { prefix: b"t:user:".to_vec(), splitter: ByteSplitter { columns: 2 } },
    ];
    assert_eq!(registration_position(&registrations, b"t:user:1"), Some(1));
    assert_eq!(registration_position(&registrations, b"t:order:1"), Some(0));
    assert_eq!(registration_position(&registrations, b"x"), None);
    assert_eq!(registration_for(&registrations, b"t:user:1").unwrap().splitter.columns, 2);
    assert!(registration_for(&registrations, b"x").is_none());
}

#[test]
fn a_placeholder_is_as_wide_as_its_type() {
    assert_eq!(placeholder_bytes(&ColumnType::Int32), vec![0; 4]);
    assert_eq!(placeholder_bytes(&ColumnType::Text), Vec::<u8>::new());
    assert!(is_valid_marker(&[VALID]));
    assert!(!is_valid_marker(&[NULL]));
    assert!(!is_valid_marker(&[]));
}
