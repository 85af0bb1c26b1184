use isenta::engine::QueryEngine;
use isenta::errors::DbError;
use isenta::parser::Parser;
use isenta::storage::StorageEngine;

fn run(engine: &mut QueryEngine, parser: &Parser, line: &str) -> String {
    isenta::execute_line(line, engine, parser)
}

fn reopen(engine: &QueryEngine) -> QueryEngine {
    let bytes = engine.database().storage().to_bytes();
    let storage = StorageEngine::from_bytes(&bytes);
    QueryEngine::with_storage(storage).expect("reopen failed")
}

fn image_bytes(engine: &QueryEngine) -> Vec<u8> {
    engine.database().storage().to_bytes()
}

const MAGIC_LE: [u8; 8] = [0x42, 0x44, 0x41, 0x54, 0x4E, 0x45, 0x53, 0x49];

/// Opening an empty file writes a valid header page.
#[test]
fn open_empty_file_writes_header() {
    let engine = QueryEngine::new();
    let bytes = image_bytes(&engine);
    assert_eq!(bytes.len(), 4096);
    assert_eq!(&bytes[0..8], &MAGIC_LE);
    // version 1
    assert_eq!(&bytes[8..12], &[1, 0, 0, 0]);
    // schema root 0
    assert_eq!(&bytes[12..20], &[0u8; 8]);
    // table count 0
    assert_eq!(&bytes[20..24], &[0u8; 4]);
}

/// A non-empty file with the wrong magic is refused as corrupt.
#[test]
fn open_non_magic_bytes_is_corruption() {
    let mut junk = vec![0u8; 100];
    for (i, b) in junk.iter_mut().enumerate() {
        *b = (37 + i * 61) as u8;
    }
    let storage = StorageEngine::from_bytes(&junk);
    match QueryEngine::with_storage(storage) {
        Ok(_) => panic!("corrupt file was accepted"),
        Err(e) => assert!(matches!(e, DbError::CorruptFile)),
    }
}

/// A magic of zero in a non-empty file is tolerated and loads empty.
#[test]
fn open_zero_magic_loads_empty() {
    let zeros = vec![0u8; 4096];
    let storage = StorageEngine::from_bytes(&zeros);
    let engine = QueryEngine::with_storage(storage).expect("zero-magic file refused");
    assert_eq!(engine.get_all_tables().len(), 0);
}

/// `table_count=5` with `schema_root=0` is repaired to zero tables.
#[test]
fn repair_count_without_root() {
    let mut bytes = vec![0u8; 4096];
    bytes[0..8].copy_from_slice(&MAGIC_LE);
    bytes[8..12].copy_from_slice(&[1, 0, 0, 0]);
    // schema_root stays 0; table_count = 5
    bytes[20..24].copy_from_slice(&[5, 0, 0, 0]);
    let storage = StorageEngine::from_bytes(&bytes);
    let engine = QueryEngine::with_storage(storage).expect("open failed");
    assert_eq!(engine.get_all_tables().len(), 0);
    let repaired = image_bytes(&engine);
    assert_eq!(&repaired[20..24], &[0u8; 4]);
}

/// `schema_root` set with `table_count=0` is repaired to root zero.
#[test]
fn repair_root_without_count() {
    let mut bytes = vec![0u8; 4096];
    bytes[0..8].copy_from_slice(&MAGIC_LE);
    bytes[8..12].copy_from_slice(&[1, 0, 0, 0]);
    bytes[12..20].copy_from_slice(&[7, 0, 0, 0, 0, 0, 0, 0]);
    let storage = StorageEngine::from_bytes(&bytes);
    let engine = QueryEngine::with_storage(storage).expect("open failed");
    assert_eq!(engine.get_all_tables().len(), 0);
    let repaired = image_bytes(&engine);
    assert_eq!(&repaired[12..20], &[0u8; 8]);
}

/// Builds a one-column schema page by hand.
fn schema_page(name: &str, data_pid: u64, next_pid: u64) -> Vec<u8> {
    let mut page = vec![0u8; 4096];
    let nb = name.as_bytes();
    let mut off = 0;
    page[off..off + 4].copy_from_slice(&(nb.len() as u32).to_le_bytes());
    off += 4;
    page[off..off + nb.len()].copy_from_slice(nb);
    off += nb.len();
    // one column: v INTEGER
    page[off..off + 4].copy_from_slice(&1u32.to_le_bytes());
    off += 4;
    page[off..off + 4].copy_from_slice(&1u32.to_le_bytes());
    off += 4;
    page[off] = b'v';
    off += 1;
    page[off..off + 4].copy_from_slice(&7u32.to_le_bytes());
    off += 4;
    page[off..off + 7].copy_from_slice(b"INTEGER");
    off += 7;
    page[off..off + 8].copy_from_slice(&data_pid.to_le_bytes());
    off += 8;
    page[off..off + 8].copy_from_slice(&next_pid.to_le_bytes());
    page
}

/// A schema page whose next pointer loops back to itself: the load detects
/// the cycle and stops cleanly.
#[test]
fn cycle_in_schema_chain_terminates() {
    let mut bytes = vec![0u8; 4096];
    bytes[0..8].copy_from_slice(&MAGIC_LE);
    bytes[8..12].copy_from_slice(&[1, 0, 0, 0]);
    bytes[12..20].copy_from_slice(&1u64.to_le_bytes());
    bytes[20..24].copy_from_slice(&3u32.to_le_bytes());
    bytes.extend_from_slice(&schema_page("loop", 0, 1));
    let storage = StorageEngine::from_bytes(&bytes);
    let engine = QueryEngine::with_storage(storage).expect("open failed");
    // Only the one table is reachable; the count shrinks to what was read.
    assert_eq!(engine.get_all_tables().len(), 1);
    assert_eq!(engine.get_all_tables()[0].name, "loop");
    let repaired = image_bytes(&engine);
    assert_eq!(&repaired[20..24], &1u32.to_le_bytes());
}

/// Rows whose encoded size exceeds one page span multiple row pages and
/// reload correctly.
#[test]
fn large_rows_span_pages() {
    let mut engine = QueryEngine::new();
    let parser = Parser::new();
    run(&mut engine, &parser, "CREATE TABLE big (body TEXT)");
    let long_a = "a".repeat(3000);
    let long_b = "b".repeat(3000);
    let long_c = "c".repeat(3000);
    run(&mut engine, &parser, &format!("INSERT INTO big VALUES ('{}')", long_a));
    run(&mut engine, &parser, &format!("INSERT INTO big VALUES ('{}')", long_b));
    run(&mut engine, &parser, &format!("INSERT INTO big VALUES ('{}')", long_c));
    // three pages of header+schema+rows at least, rows cannot share a page
    assert!(image_bytes(&engine).len() > 4 * 4096);

    let reopened = reopen(&engine);
    let tables = reopened.get_all_tables();
    assert_eq!(tables.len(), 1);
    assert_eq!(tables[0].rows.len(), 3);
    assert_eq!(tables[0].rows[0].values[0], long_a);
    assert_eq!(tables[0].rows[1].values[0], long_b);
    assert_eq!(tables[0].rows[2].values[0], long_c);
}

/// A value too large for any page is refused without touching the file.
#[test]
fn oversized_row_is_refused() {
    let mut engine = QueryEngine::new();
    let parser = Parser::new();
    run(&mut engine, &parser, "CREATE TABLE big (body TEXT)");
    let before = image_bytes(&engine);
    let huge = "x".repeat(5000);
    let out = run(&mut engine, &parser, &format!("INSERT INTO big VALUES ('{}')", huge));
    assert!(out.contains("Error"));
    let after = image_bytes(&engine);
    assert_eq!(before, after);
}

/// A table name too long for a schema page is refused.
#[test]
fn oversized_name_is_refused() {
    let mut engine = QueryEngine::new();
    let parser = Parser::new();
    let name = "t".repeat(5000);
    let out = run(&mut engine, &parser, &format!("CREATE TABLE {} (v INTEGER)", name));
    assert!(out.contains("Error"));
}
