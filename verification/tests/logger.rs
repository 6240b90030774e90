use soa_lab::logger::{chunk_bytes, parse_chunk, ByteReader, ByteWriter, Container};
use soa_lab::logread::{scatter_chunk, scatter_chunks, SimLogReader};
use soa_lab::simlog::{type_tag, u32_to_f64_bits, KeyType, SimLog, Value};

#[test]
fn bytes_round_trip_little_endian() {
    let mut w = ByteWriter::new();
    w.u8(7);
    w.u16(0xBEEF);
    w.u32(0xDEAD_BEEF);
    w.u64(0x0102_0304_0506_0708);
    w.f64_bits(2.5f64.to_bits());
    w.string("héllo");
    assert_eq!(&w.0[..3], &[7, 0xEF, 0xBE]);
    let mut r = ByteReader::new(w.0);
    assert_eq!(r.u8(), 7);
    assert_eq!(r.u16(), 0xBEEF);
    assert_eq!(r.u32(), 0xDEAD_BEEF);
    assert_eq!(r.u64(), 0x0102_0304_0506_0708);
    assert_eq!(f64::from_bits(r.f64_bits()), 2.5);
    assert_eq!(r.string().as_deref(), Some("héllo"));
    assert_eq!(r.pos, r.buf.len());
}

#[test]
fn non_utf8_string_is_refused() {
    let mut w = ByteWriter::new();
    w.u32(2);
    w.u8(0xFF);
    w.u8(0xFE);
    let mut r = ByteReader::new(w.0);
    assert_eq!(r.string(), None);
}

#[test]
fn small_integers_convert_exactly() {
    for n in [0u32, 1, 2, 3, 7, 255, 256, 65_535, 1 << 24, (1 << 24) + 1, u32::MAX - 1, u32::MAX] {
        assert_eq!(u32_to_f64_bits(n), (n as f64).to_bits(), "{n}");
    }
}

#[test]
fn logging_builds_schema_codebook_and_triples() {
    let mut log = SimLog::new(3);
    let full = log.log(&[
        ("time", Value::Float(0.5f64.to_bits())),
        ("entity_id", Value::Int((7.0f64).to_bits())),
        ("activity", Value::Str("picking")),
    ]);
    assert!(!full);
    let full = log.log(&[("time", Value::Float(1.0f64.to_bits())), ("activity", Value::Str("idle"))]);
    assert!(!full);
    // First type wins: "entity_id" stays an integer field.
    let full = log.log(&[("entity_id", Value::Float(2.5f64.to_bits())), ("activity", Value::Str("picking"))]);
    assert!(full);

    assert_eq!(log.names, vec!["time", "entity_id", "activity"]);
    assert_eq!(log.key_types, vec![(0, KeyType::Float), (1, KeyType::Int), (2, KeyType::Str)]);
    assert_eq!(log.str_keys, vec![2]);
    assert_eq!(log.str_list, vec!["picking", "idle"]);
    assert_eq!(log.active.rids, vec![0, 0, 0, 1, 1, 2, 2]);
    assert_eq!(log.active.keys, vec![0, 1, 2, 0, 2, 1, 2]);
    assert_eq!(log.active.vals[2], u32_to_f64_bits(0));
    assert_eq!(log.active.vals[4], u32_to_f64_bits(1));
    assert_eq!(log.active.vals[6], u32_to_f64_bits(0));
    assert_eq!(log.active.row_count, 3);

    // The full buffer is handed over and logging continues in a fresh one.
    let handed = log.swap(Container::new());
    assert_eq!(handed.row_count, 3);
    assert_eq!(log.active.row_count, 0);
    assert!(log.take_tail().is_none());
    log.log(&[("time", Value::Float(2.0f64.to_bits()))]);
    let tail = log.take_tail().unwrap();
    assert_eq!(tail.rids, vec![0]);
    assert_eq!(log.active.row_count, 0);
}

#[test]
fn sidecar_reads_back() {
    let mut log = SimLog::new(5000);
    for i in 0..10u32 {
        let who = if i % 2 == 0 { "picking" } else { "packing" };
        log.log(&[
            ("time", Value::Float((i as f64).to_bits())),
            ("value", Value::Int(u32_to_f64_bits(i))),
            ("activity", Value::Str(who)),
        ]);
    }
    let meta = log.meta_bytes();
    let reader = SimLogReader::from_meta(meta.clone()).expect("sidecar parses");
    assert_eq!(reader.field_names(), &["time", "value", "activity"]);
    assert_eq!(reader.codebook(), &["picking", "packing"]);
    assert_eq!(reader.key_types, log.key_types);
    assert_eq!(reader.str_keys, vec![2]);
    // A sidecar cut short does not parse.
    assert!(SimLogReader::from_meta(meta[..meta.len() - 1].to_vec()).is_none());
    assert!(SimLogReader::from_meta(vec![0; 3]).is_none());
}

#[test]
fn type_tags_are_letters() {
    assert_eq!(type_tag(KeyType::Int), b'i');
    assert_eq!(type_tag(KeyType::Float), b'f');
    assert_eq!(type_tag(KeyType::Str), b's');
}

#[test]
fn chunk_round_trip() {
    let mut c = Container::new();
    c.rids = vec![0, 0, 1];
    c.keys = vec![0, 1, 0];
    c.vals = vec![1.5f64.to_bits(), 2, 3];
    c.row_count = 2;
    let bytes = chunk_bytes(&c);
    assert_eq!(bytes.len(), 12 + 3 * 14);
    assert_eq!(&bytes[..8], &3u64.to_le_bytes());
    let back = parse_chunk(&bytes).expect("chunk parses");
    assert_eq!(back.rids, c.rids);
    assert_eq!(back.keys, c.keys);
    assert_eq!(back.vals, c.vals);
    assert_eq!(back.row_count, 2);
    assert!(parse_chunk(&bytes[..bytes.len() - 1]).is_none());
    assert!(parse_chunk(&bytes[..5]).is_none());
}

#[test]
fn reset_empties_a_buffer() {
    let mut c = Container::new();
    c.rids.push(1);
    c.keys.push(1);
    c.vals.push(1);
    c.row_count = 4;
    c.reset();
    assert!(c.rids.is_empty() && c.keys.is_empty() && c.vals.is_empty());
    assert_eq!(c.row_count, 0);
}

#[test]
fn scatter_fills_dense_columns_and_masks() {
    let mut c = Container::new();
    // Record 0 sets fields 0 and 2; record 1 sets field 0 twice (the last wins).
    c.rids = vec![0, 0, 1, 1];
    c.keys = vec![0, 2, 0, 0];
    c.vals = vec![10, 20, 30, 40];
    c.row_count = 2;
    let mut cols = vec![vec![7u64], vec![8], vec![9]];
    let mut masks = vec![vec![true], vec![true], vec![true]];
    scatter_chunk(&c, 1, &mut cols, &mut masks);
    assert_eq!(cols, vec![vec![7, 10, 40], vec![8, 0, 0], vec![9, 20, 0]]);
    assert_eq!(
        masks,
        vec![vec![true, true, true], vec![true, false, false], vec![true, true, false]]
    );
}

#[test]
fn field_kinds_follow_the_sidecar() {
    let mut log = SimLog::new(100);
    log.log(&[
        ("time", Value::Float(0.5f64.to_bits())),
        ("entity_id", Value::Int(u32_to_f64_bits(3))),
        ("activity", Value::Str("picking")),
    ]);
    let reader = SimLogReader::from_meta(log.meta_bytes()).expect("sidecar parses");
    assert_eq!(reader.kind_of(0), KeyType::Float);
    assert_eq!(reader.kind_of(1), KeyType::Int);
    assert_eq!(reader.kind_of(2), KeyType::Str);
    // A field the sidecar never typed reads as a float.
    assert_eq!(reader.kind_of(9), KeyType::Float);
}

#[test]
fn names_and_codebook_keep_first_appearance_order() {
    let mut log = SimLog::new(100);
    log.log(&[("time", Value::Float(0)), ("activity", Value::Str("idle"))]);
    log.log(&[("value", Value::Int(1)), ("time", Value::Float(1)), ("activity", Value::Str("picking"))]);
    log.log(&[("entity_id", Value::Int(2)), ("activity", Value::Str("idle")), ("zone", Value::Str("north"))]);
    assert_eq!(log.names, vec!["time", "activity", "value", "entity_id", "zone"]);
    assert_eq!(log.str_list, vec!["idle", "picking", "north"]);
}

#[test]
fn chunks_scatter_into_one_run_of_rows() {
    let mut a = Container::new();
    a.rids = vec![0, 1];
    a.keys = vec![0, 1];
    a.vals = vec![5, 6];
    a.row_count = 2;
    let mut b = Container::new();
    b.rids = vec![0, 0];
    b.keys = vec![1, 1];
    b.vals = vec![7, 8];
    b.row_count = 1;
    let (cols, masks) = scatter_chunks(&[a, b], 2);
    assert_eq!(cols, vec![vec![5, 0, 0], vec![0, 6, 8]]);
    assert_eq!(masks, vec![vec![true, false, false], vec![false, true, true]]);
}
