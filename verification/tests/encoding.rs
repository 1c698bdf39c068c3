use paimon_vindex_core::error::{ErrorKind, Field, FileKind, IndexError};
use paimon_vindex_core::graph_codec::{read_u32_fixed, read_u32_varint, write_u32_varint};
use paimon_vindex_core::index_io_util::{
    bytes_to_f32_vec, bytes_to_f32_vec_checked, checked_list_bytes, checked_list_offset, checked_section_size, u64_to_i64,
    usize_to_i32, usize_to_i64, validate_finite_f32_values, validate_reserved_zero,
};
use paimon_vindex_core::logging::{emit_log, set_log_sink, Delivery, LogLevel};
use paimon_vindex_core::text::parse_usize;
use paimon_vindex_core::varint::{
    decode_delta_varint_ids, encode_delta_varint_ids, read_u64_varint, write_u64_varint,
};
use paimon_vindex_core::widening::widen;
use std::sync::{Arc, Mutex};

type LogSink = Box<dyn Fn(LogLevel, &str)>;

#[test]
fn numbers_take_seven_bits_a_byte() {
    let mut buf = Vec::new();
    write_u64_varint(&mut buf, 300);
    assert_eq!(buf, vec![0xac, 0x02]);
    for value in [0, 1, 127, 128, 16_383, 16_384, u64::MAX] {
        let mut buf = vec![9u8];
        write_u64_varint(&mut buf, value);
        let mut pos = 1;
        assert_eq!(read_u64_varint(&buf, &mut pos).unwrap(), value);
        assert_eq!(pos, buf.len());
    }
    let mut longest = Vec::new();
    write_u64_varint(&mut longest, u64::MAX);
    assert_eq!(longest.len(), 10);
}

#[test]
fn numbers_that_stop_early_or_run_over_are_refused() {
    let mut pos = 0;
    assert!(read_u64_varint(&[0x80], &mut pos).is_err());
    let mut pos = 0;
    let err = read_u64_varint(&[0xff; 11], &mut pos).unwrap_err();
    assert_eq!(err.kind(), ErrorKind::InvalidData);
}

#[test]
fn ascending_ids_survive_their_differences() {
    let ids = vec![-5, -5, 0, 7, 1 << 40, i64::MAX];
    let (base, bytes) = encode_delta_varint_ids(&ids);
    assert_eq!(base, -5);
    assert_eq!(decode_delta_varint_ids(base, &bytes, ids.len()).unwrap(), ids);
    assert!(decode_delta_varint_ids(base, &bytes[..bytes.len() - 1], ids.len()).is_err());
    let mut longer = bytes.clone();
    longer.push(0);
    assert!(decode_delta_varint_ids(base, &longer, ids.len()).is_err());
    let (base, bytes) = encode_delta_varint_ids(&[3, 4]);
    assert_eq!((base, bytes), (3, vec![0, 1]));
}

#[test]
fn numbers_are_read_from_text() {
    let digits = |text: &str| parse_usize(&text.to_string());
    assert_eq!(digits("0"), Some(0));
    assert_eq!(digits("0042"), Some(42));
    assert_eq!(digits("+7"), Some(7));
    assert_eq!(digits(&usize::MAX.to_string()), Some(usize::MAX));
    assert_eq!(digits("18446744073709551616"), None);
    assert_eq!(digits(""), None);
    assert_eq!(digits("+"), None);
    assert_eq!(digits("-1"), None);
    assert_eq!(digits("1 "), None);
}

/// Hands a record to where it goes.
fn deliver(installed: &Option<LogSink>, level: LogLevel, message: &str) {
    match emit_log(installed, level, message) {
        Delivery::Sink {
            sink,
            level,
            message,
        } => sink(level, message),
        Delivery::StandardError { message } => panic!("no sink for {message}"),
    }
}

#[test]
fn sink_install_deliver_and_reject_second_install() {
    let captured: Arc<Mutex<Vec<(LogLevel, String)>>> = Arc::new(Mutex::new(Vec::new()));
    let sink_capture = Arc::clone(&captured);
    let mut slot: Option<LogSink> = None;
    let sink: LogSink = Box::new(move |level: LogLevel, message: &str| {
        sink_capture
            .lock()
            .unwrap()
            .push((level, message.to_string()));
    });
    set_log_sink(&mut slot, sink).unwrap_or_else(|_| panic!("first install must succeed"));

    deliver(&slot, LogLevel::Info, "hello");
    deliver(&slot, LogLevel::Warn, "watch out");

    let records = captured.lock().unwrap();
    assert_eq!(
        *records,
        vec![
            (LogLevel::Info, "hello".to_string()),
            (LogLevel::Warn, "watch out".to_string()),
        ]
    );
    drop(records);

    let second: LogSink = Box::new(|_: LogLevel, _: &str| {});
    assert!(set_log_sink(&mut slot, second).is_err());
}

#[test]
fn the_first_log_sink_stays() {
    let mut slot: Option<&str> = None;
    assert!(matches!(
        emit_log(&slot, LogLevel::Error, "lost"),
        Delivery::StandardError { message: "lost" }
    ));
    assert_eq!(set_log_sink(&mut slot, "first"), Ok(()));
    assert_eq!(set_log_sink(&mut slot, "second"), Err("second"));
    assert!(matches!(
        emit_log(&slot, LogLevel::Debug, "kept"),
        Delivery::Sink {
            sink: &"first",
            level: LogLevel::Debug,
            message: "kept"
        }
    ));
    assert!(LogLevel::Error.code() < LogLevel::Debug.code());
}

#[test]
fn errors_name_fields_lists_and_numbers() {
    let said = |error: IndexError, text: &str| assert_eq!(error.message(), text);
    said(
        IndexError::HeaderNotPositive {
            field: Field::Dimension,
            found: -30,
        },
        "invalid header field d: -30 (must be positive)",
    );
    for (file, magic, flags) in [
        (
            FileKind::IvfFlat,
            "Invalid IVFFLAT magic: 0x00000001",
            "Unsupported IVFFLAT flags: 0x00000004",
        ),
        (
            FileKind::IvfHnswFlat,
            "Invalid IVF_HNSW_FLAT magic: 0x00000001",
            "Unsupported IVF_HNSW_FLAT flags: 0x00000004",
        ),
        (
            FileKind::IvfHnswSq,
            "Invalid IVF_HNSW_SQ magic: 0x00000001",
            "Unsupported IVF_HNSW_SQ flags: 0x00000004",
        ),
        (
            FileKind::IvfRq,
            "Invalid IVF-RQ magic: 0x00000001",
            "Unsupported IVF-RQ flags: 0x00000004",
        ),
    ] {
        said(IndexError::FileMagic { file, magic: 1 }, magic);
        said(IndexError::FileFlags { file, flags: 4 }, flags);
    }
    said(
        IndexError::FileVersion {
            file: FileKind::IvfRq,
            version: 9,
        },
        "Unsupported IVF-RQ version: 9",
    );
    said(
        IndexError::FileFlagsMissing {
            file: FileKind::IvfRq,
        },
        "IVF-RQ v1 requires delta IDs",
    );
    said(
        IndexError::ListStorage {
            file: FileKind::IvfHnswFlat,
        },
        "IVF-HNSW-FLAT list storage does not match nlist",
    );
    said(
        IndexError::GraphMismatch {
            file: FileKind::IvfHnswSq,
            list_id: 3,
        },
        "list 3 graph does not match SQ code storage",
    );
    said(
        IndexError::FieldZero { field: Field::Nlist },
        "nlist must be greater than 0",
    );
    said(
        IndexError::LengthExceedsI32 {
            field: Field::IdBytes,
            value: 2_147_483_648,
        },
        "delta ID section exceeds i32 length limit: 2147483648",
    );
    said(
        IndexError::ListVectorLength {
            list_id: 2,
            len: 7,
            expected: 8,
        },
        "list 2 vector length 7 does not match ids*d 8",
    );
    said(
        IndexError::NegativeListOffset {
            offset: i64::MIN,
            list_id: 0,
        },
        "negative list offset -9223372036854775808 at list 0",
    );
    said(
        IndexError::GraphMagic { magic: 0xDEAD_BEEF },
        "Invalid HNSW graph magic: 0xDEADBEEF",
    );
    said(
        IndexError::UnknownIndexMagic { magic: 0x0000_01A2 },
        "unknown vector index magic: 0x000001A2",
    );
    said(
        IndexError::GraphNodeLevel {
            node: 1,
            level: 9,
            max_level: 7,
        },
        "graph node 1 level 9 exceeds max_level 6",
    );
    said(
        IndexError::SectionTooLarge {
            size: 1_073_741_825,
        },
        "section size 1073741825 exceeds maximum 1073741824",
    );
    said(
        IndexError::GraphNumberTooLarge { number: u64::MAX },
        "HNSW graph varint value 18446744073709551615 exceeds u32 limit",
    );
}

#[test]
fn widening_agrees_with_the_hardware() {
    for value in [
        0.0f32,
        -0.0,
        1.0,
        -1.5,
        f32::MIN_POSITIVE,
        f32::from_bits(1),
        f32::from_bits(0x007f_ffff),
        -f32::from_bits(3),
        f32::MAX,
        f32::MIN,
    ] {
        assert_eq!(widen(value.to_bits()), (value as f64).to_bits(), "{}", value);
    }
}

#[test]
fn errors_have_a_kind_and_words() {
    assert_eq!(IndexError::KZero.kind(), ErrorKind::InvalidInput);
    assert_eq!(IndexError::UnexpectedEof.kind(), ErrorKind::UnexpectedEof);
    assert_eq!(
        IndexError::FileVersion { file: FileKind::IvfHnswSq, version: 9 }.kind(),
        ErrorKind::InvalidData
    );
    assert!(!IndexError::UnexpectedEof.message().is_empty());
}

#[test]
fn broken_numbers_and_ids_have_their_errors() {
    let mut pos = 0;
    assert_eq!(
        read_u64_varint(&[0x80], &mut pos),
        Err(IndexError::VarintTruncated)
    );
    let mut pos = 0;
    assert_eq!(
        read_u64_varint(&[0xff; 11], &mut pos),
        Err(IndexError::VarintTooLong)
    );
    assert_eq!(
        decode_delta_varint_ids(5, &[0, 1, 2], 2),
        Err(IndexError::IdsTrailingBytes)
    );
    let mut step_back = vec![0];
    write_u64_varint(&mut step_back, u64::MAX);
    assert_eq!(
        decode_delta_varint_ids(5, &step_back, 2),
        Err(IndexError::IdsNotSorted)
    );
    let mut buf = Vec::new();
    assert_eq!(
        write_u32_varint(&mut buf, 1 << 32),
        Err(IndexError::ValueExceedsU32 { value: 1 << 32 })
    );
    assert!(buf.is_empty());
}

#[test]
fn sizes_that_do_not_fit_have_their_errors() {
    assert_eq!(validate_reserved_zero(&[0, 0]), Ok(()));
    assert_eq!(
        validate_reserved_zero(&[0, 1]),
        Err(IndexError::ReservedBytes)
    );
    assert_eq!(usize_to_i32(7, Field::Dimension), Ok(7));
    assert_eq!(
        usize_to_i32(1 << 31, Field::Dimension),
        Err(IndexError::LengthExceedsI32 {
            field: Field::Dimension,
            value: 1 << 31
        })
    );
    assert_eq!(
        usize_to_i64(1 << 63, Field::Dimension),
        Err(IndexError::LengthExceedsI64 {
            field: Field::Dimension,
            value: 1 << 63
        })
    );
    assert_eq!(
        u64_to_i64(1 << 63),
        Err(IndexError::OffsetExceedsI64 { at: 1 << 63 })
    );
    assert_eq!(
        checked_section_size(1 << 40, 1 << 40),
        Err(IndexError::SectionSizeOverflow)
    );
    assert_eq!(checked_section_size(6, 7), Ok(42));
    assert_eq!(
        checked_section_size(1 << 31, 1),
        Err(IndexError::SectionTooLarge { size: 1 << 31 })
    );
    assert_eq!(
        checked_list_offset(-1, 3),
        Err(IndexError::NegativeListOffset {
            offset: -1,
            list_id: 3
        })
    );
    assert_eq!(
        checked_list_bytes(usize::MAX, 2),
        Err(IndexError::ListBytesOverflow)
    );
    assert_eq!(bytes_to_f32_vec(&[1, 2, 3]), Err(IndexError::Unaligned));
    assert_eq!(
        bytes_to_f32_vec(&1.5f32.to_le_bytes()),
        Ok(vec![1.5f32.to_bits()])
    );
    assert_eq!(
        validate_finite_f32_values(&[0, f32::NAN.to_bits()]),
        Err(IndexError::NotFinite { place: 1 })
    );
}

#[test]
fn sections_of_values_are_finite() {
    let section = |values: &[f32]| -> Vec<u8> {
        values.iter().flat_map(|value| value.to_le_bytes()).collect()
    };
    assert_eq!(
        bytes_to_f32_vec_checked(&section(&[1.5, -2.0])),
        Ok(vec![1.5f32.to_bits(), (-2.0f32).to_bits()])
    );
    assert_eq!(
        bytes_to_f32_vec_checked(&section(&[1.5, f32::INFINITY, f32::NAN])),
        Err(IndexError::NotFinite { place: 1 })
    );
    assert_eq!(
        bytes_to_f32_vec_checked(&section(&[1.5])[..3]),
        Err(IndexError::Unaligned)
    );
}

#[test]
fn positions_after_reading_are_known() {
    let fixed = |start: usize| {
        let mut pos = start;
        (read_u32_fixed(&[9, 1, 0, 0, 0], &mut pos), pos)
    };
    assert_eq!(fixed(1), (Ok(1), 5));
    assert_eq!(fixed(2), (Err(IndexError::GraphTruncated), 2));
    assert_eq!(fixed(usize::MAX), (Err(IndexError::GraphTruncated), usize::MAX));
    let long = |bytes: &[u8], start: usize| {
        let mut pos = start;
        (read_u64_varint(bytes, &mut pos), pos)
    };
    assert_eq!(long(&[0x80, 1, 7], 0), (Ok(128), 2));
    assert_eq!(long(&[0x80, 0x80], 0), (Err(IndexError::VarintTruncated), 2));
    assert_eq!(long(&[1], 5), (Err(IndexError::VarintTruncated), 5));
    assert_eq!(long(&[0xff; 12], 1), (Err(IndexError::VarintTooLong), 11));
    let mut pos = 0;
    assert_eq!(
        read_u32_varint(&[0x80, 0x80, 0x80, 0x80, 0x10], &mut pos),
        Err(IndexError::GraphNumberTooLarge { number: 1 << 32 })
    );
    assert_eq!(pos, 5);
}
