use bis_rust::bin_format::BinParser;
use bis_rust::compare_tx_sets;
use bis_rust::csv_format::CsvParser;
use bis_rust::error::ParserError;
use bis_rust::get_parser_for_format;
use bis_rust::txt_format::TxtParser;
use bis_rust::Transaction;
use bis_rust::TransactionStatus;
use bis_rust::TransactionType;
use bis_rust::TransactionsFormatType;
use bis_rust::TransactionsParser;

fn tx(
    tx_id: u64,
    tx_type: TransactionType,
    from_user_id: u64,
    to_user_id: u64,
    amount: u64,
    timestamp: u64,
    status: TransactionStatus,
    description: &str,
) -> Transaction {
    Transaction {
        tx_id,
        tx_type,
        from_user_id,
        to_user_id,
        amount,
        timestamp,
        status,
        description: description.to_string(),
    }
}

fn get_example_tx_set() -> Vec<Transaction> {
    let tx_1 = tx(
        1,
        TransactionType::WITHDRAWAL,
        123456789,
        9876543210,
        100,
        0,
        TransactionStatus::SUCCESS,
        "Transaction #1",
    );
    let tx_2 = tx(
        1,
        TransactionType::TRANSFER,
        123456789,
        9876543210,
        100,
        0,
        TransactionStatus::PENDING,
        "Transaction 2",
    );
    let tx_3 = tx(
        1,
        TransactionType::DEPOSIT,
        123456789,
        9876543210,
        100,
        0,
        TransactionStatus::FAILURE,
        "Transaction 3",
    );
    vec![tx_1, tx_2, tx_3]
}

fn roundtrip(parser: &bis_rust::FormatParsers, records: &Vec<Transaction>) -> Vec<Transaction> {
    let mut buf: Vec<u8> = Vec::new();
    parser.write_to(&mut buf, records).unwrap();
    parser.from_read(&buf).unwrap()
}

#[test]
fn test_write_txt() {
    let test_tx_set = get_example_tx_set();
    let in_parser = get_parser_for_format(TransactionsFormatType::TXT);
    let mut buf: Vec<u8> = Vec::new();
    assert!(in_parser.write_to(&mut buf, &test_tx_set).is_ok());
    let res_vec = in_parser.from_read(&buf).unwrap();
    assert_eq!(res_vec.len(), 3);
    assert_eq!(compare_tx_sets(res_vec, get_example_tx_set()), true);
}

#[test]
fn test_write_csv() {
    let test_tx_set = get_example_tx_set();
    let in_parser = get_parser_for_format(TransactionsFormatType::CSV);
    let mut buf: Vec<u8> = Vec::new();
    assert!(in_parser.write_to(&mut buf, &test_tx_set).is_ok());
    let res_vec = in_parser.from_read(&buf).unwrap();
    assert_eq!(res_vec.len(), 3);
    assert_eq!(compare_tx_sets(res_vec, get_example_tx_set()), true);
}

#[test]
fn test_write_bin() {
    let test_tx_set = get_example_tx_set();
    let in_parser = get_parser_for_format(TransactionsFormatType::BIN);
    let mut buf: Vec<u8> = Vec::new();
    assert!(in_parser.write_to(&mut buf, &test_tx_set).is_ok());
    let res_vec = in_parser.from_read(&buf).unwrap();
    assert_eq!(res_vec.len(), 3);
    assert_eq!(compare_tx_sets(res_vec, get_example_tx_set()), true);
}

#[test]
fn test_txt_to_csv() {
    let txt_parser = get_parser_for_format(TransactionsFormatType::TXT);
    let csv_parser = get_parser_for_format(TransactionsFormatType::CSV);
    let res_vec = roundtrip(&txt_parser, &get_example_tx_set());
    let target_vec = roundtrip(&csv_parser, &res_vec);
    assert_eq!(res_vec.len(), 3);
    assert_eq!(target_vec.len(), 3);
    assert_eq!(compare_tx_sets(res_vec.clone(), get_example_tx_set()), true);
    assert_eq!(compare_tx_sets(res_vec, target_vec), true);
}

#[test]
fn test_txt_to_bin() {
    let txt_parser = get_parser_for_format(TransactionsFormatType::TXT);
    let bin_parser = get_parser_for_format(TransactionsFormatType::BIN);
    let res_vec = roundtrip(&txt_parser, &get_example_tx_set());
    let target_vec = roundtrip(&bin_parser, &res_vec);
    assert_eq!(res_vec.len(), 3);
    assert_eq!(target_vec.len(), 3);
    assert_eq!(compare_tx_sets(res_vec.clone(), get_example_tx_set()), true);
    assert_eq!(compare_tx_sets(res_vec, target_vec), true);
}

#[test]
fn test_bin_to_csv() {
    let bin_parser = get_parser_for_format(TransactionsFormatType::BIN);
    let csv_parser = get_parser_for_format(TransactionsFormatType::CSV);
    let res_vec = roundtrip(&bin_parser, &get_example_tx_set());
    let target_vec = roundtrip(&csv_parser, &res_vec);
    assert_eq!(res_vec.len(), 3);
    assert_eq!(target_vec.len(), 3);
    assert_eq!(compare_tx_sets(res_vec.clone(), get_example_tx_set()), true);
    assert_eq!(compare_tx_sets(res_vec, target_vec), true);
}

#[test]
fn test_bin_to_txt() {
    let bin_parser = get_parser_for_format(TransactionsFormatType::BIN);
    let txt_parser = get_parser_for_format(TransactionsFormatType::TXT);
    let res_vec = roundtrip(&bin_parser, &get_example_tx_set());
    let target_vec = roundtrip(&txt_parser, &res_vec);
    assert_eq!(res_vec.len(), 3);
    assert_eq!(target_vec.len(), 3);
    assert_eq!(compare_tx_sets(res_vec.clone(), get_example_tx_set()), true);
    assert_eq!(compare_tx_sets(res_vec, target_vec), true);
}

#[test]
fn test_csv_to_txt() {
    let csv_parser = get_parser_for_format(TransactionsFormatType::CSV);
    let txt_parser = get_parser_for_format(TransactionsFormatType::TXT);
    let res_vec = roundtrip(&csv_parser, &get_example_tx_set());
    let target_vec = roundtrip(&txt_parser, &res_vec);
    assert_eq!(res_vec.len(), 3);
    assert_eq!(target_vec.len(), 3);
    assert_eq!(compare_tx_sets(res_vec.clone(), get_example_tx_set()), true);
    assert_eq!(compare_tx_sets(res_vec, target_vec), true);
}

#[test]
fn test_csv_to_bin() {
    let csv_parser = get_parser_for_format(TransactionsFormatType::CSV);
    let bin_parser = get_parser_for_format(TransactionsFormatType::BIN);
    let res_vec = roundtrip(&csv_parser, &get_example_tx_set());
    let target_vec = roundtrip(&bin_parser, &res_vec);
    assert_eq!(res_vec.len(), 3);
    assert_eq!(target_vec.len(), 3);
    assert_eq!(compare_tx_sets(res_vec.clone(), get_example_tx_set()), true);
    assert_eq!(compare_tx_sets(res_vec, target_vec), true);
}

#[test]
fn test_csv_encode_exact() {
    let records = vec![tx(
        1,
        TransactionType::DEPOSIT,
        2,
        3,
        4,
        5,
        TransactionStatus::SUCCESS,
        "hi",
    )];
    let mut buf: Vec<u8> = Vec::new();
    CsvParser {}.write_to(&mut buf, &records).unwrap();
    let text = String::from_utf8(buf).unwrap();
    assert_eq!(
        text,
        "TX_ID,TX_TYPE,FROM_USER_ID,TO_USER_ID,AMOUNT,TIMESTAMP,STATUS,DESCRIPTION\n1,DEPOSIT,2,3,4,5,SUCCESS,\"hi\"\n"
    );
}

#[test]
fn test_txt_encode_exact() {
    let records = vec![tx(
        7,
        TransactionType::TRANSFER,
        8,
        9,
        10,
        11,
        TransactionStatus::PENDING,
        "note",
    )];
    let mut buf: Vec<u8> = Vec::new();
    TxtParser {}.write_to(&mut buf, &records).unwrap();
    let text = String::from_utf8(buf).unwrap();
    let expected = "# Record 1 (TRANSFER)\nTX_ID: 7\nTX_TYPE: TRANSFER\nTO_USER_ID: 9\nFROM_USER_ID: 8\nAMOUNT: 10\nTIMESTAMP: 11\nSTATUS: PENDING\nDESCRIPTION: \"note\"\n\n";
    assert_eq!(text, expected);
}

#[test]
fn test_bin_encode_exact() {
    let records = vec![tx(
        1,
        TransactionType::TRANSFER,
        2,
        3,
        4,
        5,
        TransactionStatus::FAILURE,
        "",
    )];
    let mut buf: Vec<u8> = Vec::new();
    BinParser {}.write_to(&mut buf, &records).unwrap();
    let mut expected: Vec<u8> = Vec::new();
    expected.extend_from_slice(b"YPBN");
    expected.extend_from_slice(&46u32.to_be_bytes());
    expected.extend_from_slice(&1u64.to_be_bytes());
    expected.push(1);
    expected.extend_from_slice(&2u64.to_be_bytes());
    expected.extend_from_slice(&3u64.to_be_bytes());
    expected.extend_from_slice(&4u64.to_be_bytes());
    expected.extend_from_slice(&5u64.to_be_bytes());
    expected.push(1);
    expected.extend_from_slice(&0u32.to_be_bytes());
    assert_eq!(buf, expected);
}

#[test]
fn test_roundtrip_empty_list() {
    for fmt in [
        TransactionsFormatType::TXT,
        TransactionsFormatType::CSV,
        TransactionsFormatType::BIN,
    ] {
        let parser = get_parser_for_format(fmt);
        let records: Vec<Transaction> = Vec::new();
        let out = roundtrip(&parser, &records);
        assert_eq!(out.len(), 0);
    }
}

#[test]
fn test_roundtrip_descriptions() {
    let records = vec![
        tx(1, TransactionType::DEPOSIT, 0, 2, 3, 4, TransactionStatus::SUCCESS, ""),
        tx(2, TransactionType::TRANSFER, 5, 6, 7, 8, TransactionStatus::PENDING, "plain ascii"),
        tx(
            3,
            TransactionType::WITHDRAWAL,
            9,
            0,
            u64::MAX,
            10,
            TransactionStatus::FAILURE,
            "z\u{00fc}rich \u{20bf} caf\u{00e9}",
        ),
    ];
    for fmt in [
        TransactionsFormatType::TXT,
        TransactionsFormatType::CSV,
        TransactionsFormatType::BIN,
    ] {
        let parser = get_parser_for_format(fmt);
        let out = roundtrip(&parser, &records);
        assert_eq!(out.len(), records.len());
        for (a, b) in records.iter().zip(out.iter()) {
            assert_eq!(a, b);
        }
    }
}

#[test]
fn test_bin_end_of_stream() {
    let parser = BinParser {};
    let empty: Vec<u8> = Vec::new();
    assert_eq!(parser.from_read(&empty).unwrap().len(), 0);
    let short: Vec<u8> = vec![89, 80];
    assert_eq!(parser.from_read(&short).unwrap().len(), 0);
    let other: Vec<u8> = b"ABCD-not-a-frame".to_vec();
    assert_eq!(parser.from_read(&other).unwrap().len(), 0);
}

#[test]
fn test_bin_truncated_frame() {
    let parser = BinParser {};
    let mut bytes: Vec<u8> = b"YPBN".to_vec();
    bytes.extend_from_slice(&50u32.to_be_bytes());
    bytes.extend_from_slice(&1u64.to_be_bytes());
    assert!(matches!(parser.from_read(&bytes), Err(ParserError::Io)));
}

#[test]
fn test_bin_truncated_description() {
    let parser = BinParser {};
    let records = vec![tx(
        1,
        TransactionType::DEPOSIT,
        2,
        3,
        4,
        5,
        TransactionStatus::SUCCESS,
        "a description",
    )];
    let mut buf: Vec<u8> = Vec::new();
    BinParser {}.write_to(&mut buf, &records).unwrap();
    buf.truncate(buf.len() - 1);
    assert!(matches!(parser.from_read(&buf), Err(ParserError::Io)));
}

#[test]
fn test_csv_structural_error_seven_fields() {
    let parser = CsvParser {};
    let text = "TX_ID,TX_TYPE,FROM_USER_ID,TO_USER_ID,AMOUNT,TIMESTAMP,STATUS,DESCRIPTION\n1,DEPOSIT,2,3,4,5,SUCCESS,\"ok\"\n1,DEPOSIT,2,3,4,5,\"seven\"\n";
    let r = parser.from_read(&text.as_bytes().to_vec());
    assert!(matches!(r, Err(ParserError::InvalidCSVStructure(1))));
}

#[test]
fn test_csv_structural_error_nine_fields() {
    let parser = CsvParser {};
    let text = "TX_ID,TX_TYPE,FROM_USER_ID,TO_USER_ID,AMOUNT,TIMESTAMP,STATUS,DESCRIPTION\n1,DEPOSIT,2,3,4,5,SUCCESS,extra,\"nine\"\n";
    let r = parser.from_read(&text.as_bytes().to_vec());
    assert!(matches!(r, Err(ParserError::InvalidCSVStructure(0))));
}

#[test]
fn test_csv_value_errors() {
    let parser = CsvParser {};
    let bad_number = "1,DEPOSIT,0x2,3,4,5,SUCCESS,\"d\"\n";
    assert!(matches!(
        parser.from_read(&bad_number.as_bytes().to_vec()),
        Err(ParserError::InvalidValue { tx_numb: 0 })
    ));
    let leading_zero = "01,DEPOSIT,2,3,4,5,SUCCESS,\"d\"\n";
    assert!(matches!(
        parser.from_read(&leading_zero.as_bytes().to_vec()),
        Err(ParserError::InvalidValue { tx_numb: 0 })
    ));
    let bad_tag = "1,DONATION,2,3,4,5,SUCCESS,\"d\"\n";
    assert!(matches!(
        parser.from_read(&bad_tag.as_bytes().to_vec()),
        Err(ParserError::InvalidValue { tx_numb: 0 })
    ));
    let unquoted = "1,DEPOSIT,2,3,4,5,SUCCESS,bare\n";
    assert!(matches!(
        parser.from_read(&unquoted.as_bytes().to_vec()),
        Err(ParserError::InvalidValue { tx_numb: 0 })
    ));
}

#[test]
fn test_csv_not_utf8_is_io_error() {
    let parser = CsvParser {};
    let bytes: Vec<u8> = vec![0xff, 0xfe, 0xfd];
    assert!(matches!(parser.from_read(&bytes), Err(ParserError::Io)));
}

#[test]
fn test_csv_decode_values() {
    let parser = CsvParser {};
    let text = "TX_ID,TX_TYPE,FROM_USER_ID,TO_USER_ID,AMOUNT,TIMESTAMP,STATUS,DESCRIPTION\n  42 , WITHDRAWAL , 7 , 0 , 18446744073709551615 , 1700000000000 , PENDING , \"spaced but quoted\"\n";
    let got = parser.from_read(&text.as_bytes().to_vec()).unwrap();
    assert_eq!(got.len(), 1);
    assert_eq!(got[0].tx_id, 42);
    assert_eq!(got[0].tx_type, TransactionType::WITHDRAWAL);
    assert_eq!(got[0].from_user_id, 7);
    assert_eq!(got[0].to_user_id, 0);
    assert_eq!(got[0].amount, u64::MAX);
    assert_eq!(got[0].timestamp, 1700000000000);
    assert_eq!(got[0].status, TransactionStatus::PENDING);
    assert_eq!(got[0].description, "spaced but quoted");
}

#[test]
fn test_txt_decode_case_insensitive_keys() {
    let parser = TxtParser {};
    let text = "# Record 1 (DEPOSIT)\ntx_id: 5\nTx_Type: DEPOSIT\nfrom_user_id: 0\nTO_USER_ID: 9\nAmount: 12\ntimestamp: 34\nstatus: SUCCESS\ndescription: \"mixed case keys\"\nIGNORED_KEY: whatever\n\n";
    let got = parser.from_read(&text.as_bytes().to_vec()).unwrap();
    assert_eq!(got.len(), 1);
    assert_eq!(got[0].tx_id, 5);
    assert_eq!(got[0].tx_type, TransactionType::DEPOSIT);
    assert_eq!(got[0].description, "mixed case keys");
}

#[test]
fn test_txt_malformed_line() {
    let parser = TxtParser {};
    let text = "TX_ID 5\n\n";
    match parser.from_read(&text.as_bytes().to_vec()) {
        Err(ParserError::InvalidTxtStrStructure(line)) => {
            assert_eq!(line, "TX_ID 5");
        },
        other => panic!("expected a structural error, got {:?}", other),
    }
}

#[test]
fn test_txt_missing_field() {
    let parser = TxtParser {};
    let text = "TX_ID: 5\nTX_TYPE: DEPOSIT\n\n";
    assert!(matches!(
        parser.from_read(&text.as_bytes().to_vec()),
        Err(ParserError::InvalidValue { tx_numb: 0 })
    ));
}

#[test]
fn test_txt_duplicate_field() {
    let parser = TxtParser {};
    let text = "TX_ID: 5\nTX_ID: 6\n\n";
    assert!(matches!(
        parser.from_read(&text.as_bytes().to_vec()),
        Err(ParserError::InvalidValue { tx_numb: 0 })
    ));
}

#[test]
fn test_three_records_through_binary() {
    let records = vec![
        tx(1, TransactionType::WITHDRAWAL, 0, 0, 100, 0, TransactionStatus::SUCCESS, "a"),
        tx(1, TransactionType::TRANSFER, 0, 0, 100, 0, TransactionStatus::PENDING, "b"),
        tx(1, TransactionType::DEPOSIT, 0, 0, 100, 0, TransactionStatus::FAILURE, "c"),
    ];
    let parser = get_parser_for_format(TransactionsFormatType::BIN);
    let mut buf: Vec<u8> = Vec::new();
    parser.write_to(&mut buf, &records).unwrap();
    let decoded = parser.from_read(&buf).unwrap();
    assert_eq!(compare_tx_sets(decoded, records), true);
}

#[test]
fn test_bin_trailing_garbage_ends_stream() {
    let parser = BinParser {};
    let records = vec![tx(
        9,
        TransactionType::DEPOSIT,
        1,
        2,
        3,
        4,
        TransactionStatus::SUCCESS,
        "kept",
    )];
    let mut buf: Vec<u8> = Vec::new();
    BinParser {}.write_to(&mut buf, &records).unwrap();
    buf.extend_from_slice(b"JUNKJUNKJUNK");
    let got = parser.from_read(&buf).unwrap();
    assert_eq!(got.len(), 1);
    assert_eq!(got[0], records[0]);
}

#[test]
fn test_bin_body_length_field_is_not_authoritative() {
    let parser = BinParser {};
    let mut bytes: Vec<u8> = b"YPBN".to_vec();
    bytes.extend_from_slice(&9999u32.to_be_bytes());
    bytes.extend_from_slice(&7u64.to_be_bytes());
    bytes.push(0);
    bytes.extend_from_slice(&0u64.to_be_bytes());
    bytes.extend_from_slice(&5u64.to_be_bytes());
    bytes.extend_from_slice(&6u64.to_be_bytes());
    bytes.extend_from_slice(&8u64.to_be_bytes());
    bytes.push(2);
    bytes.extend_from_slice(&2u32.to_be_bytes());
    bytes.extend_from_slice(b"ok");
    let got = parser.from_read(&bytes).unwrap();
    assert_eq!(got.len(), 1);
    assert_eq!(got[0].tx_id, 7);
    assert_eq!(got[0].tx_type, TransactionType::DEPOSIT);
    assert_eq!(got[0].status, TransactionStatus::PENDING);
    assert_eq!(got[0].description, "ok");
}
