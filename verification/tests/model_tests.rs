use bis_rust::compare;
use bis_rust::compare_tx_sets;
use bis_rust::get_format_value;
use bis_rust::get_params;
use bis_rust::get_parser_for_format;
use bis_rust::CliParams;
use bis_rust::Transaction;
use bis_rust::TransactionStatus;
use bis_rust::TransactionType;
use bis_rust::TransactionsFormatType;
use bis_rust::TransactionsParser;

fn sample_tx(tx_id: u64, description: &str) -> Transaction {
    Transaction {
        tx_id,
        tx_type: TransactionType::WITHDRAWAL,
        from_user_id: 123456789,
        to_user_id: 9876543210,
        amount: 100,
        timestamp: 0,
        status: TransactionStatus::SUCCESS,
        description: description.to_string(),
    }
}

fn get_example_set() -> Vec<Transaction> {
    vec![
        sample_tx(1, "Transaction #1"),
        sample_tx(2, "Transaction 2"),
        sample_tx(3, "Transaction 3"),
    ]
}

#[test]
fn test_new_tx_create() {
    let tx = Transaction::new();
    assert_eq!(tx.tx_type, TransactionType::EMPTY);
}

#[test]
fn test_format_parsers_create() {
    let parser = get_parser_for_format(TransactionsFormatType::BIN);
    assert_eq!(parser.get_using_format_type(), TransactionsFormatType::BIN);
}

#[test]
fn test_compare_tx_sets() {
    let left_side: Vec<Transaction> = get_example_set();
    let right_side: Vec<Transaction> = get_example_set();
    assert_eq!(compare_tx_sets(left_side, right_side), true);
}

#[test]
fn test_get_format_value() {
    let fmt = String::from("txt");
    assert_eq!(get_format_value(&fmt), TransactionsFormatType::TXT);
}

#[test]
fn test_get_format_value_all_tags() {
    assert_eq!(get_format_value("csv"), TransactionsFormatType::CSV);
    assert_eq!(get_format_value("bin"), TransactionsFormatType::BIN);
    assert_eq!(get_format_value("json"), TransactionsFormatType::UNKNOWN);
    assert_eq!(get_format_value(""), TransactionsFormatType::UNKNOWN);
}

#[test]
fn test_compare_single() {
    assert!(compare(sample_tx(1, "a"), sample_tx(1, "a")));
    assert!(!compare(sample_tx(1, "a"), sample_tx(1, "b")));
    assert!(!compare(sample_tx(1, "a"), sample_tx(2, "a")));
}

#[test]
fn test_compare_tx_sets_symmetry() {
    let a = vec![sample_tx(1, "a"), sample_tx(2, "b")];
    let b = vec![sample_tx(2, "b"), sample_tx(1, "a")];
    assert_eq!(
        compare_tx_sets(a.clone(), b.clone()),
        compare_tx_sets(b, a)
    );
}

#[test]
fn test_compare_tx_sets_order_blind() {
    let a = vec![sample_tx(1, "a"), sample_tx(2, "b")];
    let b = vec![sample_tx(2, "b"), sample_tx(1, "a")];
    assert_eq!(compare_tx_sets(a, b), true);
}

#[test]
fn test_compare_tx_sets_duplicates_fail_on_length() {
    let x = sample_tx(1, "same");
    let two = vec![x.clone(), x.clone()];
    let one = vec![x];
    assert_eq!(compare_tx_sets(two, one), false);
}

#[test]
fn test_compare_tx_sets_element_mismatch() {
    let a = vec![sample_tx(1, "a")];
    let b = vec![sample_tx(1, "b")];
    assert_eq!(compare_tx_sets(a, b), false);
}

#[test]
fn test_cli_params_new() {
    let params = CliParams::new();
    assert_eq!(params.first_file_format, TransactionsFormatType::UNKNOWN);
    assert_eq!(params.second_file_format, TransactionsFormatType::UNKNOWN);
    assert_eq!(params.first_file_name, "");
    assert_eq!(params.second_file_name, "");
}

#[test]
fn test_get_params_reads_positions() {
    let args: Vec<String> = vec![
        "converter".to_string(),
        "input.txt".to_string(),
        "txt".to_string(),
        "bin".to_string(),
        "output.bin".to_string(),
    ];
    let params = get_params(args);
    assert_eq!(params.first_file_name, "input.txt");
    assert_eq!(params.first_file_format, TransactionsFormatType::TXT);
    assert_eq!(params.second_file_format, TransactionsFormatType::BIN);
    assert_eq!(params.second_file_name, "output.bin");
}

#[test]
fn test_parser_error_messages() {
    let e = bis_rust::error::ParserError::InvalidFormat;
    assert!(e.message().contains("txt, csv or bin"));
}
