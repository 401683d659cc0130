//! Parsing and comparison of financial-transaction record sets.
//!
//! Three interchangeable encodings of the same record type are supported: a
//! block text format, a comma-separated format and a length-framed binary
//! format.  Each codec decodes a whole byte source into a record list and
//! encodes a record list onto a byte sink; a multiset-as-set comparator
//! decides whether two decoded lists describe the same transactions.

use vstd::prelude::*;

pub mod bin_format;
pub mod chars;
pub mod csv_format;
pub mod error;
pub mod numeral;
pub mod txt_format;

use crate::error::ParserError;

verus! {

/// Header line written and recognized by the CSV codec.
pub const CVS_HEADER: &'static str = "TX_ID,TX_TYPE,FROM_USER_ID,TO_USER_ID,AMOUNT,TIMESTAMP,STATUS,DESCRIPTION\n";

/// Marker that opens every frame of the binary format.
pub const MAGIC: &'static str = "YPBN";

/// Byte length of a binary frame body with an empty description.
pub const BIN_BODY_LEN: u32 = 46;

/// Kind of a transaction.
#[derive(Clone, Copy, Debug, PartialEq, Eq, Hash, Structural)]
pub enum TransactionType {
    /// Money enters an account; no source account.
    DEPOSIT,
    /// Money moves between two accounts.
    TRANSFER,
    /// Money leaves an account; no destination account.
    WITHDRAWAL,
    /// Sentinel of a freshly constructed, not yet populated record.
    EMPTY,
}

/// Outcome of a transaction.
#[derive(Clone, Copy, Debug, PartialEq, Eq, Hash, Structural)]
pub enum TransactionStatus {
    /// The transaction completed.
    SUCCESS,
    /// The transaction was refused.
    FAILURE,
    /// The transaction is still being executed.
    PENDING,
    /// Sentinel of a freshly constructed, not yet populated record.
    EMPTY,
}

/// Tag that selects one of the three encodings.
#[derive(Clone, Copy, Debug, PartialEq, Eq, Structural)]
pub enum TransactionsFormatType {
    /// The block text format.
    TXT,
    /// The comma-separated format.
    CSV,
    /// The length-framed binary format.
    BIN,
    /// No recognized format; a configuration error of the caller.
    UNKNOWN,
}

/// One parser per format: the codec selected by a format tag.
pub enum FormatParsers {
    /// The parser of the block text format.
    Txt,
    /// The parser of the comma-separated format.
    Csv,
    /// The parser of the length-framed binary format.
    Bin,
}

/// The two file names and the two format tags a run of either tool starts
/// from.
#[derive(Debug)]
pub struct CliParams {
    /// The file holding the records read first.
    pub first_file_name: String,
    /// The format of the first file.
    pub first_file_format: TransactionsFormatType,
    /// The file written to, or compared against.
    pub second_file_name: String,
    /// The format of the second file.
    pub second_file_format: TransactionsFormatType,
}

impl CliParams {
    /// Builds the empty parameter set: blank file names, formats unknown.
    pub fn new() -> (params: Self)
        ensures
            params.first_file_name@ == Seq::<char>::empty(),
            params.first_file_format == TransactionsFormatType::UNKNOWN,
            params.second_file_name@ == Seq::<char>::empty(),
            params.second_file_format == TransactionsFormatType::UNKNOWN,
    {
        Self {
            first_file_name: String::new(),
            first_file_format: TransactionsFormatType::UNKNOWN,
            second_file_name: String::new(),
            second_file_format: TransactionsFormatType::UNKNOWN,
        }
    }
}

impl Default for CliParams {
    fn default() -> (params: Self)
        ensures
            params.first_file_name@ == Seq::<char>::empty(),
            params.first_file_format == TransactionsFormatType::UNKNOWN,
            params.second_file_name@ == Seq::<char>::empty(),
            params.second_file_format == TransactionsFormatType::UNKNOWN,
    {
        Self::new()
    }
}

/// The textual tag of a transaction kind, as the text and CSV formats write
/// it.
pub open spec fn type_tag(t: TransactionType) -> Seq<char> {
    match t {
        TransactionType::DEPOSIT => "DEPOSIT"@,
        TransactionType::TRANSFER => "TRANSFER"@,
        TransactionType::WITHDRAWAL => "WITHDRAWAL"@,
        TransactionType::EMPTY => "EMPTY"@,
    }
}

/// The transaction kind a textual tag stands for, if any.
pub open spec fn spec_parse_type(s: Seq<char>) -> Option<TransactionType> {
    if s == type_tag(TransactionType::DEPOSIT) {
        Some(TransactionType::DEPOSIT)
    } else if s == type_tag(TransactionType::TRANSFER) {
        Some(TransactionType::TRANSFER)
    } else if s == type_tag(TransactionType::WITHDRAWAL) {
        Some(TransactionType::WITHDRAWAL)
    } else if s == type_tag(TransactionType::EMPTY) {
        Some(TransactionType::EMPTY)
    } else {
        None
    }
}

/// The textual tag of a transaction status, as the text and CSV formats
/// write it.
pub open spec fn status_tag(st: TransactionStatus) -> Seq<char> {
    match st {
        TransactionStatus::SUCCESS => "SUCCESS"@,
        TransactionStatus::FAILURE => "FAILURE"@,
        TransactionStatus::PENDING => "PENDING"@,
        TransactionStatus::EMPTY => "EMPTY"@,
    }
}

/// The transaction status a textual tag stands for, if any.
pub open spec fn spec_parse_status(s: Seq<char>) -> Option<TransactionStatus> {
    if s == status_tag(TransactionStatus::SUCCESS) {
        Some(TransactionStatus::SUCCESS)
    } else if s == status_tag(TransactionStatus::FAILURE) {
        Some(TransactionStatus::FAILURE)
    } else if s == status_tag(TransactionStatus::PENDING) {
        Some(TransactionStatus::PENDING)
    } else if s == status_tag(TransactionStatus::EMPTY) {
        Some(TransactionStatus::EMPTY)
    } else {
        None
    }
}

/// Renders the textual tag of a transaction kind.
pub fn type_tag_chars(t: &TransactionType) -> (v: Vec<char>)
    ensures
        v@ == type_tag(*t),
{
    match t {
        TransactionType::DEPOSIT => crate::chars::str_to_chars("DEPOSIT"),
        TransactionType::TRANSFER => crate::chars::str_to_chars("TRANSFER"),
        TransactionType::WITHDRAWAL => crate::chars::str_to_chars("WITHDRAWAL"),
        TransactionType::EMPTY => crate::chars::str_to_chars("EMPTY"),
    }
}

/// Reads a transaction kind back from its textual tag.
pub fn parse_type_chars(v: &Vec<char>) -> (r: Option<TransactionType>)
    ensures
        r == spec_parse_type(v@),
{
    if crate::chars::chars_eq_str(v, "DEPOSIT") {
        Some(TransactionType::DEPOSIT)
    } else if crate::chars::chars_eq_str(v, "TRANSFER") {
        Some(TransactionType::TRANSFER)
    } else if crate::chars::chars_eq_str(v, "WITHDRAWAL") {
        Some(TransactionType::WITHDRAWAL)
    } else if crate::chars::chars_eq_str(v, "EMPTY") {
        Some(TransactionType::EMPTY)
    } else {
        None
    }
}

/// Renders the textual tag of a transaction status.
pub fn status_tag_chars(st: &TransactionStatus) -> (v: Vec<char>)
    ensures
        v@ == status_tag(*st),
{
    match st {
        TransactionStatus::SUCCESS => crate::chars::str_to_chars("SUCCESS"),
        TransactionStatus::FAILURE => crate::chars::str_to_chars("FAILURE"),
        TransactionStatus::PENDING => crate::chars::str_to_chars("PENDING"),
        TransactionStatus::EMPTY => crate::chars::str_to_chars("EMPTY"),
    }
}

/// Reads a transaction status back from its textual tag.
pub fn parse_status_chars(v: &Vec<char>) -> (r: Option<TransactionStatus>)
    ensures
        r == spec_parse_status(v@),
{
    if crate::chars::chars_eq_str(v, "SUCCESS") {
        Some(TransactionStatus::SUCCESS)
    } else if crate::chars::chars_eq_str(v, "FAILURE") {
        Some(TransactionStatus::FAILURE)
    } else if crate::chars::chars_eq_str(v, "PENDING") {
        Some(TransactionStatus::PENDING)
    } else if crate::chars::chars_eq_str(v, "EMPTY") {
        Some(TransactionStatus::EMPTY)
    } else {
        None
    }
}

/// Every kind tag is a nonempty run of uppercase ASCII letters.
pub proof fn lemma_type_tag_chars(t: TransactionType)
    ensures
        type_tag(t).len() >= 1,
        forall|i: int|
            0 <= i < type_tag(t).len() ==> crate::chars::is_upper_char(#[trigger] type_tag(t)[i]),
{
    reveal_strlit("DEPOSIT");
    reveal_strlit("TRANSFER");
    reveal_strlit("WITHDRAWAL");
    reveal_strlit("EMPTY");
}

/// Every status tag is a nonempty run of uppercase ASCII letters.
pub proof fn lemma_status_tag_chars(st: TransactionStatus)
    ensures
        status_tag(st).len() >= 1,
        forall|i: int|
            0 <= i < status_tag(st).len() ==> crate::chars::is_upper_char(
                #[trigger] status_tag(st)[i],
            ),
{
    reveal_strlit("SUCCESS");
    reveal_strlit("FAILURE");
    reveal_strlit("PENDING");
    reveal_strlit("EMPTY");
}

/// Mathematical model of one transaction: what the contracts speak of.
/// The description is the character sequence of the record's text.
#[verifier::ext_equal]
pub struct SpecTransaction {
    /// Identifier; not required to be unique across a set.
    pub tx_id: u64,
    /// Kind of the transaction.
    pub tx_type: TransactionType,
    /// Source account, `0` meaning "no source".
    pub from_user_id: u64,
    /// Destination account, `0` meaning "no destination".
    pub to_user_id: u64,
    /// Amount in raw integer units.
    pub amount: u64,
    /// Unix epoch milliseconds.
    pub timestamp: u64,
    /// Outcome of the transaction.
    pub status: TransactionStatus,
    /// Description text.
    pub description: Seq<char>,
}

/// One financial transaction.
#[derive(Debug, Hash, Clone)]
pub struct Transaction {
    /// Identifier; not required to be unique across a set.
    pub tx_id: u64,
    /// Kind of the transaction: `DEPOSIT`, `TRANSFER` or `WITHDRAWAL`.
    pub tx_type: TransactionType,
    /// Source account, `0` meaning "no source" (deposits).
    pub from_user_id: u64,
    /// Destination account, `0` meaning "no destination" (withdrawals).
    pub to_user_id: u64,
    /// Amount in raw integer units; no currency scaling is defined.
    pub amount: u64,
    /// Unix epoch milliseconds.
    pub timestamp: u64,
    /// Outcome: `SUCCESS`, `FAILURE` or `PENDING`.
    pub status: TransactionStatus,
    /// Arbitrary UTF-8 text.
    pub description: String,
}

impl View for Transaction {
    type V = SpecTransaction;

    open spec fn view(&self) -> SpecTransaction {
        SpecTransaction {
            tx_id: self.tx_id,
            tx_type: self.tx_type,
            from_user_id: self.from_user_id,
            to_user_id: self.to_user_id,
            amount: self.amount,
            timestamp: self.timestamp,
            status: self.status,
            description: self.description@,
        }
    }
}

impl DeepView for Transaction {
    type V = SpecTransaction;

    open spec fn deep_view(&self) -> SpecTransaction {
        self.view()
    }
}

/// Model of the empty sentinel record: identifiers and amounts zero, kind and
/// status the `EMPTY` sentinels, description blank.
pub open spec fn empty_transaction() -> SpecTransaction {
    SpecTransaction {
        tx_id: 0,
        tx_type: TransactionType::EMPTY,
        from_user_id: 0,
        to_user_id: 0,
        amount: 0,
        timestamp: 0,
        status: TransactionStatus::EMPTY,
        description: Seq::<char>::empty(),
    }
}

impl Transaction {
    /// Builds the empty sentinel record that a codec then populates field by
    /// field from decoded input.
    pub fn new() -> (tx: Self)
        ensures
            tx@ == empty_transaction(),
    {
        Self {
            tx_id: 0,
            tx_type: TransactionType::EMPTY,
            from_user_id: 0,
            to_user_id: 0,
            amount: 0,
            timestamp: 0,
            status: TransactionStatus::EMPTY,
            description: String::new(),
        }
    }
}

impl Default for Transaction {
    fn default() -> (tx: Self)
        ensures
            tx@ == empty_transaction(),
    {
        Self::new()
    }
}

impl PartialEq for Transaction {
    fn eq(&self, other: &Self) -> (r: bool) {
        self.tx_id == other.tx_id && self.tx_type == other.tx_type && self.from_user_id
            == other.from_user_id && self.to_user_id == other.to_user_id && self.amount
            == other.amount && self.timestamp == other.timestamp && self.status == other.status
            && self.description == other.description
    }
}

impl vstd::std_specs::cmp::PartialEqSpecImpl for Transaction {
    open spec fn obeys_eq_spec() -> bool {
        true
    }

    open spec fn eq_spec(&self, other: &Transaction) -> bool {
        self@ == other@
    }
}

impl Eq for Transaction {}

/// Decides whether two transactions agree on every field, the description
/// compared as text.
pub fn compare(tx_left: Transaction, tx_right: Transaction) -> (r: bool)
    ensures
        r == (tx_left@ == tx_right@),
{
    tx_left == tx_right
}

/// The model of a decode result: the record views on success, the error's
/// model on failure.
pub open spec fn decode_result_view(r: Result<Vec<Transaction>, ParserError>) -> Result<
    Seq<SpecTransaction>,
    crate::error::SpecParserError,
> {
    match r {
        Ok(v) => Ok(v.deep_view()),
        Err(e) => Err(e@),
    }
}

/// Prefixing already-decoded records onto the outcome of decoding the rest
/// of a source.
pub open spec fn prepend_records(
    pre: Seq<SpecTransaction>,
    r: Result<Seq<SpecTransaction>, crate::error::SpecParserError>,
) -> Result<Seq<SpecTransaction>, crate::error::SpecParserError> {
    match r {
        Ok(l) => Ok(pre + l),
        Err(e) => Err(e),
    }
}

/// The codec contract shared by the three formats: a parser decodes a whole
/// byte source into a record list and encodes a record list onto a byte
/// sink, each side pinned to the format's mathematical encoding.
pub trait TransactionsParser {
    /// The tag of the format this parser reads and writes.
    spec fn spec_format_type(&self) -> TransactionsFormatType;

    /// What decoding `input` yields: the record models in input order, or
    /// the first error.
    spec fn spec_decode(&self, input: Seq<u8>) -> Result<
        Seq<SpecTransaction>,
        crate::error::SpecParserError,
    >;

    /// The bytes that encoding `records` emits, in input order with no
    /// reordering or deduplication.
    spec fn spec_encode(&self, records: Seq<SpecTransaction>) -> Seq<u8>;

    /// Whether `records` lies within the format's machine limits, so that
    /// encoding it is meaningful.
    spec fn spec_can_encode(&self, records: Seq<SpecTransaction>) -> bool;

    /// The format tag of this parser.
    fn get_using_format_type(&self) -> (t: TransactionsFormatType)
        ensures
            t == self.spec_format_type(),
    ;

    /// Decodes every record of `source`; either the whole source decodes or
    /// an error is returned and no partial result escapes.
    fn from_read(&self, source: &Vec<u8>) -> (r: Result<Vec<Transaction>, ParserError>)
        ensures
            decode_result_view(r) == self.spec_decode(source@),
    ;

    /// Appends the encoding of `data` to `target`, record by record in input
    /// order.
    fn write_to(&self, target: &mut Vec<u8>, data: &Vec<Transaction>) -> (r: Result<
        (),
        ParserError,
    >)
        requires
            self.spec_can_encode(data.deep_view()),
        ensures
            r is Ok,
            final(target)@ == old(target)@ + self.spec_encode(data.deep_view()),
    ;
}

/// Holds when some element of `s` equals `m`.
pub open spec fn tx_in(m: SpecTransaction, s: Seq<SpecTransaction>) -> bool {
    exists|i: int| 0 <= i < s.len() && s[i] == m
}

/// Holds when the two lists contain the same transactions as sets: every
/// element of each list occurs somewhere in the other.  Duplicate counts are
/// not distinguished.
pub open spec fn tx_sets_match(left: Seq<SpecTransaction>, right: Seq<SpecTransaction>) -> bool {
    (forall|i: int| 0 <= i < left.len() ==> tx_in(left[i], right)) && (forall|j: int|
        0 <= j < right.len() ==> tx_in(right[j], left))
}

/// What the comparator returns: the list lengths agree and the lists match as
/// sets.
pub open spec fn spec_compare_tx_sets(
    left: Seq<SpecTransaction>,
    right: Seq<SpecTransaction>,
) -> bool {
    left.len() == right.len() && tx_sets_match(left, right)
}

/// Decides whether some element of `set` equals `tx` on every field.
fn tx_set_contains(set: &Vec<Transaction>, tx: &Transaction) -> (r: bool)
    ensures
        r == tx_in(tx@, set.deep_view()),
{
    let mut i: usize = 0;
    let mut found: bool = false;
    while i < set.len()
        invariant
            0 <= i <= set.len(),
            found == exists|k: int| 0 <= k < i && set.deep_view()[k] == tx@,
        decreases set.len() - i,
    {
        if set[i] == *tx {
            found = true;
            assert(set.deep_view()[i as int] == tx@);
        }
        i = i + 1;
    }
    found
}

/// Decides whether two record lists describe the same transaction set: the
/// lengths must agree and each list's elements must all occur in the other.
/// Duplicates inside one list collapse, so two lists can match as sets while
/// still differing in length.
pub fn compare_tx_sets(left_side: Vec<Transaction>, right_side: Vec<Transaction>) -> (r: bool)
    ensures
        r == spec_compare_tx_sets(left_side.deep_view(), right_side.deep_view()),
{
    let len_eq: bool = left_side.len() == right_side.len();
    let ghost ldv = left_side.deep_view();
    let ghost rdv = right_side.deep_view();

    let mut left_covered: bool = true;
    let mut i: usize = 0;
    while i < left_side.len()
        invariant
            0 <= i <= left_side.len(),
            ldv == left_side.deep_view(),
            rdv == right_side.deep_view(),
            left_covered == (forall|k: int| 0 <= k < i ==> tx_in(ldv[k], rdv)),
        decreases left_side.len() - i,
    {
        let c = tx_set_contains(&right_side, &left_side[i]);
        proof {
            assert(ldv[i as int] == left_side@[i as int]@);
        }
        left_covered = left_covered && c;
        proof {
            if left_covered {
                assert forall|k: int| 0 <= k < i as int + 1 implies tx_in(ldv[k], rdv) by {
                    if k == i as int {
                        assert(tx_in(ldv[k], rdv));
                    }
                }
            }
        }
        i = i + 1;
    }

    let mut right_covered: bool = true;
    let mut j: usize = 0;
    while j < right_side.len()
        invariant
            0 <= j <= right_side.len(),
            ldv == left_side.deep_view(),
            rdv == right_side.deep_view(),
            right_covered == (forall|k: int| 0 <= k < j ==> tx_in(rdv[k], ldv)),
        decreases right_side.len() - j,
    {
        let c = tx_set_contains(&left_side, &right_side[j]);
        proof {
            assert(rdv[j as int] == right_side@[j as int]@);
        }
        right_covered = right_covered && c;
        proof {
            if right_covered {
                assert forall|k: int| 0 <= k < j as int + 1 implies tx_in(rdv[k], ldv) by {
                    if k == j as int {
                        assert(tx_in(rdv[k], ldv));
                    }
                }
            }
        }
        j = j + 1;
    }

    len_eq && left_covered && right_covered
}

/// Comparator symmetry law: comparing two record lists returns the same answer
/// in either order.
pub proof fn lemma_compare_tx_sets_symmetric(
    left: Seq<SpecTransaction>,
    right: Seq<SpecTransaction>,
)
    ensures
        spec_compare_tx_sets(left, right) == spec_compare_tx_sets(right, left),
{
}

/// Comparator reflexivity law: a record list always matches itself.
pub proof fn lemma_compare_tx_sets_reflexive(l: Seq<SpecTransaction>)
    ensures
        spec_compare_tx_sets(l, l),
{
    assert forall|i: int| 0 <= i < l.len() implies tx_in(l[i], l) by {
        assert(0 <= i < l.len() && l[i] == l[i]);
    }
}

/// Comparator duplicate-insensitivity law: a list holding a transaction twice
/// and a list holding it once still match as sets, so the comparator's `false`
/// answer on them is owed to the length mismatch alone.
pub proof fn lemma_compare_tx_sets_duplicates(x: SpecTransaction)
    ensures
        tx_sets_match(seq![x, x], seq![x]),
        !spec_compare_tx_sets(seq![x, x], seq![x]),
{
    let two = seq![x, x];
    let one = seq![x];
    assert(one[0] == x);
    assert forall|i: int| 0 <= i < two.len() implies tx_in(two[i], one) by {
        assert(two[i] == x);
        assert(0 <= 0 < one.len() && one[0] == two[i]);
    }
    assert(0 <= 0 < two.len() && two[0] == one[0]);
}

/// The format tag a selector string stands for; anything unrecognized is
/// the configuration-error sentinel.
pub open spec fn spec_format_of(s: Seq<char>) -> TransactionsFormatType {
    if s == "txt"@ {
        TransactionsFormatType::TXT
    } else if s == "csv"@ {
        TransactionsFormatType::CSV
    } else if s == "bin"@ {
        TransactionsFormatType::BIN
    } else {
        TransactionsFormatType::UNKNOWN
    }
}

/// Reads a format tag from its selector string: `txt`, `csv` or `bin`.
pub fn get_format_value(val: &str) -> (r: TransactionsFormatType)
    ensures
        r == spec_format_of(val@),
{
    let v = crate::chars::str_to_chars(val);
    if crate::chars::chars_eq_str(&v, "txt") {
        TransactionsFormatType::TXT
    } else if crate::chars::chars_eq_str(&v, "csv") {
        TransactionsFormatType::CSV
    } else if crate::chars::chars_eq_str(&v, "bin") {
        TransactionsFormatType::BIN
    } else {
        TransactionsFormatType::UNKNOWN
    }
}

/// Reads the two file names and the two format tags out of a command line:
/// the program name, then the first file, its format, the second format and
/// the second file.  Whether the named files exist or can be created is the
/// caller's business, as is rejecting an unrecognized format tag before
/// calling.
pub fn get_params(args: Vec<String>) -> (params: CliParams)
    requires
        args@.len() >= 5,
        spec_format_of(args@[2]@) != TransactionsFormatType::UNKNOWN,
        spec_format_of(args@[3]@) != TransactionsFormatType::UNKNOWN,
    ensures
        params.first_file_name@ == args@[1]@,
        params.first_file_format == spec_format_of(args@[2]@),
        params.second_file_format == spec_format_of(args@[3]@),
        params.second_file_name@ == args@[4]@,
{
    let mut params = CliParams::new();
    params.first_file_name = args[1].clone();
    params.first_file_format = get_format_value(args[2].as_str());
    params.second_file_format = get_format_value(args[3].as_str());
    params.second_file_name = args[4].clone();
    params
}

/// Selects the parser of a recognized format tag.
pub fn get_parser_for_format(val: TransactionsFormatType) -> (p: FormatParsers)
    requires
        val != TransactionsFormatType::UNKNOWN,
    ensures
        p.spec_format_type() == val,
{
    match val {
        TransactionsFormatType::TXT => FormatParsers::Txt,
        TransactionsFormatType::CSV => FormatParsers::Csv,
        TransactionsFormatType::BIN => FormatParsers::Bin,
        TransactionsFormatType::UNKNOWN => FormatParsers::Txt,
    }
}

impl TransactionsParser for FormatParsers {
    open spec fn spec_format_type(&self) -> TransactionsFormatType {
        match self {
            FormatParsers::Txt => TransactionsFormatType::TXT,
            FormatParsers::Csv => TransactionsFormatType::CSV,
            FormatParsers::Bin => TransactionsFormatType::BIN,
        }
    }

    open spec fn spec_decode(&self, input: Seq<u8>) -> Result<
        Seq<SpecTransaction>,
        crate::error::SpecParserError,
    > {
        match self {
            FormatParsers::Txt => crate::txt_format::spec_txt_decode(input),
            FormatParsers::Csv => crate::csv_format::spec_csv_decode(input),
            FormatParsers::Bin => crate::bin_format::spec_bin_decode(input),
        }
    }

    open spec fn spec_encode(&self, records: Seq<SpecTransaction>) -> Seq<u8> {
        match self {
            FormatParsers::Txt => crate::txt_format::spec_txt_encode(records),
            FormatParsers::Csv => crate::csv_format::spec_csv_encode(records),
            FormatParsers::Bin => crate::bin_format::spec_bin_encode(records),
        }
    }

    open spec fn spec_can_encode(&self, records: Seq<SpecTransaction>) -> bool {
        match self {
            FormatParsers::Txt => true,
            FormatParsers::Csv => true,
            FormatParsers::Bin => forall|i: int|
                0 <= i < records.len() ==> crate::bin_format::spec_frame_fits(
                    #[trigger] records[i],
                ),
        }
    }

    fn get_using_format_type(&self) -> (t: TransactionsFormatType) {
        match self {
            FormatParsers::Txt => (crate::txt_format::TxtParser {}).get_using_format_type(),
            FormatParsers::Csv => (crate::csv_format::CsvParser {}).get_using_format_type(),
            FormatParsers::Bin => (crate::bin_format::BinParser {}).get_using_format_type(),
        }
    }

    fn from_read(&self, source: &Vec<u8>) -> (r: Result<Vec<Transaction>, ParserError>) {
        match self {
            FormatParsers::Txt => (crate::txt_format::TxtParser {}).from_read(source),
            FormatParsers::Csv => (crate::csv_format::CsvParser {}).from_read(source),
            FormatParsers::Bin => (crate::bin_format::BinParser {}).from_read(source),
        }
    }

    fn write_to(&self, target: &mut Vec<u8>, data: &Vec<Transaction>) -> (r: Result<
        (),
        ParserError,
    >) {
        match self {
            FormatParsers::Txt => (crate::txt_format::TxtParser {}).write_to(target, data),
            FormatParsers::Csv => (crate::csv_format::CsvParser {}).write_to(target, data),
            FormatParsers::Bin => (crate::bin_format::BinParser {}).write_to(target, data),
        }
    }
}

/// Holds of a description every one of the three formats can carry
/// faithfully, so that a record list survives any codec unchanged: the
/// text-borne formats perform no escaping, and the binary format counts the
/// description in 32-bit length fields.
pub open spec fn spec_desc_portable(tx: SpecTransaction) -> bool {
    crate::csv_format::csv_desc_ok(tx.description) && crate::txt_format::txt_desc_ok(
        tx.description,
    ) && crate::bin_format::spec_frame_fits(tx)
}

/// Cross-codec equivalence law: writing one record list through any two
/// codecs and decoding each gives two lists that the comparator accepts as
/// the same transaction set.
pub proof fn lemma_cross_codec_equivalence(
    p1: FormatParsers,
    p2: FormatParsers,
    l: Seq<SpecTransaction>,
)
    requires
        forall|i: int| 0 <= i < l.len() ==> spec_desc_portable(#[trigger] l[i]),
    ensures
        p1.spec_decode(p1.spec_encode(l)) == Ok::<
            Seq<SpecTransaction>,
            crate::error::SpecParserError,
        >(l),
        p2.spec_decode(p2.spec_encode(l)) == Ok::<
            Seq<SpecTransaction>,
            crate::error::SpecParserError,
        >(l),
        spec_compare_tx_sets(
            p1.spec_decode(p1.spec_encode(l))->Ok_0,
            p2.spec_decode(p2.spec_encode(l))->Ok_0,
        ),
{
    lemma_one_codec_round_trip(p1, l);
    lemma_one_codec_round_trip(p2, l);
    lemma_compare_tx_sets_reflexive(l);
}

/// Round trip through whichever codec a format tag selects.
pub proof fn lemma_one_codec_round_trip(p: FormatParsers, l: Seq<SpecTransaction>)
    requires
        forall|i: int| 0 <= i < l.len() ==> spec_desc_portable(#[trigger] l[i]),
    ensures
        p.spec_decode(p.spec_encode(l)) == Ok::<
            Seq<SpecTransaction>,
            crate::error::SpecParserError,
        >(l),
        p.spec_can_encode(l),
{
    match p {
        FormatParsers::Txt => {
            assert(forall|i: int|
                0 <= i < l.len() ==> crate::txt_format::txt_desc_ok(
                    (#[trigger] l[i]).description,
                ));
            crate::txt_format::lemma_txt_round_trip(l);
        },
        FormatParsers::Csv => {
            assert(forall|i: int|
                0 <= i < l.len() ==> crate::csv_format::csv_desc_ok(
                    (#[trigger] l[i]).description,
                ));
            crate::csv_format::lemma_csv_round_trip(l);
        },
        FormatParsers::Bin => {
            assert(forall|i: int|
                0 <= i < l.len() ==> crate::bin_format::spec_frame_fits(#[trigger] l[i]));
            crate::bin_format::lemma_bin_round_trip(l);
        },
    }
}

} // verus!
