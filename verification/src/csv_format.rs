//! The comma-separated format.
//!
//! One header line, then one line per record holding the eight fields in a
//! fixed order, the description wrapped in double quotes.  No escaping of
//! embedded commas, quotes or line breaks inside the description is
//! performed: that is a documented limitation of the format, not a defect
//! this codec repairs.

use vstd::prelude::*;
use vstd::utf8::decode_utf8;
use vstd::utf8::encode_utf8;
use vstd::utf8::valid_utf8;

use crate::chars::contains_seq;
use crate::chars::join_term;
use crate::chars::spec_unquote;
use crate::chars::split_char_spec;
use crate::chars::trim_all_spec;
use crate::chars::trim_spec;
use crate::error::ParserError;
use crate::error::SpecParserError;
use crate::numeral::spec_parse_u64;
use crate::numeral::spec_u64_digits;
use crate::spec_parse_status;
use crate::spec_parse_type;
use crate::status_tag;
use crate::type_tag;
use crate::SpecTransaction;
use crate::Transaction;
use crate::TransactionsFormatType;
use crate::TransactionsParser;

verus! {

broadcast use vstd::string::group_string_axioms;

/// Reads and writes the comma-separated format.
#[derive(Default)]
pub struct CsvParser {}

/// The header line, without its terminating line break.
pub open spec fn csv_header_line() -> Seq<char> {
    "TX_ID,TX_TYPE,FROM_USER_ID,TO_USER_ID,AMOUNT,TIMESTAMP,STATUS,DESCRIPTION"@
}

/// One encoded data line, without its terminating line break: the eight
/// fields joined by commas, the description in double quotes.
pub open spec fn spec_csv_line(tx: SpecTransaction) -> Seq<char> {
    spec_u64_digits(tx.tx_id as nat) + seq![','] + type_tag(tx.tx_type) + seq![',']
        + spec_u64_digits(tx.from_user_id as nat) + seq![','] + spec_u64_digits(
        tx.to_user_id as nat,
    ) + seq![','] + spec_u64_digits(tx.amount as nat) + seq![','] + spec_u64_digits(
        tx.timestamp as nat,
    ) + seq![','] + status_tag(tx.status) + seq![','] + seq!['"'] + tx.description + seq!['"']
}

/// The lines a whole encoding writes out: the header, then one line per
/// record, each line terminated by a line break.
pub open spec fn csv_all_lines(records: Seq<SpecTransaction>) -> Seq<Seq<char>> {
    seq![csv_header_line()] + records.map_values(|tx: SpecTransaction| spec_csv_line(tx))
}

/// The character stream of a whole encoding.
pub open spec fn spec_csv_encode_chars(records: Seq<SpecTransaction>) -> Seq<char> {
    join_term(csv_all_lines(records), '\n')
}

/// The byte stream of a whole encoding.
pub open spec fn spec_csv_encode(records: Seq<SpecTransaction>) -> Seq<u8> {
    encode_utf8(spec_csv_encode_chars(records))
}

/// Holds for the lines decoding keeps: nonempty after trimming and not the
/// header line, which is recognized by holding the column name `TX_ID`.
pub open spec fn csv_keep_line(l: Seq<char>) -> bool {
    l.len() > 0 && !contains_seq(l, "TX_ID"@)
}

/// The trimmed data lines of the decoded input, header and blank lines
/// dropped.
pub open spec fn csv_data_lines(ls: Seq<Seq<char>>) -> Seq<Seq<char>>
    decreases ls.len(),
{
    if ls.len() == 0 {
        Seq::<Seq<char>>::empty()
    } else {
        let r = csv_data_lines(ls.drop_last());
        if csv_keep_line(ls.last()) {
            r.push(ls.last())
        } else {
            r
        }
    }
}

/// The trimmed fields of one data line.
pub open spec fn csv_line_fields(l: Seq<char>) -> Seq<Seq<char>> {
    trim_all_spec(split_char_spec(l, ','))
}

/// The record eight parsed fields assemble, if every field parses: the six
/// numerals, the two tags, and the quoted description.
pub open spec fn spec_csv_record(fields: Seq<Seq<char>>) -> Option<SpecTransaction>
    recommends
        fields.len() == 8,
{
    if spec_parse_u64(fields[0]) is Some && spec_parse_type(fields[1]) is Some && spec_parse_u64(
        fields[2],
    ) is Some && spec_parse_u64(fields[3]) is Some && spec_parse_u64(fields[4]) is Some
        && spec_parse_u64(fields[5]) is Some && spec_parse_status(fields[6]) is Some
        && spec_unquote(fields[7]) is Some {
        Some(
            SpecTransaction {
                tx_id: spec_parse_u64(fields[0]).unwrap(),
                tx_type: spec_parse_type(fields[1]).unwrap(),
                from_user_id: spec_parse_u64(fields[2]).unwrap(),
                to_user_id: spec_parse_u64(fields[3]).unwrap(),
                amount: spec_parse_u64(fields[4]).unwrap(),
                timestamp: spec_parse_u64(fields[5]).unwrap(),
                status: spec_parse_status(fields[6]).unwrap(),
                description: spec_unquote(fields[7]).unwrap(),
            },
        )
    } else {
        None
    }
}

/// What one data line at data-line index `idx` decodes to: a wrong field
/// count is the structural error carrying that index, a field that will not
/// parse is a value error carrying it.
pub open spec fn spec_csv_line_result(l: Seq<char>, idx: nat) -> Result<
    SpecTransaction,
    SpecParserError,
> {
    let fields = csv_line_fields(l);
    if fields.len() != 8 {
        Err(SpecParserError::InvalidCSVStructure(idx as usize))
    } else {
        match spec_csv_record(fields) {
            Some(tx) => Ok(tx),
            None => Err(SpecParserError::InvalidValue { tx_numb: idx as usize }),
        }
    }
}

/// What decoding the data lines yields, the first of them being data line
/// number `idx`: the records in order, or the first error.
pub open spec fn spec_csv_parse_lines(ls: Seq<Seq<char>>, idx: nat) -> Result<
    Seq<SpecTransaction>,
    SpecParserError,
>
    decreases ls.len(),
{
    if ls.len() == 0 {
        Ok(Seq::<SpecTransaction>::empty())
    } else {
        match spec_csv_line_result(ls[0], idx) {
            Err(e) => Err(e),
            Ok(tx) => match spec_csv_parse_lines(ls.drop_first(), idx + 1) {
                Ok(rest) => Ok(seq![tx] + rest),
                Err(e) => Err(e),
            },
        }
    }
}

/// What decoding a whole character stream yields.
pub open spec fn spec_csv_decode_chars(s: Seq<char>) -> Result<
    Seq<SpecTransaction>,
    SpecParserError,
> {
    spec_csv_parse_lines(csv_data_lines(trim_all_spec(split_char_spec(s, '\n'))), 0)
}

/// What decoding a whole byte source yields: bytes that are not UTF-8 fail
/// as the read failure they would be, anything else decodes as characters.
pub open spec fn spec_csv_decode(bytes: Seq<u8>) -> Result<
    Seq<SpecTransaction>,
    SpecParserError,
> {
    if !valid_utf8(bytes) {
        Err(SpecParserError::Io)
    } else {
        spec_csv_decode_chars(decode_utf8(bytes))
    }
}

/// Trims each raw line and keeps the data lines, dropping blank lines and
/// the header.
fn collect_data_lines(parts: &Vec<Vec<char>>) -> (r: Vec<Vec<char>>)
    ensures
        r.deep_view() == csv_data_lines(trim_all_spec(parts.deep_view())),
{
    let mut data: Vec<Vec<char>> = Vec::new();
    proof {
        assert(trim_all_spec(parts.deep_view().take(0)) =~= Seq::<Seq<char>>::empty());
        assert(data.deep_view() =~~= csv_data_lines(trim_all_spec(parts.deep_view().take(0))));
    }
    let mut j: usize = 0;
    while j < parts.len()
        invariant
            0 <= j <= parts@.len(),
            parts.deep_view().len() == parts@.len(),
            data.deep_view() == csv_data_lines(trim_all_spec(parts.deep_view().take(j as int))),
        decreases parts@.len() - j,
    {
        let t = crate::chars::trim_chars(&parts[j]);
        proof {
            assert(parts.deep_view()[j as int] == parts@[j as int]@);
            assert(trim_all_spec(parts.deep_view().take(j as int + 1)) =~~= trim_all_spec(
                parts.deep_view().take(j as int),
            ).push(t@));
        }
        proof {
            assert(trim_all_spec(parts.deep_view().take(j as int + 1)).drop_last()
                =~= trim_all_spec(parts.deep_view().take(j as int)));
            assert(trim_all_spec(parts.deep_view().take(j as int + 1)).last() == t@);
        }
        let keep = if t.len() == 0 {
            false
        } else {
            !crate::chars::contains_chars(&t, "TX_ID")
        };
        proof {
            assert(keep == csv_keep_line(t@));
        }
        let ghost before = data.deep_view();
        if keep {
            data.push(t);
            proof {
                assert(data.deep_view() =~~= before.push(
                    trim_all_spec(parts.deep_view().take(j as int + 1)).last(),
                ));
            }
        }
        j = j + 1;
    }
    proof {
        assert(parts.deep_view().take(parts.deep_view().len() as int) =~= parts.deep_view());
    }
    data
}

/// Decodes one data line at data-line index `idx`.
fn parse_csv_data_line(line: &Vec<char>, idx: usize) -> (r: Result<Transaction, ParserError>)
    ensures
        match r {
            Ok(tx) => spec_csv_line_result(line@, idx as nat) == Ok::<
                SpecTransaction,
                SpecParserError,
            >(tx@),
            Err(e) => spec_csv_line_result(line@, idx as nat) == Err::<
                SpecTransaction,
                SpecParserError,
            >(e@),
        },
{
    let raw = crate::chars::split_char(line, ',');
    let fields = crate::chars::trim_all(&raw);
    let ghost fs = csv_line_fields(line@);
    proof {
        assert(fields.deep_view() == fs);
    }
    if fields.len() != 8 {
        return Err(ParserError::InvalidCSVStructure(idx));
    }
    proof {
        assert(fields.deep_view()[0] == fields@[0]@);
        assert(fields.deep_view()[1] == fields@[1]@);
        assert(fields.deep_view()[2] == fields@[2]@);
        assert(fields.deep_view()[3] == fields@[3]@);
        assert(fields.deep_view()[4] == fields@[4]@);
        assert(fields.deep_view()[5] == fields@[5]@);
        assert(fields.deep_view()[6] == fields@[6]@);
        assert(fields.deep_view()[7] == fields@[7]@);
    }
    let tx_id = match crate::numeral::parse_u64_chars(&fields[0]) {
        None => {
            return Err(ParserError::InvalidValue { tx_numb: idx });
        },
        Some(v) => v,
    };
    let tx_type = match crate::parse_type_chars(&fields[1]) {
        None => {
            return Err(ParserError::InvalidValue { tx_numb: idx });
        },
        Some(v) => v,
    };
    let from_user_id = match crate::numeral::parse_u64_chars(&fields[2]) {
        None => {
            return Err(ParserError::InvalidValue { tx_numb: idx });
        },
        Some(v) => v,
    };
    let to_user_id = match crate::numeral::parse_u64_chars(&fields[3]) {
        None => {
            return Err(ParserError::InvalidValue { tx_numb: idx });
        },
        Some(v) => v,
    };
    let amount = match crate::numeral::parse_u64_chars(&fields[4]) {
        None => {
            return Err(ParserError::InvalidValue { tx_numb: idx });
        },
        Some(v) => v,
    };
    let timestamp = match crate::numeral::parse_u64_chars(&fields[5]) {
        None => {
            return Err(ParserError::InvalidValue { tx_numb: idx });
        },
        Some(v) => v,
    };
    let status = match crate::parse_status_chars(&fields[6]) {
        None => {
            return Err(ParserError::InvalidValue { tx_numb: idx });
        },
        Some(v) => v,
    };
    let dq = match crate::chars::unquote_chars(&fields[7]) {
        None => {
            return Err(ParserError::InvalidValue { tx_numb: idx });
        },
        Some(v) => v,
    };
    let description = crate::chars::chars_to_string(&dq);
    let tx = Transaction { tx_id, tx_type, from_user_id, to_user_id, amount, timestamp, status, description };
    proof {
        assert(spec_csv_record(fs) is Some);
        assert(tx@ =~= spec_csv_record(fs).unwrap());
    }
    Ok(tx)
}

/// One encoded data line of `tx`, without its line break.
fn csv_line_chars(tx: &Transaction) -> (v: Vec<char>)
    ensures
        v@ == spec_csv_line(tx@),
{
    let mut v: Vec<char> = Vec::new();
    let mut piece = crate::numeral::u64_to_digits(tx.tx_id);
    v.append(&mut piece);
    v.push(',');
    let mut piece = crate::type_tag_chars(&tx.tx_type);
    v.append(&mut piece);
    v.push(',');
    let mut piece = crate::numeral::u64_to_digits(tx.from_user_id);
    v.append(&mut piece);
    v.push(',');
    let mut piece = crate::numeral::u64_to_digits(tx.to_user_id);
    v.append(&mut piece);
    v.push(',');
    let mut piece = crate::numeral::u64_to_digits(tx.amount);
    v.append(&mut piece);
    v.push(',');
    let mut piece = crate::numeral::u64_to_digits(tx.timestamp);
    v.append(&mut piece);
    v.push(',');
    let mut piece = crate::status_tag_chars(&tx.status);
    v.append(&mut piece);
    v.push(',');
    v.push('"');
    let mut piece = crate::chars::str_to_chars(tx.description.as_str());
    v.append(&mut piece);
    v.push('"');
    proof {
        assert(v@ =~= spec_csv_line(tx@));
    }
    v
}

impl TransactionsParser for CsvParser {
    open spec fn spec_format_type(&self) -> TransactionsFormatType {
        TransactionsFormatType::CSV
    }

    open spec fn spec_decode(&self, input: Seq<u8>) -> Result<
        Seq<SpecTransaction>,
        SpecParserError,
    > {
        spec_csv_decode(input)
    }

    open spec fn spec_encode(&self, records: Seq<SpecTransaction>) -> Seq<u8> {
        spec_csv_encode(records)
    }

    open spec fn spec_can_encode(&self, records: Seq<SpecTransaction>) -> bool {
        true
    }

    fn get_using_format_type(&self) -> (t: TransactionsFormatType) {
        TransactionsFormatType::CSV
    }

    fn from_read(&self, source: &Vec<u8>) -> (r: Result<Vec<Transaction>, ParserError>) {
        let bytes = vstd::slice::slice_to_vec(source.as_slice());
        proof {
            assert(bytes@ =~= source@);
        }
        let s = match crate::chars::string_from_utf8(bytes) {
            None => {
                return Err(ParserError::Io);
            },
            Some(s) => s,
        };
        let chars = crate::chars::str_to_chars(s.as_str());
        let parts = crate::chars::split_char(&chars, '\n');
        let data = collect_data_lines(&parts);
        let ghost dl = data.deep_view();
        proof {
            assert(spec_csv_decode(source@) == spec_csv_parse_lines(dl, 0));
            assert(dl.skip(0) =~= dl);
        }
        let mut acc: Vec<Transaction> = Vec::new();
        proof {
            assert(acc.deep_view() =~= Seq::<SpecTransaction>::empty());
        }
        let mut k: usize = 0;
        while k < data.len()
            invariant
                0 <= k <= data@.len(),
                dl == data.deep_view(),
                dl.len() == data@.len(),
                acc@.len() == k,
                acc.deep_view().len() == k,
                spec_csv_decode(source@) == spec_csv_parse_lines(dl, 0),
                spec_csv_parse_lines(dl, 0) == crate::prepend_records(
                    acc.deep_view(),
                    spec_csv_parse_lines(dl.skip(k as int), k as nat),
                ),
            decreases data@.len() - k,
        {
            let ghost suffix = dl.skip(k as int);
            proof {
                assert(suffix[0] == dl[k as int]);
                assert(dl[k as int] == data@[k as int]@);
                assert(suffix.drop_first() =~= dl.skip(k as int + 1));
            }
            match parse_csv_data_line(&data[k], k) {
                Err(e) => {
                    proof {
                        assert(spec_csv_parse_lines(suffix, k as nat) == Err::<
                            Seq<SpecTransaction>,
                            SpecParserError,
                        >(e@));
                    }
                    return Err(e);
                },
                Ok(tx) => {
                    let ghost old_acc = acc.deep_view();
                    let ghost spec_tx = tx@;
                    acc.push(tx);
                    proof {
                        assert(acc.deep_view() =~~= old_acc.push(spec_tx));
                        let next = spec_csv_parse_lines(dl.skip(k as int + 1), k as nat + 1);
                        assert(spec_csv_parse_lines(suffix, k as nat) == match next {
                            Ok(rest) => Ok::<Seq<SpecTransaction>, SpecParserError>(
                                seq![spec_tx] + rest,
                            ),
                            Err(e) => Err(e),
                        });
                        match next {
                            Ok(r2) => {
                                assert(old_acc + (seq![spec_tx] + r2) =~= old_acc.push(spec_tx)
                                    + r2);
                            },
                            Err(_) => {},
                        }
                    }
                    k = k + 1;
                },
            }
        }
        proof {
            assert(dl.skip(dl.len() as int) =~= Seq::<Seq<char>>::empty());
            assert(acc.deep_view() + Seq::<SpecTransaction>::empty() =~= acc.deep_view());
        }
        Ok(acc)
    }

    fn write_to(&self, target: &mut Vec<u8>, data: &Vec<Transaction>) -> (r: Result<
        (),
        ParserError,
    >) {
        let ghost dv = data.deep_view();
        let mut out: Vec<char> = crate::chars::str_to_chars(
            "TX_ID,TX_TYPE,FROM_USER_ID,TO_USER_ID,AMOUNT,TIMESTAMP,STATUS,DESCRIPTION",
        );
        out.push('\n');
        proof {
            reveal_with_fuel(join_term, 2);
            assert(csv_all_lines(dv.take(0)) =~= seq![csv_header_line()]);
            assert(seq![csv_header_line()].drop_last() =~= Seq::<Seq<char>>::empty());
            assert(join_term(csv_all_lines(dv.take(0)), '\n') =~= csv_header_line()
                + seq!['\n']);
            assert(out@ =~= join_term(csv_all_lines(dv.take(0)), '\n'));
        }
        let mut i: usize = 0;
        while i < data.len()
            invariant
                0 <= i <= data@.len(),
                dv == data.deep_view(),
                dv.len() == data@.len(),
                out@ == join_term(csv_all_lines(dv.take(i as int)), '\n'),
            decreases data@.len() - i,
        {
            let mut line = csv_line_chars(&data[i]);
            let ghost line_view = line@;
            proof {
                assert(dv[i as int] == data@[i as int]@);
            }
            out.append(&mut line);
            out.push('\n');
            proof {
                assert(csv_all_lines(dv.take(i as int + 1)) =~= csv_all_lines(
                    dv.take(i as int),
                ).push(line_view));
                assert(csv_all_lines(dv.take(i as int + 1)).drop_last() =~= csv_all_lines(
                    dv.take(i as int),
                ));
                assert(out@ =~= join_term(csv_all_lines(dv.take(i as int + 1)), '\n'));
            }
            i = i + 1;
        }
        proof {
            assert(dv.take(dv.len() as int) =~= dv);
        }
        let s = crate::chars::chars_to_string(&out);
        let mut b = s.as_str().as_bytes_vec();
        target.append(&mut b);
        proof {
            assert(target@ =~= old(target)@ + spec_csv_encode(dv));
        }
        Ok(())
    }
}

/// Parsing the written tag of a transaction kind yields the kind back.
pub proof fn lemma_parse_type_tag(t: crate::TransactionType)
    ensures
        spec_parse_type(type_tag(t)) == Some(t),
{
    reveal_strlit("DEPOSIT");
    reveal_strlit("TRANSFER");
    reveal_strlit("WITHDRAWAL");
    reveal_strlit("EMPTY");
    assert("DEPOSIT"@.len() == 7);
    assert("TRANSFER"@.len() == 8);
    assert("WITHDRAWAL"@.len() == 10);
    assert("EMPTY"@.len() == 5);
}

/// Parsing the written tag of a transaction status yields the status back.
pub proof fn lemma_parse_status_tag(st: crate::TransactionStatus)
    ensures
        spec_parse_status(status_tag(st)) == Some(st),
{
    reveal_strlit("SUCCESS");
    reveal_strlit("FAILURE");
    reveal_strlit("PENDING");
    reveal_strlit("EMPTY");
    assert("SUCCESS"@.len() == 7);
    assert("FAILURE"@.len() == 7);
    assert("PENDING"@.len() == 7);
    assert("EMPTY"@.len() == 5);
    assert("SUCCESS"@[0] == 'S');
    assert("FAILURE"@[0] == 'F');
    assert("PENDING"@[0] == 'P');
}

/// Holds for the characters a data line is made of ahead of the quoted
/// description: digits, commas and uppercase tag letters.
spec fn csv_head_char_ok(c: char) -> bool {
    crate::numeral::is_digit_char(c) || c == ',' || crate::chars::is_upper_char(c)
}

/// Holds when every character of `s` satisfies [`csv_head_char_ok`].
spec fn all_head_chars(s: Seq<char>) -> bool {
    forall|i: int| 0 <= i < s.len() ==> csv_head_char_ok(#[trigger] s[i])
}

/// Head characters are closed under concatenation.
proof fn lemma_head_concat(a: Seq<char>, b: Seq<char>)
    requires
        all_head_chars(a),
        all_head_chars(b),
    ensures
        all_head_chars(a + b),
{
    assert forall|i: int| 0 <= i < (a + b).len() implies csv_head_char_ok(#[trigger] (a + b)[i]) by {
        if i < a.len() {
            assert((a + b)[i] == a[i]);
        } else {
            assert((a + b)[i] == b[i - a.len()]);
        }
    }
}

/// The digits of a numeral are head characters.
proof fn lemma_digits_head(n: nat)
    ensures
        all_head_chars(spec_u64_digits(n)),
{
    crate::numeral::lemma_u64_digits_correct(n);
}

/// Everything a data line writes ahead of the quoted description.
spec fn csv_line_head(tx: SpecTransaction) -> Seq<char> {
    spec_u64_digits(tx.tx_id as nat) + seq![','] + type_tag(tx.tx_type) + seq![',']
        + spec_u64_digits(tx.from_user_id as nat) + seq![','] + spec_u64_digits(
        tx.to_user_id as nat,
    ) + seq![','] + spec_u64_digits(tx.amount as nat) + seq![','] + spec_u64_digits(
        tx.timestamp as nat,
    ) + seq![','] + status_tag(tx.status) + seq![',']
}

/// A data line is its head, then the description in double quotes; the head
/// is a nonempty run of head characters opening with a digit.
proof fn lemma_csv_line_shape(tx: SpecTransaction)
    ensures
        spec_csv_line(tx) == csv_line_head(tx) + seq!['"'] + tx.description + seq!['"'],
        all_head_chars(csv_line_head(tx)),
        csv_line_head(tx).len() >= 1,
        crate::numeral::is_digit_char(csv_line_head(tx)[0]),
{
    let h = csv_line_head(tx);
    assert(spec_csv_line(tx) =~= h + seq!['"'] + tx.description + seq!['"']);
    lemma_digits_head(tx.tx_id as nat);
    lemma_digits_head(tx.from_user_id as nat);
    lemma_digits_head(tx.to_user_id as nat);
    lemma_digits_head(tx.amount as nat);
    lemma_digits_head(tx.timestamp as nat);
    crate::lemma_type_tag_chars(tx.tx_type);
    crate::lemma_status_tag_chars(tx.status);
    assert(all_head_chars(seq![','])) by {
        assert(seq![','][0] == ',');
    }
    assert(all_head_chars(type_tag(tx.tx_type))) by {
        assert(forall|i: int|
            0 <= i < type_tag(tx.tx_type).len() ==> crate::chars::is_upper_char(
                #[trigger] type_tag(tx.tx_type)[i],
            ));
    }
    assert(all_head_chars(status_tag(tx.status))) by {
        assert(forall|i: int|
            0 <= i < status_tag(tx.status).len() ==> crate::chars::is_upper_char(
                #[trigger] status_tag(tx.status)[i],
            ));
    }
    lemma_head_concat(spec_u64_digits(tx.tx_id as nat), seq![',']);
    let p1 = spec_u64_digits(tx.tx_id as nat) + seq![','];
    lemma_head_concat(p1, type_tag(tx.tx_type));
    let p2 = p1 + type_tag(tx.tx_type);
    lemma_head_concat(p2, seq![',']);
    let p3 = p2 + seq![','];
    lemma_head_concat(p3, spec_u64_digits(tx.from_user_id as nat));
    let p4 = p3 + spec_u64_digits(tx.from_user_id as nat);
    lemma_head_concat(p4, seq![',']);
    let p5 = p4 + seq![','];
    lemma_head_concat(p5, spec_u64_digits(tx.to_user_id as nat));
    let p6 = p5 + spec_u64_digits(tx.to_user_id as nat);
    lemma_head_concat(p6, seq![',']);
    let p7 = p6 + seq![','];
    lemma_head_concat(p7, spec_u64_digits(tx.amount as nat));
    let p8 = p7 + spec_u64_digits(tx.amount as nat);
    lemma_head_concat(p8, seq![',']);
    let p9 = p8 + seq![','];
    lemma_head_concat(p9, spec_u64_digits(tx.timestamp as nat));
    let p10 = p9 + spec_u64_digits(tx.timestamp as nat);
    lemma_head_concat(p10, seq![',']);
    let p11 = p10 + seq![','];
    lemma_head_concat(p11, status_tag(tx.status));
    let p12 = p11 + status_tag(tx.status);
    lemma_head_concat(p12, seq![',']);
    assert(h =~= p12 + seq![',']);
    assert(h[0] == spec_u64_digits(tx.tx_id as nat)[0]);
    crate::numeral::lemma_u64_digits_correct(tx.tx_id as nat);
}

/// Holds of a description the comma-separated format can carry faithfully:
/// no comma, line break or double quote — the format performs no escaping —
/// and not the header's column name, which would make the line look like a
/// header on the way back.
pub open spec fn csv_desc_ok(d: Seq<char>) -> bool {
    !d.contains(',') && !d.contains('\n') && !d.contains('"') && !contains_seq(d, "TX_ID"@)
}

/// An encoded data line never carries the header's column name.
#[verifier::rlimit(60)]
proof fn lemma_csv_line_not_header(tx: SpecTransaction)
    requires
        !contains_seq(tx.description, "TX_ID"@),
    ensures
        !contains_seq(spec_csv_line(tx), "TX_ID"@),
{
    reveal_strlit("TX_ID");
    lemma_csv_line_shape(tx);
    let l = spec_csv_line(tx);
    let h = csv_line_head(tx);
    let d = tx.description;
    let q1 = h.len() as int;
    let q2 = q1 + 1 + d.len() as int;
    assert(l.len() == q2 + 1);
    assert(l[q1] == '"');
    assert(l[q2] == '"');
    assert(forall|p: int| 0 <= p < q1 ==> l[p] == h[p]);
    assert(forall|p: int| q1 < p < q2 ==> l[p] == d[p - q1 - 1]);
    assert forall|i: int|
        0 <= i && i + "TX_ID"@.len() <= l.len() implies #[trigger] l.subrange(
        i,
        i + "TX_ID"@.len(),
    ) != "TX_ID"@ by {
        if l.subrange(i, i + "TX_ID"@.len()) == "TX_ID"@ {
            assert(l.subrange(i, i + 5)[2] == "TX_ID"@[2]);
            assert(l[i + 2] == '_');
            assert('_' as u32 == 95);
            if i + 2 < q1 {
                assert(csv_head_char_ok(h[i + 2]));
                assert(false);
            } else if i + 2 == q1 || i + 2 == q2 {
                assert(false);
            } else {
                assert(q1 < i + 2 < q2);
                if i <= q1 {
                    assert(l[q1] == l.subrange(i, i + 5)[q1 - i]);
                    assert(l.subrange(i, i + 5)[q1 - i] == "TX_ID"@[q1 - i]);
                    assert(false);
                } else if i + 5 > q2 {
                    assert(l[q2] == l.subrange(i, i + 5)[q2 - i]);
                    assert(l.subrange(i, i + 5)[q2 - i] == "TX_ID"@[q2 - i]);
                    assert(false);
                } else {
                    assert(l.subrange(i, i + 5) =~= d.subrange(i - q1 - 1, i - q1 - 1 + 5));
                    assert(d.subrange(i - q1 - 1, (i - q1 - 1) + "TX_ID"@.len() as int)
                        == "TX_ID"@);
                    assert(contains_seq(d, "TX_ID"@));
                    assert(false);
                }
            }
        }
    }
}

/// An encoded data line holds no line break when its description holds
/// none.
proof fn lemma_csv_line_no_newline(tx: SpecTransaction)
    requires
        !tx.description.contains('\n'),
    ensures
        !spec_csv_line(tx).contains('\n'),
{
    lemma_csv_line_shape(tx);
    let l = spec_csv_line(tx);
    let h = csv_line_head(tx);
    let d = tx.description;
    let q1 = h.len() as int;
    let q2 = q1 + 1 + d.len() as int;
    if l.contains('\n') {
        let p = choose|p: int| 0 <= p < l.len() && l[p] == '\n';
        if p < q1 {
            assert(l[p] == h[p]);
            assert(csv_head_char_ok(h[p]));
        } else if p == q1 || p == q2 {
        } else {
            assert(l[p] == d[p - q1 - 1]);
            assert(d.contains('\n'));
        }
    }
}

/// An encoded data line is nonempty and survives trimming unchanged.
proof fn lemma_csv_line_clean(tx: SpecTransaction)
    ensures
        spec_csv_line(tx).len() > 0,
        trim_spec(spec_csv_line(tx)) == spec_csv_line(tx),
{
    lemma_csv_line_shape(tx);
    let l = spec_csv_line(tx);
    let h = csv_line_head(tx);
    assert(l[0] == h[0]);
    assert(l.last() == '"');
    crate::chars::lemma_trim_clean(l);
}

/// The eight fields an encoded data line splits back into.
#[verifier::rlimit(60)]
proof fn lemma_csv_line_fields(tx: SpecTransaction)
    requires
        !tx.description.contains(','),
    ensures
        csv_line_fields(spec_csv_line(tx)) == seq![
            spec_u64_digits(tx.tx_id as nat),
            type_tag(tx.tx_type),
            spec_u64_digits(tx.from_user_id as nat),
            spec_u64_digits(tx.to_user_id as nat),
            spec_u64_digits(tx.amount as nat),
            spec_u64_digits(tx.timestamp as nat),
            status_tag(tx.status),
            seq!['"'] + tx.description + seq!['"'],
        ],
{
    reveal_with_fuel(join_term, 8);
    let f0 = spec_u64_digits(tx.tx_id as nat);
    let f1 = type_tag(tx.tx_type);
    let f2 = spec_u64_digits(tx.from_user_id as nat);
    let f3 = spec_u64_digits(tx.to_user_id as nat);
    let f4 = spec_u64_digits(tx.amount as nat);
    let f5 = spec_u64_digits(tx.timestamp as nat);
    let f6 = status_tag(tx.status);
    let f7 = seq!['"'] + tx.description + seq!['"'];
    let head7 = seq![f0, f1, f2, f3, f4, f5, f6];
    assert(join_term(head7, ',') =~= f0 + seq![','] + f1 + seq![','] + f2 + seq![','] + f3
        + seq![','] + f4 + seq![','] + f5 + seq![','] + f6 + seq![',']) by {
        assert(head7.drop_last() =~= seq![f0, f1, f2, f3, f4, f5]);
        assert(seq![f0, f1, f2, f3, f4, f5].drop_last() =~= seq![f0, f1, f2, f3, f4]);
        assert(seq![f0, f1, f2, f3, f4].drop_last() =~= seq![f0, f1, f2, f3]);
        assert(seq![f0, f1, f2, f3].drop_last() =~= seq![f0, f1, f2]);
        assert(seq![f0, f1, f2].drop_last() =~= seq![f0, f1]);
        assert(seq![f0, f1].drop_last() =~= seq![f0]);
        assert(seq![f0].drop_last() =~= Seq::<Seq<char>>::empty());
    }
    assert(spec_csv_line(tx) =~= join_term(head7, ',') + f7);
    crate::numeral::lemma_u64_digits_correct(tx.tx_id as nat);
    crate::numeral::lemma_u64_digits_correct(tx.from_user_id as nat);
    crate::numeral::lemma_u64_digits_correct(tx.to_user_id as nat);
    crate::numeral::lemma_u64_digits_correct(tx.amount as nat);
    crate::numeral::lemma_u64_digits_correct(tx.timestamp as nat);
    crate::lemma_type_tag_chars(tx.tx_type);
    crate::lemma_status_tag_chars(tx.status);
    assert forall|j: int| 0 <= j < head7.len() implies !(#[trigger] head7[j]).contains(',') by {
        let fj = head7[j];
        if fj.contains(',') {
            let p = choose|p: int| 0 <= p < fj.len() && fj[p] == ',';
            if j == 0 || j == 2 || j == 3 || j == 4 || j == 5 {
                assert(crate::numeral::is_digit_char(fj[p]));
            } else {
                assert(crate::chars::is_upper_char(fj[p]));
            }
        }
    }
    crate::chars::lemma_split_join(head7, ',');
    assert(!f7.contains(',')) by {
        if f7.contains(',') {
            let p = choose|p: int| 0 <= p < f7.len() && f7[p] == ',';
            if p == 0 || p == f7.len() - 1 {
            } else {
                assert(f7[p] == tx.description[p - 1]);
                assert(tx.description.contains(','));
            }
        }
    }
    crate::chars::lemma_split_append_free(join_term(head7, ','), f7, ',');
    let r = split_char_spec(join_term(head7, ','), ',');
    assert(r == head7.push(Seq::<char>::empty()));
    assert(r.last() == Seq::<char>::empty());
    assert(r.last() + f7 =~= f7);
    assert(split_char_spec(spec_csv_line(tx), ',') =~~= head7.push(f7));
    // each field is its own trim
    crate::numeral::lemma_u64_digits_correct(tx.tx_id as nat);
    assert forall|j: int| 0 <= j < head7.push(f7).len() implies trim_spec(
        #[trigger] head7.push(f7)[j],
    ) == head7.push(f7)[j] by {
        let fj = head7.push(f7)[j];
        if j < 7 {
            assert(fj == head7[j]);
            if j == 0 || j == 2 || j == 3 || j == 4 || j == 5 {
                assert(crate::numeral::is_digit_char(fj[0]));
                assert(crate::numeral::is_digit_char(fj[fj.len() - 1]));
            } else {
                assert(crate::chars::is_upper_char(fj[0]));
                assert(crate::chars::is_upper_char(fj[fj.len() - 1]));
            }
            crate::chars::lemma_trim_clean(fj);
        } else {
            assert(fj == f7);
            assert(f7[0] == '"');
            assert(f7.last() == '"');
            crate::chars::lemma_trim_clean(f7);
        }
    }
    assert(csv_line_fields(spec_csv_line(tx)) =~~= head7.push(f7));
    assert(head7.push(f7) =~~= seq![f0, f1, f2, f3, f4, f5, f6, f7]);
}

/// What one encoded data line decodes to: the record it was written from.
proof fn lemma_csv_line_roundtrip(tx: SpecTransaction, idx: nat)
    requires
        csv_desc_ok(tx.description),
    ensures
        spec_csv_line_result(spec_csv_line(tx), idx) == Ok::<SpecTransaction, SpecParserError>(tx),
{
    lemma_csv_line_fields(tx);
    let fields = csv_line_fields(spec_csv_line(tx));
    crate::numeral::lemma_parse_u64_digits(tx.tx_id);
    crate::numeral::lemma_parse_u64_digits(tx.from_user_id);
    crate::numeral::lemma_parse_u64_digits(tx.to_user_id);
    crate::numeral::lemma_parse_u64_digits(tx.amount);
    crate::numeral::lemma_parse_u64_digits(tx.timestamp);
    lemma_parse_type_tag(tx.tx_type);
    lemma_parse_status_tag(tx.status);
    crate::chars::lemma_unquote_quoted(tx.description);
    assert(spec_csv_record(fields) == Some(tx)) by {
        assert(spec_csv_record(fields).unwrap() =~= tx);
    }
}

/// Lines that decoding keeps pass the filter unchanged, behind any prefix.
proof fn lemma_data_lines_kept(pre: Seq<Seq<char>>, ls: Seq<Seq<char>>)
    requires
        forall|i: int| 0 <= i < ls.len() ==> csv_keep_line(#[trigger] ls[i]),
    ensures
        csv_data_lines(pre + ls) == csv_data_lines(pre) + ls,
    decreases ls.len(),
{
    if ls.len() == 0 {
        assert(pre + ls =~= pre);
        assert(csv_data_lines(pre) + ls =~= csv_data_lines(pre));
    } else {
        let l0 = ls.drop_last();
        assert(forall|i: int| 0 <= i < l0.len() ==> csv_keep_line(#[trigger] l0[i])) by {
            assert(forall|i: int| 0 <= i < l0.len() ==> l0[i] == ls[i]);
        }
        lemma_data_lines_kept(pre, l0);
        assert((pre + ls).drop_last() =~= pre + l0);
        assert((pre + ls).last() == ls.last());
        assert(csv_keep_line(ls.last())) by {
            assert(ls[ls.len() - 1] == ls.last());
        }
        assert(csv_data_lines(pre + ls) == (csv_data_lines(pre) + l0).push(ls.last()));
        assert((csv_data_lines(pre) + l0).push(ls.last()) =~~= csv_data_lines(pre) + ls);
    }
}

/// Decoding the encoded data lines yields the records back, wherever in the
/// data-line count they start.
proof fn lemma_csv_parse_encoded(l: Seq<SpecTransaction>, idx: nat)
    requires
        forall|i: int| 0 <= i < l.len() ==> csv_desc_ok((#[trigger] l[i]).description),
    ensures
        spec_csv_parse_lines(l.map_values(|tx: SpecTransaction| spec_csv_line(tx)), idx) == Ok::<
            Seq<SpecTransaction>,
            SpecParserError,
        >(l),
    decreases l.len(),
{
    let ls = l.map_values(|tx: SpecTransaction| spec_csv_line(tx));
    if l.len() == 0 {
        assert(ls.len() == 0);
        assert(l =~= Seq::<SpecTransaction>::empty());
    } else {
        assert(ls[0] == spec_csv_line(l[0]));
        lemma_csv_line_roundtrip(l[0], idx);
        let tl = l.drop_first();
        assert(forall|i: int| 0 <= i < tl.len() ==> csv_desc_ok((#[trigger] tl[i]).description))
            by {
            assert(forall|i: int| 0 <= i < tl.len() ==> tl[i] == l[i + 1]);
        }
        lemma_csv_parse_encoded(tl, idx + 1);
        assert(ls.drop_first() =~~= tl.map_values(|tx: SpecTransaction| spec_csv_line(tx)));
        assert(seq![l[0]] + tl =~= l);
    }
}

/// What the header line looks like to the decoding pipeline.
#[verifier::rlimit(100)]
proof fn lemma_csv_header_facts()
    ensures
        csv_header_line().len() == 73,
        !csv_header_line().contains('\n'),
        trim_spec(csv_header_line()) == csv_header_line(),
        contains_seq(csv_header_line(), "TX_ID"@),
{
    reveal_strlit("TX_ID");
    reveal_strlit("TX_ID,TX_TYPE,FROM_USER_ID,TO_USER_ID,AMOUNT,TIMESTAMP,STATUS,DESCRIPTION");
    let hdr = csv_header_line();
    assert(hdr.len() == 73);
    if hdr.contains('\n') {
        let p = choose|p: int| 0 <= p < hdr.len() && hdr[p] == '\n';
    }
    assert(hdr[0] == 'T');
    assert(hdr.last() == 'N');
    crate::chars::lemma_trim_clean(hdr);
    assert(hdr.subrange(0, 0 + "TX_ID"@.len() as int) =~= "TX_ID"@);
}

/// The decoding pipeline recovers exactly the encoded data lines from the
/// character stream an encoding writes.
#[verifier::rlimit(100)]
proof fn lemma_csv_stream_lines(l: Seq<SpecTransaction>)
    requires
        forall|i: int| 0 <= i < l.len() ==> csv_desc_ok((#[trigger] l[i]).description),
    ensures
        csv_data_lines(trim_all_spec(split_char_spec(spec_csv_encode_chars(l), '\n')))
            == l.map_values(|tx: SpecTransaction| spec_csv_line(tx)),
{
    lemma_csv_header_facts();
    let hdr = csv_header_line();
    let lines = l.map_values(|tx: SpecTransaction| spec_csv_line(tx));
    let all = csv_all_lines(l);
    assert forall|j: int| 0 <= j < all.len() implies !(#[trigger] all[j]).contains('\n') by {
        if j == 0 {
            assert(all[0] == hdr);
        } else {
            assert(all[j] == spec_csv_line(l[j - 1]));
            lemma_csv_line_no_newline(l[j - 1]);
        }
    }
    crate::chars::lemma_split_join(all, '\n');
    assert(split_char_spec(spec_csv_encode_chars(l), '\n') == all.push(Seq::<char>::empty()));
    let trimmed = trim_all_spec(all.push(Seq::<char>::empty()));
    assert(trimmed =~~= all.push(Seq::<char>::empty())) by {
        assert forall|j: int| 0 <= j < all.push(Seq::<char>::empty()).len() implies trim_all_spec(
            all.push(Seq::<char>::empty()),
        )[j] == all.push(Seq::<char>::empty())[j] by {
            let e = all.push(Seq::<char>::empty())[j];
            if j < all.len() {
                if j == 0 {
                    assert(e == hdr);
                } else {
                    assert(e == spec_csv_line(l[j - 1]));
                    lemma_csv_line_clean(l[j - 1]);
                }
            } else {
                assert(e =~= Seq::<char>::empty());
                assert(trim_spec(e) == e);
            }
        }
    }
    assert forall|i: int| 0 <= i < lines.len() implies csv_keep_line(#[trigger] lines[i]) by {
        assert(lines[i] == spec_csv_line(l[i]));
        lemma_csv_line_clean(l[i]);
        lemma_csv_line_not_header(l[i]);
    }
    reveal_with_fuel(csv_data_lines, 3);
    assert(all.push(Seq::<char>::empty()).drop_last() =~= all);
    assert(!csv_keep_line(Seq::<char>::empty()));
    assert(csv_data_lines(all.push(Seq::<char>::empty())) == csv_data_lines(all));
    assert(all =~= seq![hdr] + lines);
    lemma_data_lines_kept(seq![hdr], lines);
    assert(seq![hdr].drop_last() =~= Seq::<Seq<char>>::empty());
    assert(!csv_keep_line(hdr));
    assert(csv_data_lines(seq![hdr]) =~~= Seq::<Seq<char>>::empty());
    assert(csv_data_lines(all) =~~= lines);
}

/// Round-trip law for the comma-separated codec: decoding an encoded record
/// list yields the list back, for any list whose descriptions the format
/// can carry faithfully.
pub proof fn lemma_csv_round_trip(l: Seq<SpecTransaction>)
    requires
        forall|i: int| 0 <= i < l.len() ==> csv_desc_ok((#[trigger] l[i]).description),
    ensures
        spec_csv_decode(spec_csv_encode(l)) == Ok::<Seq<SpecTransaction>, SpecParserError>(l),
{
    let chars = spec_csv_encode_chars(l);
    vstd::utf8::encode_utf8_valid_utf8(chars);
    vstd::utf8::encode_utf8_decode_utf8(chars);
    assert(spec_csv_decode(spec_csv_encode(l)) == spec_csv_decode_chars(chars));
    lemma_csv_stream_lines(l);
    lemma_csv_parse_encoded(l, 0);
}

/// Structural-error law for the comma-separated codec: when the data lines
/// ahead of line `k` each decode to a record and line `k` does not split
/// into exactly eight fields, the whole decode fails with the structural
/// error naming `k`'s index among the data lines.
pub proof fn lemma_csv_structural_error(ls: Seq<Seq<char>>, k: int, idx: nat)
    requires
        0 <= k < ls.len(),
        idx + k <= usize::MAX,
        forall|j: int| 0 <= j < k ==> spec_csv_line_result(#[trigger] ls[j], (idx + j) as nat) is Ok,
        csv_line_fields(ls[k]).len() != 8,
    ensures
        spec_csv_parse_lines(ls, idx) == Err::<Seq<SpecTransaction>, SpecParserError>(
            SpecParserError::InvalidCSVStructure((idx + k) as usize),
        ),
    decreases k,
{
    if k == 0 {
        assert(spec_csv_line_result(ls[0], idx) == Err::<SpecTransaction, SpecParserError>(
            SpecParserError::InvalidCSVStructure(idx as usize),
        ));
    } else {
        assert(spec_csv_line_result(ls[0], (idx + 0) as nat) is Ok);
        let tl = ls.drop_first();
        assert(forall|j: int|
            0 <= j < k - 1 ==> spec_csv_line_result(#[trigger] tl[j], (idx + 1 + j) as nat)
                is Ok) by {
            assert(forall|j: int| 0 <= j < tl.len() ==> tl[j] == ls[j + 1]);
        }
        assert(tl[k - 1] == ls[k]);
        lemma_csv_structural_error(tl, k - 1, idx + 1);
    }
}

} // verus!
