//! The block text format.
//!
//! Every record is one paragraph of `KEY: value` lines separated from its
//! neighbours by a blank line, preceded by a record-header comment line that
//! opens with `#`.  Keys are matched case-insensitively; a paragraph must
//! supply each of the eight fields exactly once, in any order, and lines
//! that carry an unrecognized key are ignored.

use vstd::prelude::*;
use vstd::utf8::decode_utf8;
use vstd::utf8::encode_utf8;
use vstd::utf8::valid_utf8;

use crate::chars::join_term;
use crate::chars::spec_unquote;
use crate::chars::split_char_spec;
use crate::chars::trim_all_spec;
use crate::error::ParserError;
use crate::error::SpecParserError;
use crate::numeral::spec_parse_u64;
use crate::numeral::spec_u64_digits;
use crate::spec_parse_status;
use crate::spec_parse_type;
use crate::status_tag;
use crate::type_tag;
use crate::SpecTransaction;
use crate::Transaction;
use crate::TransactionStatus;
use crate::TransactionType;
use crate::TransactionsFormatType;
use crate::TransactionsParser;

verus! {

broadcast use vstd::string::group_string_axioms, vstd::utf8::char_u32_cast;

/// Reads and writes the block text format.
#[derive(Default)]
pub struct TxtParser {}

/// The lines one record writes out, without the blank separator line: the
/// record-header comment for the 1-based record number `numb`, then one
/// `KEY: value` line per field in the fixed output order.
pub open spec fn txt_record_lines(tx: SpecTransaction, numb: nat) -> Seq<Seq<char>> {
    seq![
        "# Record "@ + spec_u64_digits(numb) + " ("@ + type_tag(tx.tx_type) + ")"@,
        "TX_ID: "@ + spec_u64_digits(tx.tx_id as nat),
        "TX_TYPE: "@ + type_tag(tx.tx_type),
        "TO_USER_ID: "@ + spec_u64_digits(tx.to_user_id as nat),
        "FROM_USER_ID: "@ + spec_u64_digits(tx.from_user_id as nat),
        "AMOUNT: "@ + spec_u64_digits(tx.amount as nat),
        "TIMESTAMP: "@ + spec_u64_digits(tx.timestamp as nat),
        "STATUS: "@ + status_tag(tx.status),
        "DESCRIPTION: "@ + seq!['"'] + tx.description + seq!['"'],
    ]
}

/// The lines a whole encoding writes out: each record's lines followed by
/// one blank separator line.
pub open spec fn txt_all_lines(records: Seq<SpecTransaction>) -> Seq<Seq<char>>
    decreases records.len(),
{
    if records.len() == 0 {
        Seq::<Seq<char>>::empty()
    } else {
        txt_all_lines(records.drop_last()) + txt_record_lines(records.last(), records.len())
            + seq![Seq::<char>::empty()]
    }
}

/// The character stream of a whole encoding.
pub open spec fn spec_txt_encode_chars(records: Seq<SpecTransaction>) -> Seq<char> {
    join_term(txt_all_lines(records), '\n')
}

/// The byte stream of a whole encoding.
pub open spec fn spec_txt_encode(records: Seq<SpecTransaction>) -> Seq<u8> {
    encode_utf8(spec_txt_encode_chars(records))
}

/// The paragraphs of a trimmed line sequence: the maximal runs of nonempty
/// lines, blank lines separating them.
pub open spec fn txt_paragraphs(ls: Seq<Seq<char>>) -> Seq<Seq<Seq<char>>>
    decreases ls.len(),
{
    if ls.len() == 0 {
        Seq::<Seq<Seq<char>>>::empty()
    } else if ls.last().len() == 0 {
        txt_paragraphs(ls.drop_last())
    } else {
        let g = txt_paragraphs(ls.drop_last());
        if ls.drop_last().len() > 0 && ls.drop_last().last().len() > 0 {
            g.update(g.len() - 1, g.last().push(ls.last()))
        } else {
            g.push(seq![ls.last()])
        }
    }
}

/// The position of the first `": "` in `l`, or a negative value when there
/// is none: the split point between a line's key and its value.
pub open spec fn find_kv(l: Seq<char>) -> int
    decreases l.len(),
{
    if l.len() < 2 {
        -1
    } else if l[0] == ':' && l[1] == ' ' {
        0
    } else {
        let r = find_kv(l.drop_first());
        if r < 0 {
            -1
        } else {
            r + 1
        }
    }
}

/// The ASCII-lowercase counterpart of one character.
pub open spec fn lower_char(c: char) -> char {
    if 65 <= c as u32 <= 90 {
        ((c as u32 + 32) as u8) as char
    } else {
        c
    }
}

/// The ASCII-lowercase counterpart of a character sequence: how keys are
/// matched case-insensitively.
pub open spec fn spec_to_lower(s: Seq<char>) -> Seq<char> {
    s.map_values(|c: char| lower_char(c))
}

/// A record in the middle of assembly: each field is present once or not
/// yet.
#[verifier::ext_equal]
pub struct SpecPartialRecord {
    /// Identifier, when a `TX_ID` line has been seen.
    pub tx_id: Option<u64>,
    /// Kind, when a `TX_TYPE` line has been seen.
    pub tx_type: Option<TransactionType>,
    /// Source account, when a `FROM_USER_ID` line has been seen.
    pub from_user_id: Option<u64>,
    /// Destination account, when a `TO_USER_ID` line has been seen.
    pub to_user_id: Option<u64>,
    /// Amount, when an `AMOUNT` line has been seen.
    pub amount: Option<u64>,
    /// Timestamp, when a `TIMESTAMP` line has been seen.
    pub timestamp: Option<u64>,
    /// Status, when a `STATUS` line has been seen.
    pub status: Option<TransactionStatus>,
    /// Description, when a `DESCRIPTION` line has been seen.
    pub description: Option<Seq<char>>,
}

/// The partial record that assembly starts from: nothing seen yet.
pub open spec fn txt_empty_partial() -> SpecPartialRecord {
    SpecPartialRecord {
        tx_id: None,
        tx_type: None,
        from_user_id: None,
        to_user_id: None,
        amount: None,
        timestamp: None,
        status: None,
        description: None,
    }
}

/// Why one line of a paragraph cannot be applied: it has no `": "` split,
/// or its value does not parse, or its key repeats.
pub enum TxtLineIssue {
    /// The line does not split into a key and a value; the payload is the
    /// line.
    Malformed(Seq<char>),
    /// The line's value does not parse, or its key was already seen.
    BadValue,
}

/// One line applied to a partial record: record-header comments pass it
/// through, a recognized key fills its field exactly once, an unrecognized
/// key is ignored.
pub open spec fn txt_apply_line(acc: SpecPartialRecord, l: Seq<char>) -> Result<
    SpecPartialRecord,
    TxtLineIssue,
> {
    if l.len() > 0 && l[0] == '#' {
        Ok(acc)
    } else {
        let i = find_kv(l);
        if i < 0 {
            Err(TxtLineIssue::Malformed(l))
        } else {
            let key = spec_to_lower(l.take(i));
            let value = l.skip(i + 2);
            if key == "tx_id"@ {
                match spec_parse_u64(value) {
                    None => Err(TxtLineIssue::BadValue),
                    Some(v) => if acc.tx_id is Some {
                        Err(TxtLineIssue::BadValue)
                    } else {
                        Ok(SpecPartialRecord { tx_id: Some(v), ..acc })
                    },
                }
            } else if key == "tx_type"@ {
                match spec_parse_type(value) {
                    None => Err(TxtLineIssue::BadValue),
                    Some(v) => if acc.tx_type is Some {
                        Err(TxtLineIssue::BadValue)
                    } else {
                        Ok(SpecPartialRecord { tx_type: Some(v), ..acc })
                    },
                }
            } else if key == "from_user_id"@ {
                match spec_parse_u64(value) {
                    None => Err(TxtLineIssue::BadValue),
                    Some(v) => if acc.from_user_id is Some {
                        Err(TxtLineIssue::BadValue)
                    } else {
                        Ok(SpecPartialRecord { from_user_id: Some(v), ..acc })
                    },
                }
            } else if key == "to_user_id"@ {
                match spec_parse_u64(value) {
                    None => Err(TxtLineIssue::BadValue),
                    Some(v) => if acc.to_user_id is Some {
                        Err(TxtLineIssue::BadValue)
                    } else {
                        Ok(SpecPartialRecord { to_user_id: Some(v), ..acc })
                    },
                }
            } else if key == "amount"@ {
                match spec_parse_u64(value) {
                    None => Err(TxtLineIssue::BadValue),
                    Some(v) => if acc.amount is Some {
                        Err(TxtLineIssue::BadValue)
                    } else {
                        Ok(SpecPartialRecord { amount: Some(v), ..acc })
                    },
                }
            } else if key == "timestamp"@ {
                match spec_parse_u64(value) {
                    None => Err(TxtLineIssue::BadValue),
                    Some(v) => if acc.timestamp is Some {
                        Err(TxtLineIssue::BadValue)
                    } else {
                        Ok(SpecPartialRecord { timestamp: Some(v), ..acc })
                    },
                }
            } else if key == "status"@ {
                match spec_parse_status(value) {
                    None => Err(TxtLineIssue::BadValue),
                    Some(v) => if acc.status is Some {
                        Err(TxtLineIssue::BadValue)
                    } else {
                        Ok(SpecPartialRecord { status: Some(v), ..acc })
                    },
                }
            } else if key == "description"@ {
                match spec_unquote(value) {
                    None => Err(TxtLineIssue::BadValue),
                    Some(v) => if acc.description is Some {
                        Err(TxtLineIssue::BadValue)
                    } else {
                        Ok(SpecPartialRecord { description: Some(v), ..acc })
                    },
                }
            } else {
                Ok(acc)
            }
        }
    }
}

/// A paragraph's lines applied in order to a partial record.
pub open spec fn txt_fill(acc: SpecPartialRecord, lines: Seq<Seq<char>>) -> Result<
    SpecPartialRecord,
    TxtLineIssue,
>
    decreases lines.len(),
{
    if lines.len() == 0 {
        Ok(acc)
    } else {
        match txt_apply_line(acc, lines[0]) {
            Err(e) => Err(e),
            Ok(acc2) => txt_fill(acc2, lines.drop_first()),
        }
    }
}

/// The record a fully assembled partial stands for, when nothing is
/// missing.
pub open spec fn txt_complete(p: SpecPartialRecord) -> Option<SpecTransaction> {
    if p.tx_id is Some && p.tx_type is Some && p.from_user_id is Some && p.to_user_id is Some
        && p.amount is Some && p.timestamp is Some && p.status is Some && p.description is Some {
        Some(
            SpecTransaction {
                tx_id: p.tx_id.unwrap(),
                tx_type: p.tx_type.unwrap(),
                from_user_id: p.from_user_id.unwrap(),
                to_user_id: p.to_user_id.unwrap(),
                amount: p.amount.unwrap(),
                timestamp: p.timestamp.unwrap(),
                status: p.status.unwrap(),
                description: p.description.unwrap(),
            },
        )
    } else {
        None
    }
}

/// What one paragraph at 0-based record index `idx` decodes to: a line with
/// no `": "` split is the structural error carrying that line; a value that
/// will not parse, a repeated key or a missing field is a value error
/// carrying the record index.
pub open spec fn txt_para_result(para: Seq<Seq<char>>, idx: nat) -> Result<
    SpecTransaction,
    SpecParserError,
> {
    match txt_fill(txt_empty_partial(), para) {
        Err(TxtLineIssue::Malformed(l)) => Err(SpecParserError::InvalidTxtStrStructure(l)),
        Err(TxtLineIssue::BadValue) => Err(SpecParserError::InvalidValue { tx_numb: idx as usize }),
        Ok(p) => match txt_complete(p) {
            Some(tx) => Ok(tx),
            None => Err(SpecParserError::InvalidValue { tx_numb: idx as usize }),
        },
    }
}

/// What decoding the paragraphs yields, the first of them being record
/// number `idx`: the records in order, or the first error.
pub open spec fn spec_txt_parse_paras(ps: Seq<Seq<Seq<char>>>, idx: nat) -> Result<
    Seq<SpecTransaction>,
    SpecParserError,
>
    decreases ps.len(),
{
    if ps.len() == 0 {
        Ok(Seq::<SpecTransaction>::empty())
    } else {
        match txt_para_result(ps[0], idx) {
            Err(e) => Err(e),
            Ok(tx) => match spec_txt_parse_paras(ps.drop_first(), idx + 1) {
                Ok(rest) => Ok(seq![tx] + rest),
                Err(e) => Err(e),
            },
        }
    }
}

/// What decoding a whole character stream yields.
pub open spec fn spec_txt_decode_chars(s: Seq<char>) -> Result<
    Seq<SpecTransaction>,
    SpecParserError,
> {
    spec_txt_parse_paras(txt_paragraphs(trim_all_spec(split_char_spec(s, '\n'))), 0)
}

/// What decoding a whole byte source yields: bytes that are not UTF-8 fail
/// as the read failure they would be, anything else decodes as characters.
pub open spec fn spec_txt_decode(bytes: Seq<u8>) -> Result<
    Seq<SpecTransaction>,
    SpecParserError,
> {
    if !valid_utf8(bytes) {
        Err(SpecParserError::Io)
    } else {
        spec_txt_decode_chars(decode_utf8(bytes))
    }
}

/// When no prefix position starts a `": "`, there is no split point.
proof fn lemma_find_kv_none(l: Seq<char>)
    requires
        forall|k: int| 0 <= k < l.len() - 1 ==> !(#[trigger] l[k] == ':' && l[k + 1] == ' '),
    ensures
        find_kv(l) < 0,
    decreases l.len(),
{
    if l.len() >= 2 {
        assert(!(l[0] == ':' && l[1] == ' '));
        let t = l.drop_first();
        assert(forall|k: int| 0 <= k < t.len() - 1 ==> !(#[trigger] t[k] == ':' && t[k + 1] == ' '))
            by {
            assert(forall|k: int| 0 <= k < t.len() ==> t[k] == l[k + 1]);
        }
        lemma_find_kv_none(t);
    }
}

/// The first position that starts a `": "` is the split point.
proof fn lemma_find_kv_found(l: Seq<char>, i: int)
    requires
        0 <= i,
        i + 2 <= l.len(),
        l[i] == ':',
        l[i + 1] == ' ',
        forall|k: int| 0 <= k < i ==> !(#[trigger] l[k] == ':' && l[k + 1] == ' '),
    ensures
        find_kv(l) == i,
    decreases i,
{
    if i == 0 {
    } else {
        assert(!(l[0] == ':' && l[1] == ' '));
        let t = l.drop_first();
        assert(forall|k: int| 0 <= k < t.len() ==> t[k] == l[k + 1]);
        lemma_find_kv_found(t, i - 1);
    }
}

/// Finds the position of the first `": "` in `l`, if any.
fn find_kv_chars(l: &Vec<char>) -> (r: Option<usize>)
    ensures
        match r {
            Some(i) => find_kv(l@) == i,
            None => find_kv(l@) < 0,
        },
{
    let n = l.len();
    if n < 2 {
        proof {
            lemma_find_kv_none(l@);
        }
        return None;
    }
    let mut i: usize = 0;
    while i < n - 1
        invariant
            0 <= i <= n - 1,
            n == l@.len(),
            2 <= n,
            forall|k: int| 0 <= k < i ==> !(#[trigger] l@[k] == ':' && l@[k + 1] == ' '),
        decreases n - i,
    {
        if l[i] == ':' && l[i + 1] == ' ' {
            proof {
                lemma_find_kv_found(l@, i as int);
            }
            return Some(i);
        }
        i = i + 1;
    }
    proof {
        lemma_find_kv_none(l@);
    }
    None
}

/// Lowers every character of `v` to its ASCII-lowercase counterpart.
fn to_lower_chars(v: &Vec<char>) -> (r: Vec<char>)
    ensures
        r@ == spec_to_lower(v@),
{
    let mut r: Vec<char> = Vec::new();
    proof {
        assert(r@ =~= spec_to_lower(v@.take(0)));
    }
    let mut i: usize = 0;
    while i < v.len()
        invariant
            0 <= i <= v@.len(),
            r@ == spec_to_lower(v@.take(i as int)),
        decreases v@.len() - i,
    {
        let c = v[i];
        let u = c as u32;
        if 65 <= u && u <= 90 {
            r.push(((u + 32) as u8) as char);
        } else {
            r.push(c);
        }
        proof {
            assert(r@ =~= spec_to_lower(v@.take(i as int + 1)));
        }
        i = i + 1;
    }
    proof {
        assert(v@.take(v@.len() as int) =~= v@);
    }
    r
}

/// Copies the characters of `v` between positions `a` and `b`.
fn subvec(v: &Vec<char>, a: usize, b: usize) -> (r: Vec<char>)
    requires
        a <= b <= v@.len(),
    ensures
        r@ == v@.subrange(a as int, b as int),
{
    let s = vstd::slice::slice_subrange(v.as_slice(), a, b);
    vstd::slice::slice_to_vec(s)
}

/// A record in the middle of assembly, as the decoder carries it.
struct PartialTx {
    tx_id: Option<u64>,
    tx_type: Option<TransactionType>,
    from_user_id: Option<u64>,
    to_user_id: Option<u64>,
    amount: Option<u64>,
    timestamp: Option<u64>,
    status: Option<TransactionStatus>,
    description: Option<String>,
}

impl View for PartialTx {
    type V = SpecPartialRecord;

    closed spec fn view(&self) -> SpecPartialRecord {
        SpecPartialRecord {
            tx_id: self.tx_id,
            tx_type: self.tx_type,
            from_user_id: self.from_user_id,
            to_user_id: self.to_user_id,
            amount: self.amount,
            timestamp: self.timestamp,
            status: self.status,
            description: match self.description {
                Some(ref s) => Some(s@),
                None => None,
            },
        }
    }
}

/// Applies one paragraph line to the record being assembled, reporting
/// failures against record index `idx`.
#[verifier::rlimit(60)]
fn apply_txt_line(p: &mut PartialTx, line: &Vec<char>, idx: usize) -> (r: Result<(), ParserError>)
    ensures
        match r {
            Ok(()) => txt_apply_line(old(p)@, line@) == Ok::<SpecPartialRecord, TxtLineIssue>(
                final(p)@,
            ),
            Err(e) => final(p)@ == old(p)@ && match txt_apply_line(old(p)@, line@) {
                Ok(_) => false,
                Err(TxtLineIssue::Malformed(l)) => e@ == SpecParserError::InvalidTxtStrStructure(
                    l,
                ),
                Err(TxtLineIssue::BadValue) => e@ == (SpecParserError::InvalidValue {
                    tx_numb: idx,
                }),
            },
        },
{
    let n = line.len();
    if n > 0 && line[0] == '#' {
        return Ok(());
    }
    let i = match find_kv_chars(line) {
        None => {
            let text = crate::chars::chars_to_string(line);
            return Err(ParserError::InvalidTxtStrStructure(text));
        },
        Some(i) => i,
    };
    proof {
        assert(i + 2 <= n) by {
            assert(find_kv(line@) + 2 <= line@.len()) by {
                lemma_find_kv_bound(line@);
            }
        }
    }
    let key_raw = subvec(line, 0, i);
    let key = to_lower_chars(&key_raw);
    let value = subvec(line, i + 2, n);
    proof {
        assert(line@.subrange(0, i as int) =~= line@.take(i as int));
        assert(line@.subrange(i as int + 2, n as int) =~= line@.skip(i as int + 2));
    }
    if crate::chars::chars_eq_str(&key, "tx_id") {
        match crate::numeral::parse_u64_chars(&value) {
            None => Err(ParserError::InvalidValue { tx_numb: idx }),
            Some(v) => {
                if p.tx_id.is_some() {
                    return Err(ParserError::InvalidValue { tx_numb: idx });
                }
                p.tx_id = Some(v);
                proof {
                    assert(p@ =~= (SpecPartialRecord { tx_id: Some(v), ..old(p)@ }));
                }
                Ok(())
            },
        }
    } else if crate::chars::chars_eq_str(&key, "tx_type") {
        match crate::parse_type_chars(&value) {
            None => Err(ParserError::InvalidValue { tx_numb: idx }),
            Some(v) => {
                if p.tx_type.is_some() {
                    return Err(ParserError::InvalidValue { tx_numb: idx });
                }
                p.tx_type = Some(v);
                proof {
                    assert(p@ =~= (SpecPartialRecord { tx_type: Some(v), ..old(p)@ }));
                }
                Ok(())
            },
        }
    } else if crate::chars::chars_eq_str(&key, "from_user_id") {
        match crate::numeral::parse_u64_chars(&value) {
            None => Err(ParserError::InvalidValue { tx_numb: idx }),
            Some(v) => {
                if p.from_user_id.is_some() {
                    return Err(ParserError::InvalidValue { tx_numb: idx });
                }
                p.from_user_id = Some(v);
                proof {
                    assert(p@ =~= (SpecPartialRecord { from_user_id: Some(v), ..old(p)@ }));
                }
                Ok(())
            },
        }
    } else if crate::chars::chars_eq_str(&key, "to_user_id") {
        match crate::numeral::parse_u64_chars(&value) {
            None => Err(ParserError::InvalidValue { tx_numb: idx }),
            Some(v) => {
                if p.to_user_id.is_some() {
                    return Err(ParserError::InvalidValue { tx_numb: idx });
                }
                p.to_user_id = Some(v);
                proof {
                    assert(p@ =~= (SpecPartialRecord { to_user_id: Some(v), ..old(p)@ }));
                }
                Ok(())
            },
        }
    } else if crate::chars::chars_eq_str(&key, "amount") {
        match crate::numeral::parse_u64_chars(&value) {
            None => Err(ParserError::InvalidValue { tx_numb: idx }),
            Some(v) => {
                if p.amount.is_some() {
                    return Err(ParserError::InvalidValue { tx_numb: idx });
                }
                p.amount = Some(v);
                proof {
                    assert(p@ =~= (SpecPartialRecord { amount: Some(v), ..old(p)@ }));
                }
                Ok(())
            },
        }
    } else if crate::chars::chars_eq_str(&key, "timestamp") {
        match crate::numeral::parse_u64_chars(&value) {
            None => Err(ParserError::InvalidValue { tx_numb: idx }),
            Some(v) => {
                if p.timestamp.is_some() {
                    return Err(ParserError::InvalidValue { tx_numb: idx });
                }
                p.timestamp = Some(v);
                proof {
                    assert(p@ =~= (SpecPartialRecord { timestamp: Some(v), ..old(p)@ }));
                }
                Ok(())
            },
        }
    } else if crate::chars::chars_eq_str(&key, "status") {
        match crate::parse_status_chars(&value) {
            None => Err(ParserError::InvalidValue { tx_numb: idx }),
            Some(v) => {
                if p.status.is_some() {
                    return Err(ParserError::InvalidValue { tx_numb: idx });
                }
                p.status = Some(v);
                proof {
                    assert(p@ =~= (SpecPartialRecord { status: Some(v), ..old(p)@ }));
                }
                Ok(())
            },
        }
    } else if crate::chars::chars_eq_str(&key, "description") {
        match crate::chars::unquote_chars(&value) {
            None => Err(ParserError::InvalidValue { tx_numb: idx }),
            Some(d) => {
                if p.description.is_some() {
                    return Err(ParserError::InvalidValue { tx_numb: idx });
                }
                let text = crate::chars::chars_to_string(&d);
                let ghost dv = text@;
                p.description = Some(text);
                proof {
                    assert(d.deep_view() =~= d@);
                    assert(p@ =~= (SpecPartialRecord { description: Some(dv), ..old(p)@ }));
                }
                Ok(())
            },
        }
    } else {
        proof {
        }
        Ok(())
    }
}

/// A found split point always leaves room for the `": "` itself.
proof fn lemma_find_kv_bound(l: Seq<char>)
    ensures
        find_kv(l) >= 0 ==> find_kv(l) + 2 <= l.len(),
    decreases l.len(),
{
    if l.len() >= 2 {
        lemma_find_kv_bound(l.drop_first());
    }
}

/// Decodes one paragraph at record index `idx`.
fn parse_txt_paragraph(para: &Vec<Vec<char>>, idx: usize) -> (r: Result<Transaction, ParserError>)
    ensures
        match r {
            Ok(tx) => txt_para_result(para.deep_view(), idx as nat) == Ok::<
                SpecTransaction,
                SpecParserError,
            >(tx@),
            Err(e) => txt_para_result(para.deep_view(), idx as nat) == Err::<
                SpecTransaction,
                SpecParserError,
            >(e@),
        },
{
    let ghost pdv = para.deep_view();
    let mut p = PartialTx {
        tx_id: None,
        tx_type: None,
        from_user_id: None,
        to_user_id: None,
        amount: None,
        timestamp: None,
        status: None,
        description: None,
    };
    proof {
        assert(p@ =~= txt_empty_partial());
        assert(pdv.skip(0) =~= pdv);
    }
    let mut k: usize = 0;
    while k < para.len()
        invariant
            0 <= k <= para@.len(),
            pdv == para.deep_view(),
            pdv.len() == para@.len(),
            txt_fill(txt_empty_partial(), pdv) == txt_fill(p@, pdv.skip(k as int)),
        decreases para@.len() - k,
    {
        let ghost suffix = pdv.skip(k as int);
        proof {
            assert(suffix[0] == pdv[k as int]);
            assert(pdv[k as int] == para@[k as int]@);
            assert(suffix.drop_first() =~= pdv.skip(k as int + 1));
        }
        match apply_txt_line(&mut p, &para[k], idx) {
            Err(e) => {
                proof {
                    assert(txt_fill(txt_empty_partial(), pdv) == txt_fill(p@, suffix));
                }
                return Err(e);
            },
            Ok(()) => {
                k = k + 1;
            },
        }
    }
    proof {
        assert(pdv.skip(pdv.len() as int) =~= Seq::<Seq<char>>::empty());
        assert(txt_fill(txt_empty_partial(), pdv) == Ok::<SpecPartialRecord, TxtLineIssue>(p@));
    }
    let PartialTx { tx_id, tx_type, from_user_id, to_user_id, amount, timestamp, status, description } = p;
    match (tx_id, tx_type, from_user_id, to_user_id, amount, timestamp, status, description) {
        (
            Some(tx_id),
            Some(tx_type),
            Some(from_user_id),
            Some(to_user_id),
            Some(amount),
            Some(timestamp),
            Some(status),
            Some(description),
        ) => {
            let tx = Transaction {
                tx_id,
                tx_type,
                from_user_id,
                to_user_id,
                amount,
                timestamp,
                status,
                description,
            };
            proof {
                assert(txt_complete(txt_fill(txt_empty_partial(), pdv)->Ok_0) == Some(tx@));
            }
            Ok(tx)
        },
        _ => Err(ParserError::InvalidValue { tx_numb: idx }),
    }
}

/// Trims the raw lines and groups them into paragraphs: maximal runs of
/// nonempty lines.
fn collect_paragraphs(parts: &Vec<Vec<char>>) -> (r: Vec<Vec<Vec<char>>>)
    ensures
        r.deep_view() == txt_paragraphs(trim_all_spec(parts.deep_view())),
{
    let mut paras: Vec<Vec<Vec<char>>> = Vec::new();
    let mut cur: Vec<Vec<char>> = Vec::new();
    proof {
        assert(trim_all_spec(parts.deep_view().take(0)) =~= Seq::<Seq<char>>::empty());
        assert(paras.deep_view() =~~= txt_paragraphs(trim_all_spec(parts.deep_view().take(0))));
    }
    let mut j: usize = 0;
    while j < parts.len()
        invariant
            0 <= j <= parts@.len(),
            parts.deep_view().len() == parts@.len(),
            ({
                let pre = trim_all_spec(parts.deep_view().take(j as int));
                let g = txt_paragraphs(pre);
                if cur@.len() == 0 {
                    g == paras.deep_view() && (pre.len() == 0 || pre.last().len() == 0)
                } else {
                    g == paras.deep_view().push(cur.deep_view()) && pre.len() > 0
                        && pre.last().len() > 0 && cur.deep_view().len() > 0
                }
            }),
        decreases parts@.len() - j,
    {
        let ghost pre = trim_all_spec(parts.deep_view().take(j as int));
        let t = crate::chars::trim_chars(&parts[j]);
        proof {
            assert(parts.deep_view()[j as int] == parts@[j as int]@);
            assert(trim_all_spec(parts.deep_view().take(j as int + 1)) =~~= pre.push(t@));
            assert(pre.push(t@).drop_last() =~= pre);
            assert(pre.push(t@).last() == t@);
        }
        let ghost old_paras = paras.deep_view();
        let ghost old_cur = cur.deep_view();
        if t.len() == 0 {
            if cur.len() > 0 {
                paras.push(cur);
                cur = Vec::new();
                proof {
                    assert(paras.deep_view() =~~= old_paras.push(old_cur));
                    assert(cur.deep_view() =~~= Seq::<Seq<char>>::empty());
                }
            }
        } else {
            if cur.len() == 0 {
                cur.push(t);
                proof {
                    assert(cur.deep_view() =~~= seq![t@]);
                    assert(txt_paragraphs(pre.push(t@)) == txt_paragraphs(pre).push(seq![t@]));
                }
            } else {
                cur.push(t);
                proof {
                    assert(cur.deep_view() =~~= old_cur.push(t@));
                    let g = txt_paragraphs(pre);
                    assert(g == old_paras.push(old_cur));
                    assert(g.len() - 1 == old_paras.len());
                    assert(g.last() == old_cur);
                    assert(txt_paragraphs(pre.push(t@)) == g.update(
                        g.len() - 1,
                        g.last().push(t@),
                    ));
                    assert(g.update(g.len() - 1, g.last().push(t@)) =~~= old_paras.push(
                        old_cur.push(t@),
                    ));
                }
            }
        }
        j = j + 1;
    }
    proof {
        assert(parts.deep_view().take(parts.deep_view().len() as int) =~= parts.deep_view());
    }
    if cur.len() > 0 {
        let ghost old_paras = paras.deep_view();
        let ghost old_cur = cur.deep_view();
        paras.push(cur);
        proof {
            assert(paras.deep_view() =~~= old_paras.push(old_cur));
        }
    }
    paras
}

impl TransactionsParser for TxtParser {
    open spec fn spec_format_type(&self) -> TransactionsFormatType {
        TransactionsFormatType::TXT
    }

    open spec fn spec_decode(&self, input: Seq<u8>) -> Result<
        Seq<SpecTransaction>,
        SpecParserError,
    > {
        spec_txt_decode(input)
    }

    open spec fn spec_encode(&self, records: Seq<SpecTransaction>) -> Seq<u8> {
        spec_txt_encode(records)
    }

    open spec fn spec_can_encode(&self, records: Seq<SpecTransaction>) -> bool {
        true
    }

    fn get_using_format_type(&self) -> (t: TransactionsFormatType) {
        TransactionsFormatType::TXT
    }

    fn from_read(&self, source: &Vec<u8>) -> (r: Result<Vec<Transaction>, ParserError>) {
        let bytes = vstd::slice::slice_to_vec(source.as_slice());
        proof {
            assert(bytes@ =~= source@);
        }
        let s = match crate::chars::string_from_utf8(bytes) {
            None => {
                return Err(ParserError::Io);
            },
            Some(s) => s,
        };
        let chars = crate::chars::str_to_chars(s.as_str());
        let parts = crate::chars::split_char(&chars, '\n');
        let paras = collect_paragraphs(&parts);
        let ghost ps = paras.deep_view();
        proof {
            assert(spec_txt_decode(source@) == spec_txt_parse_paras(ps, 0));
            assert(ps.skip(0) =~= ps);
        }
        let mut acc: Vec<Transaction> = Vec::new();
        proof {
            assert(acc.deep_view() =~= Seq::<SpecTransaction>::empty());
        }
        let mut k: usize = 0;
        while k < paras.len()
            invariant
                0 <= k <= paras@.len(),
                ps == paras.deep_view(),
                ps.len() == paras@.len(),
                acc@.len() == k,
                acc.deep_view().len() == k,
                spec_txt_decode(source@) == spec_txt_parse_paras(ps, 0),
                spec_txt_parse_paras(ps, 0) == crate::prepend_records(
                    acc.deep_view(),
                    spec_txt_parse_paras(ps.skip(k as int), k as nat),
                ),
            decreases paras@.len() - k,
        {
            let ghost suffix = ps.skip(k as int);
            proof {
                assert(suffix[0] == ps[k as int]);
                assert(ps[k as int] == paras@[k as int].deep_view());
                assert(suffix.drop_first() =~= ps.skip(k as int + 1));
            }
            match parse_txt_paragraph(&paras[k], k) {
                Err(e) => {
                    proof {
                        assert(spec_txt_parse_paras(suffix, k as nat) == Err::<
                            Seq<SpecTransaction>,
                            SpecParserError,
                        >(e@));
                    }
                    return Err(e);
                },
                Ok(tx) => {
                    let ghost old_acc = acc.deep_view();
                    let ghost spec_tx = tx@;
                    acc.push(tx);
                    proof {
                        assert(acc.deep_view() =~~= old_acc.push(spec_tx));
                        let next = spec_txt_parse_paras(ps.skip(k as int + 1), k as nat + 1);
                        assert(spec_txt_parse_paras(suffix, k as nat) == match next {
                            Ok(rest) => Ok::<Seq<SpecTransaction>, SpecParserError>(
                                seq![spec_tx] + rest,
                            ),
                            Err(e) => Err(e),
                        });
                        match next {
                            Ok(r2) => {
                                assert(old_acc + (seq![spec_tx] + r2) =~= old_acc.push(spec_tx)
                                    + r2);
                            },
                            Err(_) => {},
                        }
                    }
                    k = k + 1;
                },
            }
        }
        proof {
            assert(ps.skip(ps.len() as int) =~= Seq::<Seq<Seq<char>>>::empty());
            assert(acc.deep_view() + Seq::<SpecTransaction>::empty() =~= acc.deep_view());
        }
        Ok(acc)
    }

    fn write_to(&self, target: &mut Vec<u8>, data: &Vec<Transaction>) -> (r: Result<
        (),
        ParserError,
    >) {
        let ghost dv = data.deep_view();
        let mut out: Vec<char> = Vec::new();
        proof {
            assert(txt_all_lines(dv.take(0)) =~= Seq::<Seq<char>>::empty());
            assert(out@ =~= join_term(txt_all_lines(dv.take(0)), '\n'));
        }
        let mut i: usize = 0;
        while i < data.len()
            invariant
                0 <= i <= data@.len(),
                dv == data.deep_view(),
                dv.len() == data@.len(),
                out@ == join_term(txt_all_lines(dv.take(i as int)), '\n'),
            decreases data@.len() - i,
        {
            proof {
                assert(dv[i as int] == data@[i as int]@);
            }
            let mut block = txt_record_chars(&data[i], (i + 1) as u64);
            let ghost block_view = block@;
            out.append(&mut block);
            proof {
                let lines_i = txt_record_lines(dv[i as int], i as nat + 1);
                assert(dv.take(i as int + 1).drop_last() =~= dv.take(i as int));
                assert(dv.take(i as int + 1).last() == dv[i as int]);
                assert(dv.take(i as int + 1).len() == i + 1);
                assert(txt_all_lines(dv.take(i as int + 1)) == txt_all_lines(dv.take(i as int))
                    + lines_i + seq![Seq::<char>::empty()]);
                crate::chars::lemma_join_append(
                    txt_all_lines(dv.take(i as int)),
                    lines_i + seq![Seq::<char>::empty()],
                    '\n',
                );
                assert(txt_all_lines(dv.take(i as int)) + lines_i + seq![Seq::<char>::empty()]
                    =~= txt_all_lines(dv.take(i as int)) + (lines_i + seq![
                    Seq::<char>::empty(),
                ]));
                assert(lines_i.push(Seq::<char>::empty()) =~= lines_i + seq![
                    Seq::<char>::empty(),
                ]);
                assert(out@ =~= join_term(txt_all_lines(dv.take(i as int + 1)), '\n'));
            }
            i = i + 1;
        }
        proof {
            assert(dv.take(dv.len() as int) =~= dv);
        }
        let s = crate::chars::chars_to_string(&out);
        let mut b = s.as_str().as_bytes_vec();
        target.append(&mut b);
        proof {
            assert(target@ =~= old(target)@ + spec_txt_encode(dv));
        }
        Ok(())
    }
}

/// The characters one record writes out: its nine lines and the blank
/// separator line, each closed by a line break.
#[verifier::rlimit(100)]
fn txt_record_chars(tx: &Transaction, numb: u64) -> (v: Vec<char>)
    requires
        numb >= 1,
    ensures
        v@ == join_term(txt_record_lines(tx@, numb as nat).push(Seq::<char>::empty()), '\n'),
{
    let mut v: Vec<char> = crate::chars::str_to_chars("# Record ");
    let mut piece = crate::numeral::u64_to_digits(numb);
    v.append(&mut piece);
    let mut piece = crate::chars::str_to_chars(" (");
    v.append(&mut piece);
    let mut piece = crate::type_tag_chars(&tx.tx_type);
    v.append(&mut piece);
    let mut piece = crate::chars::str_to_chars(")");
    v.append(&mut piece);
    v.push('\n');
    let mut piece = crate::chars::str_to_chars("TX_ID: ");
    v.append(&mut piece);
    let mut piece = crate::numeral::u64_to_digits(tx.tx_id);
    v.append(&mut piece);
    v.push('\n');
    let mut piece = crate::chars::str_to_chars("TX_TYPE: ");
    v.append(&mut piece);
    let mut piece = crate::type_tag_chars(&tx.tx_type);
    v.append(&mut piece);
    v.push('\n');
    let mut piece = crate::chars::str_to_chars("TO_USER_ID: ");
    v.append(&mut piece);
    let mut piece = crate::numeral::u64_to_digits(tx.to_user_id);
    v.append(&mut piece);
    v.push('\n');
    let mut piece = crate::chars::str_to_chars("FROM_USER_ID: ");
    v.append(&mut piece);
    let mut piece = crate::numeral::u64_to_digits(tx.from_user_id);
    v.append(&mut piece);
    v.push('\n');
    let mut piece = crate::chars::str_to_chars("AMOUNT: ");
    v.append(&mut piece);
    let mut piece = crate::numeral::u64_to_digits(tx.amount);
    v.append(&mut piece);
    v.push('\n');
    let mut piece = crate::chars::str_to_chars("TIMESTAMP: ");
    v.append(&mut piece);
    let mut piece = crate::numeral::u64_to_digits(tx.timestamp);
    v.append(&mut piece);
    v.push('\n');
    let mut piece = crate::chars::str_to_chars("STATUS: ");
    v.append(&mut piece);
    let mut piece = crate::status_tag_chars(&tx.status);
    v.append(&mut piece);
    v.push('\n');
    let mut piece = crate::chars::str_to_chars("DESCRIPTION: ");
    v.append(&mut piece);
    v.push('"');
    let mut piece = crate::chars::str_to_chars(tx.description.as_str());
    v.append(&mut piece);
    v.push('"');
    v.push('\n');
    v.push('\n');
    proof {
        reveal_with_fuel(join_term, 12);
        let ls = txt_record_lines(tx@, numb as nat).push(Seq::<char>::empty());
        assert(ls.drop_last() =~= txt_record_lines(tx@, numb as nat));
        let rl = txt_record_lines(tx@, numb as nat);
        assert(rl.drop_last() =~= rl.take(8));
        assert(rl.take(8).drop_last() =~= rl.take(7));
        assert(rl.take(7).drop_last() =~= rl.take(6));
        assert(rl.take(6).drop_last() =~= rl.take(5));
        assert(rl.take(5).drop_last() =~= rl.take(4));
        assert(rl.take(4).drop_last() =~= rl.take(3));
        assert(rl.take(3).drop_last() =~= rl.take(2));
        assert(rl.take(2).drop_last() =~= rl.take(1));
        assert(rl.take(1).drop_last() =~= Seq::<Seq<char>>::empty());
        assert(v@ =~= join_term(ls, '\n'));
    }
    v
}

/// Two characters with one codepoint are one character.
proof fn lemma_char_eq(a: char, b: char)
    requires
        a as u32 == b as u32,
    ensures
        a == b,
{
    vstd::utf8::char_u32_cast(a, a as u32);
    vstd::utf8::char_u32_cast(b, b as u32);
}

/// Lowercasing maps a sequence onto its ASCII-lowercase counterpart,
/// character by character.
proof fn lemma_lower_seq(s: Seq<char>, t: Seq<char>)
    requires
        s.len() == t.len(),
        forall|i: int|
            0 <= i < s.len() ==> ((65 <= (#[trigger] s[i]) as u32 <= 90 && #[trigger] t[i] as u32
                == s[i] as u32 + 32) || (s[i] == t[i] && !(65 <= s[i] as u32 <= 90))),
    ensures
        spec_to_lower(s) == t,
{
    assert forall|i: int| 0 <= i < s.len() implies #[trigger] spec_to_lower(s)[i] == t[i] by {
        if 65 <= s[i] as u32 <= 90 {
            assert(lower_char(s[i]) as u32 == s[i] as u32 + 32);
            lemma_char_eq(lower_char(s[i]), t[i]);
        }
    }
    assert(spec_to_lower(s) =~= t);
}

/// How each written key lowercases, and that no key character is a colon.
#[verifier::rlimit(100)]
proof fn lemma_txt_keys()
    ensures
        spec_to_lower("TX_ID"@) == "tx_id"@,
        spec_to_lower("TX_TYPE"@) == "tx_type"@,
        spec_to_lower("TO_USER_ID"@) == "to_user_id"@,
        spec_to_lower("FROM_USER_ID"@) == "from_user_id"@,
        spec_to_lower("AMOUNT"@) == "amount"@,
        spec_to_lower("TIMESTAMP"@) == "timestamp"@,
        spec_to_lower("STATUS"@) == "status"@,
        spec_to_lower("DESCRIPTION"@) == "description"@,
        forall|i: int| 0 <= i < "TX_ID"@.len() ==> #[trigger] "TX_ID"@[i] != ':',
        forall|i: int| 0 <= i < "TX_TYPE"@.len() ==> #[trigger] "TX_TYPE"@[i] != ':',
        forall|i: int| 0 <= i < "TO_USER_ID"@.len() ==> #[trigger] "TO_USER_ID"@[i] != ':',
        forall|i: int| 0 <= i < "FROM_USER_ID"@.len() ==> #[trigger] "FROM_USER_ID"@[i] != ':',
        forall|i: int| 0 <= i < "AMOUNT"@.len() ==> #[trigger] "AMOUNT"@[i] != ':',
        forall|i: int| 0 <= i < "TIMESTAMP"@.len() ==> #[trigger] "TIMESTAMP"@[i] != ':',
        forall|i: int| 0 <= i < "STATUS"@.len() ==> #[trigger] "STATUS"@[i] != ':',
        forall|i: int| 0 <= i < "DESCRIPTION"@.len() ==> #[trigger] "DESCRIPTION"@[i] != ':',
{
    reveal_strlit("TX_ID");
    reveal_strlit("tx_id");
    reveal_strlit("TX_TYPE");
    reveal_strlit("tx_type");
    reveal_strlit("TO_USER_ID");
    reveal_strlit("to_user_id");
    reveal_strlit("FROM_USER_ID");
    reveal_strlit("from_user_id");
    reveal_strlit("AMOUNT");
    reveal_strlit("amount");
    reveal_strlit("TIMESTAMP");
    reveal_strlit("timestamp");
    reveal_strlit("STATUS");
    reveal_strlit("status");
    reveal_strlit("DESCRIPTION");
    reveal_strlit("description");
    lemma_lower_seq("TX_ID"@, "tx_id"@);
    lemma_lower_seq("TX_TYPE"@, "tx_type"@);
    lemma_lower_seq("TO_USER_ID"@, "to_user_id"@);
    lemma_lower_seq("FROM_USER_ID"@, "from_user_id"@);
    lemma_lower_seq("AMOUNT"@, "amount"@);
    lemma_lower_seq("TIMESTAMP"@, "timestamp"@);
    lemma_lower_seq("STATUS"@, "status"@);
    lemma_lower_seq("DESCRIPTION"@, "description"@);
}

/// Where a written `KEY: value` line splits: right after the key.
proof fn lemma_txt_kv_shape(key: Seq<char>, value: Seq<char>)
    requires
        key.len() >= 1,
        forall|i: int| 0 <= i < key.len() ==> #[trigger] key[i] != ':',
    ensures
        find_kv(key + ": "@ + value) == key.len(),
        (key + ": "@ + value).take(key.len() as int) == key,
        (key + ": "@ + value).skip(key.len() as int + 2) == value,
{
    reveal_strlit(": ");
    let l = key + ": "@ + value;
    assert(l[key.len() as int] == ':');
    assert(l[key.len() as int + 1] == ' ');
    assert(forall|k: int| 0 <= k < key.len() ==> l[k] == key[k]);
    lemma_find_kv_found(l, key.len() as int);
    assert(l.take(key.len() as int) =~= key);
    assert(l.skip(key.len() as int + 2) =~= value);
}

/// Applying a written `TX_ID` line fills the tx_id field.
proof fn lemma_apply_tx_id_line(acc: SpecPartialRecord, n: u64)
    requires
        acc.tx_id is None,
    ensures
        txt_apply_line(acc, "TX_ID: "@ + spec_u64_digits(n as nat)) == Ok::<
            SpecPartialRecord,
            TxtLineIssue,
        >(SpecPartialRecord { tx_id: Some(n), ..acc }),
{
    reveal_strlit("TX_ID: ");
    reveal_strlit("TX_ID");
    reveal_strlit(": ");
    reveal_strlit("tx_id");
    reveal_strlit("tx_type");
    reveal_strlit("from_user_id");
    reveal_strlit("to_user_id");
    reveal_strlit("amount");
    reveal_strlit("timestamp");
    reveal_strlit("status");
    reveal_strlit("description");
    lemma_txt_keys();
    assert("tx_id"@.len() == 5);
    assert("tx_type"@.len() == 7);
    assert("from_user_id"@.len() == 12);
    assert("to_user_id"@.len() == 10);
    assert("amount"@.len() == 6);
    assert("timestamp"@.len() == 9);
    assert("status"@.len() == 6);
    assert("description"@.len() == 11);
    assert("amount"@[0] == 'a');
    assert("status"@[0] == 's');
    assert("TX_ID: "@ =~= "TX_ID"@ + ": "@);
    let d = spec_u64_digits(n as nat);
    let l = "TX_ID"@ + ": "@ + d;
    assert("TX_ID: "@ + d =~= l);
    lemma_txt_kv_shape("TX_ID"@, d);
    assert(l[0] == "TX_ID"@[0]);
    crate::numeral::lemma_parse_u64_digits(n);
    assert(txt_apply_line(acc, l) == Ok::<SpecPartialRecord, TxtLineIssue>(
        SpecPartialRecord { tx_id: Some(n), ..acc },
    ));
}

/// Applying a written `TO_USER_ID` line fills the to_user_id field.
proof fn lemma_apply_to_user_id_line(acc: SpecPartialRecord, n: u64)
    requires
        acc.to_user_id is None,
    ensures
        txt_apply_line(acc, "TO_USER_ID: "@ + spec_u64_digits(n as nat)) == Ok::<
            SpecPartialRecord,
            TxtLineIssue,
        >(SpecPartialRecord { to_user_id: Some(n), ..acc }),
{
    reveal_strlit("TO_USER_ID: ");
    reveal_strlit("TO_USER_ID");
    reveal_strlit(": ");
    reveal_strlit("tx_id");
    reveal_strlit("tx_type");
    reveal_strlit("from_user_id");
    reveal_strlit("to_user_id");
    reveal_strlit("amount");
    reveal_strlit("timestamp");
    reveal_strlit("status");
    reveal_strlit("description");
    lemma_txt_keys();
    assert("tx_id"@.len() == 5);
    assert("tx_type"@.len() == 7);
    assert("from_user_id"@.len() == 12);
    assert("to_user_id"@.len() == 10);
    assert("amount"@.len() == 6);
    assert("timestamp"@.len() == 9);
    assert("status"@.len() == 6);
    assert("description"@.len() == 11);
    assert("amount"@[0] == 'a');
    assert("status"@[0] == 's');
    assert("TO_USER_ID: "@ =~= "TO_USER_ID"@ + ": "@);
    let d = spec_u64_digits(n as nat);
    let l = "TO_USER_ID"@ + ": "@ + d;
    assert("TO_USER_ID: "@ + d =~= l);
    lemma_txt_kv_shape("TO_USER_ID"@, d);
    assert(l[0] == "TO_USER_ID"@[0]);
    crate::numeral::lemma_parse_u64_digits(n);
    assert(txt_apply_line(acc, l) == Ok::<SpecPartialRecord, TxtLineIssue>(
        SpecPartialRecord { to_user_id: Some(n), ..acc },
    ));
}

/// Applying a written `FROM_USER_ID` line fills the from_user_id field.
proof fn lemma_apply_from_user_id_line(acc: SpecPartialRecord, n: u64)
    requires
        acc.from_user_id is None,
    ensures
        txt_apply_line(acc, "FROM_USER_ID: "@ + spec_u64_digits(n as nat)) == Ok::<
            SpecPartialRecord,
            TxtLineIssue,
        >(SpecPartialRecord { from_user_id: Some(n), ..acc }),
{
    reveal_strlit("FROM_USER_ID: ");
    reveal_strlit("FROM_USER_ID");
    reveal_strlit(": ");
    reveal_strlit("tx_id");
    reveal_strlit("tx_type");
    reveal_strlit("from_user_id");
    reveal_strlit("to_user_id");
    reveal_strlit("amount");
    reveal_strlit("timestamp");
    reveal_strlit("status");
    reveal_strlit("description");
    lemma_txt_keys();
    assert("tx_id"@.len() == 5);
    assert("tx_type"@.len() == 7);
    assert("from_user_id"@.len() == 12);
    assert("to_user_id"@.len() == 10);
    assert("amount"@.len() == 6);
    assert("timestamp"@.len() == 9);
    assert("status"@.len() == 6);
    assert("description"@.len() == 11);
    assert("amount"@[0] == 'a');
    assert("status"@[0] == 's');
    assert("FROM_USER_ID: "@ =~= "FROM_USER_ID"@ + ": "@);
    let d = spec_u64_digits(n as nat);
    let l = "FROM_USER_ID"@ + ": "@ + d;
    assert("FROM_USER_ID: "@ + d =~= l);
    lemma_txt_kv_shape("FROM_USER_ID"@, d);
    assert(l[0] == "FROM_USER_ID"@[0]);
    crate::numeral::lemma_parse_u64_digits(n);
    assert(txt_apply_line(acc, l) == Ok::<SpecPartialRecord, TxtLineIssue>(
        SpecPartialRecord { from_user_id: Some(n), ..acc },
    ));
}

/// Applying a written `AMOUNT` line fills the amount field.
proof fn lemma_apply_amount_line(acc: SpecPartialRecord, n: u64)
    requires
        acc.amount is None,
    ensures
        txt_apply_line(acc, "AMOUNT: "@ + spec_u64_digits(n as nat)) == Ok::<
            SpecPartialRecord,
            TxtLineIssue,
        >(SpecPartialRecord { amount: Some(n), ..acc }),
{
    reveal_strlit("AMOUNT: ");
    reveal_strlit("AMOUNT");
    reveal_strlit(": ");
    reveal_strlit("tx_id");
    reveal_strlit("tx_type");
    reveal_strlit("from_user_id");
    reveal_strlit("to_user_id");
    reveal_strlit("amount");
    reveal_strlit("timestamp");
    reveal_strlit("status");
    reveal_strlit("description");
    lemma_txt_keys();
    assert("tx_id"@.len() == 5);
    assert("tx_type"@.len() == 7);
    assert("from_user_id"@.len() == 12);
    assert("to_user_id"@.len() == 10);
    assert("amount"@.len() == 6);
    assert("timestamp"@.len() == 9);
    assert("status"@.len() == 6);
    assert("description"@.len() == 11);
    assert("amount"@[0] == 'a');
    assert("status"@[0] == 's');
    assert("AMOUNT: "@ =~= "AMOUNT"@ + ": "@);
    let d = spec_u64_digits(n as nat);
    let l = "AMOUNT"@ + ": "@ + d;
    assert("AMOUNT: "@ + d =~= l);
    lemma_txt_kv_shape("AMOUNT"@, d);
    assert(l[0] == "AMOUNT"@[0]);
    crate::numeral::lemma_parse_u64_digits(n);
    assert(txt_apply_line(acc, l) == Ok::<SpecPartialRecord, TxtLineIssue>(
        SpecPartialRecord { amount: Some(n), ..acc },
    ));
}

/// Applying a written `TIMESTAMP` line fills the timestamp field.
proof fn lemma_apply_timestamp_line(acc: SpecPartialRecord, n: u64)
    requires
        acc.timestamp is None,
    ensures
        txt_apply_line(acc, "TIMESTAMP: "@ + spec_u64_digits(n as nat)) == Ok::<
            SpecPartialRecord,
            TxtLineIssue,
        >(SpecPartialRecord { timestamp: Some(n), ..acc }),
{
    reveal_strlit("TIMESTAMP: ");
    reveal_strlit("TIMESTAMP");
    reveal_strlit(": ");
    reveal_strlit("tx_id");
    reveal_strlit("tx_type");
    reveal_strlit("from_user_id");
    reveal_strlit("to_user_id");
    reveal_strlit("amount");
    reveal_strlit("timestamp");
    reveal_strlit("status");
    reveal_strlit("description");
    lemma_txt_keys();
    assert("tx_id"@.len() == 5);
    assert("tx_type"@.len() == 7);
    assert("from_user_id"@.len() == 12);
    assert("to_user_id"@.len() == 10);
    assert("amount"@.len() == 6);
    assert("timestamp"@.len() == 9);
    assert("status"@.len() == 6);
    assert("description"@.len() == 11);
    assert("amount"@[0] == 'a');
    assert("status"@[0] == 's');
    assert("TIMESTAMP: "@ =~= "TIMESTAMP"@ + ": "@);
    let d = spec_u64_digits(n as nat);
    let l = "TIMESTAMP"@ + ": "@ + d;
    assert("TIMESTAMP: "@ + d =~= l);
    lemma_txt_kv_shape("TIMESTAMP"@, d);
    assert(l[0] == "TIMESTAMP"@[0]);
    crate::numeral::lemma_parse_u64_digits(n);
    assert(txt_apply_line(acc, l) == Ok::<SpecPartialRecord, TxtLineIssue>(
        SpecPartialRecord { timestamp: Some(n), ..acc },
    ));
}

/// Applying a written `TX_TYPE` line fills the kind field.
proof fn lemma_apply_tx_type_line(acc: SpecPartialRecord, t: TransactionType)
    requires
        acc.tx_type is None,
    ensures
        txt_apply_line(acc, "TX_TYPE: "@ + type_tag(t)) == Ok::<SpecPartialRecord, TxtLineIssue>(
            SpecPartialRecord { tx_type: Some(t), ..acc },
        ),
{
    reveal_strlit("TX_TYPE: ");
    reveal_strlit("TX_TYPE");
    reveal_strlit(": ");
    reveal_strlit("tx_id");
    reveal_strlit("tx_type");
    reveal_strlit("from_user_id");
    reveal_strlit("to_user_id");
    reveal_strlit("amount");
    reveal_strlit("timestamp");
    reveal_strlit("status");
    reveal_strlit("description");
    lemma_txt_keys();
    assert("tx_id"@.len() == 5);
    assert("tx_type"@.len() == 7);
    assert("from_user_id"@.len() == 12);
    assert("to_user_id"@.len() == 10);
    assert("amount"@.len() == 6);
    assert("timestamp"@.len() == 9);
    assert("status"@.len() == 6);
    assert("description"@.len() == 11);
    assert("amount"@[0] == 'a');
    assert("status"@[0] == 's');
    assert("TX_TYPE: "@ =~= "TX_TYPE"@ + ": "@);
    let d = type_tag(t);
    let l = "TX_TYPE"@ + ": "@ + d;
    assert("TX_TYPE: "@ + d =~= l);
    lemma_txt_kv_shape("TX_TYPE"@, d);
    assert(l[0] == "TX_TYPE"@[0]);
    crate::csv_format::lemma_parse_type_tag(t);
    assert(txt_apply_line(acc, l) == Ok::<SpecPartialRecord, TxtLineIssue>(
        SpecPartialRecord { tx_type: Some(t), ..acc },
    ));
}

/// Applying a written `STATUS` line fills the status field.
proof fn lemma_apply_status_line(acc: SpecPartialRecord, st: TransactionStatus)
    requires
        acc.status is None,
    ensures
        txt_apply_line(acc, "STATUS: "@ + status_tag(st)) == Ok::<SpecPartialRecord, TxtLineIssue>(
            SpecPartialRecord { status: Some(st), ..acc },
        ),
{
    reveal_strlit("STATUS: ");
    reveal_strlit("STATUS");
    reveal_strlit(": ");
    reveal_strlit("tx_id");
    reveal_strlit("tx_type");
    reveal_strlit("from_user_id");
    reveal_strlit("to_user_id");
    reveal_strlit("amount");
    reveal_strlit("timestamp");
    reveal_strlit("status");
    reveal_strlit("description");
    lemma_txt_keys();
    assert("tx_id"@.len() == 5);
    assert("tx_type"@.len() == 7);
    assert("from_user_id"@.len() == 12);
    assert("to_user_id"@.len() == 10);
    assert("amount"@.len() == 6);
    assert("timestamp"@.len() == 9);
    assert("status"@.len() == 6);
    assert("description"@.len() == 11);
    assert("amount"@[0] == 'a');
    assert("status"@[0] == 's');
    assert("STATUS: "@ =~= "STATUS"@ + ": "@);
    let d = status_tag(st);
    let l = "STATUS"@ + ": "@ + d;
    assert("STATUS: "@ + d =~= l);
    lemma_txt_kv_shape("STATUS"@, d);
    assert(l[0] == "STATUS"@[0]);
    crate::csv_format::lemma_parse_status_tag(st);
    assert(txt_apply_line(acc, l) == Ok::<SpecPartialRecord, TxtLineIssue>(
        SpecPartialRecord { status: Some(st), ..acc },
    ));
}

/// Applying a written `DESCRIPTION` line fills the description field.
proof fn lemma_apply_description_line(acc: SpecPartialRecord, d: Seq<char>)
    requires
        acc.description is None,
        !d.contains('"'),
    ensures
        txt_apply_line(acc, "DESCRIPTION: "@ + seq!['"'] + d + seq!['"']) == Ok::<
            SpecPartialRecord,
            TxtLineIssue,
        >(SpecPartialRecord { description: Some(d), ..acc }),
{
    reveal_strlit("DESCRIPTION: ");
    reveal_strlit("DESCRIPTION");
    reveal_strlit(": ");
    reveal_strlit("tx_id");
    reveal_strlit("tx_type");
    reveal_strlit("from_user_id");
    reveal_strlit("to_user_id");
    reveal_strlit("amount");
    reveal_strlit("timestamp");
    reveal_strlit("status");
    reveal_strlit("description");
    lemma_txt_keys();
    assert("tx_id"@.len() == 5);
    assert("tx_type"@.len() == 7);
    assert("from_user_id"@.len() == 12);
    assert("to_user_id"@.len() == 10);
    assert("amount"@.len() == 6);
    assert("timestamp"@.len() == 9);
    assert("status"@.len() == 6);
    assert("description"@.len() == 11);
    assert("amount"@[0] == 'a');
    assert("status"@[0] == 's');
    let q = seq!['"'] + d + seq!['"'];
    assert("DESCRIPTION: "@ + seq!['"'] + d + seq!['"'] =~= "DESCRIPTION"@ + ": "@ + q);
    let l = "DESCRIPTION"@ + ": "@ + q;
    lemma_txt_kv_shape("DESCRIPTION"@, q);
    assert(l[0] == "DESCRIPTION"@[0]);
    crate::chars::lemma_unquote_quoted(d);
    assert(txt_apply_line(acc, l) == Ok::<SpecPartialRecord, TxtLineIssue>(
        SpecPartialRecord { description: Some(d), ..acc },
    ));
}

/// A record-header comment line passes the partial record through.
proof fn lemma_apply_header_line(acc: SpecPartialRecord, tx: SpecTransaction, numb: nat)
    ensures
        txt_apply_line(acc, txt_record_lines(tx, numb)[0]) == Ok::<
            SpecPartialRecord,
            TxtLineIssue,
        >(acc),
{
    reveal_strlit("# Record ");
    let l = txt_record_lines(tx, numb)[0];
    assert(l[0] == "# Record "@[0]);
    assert(l[0] == '#');
    assert(l.len() > 0);
}

/// Decoding one encoded paragraph yields the record it was written from.
#[verifier::rlimit(100)]
proof fn lemma_txt_para_roundtrip(tx: SpecTransaction, numb: nat, idx: nat)
    requires
        !tx.description.contains('"'),
    ensures
        txt_para_result(txt_record_lines(tx, numb), idx) == Ok::<
            SpecTransaction,
            SpecParserError,
        >(tx),
{
    let rl = txt_record_lines(tx, numb);
    let a0 = txt_empty_partial();
    lemma_apply_header_line(a0, tx, numb);
    let a1 = SpecPartialRecord { tx_id: Some(tx.tx_id), ..a0 };
    lemma_apply_tx_id_line(a0, tx.tx_id);
    let a2 = SpecPartialRecord { tx_type: Some(tx.tx_type), ..a1 };
    lemma_apply_tx_type_line(a1, tx.tx_type);
    let a3 = SpecPartialRecord { to_user_id: Some(tx.to_user_id), ..a2 };
    lemma_apply_to_user_id_line(a2, tx.to_user_id);
    let a4 = SpecPartialRecord { from_user_id: Some(tx.from_user_id), ..a3 };
    lemma_apply_from_user_id_line(a3, tx.from_user_id);
    let a5 = SpecPartialRecord { amount: Some(tx.amount), ..a4 };
    lemma_apply_amount_line(a4, tx.amount);
    let a6 = SpecPartialRecord { timestamp: Some(tx.timestamp), ..a5 };
    lemma_apply_timestamp_line(a5, tx.timestamp);
    let a7 = SpecPartialRecord { status: Some(tx.status), ..a6 };
    lemma_apply_status_line(a6, tx.status);
    let a8 = SpecPartialRecord { description: Some(tx.description), ..a7 };
    lemma_apply_description_line(a7, tx.description);
    reveal_with_fuel(txt_fill, 11);
    assert(rl.skip(0) =~= rl);
    assert(rl.skip(0).drop_first() =~= rl.skip(1));
    assert(rl.skip(1).drop_first() =~= rl.skip(2));
    assert(rl.skip(2).drop_first() =~= rl.skip(3));
    assert(rl.skip(3).drop_first() =~= rl.skip(4));
    assert(rl.skip(4).drop_first() =~= rl.skip(5));
    assert(rl.skip(5).drop_first() =~= rl.skip(6));
    assert(rl.skip(6).drop_first() =~= rl.skip(7));
    assert(rl.skip(7).drop_first() =~= rl.skip(8));
    assert(rl.skip(8).drop_first() =~= rl.skip(9));
    assert(rl.skip(9) =~= Seq::<Seq<char>>::empty());
    assert(rl.skip(0)[0] == rl[0]);
    assert(rl.skip(1)[0] == rl[1]);
    assert(rl.skip(2)[0] == rl[2]);
    assert(rl.skip(3)[0] == rl[3]);
    assert(rl.skip(4)[0] == rl[4]);
    assert(rl.skip(5)[0] == rl[5]);
    assert(rl.skip(6)[0] == rl[6]);
    assert(rl.skip(7)[0] == rl[7]);
    assert(rl.skip(8)[0] == rl[8]);
    assert(txt_fill(a0, rl) == Ok::<SpecPartialRecord, TxtLineIssue>(a8));
    assert(txt_complete(a8) == Some(tx)) by {
        assert(txt_complete(a8).unwrap() =~= tx);
    }
}

/// Holds of a description the block text format can carry faithfully: no
/// line break — lines delimit the format — and no double quote, which would
/// break the quoting of the description value.
pub open spec fn txt_desc_ok(d: Seq<char>) -> bool {
    !d.contains('\n') && !d.contains('"')
}

/// Line breaks survive no concatenation of line-break-free parts.
proof fn lemma_nonl_concat(a: Seq<char>, b: Seq<char>)
    requires
        !a.contains('\n'),
        !b.contains('\n'),
    ensures
        !(a + b).contains('\n'),
{
    if (a + b).contains('\n') {
        let p = choose|p: int| 0 <= p < (a + b).len() && (a + b)[p] == '\n';
        if p < a.len() {
            assert(a[p] == '\n');
        } else {
            assert(b[p - a.len()] == '\n');
        }
    }
}

/// A numeral holds no line break.
proof fn lemma_digits_nonl(n: nat)
    ensures
        !spec_u64_digits(n).contains('\n'),
{
    crate::numeral::lemma_u64_digits_correct(n);
    if spec_u64_digits(n).contains('\n') {
        let p = choose|p: int|
            0 <= p < spec_u64_digits(n).len() && spec_u64_digits(n)[p] == '\n';
        assert(crate::numeral::is_digit_char(spec_u64_digits(n)[p]));
    }
}

/// A kind tag holds no line break.
proof fn lemma_type_tag_nonl(t: TransactionType)
    ensures
        !type_tag(t).contains('\n'),
{
    crate::lemma_type_tag_chars(t);
    if type_tag(t).contains('\n') {
        let p = choose|p: int| 0 <= p < type_tag(t).len() && type_tag(t)[p] == '\n';
        assert(crate::chars::is_upper_char(type_tag(t)[p]));
    }
}

/// A status tag holds no line break.
proof fn lemma_status_tag_nonl(st: TransactionStatus)
    ensures
        !status_tag(st).contains('\n'),
{
    crate::lemma_status_tag_chars(st);
    if status_tag(st).contains('\n') {
        let p = choose|p: int| 0 <= p < status_tag(st).len() && status_tag(st)[p] == '\n';
        assert(crate::chars::is_upper_char(status_tag(st)[p]));
    }
}

/// The literal pieces the text encoder writes hold no line break.
#[verifier::rlimit(100)]
proof fn lemma_txt_literals_nonl()
    ensures
        !"# Record "@.contains('\n'),
        !" ("@.contains('\n'),
        !")"@.contains('\n'),
        !"TX_ID: "@.contains('\n'),
        !"TX_TYPE: "@.contains('\n'),
        !"TO_USER_ID: "@.contains('\n'),
        !"FROM_USER_ID: "@.contains('\n'),
        !"AMOUNT: "@.contains('\n'),
        !"TIMESTAMP: "@.contains('\n'),
        !"STATUS: "@.contains('\n'),
        !"DESCRIPTION: "@.contains('\n'),
        !seq!['"'].contains('\n'),
{
    reveal_strlit("# Record ");
    reveal_strlit(" (");
    reveal_strlit(")");
    reveal_strlit("TX_ID: ");
    reveal_strlit("TX_TYPE: ");
    reveal_strlit("TO_USER_ID: ");
    reveal_strlit("FROM_USER_ID: ");
    reveal_strlit("AMOUNT: ");
    reveal_strlit("TIMESTAMP: ");
    reveal_strlit("STATUS: ");
    reveal_strlit("DESCRIPTION: ");
    assert forall|p: int| 0 <= p < "# Record "@.len() implies #[trigger] "# Record "@[p] != '\n'
        by {}
    assert forall|p: int| 0 <= p < " ("@.len() implies #[trigger] " ("@[p] != '\n' by {}
    assert forall|p: int| 0 <= p < ")"@.len() implies #[trigger] ")"@[p] != '\n' by {}
    assert forall|p: int| 0 <= p < "TX_ID: "@.len() implies #[trigger] "TX_ID: "@[p] != '\n' by {}
    assert forall|p: int| 0 <= p < "TX_TYPE: "@.len() implies #[trigger] "TX_TYPE: "@[p] != '\n'
        by {}
    assert forall|p: int|
        0 <= p < "TO_USER_ID: "@.len() implies #[trigger] "TO_USER_ID: "@[p] != '\n' by {}
    assert forall|p: int|
        0 <= p < "FROM_USER_ID: "@.len() implies #[trigger] "FROM_USER_ID: "@[p] != '\n' by {}
    assert forall|p: int| 0 <= p < "AMOUNT: "@.len() implies #[trigger] "AMOUNT: "@[p] != '\n'
        by {}
    assert forall|p: int|
        0 <= p < "TIMESTAMP: "@.len() implies #[trigger] "TIMESTAMP: "@[p] != '\n' by {}
    assert forall|p: int| 0 <= p < "STATUS: "@.len() implies #[trigger] "STATUS: "@[p] != '\n'
        by {}
    assert forall|p: int|
        0 <= p < "DESCRIPTION: "@.len() implies #[trigger] "DESCRIPTION: "@[p] != '\n' by {}
}

/// Every line one record writes is nonempty, survives trimming unchanged,
/// and holds no line break.
#[verifier::rlimit(100)]
proof fn lemma_txt_line_facts(tx: SpecTransaction, numb: nat)
    requires
        !tx.description.contains('\n'),
    ensures
        forall|j: int|
            0 <= j < txt_record_lines(tx, numb).len() ==> {
                let ln = #[trigger] txt_record_lines(tx, numb)[j];
                ln.len() > 0 && crate::chars::trim_spec(ln) == ln && !ln.contains('\n')
            },
{
    reveal_strlit("# Record ");
    reveal_strlit(")");
    reveal_strlit("TX_ID: ");
    reveal_strlit("TX_TYPE: ");
    reveal_strlit("TO_USER_ID: ");
    reveal_strlit("FROM_USER_ID: ");
    reveal_strlit("AMOUNT: ");
    reveal_strlit("TIMESTAMP: ");
    reveal_strlit("STATUS: ");
    reveal_strlit("DESCRIPTION: ");
    lemma_txt_literals_nonl();
    lemma_digits_nonl(numb);
    lemma_digits_nonl(tx.tx_id as nat);
    lemma_digits_nonl(tx.to_user_id as nat);
    lemma_digits_nonl(tx.from_user_id as nat);
    lemma_digits_nonl(tx.amount as nat);
    lemma_digits_nonl(tx.timestamp as nat);
    lemma_type_tag_nonl(tx.tx_type);
    lemma_status_tag_nonl(tx.status);
    crate::numeral::lemma_u64_digits_correct(numb);
    crate::numeral::lemma_u64_digits_correct(tx.tx_id as nat);
    crate::numeral::lemma_u64_digits_correct(tx.to_user_id as nat);
    crate::numeral::lemma_u64_digits_correct(tx.from_user_id as nat);
    crate::numeral::lemma_u64_digits_correct(tx.amount as nat);
    crate::numeral::lemma_u64_digits_correct(tx.timestamp as nat);
    crate::lemma_type_tag_chars(tx.tx_type);
    crate::lemma_status_tag_chars(tx.status);
    let rl = txt_record_lines(tx, numb);
    assert forall|j: int| 0 <= j < rl.len() implies {
        let ln = #[trigger] rl[j];
        ln.len() > 0 && crate::chars::trim_spec(ln) == ln && !ln.contains('\n')
    } by {
        let ln = rl[j];
        if j == 0 {
            assert(ln == "# Record "@ + spec_u64_digits(numb) + " ("@ + type_tag(tx.tx_type)
                + ")"@);
            lemma_nonl_concat("# Record "@, spec_u64_digits(numb));
            lemma_nonl_concat("# Record "@ + spec_u64_digits(numb), " ("@);
            lemma_nonl_concat("# Record "@ + spec_u64_digits(numb) + " ("@, type_tag(tx.tx_type));
            lemma_nonl_concat(
                "# Record "@ + spec_u64_digits(numb) + " ("@ + type_tag(tx.tx_type),
                ")"@,
            );
            assert(ln[0] == "# Record "@[0]);
            assert(ln.last() == ")"@[0]);
            crate::chars::lemma_trim_clean(ln);
        } else if j == 8 {
            assert(ln == "DESCRIPTION: "@ + seq!['"'] + tx.description + seq!['"']);
            lemma_nonl_concat("DESCRIPTION: "@, seq!['"']);
            lemma_nonl_concat("DESCRIPTION: "@ + seq!['"'], tx.description);
            lemma_nonl_concat("DESCRIPTION: "@ + seq!['"'] + tx.description, seq!['"']);
            assert(ln[0] == "DESCRIPTION: "@[0]);
            assert(ln.last() == '"');
            crate::chars::lemma_trim_clean(ln);
        } else {
            if j == 1 {
                assert(ln == "TX_ID: "@ + spec_u64_digits(tx.tx_id as nat));
                lemma_nonl_concat("TX_ID: "@, spec_u64_digits(tx.tx_id as nat));
                assert(ln[0] == "TX_ID: "@[0]);
                assert(ln.last() == spec_u64_digits(tx.tx_id as nat).last());
                assert(crate::numeral::is_digit_char(ln.last()));
            } else if j == 2 {
                assert(ln == "TX_TYPE: "@ + type_tag(tx.tx_type));
                lemma_nonl_concat("TX_TYPE: "@, type_tag(tx.tx_type));
                assert(ln[0] == "TX_TYPE: "@[0]);
                assert(ln.last() == type_tag(tx.tx_type).last());
                assert(crate::chars::is_upper_char(ln.last()));
            } else if j == 3 {
                assert(ln == "TO_USER_ID: "@ + spec_u64_digits(tx.to_user_id as nat));
                lemma_nonl_concat("TO_USER_ID: "@, spec_u64_digits(tx.to_user_id as nat));
                assert(ln[0] == "TO_USER_ID: "@[0]);
                assert(ln.last() == spec_u64_digits(tx.to_user_id as nat).last());
                assert(crate::numeral::is_digit_char(ln.last()));
            } else if j == 4 {
                assert(ln == "FROM_USER_ID: "@ + spec_u64_digits(tx.from_user_id as nat));
                lemma_nonl_concat("FROM_USER_ID: "@, spec_u64_digits(tx.from_user_id as nat));
                assert(ln[0] == "FROM_USER_ID: "@[0]);
                assert(ln.last() == spec_u64_digits(tx.from_user_id as nat).last());
                assert(crate::numeral::is_digit_char(ln.last()));
            } else if j == 5 {
                assert(ln == "AMOUNT: "@ + spec_u64_digits(tx.amount as nat));
                lemma_nonl_concat("AMOUNT: "@, spec_u64_digits(tx.amount as nat));
                assert(ln[0] == "AMOUNT: "@[0]);
                assert(ln.last() == spec_u64_digits(tx.amount as nat).last());
                assert(crate::numeral::is_digit_char(ln.last()));
            } else if j == 6 {
                assert(ln == "TIMESTAMP: "@ + spec_u64_digits(tx.timestamp as nat));
                lemma_nonl_concat("TIMESTAMP: "@, spec_u64_digits(tx.timestamp as nat));
                assert(ln[0] == "TIMESTAMP: "@[0]);
                assert(ln.last() == spec_u64_digits(tx.timestamp as nat).last());
                assert(crate::numeral::is_digit_char(ln.last()));
            } else {
                assert(ln == "STATUS: "@ + status_tag(tx.status));
                lemma_nonl_concat("STATUS: "@, status_tag(tx.status));
                assert(ln[0] == "STATUS: "@[0]);
                assert(ln.last() == status_tag(tx.status).last());
                assert(crate::chars::is_upper_char(ln.last()));
            }
            crate::chars::lemma_trim_clean(ln);
        }
    }
}

/// A final blank line adds no paragraph.
proof fn lemma_paragraphs_drop_empty(ls: Seq<Seq<char>>)
    ensures
        txt_paragraphs(ls.push(Seq::<char>::empty())) == txt_paragraphs(ls),
{
    assert(ls.push(Seq::<char>::empty()).last().len() == 0);
    assert(ls.push(Seq::<char>::empty()).drop_last() =~= ls);
}

/// A run of nonempty lines after a blank boundary forms one paragraph of
/// its own.
proof fn lemma_paragraphs_block(pre: Seq<Seq<char>>, block: Seq<Seq<char>>)
    requires
        pre.len() == 0 || pre.last().len() == 0,
        block.len() >= 1,
        forall|i: int| 0 <= i < block.len() ==> (#[trigger] block[i]).len() > 0,
    ensures
        txt_paragraphs(pre + block) == txt_paragraphs(pre).push(block),
    decreases block.len(),
{
    if block.len() == 1 {
        assert((pre + block).last() == block[0]);
        assert(block[0].len() > 0);
        assert((pre + block).drop_last() =~= pre);
        assert(txt_paragraphs(pre + block) == txt_paragraphs(pre).push(seq![block[0]]));
        assert(seq![block[0]] =~= block);
    } else {
        let b0 = block.drop_last();
        assert(forall|i: int| 0 <= i < b0.len() ==> (#[trigger] b0[i]).len() > 0) by {
            assert(forall|i: int| 0 <= i < b0.len() ==> b0[i] == block[i]);
        }
        lemma_paragraphs_block(pre, b0);
        assert((pre + block).drop_last() =~= pre + b0);
        assert((pre + block).last() == block.last());
        assert(block.last().len() > 0) by {
            assert(block[block.len() - 1] == block.last());
        }
        assert((pre + b0).len() > 0);
        assert((pre + b0).last() == b0.last());
        assert(b0.last().len() > 0) by {
            assert(b0[b0.len() - 1] == b0.last());
        }
        let g = txt_paragraphs(pre + b0);
        assert(g == txt_paragraphs(pre).push(b0));
        assert(txt_paragraphs(pre + block) == g.update(g.len() - 1, g.last().push(block.last())));
        assert(g.update(g.len() - 1, g.last().push(block.last())) =~~= txt_paragraphs(pre).push(
            b0.push(block.last()),
        ));
        assert(b0.push(block.last()) =~= block);
    }
}

/// The encoded line list is empty or closes with a blank line.
proof fn lemma_txt_all_lines_shape(l: Seq<SpecTransaction>)
    ensures
        l.len() > 0 ==> txt_all_lines(l).len() > 0 && txt_all_lines(l).last().len() == 0,
{
    if l.len() > 0 {
        assert(txt_all_lines(l).last() == Seq::<char>::empty());
    }
}

/// The encoded lines group back into one paragraph per record.
proof fn lemma_txt_paragraphs_encoded(l: Seq<SpecTransaction>)
    requires
        forall|i: int| 0 <= i < l.len() ==> !(#[trigger] l[i]).description.contains('\n'),
    ensures
        txt_paragraphs(txt_all_lines(l)) == Seq::new(
            l.len(),
            |k: int| txt_record_lines(l[k], (k + 1) as nat),
        ),
    decreases l.len(),
{
    if l.len() == 0 {
        assert(txt_paragraphs(txt_all_lines(l)) =~~= Seq::new(
            l.len(),
            |k: int| txt_record_lines(l[k], (k + 1) as nat),
        ));
    } else {
        let dl = l.drop_last();
        assert(forall|i: int| 0 <= i < dl.len() ==> !(#[trigger] dl[i]).description.contains('\n'))
            by {
            assert(forall|i: int| 0 <= i < dl.len() ==> dl[i] == l[i]);
        }
        lemma_txt_paragraphs_encoded(dl);
        let rl = txt_record_lines(l.last(), l.len());
        lemma_txt_line_facts(l.last(), l.len());
        assert(txt_all_lines(l) == txt_all_lines(dl) + rl + seq![Seq::<char>::empty()]);
        assert(txt_all_lines(dl) + rl + seq![Seq::<char>::empty()] =~= (txt_all_lines(dl)
            + rl).push(Seq::<char>::empty()));
        lemma_paragraphs_drop_empty(txt_all_lines(dl) + rl);
        lemma_txt_all_lines_shape(dl);
        lemma_paragraphs_block(txt_all_lines(dl), rl);
        assert(txt_paragraphs(txt_all_lines(l)) == txt_paragraphs(txt_all_lines(dl)).push(rl));
        assert(txt_paragraphs(txt_all_lines(dl)).push(rl) =~~= Seq::new(
            l.len(),
            |k: int| txt_record_lines(l[k], (k + 1) as nat),
        )) by {
            assert(forall|k: int| 0 <= k < dl.len() ==> dl[k] == l[k]);
        }
    }
}

/// Decoding the encoded paragraphs yields the records back: the paragraph
/// of record `base + k + 1` sits at position `k`, and errors would be
/// counted from record index `idx` on.
proof fn lemma_txt_parse_encoded(l: Seq<SpecTransaction>, base: nat, idx: nat)
    requires
        forall|i: int| 0 <= i < l.len() ==> txt_desc_ok((#[trigger] l[i]).description),
    ensures
        spec_txt_parse_paras(
            Seq::new(l.len(), |k: int| txt_record_lines(l[k], (base + k + 1) as nat)),
            idx,
        ) == Ok::<Seq<SpecTransaction>, SpecParserError>(l),
    decreases l.len(),
{
    let ps = Seq::new(l.len(), |k: int| txt_record_lines(l[k], (base + k + 1) as nat));
    if l.len() == 0 {
        assert(l =~= Seq::<SpecTransaction>::empty());
    } else {
        assert(ps[0] == txt_record_lines(l[0], (base + 1) as nat));
        lemma_txt_para_roundtrip(l[0], (base + 1) as nat, idx);
        let tl = l.drop_first();
        assert(forall|i: int| 0 <= i < tl.len() ==> txt_desc_ok((#[trigger] tl[i]).description))
            by {
            assert(forall|i: int| 0 <= i < tl.len() ==> tl[i] == l[i + 1]);
        }
        lemma_txt_parse_encoded(tl, base + 1, idx + 1);
        assert(ps.drop_first() =~~= Seq::new(
            tl.len(),
            |k: int| txt_record_lines(tl[k], (base + 1 + k + 1) as nat),
        )) by {
            assert(forall|k: int| 0 <= k < tl.len() ==> tl[k] == l[k + 1]);
        }
        assert(seq![l[0]] + tl =~= l);
    }
}

/// Round-trip law for the block text codec: decoding an encoded record list
/// yields the list back, for any list whose descriptions the format can
/// carry faithfully.
#[verifier::rlimit(100)]
pub proof fn lemma_txt_round_trip(l: Seq<SpecTransaction>)
    requires
        forall|i: int| 0 <= i < l.len() ==> txt_desc_ok((#[trigger] l[i]).description),
    ensures
        spec_txt_decode(spec_txt_encode(l)) == Ok::<Seq<SpecTransaction>, SpecParserError>(l),
{
    let chars = spec_txt_encode_chars(l);
    vstd::utf8::encode_utf8_valid_utf8(chars);
    vstd::utf8::encode_utf8_decode_utf8(chars);
    assert(spec_txt_decode(spec_txt_encode(l)) == spec_txt_decode_chars(chars));
    let all = txt_all_lines(l);
    // every written line is free of line breaks, so splitting recovers them
    assert forall|j: int| 0 <= j < all.len() implies !(#[trigger] all[j]).contains('\n') && (
    all[j].len() == 0 || crate::chars::trim_spec(all[j]) == all[j]) by {
        lemma_txt_all_lines_elem(l, j);
    }
    crate::chars::lemma_split_join(all, '\n');
    assert(split_char_spec(chars, '\n') == all.push(Seq::<char>::empty()));
    let trimmed = trim_all_spec(all.push(Seq::<char>::empty()));
    assert(trimmed =~~= all.push(Seq::<char>::empty())) by {
        assert forall|j: int| 0 <= j < all.push(Seq::<char>::empty()).len() implies trim_all_spec(
            all.push(Seq::<char>::empty()),
        )[j] == all.push(Seq::<char>::empty())[j] by {
            let e = all.push(Seq::<char>::empty())[j];
            if j < all.len() {
                if e.len() == 0 {
                    assert(crate::chars::trim_spec(e) == e);
                }
            } else {
                assert(e =~= Seq::<char>::empty());
                assert(crate::chars::trim_spec(e) == e);
            }
        }
    }
    lemma_paragraphs_drop_empty(all);
    lemma_txt_paragraphs_encoded(l);
    lemma_txt_parse_encoded(l, 0, 0);
    assert(Seq::new(l.len(), |k: int| txt_record_lines(l[k], (0 + k + 1) as nat)) =~~= Seq::new(
        l.len(),
        |k: int| txt_record_lines(l[k], (k + 1) as nat),
    ));
}

/// Every element of the encoded line list is a record line or a blank
/// separator, so it is line-break-free and trim-clean.
proof fn lemma_txt_all_lines_elem(l: Seq<SpecTransaction>, j: int)
    requires
        forall|i: int| 0 <= i < l.len() ==> txt_desc_ok((#[trigger] l[i]).description),
        0 <= j < txt_all_lines(l).len(),
    ensures
        !txt_all_lines(l)[j].contains('\n'),
        txt_all_lines(l)[j].len() == 0 || crate::chars::trim_spec(txt_all_lines(l)[j])
            == txt_all_lines(l)[j],
    decreases l.len(),
{
    if l.len() > 0 {
        let dl = l.drop_last();
        let rl = txt_record_lines(l.last(), l.len());
        assert(txt_all_lines(l) == txt_all_lines(dl) + rl + seq![Seq::<char>::empty()]);
        if j < txt_all_lines(dl).len() {
            assert(forall|i: int|
                0 <= i < dl.len() ==> txt_desc_ok((#[trigger] dl[i]).description)) by {
                assert(forall|i: int| 0 <= i < dl.len() ==> dl[i] == l[i]);
            }
            lemma_txt_all_lines_elem(dl, j);
            assert(txt_all_lines(l)[j] == txt_all_lines(dl)[j]);
        } else if j < txt_all_lines(dl).len() + rl.len() {
            lemma_txt_line_facts(l.last(), l.len());
            assert(txt_all_lines(l)[j] == rl[j - txt_all_lines(dl).len()]);
        } else {
            assert(txt_all_lines(l)[j] =~= Seq::<char>::empty());
        }
    }
}

} // verus!
