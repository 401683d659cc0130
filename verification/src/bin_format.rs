//! The length-framed binary format.
//!
//! Every record travels as one frame: a four-byte magic marker, a body
//! length, the eight fixed fields big-endian, a four-byte description length
//! and the raw description bytes.  Decoding consumes frames until the magic
//! no longer matches or the bytes run out at a frame boundary; a short read
//! anywhere after a matched magic is a hard error, never a silent
//! truncation.

use vstd::prelude::*;
use vstd::utf8::decode_utf8;
use vstd::utf8::encode_utf8;
use vstd::utf8::valid_utf8;

use crate::error::ParserError;
use crate::error::SpecParserError;
use crate::SpecTransaction;
use crate::Transaction;
use crate::TransactionStatus;
use crate::TransactionType;
use crate::TransactionsFormatType;
use crate::TransactionsParser;

verus! {

/// Reads and writes the length-framed binary format.
#[derive(Default)]
pub struct BinParser {}

/// The four magic bytes `YPBN` that open every frame.
pub open spec fn magic_bytes() -> Seq<u8> {
    seq![89u8, 80u8, 66u8, 78u8]
}

/// The big-endian bytes of a 32-bit value.
pub open spec fn u32_be(x: u32) -> Seq<u8> {
    seq![(x >> 24) as u8, (x >> 16) as u8, (x >> 8) as u8, x as u8]
}

/// The 32-bit value four big-endian bytes spell.
pub open spec fn u32_from_be(b: Seq<u8>) -> u32
    recommends
        b.len() == 4,
{
    ((b[0] as u32) << 24) | ((b[1] as u32) << 16) | ((b[2] as u32) << 8) | (b[3] as u32)
}

/// The big-endian bytes of a 64-bit value.
pub open spec fn u64_be(x: u64) -> Seq<u8> {
    seq![
        (x >> 56) as u8,
        (x >> 48) as u8,
        (x >> 40) as u8,
        (x >> 32) as u8,
        (x >> 24) as u8,
        (x >> 16) as u8,
        (x >> 8) as u8,
        x as u8,
    ]
}

/// The 64-bit value eight big-endian bytes spell.
pub open spec fn u64_from_be(b: Seq<u8>) -> u64
    recommends
        b.len() == 8,
{
    ((b[0] as u64) << 56) | ((b[1] as u64) << 48) | ((b[2] as u64) << 40) | ((b[3] as u64) << 32)
        | ((b[4] as u64) << 24) | ((b[5] as u64) << 16) | ((b[6] as u64) << 8) | (b[7] as u64)
}

/// Writing a 32-bit value big-endian and reading it back is the identity.
pub proof fn lemma_u32_be_roundtrip(x: u32)
    ensures
        u32_from_be(u32_be(x)) == x,
{
    assert((((x >> 24) as u8 as u32) << 24) | (((x >> 16) as u8 as u32) << 16) | (((x
        >> 8) as u8 as u32) << 8) | (x as u8 as u32) == x) by (bit_vector);
}

/// Writing a 64-bit value big-endian and reading it back is the identity.
pub proof fn lemma_u64_be_roundtrip(x: u64)
    ensures
        u64_from_be(u64_be(x)) == x,
{
    assert((((x >> 56) as u8 as u64) << 56) | (((x >> 48) as u8 as u64) << 48) | (((x
        >> 40) as u8 as u64) << 40) | (((x >> 32) as u8 as u64) << 32) | (((x
        >> 24) as u8 as u64) << 24) | (((x >> 16) as u8 as u64) << 16) | (((x
        >> 8) as u8 as u64) << 8) | (x as u8 as u64) == x) by (bit_vector);
}

/// The byte the binary format stores for a transaction kind.
pub open spec fn type_byte(t: TransactionType) -> u8 {
    match t {
        TransactionType::DEPOSIT => 0,
        TransactionType::TRANSFER => 1,
        TransactionType::WITHDRAWAL => 2,
        TransactionType::EMPTY => 3,
    }
}

/// The transaction kind a stored byte stands for; unknown bytes fall to the
/// sentinel.
pub open spec fn byte_type(b: u8) -> TransactionType {
    if b == 0 {
        TransactionType::DEPOSIT
    } else if b == 1 {
        TransactionType::TRANSFER
    } else if b == 2 {
        TransactionType::WITHDRAWAL
    } else {
        TransactionType::EMPTY
    }
}

/// The byte the binary format stores for a transaction status.
pub open spec fn status_byte(st: TransactionStatus) -> u8 {
    match st {
        TransactionStatus::SUCCESS => 0,
        TransactionStatus::FAILURE => 1,
        TransactionStatus::PENDING => 2,
        TransactionStatus::EMPTY => 3,
    }
}

/// The transaction status a stored byte stands for; unknown bytes fall to
/// the sentinel.
pub open spec fn byte_status(b: u8) -> TransactionStatus {
    if b == 0 {
        TransactionStatus::SUCCESS
    } else if b == 1 {
        TransactionStatus::FAILURE
    } else if b == 2 {
        TransactionStatus::PENDING
    } else {
        TransactionStatus::EMPTY
    }
}

/// The UTF-8 bytes of a record's description.
pub open spec fn desc_bytes(tx: SpecTransaction) -> Seq<u8> {
    encode_utf8(tx.description)
}

/// Whether one record fits the binary layout: its description bytes must be
/// countable by the 32-bit body-length field, which also covers the 46
/// fixed body bytes.
pub open spec fn spec_frame_fits(tx: SpecTransaction) -> bool {
    desc_bytes(tx).len() + 46 <= u32::MAX
}

/// One encoded frame: magic, body length, the eight fixed fields, the
/// description length, then the raw description bytes.
pub open spec fn spec_frame(tx: SpecTransaction) -> Seq<u8> {
    magic_bytes() + u32_be((46 + desc_bytes(tx).len()) as u32) + u64_be(tx.tx_id)
        + seq![type_byte(tx.tx_type)] + u64_be(tx.from_user_id) + u64_be(tx.to_user_id) + u64_be(
        tx.amount,
    ) + u64_be(tx.timestamp) + seq![status_byte(tx.status)] + u32_be(
        desc_bytes(tx).len() as u32,
    ) + desc_bytes(tx)
}

/// The whole binary stream of a record list: the frames in order.
pub open spec fn spec_bin_encode(records: Seq<SpecTransaction>) -> Seq<u8>
    decreases records.len(),
{
    if records.len() == 0 {
        Seq::<u8>::empty()
    } else {
        spec_bin_encode(records.drop_last()) + spec_frame(records.last())
    }
}

/// Encoding a concatenation of record lists concatenates their streams.
pub proof fn lemma_bin_encode_append(a: Seq<SpecTransaction>, b: Seq<SpecTransaction>)
    ensures
        spec_bin_encode(a + b) == spec_bin_encode(a) + spec_bin_encode(b),
    decreases b.len(),
{
    if b.len() == 0 {
        assert(a + b =~= a);
        assert(spec_bin_encode(a) + spec_bin_encode(b) =~= spec_bin_encode(a));
    } else {
        lemma_bin_encode_append(a, b.drop_last());
        assert((a + b).drop_last() =~= a + b.drop_last());
        assert((a + b).last() == b.last());
        assert(spec_bin_encode(a) + spec_bin_encode(b.drop_last()) + spec_frame(b.last())
            =~= spec_bin_encode(a) + (spec_bin_encode(b.drop_last()) + spec_frame(b.last())));
    }
}

/// What decoding yields from `bytes` when `idx` records have already been
/// collected ahead of it: too few bytes for a magic, or a mismatched magic,
/// ends the stream; after a matched magic every field is owed, and a short
/// read is a hard error.
pub open spec fn spec_bin_decode_frames(bytes: Seq<u8>, idx: nat) -> Result<
    Seq<SpecTransaction>,
    SpecParserError,
>
    decreases bytes.len(),
{
    if bytes.len() < 4 {
        Ok(Seq::<SpecTransaction>::empty())
    } else if bytes.take(4) != magic_bytes() {
        Ok(Seq::<SpecTransaction>::empty())
    } else if bytes.len() < 54 {
        Err(SpecParserError::Io)
    } else {
        let dlen = u32_from_be(bytes.subrange(50, 54)) as int;
        if bytes.len() < 54 + dlen {
            Err(SpecParserError::Io)
        } else if !valid_utf8(bytes.subrange(54, 54 + dlen)) {
            Err(SpecParserError::InvalidValue { tx_numb: idx as usize })
        } else {
            let tx = SpecTransaction {
                tx_id: u64_from_be(bytes.subrange(8, 16)),
                tx_type: byte_type(bytes[16]),
                from_user_id: u64_from_be(bytes.subrange(17, 25)),
                to_user_id: u64_from_be(bytes.subrange(25, 33)),
                amount: u64_from_be(bytes.subrange(33, 41)),
                timestamp: u64_from_be(bytes.subrange(41, 49)),
                status: byte_status(bytes[49]),
                description: decode_utf8(bytes.subrange(54, 54 + dlen)),
            };
            match spec_bin_decode_frames(bytes.skip(54 + dlen), idx + 1) {
                Ok(rest) => Ok(seq![tx] + rest),
                Err(e) => Err(e),
            }
        }
    }
}

/// The binary decode of a whole source, first record counted as record zero.
pub open spec fn spec_bin_decode(bytes: Seq<u8>) -> Result<
    Seq<SpecTransaction>,
    SpecParserError,
> {
    spec_bin_decode_frames(bytes, 0)
}

/// Appends the big-endian bytes of a 32-bit value.
fn push_u32_be(out: &mut Vec<u8>, x: u32)
    ensures
        final(out)@ == old(out)@ + u32_be(x),
{
    out.push((x >> 24) as u8);
    out.push((x >> 16) as u8);
    out.push((x >> 8) as u8);
    out.push(x as u8);
    proof {
        assert(out@ =~= old(out)@ + u32_be(x));
    }
}

/// Appends the big-endian bytes of a 64-bit value.
fn push_u64_be(out: &mut Vec<u8>, x: u64)
    ensures
        final(out)@ == old(out)@ + u64_be(x),
{
    out.push((x >> 56) as u8);
    out.push((x >> 48) as u8);
    out.push((x >> 40) as u8);
    out.push((x >> 32) as u8);
    out.push((x >> 24) as u8);
    out.push((x >> 16) as u8);
    out.push((x >> 8) as u8);
    out.push(x as u8);
    proof {
        assert(out@ =~= old(out)@ + u64_be(x));
    }
}

/// Reads the big-endian 32-bit value at position `off`.
fn read_u32_be(b: &Vec<u8>, off: usize) -> (r: u32)
    requires
        off + 4 <= b@.len(),
    ensures
        r == u32_from_be(b@.subrange(off as int, off as int + 4)),
{
    // pins the vector's length to a machine word, so the offsets below fit
    let _ = b.len();
    let r = ((b[off] as u32) << 24) | ((b[off + 1] as u32) << 16) | ((b[off + 2] as u32) << 8) | (
    b[off + 3] as u32);
    proof {
        let s = b@.subrange(off as int, off as int + 4);
        assert(s[0] == b@[off as int]);
        assert(s[1] == b@[off as int + 1]);
        assert(s[2] == b@[off as int + 2]);
        assert(s[3] == b@[off as int + 3]);
    }
    r
}

/// Reads the big-endian 64-bit value at position `off`.
fn read_u64_be(b: &Vec<u8>, off: usize) -> (r: u64)
    requires
        off + 8 <= b@.len(),
    ensures
        r == u64_from_be(b@.subrange(off as int, off as int + 8)),
{
    // pins the vector's length to a machine word, so the offsets below fit
    let _ = b.len();
    let r = ((b[off] as u64) << 56) | ((b[off + 1] as u64) << 48) | ((b[off + 2] as u64) << 40) | ((
    b[off + 3] as u64) << 32) | ((b[off + 4] as u64) << 24) | ((b[off + 5] as u64) << 16) | ((b[off
        + 6] as u64) << 8) | (b[off + 7] as u64);
    proof {
        let s = b@.subrange(off as int, off as int + 8);
        assert(s[0] == b@[off as int]);
        assert(s[1] == b@[off as int + 1]);
        assert(s[2] == b@[off as int + 2]);
        assert(s[3] == b@[off as int + 3]);
        assert(s[4] == b@[off as int + 4]);
        assert(s[5] == b@[off as int + 5]);
        assert(s[6] == b@[off as int + 6]);
        assert(s[7] == b@[off as int + 7]);
    }
    r
}

/// Renders the stored byte of a transaction kind.
fn type_to_byte(t: &TransactionType) -> (b: u8)
    ensures
        b == type_byte(*t),
{
    match t {
        TransactionType::DEPOSIT => 0,
        TransactionType::TRANSFER => 1,
        TransactionType::WITHDRAWAL => 2,
        TransactionType::EMPTY => 3,
    }
}

/// Reads a transaction kind back from its stored byte.
fn byte_to_type(b: u8) -> (t: TransactionType)
    ensures
        t == byte_type(b),
{
    if b == 0 {
        TransactionType::DEPOSIT
    } else if b == 1 {
        TransactionType::TRANSFER
    } else if b == 2 {
        TransactionType::WITHDRAWAL
    } else {
        TransactionType::EMPTY
    }
}

/// Renders the stored byte of a transaction status.
fn status_to_byte(st: &TransactionStatus) -> (b: u8)
    ensures
        b == status_byte(*st),
{
    match st {
        TransactionStatus::SUCCESS => 0,
        TransactionStatus::FAILURE => 1,
        TransactionStatus::PENDING => 2,
        TransactionStatus::EMPTY => 3,
    }
}

/// Reads a transaction status back from its stored byte.
fn byte_to_status(b: u8) -> (st: TransactionStatus)
    ensures
        st == byte_status(b),
{
    if b == 0 {
        TransactionStatus::SUCCESS
    } else if b == 1 {
        TransactionStatus::FAILURE
    } else if b == 2 {
        TransactionStatus::PENDING
    } else {
        TransactionStatus::EMPTY
    }
}

/// Reads one frame at position `off`, `count` records already collected:
/// nothing at the end of the stream, or the record and the position after
/// it, or the error that the stream's remainder decodes to.
#[verifier::rlimit(100)]
fn read_frame(source: &Vec<u8>, off: usize, count: usize) -> (r: Result<
    Option<(Transaction, usize)>,
    ParserError,
>)
    requires
        off <= source@.len(),
    ensures
        ({
            let tail = spec_bin_decode_frames(source@.skip(off as int), count as nat);
            match r {
                Ok(None) => tail == Ok::<Seq<SpecTransaction>, SpecParserError>(
                    Seq::<SpecTransaction>::empty(),
                ),
                Ok(Some((tx, new_off))) => off + 54 <= new_off <= source@.len() && tail == (
                match spec_bin_decode_frames(source@.skip(new_off as int), count as nat + 1) {
                    Ok(rest) => Ok::<Seq<SpecTransaction>, SpecParserError>(seq![tx@] + rest),
                    Err(e) => Err(e),
                }),
                Err(e) => tail == Err::<Seq<SpecTransaction>, SpecParserError>(e@),
            }
        }),
{
    let len = source.len();
    let ghost rest = source@.skip(off as int);
    let rem = len - off;
    if rem < 4 {
        return Ok(None);
    }
    if source[off] != 89 || source[off + 1] != 80 || source[off + 2] != 66 || source[off + 3]
        != 78 {
        proof {
            assert(rest.take(4) != magic_bytes()) by {
                if rest.take(4) == magic_bytes() {
                    assert(rest.take(4)[0] == 89);
                    assert(rest.take(4)[1] == 80);
                    assert(rest.take(4)[2] == 66);
                    assert(rest.take(4)[3] == 78);
                    assert(rest[0] == source@[off as int]);
                    assert(rest[1] == source@[off as int + 1]);
                    assert(rest[2] == source@[off as int + 2]);
                    assert(rest[3] == source@[off as int + 3]);
                }
            }
        }
        return Ok(None);
    }
    proof {
        assert(rest.take(4) =~= magic_bytes());
    }
    if rem < 54 {
        return Err(ParserError::Io);
    }
    let dlen32 = read_u32_be(source, off + 50);
    let dlen = dlen32 as usize;
    proof {
        assert(rest.subrange(50, 54) =~= source@.subrange(off as int + 50, off as int + 54));
    }
    if rem - 54 < dlen {
        proof {
            assert(rest.len() < 54 + dlen32 as int);
        }
        return Err(ParserError::Io);
    }
    let ds = vstd::slice::slice_subrange(source.as_slice(), off + 54, off + 54 + dlen);
    let dv8 = vstd::slice::slice_to_vec(ds);
    proof {
        assert(dv8@ =~= rest.subrange(54, 54 + dlen32 as int));
    }
    match crate::chars::string_from_utf8(dv8) {
        None => Err(ParserError::InvalidValue { tx_numb: count }),
        Some(desc) => {
            let tx = Transaction {
                tx_id: read_u64_be(source, off + 8),
                tx_type: byte_to_type(source[off + 16]),
                from_user_id: read_u64_be(source, off + 17),
                to_user_id: read_u64_be(source, off + 25),
                amount: read_u64_be(source, off + 33),
                timestamp: read_u64_be(source, off + 41),
                status: byte_to_status(source[off + 49]),
                description: desc,
            };
            let new_off = off + 54 + dlen;
            proof {
                assert(rest.subrange(8, 16) =~= source@.subrange(
                    off as int + 8,
                    off as int + 16,
                ));
                assert(rest.subrange(17, 25) =~= source@.subrange(
                    off as int + 17,
                    off as int + 25,
                ));
                assert(rest.subrange(25, 33) =~= source@.subrange(
                    off as int + 25,
                    off as int + 33,
                ));
                assert(rest.subrange(33, 41) =~= source@.subrange(
                    off as int + 33,
                    off as int + 41,
                ));
                assert(rest.subrange(41, 49) =~= source@.subrange(
                    off as int + 41,
                    off as int + 49,
                ));
                assert(rest[16] == source@[off as int + 16]);
                assert(rest[49] == source@[off as int + 49]);
                assert(rest.skip(54 + dlen32 as int) =~= source@.skip(new_off as int));
                let spec_tx = SpecTransaction {
                    tx_id: u64_from_be(rest.subrange(8, 16)),
                    tx_type: byte_type(rest[16]),
                    from_user_id: u64_from_be(rest.subrange(17, 25)),
                    to_user_id: u64_from_be(rest.subrange(25, 33)),
                    amount: u64_from_be(rest.subrange(33, 41)),
                    timestamp: u64_from_be(rest.subrange(41, 49)),
                    status: byte_status(rest[49]),
                    description: decode_utf8(rest.subrange(54, 54 + dlen32 as int)),
                };
                assert(tx@ =~= spec_tx);
            }
            Ok(Some((tx, new_off)))
        },
    }
}

impl TransactionsParser for BinParser {
    open spec fn spec_format_type(&self) -> TransactionsFormatType {
        TransactionsFormatType::BIN
    }

    open spec fn spec_decode(&self, input: Seq<u8>) -> Result<
        Seq<SpecTransaction>,
        SpecParserError,
    > {
        spec_bin_decode(input)
    }

    open spec fn spec_encode(&self, records: Seq<SpecTransaction>) -> Seq<u8> {
        spec_bin_encode(records)
    }

    open spec fn spec_can_encode(&self, records: Seq<SpecTransaction>) -> bool {
        forall|i: int| 0 <= i < records.len() ==> spec_frame_fits(#[trigger] records[i])
    }

    fn get_using_format_type(&self) -> (t: TransactionsFormatType) {
        TransactionsFormatType::BIN
    }

    fn from_read(&self, source: &Vec<u8>) -> (r: Result<Vec<Transaction>, ParserError>) {
        let len = source.len();
        let mut acc: Vec<Transaction> = Vec::new();
        let mut off: usize = 0;
        let mut count: usize = 0;
        proof {
            assert(source@.skip(0) =~= source@);
            assert(acc.deep_view() =~= Seq::<SpecTransaction>::empty());
        }
        loop
            invariant
                off <= len,
                len == source@.len(),
                count == acc@.len(),
                count * 54 <= off,
                acc.deep_view().len() == count,
                spec_bin_decode(source@) == crate::prepend_records(
                    acc.deep_view(),
                    spec_bin_decode_frames(source@.skip(off as int), count as nat),
                ),
            decreases len - off,
        {
            match read_frame(source, off, count) {
                Ok(None) => {
                    proof {
                        assert(acc.deep_view() + Seq::<SpecTransaction>::empty()
                            =~= acc.deep_view());
                    }
                    return Ok(acc);
                },
                Err(e) => {
                    return Err(e);
                },
                Ok(Some((tx, new_off))) => {
                    let ghost old_acc = acc.deep_view();
                    let ghost spec_tx = tx@;
                    acc.push(tx);
                    count = count + 1;
                    off = new_off;
                    proof {
                        assert(acc.deep_view() =~~= old_acc.push(spec_tx));
                        let next = spec_bin_decode_frames(source@.skip(off as int), count as nat);
                        match next {
                            Ok(r2) => {
                                assert(old_acc + (seq![spec_tx] + r2) =~= old_acc.push(spec_tx)
                                    + r2);
                            },
                            Err(_) => {},
                        }
                    }
                },
            }
        }
    }

    fn write_to(&self, target: &mut Vec<u8>, data: &Vec<Transaction>) -> (r: Result<
        (),
        ParserError,
    >) {
        let ghost dv = data.deep_view();
        let mut i: usize = 0;
        proof {
            assert(dv.take(0) =~= Seq::<SpecTransaction>::empty());
            assert(old(target)@ + spec_bin_encode(dv.take(0)) =~= old(target)@);
        }
        while i < data.len()
            invariant
                0 <= i <= data@.len(),
                dv == data.deep_view(),
                dv.len() == data@.len(),
                forall|k: int| 0 <= k < dv.len() ==> spec_frame_fits(#[trigger] dv[k]),
                target@ == old(target)@ + spec_bin_encode(dv.take(i as int)),
            decreases data@.len() - i,
        {
            let tx = &data[i];
            proof {
                assert(dv[i as int] == data@[i as int]@);
                assert(spec_frame_fits(dv[i as int]));
            }
            let ghost start = target@;
            target.push(89u8);
            target.push(80u8);
            target.push(66u8);
            target.push(78u8);
            let mut db = tx.description.as_str().as_bytes_vec();
            let dlen = db.len();
            proof {
                assert(db@ == desc_bytes(dv[i as int]));
            }
            let body_len = (dlen as u32) + 46;
            push_u32_be(target, body_len);
            push_u64_be(target, tx.tx_id);
            target.push(type_to_byte(&tx.tx_type));
            push_u64_be(target, tx.from_user_id);
            push_u64_be(target, tx.to_user_id);
            push_u64_be(target, tx.amount);
            push_u64_be(target, tx.timestamp);
            target.push(status_to_byte(&tx.status));
            push_u32_be(target, dlen as u32);
            target.append(&mut db);
            proof {
                assert(body_len == (46 + desc_bytes(dv[i as int]).len()) as u32);
                assert(target@ =~= start + spec_frame(dv[i as int]));
                assert(dv.take(i as int + 1).drop_last() =~= dv.take(i as int));
                assert(dv.take(i as int + 1).last() == dv[i as int]);
                assert(spec_bin_encode(dv.take(i as int + 1)) == spec_bin_encode(dv.take(i as int))
                    + spec_frame(dv[i as int]));
                assert(target@ =~= old(target)@ + spec_bin_encode(dv.take(i as int + 1)));
            }
            i = i + 1;
        }
        proof {
            assert(dv.take(dv.len() as int) =~= dv);
        }
        Ok(())
    }
}

/// A binary stream holding no valid frame at its head decodes to the empty
/// record list without error: too few bytes for a magic, or a mismatched
/// magic, is the normal end of the stream.
pub proof fn lemma_bin_decode_no_frames(bytes: Seq<u8>)
    requires
        bytes.len() < 4 || bytes.take(4) != magic_bytes(),
    ensures
        spec_bin_decode(bytes) == Ok::<Seq<SpecTransaction>, SpecParserError>(
            Seq::<SpecTransaction>::empty(),
        ),
{
}

/// A stream whose magic matches but that runs out before the fixed fields
/// and the description length are complete fails as a hard error, not as a
/// silent truncation.
pub proof fn lemma_bin_decode_truncated(bytes: Seq<u8>)
    requires
        bytes.len() >= 4,
        bytes.take(4) == magic_bytes(),
        bytes.len() < 54,
    ensures
        spec_bin_decode(bytes) == Err::<Seq<SpecTransaction>, SpecParserError>(SpecParserError::Io),
{
}

/// A stream whose magic matches but that runs out inside the description
/// bytes fails as a hard error as well.
pub proof fn lemma_bin_decode_truncated_description(bytes: Seq<u8>)
    requires
        bytes.len() >= 54,
        bytes.take(4) == magic_bytes(),
        bytes.len() < 54 + u32_from_be(bytes.subrange(50, 54)) as int,
    ensures
        spec_bin_decode(bytes) == Err::<Seq<SpecTransaction>, SpecParserError>(SpecParserError::Io),
{
}

/// Where each field lies inside one encoded frame.
#[verifier::rlimit(100)]
proof fn lemma_frame_fields(tx: SpecTransaction)
    requires
        spec_frame_fits(tx),
    ensures
        spec_frame(tx).len() == 54 + desc_bytes(tx).len(),
        spec_frame(tx).take(4) == magic_bytes(),
        spec_frame(tx).subrange(8, 16) == u64_be(tx.tx_id),
        spec_frame(tx)[16] == type_byte(tx.tx_type),
        spec_frame(tx).subrange(17, 25) == u64_be(tx.from_user_id),
        spec_frame(tx).subrange(25, 33) == u64_be(tx.to_user_id),
        spec_frame(tx).subrange(33, 41) == u64_be(tx.amount),
        spec_frame(tx).subrange(41, 49) == u64_be(tx.timestamp),
        spec_frame(tx)[49] == status_byte(tx.status),
        spec_frame(tx).subrange(50, 54) == u32_be(desc_bytes(tx).len() as u32),
        spec_frame(tx).subrange(54, 54 + desc_bytes(tx).len() as int) == desc_bytes(tx),
{
    let f = spec_frame(tx);
    let dl = desc_bytes(tx).len() as int;
    assert(f.len() == 54 + dl);
    assert(f.take(4) =~= magic_bytes());
    assert(f.subrange(8, 16) =~= u64_be(tx.tx_id));
    assert(f.subrange(17, 25) =~= u64_be(tx.from_user_id));
    assert(f.subrange(25, 33) =~= u64_be(tx.to_user_id));
    assert(f.subrange(33, 41) =~= u64_be(tx.amount));
    assert(f.subrange(41, 49) =~= u64_be(tx.timestamp));
    assert(f.subrange(50, 54) =~= u32_be(dl as u32));
    assert(f.subrange(54, 54 + dl) =~= desc_bytes(tx));
}

/// Round trip for the binary codec, frame by frame: decoding an encoded
/// record list yields the list back, wherever in the record count the
/// decoder starts.
#[verifier::rlimit(100)]
proof fn lemma_bin_round_trip_frames(l: Seq<SpecTransaction>, idx: nat)
    requires
        forall|i: int| 0 <= i < l.len() ==> spec_frame_fits(#[trigger] l[i]),
    ensures
        spec_bin_decode_frames(spec_bin_encode(l), idx) == Ok::<
            Seq<SpecTransaction>,
            SpecParserError,
        >(l),
    decreases l.len(),
{
    reveal_with_fuel(spec_bin_encode, 2);
    if l.len() == 0 {
        assert(spec_bin_encode(l).len() == 0);
        assert(l =~= Seq::<SpecTransaction>::empty());
    } else {
        let hd = l[0];
        let tl = l.drop_first();
        assert(seq![hd] + tl =~= l);
        lemma_bin_encode_append(seq![hd], tl);
        assert(seq![hd].drop_last() =~= Seq::<SpecTransaction>::empty());
        assert(seq![hd].last() == hd);
        assert(spec_bin_encode(seq![hd]) =~= spec_frame(hd));
        let b = spec_bin_encode(l);
        let f = spec_frame(hd);
        let d = desc_bytes(hd);
        let dl = d.len() as int;
        assert(spec_frame_fits(hd));
        lemma_frame_fields(hd);
        assert(b =~= f + spec_bin_encode(tl));
        assert(b.len() >= 54 + dl);
        assert(b.take(4) =~= f.take(4));
        assert(b.subrange(50, 54) =~= f.subrange(50, 54));
        lemma_u32_be_roundtrip(dl as u32);
        assert(u32_from_be(b.subrange(50, 54)) as int == dl);
        assert(b.subrange(54, 54 + dl) =~= f.subrange(54, 54 + dl));
        vstd::utf8::encode_utf8_valid_utf8(hd.description);
        vstd::utf8::encode_utf8_decode_utf8(hd.description);
        assert(valid_utf8(d));
        assert(decode_utf8(d) == hd.description);
        assert(b.subrange(8, 16) =~= f.subrange(8, 16));
        lemma_u64_be_roundtrip(hd.tx_id);
        assert(b[16] == f[16]);
        assert(b.subrange(17, 25) =~= f.subrange(17, 25));
        lemma_u64_be_roundtrip(hd.from_user_id);
        assert(b.subrange(25, 33) =~= f.subrange(25, 33));
        lemma_u64_be_roundtrip(hd.to_user_id);
        assert(b.subrange(33, 41) =~= f.subrange(33, 41));
        lemma_u64_be_roundtrip(hd.amount);
        assert(b.subrange(41, 49) =~= f.subrange(41, 49));
        lemma_u64_be_roundtrip(hd.timestamp);
        assert(b[49] == f[49]);
        assert(b.skip(54 + dl) =~= spec_bin_encode(tl));
        assert(forall|i: int| 0 <= i < tl.len() ==> spec_frame_fits(#[trigger] tl[i])) by {
            assert(forall|i: int| 0 <= i < tl.len() ==> tl[i] == l[i + 1]);
        }
        lemma_bin_round_trip_frames(tl, idx + 1);
        let tx = SpecTransaction {
            tx_id: u64_from_be(b.subrange(8, 16)),
            tx_type: byte_type(b[16]),
            from_user_id: u64_from_be(b.subrange(17, 25)),
            to_user_id: u64_from_be(b.subrange(25, 33)),
            amount: u64_from_be(b.subrange(33, 41)),
            timestamp: u64_from_be(b.subrange(41, 49)),
            status: byte_status(b[49]),
            description: decode_utf8(b.subrange(54, 54 + dl)),
        };
        assert(tx =~= hd);
        assert(seq![tx] + tl =~= l);
    }
}

/// Round-trip law for the binary codec: decoding an encoded record list
/// yields the list back, for any list whose descriptions fit the 32-bit
/// length fields.
pub proof fn lemma_bin_round_trip(l: Seq<SpecTransaction>)
    requires
        forall|i: int| 0 <= i < l.len() ==> spec_frame_fits(#[trigger] l[i]),
    ensures
        spec_bin_decode(spec_bin_encode(l)) == Ok::<Seq<SpecTransaction>, SpecParserError>(l),
{
    lemma_bin_round_trip_frames(l, 0);
}

} // verus!
