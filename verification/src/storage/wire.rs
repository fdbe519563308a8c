//! The binary wire format of the file-backed store, and its laws.
//!
//! A record for a row with N values is an 8-byte little-endian count N,
//! then, for each value in order, an 8-byte little-endian byte length of
//! its UTF-8 encoding followed by exactly those bytes. Records carry no
//! separator, checksum, or record-length field; a file is the plain
//! concatenation of records, and boundaries are reconstructed from the
//! length fields alone.

use vstd::prelude::*;

use vstd::bytes::lemma_auto_spec_u64_to_from_le_bytes;
use vstd::bytes::spec_u64_from_le_bytes;
use vstd::bytes::spec_u64_to_le_bytes;
use vstd::utf8::decode_utf8;
use vstd::utf8::encode_utf8;
use vstd::utf8::encode_utf8_decode_utf8;
use vstd::utf8::encode_utf8_valid_utf8;
use vstd::utf8::valid_utf8;

verus! {

/// One encoded value: the byte length of its UTF-8 encoding as 8 bytes
/// little-endian, then the encoding itself.
pub open spec fn encode_value(v: Seq<char>) -> Seq<u8> {
    spec_u64_to_le_bytes(encode_utf8(v).len() as u64) + encode_utf8(v)
}

/// The concatenation of a row's encoded values, in order.
pub open spec fn encode_values(vs: Seq<Seq<char>>) -> Seq<u8>
    decreases vs.len(),
{
    if vs.len() == 0 {
        Seq::empty()
    } else {
        encode_value(vs.first()) + encode_values(vs.drop_first())
    }
}

/// One encoded record: the value count as 8 bytes little-endian, then
/// the encoded values.
pub open spec fn encode_record(row: Seq<Seq<char>>) -> Seq<u8> {
    spec_u64_to_le_bytes(row.len() as u64) + encode_values(row)
}

/// A whole file's bytes: the records of the given rows, concatenated in
/// order with nothing between them.
pub open spec fn encode_records(rows: Seq<Seq<Seq<char>>>) -> Seq<u8>
    decreases rows.len(),
{
    if rows.len() == 0 {
        Seq::empty()
    } else {
        encode_record(rows.first()) + encode_records(rows.drop_first())
    }
}

/// A value whose UTF-8 byte length fits the 8-byte length field.
pub open spec fn value_fits(v: Seq<char>) -> bool {
    encode_utf8(v).len() <= u64::MAX
}

/// A row whose value count and every value fit their 8-byte fields.
pub open spec fn row_fits(row: Seq<Seq<char>>) -> bool {
    &&& row.len() <= u64::MAX
    &&& forall|i: int| 0 <= i < row.len() ==> value_fits(#[trigger] row[i])
}

/// Rows all of which encode within their length fields.
pub open spec fn rows_fit(rows: Seq<Seq<Seq<char>>>) -> bool {
    forall|i: int| 0 <= i < rows.len() ==> row_fits(#[trigger] rows[i])
}

/// Reads one value off the front of the bytes: its declared length must
/// be fully present and its bytes must be valid UTF-8; yields the value
/// and the remaining bytes.
pub open spec fn parse_value(bytes: Seq<u8>) -> Option<(Seq<char>, Seq<u8>)> {
    if bytes.len() < 8 {
        None
    } else {
        let len = spec_u64_from_le_bytes(bytes.take(8)) as int;
        let rest = bytes.skip(8);
        if rest.len() < len {
            None
        } else if valid_utf8(rest.take(len)) {
            Some((decode_utf8(rest.take(len)), rest.skip(len)))
        } else {
            None
        }
    }
}

/// Reads `n` values off the front of the bytes, in order.
pub open spec fn parse_values(bytes: Seq<u8>, n: nat) -> Option<(Seq<Seq<char>>, Seq<u8>)>
    decreases n,
{
    if n == 0 {
        Some((Seq::empty(), bytes))
    } else {
        match parse_value(bytes) {
            None => None,
            Some((v, rest)) => match parse_values(rest, (n - 1) as nat) {
                None => None,
                Some((vs, tail)) => Some((seq![v] + vs, tail)),
            },
        }
    }
}

/// Reads one record off the front of the bytes: the declared value
/// count, then that many values.
pub open spec fn parse_record(bytes: Seq<u8>) -> Option<(Seq<Seq<char>>, Seq<u8>)> {
    if bytes.len() < 8 {
        None
    } else {
        parse_values(bytes.skip(8), spec_u64_from_le_bytes(bytes.take(8)) as nat)
    }
}

/// Decodes a whole file: records from offset zero to end of file, with
/// every byte accounted for; any leftover that is not a complete,
/// well-formed record makes the whole parse fail.
pub open spec fn parse_records(bytes: Seq<u8>) -> Option<Seq<Seq<Seq<char>>>>
    decreases bytes.len(),
{
    if bytes.len() == 0 {
        Some(Seq::empty())
    } else {
        match parse_record(bytes) {
            None => None,
            Some((row, rest)) => if rest.len() < bytes.len() {
                match parse_records(rest) {
                    None => None,
                    Some(rows) => Some(seq![row] + rows),
                }
            } else {
                None
            },
        }
    }
}

/// The decoder's intermediate state for values: what is already read
/// plus whatever `m` more values parse out of the remaining bytes is
/// exactly what `n` values parse out of the full input.
pub open spec fn parse_values_cont(
    full: Seq<u8>,
    n: nat,
    done: Seq<Seq<char>>,
    rest: Seq<u8>,
    m: nat,
) -> bool {
    parse_values(full, n) == (match parse_values(rest, m) {
        None => None,
        Some((vs, t)) => Some((done + vs, t)),
    })
}

/// The decoder's intermediate state for records: the rows already read
/// plus whatever parses out of the remaining bytes is exactly what the
/// full input parses to.
pub open spec fn parse_records_cont(
    full: Seq<u8>,
    done: Seq<Seq<Seq<char>>>,
    rest: Seq<u8>,
) -> bool {
    parse_records(full) == (match parse_records(rest) {
        None => None,
        Some(more) => Some(done + more),
    })
}

pub(crate) proof fn lemma_encode_values_snoc(vs: Seq<Seq<char>>, v: Seq<char>)
    ensures
        encode_values(vs.push(v)) == encode_values(vs) + encode_value(v),
    decreases vs.len(),
{
    if vs.len() == 0 {
        let single = vs.push(v);
        assert(single.first() == v);
        assert(single.drop_first() =~= vs);
        assert(encode_values(single) == encode_value(v) + encode_values(vs));
        assert(encode_values(vs) =~= Seq::<u8>::empty());
        assert(encode_value(v) + encode_values(vs) =~= encode_values(vs) + encode_value(v));
    } else {
        assert(vs.push(v).first() == vs.first());
        assert(vs.push(v).drop_first() =~= vs.drop_first().push(v));
        lemma_encode_values_snoc(vs.drop_first(), v);
        assert((encode_value(vs.first()) + encode_values(vs.drop_first())) + encode_value(v)
            =~= encode_value(vs.first()) + (encode_values(vs.drop_first()) + encode_value(v)));
    }
}

proof fn lemma_parse_value_encoded(v: Seq<char>, tail: Seq<u8>)
    requires
        value_fits(v),
    ensures
        parse_value(encode_value(v) + tail) == Some((v, tail)),
{
    lemma_auto_spec_u64_to_from_le_bytes();
    let enc = encode_utf8(v);
    let lenb = spec_u64_to_le_bytes(enc.len() as u64);
    let bytes = encode_value(v) + tail;
    assert(bytes.take(8) =~= lenb);
    let rest = bytes.skip(8);
    assert(rest =~= enc + tail);
    assert(spec_u64_from_le_bytes(bytes.take(8)) == enc.len() as u64);
    assert(rest.take(enc.len() as int) =~= enc);
    assert(rest.skip(enc.len() as int) =~= tail);
    encode_utf8_valid_utf8(v);
    encode_utf8_decode_utf8(v);
}

proof fn lemma_parse_values_encoded(vs: Seq<Seq<char>>, tail: Seq<u8>)
    requires
        forall|i: int| 0 <= i < vs.len() ==> value_fits(#[trigger] vs[i]),
    ensures
        parse_values(encode_values(vs) + tail, vs.len()) == Some((vs, tail)),
    decreases vs.len(),
{
    if vs.len() == 0 {
        assert(encode_values(vs) + tail =~= tail);
        assert(vs =~= Seq::<Seq<char>>::empty());
    } else {
        let bytes = encode_values(vs) + tail;
        let inner = encode_values(vs.drop_first()) + tail;
        assert(bytes =~= encode_value(vs.first()) + inner);
        lemma_parse_value_encoded(vs.first(), inner);
        lemma_parse_values_encoded(vs.drop_first(), tail);
        assert(seq![vs.first()] + vs.drop_first() =~= vs);
    }
}

proof fn lemma_parse_record_encoded(row: Seq<Seq<char>>, tail: Seq<u8>)
    requires
        row_fits(row),
    ensures
        parse_record(encode_record(row) + tail) == Some((row, tail)),
{
    lemma_auto_spec_u64_to_from_le_bytes();
    let countb = spec_u64_to_le_bytes(row.len() as u64);
    let bytes = encode_record(row) + tail;
    assert(bytes.take(8) =~= countb);
    assert(bytes.skip(8) =~= encode_values(row) + tail);
    assert(spec_u64_from_le_bytes(bytes.take(8)) == row.len() as u64);
    lemma_parse_values_encoded(row, tail);
}

/// Law: a file made of well-formed records followed by any tail decodes
/// exactly as the tail does — the records come back unchanged and in
/// order, and a tail on which decoding fails makes the whole scan fail,
/// however many intact records precede it.
pub proof fn lemma_parse_records_append(rows: Seq<Seq<Seq<char>>>, tail: Seq<u8>)
    requires
        rows_fit(rows),
    ensures
        parse_records(encode_records(rows) + tail) == match parse_records(tail) {
            None => None::<Seq<Seq<Seq<char>>>>,
            Some(more) => Some(rows + more),
        },
    decreases rows.len(),
{
    if rows.len() == 0 {
        assert(encode_records(rows) + tail =~= tail);
        if parse_records(tail) is Some {
            assert(rows + parse_records(tail)->Some_0 =~= parse_records(tail)->Some_0);
        }
    } else {
        lemma_auto_spec_u64_to_from_le_bytes();
        let bytes = encode_records(rows) + tail;
        let rest = encode_records(rows.drop_first()) + tail;
        assert(bytes =~= encode_record(rows.first()) + rest);
        lemma_parse_record_encoded(rows.first(), rest);
        assert(encode_record(rows.first()).len() >= 8);
        assert(bytes.len() > 0);
        assert(rest.len() < bytes.len());
        lemma_parse_records_append(rows.drop_first(), tail);
        match parse_records(tail) {
            None => {
            },
            Some(more) => {
                assert(seq![rows.first()] + (rows.drop_first() + more) =~= rows + more);
            },
        }
    }
}

/// Law: decoding inverts encoding — a file holding exactly the encoded
/// records of a sequence of rows scans back to exactly those rows, in
/// insertion order, with no reordering, loss, or duplication.
pub proof fn lemma_parse_encode_records(rows: Seq<Seq<Seq<char>>>)
    requires
        rows_fit(rows),
    ensures
        parse_records(encode_records(rows)) == Some(rows),
{
    lemma_parse_records_append(rows, Seq::empty());
    assert(encode_records(rows) + Seq::<u8>::empty() =~= encode_records(rows));
    assert(rows + Seq::<Seq<Seq<char>>>::empty() =~= rows);
}

/// Law: decoding inverts encoding for a single row — a file holding
/// exactly one row's record decodes back to exactly that row, whatever
/// values it carries: none, one or many, empty strings and arbitrary
/// text alike.
pub proof fn lemma_roundtrip_single_record(row: Seq<Seq<char>>)
    requires
        row_fits(row),
    ensures
        parse_records(encode_record(row)) == Some(seq![row]),
{
    let s1 = seq![row];
    lemma_parse_encode_records(s1);
    assert(s1.first() == row);
    assert(s1.drop_first() =~= Seq::<Seq<Seq<char>>>::empty());
    assert(encode_records(s1.drop_first()) =~= Seq::<u8>::empty());
    assert(encode_record(row) + Seq::<u8>::empty() =~= encode_record(row));
    assert(encode_records(s1) =~= encode_record(row));
}

/// Law: there is no partial-tail recovery — append any undecodable tail
/// (for instance a trailing record whose declared length exceeds the
/// bytes that follow) to intact records, and the whole scan fails rather
/// than yielding the intact prefix.
pub proof fn lemma_undecodable_tail_poisons_scan(rows: Seq<Seq<Seq<char>>>, tail: Seq<u8>)
    requires
        rows_fit(rows),
        parse_records(tail) is None,
    ensures
        parse_records(encode_records(rows) + tail) is None,
{
    lemma_parse_records_append(rows, tail);
}

/// Law: a file ending in a truncated record — intact records followed
/// by a record header and a first value whose declared byte length
/// exceeds the bytes that remain after it — fails the whole scan; no
/// partial row is returned and no record is dropped.
pub proof fn lemma_truncated_record_poisons_scan(
    rows: Seq<Seq<Seq<char>>>,
    count: u64,
    rest: Seq<u8>,
)
    requires
        rows_fit(rows),
        count >= 1,
        rest.len() >= 8,
        spec_u64_from_le_bytes(rest.take(8)) as int > rest.len() - 8,
    ensures
        parse_records(encode_records(rows) + (spec_u64_to_le_bytes(count) + rest)) is None,
{
    lemma_auto_spec_u64_to_from_le_bytes();
    let tail = spec_u64_to_le_bytes(count) + rest;
    assert(tail.take(8) =~= spec_u64_to_le_bytes(count));
    assert(tail.skip(8) =~= rest);
    assert(rest.skip(8).len() < spec_u64_from_le_bytes(rest.take(8)) as int);
    assert(parse_value(rest) is None);
    assert(parse_values(rest, count as nat) is None);
    assert(parse_record(tail) is None);
    assert(tail.len() > 0);
    lemma_undecodable_tail_poisons_scan(rows, tail);
}

} // verus!
