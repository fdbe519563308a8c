//! The computational half of the file-backed store: encoding a row into
//! the bytes an insert appends, and decoding a whole file's bytes back
//! into rows. The medium itself — opening, appending to and reading the
//! one file per table — sits outside this crate and hands bytes in and
//! out of these functions unchanged.

use vstd::prelude::*;

use vstd::bytes::spec_u64_from_le_bytes;
use vstd::bytes::spec_u64_to_le_bytes;
use vstd::bytes::u64_from_le_bytes;
use vstd::bytes::u64_to_le_bytes;
use vstd::slice::slice_subrange;
use vstd::slice::slice_to_vec;
use vstd::string::StringExecFns;
use vstd::utf8::decode_utf8;
use vstd::utf8::valid_utf8;

use crate::storage::backend::Row;
use crate::storage::backend::StorageError;
use crate::storage::wire::encode_record;
use crate::storage::wire::encode_values;
use crate::storage::wire::lemma_encode_values_snoc;
use crate::storage::wire::parse_record;
use crate::storage::wire::parse_records;
use crate::storage::wire::parse_records_cont;
use crate::storage::wire::parse_value;
use crate::storage::wire::parse_values;
use crate::storage::wire::parse_values_cont;
use crate::storage::wire::row_fits;
use crate::storage::wire::value_fits;

verus! {

/// Relies on String::from_utf8: it succeeds exactly on valid UTF-8
/// input, and the string it returns is the one those bytes encode.
#[verifier::external_body]
fn utf8_to_string(bytes: Vec<u8>) -> (r: Option<String>)
    ensures
        r is Some <==> valid_utf8(bytes@),
        r matches Some(s) ==> s@ == decode_utf8(bytes@),
{
    String::from_utf8(bytes).ok()
}

/// The codec of the file-backed store. It owns no state: each table is
/// one append-only file whose bytes are the concatenation of encoded
/// records, and the caller brings those bytes to and from the medium.
pub struct FileStorageBackend;

impl FileStorageBackend {
    /// Creates the codec engine.
    pub fn new() -> (b: Self) {
        FileStorageBackend
    }

    /// The backing file's name for a table, derived deterministically
    /// from the table name: the name followed by ".tbl".
    pub fn table_file_name(&self, table_name: &str) -> (r: String)
        ensures
            r@ == table_name@ + ".tbl"@,
    {
        let mut name = table_name.to_owned();
        name.append(".tbl");
        name
    }

    /// Encodes one row as the record its insert appends to the table's
    /// file: the value count, then each value's byte length and bytes.
    pub fn encode_row(&self, row: &Row) -> (out: Vec<u8>)
        ensures
            out@ == encode_record(row.deep_view()),
            row_fits(row.deep_view()),
    {
        let count = row.values.len();
        let mut out = u64_to_le_bytes(count as u64);
        let mut i: usize = 0;
        while i < row.values.len()
            invariant
                0 <= i <= row.values@.len(),
                count == row.values@.len(),
                out@ == spec_u64_to_le_bytes(count as u64) + encode_values(
                    row.deep_view().take(i as int),
                ),
                forall|j: int| 0 <= j < i ==> value_fits(#[trigger] row.deep_view()[j]),
            decreases row.values@.len() - i,
        {
            let vb = row.values[i].as_str().as_bytes();
            let mut lenb = u64_to_le_bytes(vb.len() as u64);
            let mut vbv = slice_to_vec(vb);
            proof {
                assert(row.deep_view()[i as int] == row.values@[i as int]@);
                lemma_encode_values_snoc(row.deep_view().take(i as int), row.deep_view()[i as int]);
                assert(row.deep_view().take(i + 1) =~= row.deep_view().take(i as int).push(
                    row.deep_view()[i as int],
                ));
            }
            out.append(&mut lenb);
            out.append(&mut vbv);
            i = i + 1;
        }
        proof {
            assert(row.deep_view().take(row.values@.len() as int) =~= row.deep_view());
        }
        out
    }

    /// Decodes one record starting at byte offset `pos`, returning the
    /// row and the offset just past it.
    fn decode_record_at(&self, bytes: &[u8], pos: usize) -> (r: Result<(Row, usize), StorageError>)
        requires
            pos <= bytes@.len(),
        ensures
            r matches Ok((row, end)) ==> pos < end <= bytes@.len() && parse_record(
                bytes@.skip(pos as int),
            ) == Some((row.deep_view(), bytes@.skip(end as int))),
            r is Err ==> parse_record(bytes@.skip(pos as int)) is None,
    {
        let n = bytes.len();
        if n - pos < 8 {
            proof {
                assert(bytes@.skip(pos as int).len() < 8);
            }
            return Err(StorageError::Decode);
        }
        let countb = slice_subrange(bytes, pos, pos + 8);
        let count = u64_from_le_bytes(countb);
        proof {
            assert(countb@ =~= bytes@.skip(pos as int).take(8));
        }
        let ghost start = bytes@.skip(pos as int + 8);
        proof {
            assert(start =~= bytes@.skip(pos as int).skip(8));
            if let Some((vs, t)) = parse_values(start, count as nat) {
                assert(Seq::<Seq<char>>::empty() + vs =~= vs);
            }
            assert(parse_values_cont(start, count as nat, Seq::empty(), start, count as nat));
        }
        let mut values: Vec<String> = Vec::new();
        let mut p: usize = pos + 8;
        let mut k: u64 = 0;
        while k < count
            invariant
                pos + 8 <= p <= n,
                n == bytes@.len(),
                k <= count,
                start == bytes@.skip(pos as int + 8),
                spec_u64_from_le_bytes(bytes@.skip(pos as int).take(8)) == count,
                values.deep_view().len() == k,
                parse_values_cont(
                    start,
                    count as nat,
                    values.deep_view(),
                    bytes@.skip(p as int),
                    (count - k) as nat,
                ),
            decreases count - k,
        {
            proof {
                assert(bytes@.skip(pos as int).len() >= 8);
                assert(bytes@.skip(pos as int).skip(8) =~= start);
            }
            if n - p < 8 {
                proof {
                    assert(bytes@.skip(p as int).len() < 8);
                    assert(parse_value(bytes@.skip(p as int)) is None);
                    assert(parse_values(bytes@.skip(p as int), (count - k) as nat) is None);
                    assert(parse_values(start, count as nat) is None);
                    assert(parse_record(bytes@.skip(pos as int)) is None);
                }
                return Err(StorageError::Decode);
            }
            let lenb = slice_subrange(bytes, p, p + 8);
            let vlen64 = u64_from_le_bytes(lenb);
            proof {
                assert(lenb@ =~= bytes@.skip(p as int).take(8));
                assert(bytes@.skip(p as int).skip(8) =~= bytes@.skip(p as int + 8));
            }
            let rem = n - (p + 8);
            if vlen64 > rem as u64 {
                proof {
                    assert(bytes@.skip(p as int).skip(8).len() < vlen64 as int);
                    assert(parse_value(bytes@.skip(p as int)) is None);
                    assert(parse_values(bytes@.skip(p as int), (count - k) as nat) is None);
                    assert(parse_values(start, count as nat) is None);
                    assert(parse_record(bytes@.skip(pos as int)) is None);
                }
                return Err(StorageError::Decode);
            }
            let vlen = vlen64 as usize;
            let vb = slice_subrange(bytes, p + 8, p + 8 + vlen);
            proof {
                assert(vb@ =~= bytes@.skip(p as int + 8).take(vlen as int));
            }
            let vbv = slice_to_vec(vb);
            match utf8_to_string(vbv) {
                None => {
                    proof {
                        assert(parse_value(bytes@.skip(p as int)) is None);
                        assert(parse_values(bytes@.skip(p as int), (count - k) as nat) is None);
                        assert(parse_values(start, count as nat) is None);
                        assert(parse_record(bytes@.skip(pos as int)) is None);
                    }
                    return Err(StorageError::Decode);
                },
                Some(s) => {
                    let ghost sv = s@;
                    let ghost pre = values.deep_view();
                    let ghost oldp = p as int;
                    proof {
                        assert(bytes@.skip(p as int + 8).skip(vlen as int) =~= bytes@.skip(
                            p as int + 8 + vlen as int,
                        ));
                        assert(parse_value(bytes@.skip(p as int)) == Some(
                            (sv, bytes@.skip(p as int + 8 + vlen as int)),
                        ));
                    }
                    values.push(s);
                    p = p + 8 + vlen;
                    k = k + 1;
                    proof {
                        assert(values.deep_view() =~= pre.push(sv));
                        match parse_values(bytes@.skip(p as int), (count - k) as nat) {
                            None => {
                                assert(parse_values(
                                    bytes@.skip(oldp),
                                    (count - (k - 1)) as nat,
                                ) is None);
                            },
                            Some((vs, t)) => {
                                assert(parse_values(bytes@.skip(oldp), (count - (k - 1)) as nat)
                                    == Some((seq![sv] + vs, t)));
                                assert(pre + (seq![sv] + vs) =~= values.deep_view() + vs);
                            },
                        }
                    }
                },
            }
        }
        proof {
            assert(parse_values(bytes@.skip(p as int), 0) == Some(
                (Seq::<Seq<char>>::empty(), bytes@.skip(p as int)),
            ));
            assert(values.deep_view() + Seq::<Seq<char>>::empty() =~= values.deep_view());
            assert(parse_values(start, count as nat) == Some(
                (values.deep_view(), bytes@.skip(p as int)),
            ));
            assert(bytes@.skip(pos as int).len() >= 8);
            assert(bytes@.skip(pos as int).skip(8) =~= start);
        }
        Ok((Row { values }, p))
    }

    /// Decodes a whole file's bytes sequentially from offset zero to end
    /// of file, one row per record, in file order. Succeeds exactly when
    /// the bytes are a concatenation of complete, well-formed records;
    /// any truncated or otherwise undecodable remainder is an error, not
    /// a shorter result.
    pub fn decode_all_rows(&self, bytes: &[u8]) -> (r: Result<Vec<Row>, StorageError>)
        ensures
            r is Ok <==> parse_records(bytes@) is Some,
            r matches Ok(rows) ==> Some(rows.deep_view()) == parse_records(bytes@),
    {
        let mut rows: Vec<Row> = Vec::new();
        let mut pos: usize = 0;
        let n = bytes.len();
        proof {
            assert(bytes@.skip(0) =~= bytes@);
            if let Some(more) = parse_records(bytes@) {
                assert(Seq::<Seq<Seq<char>>>::empty() + more =~= more);
            }
            assert(parse_records_cont(bytes@, Seq::empty(), bytes@));
        }
        while pos < n
            invariant
                pos <= n,
                n == bytes@.len(),
                parse_records_cont(bytes@, rows.deep_view(), bytes@.skip(pos as int)),
            decreases n - pos,
        {
            match self.decode_record_at(bytes, pos) {
                Ok((row, end)) => {
                    let ghost rowv = row.deep_view();
                    let ghost pre = rows.deep_view();
                    let ghost oldpos = pos as int;
                    proof {
                        assert(bytes@.skip(pos as int).len() > 0);
                        assert(bytes@.skip(end as int).len() < bytes@.skip(pos as int).len());
                    }
                    rows.push(row);
                    pos = end;
                    proof {
                        assert(rows.deep_view() =~= pre.push(rowv));
                        match parse_records(bytes@.skip(pos as int)) {
                            None => {
                                assert(parse_records(bytes@.skip(oldpos)) is None);
                            },
                            Some(more) => {
                                assert(parse_records(bytes@.skip(oldpos)) == Some(
                                    seq![rowv] + more,
                                ));
                                assert(pre + (seq![rowv] + more) =~= rows.deep_view() + more);
                            },
                        }
                    }
                },
                Err(e) => {
                    proof {
                        assert(bytes@.skip(pos as int).len() > 0);
                        assert(parse_records(bytes@.skip(pos as int)) is None);
                    }
                    return Err(e);
                },
            }
        }
        proof {
            assert(bytes@.skip(pos as int) =~= Seq::<u8>::empty());
            assert(parse_records(bytes@.skip(pos as int)) == Some(Seq::<Seq<Seq<char>>>::empty()));
            assert(rows.deep_view() + Seq::<Seq<Seq<char>>>::empty() =~= rows.deep_view());
        }
        Ok(rows)
    }

    /// The read path after the medium: a table whose file is missing
    /// scans as the empty row sequence, not as a failure; a present
    /// file's bytes must decode completely.
    pub fn scan_rows(&self, bytes: Option<&Vec<u8>>) -> (r: Result<Vec<Row>, StorageError>)
        ensures
            bytes is None ==> (r matches Ok(rows) && rows@.len() == 0),
            bytes matches Some(b) ==> (r is Ok <==> parse_records(b@) is Some) && (r matches Ok(
                rows,
            ) ==> Some(rows.deep_view()) == parse_records(b@)),
    {
        match bytes {
            None => Ok(Vec::new()),
            Some(b) => self.decode_all_rows(b.as_slice()),
        }
    }
}

} // verus!
