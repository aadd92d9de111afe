//! One chunk of a PNG file: a length, a type, the data and a checksum, with
//! the byte-exact codec between the record and its wire form.

use vstd::prelude::*;
use vstd::slice::{slice_subrange, slice_to_vec};
use vstd::std_specs::cmp::PartialEqSpecImpl;
use vstd::std_specs::convert::TryFromSpecImpl;
use vstd::string::StringExecFns;
use vstd::utf8::{decode_utf8, valid_utf8};
use crate::chunk_type::{is_letter, is_type_bytes, ChunkType};
use crate::crc::{checksum, compute, lemma_crc32_detects_byte};
use crate::error::Error;
use crate::text::{ascii_text, decimal_string, decimal_text};
use crate::wire::{
    be_bytes, be_value, get_be, lemma_be_bytes_of_value, lemma_be_value_of_bytes, put_be,
};

verus! {

/// What a chunk is, as mathematics: the four fields of the record.
pub struct ChunkView {
    /// The number of data bytes.
    pub length: u32,
    /// The four bytes of the chunk type.
    pub chunk_type: Seq<u8>,
    /// The data bytes.
    pub data: Seq<u8>,
    /// The checksum over type and data.
    pub crc: u32,
}

impl ChunkView {
    /// The record is consistent: the type is four letters, the length counts
    /// the data, and the checksum is the one computed over type and data.
    pub open spec fn wf(self) -> bool {
        &&& is_type_bytes(self.chunk_type)
        &&& self.data.len() == self.length
        &&& self.crc == checksum(self.chunk_type, self.data)
    }

    /// The record with the given type and data: the length is the number of
    /// data bytes, cut to 32 bits, and the checksum is computed over type
    /// and data.
    pub open spec fn of(chunk_type: Seq<u8>, data: Seq<u8>) -> ChunkView {
        ChunkView {
            length: data.len() as u32,
            chunk_type,
            data,
            crc: checksum(chunk_type, data),
        }
    }

    /// The type is four letters, and length and checksum are the ones that
    /// type and data give. Where the data fits the 32-bit length field, this
    /// is consistency.
    pub open spec fn derived(self) -> bool {
        &&& is_type_bytes(self.chunk_type)
        &&& self == ChunkView::of(self.chunk_type, self.data)
    }
}

/// The wire form of a chunk: length, type, data, checksum, with the two
/// numbers as four big-endian bytes each.
pub open spec fn encode_chunk(chunk: ChunkView) -> Seq<u8> {
    be_bytes(chunk.length) + chunk.chunk_type + chunk.data + be_bytes(chunk.crc)
}

/// The number of bytes that the wire form of a chunk takes.
pub open spec fn encoded_len(chunk: ChunkView) -> int {
    12 + chunk.length
}

/// What reading one chunk from the front of `bytes` gives: the chunk, or the
/// first reason to refuse, in the order in which the fields are read. Bytes
/// after the chunk are not looked at.
pub open spec fn parse_chunk(bytes: Seq<u8>) -> Result<ChunkView, Error> {
    if bytes.len() < 8 {
        Err(Error::Truncated)
    } else {
        let length = be_value(bytes.subrange(0, 4));
        let chunk_type = bytes.subrange(4, 8);
        if !is_type_bytes(chunk_type) {
            Err(Error::InvalidType)
        } else if bytes.len() < 12 + length {
            Err(Error::Truncated)
        } else {
            let data = bytes.subrange(8, 8 + length);
            let crc = be_value(bytes.subrange(8 + length, 12 + length));
            if crc != checksum(chunk_type, data) {
                Err(Error::ChecksumMismatch)
            } else {
                Ok(ChunkView { length, chunk_type, data, crc })
            }
        }
    }
}

/// The one-line description of a chunk: its length, its type, the size of
/// its data and its checksum, the numbers in decimal.
pub open spec fn summary(chunk: ChunkView) -> Seq<char> {
    "length:"@ + decimal_text(chunk.length as nat) + ", type:"@ + ascii_text(chunk.chunk_type)
        + ", data size: "@ + decimal_text(chunk.data.len()) + ", crc "@ + decimal_text(
        chunk.crc as nat,
    )
}

/// `byte` with one of its eight bits inverted.
pub open spec fn flip_bit(byte: u8, bit: u8) -> u8
    recommends
        bit < 8,
{
    byte ^ (1u8 << bit)
}

/// The fields of an encoded chunk sit where the format puts them, whatever
/// follows the chunk.
pub proof fn lemma_encoded_layout(chunk: ChunkView, rest: Seq<u8>)
    requires
        chunk.chunk_type.len() == 4,
    ensures
        (encode_chunk(chunk) + rest).len() == 12 + chunk.data.len() + rest.len(),
        (encode_chunk(chunk) + rest).subrange(0, 4) == be_bytes(chunk.length),
        (encode_chunk(chunk) + rest).subrange(4, 8) == chunk.chunk_type,
        (encode_chunk(chunk) + rest).subrange(8, 8 + chunk.data.len() as int) == chunk.data,
        (encode_chunk(chunk) + rest).subrange(
            8 + chunk.data.len() as int,
            12 + chunk.data.len() as int,
        ) == be_bytes(chunk.crc),
        (encode_chunk(chunk) + rest).skip(12 + chunk.data.len() as int) == rest,
{
    let bytes = encode_chunk(chunk) + rest;
    let size = chunk.data.len() as int;
    lemma_be_value_of_bytes(chunk.length);
    lemma_be_value_of_bytes(chunk.crc);
    assert(bytes.subrange(0, 4) =~= be_bytes(chunk.length));
    assert(bytes.subrange(4, 8) =~= chunk.chunk_type);
    assert(bytes.subrange(8, 8 + size) =~= chunk.data);
    assert(bytes.subrange(8 + size, 12 + size) =~= be_bytes(chunk.crc));
    assert(bytes.skip(12 + size) =~= rest);
}

/// Reading finds a consistent chunk at the front of its own wire form,
/// whatever follows it.
pub proof fn lemma_parse_encoded(chunk: ChunkView, rest: Seq<u8>)
    requires
        chunk.wf(),
    ensures
        parse_chunk(encode_chunk(chunk) + rest) == Ok::<ChunkView, Error>(chunk),
{
    lemma_encoded_layout(chunk, rest);
    lemma_be_value_of_bytes(chunk.length);
    lemma_be_value_of_bytes(chunk.crc);
}

/// Decoding the wire form of a consistent chunk gives the chunk back, field
/// for field.
pub proof fn lemma_chunk_round_trip(chunk: ChunkView)
    requires
        chunk.wf(),
    ensures
        parse_chunk(encode_chunk(chunk)) == Ok::<ChunkView, Error>(chunk),
{
    lemma_parse_encoded(chunk, Seq::empty());
    assert(encode_chunk(chunk) + Seq::<u8>::empty() =~= encode_chunk(chunk));
}

/// A record derived from a type and data that fits the length field is
/// consistent.
pub proof fn lemma_derived_is_wf(chunk: ChunkView)
    requires
        chunk.derived(),
        chunk.data.len() <= u32::MAX,
    ensures
        chunk.wf(),
{
}

/// A chunk built from a type and data that fits the length field survives
/// encoding and decoding, checksum included.
pub proof fn lemma_new_round_trip(chunk_type: Seq<u8>, data: Seq<u8>)
    requires
        is_type_bytes(chunk_type),
        data.len() <= u32::MAX,
    ensures
        ChunkView::of(chunk_type, data).wf(),
        parse_chunk(encode_chunk(ChunkView::of(chunk_type, data))) == Ok::<ChunkView, Error>(
            ChunkView::of(chunk_type, data),
        ),
{
    lemma_chunk_round_trip(ChunkView::of(chunk_type, data));
}

/// A chunk that reading accepts is consistent, and its wire form is the
/// front of the buffer it was read from, byte for byte.
pub proof fn lemma_parsed_chunk(bytes: Seq<u8>)
    requires
        parse_chunk(bytes) is Ok,
    ensures
        parse_chunk(bytes)->Ok_0.wf(),
        encoded_len(parse_chunk(bytes)->Ok_0) <= bytes.len(),
        encode_chunk(parse_chunk(bytes)->Ok_0) == bytes.take(
            encoded_len(parse_chunk(bytes)->Ok_0),
        ),
{
    let chunk = parse_chunk(bytes)->Ok_0;
    lemma_be_bytes_of_value(bytes.subrange(0, 4));
    lemma_be_bytes_of_value(bytes.subrange(8 + chunk.length, 12 + chunk.length));
    assert(encode_chunk(chunk) =~= bytes.take(encoded_len(chunk)));
}

/// Changing one byte of the type or the data of an encoded chunk makes
/// decoding fail: with a checksum mismatch where the type is still four
/// letters, and as an invalid type where it is not.
pub proof fn lemma_byte_change_detected(chunk: ChunkView, at: int, byte: u8)
    requires
        chunk.wf(),
        4 <= at < 8 + chunk.length,
        byte != encode_chunk(chunk)[at],
    ensures
        parse_chunk(encode_chunk(chunk).update(at, byte)) == Err::<ChunkView, Error>(
            if at < 8 && !is_letter(byte) {
                Error::InvalidType
            } else {
                Error::ChecksumMismatch
            },
        ),
{
    let good = encode_chunk(chunk);
    let bad = good.update(at, byte);
    lemma_encoded_layout(chunk, Seq::empty());
    assert(good + Seq::<u8>::empty() =~= good);
    lemma_be_value_of_bytes(chunk.length);
    lemma_be_value_of_bytes(chunk.crc);
    let covered = chunk.chunk_type + chunk.data;
    assert(bad.subrange(0, 4) =~= good.subrange(0, 4));
    assert(bad.subrange(8 + chunk.length, 12 + chunk.length) =~= good.subrange(
        8 + chunk.length,
        12 + chunk.length,
    ));
    assert(bad.subrange(4, 8) + bad.subrange(8, 8 + chunk.length) =~= covered.update(
        at - 4,
        byte,
    ));
    assert(covered[at - 4] == good[at]);
    lemma_crc32_detects_byte(covered, at - 4, byte);
    if at < 8 {
        assert(bad.subrange(4, 8) =~= chunk.chunk_type.update(at - 4, byte));
        assert(bad.subrange(4, 8)[at - 4] == byte);
        if is_letter(byte) {
            assert(is_type_bytes(bad.subrange(4, 8))) by {
                assert forall|i: int| 0 <= i < 4 implies is_letter(
                    #[trigger] bad.subrange(4, 8)[i],
                ) by {
                    if i != at - 4 {
                        assert(bad.subrange(4, 8)[i] == chunk.chunk_type[i]);
                    }
                }
            }
        }
    } else {
        assert(bad.subrange(4, 8) =~= chunk.chunk_type);
    }
}

/// Flipping one bit of the data of an encoded chunk, or one bit of its type
/// that leaves a letter, makes decoding fail with a checksum mismatch.
pub proof fn lemma_bit_flip_detected(chunk: ChunkView, at: int, bit: u8)
    requires
        chunk.wf(),
        4 <= at < 8 + chunk.length,
        bit < 8,
        at < 8 ==> is_letter(flip_bit(encode_chunk(chunk)[at], bit)),
    ensures
        parse_chunk(encode_chunk(chunk).update(at, flip_bit(encode_chunk(chunk)[at], bit)))
            == Err::<ChunkView, Error>(Error::ChecksumMismatch),
{
    let byte = encode_chunk(chunk)[at];
    assert(bit < 8 ==> (byte ^ (1u8 << bit)) != byte) by (bit_vector);
    lemma_byte_change_detected(chunk, at, flip_bit(byte, bit));
}

/// A buffer that ends inside a chunk, anywhere before the chunk's last
/// byte, is refused as truncated.
pub proof fn lemma_truncation_detected(chunk: ChunkView, kept: int)
    requires
        chunk.wf(),
        0 <= kept < encoded_len(chunk),
    ensures
        parse_chunk(encode_chunk(chunk).take(kept)) == Err::<ChunkView, Error>(Error::Truncated),
{
    let cut = encode_chunk(chunk).take(kept);
    lemma_encoded_layout(chunk, Seq::empty());
    assert(encode_chunk(chunk) + Seq::<u8>::empty() =~= encode_chunk(chunk));
    lemma_be_value_of_bytes(chunk.length);
    if kept >= 8 {
        assert(cut.subrange(0, 4) =~= encode_chunk(chunk).subrange(0, 4));
        assert(cut.subrange(4, 8) =~= encode_chunk(chunk).subrange(4, 8));
    }
}

/// A chunk: immutable once built, with length and checksum always the ones
/// that its type and data give.
#[derive(Debug, Eq)]
pub struct Chunk {
    length: u32,
    chunk_type: ChunkType,
    data: Vec<u8>,
    crc: u32,
}

impl View for Chunk {
    type V = ChunkView;

    closed spec fn view(&self) -> ChunkView {
        ChunkView {
            length: self.length,
            chunk_type: self.chunk_type@,
            data: self.data@,
            crc: self.crc,
        }
    }
}

impl Chunk {
    /// What holds of every chunk: length and checksum are derived from type
    /// and data.
    #[verifier::type_invariant]
    pub open spec fn wf(&self) -> bool {
        self@.derived()
    }

    /// Builds the chunk with the given type and data; length and checksum
    /// are derived from them. The chunk is consistent where the data fits
    /// the 32-bit length field; of longer data the length field keeps the
    /// low 32 bits of the size.
    pub fn new(chunk_type: ChunkType, data: Vec<u8>) -> (chunk: Chunk)
        ensures
            chunk@ == ChunkView::of(chunk_type@, data@),
            chunk@.derived(),
            data@.len() <= u32::MAX ==> chunk@.wf(),
    {
        proof {
            use_type_invariant(&chunk_type);
        }
        let crc = compute(&chunk_type, &data);
        let length = #[verifier::truncate]
        (data.len() as u32);
        Chunk { length, chunk_type, data, crc }
    }

    /// The number of data bytes.
    pub fn length(&self) -> (res: u32)
        ensures
            res == self@.length,
    {
        self.length
    }

    /// The checksum over type and data.
    pub fn crc(&self) -> (res: u32)
        ensures
            res == self@.crc,
    {
        self.crc
    }

    /// The chunk's type.
    pub fn chunk_type(&self) -> (res: &ChunkType)
        ensures
            res@ == self@.chunk_type,
    {
        &self.chunk_type
    }

    /// The data bytes.
    pub fn data(&self) -> (res: &[u8])
        ensures
            res@ == self@.data,
    {
        self.data.as_slice()
    }

    /// The data as text. It succeeds exactly when the data is valid UTF-8.
    pub fn data_as_string(&self) -> (res: Result<String, Error>)
        ensures
            res is Ok <==> valid_utf8(self@.data),
            res is Ok ==> res->Ok_0@ == decode_utf8(self@.data),
            res is Err ==> res->Err_0 == Error::Utf8,
    {
        let copy = slice_to_vec(self.data.as_slice());
        match String::from_utf8(copy) {
            Ok(text) => Ok(text),
            Err(e) => Err(Error::from(e)),
        }
    }

    /// The wire form of the chunk: twelve bytes more than the data.
    pub fn as_bytes(&self) -> (res: Vec<u8>)
        ensures
            res@ == encode_chunk(self@),
            res@.len() == 12 + self@.data.len(),
    {
        proof {
            use_type_invariant(self);
            lemma_encoded_layout(self@, Seq::empty());
            assert(encode_chunk(self@) + Seq::<u8>::empty() =~= encode_chunk(self@));
        }
        let mut out: Vec<u8> = Vec::new();
        put_be(&mut out, self.length);
        let tag = self.chunk_type.bytes();
        out.extend_from_slice(tag.as_slice());
        out.extend_from_slice(self.data.as_slice());
        put_be(&mut out, self.crc);
        assert(out@ =~= encode_chunk(self@));
        out
    }

    /// A one-line description of the chunk.
    pub fn to_string(&self) -> (res: String)
        ensures
            res@ == summary(self@),
    {
        let mut out = String::from_str("length:");
        out.append(decimal_string(self.length as u64).as_str());
        out.append(", type:");
        out.append(self.chunk_type.to_string().as_str());
        out.append(", data size: ");
        out.append(decimal_string(self.data.len() as u64).as_str());
        out.append(", crc ");
        out.append(decimal_string(self.crc as u64).as_str());
        out
    }

    /// Reads a length field: exactly four bytes, big-endian.
    pub fn decode_length(values: &[u8]) -> (res: Result<usize, Error>)
        ensures
            res is Ok <==> values@.len() == 4,
            res is Ok ==> res->Ok_0 == be_value(values@),
            res is Err ==> res->Err_0 == Error::Truncated,
    {
        if values.len() != 4 {
            return Err(Error::Truncated);
        }
        assert(values@.subrange(0, 4) =~= values@);
        Ok(get_be(values, 0) as usize)
    }
}

impl PartialEq for Chunk {
    fn eq(&self, other: &Chunk) -> (res: bool) {
        let res = self.length == other.length && self.chunk_type == other.chunk_type
            && self.data == other.data && self.crc == other.crc;
        proof {
            if self.data@.len() == other.data@.len() && (forall|i: int|
                0 <= i < self.data@.len() ==> self.data@[i] == other.data@[i]) {
                assert(self.data@ =~= other.data@);
            }
        }
        res
    }
}

impl PartialEqSpecImpl for Chunk {
    open spec fn obeys_eq_spec() -> bool {
        true
    }

    open spec fn eq_spec(&self, other: &Chunk) -> bool {
        self@ == other@
    }
}

impl TryFrom<&[u8]> for Chunk {
    type Error = Error;

    /// Reads the chunk at the front of `values` and checks its checksum.
    fn try_from(values: &[u8]) -> (res: Result<Chunk, Error>)
        ensures
            match res {
                Ok(chunk) => parse_chunk(values@) == Ok::<ChunkView, Error>(chunk@) && chunk@.wf(),
                Err(e) => parse_chunk(values@) == Err::<ChunkView, Error>(e),
            },
    {
        if values.len() < 8 {
            return Err(Error::Truncated);
        }
        let length = get_be(values, 0);
        let tag: [u8; 4] = [values[4], values[5], values[6], values[7]];
        assert(tag@ =~= values@.subrange(4, 8));
        let chunk_type = match ChunkType::try_from(tag) {
            Ok(chunk_type) => chunk_type,
            Err(e) => {
                return Err(e);
            },
        };
        let rest = values.len() - 8;
        if rest < 4 || rest - 4 < length as usize {
            return Err(Error::Truncated);
        }
        let end = 8 + length as usize;
        let data = slice_to_vec(slice_subrange(values, 8, end));
        let crc = get_be(values, end);
        if crc != compute(&chunk_type, &data) {
            return Err(Error::ChecksumMismatch);
        }
        Ok(Chunk { length, chunk_type, data, crc })
    }
}

impl TryFromSpecImpl<&[u8]> for Chunk {
    open spec fn obeys_try_from_spec() -> bool {
        false
    }

    open spec fn try_from_spec(values: &[u8]) -> Result<Self, Error> {
        arbitrary()
    }
}

} // verus!
