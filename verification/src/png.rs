//! The PNG container: the eight signature bytes and the chunks that follow
//! them, in file order.

use vstd::prelude::*;
use vstd::slice::slice_subrange;
use vstd::std_specs::convert::TryFromSpecImpl;
use vstd::string::StringExecFns;
use crate::chunk::{
    encode_chunk, encoded_len, lemma_encoded_layout, lemma_parse_encoded, lemma_parsed_chunk,
    parse_chunk, summary, Chunk, ChunkView,
};
use crate::error::Error;
use crate::text::ascii_text;

verus! {

/// The eight bytes that open every PNG file.
pub const STANDARD_HEADER: [u8; 8] = [137, 80, 78, 71, 13, 10, 26, 10];

/// The signature as a sequence.
pub open spec fn signature() -> Seq<u8> {
    seq![137u8, 80u8, 78u8, 71u8, 13u8, 10u8, 26u8, 10u8]
}

/// The wire forms of the chunks, one after the other.
pub open spec fn encode_chunks(chunks: Seq<ChunkView>) -> Seq<u8>
    decreases chunks.len(),
{
    if chunks.len() == 0 {
        Seq::empty()
    } else {
        encode_chunk(chunks.first()) + encode_chunks(chunks.drop_first())
    }
}

/// The wire form of a container: the signature, then the chunks.
pub open spec fn encode_png(chunks: Seq<ChunkView>) -> Seq<u8> {
    signature() + encode_chunks(chunks)
}

/// What reading chunks until `bytes` is used up gives: all of them in order,
/// or the error of the first one that cannot be read.
pub open spec fn parse_chunks(bytes: Seq<u8>) -> Result<Seq<ChunkView>, Error>
    decreases bytes.len(),
{
    if bytes.len() == 0 {
        Ok(Seq::empty())
    } else {
        match parse_chunk(bytes) {
            Err(e) => Err(e),
            Ok(chunk) => after(seq![chunk], parse_chunks(bytes.skip(encoded_len(chunk)))),
        }
    }
}

/// The chunks read so far put in front of what reading the rest gives.
pub open spec fn after(done: Seq<ChunkView>, rest: Result<Seq<ChunkView>, Error>) -> Result<
    Seq<ChunkView>,
    Error,
> {
    match rest {
        Ok(more) => Ok(done + more),
        Err(e) => Err(e),
    }
}

/// What reading a whole file gives: its chunks, a signature mismatch where
/// the first eight bytes are not the signature, or the error of the first
/// chunk that cannot be read.
pub open spec fn parse_png(bytes: Seq<u8>) -> Result<Seq<ChunkView>, Error> {
    if bytes.len() < 8 || bytes.subrange(0, 8) != signature() {
        Err(Error::SignatureMismatch)
    } else {
        parse_chunks(bytes.skip(8))
    }
}

/// Every chunk of the sequence is consistent.
pub open spec fn all_wf(chunks: Seq<ChunkView>) -> bool {
    forall|i: int| 0 <= i < chunks.len() ==> (#[trigger] chunks[i]).wf()
}

/// The chunk's type, read as text, is `text`.
pub open spec fn has_type(chunk: ChunkView, text: Seq<char>) -> bool {
    ascii_text(chunk.chunk_type) == text
}

/// The position of the first chunk of the given type, or the number of
/// chunks where there is none.
pub open spec fn first_of_type(chunks: Seq<ChunkView>, text: Seq<char>) -> int
    decreases chunks.len(),
{
    if chunks.len() == 0 {
        0
    } else if has_type(chunks.first(), text) {
        0
    } else {
        1 + first_of_type(chunks.drop_first(), text)
    }
}

/// The first chunk of the given type, if there is one.
pub open spec fn lookup(chunks: Seq<ChunkView>, text: Seq<char>) -> Option<ChunkView> {
    let at = first_of_type(chunks, text);
    if at < chunks.len() {
        Some(chunks[at])
    } else {
        None
    }
}

/// Exactly one chunk has the given type.
pub open spec fn one_of_type(chunks: Seq<ChunkView>, text: Seq<char>) -> bool {
    &&& first_of_type(chunks, text) < chunks.len()
    &&& forall|j: int|
        first_of_type(chunks, text) < j < chunks.len() ==> !has_type(#[trigger] chunks[j], text)
}

/// The models of the chunks of a sequence, one for one.
pub open spec fn views(chunks: Seq<Chunk>) -> Seq<ChunkView> {
    Seq::new(chunks.len(), |i: int| chunks[i]@)
}

/// `first_of_type` is the one position that has the type with no chunk of
/// the type before it, or the number of chunks where none has the type.
pub proof fn lemma_first_of_type(chunks: Seq<ChunkView>, text: Seq<char>, at: int)
    ensures
        0 <= first_of_type(chunks, text) <= chunks.len(),
        first_of_type(chunks, text) == at <==> {
            &&& 0 <= at <= chunks.len()
            &&& forall|j: int| 0 <= j < at ==> !has_type(#[trigger] chunks[j], text)
            &&& at < chunks.len() ==> has_type(chunks[at], text)
        },
    decreases chunks.len(),
{
    if chunks.len() > 0 {
        let rest = chunks.drop_first();
        lemma_first_of_type(rest, text, at - 1);
        if has_type(chunks.first(), text) {
            if at > 0 {
                assert(has_type(chunks[0], text));
            }
        } else {
            if first_of_type(chunks, text) == at {
                assert forall|j: int| 0 <= j < at implies !has_type(#[trigger] chunks[j], text) by {
                    if j > 0 {
                        assert(chunks[j] == rest[j - 1]);
                    }
                }
            }
            if 1 <= at <= chunks.len() && (forall|j: int|
                0 <= j < at ==> !has_type(#[trigger] chunks[j], text)) && (at < chunks.len()
                ==> has_type(chunks[at], text)) {
                assert forall|j: int| 0 <= j < at - 1 implies !has_type(
                    #[trigger] rest[j],
                    text,
                ) by {
                    assert(rest[j] == chunks[j + 1]);
                }
            }
        }
    }
}

/// Encoding one more chunk appends its wire form.
pub proof fn lemma_encode_push(chunks: Seq<ChunkView>, chunk: ChunkView)
    ensures
        encode_chunks(chunks.push(chunk)) == encode_chunks(chunks) + encode_chunk(chunk),
    decreases chunks.len(),
{
    let all = chunks.push(chunk);
    let last = encode_chunk(chunk);
    if chunks.len() == 0 {
        assert(all.drop_first() =~= Seq::<ChunkView>::empty());
        assert(all.first() == chunk);
        assert(encode_chunks(all.drop_first()) == Seq::<u8>::empty());
        assert(last + Seq::<u8>::empty() =~= Seq::<u8>::empty() + last);
    } else {
        let head = encode_chunk(chunks.first());
        let middle = encode_chunks(chunks.drop_first());
        assert(all.first() == chunks.first());
        assert(all.drop_first() =~= chunks.drop_first().push(chunk));
        lemma_encode_push(chunks.drop_first(), chunk);
        assert(encode_chunks(all) == head + (middle + last));
        assert(encode_chunks(chunks) == head + middle);
        assert(head + (middle + last) =~= (head + middle) + last);
    }
}

/// Reading chunks from the wire form of a consistent chunk, followed by
/// anything, reads that chunk first and goes on behind it.
pub proof fn lemma_parse_chunks_step(chunk: ChunkView, rest: Seq<u8>)
    requires
        chunk.wf(),
    ensures
        parse_chunks(encode_chunk(chunk) + rest) == after(seq![chunk], parse_chunks(rest)),
{
    let bytes = encode_chunk(chunk) + rest;
    lemma_encoded_layout(chunk, rest);
    lemma_parse_encoded(chunk, rest);
    assert(bytes.len() > 0);
}

/// Reading the wire forms of consistent chunks gives the chunks back.
pub proof fn lemma_chunks_round_trip(chunks: Seq<ChunkView>)
    requires
        all_wf(chunks),
    ensures
        parse_chunks(encode_chunks(chunks)) == Ok::<Seq<ChunkView>, Error>(chunks),
    decreases chunks.len(),
{
    if chunks.len() > 0 {
        let first = chunks.first();
        let rest = chunks.drop_first();
        assert(first.wf());
        assert(all_wf(rest)) by {
            assert forall|i: int| 0 <= i < rest.len() implies (#[trigger] rest[i]).wf() by {
                assert(rest[i] == chunks[i + 1]);
            }
        }
        lemma_parse_chunks_step(first, encode_chunks(rest));
        lemma_chunks_round_trip(rest);
        assert(seq![first] + rest =~= chunks);
    } else {
        assert(chunks =~= Seq::<ChunkView>::empty());
    }
}

/// Decoding the wire form of a container of consistent chunks gives the
/// same chunks in the same order; the signature that encoding writes is the
/// one that decoding asks for.
pub proof fn lemma_png_round_trip(chunks: Seq<ChunkView>)
    requires
        all_wf(chunks),
    ensures
        encode_png(chunks).subrange(0, 8) == signature(),
        parse_png(encode_png(chunks)) == Ok::<Seq<ChunkView>, Error>(chunks),
{
    let bytes = encode_png(chunks);
    assert(bytes.subrange(0, 8) =~= signature());
    assert(bytes.skip(8) =~= encode_chunks(chunks));
    lemma_chunks_round_trip(chunks);
}

/// Chunks that reading accepts are consistent, and their wire forms, one
/// after the other, are the buffer they were read from.
pub proof fn lemma_parsed_chunks(bytes: Seq<u8>)
    requires
        parse_chunks(bytes) is Ok,
    ensures
        all_wf(parse_chunks(bytes)->Ok_0),
        encode_chunks(parse_chunks(bytes)->Ok_0) == bytes,
    decreases bytes.len(),
{
    let chunks = parse_chunks(bytes)->Ok_0;
    if bytes.len() == 0 {
        assert(encode_chunks(chunks) =~= bytes);
    } else {
        let first = parse_chunk(bytes)->Ok_0;
        let tail = bytes.skip(encoded_len(first));
        lemma_parsed_chunk(bytes);
        lemma_parsed_chunks(tail);
        let rest = parse_chunks(tail)->Ok_0;
        assert(chunks == seq![first] + rest);
        assert(chunks.first() == first);
        assert(chunks.drop_first() =~= rest);
        assert(bytes.take(encoded_len(first)) + tail =~= bytes);
    }
}

/// A container that reading accepts holds consistent chunks, and writing
/// it out gives the very bytes it was read from.
pub proof fn lemma_parsed_png(bytes: Seq<u8>)
    requires
        parse_png(bytes) is Ok,
    ensures
        all_wf(parse_png(bytes)->Ok_0),
        encode_png(parse_png(bytes)->Ok_0) == bytes,
{
    lemma_parsed_chunks(bytes.skip(8));
    assert(bytes.subrange(0, 8) + bytes.skip(8) =~= bytes);
}

/// A chunk appended to a container that holds none of its type is the one
/// that a lookup of its type finds.
pub proof fn lemma_lookup_appended(chunks: Seq<ChunkView>, chunk: ChunkView, text: Seq<char>)
    requires
        has_type(chunk, text),
        lookup(chunks, text) is None,
    ensures
        lookup(chunks.push(chunk), text) == Some(chunk),
{
    let all = chunks.push(chunk);
    lemma_first_of_type(chunks, text, chunks.len() as int);
    assert forall|j: int| 0 <= j < chunks.len() implies !has_type(#[trigger] all[j], text) by {
        assert(all[j] == chunks[j]);
    }
    lemma_first_of_type(all, text, chunks.len() as int);
}

/// Appending a chunk does not change what a lookup finds among the chunks
/// that were there: the first of a type stays the first.
pub proof fn lemma_lookup_keeps_first(chunks: Seq<ChunkView>, chunk: ChunkView, text: Seq<char>)
    requires
        lookup(chunks, text) is Some,
    ensures
        lookup(chunks.push(chunk), text) == lookup(chunks, text),
{
    let all = chunks.push(chunk);
    let at = first_of_type(chunks, text);
    lemma_first_of_type(chunks, text, at);
    assert forall|j: int| 0 <= j < at implies !has_type(#[trigger] all[j], text) by {
        assert(all[j] == chunks[j]);
    }
    assert(all[at] == chunks[at]);
    lemma_first_of_type(all, text, at);
}

/// Where exactly one chunk has the type, none has it once the first of the
/// type is taken out.
pub proof fn lemma_removed_is_absent(chunks: Seq<ChunkView>, text: Seq<char>)
    requires
        one_of_type(chunks, text),
    ensures
        lookup(chunks.remove(first_of_type(chunks, text)), text) is None,
{
    let at = first_of_type(chunks, text);
    let left = chunks.remove(at);
    lemma_first_of_type(chunks, text, at);
    assert forall|j: int| 0 <= j < left.len() implies !has_type(#[trigger] left[j], text) by {
        if j < at {
            assert(left[j] == chunks[j]);
        } else {
            assert(left[j] == chunks[j + 1]);
        }
    }
    lemma_first_of_type(left, text, left.len() as int);
}

/// Taking out the first chunk of a type leaves every other chunk in place
/// and in order: a later chunk of the same type becomes the first.
pub proof fn lemma_removed_keeps_rest(chunks: Seq<ChunkView>, text: Seq<char>)
    requires
        lookup(chunks, text) is Some,
    ensures
        chunks.remove(first_of_type(chunks, text)) == chunks.take(first_of_type(chunks, text))
            + chunks.skip(first_of_type(chunks, text) + 1),
{
    let at = first_of_type(chunks, text);
    lemma_first_of_type(chunks, text, at);
    assert(chunks.remove(at) =~= chunks.take(at) + chunks.skip(at + 1));
}

/// The rendering of a container: one line for each chunk, in file order.
pub open spec fn listing(chunks: Seq<ChunkView>) -> Seq<char>
    decreases chunks.len(),
{
    if chunks.len() == 0 {
        Seq::empty()
    } else {
        listing(chunks.drop_last()) + summary(chunks.last()) + "\n"@
    }
}

/// A PNG file as its chunks, in file order.
///
/// Its view is the sequence of the chunks' models.
#[derive(Debug)]
pub struct Png {
    chunks: Vec<Chunk>,
}

impl View for Png {
    type V = Seq<ChunkView>;

    closed spec fn view(&self) -> Seq<ChunkView> {
        views(self.chunks@)
    }
}

impl Png {
    /// The container that holds the given chunks, in their order.
    pub fn from_chunks(chunks: Vec<Chunk>) -> (png: Png)
        ensures
            png@ == views(chunks@),
    {
        Png { chunks }
    }

    /// Adds `chunk` after the chunks that are there. Nothing is checked: a
    /// type may occur any number of times.
    pub fn append_chunk(&mut self, chunk: Chunk)
        ensures
            final(self)@ == old(self)@.push(chunk@),
    {
        self.chunks.push(chunk);
        assert(self@ =~= old(self)@.push(chunk@));
    }

    /// Takes out the first chunk of the given type and returns it. Where no
    /// chunk has the type, the container stays as it is.
    pub fn remove_chunk(&mut self, chunk_type: &str) -> (res: Result<Chunk, Error>)
        ensures
            match lookup(old(self)@, chunk_type@) {
                Some(chunk) => {
                    &&& res is Ok
                    &&& res->Ok_0@ == chunk
                    &&& final(self)@ == old(self)@.remove(first_of_type(old(self)@, chunk_type@))
                },
                None => {
                    &&& res == Err::<Chunk, Error>(Error::NotFound)
                    &&& final(self)@ == old(self)@
                },
            },
    {
        let mut i: usize = 0;
        while i < self.chunks.len()
            invariant
                i <= self.chunks@.len(),
                *self == *old(self),
                forall|j: int| 0 <= j < i ==> !has_type(#[trigger] self@[j], chunk_type@),
            decreases self.chunks@.len() - i,
        {
            if self.chunks[i].chunk_type().has_text(chunk_type) {
                proof {
                    lemma_first_of_type(self@, chunk_type@, i as int);
                }
                let chunk = self.chunks.remove(i);
                assert(self@ =~= old(self)@.remove(i as int));
                return Ok(chunk);
            }
            i += 1;
        }
        proof {
            lemma_first_of_type(self@, chunk_type@, i as int);
        }
        Err(Error::NotFound)
    }

    /// The signature bytes.
    pub fn header(&self) -> (res: &[u8; 8])
        ensures
            res@ == signature(),
    {
        assert(STANDARD_HEADER@ =~= signature());
        &STANDARD_HEADER
    }

    /// The chunks, in file order.
    pub fn chunks(&self) -> (res: &[Chunk])
        ensures
            views(res@) == self@,
    {
        self.chunks.as_slice()
    }

    /// The first chunk of the given type, if there is one.
    pub fn chunk_by_type(&self, chunk_type: &str) -> (res: Option<&Chunk>)
        ensures
            match lookup(self@, chunk_type@) {
                Some(chunk) => res is Some && res->Some_0@ == chunk,
                None => res is None,
            },
    {
        let mut i: usize = 0;
        while i < self.chunks.len()
            invariant
                i <= self.chunks@.len(),
                forall|j: int| 0 <= j < i ==> !has_type(#[trigger] self@[j], chunk_type@),
            decreases self.chunks@.len() - i,
        {
            if self.chunks[i].chunk_type().has_text(chunk_type) {
                proof {
                    lemma_first_of_type(self@, chunk_type@, i as int);
                }
                return Some(&self.chunks[i]);
            }
            i += 1;
        }
        proof {
            lemma_first_of_type(self@, chunk_type@, i as int);
        }
        None
    }

    /// A rendering of the container for people: one line for each chunk,
    /// with its length, type, data size and checksum.
    pub fn to_string(&self) -> (res: String)
        ensures
            res@ == listing(self@),
    {
        let mut out = String::new();
        assert(self@.take(0) =~= Seq::<ChunkView>::empty());
        let mut i: usize = 0;
        while i < self.chunks.len()
            invariant
                i <= self.chunks@.len(),
                out@ == listing(self@.take(i as int)),
            decreases self.chunks@.len() - i,
        {
            proof {
                let next = self@.take(i + 1);
                assert(next.drop_last() =~= self@.take(i as int));
                assert(next.last() == self@[i as int]);
            }
            out.append(self.chunks[i].to_string().as_str());
            out.append("\n");
            i += 1;
        }
        assert(self@.take(i as int) =~= self@);
        out
    }

    /// The wire form of the container: the signature, then each chunk.
    pub fn as_bytes(&self) -> (res: Vec<u8>)
        ensures
            res@ == encode_png(self@),
    {
        let mut out: Vec<u8> = Vec::new();
        out.extend_from_slice(STANDARD_HEADER.as_slice());
        assert(out@ =~= signature() + encode_chunks(self@.take(0)));
        let mut i: usize = 0;
        while i < self.chunks.len()
            invariant
                i <= self.chunks@.len(),
                out@ == signature() + encode_chunks(self@.take(i as int)),
            decreases self.chunks@.len() - i,
        {
            let mut bytes = self.chunks[i].as_bytes();
            proof {
                assert(self@.take(i + 1) =~= self@.take(i as int).push(self@[i as int]));
                lemma_encode_push(self@.take(i as int), self@[i as int]);
            }
            out.append(&mut bytes);
            assert(out@ =~= signature() + encode_chunks(self@.take(i + 1)));
            i += 1;
        }
        assert(self@.take(i as int) =~= self@);
        out
    }
}

impl TryFrom<&[u8]> for Png {
    type Error = Error;

    /// Reads a whole file: the signature, then chunks until the buffer is
    /// used up. One chunk that cannot be read fails the whole.
    fn try_from(bytes: &[u8]) -> (res: Result<Png, Error>)
        ensures
            match res {
                Ok(png) => parse_png(bytes@) == Ok::<Seq<ChunkView>, Error>(png@) && all_wf(png@),
                Err(e) => parse_png(bytes@) == Err::<Seq<ChunkView>, Error>(e),
            },
    {
        if bytes.len() < 8 {
            return Err(Error::SignatureMismatch);
        }
        let mut k: usize = 0;
        while k < 8
            invariant
                k <= 8,
                bytes@.len() >= 8,
                forall|j: int| 0 <= j < k ==> bytes@[j] == #[trigger] signature()[j],
            decreases 8 - k,
        {
            if bytes[k] != STANDARD_HEADER[k] {
                assert(bytes@.subrange(0, 8)[k as int] != signature()[k as int]);
                return Err(Error::SignatureMismatch);
            }
            k += 1;
        }
        assert(bytes@.subrange(0, 8) =~= signature());
        let mut chunks: Vec<Chunk> = Vec::new();
        let mut cursor: usize = 8;
        assert(after(views(chunks@), parse_chunks(bytes@.skip(8))) == parse_chunks(
            bytes@.skip(8),
        )) by {
            assert(views(chunks@) =~= Seq::<ChunkView>::empty());
            match parse_chunks(bytes@.skip(8)) {
                Ok(more) => {
                    assert(Seq::<ChunkView>::empty() + more =~= more);
                },
                Err(_) => {},
            }
        }
        while cursor < bytes.len()
            invariant
                8 <= cursor <= bytes@.len(),
                all_wf(views(chunks@)),
                parse_png(bytes@) == parse_chunks(bytes@.skip(8)),
                parse_chunks(bytes@.skip(8)) == after(
                    views(chunks@),
                    parse_chunks(bytes@.skip(cursor as int)),
                ),
            decreases bytes@.len() - cursor,
        {
            let rest = slice_subrange(bytes, cursor, bytes.len());
            assert(rest@ =~= bytes@.skip(cursor as int));
            let chunk = match Chunk::try_from(rest) {
                Ok(chunk) => chunk,
                Err(e) => {
                    return Err(e);
                },
            };
            let ghost done = views(chunks@);
            let ghost size = encoded_len(chunk@);
            proof {
                assert(rest@.skip(size) =~= bytes@.skip(cursor + size));
                match parse_chunks(bytes@.skip(cursor + size)) {
                    Ok(more) => {
                        assert(done + (seq![chunk@] + more) =~= done.push(chunk@) + more);
                    },
                    Err(_) => {},
                }
            }
            cursor = cursor + 12 + chunk.length() as usize;
            chunks.push(chunk);
            assert(views(chunks@) =~= done.push(chunk@));
        }
        proof {
            assert(bytes@.skip(cursor as int) =~= Seq::<u8>::empty());
            assert(views(chunks@) + Seq::<ChunkView>::empty() =~= views(chunks@));
        }
        Ok(Png { chunks })
    }
}

impl TryFromSpecImpl<&[u8]> for Png {
    open spec fn obeys_try_from_spec() -> bool {
        false
    }

    open spec fn try_from_spec(bytes: &[u8]) -> Result<Self, Error> {
        arbitrary()
    }
}

} // verus!
