//! The four commands on a PNG file held in memory: read a hidden message,
//! add one, take one out, and list the chunks. Each takes the file's bytes
//! and gives bytes or text back; reading and writing the file is the
//! caller's part.

use vstd::prelude::*;
use vstd::string::StrSliceExecFns;
use vstd::utf8::{
    decode_utf8, encode_utf8, encode_utf8_decode_utf8, encode_utf8_valid_utf8, valid_utf8,
};
use crate::chunk::{Chunk, ChunkView};
use crate::chunk_type::{is_type_text, lemma_type_text_bytes, ChunkType};
use crate::error::Error;
use crate::png::{
    all_wf, encode_png, first_of_type, has_type, lemma_first_of_type, lemma_lookup_appended,
    lemma_parsed_png, lemma_png_round_trip, lemma_removed_is_absent, listing, lookup, one_of_type,
    parse_png, Png,
};

verus! {

/// The message that `decode` finds in a file: the data of the first chunk
/// of the given type, as text.
pub open spec fn decode_outcome(file: Seq<u8>, chunk: Seq<char>) -> Result<Seq<char>, Error> {
    match parse_png(file) {
        Err(e) => Err(e),
        Ok(chunks) => match lookup(chunks, chunk) {
            None => Err(Error::NotFound),
            Some(found) => if valid_utf8(found.data) {
                Ok(decode_utf8(found.data))
            } else {
                Err(Error::Utf8)
            },
        },
    }
}

/// The chunk that `encode` adds: the type is the text's letters, the data
/// the message in UTF-8.
pub open spec fn message_chunk(chunk: Seq<char>, message: Seq<char>) -> ChunkView {
    ChunkView::of(encode_utf8(chunk), encode_utf8(message))
}

/// The file that `encode` makes: the chunks that were there, then the
/// message chunk.
pub open spec fn encode_outcome(file: Seq<u8>, chunk: Seq<char>, message: Seq<char>) -> Result<
    Seq<u8>,
    Error,
> {
    match parse_png(file) {
        Err(e) => Err(e),
        Ok(chunks) => if is_type_text(chunk) {
            Ok(encode_png(chunks.push(message_chunk(chunk, message))))
        } else {
            Err(Error::InvalidType)
        },
    }
}

/// The file that `remove` makes: the chunks that were there but the first of
/// the given type.
pub open spec fn remove_outcome(file: Seq<u8>, chunk: Seq<char>) -> Result<Seq<u8>, Error> {
    match parse_png(file) {
        Err(e) => Err(e),
        Ok(chunks) => match lookup(chunks, chunk) {
            None => Err(Error::NotFound),
            Some(_) => Ok(encode_png(chunks.remove(first_of_type(chunks, chunk)))),
        },
    }
}

/// The text that `print` makes: one line for each chunk of the file.
pub open spec fn print_outcome(file: Seq<u8>) -> Result<Seq<char>, Error> {
    match parse_png(file) {
        Err(e) => Err(e),
        Ok(chunks) => Ok(listing(chunks)),
    }
}

/// Reads the message hidden in the first chunk of type `chunk`.
pub fn decode(input: &[u8], chunk: String) -> (res: Result<String, Error>)
    ensures
        match res {
            Ok(message) => decode_outcome(input@, chunk@) == Ok::<Seq<char>, Error>(message@),
            Err(e) => decode_outcome(input@, chunk@) == Err::<Seq<char>, Error>(e),
        },
{
    let png = match Png::try_from(input) {
        Ok(png) => png,
        Err(e) => {
            return Err(e);
        },
    };
    match png.chunk_by_type(chunk.as_str()) {
        Some(found) => found.data_as_string(),
        None => Err(Error::NotFound),
    }
}

/// Hides `message` in a new chunk of type `chunk` at the end of the file,
/// and returns the new file.
pub fn encode(input: &[u8], chunk: String, message: String) -> (res: Result<Vec<u8>, Error>)
    ensures
        match res {
            Ok(file) => encode_outcome(input@, chunk@, message@) == Ok::<Seq<u8>, Error>(file@),
            Err(e) => encode_outcome(input@, chunk@, message@) == Err::<Seq<u8>, Error>(e),
        },
{
    let mut png = match Png::try_from(input) {
        Ok(png) => png,
        Err(e) => {
            return Err(e);
        },
    };
    let chunk_type = match ChunkType::from_str(chunk.as_str()) {
        Ok(chunk_type) => chunk_type,
        Err(e) => {
            return Err(e);
        },
    };
    let data = message.as_str().as_bytes_vec();
    png.append_chunk(Chunk::new(chunk_type, data));
    Ok(png.as_bytes())
}

/// Takes the first chunk of type `chunk` out of the file, and returns the
/// new file.
pub fn remove(input: &[u8], chunk: String) -> (res: Result<Vec<u8>, Error>)
    ensures
        match res {
            Ok(file) => remove_outcome(input@, chunk@) == Ok::<Seq<u8>, Error>(file@),
            Err(e) => remove_outcome(input@, chunk@) == Err::<Seq<u8>, Error>(e),
        },
{
    let mut png = match Png::try_from(input) {
        Ok(png) => png,
        Err(e) => {
            return Err(e);
        },
    };
    match png.remove_chunk(chunk.as_str()) {
        Ok(_) => Ok(png.as_bytes()),
        Err(e) => Err(e),
    }
}

/// Lists the chunks of the file, one line each.
pub fn print(input: &[u8]) -> (res: Result<String, Error>)
    ensures
        match res {
            Ok(text) => print_outcome(input@) == Ok::<Seq<char>, Error>(text@),
            Err(e) => print_outcome(input@) == Err::<Seq<char>, Error>(e),
        },
{
    match Png::try_from(input) {
        Ok(png) => Ok(png.to_string()),
        Err(e) => Err(e),
    }
}

/// A message hidden under a type that the file did not hold is the message
/// that reading that type from the new file finds.
pub proof fn lemma_encode_then_decode(file: Seq<u8>, chunk: Seq<char>, message: Seq<char>)
    requires
        encode_outcome(file, chunk, message) is Ok,
        decode_outcome(file, chunk) == Err::<Seq<char>, Error>(Error::NotFound),
        encode_utf8(message).len() <= u32::MAX,
    ensures
        decode_outcome(encode_outcome(file, chunk, message)->Ok_0, chunk) == Ok::<
            Seq<char>,
            Error,
        >(message),
{
    let chunks = parse_png(file)->Ok_0;
    let added = message_chunk(chunk, message);
    let all = chunks.push(added);
    lemma_parsed_png(file);
    lemma_type_text_bytes(chunk);
    assert(added.wf());
    assert(all_wf(all)) by {
        assert forall|i: int| 0 <= i < all.len() implies (#[trigger] all[i]).wf() by {
            if i < chunks.len() {
                assert(all[i] == chunks[i]);
            }
        }
    }
    lemma_png_round_trip(all);
    assert(has_type(added, chunk));
    lemma_lookup_appended(chunks, added, chunk);
    encode_utf8_valid_utf8(message);
    encode_utf8_decode_utf8(message);
}

/// Once the only chunk of a type is taken out of a file, reading that type
/// from the new file finds nothing.
pub proof fn lemma_remove_then_decode(file: Seq<u8>, chunk: Seq<char>)
    requires
        parse_png(file) is Ok,
        one_of_type(parse_png(file)->Ok_0, chunk),
    ensures
        remove_outcome(file, chunk) is Ok,
        decode_outcome(remove_outcome(file, chunk)->Ok_0, chunk) == Err::<Seq<char>, Error>(
            Error::NotFound,
        ),
{
    let chunks = parse_png(file)->Ok_0;
    let left = chunks.remove(first_of_type(chunks, chunk));
    lemma_parsed_png(file);
    lemma_first_of_type(chunks, chunk, first_of_type(chunks, chunk));
    assert(all_wf(left)) by {
        assert forall|i: int| 0 <= i < left.len() implies (#[trigger] left[i]).wf() by {
            if i < first_of_type(chunks, chunk) {
                assert(left[i] == chunks[i]);
            } else {
                assert(left[i] == chunks[i + 1]);
            }
        }
    }
    lemma_png_round_trip(left);
    lemma_removed_is_absent(chunks, chunk);
}

/// Hiding a message under a type that the file did not hold and taking that
/// type out again gives back the file, byte for byte.
pub proof fn lemma_encode_then_remove(file: Seq<u8>, chunk: Seq<char>, message: Seq<char>)
    requires
        encode_outcome(file, chunk, message) is Ok,
        decode_outcome(file, chunk) == Err::<Seq<char>, Error>(Error::NotFound),
        encode_utf8(message).len() <= u32::MAX,
    ensures
        remove_outcome(encode_outcome(file, chunk, message)->Ok_0, chunk) == Ok::<Seq<u8>, Error>(
            file,
        ),
{
    let chunks = parse_png(file)->Ok_0;
    let added = message_chunk(chunk, message);
    let all = chunks.push(added);
    lemma_parsed_png(file);
    lemma_type_text_bytes(chunk);
    assert(added.wf());
    assert(all_wf(all)) by {
        assert forall|i: int| 0 <= i < all.len() implies (#[trigger] all[i]).wf() by {
            if i < chunks.len() {
                assert(all[i] == chunks[i]);
            }
        }
    }
    lemma_png_round_trip(all);
    assert(has_type(added, chunk));
    lemma_lookup_appended(chunks, added, chunk);
    lemma_first_of_type(chunks, chunk, chunks.len() as int);
    lemma_first_of_type(all, chunk, chunks.len() as int);
    assert(all.remove(chunks.len() as int) =~= chunks);
}

} // verus!
