//! The four-letter tag that names a chunk's role.

use vstd::prelude::*;
use vstd::std_specs::cmp::PartialEqSpecImpl;
use vstd::std_specs::convert::TryFromSpecImpl;
use vstd::string::StringSliceAdditionalSpecFns;
use vstd::utf8::*;
use crate::error::Error;
use crate::text::{
    ascii_text, is_ascii_bytes, lemma_ascii_encoding_is_text, lemma_ascii_is_utf8, lossy_text,
};

verus! {

/// The case bit of an ASCII letter, which carries a chunk type's flags.
pub const MASK: u8 = 32;

/// `byte` is `A`-`Z` or `a`-`z`.
pub open spec fn is_letter(byte: u8) -> bool {
    (65 <= byte <= 90) || (97 <= byte <= 122)
}

/// `byte` is `A`-`Z`.
pub open spec fn is_upper(byte: u8) -> bool {
    65 <= byte <= 90
}

/// `bytes` is a legal chunk type: four ASCII letters.
pub open spec fn is_type_bytes(bytes: Seq<u8>) -> bool {
    &&& bytes.len() == 4
    &&& forall|i: int| 0 <= i < 4 ==> is_letter(#[trigger] bytes[i])
}

/// `c` is `A`-`Z` or `a`-`z`.
pub open spec fn is_letter_char(c: char) -> bool {
    ('A' <= c <= 'Z') || ('a' <= c <= 'z')
}

/// `text` names a chunk type: four ASCII letters.
pub open spec fn is_type_text(text: Seq<char>) -> bool {
    &&& text.len() == 4
    &&& forall|i: int| 0 <= i < 4 ==> is_letter_char(#[trigger] text[i])
}

/// On a letter the case bit is clear exactly when the letter is upper case.
pub proof fn lemma_case_bit(byte: u8)
    requires
        is_letter(byte),
    ensures
        (byte & MASK == 0) <==> is_upper(byte),
{
    assert(((65 <= byte <= 90) || (97 <= byte <= 122)) ==> ((byte & 32 == 0) <==> (65 <= byte
        <= 90))) by (bit_vector);
}

/// A text is four letters exactly when its UTF-8 encoding is, and the
/// encoding then holds one byte for each letter.
pub proof fn lemma_type_text_bytes(text: Seq<char>)
    ensures
        is_type_text(text) <==> is_type_bytes(encode_utf8(text)),
        is_type_text(text) ==> ascii_text(encode_utf8(text)) == text,
{
    let bytes = encode_utf8(text);
    if is_type_text(text) {
        assert(is_ascii_chars(text)) by {
            assert forall|i: int| 0 <= i < text.len() implies '\0' <= #[trigger] text[i]
                <= '\u{7f}' by {
                assert(is_letter_char(text[i]));
            }
        }
        is_ascii_chars_encode_utf8(text);
        assert forall|i: int| 0 <= i < 4 implies is_letter(#[trigger] bytes[i]) by {
            assert(is_letter_char(text[i]));
            assert(text[i] as u8 == bytes[i]);
        }
        assert(is_ascii_bytes(bytes));
        lemma_ascii_encoding_is_text(text);
    }
    if is_type_bytes(bytes) {
        assert(is_ascii_bytes(bytes));
        lemma_ascii_encoding_is_text(text);
        assert forall|i: int| 0 <= i < 4 implies is_letter_char(#[trigger] text[i]) by {
            assert(is_letter(bytes[i]));
            assert(text[i] == bytes[i] as char);
        }
    }
}

/// A type, read as text, is a given text exactly when the text encodes to
/// the bytes of the type.
pub proof fn lemma_text_of_type(bytes: Seq<u8>, text: Seq<char>)
    requires
        is_type_bytes(bytes),
    ensures
        (ascii_text(bytes) == text) <==> (encode_utf8(text) == bytes),
{
    assert(is_ascii_bytes(bytes)) by {
        assert forall|i: int| 0 <= i < bytes.len() implies #[trigger] bytes[i] < 128 by {
            assert(is_letter(bytes[i]));
        }
    }
    lemma_ascii_is_utf8(bytes);
    if encode_utf8(text) == bytes {
        lemma_ascii_encoding_is_text(text);
    }
}

/// A chunk type: four ASCII letters, fixed at construction.
///
/// Its view is the sequence of its four bytes.
#[derive(Debug, Clone, Copy, Eq)]
pub struct ChunkType {
    data: [u8; 4],
}

impl View for ChunkType {
    type V = Seq<u8>;

    closed spec fn view(&self) -> Seq<u8> {
        self.data@
    }
}

impl ChunkType {
    /// What holds of every chunk type: its bytes are four letters.
    #[verifier::type_invariant]
    pub open spec fn wf(&self) -> bool {
        is_type_bytes(self@)
    }

    /// The type as text: one character for each byte.
    pub open spec fn text(&self) -> Seq<char> {
        ascii_text(self@)
    }

    /// The four bytes of the type, which are letters.
    pub fn bytes(&self) -> (res: [u8; 4])
        ensures
            res@ == self@,
            is_type_bytes(self@),
    {
        proof {
            use_type_invariant(self);
        }
        self.data
    }

    /// The chunk is necessary to display the image: the first letter is
    /// upper case.
    pub fn is_critical(&self) -> (res: bool)
        ensures
            res == (self@[0] & MASK == 0),
            res == is_upper(self@[0]),
    {
        proof {
            use_type_invariant(self);
            lemma_case_bit(self.data@[0]);
        }
        self.data[0] & MASK == 0
    }

    /// The chunk type is part of the public standard: the second letter is
    /// upper case.
    pub fn is_public(&self) -> (res: bool)
        ensures
            res == (self@[1] & MASK == 0),
            res == is_upper(self@[1]),
    {
        proof {
            use_type_invariant(self);
            lemma_case_bit(self.data@[1]);
        }
        self.data[1] & MASK == 0
    }

    /// The reserved bit is as the standard asks: the third letter is upper
    /// case.
    pub fn is_reserved_bit_valid(&self) -> (res: bool)
        ensures
            res == (self@[2] & MASK == 0),
            res == is_upper(self@[2]),
    {
        proof {
            use_type_invariant(self);
            lemma_case_bit(self.data@[2]);
        }
        self.data[2] & MASK == 0
    }

    /// An editor that does not know the chunk may copy it: the fourth letter
    /// is lower case.
    pub fn is_safe_to_copy(&self) -> (res: bool)
        ensures
            res == (self@[3] & MASK != 0),
            res == !is_upper(self@[3]),
    {
        proof {
            use_type_invariant(self);
            lemma_case_bit(self.data@[3]);
        }
        self.data[3] & MASK != 0
    }

    /// A type is valid when its reserved bit is; the other flags do not
    /// count.
    pub fn is_valid(&self) -> (res: bool)
        ensures
            res == (self@[2] & MASK == 0),
            res == is_upper(self@[2]),
    {
        self.is_reserved_bit_valid()
    }

    /// Whether `byte` is an ASCII letter. Digits are refused.
    pub fn is_alphanumerical(byte: u8) -> (res: bool)
        ensures
            res == is_letter(byte),
    {
        (byte >= 65 && byte <= 90) || (byte >= 97 && byte <= 122)
    }

    /// Reads a chunk type from text. It succeeds exactly where the text is
    /// four bytes long and each byte is an ASCII letter, which is to say on
    /// four ASCII letters; the type then holds one byte for each of them.
    pub fn from_str(input: &str) -> (res: Result<ChunkType, Error>)
        ensures
            res is Ok <==> is_type_bytes(input.spec_bytes()),
            res is Ok <==> is_type_text(input@),
            res is Ok ==> res->Ok_0@ == input.spec_bytes() && res->Ok_0.text() == input@,
            res is Err ==> res->Err_0 == Error::InvalidType,
    {
        proof {
            lemma_type_text_bytes(input@);
        }
        let bytes = input.as_bytes();
        if bytes.len() != 4 {
            return Err(Error::InvalidType);
        }
        let mut data: [u8; 4] = [0, 0, 0, 0];
        let mut i: usize = 0;
        while i < 4
            invariant
                i <= 4,
                bytes@.len() == 4,
                bytes@ == input.spec_bytes(),
                forall|j: int| 0 <= j < i ==> is_letter(#[trigger] bytes@[j]) && data@[j] == bytes@[j],
            decreases 4 - i,
        {
            if !ChunkType::is_alphanumerical(bytes[i]) {
                proof {
                    lemma_type_text_bytes(input@);
                    assert(!is_letter(bytes@[i as int]));
                }
                return Err(Error::InvalidType);
            }
            data[i] = bytes[i];
            i += 1;
        }
        assert(data@ =~= bytes@);
        Ok(ChunkType { data })
    }

    /// Whether the type, read as text, is exactly `text`.
    pub fn has_text(&self, text: &str) -> (res: bool)
        ensures
            res == (self.text() == text@),
    {
        let bytes = text.as_bytes();
        let res = bytes.len() == 4 && bytes[0] == self.data[0] && bytes[1] == self.data[1]
            && bytes[2] == self.data[2] && bytes[3] == self.data[3];
        proof {
            use_type_invariant(self);
            lemma_text_of_type(self.data@, text@);
            if res {
                assert(bytes@ =~= self.data@);
            }
        }
        res
    }

    /// The type as a string of its four letters.
    pub fn to_string(&self) -> (res: String)
        ensures
            res@ == self.text(),
    {
        proof {
            use_type_invariant(self);
            assert(is_ascii_bytes(self.data@)) by {
                assert forall|i: int| 0 <= i < self.data@.len() implies #[trigger] self.data@[i]
                    < 128 by {
                    assert(is_letter(self.data@[i]));
                }
            }
            lemma_ascii_is_utf8(self.data@);
        }
        lossy_text(self.data.as_slice())
    }
}

impl PartialEq for ChunkType {
    fn eq(&self, other: &ChunkType) -> (res: bool) {
        let res = self.data[0] == other.data[0] && self.data[1] == other.data[1] && self.data[2]
            == other.data[2] && self.data[3] == other.data[3];
        proof {
            if res {
                assert(self.data@ =~= other.data@);
            }
        }
        res
    }
}

impl PartialEqSpecImpl for ChunkType {
    open spec fn obeys_eq_spec() -> bool {
        true
    }

    open spec fn eq_spec(&self, other: &ChunkType) -> bool {
        self@ == other@
    }
}

impl TryFrom<[u8; 4]> for ChunkType {
    type Error = Error;

    /// Accepts four bytes exactly when each is an ASCII letter.
    fn try_from(bytes: [u8; 4]) -> (res: Result<Self, Error>)
        ensures
            res is Ok <==> is_type_bytes(bytes@),
            res is Ok ==> res->Ok_0@ == bytes@,
            res is Err ==> res->Err_0 == Error::InvalidType,
    {
        if ChunkType::is_alphanumerical(bytes[0]) && ChunkType::is_alphanumerical(bytes[1])
            && ChunkType::is_alphanumerical(bytes[2]) && ChunkType::is_alphanumerical(bytes[3]) {
            Ok(ChunkType { data: bytes })
        } else {
            Err(Error::InvalidType)
        }
    }
}

impl TryFromSpecImpl<[u8; 4]> for ChunkType {
    open spec fn obeys_try_from_spec() -> bool {
        true
    }

    closed spec fn try_from_spec(bytes: [u8; 4]) -> Result<Self, Error> {
        if is_type_bytes(bytes@) {
            Ok(ChunkType { data: bytes })
        } else {
            Err(Error::InvalidType)
        }
    }
}

impl std::str::FromStr for ChunkType {
    type Err = Error;

    /// Reads a chunk type from text, as the method of the same name does.
    fn from_str(input: &str) -> (res: Result<Self, Error>)
        ensures
            res is Ok <==> is_type_bytes(input.spec_bytes()),
            res is Ok <==> is_type_text(input@),
            res is Ok ==> res->Ok_0@ == input.spec_bytes() && res->Ok_0.text() == input@,
            res is Err ==> res->Err_0 == Error::InvalidType,
    {
        ChunkType::from_str(input)
    }
}

} // verus!
