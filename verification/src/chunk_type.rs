//! Four-byte chunk identifiers and their case-derived flags.

use crate::error::PngError;
use crate::text::{bytes_to_string, lemma_ascii_valid_utf8};
use vstd::prelude::*;
use vstd::slice::slice_index_get;
use vstd::string::StringSliceAdditionalSpecFns;
use vstd::utf8::{decode_utf8, encode_utf8_decode_utf8};

verus! {

/// An ASCII letter: `A`-`Z` or `a`-`z`.
pub open spec fn is_letter(b: u8) -> bool {
    (65 <= b && b <= 90) || (97 <= b && b <= 122)
}

/// Bit 5 of a byte: set on a lower-case letter, clear on an upper-case one.
pub open spec fn is_lowercase(b: u8) -> bool {
    b & 0x20 != 0
}

/// Every byte of the sequence is an ASCII letter.
pub open spec fn all_letters(b: Seq<u8>) -> bool {
    forall|i: int| 0 <= i < b.len() ==> is_letter(#[trigger] b[i])
}

/// What the binary decode path accepts: four letters whose third byte is
/// upper case (the reserved-bit rule). The text parse path does not demand
/// the reserved bit.
pub open spec fn decode_accepts(b: Seq<u8>) -> bool {
    b.len() == 4 && all_letters(b) && !is_lowercase(b[2])
}

/// The characters a byte sequence renders as.
pub open spec fn rendered(b: Seq<u8>) -> Seq<char> {
    decode_utf8(b)
}

/// True exactly when `b` is an ASCII letter.
pub fn is_letter_byte(b: u8) -> (r: bool)
    ensures
        r == is_letter(b),
{
    (65 <= b && b <= 90) || (97 <= b && b <= 122)
}

/// A four-byte chunk identifier. Every constructed value holds only ASCII
/// letters; the case of each byte carries one semantic flag.
#[derive(Debug, Clone, PartialEq, Eq)]
pub struct ChunkType {
    code: [u8; 4],
}

impl View for ChunkType {
    type V = Seq<u8>;

    closed spec fn view(&self) -> Seq<u8> {
        self.code@
    }
}

impl ChunkType {
    /// Both constructors establish this: four bytes, all ASCII letters.
    pub open spec fn wf(self) -> bool {
        self@.len() == 4 && all_letters(self@)
    }

    /// The four raw bytes of the code.
    pub fn bytes(&self) -> (r: [u8; 4])
        ensures
            r@ == self@,
    {
        self.code
    }

    /// Bit `n` of `input`, counted from the least significant end; false for
    /// positions outside the 32-bit word.
    pub fn get_bit_at(input: u32, n: u8) -> (r: bool)
        ensures
            r == (n < 32 && input & (1u32 << (n as u32)) != 0),
    {
        if n < 32 {
            input & (1u32 << (n as u32)) != 0
        } else {
            false
        }
    }

    /// Builds a code from four raw bytes, as the binary decoder does: every
    /// byte must be a letter and the reserved-bit rule must hold.
    pub fn decode(bytes: [u8; 4]) -> (r: Result<ChunkType, PngError>)
        ensures
            match r {
                Ok(t) => decode_accepts(bytes@) && t@ == bytes@ && t.wf(),
                Err(e) => !decode_accepts(bytes@) && e == PngError::MalformedTypeCode,
            },
    {
        let t = ChunkType { code: bytes };
        if t.is_valid() {
            Ok(t)
        } else {
            Err(PngError::MalformedTypeCode)
        }
    }

    /// Builds a code from text: the string must be exactly four bytes of
    /// ASCII letters. The reserved-bit rule is not checked here; validity
    /// stays a separate query.
    pub fn parse(s: &str) -> (r: Result<ChunkType, PngError>)
        ensures
            match r {
                Ok(t) => s.spec_bytes().len() == 4 && all_letters(s.spec_bytes()) && t@
                    == s.spec_bytes() && t.wf(),
                Err(e) => !(s.spec_bytes().len() == 4 && all_letters(s.spec_bytes())) && e
                    == PngError::MalformedTypeCode,
            },
    {
        let b = s.as_bytes();
        if b.len() != 4 {
            return Err(PngError::MalformedTypeCode);
        }
        let b0 = *slice_index_get(b, 0);
        let b1 = *slice_index_get(b, 1);
        let b2 = *slice_index_get(b, 2);
        let b3 = *slice_index_get(b, 3);
        if !(is_letter_byte(b0) && is_letter_byte(b1) && is_letter_byte(b2) && is_letter_byte(b3)) {
            proof {
                assert(!all_letters(s.spec_bytes())) by {
                    if all_letters(s.spec_bytes()) {
                        assert(is_letter(s.spec_bytes()[0]));
                        assert(is_letter(s.spec_bytes()[1]));
                        assert(is_letter(s.spec_bytes()[2]));
                        assert(is_letter(s.spec_bytes()[3]));
                    }
                }
            }
            return Err(PngError::MalformedTypeCode);
        }
        let t = ChunkType { code: [b0, b1, b2, b3] };
        proof {
            assert(t@ =~= s.spec_bytes());
            assert forall|i: int| 0 <= i < t@.len() implies is_letter(#[trigger] t@[i]) by {
                if i == 0 {
                } else if i == 1 {
                } else if i == 2 {
                } else {
                }
            }
        }
        Ok(t)
    }

    /// The code is structurally valid: all letters and the reserved bit
    /// (byte 2 upper case) holds.
    pub fn is_valid(&self) -> (r: bool)
        ensures
            r == decode_accepts(self@),
    {
        let letters = is_letter_byte(self.code[0]) && is_letter_byte(self.code[1])
            && is_letter_byte(self.code[2]) && is_letter_byte(self.code[3]);
        proof {
            if letters {
                assert forall|i: int| 0 <= i < self@.len() implies is_letter(
                    #[trigger] self@[i],
                ) by {
                    if i == 0 {
                    } else if i == 1 {
                    } else if i == 2 {
                    } else {
                    }
                }
            } else {
                assert(!all_letters(self@)) by {
                    if all_letters(self@) {
                        assert(is_letter(self@[0]));
                        assert(is_letter(self@[1]));
                        assert(is_letter(self@[2]));
                        assert(is_letter(self@[3]));
                    }
                }
            }
        }
        letters && self.is_reserved_bit_valid()
    }

    /// Byte 0 upper case: the chunk is critical; lower case: ancillary.
    pub fn is_critical(&self) -> (r: bool)
        ensures
            r == !is_lowercase(self@[0]),
    {
        self.code[0] & 0x20 == 0
    }

    /// Byte 1 upper case: the chunk is public; lower case: private.
    pub fn is_public(&self) -> (r: bool)
        ensures
            r == !is_lowercase(self@[1]),
    {
        self.code[1] & 0x20 == 0
    }

    /// Byte 2 upper case: the reserved bit holds; lower case violates it.
    pub fn is_reserved_bit_valid(&self) -> (r: bool)
        ensures
            r == !is_lowercase(self@[2]),
    {
        self.code[2] & 0x20 == 0
    }

    /// Byte 3 lower case: the chunk is safe to copy; upper case: unsafe.
    pub fn is_safe_to_copy(&self) -> (r: bool)
        ensures
            r == is_lowercase(self@[3]),
    {
        self.code[3] & 0x20 != 0
    }

    /// The four code bytes as the string they spell.
    pub fn render(&self) -> (r: String)
        requires
            self.wf(),
        ensures
            r@ == rendered(self@),
    {
        let mut v: Vec<u8> = Vec::new();
        v.push(self.code[0]);
        v.push(self.code[1]);
        v.push(self.code[2]);
        v.push(self.code[3]);
        proof {
            assert(v@ =~= self@);
            assert forall|i: int| 0 <= i < v@.len() implies #[trigger] v@[i] < 128 by {
                assert(is_letter(self@[i]));
            }
            lemma_ascii_valid_utf8(v@);
        }
        match bytes_to_string(v) {
            Ok(s) => s,
            Err(_) => {
                proof {
                    assert(false);
                }
                String::new()
            },
        }
    }
}

/// Parsing a four-letter string and rendering the resulting code gives that
/// same string back.
pub proof fn lemma_parse_render_round_trip(s: &str, t: ChunkType)
    requires
        s.spec_bytes().len() == 4,
        all_letters(s.spec_bytes()),
        t@ == s.spec_bytes(),
    ensures
        rendered(t@) == s@,
{
    encode_utf8_decode_utf8(s@);
}

/// A four-byte sequence holding any non-letter is accepted neither by the
/// binary decoder nor by the text parser.
pub proof fn lemma_non_letter_rejected(b: Seq<u8>, i: int)
    requires
        b.len() == 4,
        0 <= i < 4,
        !is_letter(b[i]),
    ensures
        !all_letters(b),
        !decode_accepts(b),
{
}

} // verus!
