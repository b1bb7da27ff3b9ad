//! Length-prefixed, checksummed binary records.

use crate::bytes::{be32, lemma_be32_u32_be, lemma_u32_be_be32, push_be32, read_be32, u32_be};
use crate::chunk_type::{all_letters, decode_accepts, ChunkType};
use crate::error::PngError;
use crate::chunk_type::is_letter;
use crate::text::{
    bytes_to_string, dec_bytes, lemma_ascii_valid_utf8, lemma_dec_bytes_ascii, push_dec_u32,
};
use vstd::prelude::*;
use vstd::slice::{slice_index_get, slice_subrange, slice_to_vec};
use vstd::string::StringSliceAdditionalSpecFns;
use vstd::utf8::{decode_utf8, encode_utf8_valid_utf8, valid_utf8, valid_utf8_concat};

verus! {

/// What the CRC-32 call of the `crc` crate returns on the given bytes, with
/// the ISO-HDLC parameters PNG uses (reflected polynomial 0xEDB88320,
/// initial value and final XOR all-ones). The value is a function of the
/// bytes alone.
pub uninterp spec fn crc32_of(b: Seq<u8>) -> u32;

/// Relies on `crc::Crc::<u32>::checksum` with the `CRC_32_ISO_HDLC`
/// algorithm: the checksum depends on the input bytes alone.
#[verifier::external_body]
fn crc32(b: &Vec<u8>) -> (r: u32)
    ensures
        r == crc32_of(b@),
{
    crc::Crc::<u32>::new(&crc::CRC_32_ISO_HDLC).checksum(b.as_slice())
}

/// The mathematical content of a record: its type code bytes and its payload.
#[verifier::ext_equal]
pub struct ChunkModel {
    pub code: Seq<u8>,
    pub payload: Seq<u8>,
}

impl ChunkModel {
    /// Every record this crate builds or accepts satisfies this: a four-byte
    /// all-letter code and a payload that fits the 32-bit length field.
    pub open spec fn wf(self) -> bool {
        self.code.len() == 4 && all_letters(self.code) && self.payload.len() <= u32::MAX
    }
}

/// The wire bytes of a record: big-endian payload length, the four type code
/// bytes, the payload, then the big-endian CRC-32 of code and payload.
pub open spec fn spec_chunk_bytes(m: ChunkModel) -> Seq<u8>
    recommends
        m.wf(),
{
    u32_be(m.payload.len() as u32) + m.code + m.payload + u32_be(crc32_of(m.code + m.payload))
}

/// What decoding a record buffer yields. The buffer must hold exactly the
/// twelve fixed bytes plus the declared payload length, the type code must
/// satisfy the binary decode rule, and the stored checksum must equal the
/// recomputed one; each failure names its error.
pub open spec fn spec_decode_chunk(b: Seq<u8>) -> Result<ChunkModel, PngError> {
    if b.len() < 12 {
        Err(PngError::Truncated)
    } else {
        let l = be32(b.subrange(0, 4)) as int;
        if b.len() != 12 + l {
            Err(PngError::Truncated)
        } else {
            let code = b.subrange(4, 8);
            let payload = b.subrange(8, 8 + l);
            let stored = be32(b.subrange(8 + l, 12 + l));
            if !decode_accepts(code) {
                Err(PngError::MalformedTypeCode)
            } else if stored != crc32_of(code + payload) {
                Err(PngError::ChecksumMismatch)
            } else {
                Ok(ChunkModel { code, payload })
            }
        }
    }
}

/// A record: an owned type code and an opaque payload. The checksum is never
/// stored; it is recomputed from the fields on demand, so it cannot go stale.
#[derive(Debug, Clone)]
pub struct Chunk {
    chunk_type: ChunkType,
    data: Vec<u8>,
}

impl View for Chunk {
    type V = ChunkModel;

    closed spec fn view(&self) -> ChunkModel {
        ChunkModel { code: self.chunk_type@, payload: self.data@ }
    }
}

impl Chunk {
    /// Both constructors establish this.
    pub open spec fn wf(self) -> bool {
        self@.wf()
    }

    /// Builds a record from a type code and a payload. The only failure is a
    /// payload too long for the 32-bit length field.
    pub fn new(chunk_type: ChunkType, data: Vec<u8>) -> (r: Result<Chunk, PngError>)
        requires
            chunk_type.wf(),
        ensures
            match r {
                Ok(c) => data@.len() <= u32::MAX && c@ == (ChunkModel {
                    code: chunk_type@,
                    payload: data@,
                }) && c.wf(),
                Err(e) => data@.len() > u32::MAX && e == PngError::PayloadTooLarge,
            },
    {
        if data.len() as u64 > u32::MAX as u64 {
            Err(PngError::PayloadTooLarge)
        } else {
            Ok(Chunk { chunk_type, data })
        }
    }

    /// The payload length in bytes.
    pub fn length(&self) -> (r: u32)
        requires
            self.wf(),
        ensures
            r == self@.payload.len(),
    {
        self.data.len() as u32
    }

    /// The record's type code.
    pub fn chunk_type(&self) -> (r: &ChunkType)
        ensures
            r@ == self@.code,
    {
        &self.chunk_type
    }

    /// The raw payload bytes.
    pub fn data(&self) -> (r: &[u8])
        ensures
            r@ == self@.payload,
    {
        self.data.as_slice()
    }

    /// The CRC-32 over the type code bytes followed by the payload bytes,
    /// recomputed on every call.
    pub fn crc(&self) -> (r: u32)
        ensures
            r == crc32_of(self@.code + self@.payload),
    {
        let mut buf: Vec<u8> = Vec::new();
        let tb = self.chunk_type.bytes();
        buf.push(tb[0]);
        buf.push(tb[1]);
        buf.push(tb[2]);
        buf.push(tb[3]);
        buf.extend_from_slice(self.data.as_slice());
        proof {
            assert(buf@ =~= self@.code + self@.payload);
        }
        crc32(&buf)
    }

    /// The payload as text; fails when it is not valid UTF-8.
    pub fn data_as_string(&self) -> (r: Result<String, PngError>)
        ensures
            match r {
                Ok(s) => valid_utf8(self@.payload) && s@ == decode_utf8(self@.payload),
                Err(e) => !valid_utf8(self@.payload) && e == PngError::InvalidEncoding,
            },
    {
        bytes_to_string(self.data.clone())
    }

    /// The record's exact wire bytes: length, type, payload, checksum.
    pub fn as_bytes(&self) -> (r: Vec<u8>)
        requires
            self.wf(),
        ensures
            r@ == spec_chunk_bytes(self@),
    {
        let mut out: Vec<u8> = Vec::new();
        push_be32(&mut out, self.data.len() as u32);
        let tb = self.chunk_type.bytes();
        out.push(tb[0]);
        out.push(tb[1]);
        out.push(tb[2]);
        out.push(tb[3]);
        out.extend_from_slice(self.data.as_slice());
        let c = self.crc();
        push_be32(&mut out, c);
        proof {
            assert(out@ =~= spec_chunk_bytes(self@));
        }
        out
    }

    /// Decodes a record from a buffer that must hold exactly one record.
    pub fn decode(bytes: &[u8]) -> (r: Result<Chunk, PngError>)
        ensures
            match r {
                Ok(c) => spec_decode_chunk(bytes@) == Ok::<ChunkModel, PngError>(c@) && c.wf(),
                Err(e) => spec_decode_chunk(bytes@) == Err::<ChunkModel, PngError>(e),
            },
    {
        let n = bytes.len();
        if n < 12 {
            return Err(PngError::Truncated);
        }
        let l = read_be32(bytes, 0);
        if n - 12 != l as usize {
            return Err(PngError::Truncated);
        }
        let t0 = *slice_index_get(bytes, 4);
        let t1 = *slice_index_get(bytes, 5);
        let t2 = *slice_index_get(bytes, 6);
        let t3 = *slice_index_get(bytes, 7);
        proof {
            assert(bytes@.subrange(4, 8) =~= seq![t0, t1, t2, t3]);
        }
        let chunk_type = match ChunkType::decode([t0, t1, t2, t3]) {
            Ok(t) => t,
            Err(e) => {
                return Err(e);
            },
        };
        let data = slice_to_vec(slice_subrange(bytes, 8, 8 + l as usize));
        let stored = read_be32(bytes, 8 + l as usize);
        let chunk = Chunk { chunk_type, data };
        let actual = chunk.crc();
        proof {
            assert(chunk@.code + chunk@.payload =~= bytes@.subrange(4, 8) + bytes@.subrange(
                8,
                8 + l as int,
            ));
        }
        if stored != actual {
            return Err(PngError::ChecksumMismatch);
        }
        proof {
            assert(spec_decode_chunk(bytes@) =~= Ok::<ChunkModel, PngError>(chunk@));
        }
        Ok(chunk)
    }
}

/// The human-readable block for one record: its type rendering, payload
/// length and checksum, as bytes.
pub open spec fn spec_chunk_text_bytes(m: ChunkModel) -> Seq<u8> {
    "Type: ".spec_bytes() + m.code + "\nLength: ".spec_bytes() + dec_bytes(m.payload.len() as nat)
        + "\nCrc: ".spec_bytes() + dec_bytes(crc32_of(m.code + m.payload) as nat)
        + "\n\n".spec_bytes()
}

/// A record's text block is valid UTF-8.
pub proof fn lemma_chunk_text_valid(m: ChunkModel)
    requires
        m.wf(),
    ensures
        valid_utf8(spec_chunk_text_bytes(m)),
{
    let a1 = "Type: ".spec_bytes();
    let a3 = "\nLength: ".spec_bytes();
    let a4 = dec_bytes(m.payload.len() as nat);
    let a5 = "\nCrc: ".spec_bytes();
    let a6 = dec_bytes(crc32_of(m.code + m.payload) as nat);
    let a7 = "\n\n".spec_bytes();
    encode_utf8_valid_utf8("Type: "@);
    encode_utf8_valid_utf8("\nLength: "@);
    encode_utf8_valid_utf8("\nCrc: "@);
    encode_utf8_valid_utf8("\n\n"@);
    assert forall|i: int| 0 <= i < m.code.len() implies #[trigger] m.code[i] < 128 by {
        assert(is_letter(m.code[i]));
    }
    lemma_ascii_valid_utf8(m.code);
    lemma_dec_bytes_ascii(m.payload.len() as nat);
    lemma_dec_bytes_ascii(crc32_of(m.code + m.payload) as nat);
    lemma_ascii_valid_utf8(a4);
    lemma_ascii_valid_utf8(a6);
    valid_utf8_concat(a1, m.code);
    valid_utf8_concat(a1 + m.code, a3);
    valid_utf8_concat(a1 + m.code + a3, a4);
    valid_utf8_concat(a1 + m.code + a3 + a4, a5);
    valid_utf8_concat(a1 + m.code + a3 + a4 + a5, a6);
    valid_utf8_concat(a1 + m.code + a3 + a4 + a5 + a6, a7);
}

/// Appends one record's text block to `out`.
pub(crate) fn push_chunk_text(out: &mut Vec<u8>, c: &Chunk)
    requires
        c.wf(),
    ensures
        final(out)@ == old(out)@ + spec_chunk_text_bytes(c@),
{
    out.extend_from_slice("Type: ".as_bytes());
    let tb = c.chunk_type().bytes();
    out.push(tb[0]);
    out.push(tb[1]);
    out.push(tb[2]);
    out.push(tb[3]);
    out.extend_from_slice("\nLength: ".as_bytes());
    push_dec_u32(out, c.length());
    out.extend_from_slice("\nCrc: ".as_bytes());
    push_dec_u32(out, c.crc());
    out.extend_from_slice("\n\n".as_bytes());
    proof {
        assert(out@ =~= old(out)@ + spec_chunk_text_bytes(c@));
    }
}

impl Chunk {
    /// The record's human-readable block: type rendering, payload length and
    /// checksum.
    pub fn render(&self) -> (r: String)
        requires
            self.wf(),
        ensures
            r@ == decode_utf8(spec_chunk_text_bytes(self@)),
    {
        let mut out: Vec<u8> = Vec::new();
        push_chunk_text(&mut out, self);
        proof {
            lemma_chunk_text_valid(self@);
            assert(out@ =~= spec_chunk_text_bytes(self@));
        }
        match bytes_to_string(out) {
            Ok(s) => s,
            Err(_) => {
                proof {
                    assert(false);
                }
                String::new()
            },
        }
    }
}

/// Decoding succeeds exactly on a record's own wire bytes: the model read
/// back is the model encoded.
pub proof fn lemma_decode_is_inverse_of_encode(b: Seq<u8>, m: ChunkModel)
    requires
        spec_decode_chunk(b) == Ok::<ChunkModel, PngError>(m),
    ensures
        m.wf(),
        decode_accepts(m.code),
        spec_chunk_bytes(m) == b,
{
    let l = be32(b.subrange(0, 4)) as int;
    lemma_be32_u32_be(b.subrange(0, 4));
    lemma_be32_u32_be(b.subrange(8 + l, 12 + l));
    assert(m.payload.len() == l);
    assert(u32_be(m.payload.len() as u32) =~= b.subrange(0, 4));
    assert(spec_chunk_bytes(m) =~= b);
}

/// Encoding a record and decoding the bytes gives the record back, for every
/// type code the binary decoder accepts and every payload that fits the
/// length field.
pub proof fn lemma_chunk_round_trip(m: ChunkModel)
    requires
        m.wf(),
        decode_accepts(m.code),
    ensures
        spec_decode_chunk(spec_chunk_bytes(m)) == Ok::<ChunkModel, PngError>(m),
{
    let e = spec_chunk_bytes(m);
    let l = m.payload.len() as int;
    lemma_u32_be_be32(m.payload.len() as u32);
    lemma_u32_be_be32(crc32_of(m.code + m.payload));
    assert(e.subrange(0, 4) =~= u32_be(m.payload.len() as u32));
    assert(e.len() == 12 + l);
    assert(e.subrange(4, 8) =~= m.code);
    assert(e.subrange(8, 8 + l) =~= m.payload);
    assert(e.subrange(8 + l, 12 + l) =~= u32_be(crc32_of(m.code + m.payload)));
    assert(spec_decode_chunk(e) =~= Ok::<ChunkModel, PngError>(m));
}

/// The byte with bit `k` (counted from the least significant end) inverted.
pub open spec fn flip_bit(b: u8, k: u8) -> u8
    recommends
        k < 8,
{
    b ^ (1u8 << k)
}

/// Flipping any single bit inside the four checksum bytes of a record's wire
/// bytes makes decoding fail with a checksum mismatch.
pub proof fn lemma_checksum_tamper(m: ChunkModel, i: int, k: u8)
    requires
        m.wf(),
        decode_accepts(m.code),
        spec_chunk_bytes(m).len() - 4 <= i < spec_chunk_bytes(m).len(),
        k < 8,
    ensures
        spec_decode_chunk(spec_chunk_bytes(m).update(i, flip_bit(spec_chunk_bytes(m)[i], k)))
            == Err::<ChunkModel, PngError>(PngError::ChecksumMismatch),
{
    let e = spec_chunk_bytes(m);
    let l = m.payload.len() as int;
    let x = e[i];
    let t = e.update(i, flip_bit(x, k));
    assert(flip_bit(x, k) != x) by {
        assert(x ^ (1u8 << k) != x) by (bit_vector)
            requires
                k < 8,
        ;
    }
    lemma_u32_be_be32(m.payload.len() as u32);
    lemma_u32_be_be32(crc32_of(m.code + m.payload));
    assert(e.subrange(0, 4) =~= u32_be(m.payload.len() as u32));
    assert(e.len() == 12 + l);
    assert(t.len() == 12 + l);
    assert(t.subrange(0, 4) =~= e.subrange(0, 4));
    assert(t.subrange(4, 8) =~= m.code);
    assert(t.subrange(8, 8 + l) =~= m.payload);
    let s0 = e.subrange(8 + l, 12 + l);
    let s1 = t.subrange(8 + l, 12 + l);
    assert(s0 =~= u32_be(crc32_of(m.code + m.payload)));
    assert(s1[i - (8 + l)] == flip_bit(x, k));
    assert(s0[i - (8 + l)] == x);
    assert(be32(s1) != be32(s0)) by {
        if be32(s1) == be32(s0) {
            lemma_be32_u32_be(s0);
            lemma_be32_u32_be(s1);
            assert(s0 == s1);
            assert(s0[i - (8 + l)] == s1[i - (8 + l)]);
        }
    }
    assert(be32(s0) == crc32_of(m.code + m.payload));
}

/// A record's wire bytes with the last byte dropped no longer decode: the
/// decoder reports truncation.
pub proof fn lemma_truncation_detected(m: ChunkModel)
    requires
        m.wf(),
    ensures
        spec_decode_chunk(spec_chunk_bytes(m).drop_last()) == Err::<ChunkModel, PngError>(
            PngError::Truncated,
        ),
{
    let e = spec_chunk_bytes(m);
    let l = m.payload.len() as int;
    let t = e.drop_last();
    lemma_u32_be_be32(m.payload.len() as u32);
    assert(e.len() == 12 + l);
    if t.len() >= 12 {
        assert(t.subrange(0, 4) =~= u32_be(m.payload.len() as u32));
        assert(t.len() != 12 + l);
    }
}

} // verus!
