//! An ordered sequence of records behind a fixed magic signature.

use crate::bytes::be32;
use crate::chunk::{
    lemma_chunk_text_valid, lemma_decode_is_inverse_of_encode, push_chunk_text, spec_chunk_bytes,
    spec_chunk_text_bytes, spec_decode_chunk, Chunk, ChunkModel,
};
use crate::error::PngError;
use crate::text::bytes_to_string;
use vstd::prelude::*;
use vstd::slice::{slice_index_get, slice_subrange};
use vstd::string::StringSliceAdditionalSpecFns;
use vstd::utf8::{decode_utf8, valid_utf8, valid_utf8_concat};

verus! {

/// The fixed eight-byte signature that precedes every chunk stream.
pub open spec fn spec_magic() -> Seq<u8> {
    seq![0x89u8, 0x50u8, 0x4eu8, 0x47u8, 0x0du8, 0x0au8, 0x1au8, 0x0au8]
}

/// The signature bytes as a buffer.
pub fn magic() -> (r: Vec<u8>)
    ensures
        r@ == spec_magic(),
{
    let mut v: Vec<u8> = Vec::new();
    v.push(0x89);
    v.push(0x50);
    v.push(0x4e);
    v.push(0x47);
    v.push(0x0d);
    v.push(0x0a);
    v.push(0x1a);
    v.push(0x0a);
    proof {
        assert(v@ =~= spec_magic());
    }
    v
}

/// What parsing a chunk stream (the bytes after the signature) yields:
/// records are read one after the other, each from exactly its own slice,
/// until the buffer is exhausted; the first failing record aborts the parse
/// with its error, and a trailing fragment too short for its declared length
/// is truncation.
pub open spec fn spec_parse_chunks(b: Seq<u8>) -> Result<Seq<ChunkModel>, PngError>
    decreases b.len(),
{
    if b.len() == 0 {
        Ok(Seq::empty())
    } else if b.len() < 12 {
        Err(PngError::Truncated)
    } else {
        let l = be32(b.subrange(0, 4)) as int;
        if b.len() < 12 + l {
            Err(PngError::Truncated)
        } else {
            match spec_decode_chunk(b.subrange(0, 12 + l)) {
                Ok(m) => match spec_parse_chunks(b.skip(12 + l)) {
                    Ok(rest) => Ok(seq![m] + rest),
                    Err(e) => Err(e),
                },
                Err(e) => Err(e),
            }
        }
    }
}

/// What decoding a whole container buffer yields: the signature must match,
/// then the rest parses as a chunk stream.
pub open spec fn spec_parse_container(b: Seq<u8>) -> Result<Seq<ChunkModel>, PngError> {
    if b.len() < 8 || b.subrange(0, 8) != spec_magic() {
        Err(PngError::BadSignature)
    } else {
        spec_parse_chunks(b.skip(8))
    }
}

/// The wire bytes of a record sequence: each record's encoding, in order.
pub open spec fn spec_chunks_bytes(ms: Seq<ChunkModel>) -> Seq<u8>
    decreases ms.len(),
{
    if ms.len() == 0 {
        Seq::empty()
    } else {
        spec_chunk_bytes(ms[0]) + spec_chunks_bytes(ms.drop_first())
    }
}

/// The wire bytes of a whole container: the signature, then every record.
pub open spec fn spec_container_bytes(ms: Seq<ChunkModel>) -> Seq<u8> {
    spec_magic() + spec_chunks_bytes(ms)
}

/// The position of the first record whose code equals `code`, if any.
pub open spec fn spec_find_first(ms: Seq<ChunkModel>, code: Seq<u8>) -> Option<int>
    decreases ms.len(),
{
    if ms.len() == 0 {
        None
    } else if ms[0].code == code {
        Some(0int)
    } else {
        match spec_find_first(ms.drop_first(), code) {
            Some(i) => Some(i + 1),
            None => None,
        }
    }
}

/// A match at `i` with no match before it is the first match.
pub proof fn lemma_find_first_at(ms: Seq<ChunkModel>, code: Seq<u8>, i: int)
    requires
        0 <= i < ms.len(),
        ms[i].code == code,
        forall|j: int| 0 <= j < i ==> (#[trigger] ms[j]).code != code,
    ensures
        spec_find_first(ms, code) == Some(i),
    decreases i,
{
    if i > 0 {
        assert(ms[0].code != code);
        let rest = ms.drop_first();
        assert(rest[i - 1].code == code);
        assert(forall|j: int| 0 <= j < i - 1 ==> (#[trigger] rest[j]).code == ms[j + 1].code);
        lemma_find_first_at(rest, code, i - 1);
    }
}

/// With no match anywhere there is no first match.
pub proof fn lemma_find_first_none(ms: Seq<ChunkModel>, code: Seq<u8>)
    requires
        forall|j: int| 0 <= j < ms.len() ==> (#[trigger] ms[j]).code != code,
    ensures
        spec_find_first(ms, code) == None::<int>,
    decreases ms.len(),
{
    if ms.len() > 0 {
        let rest = ms.drop_first();
        assert(forall|j: int| 0 <= j < rest.len() ==> (#[trigger] rest[j]).code == ms[j + 1].code);
        lemma_find_first_none(rest, code);
    }
}

/// An ordered sequence of records, decoded from and serialized to a byte
/// buffer that starts with the magic signature. Edits touch membership in
/// the sequence only; no record is ever altered in place.
#[derive(Debug)]
pub struct Container {
    chunks: Vec<Chunk>,
}

impl View for Container {
    type V = Seq<ChunkModel>;

    closed spec fn view(&self) -> Seq<ChunkModel> {
        self.chunks@.map_values(|c: Chunk| c@)
    }
}

impl Container {
    /// Every record held satisfies the record invariant.
    pub open spec fn wf(self) -> bool {
        forall|i: int| 0 <= i < self@.len() ==> (#[trigger] self@[i]).wf()
    }

    /// Decodes a container: the signature, then records until the buffer is
    /// exhausted. Failures are exactly those of `spec_parse_container`.
    pub fn decode(buf: &[u8]) -> (r: Result<Container, PngError>)
        ensures
            match r {
                Ok(c) => spec_parse_container(buf@) == Ok::<Seq<ChunkModel>, PngError>(c@)
                    && c.wf(),
                Err(e) => spec_parse_container(buf@) == Err::<Seq<ChunkModel>, PngError>(e),
            },
    {
        let n = buf.len();
        if n < 8 {
            return Err(PngError::BadSignature);
        }
        let m = magic();
        let mut j: usize = 0;
        while j < 8
            invariant
                0 <= j <= 8,
                n == buf@.len(),
                n >= 8,
                m@ == spec_magic(),
                forall|k: int| 0 <= k < j ==> buf@[k] == spec_magic()[k],
            decreases 8 - j,
        {
            if *slice_index_get(buf, j) != m[j] {
                proof {
                    assert(buf@.subrange(0, 8)[j as int] != spec_magic()[j as int]);
                }
                return Err(PngError::BadSignature);
            }
            j += 1;
        }
        proof {
            assert(buf@.subrange(0, 8) =~= spec_magic());
        }
        let mut chunks: Vec<Chunk> = Vec::new();
        let mut pos: usize = 8;
        while pos < n
            invariant
                8 <= pos <= n,
                n == buf@.len(),
                buf@.subrange(0, 8) == spec_magic(),
                forall|i: int| 0 <= i < chunks@.len() ==> (#[trigger] chunks@[i]).wf(),
                spec_parse_chunks(buf@.skip(8)) == (match spec_parse_chunks(
                    buf@.skip(pos as int),
                ) {
                    Ok(t) => Ok::<Seq<ChunkModel>, PngError>(
                        chunks@.map_values(|c: Chunk| c@) + t,
                    ),
                    Err(e) => Err::<Seq<ChunkModel>, PngError>(e),
                }),
            decreases n - pos,
        {
            let ghost rest = buf@.skip(pos as int);
            let ghost done = chunks@.map_values(|c: Chunk| c@);
            let rem = n - pos;
            if rem < 12 {
                return Err(PngError::Truncated);
            }
            let l = read_len(buf, pos);
            proof {
                assert(rest.subrange(0, 4) =~= buf@.subrange(pos as int, pos as int + 4));
            }
            if rem - 12 < l as usize {
                return Err(PngError::Truncated);
            }
            let end = pos + 12 + l as usize;
            let rec = slice_subrange(buf, pos, end);
            proof {
                assert(rec@ =~= rest.subrange(0, 12 + l as int));
            }
            match Chunk::decode(rec) {
                Ok(c) => {
                    proof {
                        assert(rest.skip(12 + l as int) =~= buf@.skip(end as int));
                        let pr = spec_parse_chunks(buf@.skip(end as int));
                        if pr is Ok {
                            let t = match pr {
                                Ok(t) => t,
                                Err(_) => Seq::empty(),
                            };
                            assert(done + (seq![c@] + t) =~= done.push(c@) + t);
                        }
                        assert(chunks@.push(c).map_values(|cc: Chunk| cc@) =~= done.push(c@));
                    }
                    chunks.push(c);
                    pos = end;
                },
                Err(e) => {
                    return Err(e);
                },
            }
        }
        proof {
            assert(buf@.skip(pos as int) =~= Seq::<u8>::empty());
            assert(chunks@.map_values(|c: Chunk| c@) + Seq::<ChunkModel>::empty() =~= chunks@
                .map_values(|c: Chunk| c@));
        }
        let c = Container { chunks };
        proof {
            assert(spec_parse_container(buf@) == Ok::<Seq<ChunkModel>, PngError>(c@));
        }
        Ok(c)
    }

    /// Serializes the container: the signature, then every record's wire
    /// bytes in sequence order.
    pub fn encode(&self) -> (r: Vec<u8>)
        requires
            self.wf(),
        ensures
            r@ == spec_container_bytes(self@),
    {
        let mut out: Vec<u8> = Vec::new();
        let m = magic();
        out.extend_from_slice(m.as_slice());
        let mut i: usize = 0;
        proof {
            assert(self@.take(0) =~= Seq::<ChunkModel>::empty());
            assert(out@ =~= spec_magic() + spec_chunks_bytes(self@.take(0)));
        }
        while i < self.chunks.len()
            invariant
                0 <= i <= self.chunks@.len(),
                self.chunks@.len() == self@.len(),
                self.wf(),
                forall|k: int| 0 <= k < self@.len() ==> (#[trigger] self.chunks@[k])@ == self@[k],
                out@ == spec_magic() + spec_chunks_bytes(self@.take(i as int)),
            decreases self.chunks@.len() - i,
        {
            let cb = self.chunks[i].as_bytes();
            out.extend_from_slice(cb.as_slice());
            proof {
                lemma_chunks_bytes_take(self@, i as int);
            }
            i += 1;
        }
        proof {
            assert(self@.take(self@.len() as int) =~= self@);
        }
        out
    }

    /// Appends a record at the end of the sequence; existing records keep
    /// their order and are never altered.
    pub fn append(&mut self, record: Chunk)
        requires
            old(self).wf(),
            record.wf(),
        ensures
            final(self)@ == old(self)@.push(record@),
            final(self).wf(),
    {
        self.chunks.push(record);
        proof {
            assert(self@ =~= old(self)@.push(record@));
        }
    }

    /// The records, in order, as a read-only view.
    pub fn records(&self) -> (r: &Vec<Chunk>)
        ensures
            r@.map_values(|c: Chunk| c@) == self@,
    {
        &self.chunks
    }

    /// The first record whose type code spells `code`, if any. Absence is a
    /// normal outcome, not an error.
    pub fn find_by_type(&self, code: &str) -> (r: Option<&Chunk>)
        requires
            self.wf(),
        ensures
            match (r, spec_find_first(self@, code.spec_bytes())) {
                (Some(c), Some(i)) => c@ == self@[i] && c.wf(),
                (None, None) => true,
                _ => false,
            },
    {
        match self.find_index(code) {
            Some(i) => {
                proof {
                    assert(self.chunks@[i as int]@ == self@[i as int]);
                    assert(self@[i as int].wf());
                }
                Some(&self.chunks[i])
            },
            None => None,
        }
    }

    /// Removes the first record whose type code spells `code`; the remaining
    /// records keep their relative order. Fails when no record matches.
    pub fn remove_by_type(&mut self, code: &str) -> (r: Result<(), PngError>)
        requires
            old(self).wf(),
        ensures
            final(self).wf(),
            match spec_find_first(old(self)@, code.spec_bytes()) {
                Some(i) => r == Ok::<(), PngError>(()) && final(self)@ == old(self)@.remove(i),
                None => r == Err::<(), PngError>(PngError::NotFound) && final(self)@ == old(
                    self,
                )@,
            },
    {
        match self.find_index(code) {
            Some(i) => {
                self.chunks.remove(i);
                proof {
                    assert(self@ =~= old(self)@.remove(i as int));
                    assert forall|k: int| 0 <= k < self@.len() implies (#[trigger] self@[k]).wf()
                    by {
                        if k < i {
                            assert(self@[k] == old(self)@[k]);
                        } else {
                            assert(self@[k] == old(self)@[k + 1]);
                        }
                    }
                }
                Ok(())
            },
            None => Err(PngError::NotFound),
        }
    }

    /// One human-readable block per record, in order: each shows its type
    /// rendering, payload length and checksum. The signature is not shown.
    pub fn render(&self) -> (r: String)
        requires
            self.wf(),
        ensures
            r@ == decode_utf8(spec_container_text_bytes(self@)),
    {
        let mut out: Vec<u8> = Vec::new();
        let mut i: usize = 0;
        proof {
            assert(self@.take(0) =~= Seq::<ChunkModel>::empty());
            assert(out@ =~= spec_container_text_bytes(self@.take(0)));
        }
        while i < self.chunks.len()
            invariant
                0 <= i <= self.chunks@.len(),
                self.chunks@.len() == self@.len(),
                self.wf(),
                forall|k: int| 0 <= k < self@.len() ==> (#[trigger] self.chunks@[k])@ == self@[k],
                out@ == spec_container_text_bytes(self@.take(i as int)),
            decreases self.chunks@.len() - i,
        {
            push_chunk_text(&mut out, &self.chunks[i]);
            proof {
                lemma_container_text_take(self@, i as int);
            }
            i += 1;
        }
        proof {
            assert(self@.take(self@.len() as int) =~= self@);
            lemma_container_text_valid(self@);
        }
        match bytes_to_string(out) {
            Ok(s) => s,
            Err(_) => {
                proof {
                    assert(false);
                }
                String::new()
            },
        }
    }

    /// The position of the first record whose code spells `code`.
    fn find_index(&self, code: &str) -> (r: Option<usize>)
        requires
            self.wf(),
        ensures
            match (r, spec_find_first(self@, code.spec_bytes())) {
                (Some(i), Some(j)) => i as int == j && 0 <= j < self@.len(),
                (None, None) => true,
                _ => false,
            },
    {
        let cb = code.as_bytes();
        if cb.len() != 4 {
            proof {
                lemma_find_first_none(self@, code.spec_bytes());
            }
            return None;
        }
        let c0 = *slice_index_get(cb, 0);
        let c1 = *slice_index_get(cb, 1);
        let c2 = *slice_index_get(cb, 2);
        let c3 = *slice_index_get(cb, 3);
        let mut i: usize = 0;
        while i < self.chunks.len()
            invariant
                0 <= i <= self.chunks@.len(),
                self.chunks@.len() == self@.len(),
                self.wf(),
                cb@ == code.spec_bytes(),
                cb@ =~= seq![c0, c1, c2, c3],
                forall|k: int| 0 <= k < self@.len() ==> (#[trigger] self.chunks@[k])@ == self@[k],
                forall|j: int| 0 <= j < i ==> (#[trigger] self@[j]).code != code.spec_bytes(),
            decreases self.chunks@.len() - i,
        {
            let tb = self.chunks[i].chunk_type().bytes();
            if tb[0] == c0 && tb[1] == c1 && tb[2] == c2 && tb[3] == c3 {
                proof {
                    assert(self@[i as int].code =~= cb@);
                    lemma_find_first_at(self@, code.spec_bytes(), i as int);
                }
                return Some(i);
            }
            proof {
                assert(self@[i as int].code.len() == 4);
                assert(self@[i as int].code != cb@) by {
                    if self@[i as int].code == cb@ {
                        assert(self@[i as int].code[0] == c0 && self@[i as int].code[1] == c1
                            && self@[i as int].code[2] == c2 && self@[i as int].code[3] == c3);
                    }
                }
            }
            i += 1;
        }
        proof {
            lemma_find_first_none(self@, code.spec_bytes());
        }
        None
    }
}

/// Reads the big-endian length field of the record that starts at `at`.
fn read_len(buf: &[u8], at: usize) -> (r: u32)
    requires
        at + 4 <= buf@.len(),
    ensures
        r == be32(buf@.subrange(at as int, at as int + 4)),
{
    crate::bytes::read_be32(buf, at)
}

/// The text blocks of a record sequence, in order, as bytes.
pub open spec fn spec_container_text_bytes(ms: Seq<ChunkModel>) -> Seq<u8>
    decreases ms.len(),
{
    if ms.len() == 0 {
        Seq::empty()
    } else {
        spec_chunk_text_bytes(ms[0]) + spec_container_text_bytes(ms.drop_first())
    }
}

/// One rendering step: one more record appends its text block.
pub proof fn lemma_container_text_take(ms: Seq<ChunkModel>, i: int)
    requires
        0 <= i < ms.len(),
    ensures
        spec_container_text_bytes(ms.take(i + 1)) == spec_container_text_bytes(ms.take(i))
            + spec_chunk_text_bytes(ms[i]),
    decreases i,
{
    if i == 0 {
        assert(ms.take(0) =~= Seq::<ChunkModel>::empty());
        assert(ms.take(1) =~= seq![ms[0]]);
        assert(ms.take(1).drop_first() =~= Seq::<ChunkModel>::empty());
        assert(spec_container_text_bytes(ms.take(0)) + spec_chunk_text_bytes(ms[0])
            =~= spec_chunk_text_bytes(ms[0]) + spec_container_text_bytes(ms.take(1).drop_first()));
    } else {
        lemma_container_text_take(ms.drop_first(), i - 1);
        assert(ms.take(i + 1).drop_first() =~= ms.drop_first().take(i));
        assert(ms.take(i).drop_first() =~= ms.drop_first().take(i - 1));
        assert(ms.take(i + 1)[0] == ms[0]);
        assert(ms.take(i)[0] == ms[0]);
        assert(ms.drop_first()[i - 1] == ms[i]);
        assert(spec_chunk_text_bytes(ms[0]) + (spec_container_text_bytes(ms.drop_first().take(
            i - 1,
        )) + spec_chunk_text_bytes(ms[i])) =~= (spec_chunk_text_bytes(ms[0])
            + spec_container_text_bytes(ms.drop_first().take(i - 1))) + spec_chunk_text_bytes(
            ms[i],
        ));
    }
}

/// The rendering of a sequence of well-formed records is valid UTF-8.
pub proof fn lemma_container_text_valid(ms: Seq<ChunkModel>)
    requires
        forall|i: int| 0 <= i < ms.len() ==> (#[trigger] ms[i]).wf(),
    ensures
        valid_utf8(spec_container_text_bytes(ms)),
    decreases ms.len(),
{
    if ms.len() > 0 {
        lemma_chunk_text_valid(ms[0]);
        let rest = ms.drop_first();
        assert(forall|i: int| 0 <= i < rest.len() ==> (#[trigger] rest[i]) == ms[i + 1]);
        lemma_container_text_valid(rest);
        valid_utf8_concat(spec_chunk_text_bytes(ms[0]), spec_container_text_bytes(rest));
    }
}

/// One encoding step: serializing one more record appends its wire bytes.
pub proof fn lemma_chunks_bytes_take(ms: Seq<ChunkModel>, i: int)
    requires
        0 <= i < ms.len(),
    ensures
        spec_chunks_bytes(ms.take(i + 1)) == spec_chunks_bytes(ms.take(i)) + spec_chunk_bytes(
            ms[i],
        ),
    decreases i,
{
    if i == 0 {
        assert(ms.take(0) =~= Seq::<ChunkModel>::empty());
        assert(ms.take(1) =~= seq![ms[0]]);
        assert(ms.take(1).drop_first() =~= Seq::<ChunkModel>::empty());
        assert(spec_chunks_bytes(ms.take(0)) + spec_chunk_bytes(ms[0]) =~= spec_chunk_bytes(
            ms[0],
        ) + spec_chunks_bytes(ms.take(1).drop_first()));
    } else {
        lemma_chunks_bytes_take(ms.drop_first(), i - 1);
        assert(ms.take(i + 1).drop_first() =~= ms.drop_first().take(i));
        assert(ms.take(i).drop_first() =~= ms.drop_first().take(i - 1));
        assert(ms.take(i + 1)[0] == ms[0]);
        assert(ms.take(i)[0] == ms[0]);
        assert(ms.drop_first()[i - 1] == ms[i]);
        assert(spec_chunk_bytes(ms[0]) + (spec_chunks_bytes(ms.drop_first().take(i - 1))
            + spec_chunk_bytes(ms[i])) =~= (spec_chunk_bytes(ms[0]) + spec_chunks_bytes(
            ms.drop_first().take(i - 1),
        )) + spec_chunk_bytes(ms[i]));
    }
}

/// A byte stream that parses as a record sequence is exactly that sequence's
/// encoding.
/// Splitting a sequence at any point and gluing the halves is the identity.
proof fn lemma_split_concat(b: Seq<u8>, k: int)
    requires
        0 <= k <= b.len(),
    ensures
        b.subrange(0, k) + b.skip(k) == b,
{
    assert(b.subrange(0, k) + b.skip(k) =~= b);
}

#[verifier::rlimit(100)]
#[verifier::spinoff_prover]
pub proof fn lemma_parse_then_encode(b: Seq<u8>, ms: Seq<ChunkModel>)
    requires
        spec_parse_chunks(b) == Ok::<Seq<ChunkModel>, PngError>(ms),
    ensures
        spec_chunks_bytes(ms) == b,
    decreases b.len(),
{
    if b.len() == 0 {
        assert(ms =~= Seq::<ChunkModel>::empty());
        assert(spec_chunks_bytes(ms) =~= b);
    } else {
        let l = be32(b.subrange(0, 4)) as int;
        let first = b.subrange(0, 12 + l);
        let tail = b.skip(12 + l);
        assert(b.len() >= 12 + l && spec_decode_chunk(first) == Ok::<ChunkModel, PngError>(ms[0])
            && spec_parse_chunks(tail) == Ok::<Seq<ChunkModel>, PngError>(ms.drop_first())) by {
            let m0 = match spec_decode_chunk(first) {
                Ok(m) => m,
                Err(_) => arbitrary(),
            };
            let r0 = match spec_parse_chunks(tail) {
                Ok(t) => t,
                Err(_) => arbitrary(),
            };
            assert(ms == seq![m0] + r0);
            assert(ms[0] == m0);
            assert(ms.drop_first() =~= r0);
        }
        lemma_decode_is_inverse_of_encode(first, ms[0]);
        lemma_parse_then_encode(tail, ms.drop_first());
        assert(spec_chunks_bytes(ms) == spec_chunk_bytes(ms[0]) + spec_chunks_bytes(
            ms.drop_first(),
        ));
        lemma_split_concat(b, 12 + l);
    }
}

/// A container built by `decode` from a buffer re-serializes to that very
/// buffer: decoding and then encoding is the identity on valid buffers.
pub proof fn lemma_container_round_trip(b: Seq<u8>, ms: Seq<ChunkModel>)
    requires
        spec_parse_container(b) == Ok::<Seq<ChunkModel>, PngError>(ms),
    ensures
        spec_container_bytes(ms) == b,
{
    lemma_parse_then_encode(b.skip(8), ms);
    assert(spec_magic() + b.skip(8) =~= b);
}

/// Altering any one byte of the signature of a container buffer makes
/// decoding fail with a signature error.
pub proof fn lemma_signature_tamper(b: Seq<u8>, i: int, x: u8)
    requires
        b.len() >= 8,
        b.subrange(0, 8) == spec_magic(),
        0 <= i < 8,
        x != b[i],
    ensures
        spec_parse_container(b.update(i, x)) == Err::<Seq<ChunkModel>, PngError>(
            PngError::BadSignature,
        ),
{
    let t = b.update(i, x);
    assert(t.subrange(0, 8)[i] == x);
    assert(b.subrange(0, 8)[i] == b[i]);
    assert(t.subrange(0, 8) != spec_magic());
}

/// After appending a record whose code no present record carries, a lookup
/// for that code finds exactly the appended record, in the last position,
/// and the records before it keep their order.
pub proof fn lemma_append_then_find(ms: Seq<ChunkModel>, m: ChunkModel)
    requires
        forall|j: int| 0 <= j < ms.len() ==> (#[trigger] ms[j]).code != m.code,
    ensures
        spec_find_first(ms.push(m), m.code) == Some(ms.len() as int),
        ms.push(m).subrange(0, ms.len() as int) == ms,
{
    assert(forall|j: int| 0 <= j < ms.len() ==> (#[trigger] ms.push(m)[j]).code == ms[j].code);
    assert(ms.push(m)[ms.len() as int] == m);
    lemma_find_first_at(ms.push(m), m.code, ms.len() as int);
    assert(ms.push(m).subrange(0, ms.len() as int) =~= ms);
}

} // verus!
