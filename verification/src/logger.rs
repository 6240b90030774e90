use vstd::prelude::*;
use vstd::bytes::{
    lemma_auto_spec_u16_to_from_le_bytes, lemma_auto_spec_u32_to_from_le_bytes,
    lemma_auto_spec_u64_to_from_le_bytes, spec_u16_from_le_bytes, spec_u16_to_le_bytes,
    spec_u32_from_le_bytes, spec_u32_to_le_bytes, spec_u64_from_le_bytes, spec_u64_to_le_bytes,
    u16_from_le_bytes, u16_to_le_bytes, u32_from_le_bytes, u32_to_le_bytes, u64_from_le_bytes,
    u64_to_le_bytes,
};
use vstd::slice::{slice_subrange, slice_to_vec};
use vstd::utf8::{decode_utf8, encode_utf8, valid_utf8};

verus! {

broadcast use vstd::utf8::encode_utf8_valid_utf8, vstd::utf8::encode_utf8_decode_utf8;

/// Length-prefixed UTF-8: `[len: u32][bytes]`.
pub open spec fn str_record(s: Seq<char>) -> Seq<u8> {
    spec_u32_to_le_bytes(encode_utf8(s).len() as u32) + encode_utf8(s)
}

/// A growable little-endian byte buffer.
pub struct ByteWriter(pub Vec<u8>);

impl ByteWriter {
    /// An empty buffer.
    pub fn new() -> (r: Self)
        ensures
            r.0@ == Seq::<u8>::empty(),
    {
        ByteWriter(Vec::new())
    }

    /// An empty buffer with room for `n` bytes.
    pub fn with_capacity(n: usize) -> (r: Self)
        ensures
            r.0@ == Seq::<u8>::empty(),
    {
        ByteWriter(Vec::with_capacity(n))
    }

    /// Append one byte.
    pub fn u8(&mut self, v: u8)
        ensures
            final(self).0@ == old(self).0@.push(v),
    {
        self.0.push(v);
    }

    /// Append a u16, little-endian.
    pub fn u16(&mut self, v: u16)
        ensures
            final(self).0@ == old(self).0@ + spec_u16_to_le_bytes(v),
    {
        let mut b = u16_to_le_bytes(v);
        self.0.append(&mut b);
    }

    /// Append a u32, little-endian.
    pub fn u32(&mut self, v: u32)
        ensures
            final(self).0@ == old(self).0@ + spec_u32_to_le_bytes(v),
    {
        let mut b = u32_to_le_bytes(v);
        self.0.append(&mut b);
    }

    /// Append a u64, little-endian.
    pub fn u64(&mut self, v: u64)
        ensures
            final(self).0@ == old(self).0@ + spec_u64_to_le_bytes(v),
    {
        let mut b = u64_to_le_bytes(v);
        self.0.append(&mut b);
    }

    /// Append a double given by its IEEE-754 bit pattern, little-endian (the same bytes
    /// as the double's own little-endian encoding).
    pub fn f64_bits(&mut self, bits: u64)
        ensures
            final(self).0@ == old(self).0@ + spec_u64_to_le_bytes(bits),
    {
        self.u64(bits);
    }

    /// Append a string: its UTF-8 length as a u32, then its UTF-8 bytes.
    pub fn string(&mut self, s: &str)
        ensures
            final(self).0@ == old(self).0@ + str_record(s@),
    {
        let bytes = s.as_bytes();
        self.u32(bytes.len() as u32);
        let mut b = slice_to_vec(bytes);
        self.0.append(&mut b);
    }
}

/// `String::from_utf8`: succeeds exactly on valid UTF-8, and then holds the decoded chars.
#[verifier::external_body]
fn string_from_utf8(bytes: Vec<u8>) -> (r: Option<String>)
    ensures
        r is Some <==> valid_utf8(bytes@),
        r matches Some(s) ==> s@ == decode_utf8(bytes@),
{
    String::from_utf8(bytes).ok()
}

/// A cursor over a byte buffer.
pub struct ByteReader {
    pub buf: Vec<u8>,
    pub pos: usize,
}

impl ByteReader {
    /// A cursor at the start of `buf`.
    pub fn new(buf: Vec<u8>) -> (r: Self)
        ensures
            r.buf@ == buf@,
            r.pos == 0,
    {
        ByteReader { buf, pos: 0 }
    }

    /// The next `n` bytes; the cursor moves past them.
    pub fn take(&mut self, n: usize) -> (r: Vec<u8>)
        requires
            old(self).pos + n <= old(self).buf.len(),
        ensures
            r@ == old(self).buf@.subrange(old(self).pos as int, old(self).pos + n),
            final(self).buf@ == old(self).buf@,
            final(self).pos == old(self).pos + n,
    {
        let start = self.pos;
        self.pos = self.pos + n;
        slice_to_vec(slice_subrange(self.buf.as_slice(), start, start + n))
    }

    /// The next byte.
    pub fn u8(&mut self) -> (r: u8)
        requires
            old(self).pos + 1 <= old(self).buf.len(),
        ensures
            r == old(self).buf@[old(self).pos as int],
            final(self).buf@ == old(self).buf@,
            final(self).pos == old(self).pos + 1,
    {
        let v = self.buf[self.pos];
        self.pos = self.pos + 1;
        v
    }

    /// The next little-endian u16.
    pub fn u16(&mut self) -> (r: u16)
        requires
            old(self).pos + 2 <= old(self).buf@.len(),
        ensures
            r == spec_u16_from_le_bytes(old(self).buf@.subrange(old(self).pos as int, old(self).pos + 2)),
            final(self).buf@ == old(self).buf@,
            final(self).pos == old(self).pos + 2,
    {
        let b = self.take(2);
        u16_from_le_bytes(b.as_slice())
    }

    /// The next little-endian u32.
    pub fn u32(&mut self) -> (r: u32)
        requires
            old(self).pos + 4 <= old(self).buf@.len(),
        ensures
            r == spec_u32_from_le_bytes(old(self).buf@.subrange(old(self).pos as int, old(self).pos + 4)),
            final(self).buf@ == old(self).buf@,
            final(self).pos == old(self).pos + 4,
    {
        let b = self.take(4);
        u32_from_le_bytes(b.as_slice())
    }

    /// The next little-endian u64.
    pub fn u64(&mut self) -> (r: u64)
        requires
            old(self).pos + 8 <= old(self).buf@.len(),
        ensures
            r == spec_u64_from_le_bytes(old(self).buf@.subrange(old(self).pos as int, old(self).pos + 8)),
            final(self).buf@ == old(self).buf@,
            final(self).pos == old(self).pos + 8,
    {
        let b = self.take(8);
        u64_from_le_bytes(b.as_slice())
    }

    /// The bit pattern of the next little-endian double.
    pub fn f64_bits(&mut self) -> (r: u64)
        requires
            old(self).pos + 8 <= old(self).buf@.len(),
        ensures
            r == spec_u64_from_le_bytes(old(self).buf@.subrange(old(self).pos as int, old(self).pos + 8)),
            final(self).buf@ == old(self).buf@,
            final(self).pos == old(self).pos + 8,
    {
        self.u64()
    }

    /// The next length-prefixed string: `None` when its bytes are not valid UTF-8.
    pub fn string(&mut self) -> (r: Option<String>)
        requires
            old(self).pos + 4 <= old(self).buf@.len(),
            old(self).pos + 4 + spec_u32_from_le_bytes(
                old(self).buf@.subrange(old(self).pos as int, old(self).pos + 4),
            ) <= old(self).buf@.len(),
        ensures
            ({
                let n = spec_u32_from_le_bytes(
                    old(self).buf@.subrange(old(self).pos as int, old(self).pos + 4),
                );
                let body = old(self).buf@.subrange(old(self).pos + 4, old(self).pos + 4 + n);
                &&& final(self).buf@ == old(self).buf@
                &&& final(self).pos == old(self).pos + 4 + n
                &&& (r is Some <==> valid_utf8(body))
                &&& (r matches Some(s) ==> s@ == decode_utf8(body))
            }),
    {
        let n = self.u32() as usize;
        let b = self.take(n);
        string_from_utf8(b)
    }
}

/// Little-endian bytes of each u32, back to back.
pub open spec fn u32s_bytes(s: Seq<u32>) -> Seq<u8>
    decreases s.len(),
{
    if s.len() == 0 {
        Seq::empty()
    } else {
        u32s_bytes(s.drop_last()) + spec_u32_to_le_bytes(s.last())
    }
}

/// Little-endian bytes of each u16, back to back.
pub open spec fn u16s_bytes(s: Seq<u16>) -> Seq<u8>
    decreases s.len(),
{
    if s.len() == 0 {
        Seq::empty()
    } else {
        u16s_bytes(s.drop_last()) + spec_u16_to_le_bytes(s.last())
    }
}

/// Little-endian bytes of each u64, back to back.
pub open spec fn u64s_bytes(s: Seq<u64>) -> Seq<u8>
    decreases s.len(),
{
    if s.len() == 0 {
        Seq::empty()
    } else {
        u64s_bytes(s.drop_last()) + spec_u64_to_le_bytes(s.last())
    }
}

proof fn lemma_u32s_bytes(s: Seq<u32>, k: int)
    ensures
        u32s_bytes(s).len() == 4 * s.len(),
        0 <= k < s.len() ==> u32s_bytes(s).subrange(4 * k, 4 * k + 4) == spec_u32_to_le_bytes(s[k]),
    decreases s.len(),
{
    lemma_auto_spec_u32_to_from_le_bytes();
    if s.len() > 0 {
        let pre = s.drop_last();
        lemma_u32s_bytes(pre, k);
        if 0 <= k < s.len() - 1 {
            assert(u32s_bytes(s).subrange(4 * k, 4 * k + 4) == u32s_bytes(pre).subrange(4 * k, 4 * k + 4));
        } else if k == s.len() - 1 {
            assert(u32s_bytes(s).subrange(4 * k, 4 * k + 4) == spec_u32_to_le_bytes(s.last()));
        }
    }
}

proof fn lemma_u16s_bytes(s: Seq<u16>, k: int)
    ensures
        u16s_bytes(s).len() == 2 * s.len(),
        0 <= k < s.len() ==> u16s_bytes(s).subrange(2 * k, 2 * k + 2) == spec_u16_to_le_bytes(s[k]),
    decreases s.len(),
{
    lemma_auto_spec_u16_to_from_le_bytes();
    if s.len() > 0 {
        let pre = s.drop_last();
        lemma_u16s_bytes(pre, k);
        if 0 <= k < s.len() - 1 {
            assert(u16s_bytes(s).subrange(2 * k, 2 * k + 2) == u16s_bytes(pre).subrange(2 * k, 2 * k + 2));
        } else if k == s.len() - 1 {
            assert(u16s_bytes(s).subrange(2 * k, 2 * k + 2) == spec_u16_to_le_bytes(s.last()));
        }
    }
}

proof fn lemma_u64s_bytes(s: Seq<u64>, k: int)
    ensures
        u64s_bytes(s).len() == 8 * s.len(),
        0 <= k < s.len() ==> u64s_bytes(s).subrange(8 * k, 8 * k + 8) == spec_u64_to_le_bytes(s[k]),
    decreases s.len(),
{
    lemma_auto_spec_u64_to_from_le_bytes();
    if s.len() > 0 {
        let pre = s.drop_last();
        lemma_u64s_bytes(pre, k);
        if 0 <= k < s.len() - 1 {
            assert(u64s_bytes(s).subrange(8 * k, 8 * k + 8) == u64s_bytes(pre).subrange(8 * k, 8 * k + 8));
        } else if k == s.len() - 1 {
            assert(u64s_bytes(s).subrange(8 * k, 8 * k + 8) == spec_u64_to_le_bytes(s.last()));
        }
    }
}

/// One buffer of the log writer: parallel coordinate columns `(rid, key, value bits)`,
/// one triple per logged field, plus the number of records begun in it.
pub struct Container {
    pub rids: Vec<u32>,
    pub keys: Vec<u16>,
    pub vals: Vec<u64>,
    pub row_count: u32,
}

impl Container {
    /// An empty buffer.
    pub fn new() -> (r: Self)
        ensures
            r.is_empty(),
    {
        Container { rids: Vec::new(), keys: Vec::new(), vals: Vec::new(), row_count: 0 }
    }

    /// The buffer holds no triple and no record.
    pub open spec fn is_empty(&self) -> bool {
        &&& self.rids@.len() == 0
        &&& self.keys@.len() == 0
        &&& self.vals@.len() == 0
        &&& self.row_count == 0
    }

    /// Empty the buffer for reuse.
    pub fn reset(&mut self)
        ensures
            final(self).is_empty(),
    {
        self.rids.clear();
        self.keys.clear();
        self.vals.clear();
        self.row_count = 0;
    }
}

/// The bytes of a chunk file: `[n_triples: u64][row_count: u32]`, then the rid, key and
/// value columns back to back.
pub open spec fn chunk_encoding(rids: Seq<u32>, keys: Seq<u16>, vals: Seq<u64>, row_count: u32) -> Seq<u8> {
    spec_u64_to_le_bytes(rids.len() as u64) + spec_u32_to_le_bytes(row_count) + u32s_bytes(rids)
        + u16s_bytes(keys) + u64s_bytes(vals)
}

/// Encode a buffer as the bytes of one chunk file.
pub fn chunk_bytes(c: &Container) -> (r: Vec<u8>)
    requires
        12 + 14 * c.rids@.len() <= usize::MAX,
    ensures
        r@ == chunk_encoding(c.rids@, c.keys@, c.vals@, c.row_count),
{
    let n = c.rids.len();
    let mut b = ByteWriter::with_capacity(12 + 14 * n);
    b.u64(n as u64);
    b.u32(c.row_count);
    let ghost head = b.0@;
    let mut i: usize = 0;
    while i < n
        invariant
            i <= n,
            n == c.rids@.len(),
            b.0@ == head + u32s_bytes(c.rids@.take(i as int)),
        decreases n - i,
    {
        assert(c.rids@.take(i + 1).drop_last() == c.rids@.take(i as int));
        b.u32(c.rids[i]);
        i += 1;
    }
    assert(c.rids@.take(n as int) == c.rids@);
    let ghost head = b.0@;
    let mut i: usize = 0;
    while i < c.keys.len()
        invariant
            i <= c.keys@.len(),
            b.0@ == head + u16s_bytes(c.keys@.take(i as int)),
        decreases c.keys@.len() - i,
    {
        assert(c.keys@.take(i + 1).drop_last() == c.keys@.take(i as int));
        b.u16(c.keys[i]);
        i += 1;
    }
    assert(c.keys@.take(c.keys@.len() as int) == c.keys@);
    let ghost head = b.0@;
    let mut i: usize = 0;
    while i < c.vals.len()
        invariant
            i <= c.vals@.len(),
            b.0@ == head + u64s_bytes(c.vals@.take(i as int)),
        decreases c.vals@.len() - i,
    {
        assert(c.vals@.take(i + 1).drop_last() == c.vals@.take(i as int));
        b.f64_bits(c.vals[i]);
        i += 1;
    }
    assert(c.vals@.take(c.vals@.len() as int) == c.vals@);
    b.0
}

fn read_u16_at(bytes: &[u8], pos: usize) -> (r: u16)
    requires
        pos + 2 <= bytes.len(),
    ensures
        r == spec_u16_from_le_bytes(bytes@.subrange(pos as int, pos + 2)),
{
    u16_from_le_bytes(slice_subrange(bytes, pos, pos + 2))
}

/// The triple count a chunk's header announces, as the reader sizes it.
pub open spec fn chunk_count(bytes: Seq<u8>) -> int {
    (spec_u64_from_le_bytes(bytes.subrange(0, 8)) as usize) as int
}

/// The chunk a reader finds in `bytes`: present when the header and all three columns
/// fit in the bytes.
pub open spec fn chunk_present(bytes: Seq<u8>) -> bool {
    bytes.len() >= 12 && 12 + 14 * chunk_count(bytes) <= bytes.len()
}

/// The columns a reader decodes from a present chunk.
pub open spec fn chunk_decoded(bytes: Seq<u8>, c: Container) -> bool {
    let n = chunk_count(bytes);
    &&& c.row_count == spec_u32_from_le_bytes(bytes.subrange(8, 12))
    &&& c.rids@.len() == n
    &&& c.keys@.len() == n
    &&& c.vals@.len() == n
    &&& forall|k: int|
        0 <= k < n ==> #[trigger] c.rids@[k] == spec_u32_from_le_bytes(bytes.subrange(12 + 4 * k, 16 + 4 * k))
    &&& forall|k: int|
        0 <= k < n ==> #[trigger] c.keys@[k] == spec_u16_from_le_bytes(bytes.subrange(12 + 4 * n + 2 * k, 14 + 4 * n + 2 * k))
    &&& forall|k: int|
        0 <= k < n ==> #[trigger] c.vals@[k] == spec_u64_from_le_bytes(bytes.subrange(12 + 6 * n + 8 * k, 20 + 6 * n + 8 * k))
}

/// Decode the bytes of a chunk file; `None` when the bytes are too short for what the
/// header announces.
pub fn parse_chunk(bytes: &[u8]) -> (r: Option<Container>)
    ensures
        r is Some <==> chunk_present(bytes@),
        r matches Some(c) ==> chunk_decoded(bytes@, c),
{
    if bytes.len() < 12 {
        return None;
    }
    let n64 = crate::wal::read_u64_at(bytes, 0);
    let n = n64 as usize;
    if n > (bytes.len() - 12) / 14 {
        return None;
    }
    let row_count = crate::wal::read_u32_at(bytes, 8);
    let mut rids: Vec<u32> = Vec::with_capacity(n);
    let mut keys: Vec<u16> = Vec::with_capacity(n);
    let mut vals: Vec<u64> = Vec::with_capacity(n);
    let mut k: usize = 0;
    while k < n
        invariant
            k <= n,
            n == chunk_count(bytes@),
            12 + 14 * n <= bytes@.len(),
            bytes@.len() == bytes.len(),
            rids@.len() == k,
            forall|q: int|
                0 <= q < k ==> #[trigger] rids@[q] == spec_u32_from_le_bytes(bytes@.subrange(12 + 4 * q, 16 + 4 * q)),
        decreases n - k,
    {
        rids.push(crate::wal::read_u32_at(bytes, 12 + 4 * k));
        k += 1;
    }
    let mut k: usize = 0;
    while k < n
        invariant
            k <= n,
            n == chunk_count(bytes@),
            12 + 14 * n <= bytes@.len(),
            bytes@.len() == bytes.len(),
            keys@.len() == k,
            forall|q: int|
                0 <= q < k ==> #[trigger] keys@[q] == spec_u16_from_le_bytes(bytes@.subrange(12 + 4 * n + 2 * q, 14 + 4 * n + 2 * q)),
        decreases n - k,
    {
        keys.push(read_u16_at(bytes, 12 + 4 * n + 2 * k));
        k += 1;
    }
    let mut k: usize = 0;
    while k < n
        invariant
            k <= n,
            n == chunk_count(bytes@),
            12 + 14 * n <= bytes@.len(),
            bytes@.len() == bytes.len(),
            vals@.len() == k,
            forall|q: int|
                0 <= q < k ==> #[trigger] vals@[q] == spec_u64_from_le_bytes(bytes@.subrange(12 + 6 * n + 8 * q, 20 + 6 * n + 8 * q)),
        decreases n - k,
    {
        vals.push(crate::wal::read_u64_at(bytes, 12 + 6 * n + 8 * k));
        k += 1;
    }
    Some(Container { rids, keys, vals, row_count })
}

/// A chunk file decodes to exactly the buffer it was written from.
pub proof fn chunk_roundtrip(c: Container)
    requires
        c.keys@.len() == c.rids@.len(),
        c.vals@.len() == c.rids@.len(),
        12 + 14 * c.rids@.len() <= usize::MAX,
    ensures
        ({
            let bytes = chunk_encoding(c.rids@, c.keys@, c.vals@, c.row_count);
            &&& chunk_present(bytes)
            &&& forall|d: Container| chunk_decoded(bytes, d) ==> d.rids@ == c.rids@ && d.keys@ == c.keys@
                && d.vals@ == c.vals@ && d.row_count == c.row_count
        }),
{
    lemma_auto_spec_u32_to_from_le_bytes();
    lemma_auto_spec_u16_to_from_le_bytes();
    lemma_auto_spec_u64_to_from_le_bytes();
    let n = c.rids@.len() as int;
    let bytes = chunk_encoding(c.rids@, c.keys@, c.vals@, c.row_count);
    lemma_u32s_bytes(c.rids@, 0);
    lemma_u16s_bytes(c.keys@, 0);
    lemma_u64s_bytes(c.vals@, 0);
    assert(bytes.subrange(0, 8) == spec_u64_to_le_bytes(n as u64));
    assert(chunk_count(bytes) == n);
    assert(bytes.subrange(8, 12) == spec_u32_to_le_bytes(c.row_count));
    assert forall|d: Container| chunk_decoded(bytes, d) implies d.rids@ == c.rids@ && d.keys@ == c.keys@
        && d.vals@ == c.vals@ && d.row_count == c.row_count by {
        assert forall|k: int| 0 <= k < n implies d.rids@[k] == c.rids@[k] by {
            lemma_u32s_bytes(c.rids@, k);
            assert(bytes.subrange(12 + 4 * k, 16 + 4 * k) == u32s_bytes(c.rids@).subrange(4 * k, 4 * k + 4));
        }
        assert forall|k: int| 0 <= k < n implies d.keys@[k] == c.keys@[k] by {
            lemma_u16s_bytes(c.keys@, k);
            assert(bytes.subrange(12 + 4 * n + 2 * k, 14 + 4 * n + 2 * k) == u16s_bytes(c.keys@).subrange(2 * k, 2 * k + 2));
        }
        assert forall|k: int| 0 <= k < n implies d.vals@[k] == c.vals@[k] by {
            lemma_u64s_bytes(c.vals@, k);
            assert(bytes.subrange(12 + 6 * n + 8 * k, 20 + 6 * n + 8 * k) == u64s_bytes(c.vals@).subrange(8 * k, 8 * k + 8));
        }
        assert(d.rids@ == c.rids@);
        assert(d.keys@ == c.keys@);
        assert(d.vals@ == c.vals@);
    }
}

} // verus!
