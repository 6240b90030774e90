use vstd::prelude::*;
use vstd::bytes::{
    lemma_auto_spec_u16_to_from_le_bytes, lemma_auto_spec_u32_to_from_le_bytes,
    spec_u16_from_le_bytes, spec_u16_to_le_bytes, spec_u32_from_le_bytes, spec_u32_to_le_bytes,
};
use vstd::utf8::{decode_utf8, encode_utf8, valid_utf8};
use crate::logger::{str_record, u16s_bytes, ByteReader, Container};
use crate::simlog::{
    key_types_bytes, meta_encoding, strings_bytes, strings_view, type_tag_spec, KeyType, LogView,
};
use crate::wal::read_u32_at;

verus! {

broadcast use vstd::utf8::encode_utf8_valid_utf8, vstd::utf8::encode_utf8_decode_utf8;

/// The little-endian u32 at `p`.
pub open spec fn u32_at(b: Seq<u8>, p: int) -> nat {
    spec_u32_from_le_bytes(b.subrange(p, p + 4)) as nat
}

/// The little-endian u16 at `p`.
pub open spec fn u16_at(b: Seq<u8>, p: int) -> u16 {
    spec_u16_from_le_bytes(b.subrange(p, p + 2))
}

/// The type a sidecar tag byte names: `i` and `f` name numbers, anything else a string.
pub open spec fn tag_type(t: u8) -> KeyType {
    if t == 105 {
        KeyType::Int
    } else if t == 102 {
        KeyType::Float
    } else {
        KeyType::Str
    }
}

/// `n` length-prefixed UTF-8 strings from `pos`, and where they end; `None` when the bytes
/// run out or a string is not UTF-8.
pub open spec fn parse_strings(b: Seq<u8>, pos: int, n: nat) -> Option<(Seq<Seq<char>>, int)>
    decreases n,
{
    if n == 0 {
        Some((Seq::empty(), pos))
    } else {
        match parse_strings(b, pos, (n - 1) as nat) {
            None => None,
            Some((ss, p)) => {
                if p + 4 <= b.len() && p + 4 + u32_at(b, p) <= b.len() && valid_utf8(
                    b.subrange(p + 4, p + 4 + u32_at(b, p)),
                ) {
                    Some((ss.push(decode_utf8(b.subrange(p + 4, p + 4 + u32_at(b, p)))), p + 4 + u32_at(b, p)))
                } else {
                    None
                }
            },
        }
    }
}

/// `n` `(field u16, tag byte)` pairs from `pos`, and where they end.
pub open spec fn parse_key_types(b: Seq<u8>, pos: int, n: nat) -> Option<(Seq<(u16, KeyType)>, int)>
    decreases n,
{
    if n == 0 {
        Some((Seq::empty(), pos))
    } else {
        match parse_key_types(b, pos, (n - 1) as nat) {
            None => None,
            Some((kt, p)) => {
                if p + 3 <= b.len() {
                    Some((kt.push((u16_at(b, p), tag_type(b[p + 2]))), p + 3))
                } else {
                    None
                }
            },
        }
    }
}

/// `n` little-endian u16s from `pos`, and where they end.
pub open spec fn parse_u16s(b: Seq<u8>, pos: int, n: nat) -> Option<(Seq<u16>, int)>
    decreases n,
{
    if n == 0 {
        Some((Seq::empty(), pos))
    } else {
        match parse_u16s(b, pos, (n - 1) as nat) {
            None => None,
            Some((ks, p)) => {
                if p + 2 <= b.len() {
                    Some((ks.push(u16_at(b, p)), p + 2))
                } else {
                    None
                }
            },
        }
    }
}

/// What the sidecar says: the buffer size, the field names, the `(field, type)` pairs in
/// file order, the string-valued fields and the codebook.
pub struct MetaView {
    pub buffer_size: u32,
    pub names: Seq<Seq<char>>,
    pub key_types: Seq<(u16, KeyType)>,
    pub str_keys: Seq<u16>,
    pub str_list: Seq<Seq<char>>,
}

/// The sidecar a reader finds in `b`; `None` when it is cut short or holds a string that
/// is not UTF-8. Bytes after the codebook are not read.
pub open spec fn parse_meta(b: Seq<u8>) -> Option<MetaView> {
    if b.len() < 8 {
        None
    } else {
        match parse_strings(b, 8, u32_at(b, 4)) {
            None => None,
            Some((names, p1)) => if p1 + 4 > b.len() {
                None
            } else {
                match parse_key_types(b, p1 + 4, u32_at(b, p1)) {
                    None => None,
                    Some((key_types, p2)) => if p2 + 4 > b.len() {
                        None
                    } else {
                        match parse_u16s(b, p2 + 4, u32_at(b, p2)) {
                            None => None,
                            Some((str_keys, p3)) => if p3 + 4 > b.len() {
                                None
                            } else {
                                match parse_strings(b, p3 + 4, u32_at(b, p3)) {
                                    None => None,
                                    Some((str_list, _)) => Some(
                                        MetaView {
                                            buffer_size: u32_at(b, 0) as u32,
                                            names,
                                            key_types,
                                            str_keys,
                                            str_list,
                                        },
                                    ),
                                }
                            },
                        }
                    },
                }
            },
        }
    }
}

proof fn lemma_parse_strings_none(b: Seq<u8>, pos: int, n: nat, m: nat)
    requires
        parse_strings(b, pos, n) is None,
        n <= m,
    ensures
        parse_strings(b, pos, m) is None,
    decreases m - n,
{
    if n < m {
        lemma_parse_strings_none(b, pos, n, (m - 1) as nat);
    }
}

proof fn lemma_parse_key_types_none(b: Seq<u8>, pos: int, n: nat, m: nat)
    requires
        parse_key_types(b, pos, n) is None,
        n <= m,
    ensures
        parse_key_types(b, pos, m) is None,
    decreases m - n,
{
    if n < m {
        lemma_parse_key_types_none(b, pos, n, (m - 1) as nat);
    }
}

proof fn lemma_parse_u16s_none(b: Seq<u8>, pos: int, n: nat, m: nat)
    requires
        parse_u16s(b, pos, n) is None,
        n <= m,
    ensures
        parse_u16s(b, pos, m) is None,
    decreases m - n,
{
    if n < m {
        lemma_parse_u16s_none(b, pos, n, (m - 1) as nat);
    }
}

/// Read `n` strings at the cursor.
fn read_strings(r: &mut ByteReader, n: u32) -> (res: Option<Vec<String>>)
    requires
        old(r).pos <= old(r).buf@.len(),
    ensures
        final(r).buf@ == old(r).buf@,
        final(r).pos <= final(r).buf@.len(),
        res is Some <==> parse_strings(old(r).buf@, old(r).pos as int, n as nat) is Some,
        res matches Some(v) ==> ({
            let (ss, p) = parse_strings(old(r).buf@, old(r).pos as int, n as nat).unwrap();
            strings_view(v@) == ss && final(r).pos == p
        }),
{
    let ghost b = r.buf@;
    let ghost pos0 = r.pos as int;
    let mut v: Vec<String> = Vec::new();
    let mut i: u32 = 0;
    while i < n
        invariant
            i <= n,
            r.buf@ == b,
            b == old(r).buf@,
            pos0 == old(r).pos,
            r.pos <= b.len(),
            parse_strings(b, pos0, i as nat) == Some((strings_view(v@), r.pos as int)),
        decreases n - i,
    {
        let ghost prev = strings_view(v@);
        if r.buf.len() - r.pos < 4 {
            proof {
                lemma_parse_strings_none(b, pos0, (i + 1) as nat, n as nat);
            }
            return None;
        }
        let len = read_u32_at(r.buf.as_slice(), r.pos);
        if r.buf.len() - r.pos - 4 < len as usize {
            proof {
                lemma_parse_strings_none(b, pos0, (i + 1) as nat, n as nat);
            }
            return None;
        }
        let ghost p = r.pos as int;
        match r.string() {
            None => {
                proof {
                    lemma_parse_strings_none(b, pos0, (i + 1) as nat, n as nat);
                }
                return None;
            },
            Some(s) => {
                v.push(s);
                proof {
                    assert(strings_view(v@) =~= prev.push(s@));
                }
            },
        }
        i += 1;
    }
    Some(v)
}

/// Read `n` `(field, tag)` pairs at the cursor.
fn read_key_types(r: &mut ByteReader, n: u32) -> (res: Option<Vec<(u16, KeyType)>>)
    requires
        old(r).pos <= old(r).buf@.len(),
    ensures
        final(r).buf@ == old(r).buf@,
        final(r).pos <= final(r).buf@.len(),
        res is Some <==> parse_key_types(old(r).buf@, old(r).pos as int, n as nat) is Some,
        res matches Some(v) ==> ({
            let (kt, p) = parse_key_types(old(r).buf@, old(r).pos as int, n as nat).unwrap();
            v@ == kt && final(r).pos == p
        }),
{
    let ghost b = r.buf@;
    let ghost pos0 = r.pos as int;
    let mut v: Vec<(u16, KeyType)> = Vec::new();
    let mut i: u32 = 0;
    while i < n
        invariant
            i <= n,
            r.buf@ == b,
            b == old(r).buf@,
            pos0 == old(r).pos,
            r.pos <= b.len(),
            parse_key_types(b, pos0, i as nat) == Some((v@, r.pos as int)),
        decreases n - i,
    {
        if r.buf.len() - r.pos < 3 {
            proof {
                lemma_parse_key_types_none(b, pos0, (i + 1) as nat, n as nat);
            }
            return None;
        }
        let k = r.u16();
        let tag = r.u8();
        let t = if tag == 105 {
            KeyType::Int
        } else if tag == 102 {
            KeyType::Float
        } else {
            KeyType::Str
        };
        v.push((k, t));
        i += 1;
    }
    Some(v)
}

/// Read `n` u16s at the cursor.
fn read_u16s(r: &mut ByteReader, n: u32) -> (res: Option<Vec<u16>>)
    requires
        old(r).pos <= old(r).buf@.len(),
    ensures
        final(r).buf@ == old(r).buf@,
        final(r).pos <= final(r).buf@.len(),
        res is Some <==> parse_u16s(old(r).buf@, old(r).pos as int, n as nat) is Some,
        res matches Some(v) ==> ({
            let (ks, p) = parse_u16s(old(r).buf@, old(r).pos as int, n as nat).unwrap();
            v@ == ks && final(r).pos == p
        }),
{
    let ghost b = r.buf@;
    let ghost pos0 = r.pos as int;
    let mut v: Vec<u16> = Vec::new();
    let mut i: u32 = 0;
    while i < n
        invariant
            i <= n,
            r.buf@ == b,
            b == old(r).buf@,
            pos0 == old(r).pos,
            r.pos <= b.len(),
            parse_u16s(b, pos0, i as nat) == Some((v@, r.pos as int)),
        decreases n - i,
    {
        if r.buf.len() - r.pos < 2 {
            proof {
                lemma_parse_u16s_none(b, pos0, (i + 1) as nat, n as nat);
            }
            return None;
        }
        let k = r.u16();
        v.push(k);
        i += 1;
    }
    Some(v)
}

/// The reading side of the columnar log: the schema and codebook from the sidecar.
pub struct SimLogReader {
    pub names: Vec<String>,
    pub key_types: Vec<(u16, KeyType)>,
    pub str_keys: Vec<u16>,
    pub str_list: Vec<String>,
}

impl SimLogReader {
    /// The reader holds what the sidecar `m` says.
    pub open spec fn holds(&self, m: MetaView) -> bool {
        &&& strings_view(self.names@) == m.names
        &&& self.key_types@ == m.key_types
        &&& self.str_keys@ == m.str_keys
        &&& strings_view(self.str_list@) == m.str_list
    }

    /// Read the sidecar bytes; `None` when they are cut short or hold a string that is
    /// not UTF-8.
    pub fn from_meta(bytes: Vec<u8>) -> (r: Option<Self>)
        ensures
            r is Some <==> parse_meta(bytes@) is Some,
            r matches Some(rd) ==> rd.holds(parse_meta(bytes@).unwrap()),
    {
        let ghost b = bytes@;
        if bytes.len() < 8 {
            return None;
        }
        let mut r = ByteReader::new(bytes);
        let _buffer_size = r.u32();
        let n_names = r.u32();
        let names = match read_strings(&mut r, n_names) {
            None => return None,
            Some(v) => v,
        };
        if r.buf.len() - r.pos < 4 {
            return None;
        }
        let n_kt = r.u32();
        let key_types = match read_key_types(&mut r, n_kt) {
            None => return None,
            Some(v) => v,
        };
        if r.buf.len() - r.pos < 4 {
            return None;
        }
        let n_sk = r.u32();
        let str_keys = match read_u16s(&mut r, n_sk) {
            None => return None,
            Some(v) => v,
        };
        if r.buf.len() - r.pos < 4 {
            return None;
        }
        let n_str = r.u32();
        let str_list = match read_strings(&mut r, n_str) {
            None => return None,
            Some(v) => v,
        };
        Some(SimLogReader { names, key_types, str_keys, str_list })
    }

    /// The field names; a field's key is its position.
    pub fn field_names(&self) -> (r: &[String])
        ensures
            r@ == self.names@,
    {
        self.names.as_slice()
    }

    /// The codebook; a string's code is its position.
    pub fn codebook(&self) -> (r: &[String])
        ensures
            r@ == self.str_list@,
    {
        self.str_list.as_slice()
    }
}

/// Every string's UTF-8 form fits a u32 length prefix.
pub open spec fn lengths_fit(ss: Seq<Seq<char>>) -> bool {
    forall|i: int| 0 <= i < ss.len() ==> #[trigger] encode_utf8(ss[i]).len() <= u32::MAX
}

proof fn lemma_parse_strings_of(b: Seq<u8>, pos: int, ss: Seq<Seq<char>>)
    requires
        0 <= pos,
        pos + strings_bytes(ss).len() <= b.len(),
        b.subrange(pos, pos + strings_bytes(ss).len()) == strings_bytes(ss),
        lengths_fit(ss),
    ensures
        parse_strings(b, pos, ss.len()) == Some((ss, pos + strings_bytes(ss).len())),
    decreases ss.len(),
{
    if ss.len() > 0 {
        lemma_auto_spec_u32_to_from_le_bytes();
        let pre = ss.drop_last();
        let last = ss.last();
        let lp = strings_bytes(pre).len() as int;
        let enc = encode_utf8(last);
        assert(encode_utf8(ss[ss.len() - 1]).len() <= u32::MAX);
        assert(strings_bytes(ss) == strings_bytes(pre) + str_record(last));
        assert(lengths_fit(pre)) by {
            assert forall|i: int| 0 <= i < pre.len() implies #[trigger] encode_utf8(pre[i]).len() <= u32::MAX by {
                assert(pre[i] == ss[i]);
            }
        }
        assert(b.subrange(pos, pos + lp) == strings_bytes(ss).subrange(0, lp));
        assert(strings_bytes(ss).subrange(0, lp) == strings_bytes(pre));
        lemma_parse_strings_of(b, pos, pre);
        let p = pos + lp;
        assert(b.subrange(p, p + 4) == strings_bytes(ss).subrange(lp, lp + 4));
        assert(strings_bytes(ss).subrange(lp, lp + 4) == spec_u32_to_le_bytes(enc.len() as u32));
        assert(u32_at(b, p) == enc.len());
        assert(b.subrange(p + 4, p + 4 + enc.len()) == strings_bytes(ss).subrange(lp + 4, lp + 4 + enc.len()));
        assert(strings_bytes(ss).subrange(lp + 4, lp + 4 + enc.len()) == enc);
    }
}

proof fn lemma_parse_key_types_of(b: Seq<u8>, pos: int, kt: Seq<(u16, KeyType)>)
    requires
        0 <= pos,
        pos + key_types_bytes(kt).len() <= b.len(),
        b.subrange(pos, pos + key_types_bytes(kt).len()) == key_types_bytes(kt),
    ensures
        key_types_bytes(kt).len() == 3 * kt.len(),
        parse_key_types(b, pos, kt.len()) == Some((kt, pos + 3 * kt.len())),
    decreases kt.len(),
{
    if kt.len() > 0 {
        lemma_auto_spec_u16_to_from_le_bytes();
        let pre = kt.drop_last();
        let last = kt.last();
        let whole = key_types_bytes(kt);
        let lp = key_types_bytes(pre).len() as int;
        assert(whole == key_types_bytes(pre) + spec_u16_to_le_bytes(last.0) + seq![type_tag_spec(last.1)]);
        assert(b.subrange(pos, pos + lp) == whole.subrange(0, lp));
        assert(whole.subrange(0, lp) == key_types_bytes(pre));
        lemma_parse_key_types_of(b, pos, pre);
        let p = pos + lp;
        assert(b.subrange(p, p + 2) == whole.subrange(lp, lp + 2));
        assert(whole.subrange(lp, lp + 2) == spec_u16_to_le_bytes(last.0));
        assert(b[p + 2] == whole[lp + 2]);
        assert(tag_type(type_tag_spec(last.1)) == last.1);
        assert(kt =~= pre.push((u16_at(b, p), tag_type(b[p + 2]))));
    }
}

proof fn lemma_parse_u16s_of(b: Seq<u8>, pos: int, ks: Seq<u16>)
    requires
        0 <= pos,
        pos + u16s_bytes(ks).len() <= b.len(),
        b.subrange(pos, pos + u16s_bytes(ks).len()) == u16s_bytes(ks),
    ensures
        u16s_bytes(ks).len() == 2 * ks.len(),
        parse_u16s(b, pos, ks.len()) == Some((ks, pos + 2 * ks.len())),
    decreases ks.len(),
{
    if ks.len() > 0 {
        lemma_auto_spec_u16_to_from_le_bytes();
        let pre = ks.drop_last();
        let whole = u16s_bytes(ks);
        let lp = u16s_bytes(pre).len() as int;
        assert(whole == u16s_bytes(pre) + spec_u16_to_le_bytes(ks.last()));
        assert(b.subrange(pos, pos + lp) == whole.subrange(0, lp));
        assert(whole.subrange(0, lp) == u16s_bytes(pre));
        lemma_parse_u16s_of(b, pos, pre);
        let p = pos + lp;
        assert(b.subrange(p, p + 2) == whole.subrange(lp, lp + 2));
        assert(whole.subrange(lp, lp + 2) == spec_u16_to_le_bytes(ks.last()));
        assert(ks =~= pre.push(u16_at(b, p)));
    }
}

/// The sidecar reads back as exactly what was written: buffer size, field names, field
/// types, string-valued fields and codebook (whenever each list's length and each
/// string's UTF-8 length fit the u32 that prefixes it).
pub proof fn sidecar_roundtrip(buffer_size: u32, m: LogView)
    requires
        m.names.len() <= u32::MAX,
        m.key_types.len() <= u32::MAX,
        m.str_keys.len() <= u32::MAX,
        m.str_list.len() <= u32::MAX,
        lengths_fit(m.names),
        lengths_fit(m.str_list),
    ensures
        parse_meta(meta_encoding(buffer_size, m)) == Some(
            MetaView {
                buffer_size,
                names: m.names,
                key_types: m.key_types,
                str_keys: m.str_keys,
                str_list: m.str_list,
            },
        ),
{
    lemma_auto_spec_u32_to_from_le_bytes();
    let b = meta_encoding(buffer_size, m);
    let h0 = spec_u32_to_le_bytes(buffer_size);
    let h1 = spec_u32_to_le_bytes(m.names.len() as u32);
    let nb = strings_bytes(m.names);
    let h2 = spec_u32_to_le_bytes(m.key_types.len() as u32);
    let kb = key_types_bytes(m.key_types);
    let h3 = spec_u32_to_le_bytes(m.str_keys.len() as u32);
    let sb = u16s_bytes(m.str_keys);
    let h4 = spec_u32_to_le_bytes(m.str_list.len() as u32);
    let cb = strings_bytes(m.str_list);
    assert(b == h0 + h1 + nb + h2 + kb + h3 + sb + h4 + cb);
    let p1: int = 8 + nb.len() as int;
    let p2: int = p1 + 4 + kb.len();
    let p3: int = p2 + 4 + sb.len();
    assert(b.subrange(0, 4) == h0);
    assert(b.subrange(4, 8) == h1);
    assert(u32_at(b, 0) as u32 == buffer_size);
    assert(u32_at(b, 4) == m.names.len());
    assert(b.subrange(8, p1) == nb);
    lemma_parse_strings_of(b, 8, m.names);
    assert(b.subrange(p1, p1 + 4) == h2);
    assert(b.subrange(p1 + 4, p1 + 4 + kb.len()) == kb);
    lemma_parse_key_types_of(b, p1 + 4, m.key_types);
    assert(b.subrange(p2, p2 + 4) == h3);
    assert(b.subrange(p2 + 4, p2 + 4 + sb.len()) == sb);
    lemma_parse_u16s_of(b, p2 + 4, m.str_keys);
    assert(b.subrange(p3, p3 + 4) == h4);
    assert(b.subrange(p3 + 4, p3 + 4 + cb.len()) == cb);
    lemma_parse_strings_of(b, p3 + 4, m.str_list);
}

/// The value the last of a chunk's triples for field `k` in record `r` carries, if any.
pub open spec fn cell_value(keys: Seq<u16>, rids: Seq<u32>, vals: Seq<u64>, k: int, r: int) -> Option<u64>
    decreases keys.len(),
{
    if keys.len() == 0 || rids.len() == 0 || vals.len() == 0 {
        None
    } else if keys.last() == k && rids.last() == r {
        Some(vals.last())
    } else {
        cell_value(keys.drop_last(), rids.drop_last(), vals.drop_last(), k, r)
    }
}

/// The dense column of field `k` over a chunk's records: the logged value bits, 0 where
/// the record does not set the field.
pub open spec fn chunk_column(c: Container, k: int) -> Seq<u64> {
    Seq::new(
        c.row_count as nat,
        |r: int|
            match cell_value(c.keys@, c.rids@, c.vals@, k, r) {
                Some(v) => v,
                None => 0u64,
            },
    )
}

/// Which records of a chunk set field `k`.
pub open spec fn chunk_mask(c: Container, k: int) -> Seq<bool> {
    Seq::new(c.row_count as nat, |r: int| cell_value(c.keys@, c.rids@, c.vals@, k, r) is Some)
}

/// Extend every field's dense column (and presence mask) by one chunk's records: record
/// `r` of the chunk becomes row `base + r`, holding what the chunk logged for the field
/// there (the bits of 0.0 and a clear mask where it logged nothing).
pub fn scatter_chunk(c: &Container, base: usize, cols: &mut Vec<Vec<u64>>, masks: &mut Vec<Vec<bool>>)
    requires
        c.keys@.len() == c.rids@.len(),
        c.vals@.len() == c.rids@.len(),
        old(masks)@.len() == old(cols)@.len(),
        forall|k: int| 0 <= k < old(cols)@.len() ==> #[trigger] old(cols)@[k]@.len() == base,
        forall|k: int| 0 <= k < old(masks)@.len() ==> #[trigger] old(masks)@[k]@.len() == base,
        forall|j: int| 0 <= j < c.keys@.len() ==> #[trigger] c.keys@[j] < old(cols)@.len(),
        forall|j: int| 0 <= j < c.rids@.len() ==> #[trigger] c.rids@[j] < c.row_count,
        base + c.row_count <= usize::MAX,
    ensures
        final(cols)@.len() == old(cols)@.len(),
        final(masks)@.len() == old(masks)@.len(),
        forall|k: int| 0 <= k < old(cols)@.len() ==> #[trigger] final(cols)@[k]@ == old(cols)@[k]@ + chunk_column(*c, k),
        forall|k: int| 0 <= k < old(masks)@.len() ==> #[trigger] final(masks)@[k]@ == old(masks)@[k]@ + chunk_mask(*c, k),
{
    let n = cols.len();
    let rc = c.row_count as usize;
    let mut k: usize = 0;
    while k < n
        invariant
            k <= n,
            n == cols@.len(),
            n == masks@.len(),
            n == old(cols)@.len(),
            n == old(masks)@.len(),
            rc == c.row_count,
            forall|q: int| 0 <= q < k ==> #[trigger] cols@[q]@ == old(cols)@[q]@ + Seq::new(rc as nat, |r: int| 0u64),
            forall|q: int| 0 <= q < k ==> #[trigger] masks@[q]@ == old(masks)@[q]@ + Seq::new(rc as nat, |r: int| false),
            forall|q: int| k <= q < n ==> #[trigger] cols@[q] == old(cols)@[q],
            forall|q: int| k <= q < n ==> #[trigger] masks@[q] == old(masks)@[q],
        decreases n - k,
    {
        let mut col: Vec<u64> = Vec::new();
        std::mem::swap(&mut col, &mut cols[k]);
        let mut mask: Vec<bool> = Vec::new();
        std::mem::swap(&mut mask, &mut masks[k]);
        let ghost c0 = col@;
        let ghost m0 = mask@;
        let mut r: usize = 0;
        while r < rc
            invariant
                r <= rc,
                col@ == c0 + Seq::new(r as nat, |i: int| 0u64),
                mask@ == m0 + Seq::new(r as nat, |i: int| false),
            decreases rc - r,
        {
            col.push(0);
            mask.push(false);
            r += 1;
            assert(col@ =~= c0 + Seq::new(r as nat, |i: int| 0u64));
            assert(mask@ =~= m0 + Seq::new(r as nat, |i: int| false));
        }
        std::mem::swap(&mut col, &mut cols[k]);
        std::mem::swap(&mut mask, &mut masks[k]);
        k += 1;
    }
    let m = c.keys.len();
    let mut j: usize = 0;
    while j < m
        invariant
            j <= m,
            m == c.keys@.len(),
            m == c.rids@.len(),
            m == c.vals@.len(),
            n == cols@.len(),
            n == masks@.len(),
            n == old(cols)@.len(),
            n == old(masks)@.len(),
            base + c.row_count <= usize::MAX,
            forall|q: int| 0 <= q < c.keys@.len() ==> #[trigger] c.keys@[q] < n,
            forall|q: int| 0 <= q < c.rids@.len() ==> #[trigger] c.rids@[q] < c.row_count,
            forall|q: int| 0 <= q < n ==> #[trigger] old(cols)@[q]@.len() == base,
            forall|q: int| 0 <= q < n ==> #[trigger] old(masks)@[q]@.len() == base,
            forall|q: int|
                0 <= q < n ==> #[trigger] cols@[q]@ == old(cols)@[q]@ + Seq::new(
                    c.row_count as nat,
                    |r: int|
                        match cell_value(c.keys@.take(j as int), c.rids@.take(j as int), c.vals@.take(j as int), q, r) {
                            Some(v) => v,
                            None => 0u64,
                        },
                ),
            forall|q: int|
                0 <= q < n ==> #[trigger] masks@[q]@ == old(masks)@[q]@ + Seq::new(
                    c.row_count as nat,
                    |r: int| cell_value(c.keys@.take(j as int), c.rids@.take(j as int), c.vals@.take(j as int), q, r) is Some,
                ),
        decreases m - j,
    {
        let key = c.keys[j] as usize;
        let i = base + c.rids[j] as usize;
        let v = c.vals[j];
        proof {
            let kt = c.keys@.take(j + 1);
            let rt = c.rids@.take(j + 1);
            let vt = c.vals@.take(j + 1);
            assert(kt.drop_last() =~= c.keys@.take(j as int));
            assert(rt.drop_last() =~= c.rids@.take(j as int));
            assert(vt.drop_last() =~= c.vals@.take(j as int));
        }
        let ghost before_c = cols@[key as int]@;
        let ghost before_m = masks@[key as int]@;
        cols[key].set(i, v);
        masks[key].set(i, true);
        j += 1;
        proof {
            assert forall|q: int| 0 <= q < n implies #[trigger] cols@[q]@ == old(cols)@[q]@ + Seq::new(
                c.row_count as nat,
                |r: int|
                    match cell_value(c.keys@.take(j as int), c.rids@.take(j as int), c.vals@.take(j as int), q, r) {
                        Some(v) => v,
                        None => 0u64,
                    },
            ) by {
                assert(cols@[q]@ =~= old(cols)@[q]@ + Seq::new(
                    c.row_count as nat,
                    |r: int|
                        match cell_value(c.keys@.take(j as int), c.rids@.take(j as int), c.vals@.take(j as int), q, r) {
                            Some(v) => v,
                            None => 0u64,
                        },
                ));
            }
            assert forall|q: int| 0 <= q < n implies #[trigger] masks@[q]@ == old(masks)@[q]@ + Seq::new(
                c.row_count as nat,
                |r: int| cell_value(c.keys@.take(j as int), c.rids@.take(j as int), c.vals@.take(j as int), q, r) is Some,
            ) by {
                assert(masks@[q]@ =~= old(masks)@[q]@ + Seq::new(
                    c.row_count as nat,
                    |r: int| cell_value(c.keys@.take(j as int), c.rids@.take(j as int), c.vals@.take(j as int), q, r) is Some,
                ));
            }
        }
    }
    proof {
        assert(c.keys@.take(m as int) =~= c.keys@);
        assert(c.rids@.take(m as int) =~= c.rids@);
        assert(c.vals@.take(m as int) =~= c.vals@);
        assert forall|k: int| 0 <= k < old(cols)@.len() implies #[trigger] cols@[k]@ == old(cols)@[k]@ + chunk_column(*c, k) by {
            assert(cols@[k]@ =~= old(cols)@[k]@ + chunk_column(*c, k));
        }
        assert forall|k: int| 0 <= k < old(masks)@.len() implies #[trigger] masks@[k]@ == old(masks)@[k]@ + chunk_mask(*c, k) by {
            assert(masks@[k]@ =~= old(masks)@[k]@ + chunk_mask(*c, k));
        }
    }
}

/// A chunk that can be scattered into `nfields` columns: one key and one value per
/// record index, keys naming known fields, record indexes below its record count.
pub open spec fn chunk_fits(c: Container, nfields: nat) -> bool {
    &&& c.keys@.len() == c.rids@.len()
    &&& c.vals@.len() == c.rids@.len()
    &&& forall|j: int| 0 <= j < c.keys@.len() ==> #[trigger] c.keys@[j] < nfields
    &&& forall|j: int| 0 <= j < c.rids@.len() ==> #[trigger] c.rids@[j] < c.row_count
}

/// The records of a run of chunks.
pub open spec fn run_rows(chunks: Seq<Container>) -> nat
    decreases chunks.len(),
{
    if chunks.len() == 0 {
        0
    } else {
        run_rows(chunks.drop_last()) + chunks.last().row_count as nat
    }
}

/// The dense column of field `k` over a run of chunks, chunk after chunk.
pub open spec fn run_column(chunks: Seq<Container>, k: int) -> Seq<u64>
    decreases chunks.len(),
{
    if chunks.len() == 0 {
        Seq::empty()
    } else {
        run_column(chunks.drop_last(), k) + chunk_column(chunks.last(), k)
    }
}

/// Which records of a run of chunks set field `k`.
pub open spec fn run_mask(chunks: Seq<Container>, k: int) -> Seq<bool>
    decreases chunks.len(),
{
    if chunks.len() == 0 {
        Seq::empty()
    } else {
        run_mask(chunks.drop_last(), k) + chunk_mask(chunks.last(), k)
    }
}

proof fn lemma_run_lens(chunks: Seq<Container>, k: int)
    ensures
        run_column(chunks, k).len() == run_rows(chunks),
        run_mask(chunks, k).len() == run_rows(chunks),
    decreases chunks.len(),
{
    if chunks.len() > 0 {
        lemma_run_lens(chunks.drop_last(), k);
    }
}

/// The whole log as dense columns: every chunk scattered in turn, each record of the run
/// one row. Column `k` holds, row by row, what the record logged last for field `k` (the
/// bits of 0.0 where it logged nothing), and mask `k` whether it logged anything.
pub fn scatter_chunks(chunks: &[Container], nfields: usize) -> (r: (Vec<Vec<u64>>, Vec<Vec<bool>>))
    requires
        forall|i: int| 0 <= i < chunks@.len() ==> chunk_fits(#[trigger] chunks@[i], nfields as nat),
        run_rows(chunks@) <= usize::MAX,
    ensures
        r.0@.len() == nfields,
        r.1@.len() == nfields,
        forall|k: int| 0 <= k < nfields ==> #[trigger] r.0@[k]@ == run_column(chunks@, k),
        forall|k: int| 0 <= k < nfields ==> #[trigger] r.1@[k]@ == run_mask(chunks@, k),
{
    let mut cols: Vec<Vec<u64>> = Vec::new();
    let mut masks: Vec<Vec<bool>> = Vec::new();
    let mut k: usize = 0;
    while k < nfields
        invariant
            k <= nfields,
            cols@.len() == k,
            masks@.len() == k,
            forall|q: int| 0 <= q < k ==> #[trigger] cols@[q]@ == Seq::<u64>::empty(),
            forall|q: int| 0 <= q < k ==> #[trigger] masks@[q]@ == Seq::<bool>::empty(),
        decreases nfields - k,
    {
        cols.push(Vec::new());
        masks.push(Vec::new());
        k += 1;
    }
    let mut base: usize = 0;
    let mut i: usize = 0;
    while i < chunks.len()
        invariant
            i <= chunks@.len(),
            forall|q: int| 0 <= q < chunks@.len() ==> chunk_fits(#[trigger] chunks@[q], nfields as nat),
            run_rows(chunks@) <= usize::MAX,
            base == run_rows(chunks@.take(i as int)),
            cols@.len() == nfields,
            masks@.len() == nfields,
            forall|q: int| 0 <= q < nfields ==> #[trigger] cols@[q]@ == run_column(chunks@.take(i as int), q),
            forall|q: int| 0 <= q < nfields ==> #[trigger] masks@[q]@ == run_mask(chunks@.take(i as int), q),
        decreases chunks@.len() - i,
    {
        let c = &chunks[i];
        proof {
            assert(chunks@.take(i + 1).drop_last() =~= chunks@.take(i as int));
            assert(chunks@.take(i + 1).last() == chunks@[i as int]);
            assert(chunk_fits(chunks@[i as int], nfields as nat));
            lemma_run_rows_prefix(chunks@, i + 1);
            assert forall|q: int| 0 <= q < nfields implies #[trigger] cols@[q]@.len() == base by {
                lemma_run_lens(chunks@.take(i as int), q);
            }
            assert forall|q: int| 0 <= q < nfields implies #[trigger] masks@[q]@.len() == base by {
                lemma_run_lens(chunks@.take(i as int), q);
            }
        }
        scatter_chunk(c, base, &mut cols, &mut masks);
        base = base + c.row_count as usize;
        i += 1;
    }
    proof {
        assert(chunks@.take(chunks@.len() as int) =~= chunks@);
    }
    (cols, masks)
}

proof fn lemma_run_rows_prefix(chunks: Seq<Container>, n: int)
    requires
        0 <= n <= chunks.len(),
    ensures
        run_rows(chunks.take(n)) <= run_rows(chunks),
    decreases chunks.len(),
{
    if n < chunks.len() {
        assert(chunks.drop_last().take(n) =~= chunks.take(n));
        lemma_run_rows_prefix(chunks.drop_last(), n);
    } else {
        assert(chunks.take(n) =~= chunks);
    }
}

/// The type the last entry for field `k` records, if any.
pub open spec fn last_type(kt: Seq<(u16, KeyType)>, k: u16) -> Option<KeyType>
    decreases kt.len(),
{
    if kt.len() == 0 {
        None
    } else if kt.last().0 == k {
        Some(kt.last().1)
    } else {
        last_type(kt.drop_last(), k)
    }
}

/// How a value of field `k` reads back: a string-valued field through the codebook, an
/// integer field as an integer, anything else as a float.
pub open spec fn read_kind(str_keys: Seq<u16>, kt: Seq<(u16, KeyType)>, k: u16) -> KeyType {
    if str_keys.contains(k) {
        KeyType::Str
    } else if last_type(kt, k) == Some(KeyType::Int) {
        KeyType::Int
    } else {
        KeyType::Float
    }
}

impl SimLogReader {
    /// How the values of field `k` decode.
    pub fn kind_of(&self, k: u16) -> (r: KeyType)
        ensures
            r == read_kind(self.str_keys@, self.key_types@, k),
    {
        let mut i: usize = 0;
        while i < self.str_keys.len()
            invariant
                i <= self.str_keys@.len(),
                forall|q: int| 0 <= q < i ==> self.str_keys@[q] != k,
            decreases self.str_keys@.len() - i,
        {
            if self.str_keys[i] == k {
                assert(self.str_keys@.contains(k));
                return KeyType::Str;
            }
            i += 1;
        }
        let mut found: Option<KeyType> = None;
        let mut j: usize = 0;
        while j < self.key_types.len()
            invariant
                j <= self.key_types@.len(),
                found == last_type(self.key_types@.take(j as int), k),
            decreases self.key_types@.len() - j,
        {
            let (kk, t) = self.key_types[j];
            assert(self.key_types@.take(j + 1).drop_last() =~= self.key_types@.take(j as int));
            if kk == k {
                found = Some(t);
            }
            j += 1;
        }
        assert(self.key_types@.take(self.key_types@.len() as int) =~= self.key_types@);
        match found {
            Some(KeyType::Int) => KeyType::Int,
            _ => KeyType::Float,
        }
    }
}

} // verus!
