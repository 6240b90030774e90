use vstd::prelude::*;
use crate::logger::{str_record, u16s_bytes, ByteWriter, Container};
use vstd::bytes::{spec_u16_to_le_bytes, spec_u32_to_le_bytes};

verus! {

/// `2^p`.
pub open spec fn two_pow(p: nat) -> nat
    decreases p,
{
    if p == 0 {
        1
    } else {
        2 * two_pow((p - 1) as nat)
    }
}

proof fn lemma_two_pow_add(a: nat, b: nat)
    ensures
        two_pow(a + b) == two_pow(a) * two_pow(b),
    decreases a,
{
    if a > 0 {
        let a1 = (a - 1) as nat;
        lemma_two_pow_add(a1, b);
        assert(a + b == (a1 + b) + 1);
        assert(two_pow(a + b) == 2 * two_pow(a1 + b));
        assert(two_pow(a) == 2 * two_pow(a1));
        assert(2 * (two_pow(a1) * two_pow(b)) == (2 * two_pow(a1)) * two_pow(b)) by (nonlinear_arith);
    } else {
        assert(two_pow(a) == 1);
        assert(a + b == b);
    }
}

proof fn lemma_two_pow_52()
    ensures
        two_pow(52) == 0x10_0000_0000_0000,
{
    reveal_with_fuel(two_pow, 53);
}

proof fn lemma_two_pow_pos(a: nat)
    ensures
        two_pow(a) >= 1,
    decreases a,
{
    if a > 0 {
        lemma_two_pow_pos((a - 1) as nat);
    }
}

/// `2^52`, the weight of the implicit leading bit of a normal double's significand.
pub open spec fn significand_unit() -> nat {
    0x10_0000_0000_0000
}

/// `r` is the IEEE-754 bit pattern of the double whose value is exactly the integer `n`
/// (for `0 < n < 2^53`: sign clear, biased exponent `e`, fraction `m`, and
/// `(2^52 + m) / 2^(1075 - e) == n`).
pub open spec fn is_f64_bits_of(r: u64, n: nat) -> bool {
    if n == 0 {
        r == 0
    } else {
        let e = r as nat / significand_unit();
        let m = r as nat % significand_unit();
        &&& 1023 <= e <= 1075
        &&& significand_unit() + m == n * two_pow((1075 - e) as nat)
    }
}

/// The bit pattern of the double equal to `n`.
pub open spec fn f64_bits_of(n: nat) -> u64 {
    choose|r: u64| is_f64_bits_of(r, n)
}

proof fn lemma_f64_bits_unique(r1: u64, r2: u64, n: nat)
    requires
        is_f64_bits_of(r1, n),
        is_f64_bits_of(r2, n),
    ensures
        r1 == r2,
{
    if n > 0 {
        let u = significand_unit();
        let e1 = r1 as nat / u;
        let e2 = r2 as nat / u;
        let m1 = r1 as nat % u;
        let m2 = r2 as nat % u;
        if e1 < e2 {
            let d = (e2 - e1) as nat;
            let lo = (1075 - e2) as nat;
            lemma_two_pow_add(d, lo);
            assert((1075 - e1) as nat == d + lo);
            lemma_two_pow_pos(lo);
            assert(two_pow(d) >= 2) by {
                lemma_two_pow_pos((d - 1) as nat);
            }
            assert(n * two_pow((1075 - e1) as nat) == two_pow(d) * (n * two_pow(lo))) by (nonlinear_arith)
                requires
                    two_pow((1075 - e1) as nat) == two_pow(d) * two_pow(lo),
            ;
            assert(two_pow(d) * (n * two_pow(lo)) >= 2 * (n * two_pow(lo))) by (nonlinear_arith)
                requires
                    two_pow(d) >= 2,
                    n * two_pow(lo) >= 0,
            ;
            assert(false);
        } else if e2 < e1 {
            let d = (e1 - e2) as nat;
            let lo = (1075 - e1) as nat;
            lemma_two_pow_add(d, lo);
            assert((1075 - e2) as nat == d + lo);
            lemma_two_pow_pos(lo);
            assert(two_pow(d) >= 2) by {
                lemma_two_pow_pos((d - 1) as nat);
            }
            assert(n * two_pow((1075 - e2) as nat) == two_pow(d) * (n * two_pow(lo))) by (nonlinear_arith)
                requires
                    two_pow((1075 - e2) as nat) == two_pow(d) * two_pow(lo),
            ;
            assert(two_pow(d) * (n * two_pow(lo)) >= 2 * (n * two_pow(lo))) by (nonlinear_arith)
                requires
                    two_pow(d) >= 2,
                    n * two_pow(lo) >= 0,
            ;
            assert(false);
        }
        assert(m1 == m2);
        assert(r1 as nat == e1 * u + m1) by (nonlinear_arith)
            requires
                u > 0,
                e1 == r1 as nat / u,
                m1 == r1 as nat % u,
        ;
        assert(r2 as nat == e2 * u + m2) by (nonlinear_arith)
            requires
                u > 0,
                e2 == r2 as nat / u,
                m2 == r2 as nat % u,
        ;
    }
}

proof fn lemma_scale_step(p: nat, pw: nat, scale: nat, nn: nat)
    requires
        p <= 52,
        pw == two_pow(p),
        scale == two_pow((52 - p) as nat),
        pw * scale == 0x10_0000_0000_0000,
        pw * 2 <= nn,
        nn < 0x1_0000_0000,
    ensures
        p < 52,
        scale % 2 == 0,
        two_pow(p + 1) == pw * 2,
        scale / 2 == two_pow((51 - p) as nat),
        (pw * 2) * (scale / 2) == 0x10_0000_0000_0000,
{
    if p >= 52 {
        assert(scale == 1);
        assert(pw == 0x10_0000_0000_0000) by (nonlinear_arith)
            requires
                scale == 1,
                pw * scale == 0x10_0000_0000_0000,
        ;
        assert(false);
    }
    assert(two_pow((52 - p) as nat) == 2 * two_pow((51 - p) as nat));
    assert(two_pow(p + 1) == 2 * two_pow(p));
    assert((pw * 2) * (scale / 2) == pw * scale) by (nonlinear_arith)
        requires
            scale % 2 == 0,
    ;
}

/// The double equal to a `u32` (every `u32` is exact in a double), as its bit pattern.
pub fn u32_to_f64_bits(n: u32) -> (r: u64)
    ensures
        is_f64_bits_of(r, n as nat),
        r == f64_bits_of(n as nat),
{
    if n == 0 {
        proof {
            assert(is_f64_bits_of(0u64, 0));
            lemma_f64_bits_unique(0u64, f64_bits_of(0), 0);
        }
        return 0;
    }
    let nn: u64 = n as u64;
    let mut p: u64 = 0;
    let mut pw: u64 = 1;
    let mut scale: u64 = 0x10_0000_0000_0000;
    proof {
        lemma_two_pow_52();
    }
    while pw <= nn / 2
        invariant
            1 <= pw <= nn,
            nn == n,
            nn < 0x1_0000_0000,
            p <= 52,
            pw == two_pow(p as nat),
            scale == two_pow((52 - p) as nat),
            pw * scale == 0x10_0000_0000_0000,
        decreases nn - pw,
    {
        proof {
            lemma_scale_step(p as nat, pw as nat, scale as nat, nn as nat);
        }
        pw = pw * 2;
        p = p + 1;
        scale = scale / 2;
    }
    let frac: u64 = nn - pw;
    assert(frac < pw);
    assert(frac * scale < 0x10_0000_0000_0000) by (nonlinear_arith)
        requires
            frac < pw,
            pw * scale == 0x10_0000_0000_0000,
    ;
    let m: u64 = frac * scale;
    let r: u64 = (1023 + p) * 0x10_0000_0000_0000 + m;
    proof {
        let u = significand_unit();
        assert(r as nat / u == 1023 + p && r as nat % u == m) by (nonlinear_arith)
            requires
                r as nat == (1023 + p) * u + m,
                m < u,
                u == 0x10_0000_0000_0000,
        ;
        assert(u + m == n * scale) by (nonlinear_arith)
            requires
                m == (n - pw) * scale,
                pw * scale == u,
        ;
        assert((1075 - (1023 + p)) as nat == (52 - p) as nat);
        assert(is_f64_bits_of(r, n as nat));
        lemma_f64_bits_unique(r, f64_bits_of(n as nat), n as nat);
    }
    r
}


/// The type a field is first logged with; it decides how the field reads back.
#[derive(Clone, Copy, PartialEq, Eq, Structural, Debug)]
pub enum KeyType {
    Int,
    Float,
    Str,
}

/// One logged value. Numbers arrive as the bit pattern of the `f64` they are stored as;
/// strings are interned through the codebook.
#[derive(Clone, Copy, Debug)]
pub enum Value<'a> {
    Int(u64),
    Float(u64),
    Str(&'a str),
}

/// The chars of each string.
pub open spec fn strings_view(v: Seq<String>) -> Seq<Seq<char>> {
    v.map_values(|s: String| s@)
}

/// Where `x` sits in `s`: its position when present, else the next free position.
pub open spec fn slot_of(s: Seq<Seq<char>>, x: Seq<char>) -> int {
    if s.contains(x) {
        s.index_of(x)
    } else {
        s.len() as int
    }
}

/// `s` with `x` appended unless already present.
pub open spec fn with_entry(s: Seq<Seq<char>>, x: Seq<char>) -> Seq<Seq<char>> {
    if s.contains(x) {
        s
    } else {
        s.push(x)
    }
}

/// The field `k` has a recorded type.
pub open spec fn is_typed(kt: Seq<(u16, KeyType)>, k: u16) -> bool {
    exists|j: int| 0 <= j < kt.len() && #[trigger] kt[j].0 == k
}

/// Record type `t` for field `k` unless the field is typed already (the first type wins).
pub open spec fn with_type(kt: Seq<(u16, KeyType)>, k: u16, t: KeyType) -> Seq<(u16, KeyType)> {
    if is_typed(kt, k) {
        kt
    } else {
        kt.push((k, t))
    }
}

/// `s` with `k` appended unless already present.
pub open spec fn with_key(s: Seq<u16>, k: u16) -> Seq<u16> {
    if s.contains(k) {
        s
    } else {
        s.push(k)
    }
}

/// No field is typed twice.
pub open spec fn typed_once(kt: Seq<(u16, KeyType)>) -> bool {
    forall|i: int, j: int| 0 <= i < kt.len() && 0 <= j < kt.len() && i != j ==> kt[i].0 != kt[j].0
}

/// The writer's state as plain values.
pub struct LogView {
    pub names: Seq<Seq<char>>,
    pub key_types: Seq<(u16, KeyType)>,
    pub str_keys: Seq<u16>,
    pub str_list: Seq<Seq<char>>,
    pub rids: Seq<u32>,
    pub keys: Seq<u16>,
    pub vals: Seq<u64>,
    pub row_count: u32,
}

/// Log one field of record `rid`: find or add its name, type it on first sight, intern a
/// string, and append the triple `(rid, key, value bits)`.
pub open spec fn field_step(m: LogView, rid: u32, name: Seq<char>, v: Value) -> LogView {
    let k = slot_of(m.names, name) as u16;
    let names = with_entry(m.names, name);
    match v {
        Value::Str(s) => LogView {
            names,
            key_types: with_type(m.key_types, k, KeyType::Str),
            str_keys: with_key(m.str_keys, k),
            str_list: with_entry(m.str_list, s@),
            rids: m.rids.push(rid),
            keys: m.keys.push(k),
            vals: m.vals.push(f64_bits_of(slot_of(m.str_list, s@) as nat)),
            row_count: m.row_count,
        },
        Value::Int(b) => LogView {
            names,
            key_types: with_type(m.key_types, k, KeyType::Int),
            rids: m.rids.push(rid),
            keys: m.keys.push(k),
            vals: m.vals.push(b),
            ..m
        },
        Value::Float(b) => LogView {
            names,
            key_types: with_type(m.key_types, k, KeyType::Float),
            rids: m.rids.push(rid),
            keys: m.keys.push(k),
            vals: m.vals.push(b),
            ..m
        },
    }
}

/// Log the first `rec.len()` fields of record `rid`, in order.
pub open spec fn fields_step(m: LogView, rid: u32, rec: Seq<(&str, Value)>) -> LogView
    decreases rec.len(),
{
    if rec.len() == 0 {
        m
    } else {
        let last = rec.last();
        field_step(fields_step(m, rid, rec.drop_last()), rid, last.0@, last.1)
    }
}

/// Log one record: its fields under the next record index, then count it.
pub open spec fn record_step(m: LogView, rec: Seq<(&str, Value)>) -> LogView {
    let after = fields_step(m, m.row_count, rec);
    LogView { row_count: (m.row_count + 1) as u32, ..after }
}

/// The writing side of the columnar log: the schema (field names and types), the string
/// codebook, and the buffer being filled. Moving full buffers to disk is the caller's.
pub struct SimLog {
    pub buffer_size: u32,
    pub names: Vec<String>,
    pub key_types: Vec<(u16, KeyType)>,
    pub str_keys: Vec<u16>,
    pub str_list: Vec<String>,
    pub active: Container,
}

impl View for SimLog {
    type V = LogView;

    open spec fn view(&self) -> LogView {
        LogView {
            names: strings_view(self.names@),
            key_types: self.key_types@,
            str_keys: self.str_keys@,
            str_list: strings_view(self.str_list@),
            rids: self.active.rids@,
            keys: self.active.keys@,
            vals: self.active.vals@,
            row_count: self.active.row_count,
        }
    }
}

impl SimLog {
    /// Field names and codebook entries are distinct, a field is typed once, and the
    /// triple columns have one length.
    pub open spec fn wf(&self) -> bool {
        &&& self@.names.no_duplicates()
        &&& self@.str_list.no_duplicates()
        &&& self@.str_keys.no_duplicates()
        &&& typed_once(self@.key_types)
        &&& self@.names.len() <= 0x1_0000
        &&& self@.str_list.len() <= 0x1_0000_0000
        &&& self@.keys.len() == self@.rids.len()
        &&& self@.vals.len() == self@.rids.len()
    }

    /// A writer with no fields, no strings and an empty buffer that counts as full after
    /// `buffer_size` records.
    pub fn new(buffer_size: u32) -> (r: Self)
        ensures
            r.wf(),
            r.buffer_size == buffer_size,
            r@.names.len() == 0,
            r@.key_types.len() == 0,
            r@.str_keys.len() == 0,
            r@.str_list.len() == 0,
            r.active.is_empty(),
    {
        let r = SimLog {
            buffer_size,
            names: Vec::new(),
            key_types: Vec::new(),
            str_keys: Vec::new(),
            str_list: Vec::new(),
            active: Container::new(),
        };
        assert(r@.names =~= Seq::empty());
        assert(r@.str_list =~= Seq::empty());
        r
    }
}

/// Position of `x` in `v`, adding it at the end when absent.
fn find_or_add(v: &mut Vec<String>, x: &str) -> (i: usize)
    requires
        strings_view(old(v)@).no_duplicates(),
        old(v)@.len() < usize::MAX,
    ensures
        strings_view(final(v)@) == with_entry(strings_view(old(v)@), x@),
        strings_view(final(v)@).no_duplicates(),
        i == slot_of(strings_view(old(v)@), x@),
        i < final(v)@.len(),
{
    let ghost sv = strings_view(v@);
    let owned = x.to_owned();
    let mut i: usize = 0;
    while i < v.len()
        invariant
            i <= v@.len(),
            sv == strings_view(v@),
            sv.no_duplicates(),
            owned@ == x@,
            forall|j: int| 0 <= j < i ==> sv[j] != x@,
        decreases v@.len() - i,
    {
        if v[i] == owned {
            proof {
                assert(sv[i as int] == x@);
                assert(sv.contains(x@));
                let c = sv.index_of(x@);
                assert(sv[c] == x@);
            }
            return i;
        }
        i += 1;
    }
    proof {
        assert(!sv.contains(x@));
    }
    v.push(owned);
    proof {
        assert(strings_view(v@) =~= sv.push(x@));
    }
    i
}

/// Record type `t` for field `k` unless the field already has one.
fn note_type(kt: &mut Vec<(u16, KeyType)>, k: u16, t: KeyType)
    requires
        typed_once(old(kt)@),
    ensures
        final(kt)@ == with_type(old(kt)@, k, t),
        typed_once(final(kt)@),
{
    let mut j: usize = 0;
    while j < kt.len()
        invariant
            j <= kt@.len(),
            typed_once(kt@),
            forall|q: int| 0 <= q < j ==> kt@[q].0 != k,
        decreases kt@.len() - j,
    {
        if kt[j].0 == k {
            proof {
                assert(is_typed(kt@, k));
            }
            return;
        }
        j += 1;
    }
    proof {
        assert(!is_typed(kt@, k));
    }
    kt.push((k, t));
}

/// Add `k` to `s` unless present.
fn note_key(s: &mut Vec<u16>, k: u16)
    requires
        old(s)@.no_duplicates(),
    ensures
        final(s)@ == with_key(old(s)@, k),
        final(s)@.no_duplicates(),
{
    let mut j: usize = 0;
    while j < s.len()
        invariant
            j <= s@.len(),
            s@.no_duplicates(),
            forall|q: int| 0 <= q < j ==> s@[q] != k,
        decreases s@.len() - j,
    {
        if s[j] == k {
            proof {
                assert(s@.contains(k));
            }
            return;
        }
        j += 1;
    }
    s.push(k);
}

impl SimLog {
    /// Log one field of record `rid`.
    fn log_field(&mut self, rid: u32, name: &str, v: Value)
        requires
            old(self).wf(),
            old(self)@.names.len() < 0x1_0000,
            old(self)@.str_list.len() < 0x1_0000_0000,
            old(self)@.str_list.len() < usize::MAX,
            old(self)@.rids.len() < usize::MAX,
        ensures
            final(self).wf(),
            final(self)@ == field_step(old(self)@, rid, name@, v),
            final(self).buffer_size == old(self).buffer_size,
    {
        let i = find_or_add(&mut self.names, name);
        let k = i as u16;
        match v {
            Value::Str(st) => {
                note_key(&mut self.str_keys, k);
                note_type(&mut self.key_types, k, KeyType::Str);
                let c = find_or_add(&mut self.str_list, st);
                let bits = u32_to_f64_bits(c as u32);
                self.active.rids.push(rid);
                self.active.keys.push(k);
                self.active.vals.push(bits);
            },
            Value::Int(b) => {
                note_type(&mut self.key_types, k, KeyType::Int);
                self.active.rids.push(rid);
                self.active.keys.push(k);
                self.active.vals.push(b);
            },
            Value::Float(b) => {
                note_type(&mut self.key_types, k, KeyType::Float);
                self.active.rids.push(rid);
                self.active.keys.push(k);
                self.active.vals.push(b);
            },
        }
    }

    /// Append one record: each field present becomes one triple under the next record
    /// index, and the record is counted. Returns whether the buffer is now full (holds
    /// `buffer_size` records or more), when the caller hands it off with [`SimLog::swap`].
    pub fn log(&mut self, record: &[(&str, Value)]) -> (full: bool)
        requires
            old(self).wf(),
            old(self)@.names.len() + record@.len() <= 0x1_0000,
            old(self)@.str_list.len() + record@.len() <= 0x1_0000_0000,
            old(self)@.str_list.len() + record@.len() < usize::MAX,
            old(self)@.rids.len() + record@.len() < usize::MAX,
            old(self)@.row_count < u32::MAX,
        ensures
            final(self).wf(),
            final(self)@ == record_step(old(self)@, record@),
            final(self).buffer_size == old(self).buffer_size,
            full == (final(self)@.row_count >= final(self).buffer_size),
    {
        let rid = self.active.row_count;
        let ghost m0 = self@;
        let mut i: usize = 0;
        while i < record.len()
            invariant
                i <= record@.len(),
                self.wf(),
                self.buffer_size == old(self).buffer_size,
                rid == m0.row_count,
                m0 == old(self)@,
                self@ == fields_step(m0, rid, record@.take(i as int)),
                self@.names.len() <= m0.names.len() + i,
                self@.str_list.len() <= m0.str_list.len() + i,
                self@.rids.len() == m0.rids.len() + i,
                m0.names.len() + record@.len() <= 0x1_0000,
                m0.str_list.len() + record@.len() <= 0x1_0000_0000,
                m0.str_list.len() + record@.len() < usize::MAX,
                m0.rids.len() + record@.len() < usize::MAX,
            decreases record@.len() - i,
        {
            let (name, v) = record[i];
            proof {
                assert(record@.take(i + 1).drop_last() == record@.take(i as int));
                assert(record@.take(i + 1).last() == record@[i as int]);
            }
            self.log_field(rid, name, v);
            i += 1;
            proof {
                lemma_field_step_growth(fields_step(m0, rid, record@.take(i - 1)), rid, name@, v);
            }
        }
        proof {
            assert(record@.take(record@.len() as int) == record@);
        }
        self.active.row_count = rid + 1;
        self.active.row_count >= self.buffer_size
    }
}

proof fn lemma_field_step_growth(m: LogView, rid: u32, name: Seq<char>, v: Value)
    ensures
        field_step(m, rid, name, v).names.len() <= m.names.len() + 1,
        field_step(m, rid, name, v).str_list.len() <= m.str_list.len() + 1,
        field_step(m, rid, name, v).rids.len() == m.rids.len() + 1,
{
}

impl SimLog {
    /// Hand over the full buffer and continue filling `fresh`, an emptied one.
    pub fn swap(&mut self, fresh: Container) -> (full: Container)
        requires
            old(self).wf(),
            fresh.is_empty(),
        ensures
            final(self).wf(),
            full == old(self).active,
            final(self).active == fresh,
            final(self).names == old(self).names,
            final(self).key_types == old(self).key_types,
            final(self).str_keys == old(self).str_keys,
            final(self).str_list == old(self).str_list,
            final(self).buffer_size == old(self).buffer_size,
    {
        let mut full = fresh;
        std::mem::swap(&mut self.active, &mut full);
        full
    }

    /// On close: the part-filled buffer, if it holds any record, replaced by an empty one.
    pub fn take_tail(&mut self) -> (tail: Option<Container>)
        requires
            old(self).wf(),
        ensures
            final(self).wf(),
            tail is Some <==> old(self).active.row_count > 0,
            tail matches Some(c) ==> c == old(self).active && final(self).active.is_empty(),
            tail is None ==> final(self).active == old(self).active,
            final(self).names == old(self).names,
            final(self).key_types == old(self).key_types,
            final(self).str_keys == old(self).str_keys,
            final(self).str_list == old(self).str_list,
            final(self).buffer_size == old(self).buffer_size,
    {
        if self.active.row_count > 0 {
            let mut full = Container::new();
            std::mem::swap(&mut self.active, &mut full);
            Some(full)
        } else {
            None
        }
    }

    /// The bytes of the schema and codebook sidecar.
    pub fn meta_bytes(&self) -> (r: Vec<u8>)
        requires
            self.wf(),
        ensures
            r@ == meta_encoding(self.buffer_size, self@),
    {
        let mut b = ByteWriter::new();
        b.u32(self.buffer_size);
        b.u32(self.names.len() as u32);
        write_strings(&mut b, &self.names);
        b.u32(self.key_types.len() as u32);
        let ghost head = b.0@;
        let mut i: usize = 0;
        while i < self.key_types.len()
            invariant
                i <= self.key_types@.len(),
                b.0@ == head + key_types_bytes(self.key_types@.take(i as int)),
            decreases self.key_types@.len() - i,
        {
            let (k, t) = self.key_types[i];
            assert(self.key_types@.take(i + 1).drop_last() == self.key_types@.take(i as int));
            b.u16(k);
            b.u8(type_tag(t));
            i += 1;
        }
        assert(self.key_types@.take(self.key_types@.len() as int) == self.key_types@);
        b.u32(self.str_keys.len() as u32);
        let ghost head = b.0@;
        let mut i: usize = 0;
        while i < self.str_keys.len()
            invariant
                i <= self.str_keys@.len(),
                b.0@ == head + u16s_bytes(self.str_keys@.take(i as int)),
            decreases self.str_keys@.len() - i,
        {
            assert(self.str_keys@.take(i + 1).drop_last() == self.str_keys@.take(i as int));
            b.u16(self.str_keys[i]);
            i += 1;
        }
        assert(self.str_keys@.take(self.str_keys@.len() as int) == self.str_keys@);
        b.u32(self.str_list.len() as u32);
        write_strings(&mut b, &self.str_list);
        b.0
    }
}

/// The byte that records a field's type in the sidecar.
pub open spec fn type_tag_spec(t: KeyType) -> u8 {
    match t {
        KeyType::Int => 105u8,
        KeyType::Float => 102u8,
        KeyType::Str => 115u8,
    }
}

/// `b'i'`, `b'f'` or `b's'`.
#[verifier::when_used_as_spec(type_tag_spec)]
pub fn type_tag(t: KeyType) -> (r: u8)
    ensures
        r == type_tag_spec(t),
{
    match t {
        KeyType::Int => 105u8,
        KeyType::Float => 102u8,
        KeyType::Str => 115u8,
    }
}

/// Length-prefixed records of each string, back to back.
pub open spec fn strings_bytes(ss: Seq<Seq<char>>) -> Seq<u8>
    decreases ss.len(),
{
    if ss.len() == 0 {
        Seq::empty()
    } else {
        strings_bytes(ss.drop_last()) + str_record(ss.last())
    }
}

/// Each `(field, type)` as the field's u16 then the type's tag byte.
pub open spec fn key_types_bytes(kt: Seq<(u16, KeyType)>) -> Seq<u8>
    decreases kt.len(),
{
    if kt.len() == 0 {
        Seq::empty()
    } else {
        key_types_bytes(kt.drop_last()) + spec_u16_to_le_bytes(kt.last().0) + seq![type_tag_spec(kt.last().1)]
    }
}

/// The sidecar: `[buffer_size u32]`, then the field names, the `(field, type)` pairs, the
/// string-valued fields and the codebook, each list preceded by its length as a u32.
pub open spec fn meta_encoding(buffer_size: u32, m: LogView) -> Seq<u8> {
    spec_u32_to_le_bytes(buffer_size)
        + spec_u32_to_le_bytes(m.names.len() as u32) + strings_bytes(m.names)
        + spec_u32_to_le_bytes(m.key_types.len() as u32) + key_types_bytes(m.key_types)
        + spec_u32_to_le_bytes(m.str_keys.len() as u32) + u16s_bytes(m.str_keys)
        + spec_u32_to_le_bytes(m.str_list.len() as u32) + strings_bytes(m.str_list)
}

fn write_strings(b: &mut ByteWriter, v: &Vec<String>)
    ensures
        final(b).0@ == old(b).0@ + strings_bytes(strings_view(v@)),
{
    let ghost head = b.0@;
    let mut i: usize = 0;
    while i < v.len()
        invariant
            i <= v@.len(),
            b.0@ == head + strings_bytes(strings_view(v@).take(i as int)),
        decreases v@.len() - i,
    {
        assert(strings_view(v@).take(i + 1).drop_last() == strings_view(v@).take(i as int));
        b.string(v[i].as_str());
        i += 1;
    }
    assert(strings_view(v@).take(v@.len() as int) == strings_view(v@));
}

/// Logging a field only appends to the schema and the codebook: every field name, every
/// recorded type and every codebook entry stays at its position (so a field keeps the type
/// it was first logged with, and codes never change), and the field's key names it.
pub proof fn schema_only_grows(m: LogView, rid: u32, name: Seq<char>, v: Value)
    requires
        m.names.no_duplicates(),
    ensures
        ({
            let m2 = field_step(m, rid, name, v);
            let k = slot_of(m.names, name);
            &&& m.names.len() <= m2.names.len()
            &&& m2.names.subrange(0, m.names.len() as int) == m.names
            &&& m.key_types.len() <= m2.key_types.len()
            &&& m2.key_types.subrange(0, m.key_types.len() as int) == m.key_types
            &&& m.str_list.len() <= m2.str_list.len()
            &&& m2.str_list.subrange(0, m.str_list.len() as int) == m.str_list
            &&& 0 <= k < m2.names.len()
            &&& m2.names[k] == name
            &&& m2.keys.last() == k as u16
        }),
{
    let m2 = field_step(m, rid, name, v);
    if m.names.contains(name) {
        let k = m.names.index_of(name);
        assert(m.names[k] == name);
    }
    assert(m2.names.subrange(0, m.names.len() as int) =~= m.names);
    assert(m2.key_types.subrange(0, m.key_types.len() as int) =~= m.key_types);
    assert(m2.str_list.subrange(0, m.str_list.len() as int) =~= m.str_list);
}

/// A logged string is stored as its code: the code is the string's position in the
/// codebook, the codebook holds no string twice, and the value stored is the double
/// equal to the code.
pub proof fn string_stored_as_code(m: LogView, rid: u32, name: Seq<char>, s: &str)
    requires
        m.str_list.no_duplicates(),
    ensures
        ({
            let m2 = field_step(m, rid, name, Value::Str(s));
            let c = slot_of(m.str_list, s@);
            &&& 0 <= c < m2.str_list.len()
            &&& m2.str_list[c] == s@
            &&& m2.str_list.no_duplicates()
            &&& forall|j: int| 0 <= j < m2.str_list.len() && m2.str_list[j] == s@ ==> j == c
            &&& m2.vals.last() == f64_bits_of(c as nat)
            &&& m2.key_types == with_type(m.key_types, slot_of(m.names, name) as u16, KeyType::Str)
        }),
{
    let m2 = field_step(m, rid, name, Value::Str(s));
    if m.str_list.contains(s@) {
        let c = m.str_list.index_of(s@);
        assert(m.str_list[c] == s@);
    } else {
        assert forall|i: int, j: int| 0 <= i < m2.str_list.len() && 0 <= j < m2.str_list.len() && i != j
            implies m2.str_list[i] != m2.str_list[j] by {
            if i < m.str_list.len() && j < m.str_list.len() {
            } else if i == m.str_list.len() {
                assert(m.str_list[j] != s@);
            } else {
                assert(m.str_list[i] != s@);
            }
        }
    }
}


/// `s` with each of `xs` appended in turn unless already present.
pub open spec fn with_entries(s: Seq<Seq<char>>, xs: Seq<Seq<char>>) -> Seq<Seq<char>>
    decreases xs.len(),
{
    if xs.len() == 0 {
        s
    } else {
        with_entry(with_entries(s, xs.drop_last()), xs.last())
    }
}

/// The field names of a record, in order.
pub open spec fn names_of(rec: Seq<(&str, Value)>) -> Seq<Seq<char>> {
    rec.map_values(|f: (&str, Value)| f.0@)
}

/// The string values of a record, in order.
pub open spec fn strings_of(rec: Seq<(&str, Value)>) -> Seq<Seq<char>>
    decreases rec.len(),
{
    if rec.len() == 0 {
        Seq::empty()
    } else {
        strings_of(rec.drop_last()) + match rec.last().1 {
            Value::Str(s) => seq![s@],
            _ => Seq::empty(),
        }
    }
}

/// The writer after logging `recs` in order.
pub open spec fn log_run(m: LogView, recs: Seq<Seq<(&str, Value)>>) -> LogView
    decreases recs.len(),
{
    if recs.len() == 0 {
        m
    } else {
        record_step(log_run(m, recs.drop_last()), recs.last())
    }
}

/// Every field name of a run, record after record.
pub open spec fn run_names(recs: Seq<Seq<(&str, Value)>>) -> Seq<Seq<char>>
    decreases recs.len(),
{
    if recs.len() == 0 {
        Seq::empty()
    } else {
        run_names(recs.drop_last()) + names_of(recs.last())
    }
}

/// Every string value of a run, record after record.
pub open spec fn run_strings(recs: Seq<Seq<(&str, Value)>>) -> Seq<Seq<char>>
    decreases recs.len(),
{
    if recs.len() == 0 {
        Seq::empty()
    } else {
        run_strings(recs.drop_last()) + strings_of(recs.last())
    }
}

proof fn lemma_with_entries_concat(s: Seq<Seq<char>>, a: Seq<Seq<char>>, b: Seq<Seq<char>>)
    ensures
        with_entries(s, a + b) == with_entries(with_entries(s, a), b),
    decreases b.len(),
{
    if b.len() == 0 {
        assert(a + b =~= a);
    } else {
        assert((a + b).drop_last() =~= a + b.drop_last());
        assert((a + b).last() == b.last());
        lemma_with_entries_concat(s, a, b.drop_last());
    }
}

proof fn lemma_fields_lists(m: LogView, rid: u32, rec: Seq<(&str, Value)>)
    ensures
        fields_step(m, rid, rec).names == with_entries(m.names, names_of(rec)),
        fields_step(m, rid, rec).str_list == with_entries(m.str_list, strings_of(rec)),
    decreases rec.len(),
{
    if rec.len() > 0 {
        lemma_fields_lists(m, rid, rec.drop_last());
        assert(names_of(rec).drop_last() =~= names_of(rec.drop_last()));
        let pre = fields_step(m, rid, rec.drop_last());
        match rec.last().1 {
            Value::Str(s) => {
                lemma_with_entries_concat(m.str_list, strings_of(rec.drop_last()), seq![s@]);
                assert(with_entries(pre.str_list, seq![s@]) == with_entry(
                    with_entries(pre.str_list, seq![s@].drop_last()),
                    s@,
                ));
                assert(seq![s@].drop_last() =~= Seq::<Seq<char>>::empty());
            },
            _ => {
                assert(strings_of(rec) =~= strings_of(rec.drop_last()));
            },
        }
    }
}

/// Over a whole run the field names are the distinct names of the fields logged, and the
/// codebook the distinct strings logged, each in order of first appearance: logging
/// record after record extends both lists name by name (string by string), appending
/// only what is new.
pub proof fn lists_follow_the_run(m: LogView, recs: Seq<Seq<(&str, Value)>>)
    ensures
        log_run(m, recs).names == with_entries(m.names, run_names(recs)),
        log_run(m, recs).str_list == with_entries(m.str_list, run_strings(recs)),
    decreases recs.len(),
{
    if recs.len() > 0 {
        let pre = log_run(m, recs.drop_last());
        lists_follow_the_run(m, recs.drop_last());
        lemma_fields_lists(pre, pre.row_count, recs.last());
        lemma_with_entries_concat(m.names, run_names(recs.drop_last()), names_of(recs.last()));
        lemma_with_entries_concat(m.str_list, run_strings(recs.drop_last()), strings_of(recs.last()));
    }
}

/// `a` occurs in `xs` before the first occurrence of `b`.
pub open spec fn appears_before(xs: Seq<Seq<char>>, a: Seq<char>, b: Seq<char>) -> bool {
    exists|p: int| 0 <= p < xs.len() && #[trigger] xs[p] == a && forall|q: int| 0 <= q <= p ==> xs[q] != b
}

/// Each entry of `r` occurs in `xs` before the first occurrence of every later entry.
pub open spec fn in_first_appearance_order(r: Seq<Seq<char>>, xs: Seq<Seq<char>>) -> bool {
    forall|i: int, j: int| 0 <= i < j < r.len() ==> #[trigger] appears_before(xs, r[i], r[j])
}

/// The list built from nothing by [`with_entries`] holds each item of `xs` once, nothing
/// else, and in order of first appearance: an entry comes before another exactly when
/// it occurs in `xs` before the other's first occurrence.
pub proof fn first_appearance_order(xs: Seq<Seq<char>>)
    ensures
        ({
            let r = with_entries(Seq::empty(), xs);
            &&& r.no_duplicates()
            &&& forall|x: Seq<char>| #[trigger] r.contains(x) <==> xs.contains(x)
            &&& in_first_appearance_order(r, xs)
        }),
    decreases xs.len(),
{
    if xs.len() > 0 {
        let pre = xs.drop_last();
        let x = xs.last();
        first_appearance_order(pre);
        let r0 = with_entries(Seq::<Seq<char>>::empty(), pre);
        let r = with_entries(Seq::<Seq<char>>::empty(), xs);
        assert(r == with_entry(r0, x));
        assert forall|y: Seq<char>| #[trigger] r.contains(y) <==> xs.contains(y) by {
            if r.contains(y) {
                let k = choose|k: int| 0 <= k < r.len() && r[k] == y;
                if k < r0.len() {
                    assert(r0[k] == y);
                    assert(r0.contains(y));
                    let p = choose|p: int| 0 <= p < pre.len() && pre[p] == y;
                    assert(xs[p] == y);
                } else {
                    assert(y == x);
                    assert(xs[xs.len() - 1] == x);
                }
            }
            if xs.contains(y) {
                let p = choose|p: int| 0 <= p < xs.len() && xs[p] == y;
                if p < pre.len() {
                    assert(pre[p] == y);
                    assert(pre.contains(y));
                    assert(r0.contains(y));
                    let k = choose|k: int| 0 <= k < r0.len() && r0[k] == y;
                    assert(r[k] == y);
                } else if r0.contains(x) {
                    assert(y == x);
                } else {
                    assert(y == x);
                    assert(r[r0.len() as int] == x);
                }
            }
        }
        assert(r.no_duplicates()) by {
            if !r0.contains(x) {
                assert forall|a: int, b: int| 0 <= a < r.len() && 0 <= b < r.len() && a != b implies r[a] != r[b] by {
                    if a < r0.len() && b < r0.len() {
                        assert(r[a] == r0[a] && r[b] == r0[b]);
                    } else if a < r0.len() {
                        assert(r[a] == r0[a]);
                        assert(r0.contains(r0[a]));
                    } else if b < r0.len() {
                        assert(r[b] == r0[b]);
                        assert(r0.contains(r0[b]));
                    }
                }
            }
        }
        assert forall|i: int, j: int| 0 <= i < j < r.len() implies #[trigger] appears_before(xs, r[i], r[j]) by {
            assert(r[i] == r0[i]);
            if j < r0.len() {
                assert(r[j] == r0[j]);
                assert(appears_before(pre, r0[i], r0[j]));
                let p = choose|p: int| 0 <= p < pre.len() && #[trigger] pre[p] == r0[i] && forall|q: int| 0 <= q <= p ==> pre[q] != r0[j];
                assert(xs[p] == pre[p]);
                assert forall|q: int| 0 <= q <= p implies xs[q] != r[j] by {
                    assert(xs[q] == pre[q]);
                }
            } else {
                assert(!r0.contains(x));
                assert(r[j] == x);
                assert(r0.contains(r0[i]));
                let p = choose|p: int| 0 <= p < pre.len() && pre[p] == r0[i];
                assert(xs[p] == pre[p]);
                assert forall|q: int| 0 <= q <= p implies xs[q] != r[j] by {
                    assert(xs[q] == pre[q]);
                    assert(pre.contains(pre[q]));
                }
            }
        }
        assert(in_first_appearance_order(r, xs));
    } else {
        assert(with_entries(Seq::<Seq<char>>::empty(), xs) =~= Seq::<Seq<char>>::empty());
    }
}


proof fn lemma_with_entry_distinct(s: Seq<Seq<char>>, x: Seq<char>)
    requires
        s.no_duplicates(),
    ensures
        with_entry(s, x).no_duplicates(),
        with_entry(s, x).subrange(0, s.len() as int) == s,
        0 <= slot_of(s, x) < with_entry(s, x).len(),
        slot_of(s, x) <= s.len(),
        with_entry(s, x)[slot_of(s, x)] == x,
        with_entry(s, x).len() <= s.len() + 1,
{
    let r = with_entry(s, x);
    assert(r.subrange(0, s.len() as int) =~= s);
    if s.contains(x) {
        let k = s.index_of(x);
        assert(s[k] == x);
    } else {
        assert forall|a: int, b: int| 0 <= a < r.len() && 0 <= b < r.len() && a != b implies r[a] != r[b] by {
            if a < s.len() && b < s.len() {
            } else if a < s.len() {
                assert(s.contains(s[a]));
            } else if b < s.len() {
                assert(s.contains(s[b]));
            }
        }
    }
}

/// The record index of each field a run logs, counting records from `start`.
pub open spec fn run_rids(start: int, recs: Seq<Seq<(&str, Value)>>) -> Seq<u32>
    decreases recs.len(),
{
    if recs.len() == 0 {
        Seq::empty()
    } else {
        run_rids(start, recs.drop_last()) + Seq::new(recs.last().len(), |_t: int| (start + recs.len() - 1) as u32)
    }
}

/// What the triple columns say of fields logged since `base` triples: each key names
/// the logged field in `names`.
pub open spec fn keys_name(names: Seq<Seq<char>>, keys: Seq<u16>, base: int, fields: Seq<Seq<char>>) -> bool {
    &&& keys.len() == base + fields.len()
    &&& forall|t: int| 0 <= t < fields.len() ==> #[trigger] keys[base + t] < names.len() && names[keys[base + t] as int] == fields[t]
}

proof fn lemma_fields_triples(m: LogView, rid: u32, rec: Seq<(&str, Value)>)
    requires
        m.names.no_duplicates(),
        m.names.len() + rec.len() <= 0x1_0000,
    ensures
        ({
            let f = fields_step(m, rid, rec);
            &&& f.names.no_duplicates()
            &&& f.names.len() <= m.names.len() + rec.len()
            &&& m.names.len() <= f.names.len()
            &&& f.names.subrange(0, m.names.len() as int) == m.names
            &&& f.rids == m.rids + Seq::new(rec.len(), |_t: int| rid)
            &&& f.keys.subrange(0, m.keys.len() as int) == m.keys
            &&& keys_name(f.names, f.keys, m.keys.len() as int, names_of(rec))
            &&& f.row_count == m.row_count
        }),
    decreases rec.len(),
{
    let f = fields_step(m, rid, rec);
    if rec.len() == 0 {
        assert(f.rids =~= m.rids + Seq::new(0, |_t: int| rid));
        assert(f.keys.subrange(0, m.keys.len() as int) =~= m.keys);
        assert(f.names.subrange(0, m.names.len() as int) =~= m.names);
    } else {
        let pre = rec.drop_last();
        let g = fields_step(m, rid, pre);
        lemma_fields_triples(m, rid, pre);
        let name = rec.last().0@;
        lemma_with_entry_distinct(g.names, name);
        let k = slot_of(g.names, name);
        assert(f == field_step(g, rid, name, rec.last().1));
        assert(f.names == with_entry(g.names, name));
        assert(f.keys == g.keys.push(k as u16));
        assert(f.rids == g.rids.push(rid));
        assert(k < 0x1_0000);
        assert(f.rids =~= m.rids + Seq::new(rec.len(), |_t: int| rid));
        assert(f.keys.subrange(0, m.keys.len() as int) =~= m.keys) by {
            assert forall|i: int| 0 <= i < m.keys.len() implies f.keys[i] == m.keys[i] by {
                assert(g.keys.subrange(0, m.keys.len() as int)[i] == g.keys[i]);
            }
        }
        assert(f.names.subrange(0, m.names.len() as int) =~= m.names) by {
            assert forall|i: int| 0 <= i < m.names.len() implies f.names[i] == m.names[i] by {
                assert(f.names.subrange(0, g.names.len() as int)[i] == f.names[i]);
                assert(g.names.subrange(0, m.names.len() as int)[i] == g.names[i]);
            }
        }
        assert(names_of(rec).drop_last() =~= names_of(pre));
        let base = m.keys.len() as int;
        assert forall|t: int| 0 <= t < names_of(rec).len() implies #[trigger] f.keys[base + t] < f.names.len()
            && f.names[f.keys[base + t] as int] == names_of(rec)[t] by {
            if t < pre.len() {
                assert(f.keys[base + t] == g.keys[base + t]);
                assert(names_of(rec)[t] == names_of(pre)[t]);
                let kk = g.keys[base + t] as int;
                assert(f.names.subrange(0, g.names.len() as int)[kk] == f.names[kk]);
            } else {
                assert(t == pre.len());
                assert(f.keys[base + t] == k as u16);
            }
        }
    }
}

/// A whole logging run appends one triple per field logged, in order: the record's index
/// (counted from the writer's record count) and a key whose entry in the final list of
/// field names is the field's name; earlier triples and names stay as they were.
pub proof fn triples_follow_the_run(m: LogView, recs: Seq<Seq<(&str, Value)>>)
    requires
        m.names.no_duplicates(),
        m.keys.len() == m.rids.len(),
        m.names.len() + run_names(recs).len() <= 0x1_0000,
        m.row_count + recs.len() <= u32::MAX,
    ensures
        ({
            let f = log_run(m, recs);
            &&& f.names.no_duplicates()
            &&& f.row_count == m.row_count + recs.len()
            &&& f.rids == m.rids + run_rids(m.row_count as int, recs)
            &&& f.keys.subrange(0, m.keys.len() as int) == m.keys
            &&& keys_name(f.names, f.keys, m.keys.len() as int, run_names(recs))
            &&& f.names.subrange(0, m.names.len() as int) == m.names
            &&& m.names.len() <= f.names.len()
            &&& f.names.len() <= m.names.len() + run_names(recs).len()
        }),
    decreases recs.len(),
{
    let f = log_run(m, recs);
    if recs.len() == 0 {
        assert(f.rids =~= m.rids + run_rids(m.row_count as int, recs));
        assert(f.keys.subrange(0, m.keys.len() as int) =~= m.keys);
        assert(f.names.subrange(0, m.names.len() as int) =~= m.names);
    } else {
        let pre = recs.drop_last();
        let rec = recs.last();
        assert(run_names(recs) == run_names(pre) + names_of(rec));
        let g = log_run(m, pre);
        triples_follow_the_run(m, pre);
        lemma_fields_triples(g, g.row_count, rec);
        let h = fields_step(g, g.row_count, rec);
        assert(f == LogView { row_count: (g.row_count + 1) as u32, ..h });
        assert(f.rids =~= m.rids + run_rids(m.row_count as int, recs)) by {
            assert(run_rids(m.row_count as int, recs) == run_rids(m.row_count as int, pre) + Seq::new(
                rec.len(),
                |_t: int| (m.row_count + recs.len() - 1) as u32,
            ));
            assert(g.row_count == m.row_count + pre.len());
        }
        assert(f.keys.subrange(0, m.keys.len() as int) =~= m.keys) by {
            assert forall|i: int| 0 <= i < m.keys.len() implies f.keys[i] == m.keys[i] by {
                assert(h.keys.subrange(0, g.keys.len() as int)[i] == h.keys[i]);
                assert(g.keys.subrange(0, m.keys.len() as int)[i] == g.keys[i]);
            }
        }
        assert(f.names.subrange(0, m.names.len() as int) =~= m.names) by {
            assert forall|i: int| 0 <= i < m.names.len() implies f.names[i] == m.names[i] by {
                assert(h.names.subrange(0, g.names.len() as int)[i] == h.names[i]);
                assert(g.names.subrange(0, m.names.len() as int)[i] == g.names[i]);
            }
        }
        let base = m.keys.len() as int;
        let gb = g.keys.len() as int;
        assert forall|t: int| 0 <= t < run_names(recs).len() implies #[trigger] f.keys[base + t] < f.names.len()
            && f.names[f.keys[base + t] as int] == run_names(recs)[t] by {
            if t < run_names(pre).len() {
                assert(f.keys[base + t] == g.keys[base + t]) by {
                    assert(h.keys.subrange(0, g.keys.len() as int)[base + t] == h.keys[base + t]);
                }
                assert(run_names(recs)[t] == run_names(pre)[t]);
                let kk = g.keys[base + t] as int;
                assert(h.names.subrange(0, g.names.len() as int)[kk] == h.names[kk]);
            } else {
                let u = t - run_names(pre).len();
                assert(gb == base + run_names(pre).len());
                assert(run_names(recs)[t] == names_of(rec)[u]);
                assert(f.keys[gb + u] < f.names.len() && f.names[f.keys[gb + u] as int] == names_of(rec)[u]);
            }
        }
    }
}

} // verus!
