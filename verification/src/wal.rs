use vstd::prelude::*;
use vstd::bytes::{
    lemma_auto_spec_u32_to_from_le_bytes, lemma_auto_spec_u64_to_from_le_bytes,
    spec_u32_from_le_bytes, spec_u32_to_le_bytes, spec_u64_from_le_bytes, spec_u64_to_le_bytes,
    u32_from_le_bytes, u32_to_le_bytes, u64_from_le_bytes, u64_to_le_bytes,
};
use vstd::slice::slice_subrange;

verus! {

/// The reflected CRC-32 polynomial.
pub const CRC32_POLY: u32 = 0xEDB8_8320;

/// One bit-step of the reflected CRC-32 shift register.
pub open spec fn crc_bit(c: u32) -> u32 {
    if c & 1 != 0 {
        (c >> 1) ^ CRC32_POLY
    } else {
        c >> 1
    }
}

/// `k` bit-steps of the shift register.
pub open spec fn crc_bits(c: u32, k: nat) -> u32
    decreases k,
{
    if k == 0 {
        c
    } else {
        crc_bit(crc_bits(c, (k - 1) as nat))
    }
}

/// The register after folding in every byte of `data`, starting from `c`.
pub open spec fn crc_fold(c: u32, data: Seq<u8>) -> u32
    decreases data.len(),
{
    if data.len() == 0 {
        c
    } else {
        crc_bits(crc_fold(c, data.drop_last()) ^ (data.last() as u32), 8)
    }
}

/// CRC-32 (IEEE, reflected) of `data`.
pub open spec fn crc32_spec(data: Seq<u8>) -> u32 {
    !crc_fold(0xFFFF_FFFF, data)
}

/// CRC-32 checksum: the commit marker of a batch.
pub fn crc32(data: &[u8]) -> (r: u32)
    ensures
        r == crc32_spec(data@),
{
    let mut crc: u32 = 0xFFFF_FFFF;
    let mut i: usize = 0;
    while i < data.len()
        invariant
            i <= data@.len(),
            crc == crc_fold(0xFFFF_FFFF, data@.take(i as int)),
        decreases data@.len() - i,
    {
        let ghost start = crc ^ (data@[i as int] as u32);
        crc = crc ^ (data[i] as u32);
        let mut k: u32 = 0;
        while k < 8
            invariant
                k <= 8,
                crc == crc_bits(start, k as nat),
            decreases 8 - k,
        {
            crc = if crc & 1 != 0 {
                (crc >> 1) ^ CRC32_POLY
            } else {
                crc >> 1
            };
            k += 1;
        }
        assert(data@.take(i + 1).drop_last() == data@.take(i as int));
        assert(data@.take(i + 1).last() == data@[i as int]);
        i += 1;
    }
    assert(data@.take(data@.len() as int) == data@);
    !crc
}

/// FNV-style mixing of one event into the world state.
pub open spec fn apply_spec(world: u64, ev: u64) -> u64 {
    vstd::wrapping::u64_specs::wrapping_mul(world ^ ev, 0x0100_0000_01b3)
}

/// The world after applying `events` in order.
pub open spec fn fold_events(world: u64, events: Seq<u64>) -> u64
    decreases events.len(),
{
    if events.len() == 0 {
        world
    } else {
        apply_spec(fold_events(world, events.drop_last()), events.last())
    }
}

/// Apply one event to the world: the world is a fold over events.
pub fn apply(world: u64, ev: u64) -> (r: u64)
    ensures
        r == apply_spec(world, ev),
{
    (world ^ ev).wrapping_mul(0x0100_0000_01b3)
}

/// Little-endian bytes of each event, back to back.
pub open spec fn events_bytes(evs: Seq<u64>) -> Seq<u8>
    decreases evs.len(),
{
    if evs.len() == 0 {
        Seq::empty()
    } else {
        events_bytes(evs.drop_last()) + spec_u64_to_le_bytes(evs.last())
    }
}

/// A batch without its marker: the event count, then the events.
pub open spec fn batch_body(evs: Seq<u64>) -> Seq<u8> {
    spec_u32_to_le_bytes(evs.len() as u32) + events_bytes(evs)
}

/// A batch on disk: `[n: u32][events: u64 * n][crc32 of what precedes: u32]`.
pub open spec fn batch_encoding(evs: Seq<u64>) -> Seq<u8> {
    batch_body(evs) + spec_u32_to_le_bytes(crc32_spec(batch_body(evs)))
}

/// Encode one batch with its commit marker.
pub fn batch_bytes(evs: &[u64]) -> (r: Vec<u8>)
    ensures
        r@ == batch_encoding(evs@),
{
    let mut buf = u32_to_le_bytes(evs.len() as u32);
    let mut i: usize = 0;
    while i < evs.len()
        invariant
            i <= evs@.len(),
            buf@ == spec_u32_to_le_bytes(evs@.len() as u32) + events_bytes(evs@.take(i as int)),
        decreases evs@.len() - i,
    {
        let mut b = u64_to_le_bytes(evs[i]);
        let ghost old_buf = buf@;
        buf.append(&mut b);
        assert(evs@.take(i + 1).drop_last() == evs@.take(i as int));
        assert(buf@ == old_buf + spec_u64_to_le_bytes(evs@[i as int]));
        i += 1;
    }
    assert(evs@.take(evs@.len() as int) == evs@);
    let crc = crc32(buf.as_slice());
    let mut tail = u32_to_le_bytes(crc);
    buf.append(&mut tail);
    buf
}

/// Decoded events of a batch body whose header announced `nev` events.
pub open spec fn body_events(body: Seq<u8>, nev: nat) -> Seq<u64> {
    Seq::new(nev, |k: int| spec_u64_from_le_bytes(body.subrange(4 + 8 * k, 4 + 8 * k + 8)))
}

/// Recovery over the bytes still to scan: apply each batch whose marker verifies, stop at
/// the first batch that is truncated or whose marker fails. Returns the world and the
/// number of batches applied.
pub open spec fn recover_spec(bytes: Seq<u8>, world: u64, n: nat) -> (u64, nat)
    decreases bytes.len(),
{
    if bytes.len() < 4 {
        (world, n)
    } else {
        let nev = spec_u32_from_le_bytes(bytes.subrange(0, 4)) as nat;
        let body_len: int = 4 + nev as int * 8;
        if body_len + 4 > bytes.len() {
            (world, n)
        } else {
            let body = bytes.subrange(0, body_len);
            let crc = spec_u32_from_le_bytes(bytes.subrange(body_len, body_len + 4));
            if crc32_spec(body) != crc {
                (world, n)
            } else {
                recover_spec(
                    bytes.skip(body_len + 4),
                    fold_events(world, body_events(body, nev)),
                    n + 1,
                )
            }
        }
    }
}

pub(crate) fn read_u32_at(bytes: &[u8], pos: usize) -> (r: u32)
    requires
        pos + 4 <= bytes.len(),
    ensures
        r == spec_u32_from_le_bytes(bytes@.subrange(pos as int, pos + 4)),
{
    u32_from_le_bytes(slice_subrange(bytes, pos, pos + 4))
}

pub(crate) fn read_u64_at(bytes: &[u8], pos: usize) -> (r: u64)
    requires
        pos + 8 <= bytes.len(),
    ensures
        r == spec_u64_from_le_bytes(bytes@.subrange(pos as int, pos + 8)),
{
    u64_from_le_bytes(slice_subrange(bytes, pos, pos + 8))
}

/// Recover from the bytes of a log: apply every batch whose marker verifies; stop at the
/// first torn or incomplete one. Returns the recovered world and the batch count.
pub fn recover(bytes: &[u8]) -> (r: (u64, usize))
    ensures
        (r.0, r.1 as nat) == recover_spec(bytes@, 0, 0),
{
    let mut pos: usize = 0;
    let mut world: u64 = 0;
    let mut n: usize = 0;
    assert(bytes@.skip(0) == bytes@);
    loop
        invariant
            pos <= bytes@.len(),
            bytes@.len() == bytes.len(),
            n <= pos,
            recover_spec(bytes@.skip(pos as int), world, n as nat) == recover_spec(bytes@, 0, 0),
        decreases bytes@.len() - pos,
    {
        let ghost rest = bytes@.skip(pos as int);
        if bytes.len() - pos < 4 {
            return (world, n);
        }
        assert(rest.subrange(0, 4) == bytes@.subrange(pos as int, pos + 4));
        let nev = read_u32_at(bytes, pos) as u64;
        let body_len: u64 = 4 + nev * 8;
        if body_len + 4 > (bytes.len() - pos) as u64 {
            return (world, n);
        }
        let body_len = body_len as usize;
        let body = slice_subrange(bytes, pos, pos + body_len);
        assert(body@ == rest.subrange(0, body_len as int));
        assert(rest.subrange(body_len as int, body_len + 4) == bytes@.subrange(
            pos + body_len,
            pos + body_len + 4,
        ));
        let crc = read_u32_at(bytes, pos + body_len);
        if crc32(body) != crc {
            return (world, n);
        }
        let ghost w0 = world;
        let mut k: usize = 0;
        while k < nev as usize
            invariant
                k <= nev,
                body_len == 4 + nev * 8,
                pos + body_len + 4 <= bytes@.len(),
                bytes@.len() == bytes.len(),
                body@ == bytes@.subrange(pos as int, pos + body_len),
                world == fold_events(w0, body_events(body@, nev as nat).take(k as int)),
            decreases nev - k,
        {
            assert(k * 8 + 8 <= nev * 8) by (nonlinear_arith)
                requires
                    k < nev,
            ;
            let o = pos + 4 + k * 8;
            assert(body@.subrange(4 + 8 * k, 4 + 8 * k + 8) == bytes@.subrange(o as int, o + 8));
            let ev = read_u64_at(bytes, o);
            let ghost evs = body_events(body@, nev as nat);
            assert(evs.take(k + 1).drop_last() == evs.take(k as int));
            assert(evs.take(k + 1).last() == ev);
            world = apply(world, ev);
            k += 1;
        }
        assert(body_events(body@, nev as nat).take(nev as int) == body_events(body@, nev as nat));
        assert(rest.skip(body_len + 4) == bytes@.skip(pos + body_len + 4));
        pos = pos + body_len + 4;
        n += 1;
    }
}

/// The bytes of several batches, each with its marker, in order.
pub open spec fn log_encoding(batches: Seq<Seq<u64>>) -> Seq<u8>
    decreases batches.len(),
{
    if batches.len() == 0 {
        Seq::empty()
    } else {
        batch_encoding(batches.first()) + log_encoding(batches.drop_first())
    }
}

/// The world after applying every batch, in order.
pub open spec fn fold_batches(world: u64, batches: Seq<Seq<u64>>) -> u64
    decreases batches.len(),
{
    if batches.len() == 0 {
        world
    } else {
        fold_batches(fold_events(world, batches.first()), batches.drop_first())
    }
}

/// A torn write: a strict prefix of some batch (the marker, or more, never landed).
pub open spec fn is_torn_batch(tail: Seq<u8>, evs: Seq<u64>) -> bool {
    &&& evs.len() <= u32::MAX
    &&& tail.len() < batch_encoding(evs).len()
    &&& tail == batch_encoding(evs).take(tail.len() as int)
}

proof fn lemma_events_bytes(evs: Seq<u64>, k: int)
    requires
        0 <= k < evs.len(),
    ensures
        events_bytes(evs).len() == 8 * evs.len(),
        events_bytes(evs).subrange(8 * k, 8 * k + 8) == spec_u64_to_le_bytes(evs[k]),
    decreases evs.len(),
{
    lemma_auto_spec_u64_to_from_le_bytes();
    let pre = evs.drop_last();
    lemma_events_bytes_len(pre);
    if k < evs.len() - 1 {
        lemma_events_bytes(pre, k);
        assert(events_bytes(evs).subrange(8 * k, 8 * k + 8) == events_bytes(pre).subrange(
            8 * k,
            8 * k + 8,
        ));
    } else {
        assert(events_bytes(evs).subrange(8 * k, 8 * k + 8) == spec_u64_to_le_bytes(evs.last()));
    }
}

proof fn lemma_events_bytes_len(evs: Seq<u64>)
    ensures
        events_bytes(evs).len() == 8 * evs.len(),
    decreases evs.len(),
{
    lemma_auto_spec_u64_to_from_le_bytes();
    if evs.len() > 0 {
        lemma_events_bytes_len(evs.drop_last());
    }
}

/// Recovery applies a complete batch and moves past it.
proof fn lemma_recover_batch(evs: Seq<u64>, rest: Seq<u8>, world: u64, n: nat)
    requires
        evs.len() <= u32::MAX,
    ensures
        recover_spec(batch_encoding(evs) + rest, world, n) == recover_spec(
            rest,
            fold_events(world, evs),
            n + 1,
        ),
{
    lemma_auto_spec_u32_to_from_le_bytes();
    lemma_auto_spec_u64_to_from_le_bytes();
    lemma_events_bytes_len(evs);
    let bytes = batch_encoding(evs) + rest;
    let body = batch_body(evs);
    let nev = evs.len();
    assert(bytes.subrange(0, 4) == spec_u32_to_le_bytes(nev as u32));
    assert(spec_u32_from_le_bytes(bytes.subrange(0, 4)) as nat == nev);
    let body_len: int = 4 + nev as int * 8;
    assert(body.len() == body_len);
    assert(bytes.subrange(0, body_len) == body);
    assert(bytes.subrange(body_len, body_len + 4) == spec_u32_to_le_bytes(crc32_spec(body)));
    assert forall|k: int| 0 <= k < nev implies #[trigger] body_events(body, nev)[k] == evs[k] by {
        lemma_events_bytes(evs, k);
        assert(body.subrange(4 + 8 * k, 4 + 8 * k + 8) == events_bytes(evs).subrange(
            8 * k,
            8 * k + 8,
        ));
    }
    assert(body_events(body, nev) == evs);
    assert(bytes.skip(body_len + 4) == rest);
}

/// Recovery stops, applying nothing, at a torn batch.
proof fn lemma_recover_torn(tail: Seq<u8>, evs: Seq<u64>, world: u64, n: nat)
    requires
        is_torn_batch(tail, evs),
    ensures
        recover_spec(tail, world, n) == (world, n),
{
    lemma_auto_spec_u32_to_from_le_bytes();
    lemma_events_bytes_len(evs);
    if tail.len() >= 4 {
        assert(tail.subrange(0, 4) == batch_encoding(evs).subrange(0, 4));
        assert(batch_encoding(evs).subrange(0, 4) == spec_u32_to_le_bytes(evs.len() as u32));
    }
}

/// After a crash that tore the last write, recovery yields exactly the world built from
/// the committed batches, and their count: never a half-written batch.
pub proof fn recovery_returns_committed_world(batches: Seq<Seq<u64>>, tail: Seq<u8>, torn: Seq<u64>, world: u64, n: nat)
    requires
        forall|i: int| 0 <= i < batches.len() ==> #[trigger] batches[i].len() <= u32::MAX,
        tail.len() == 0 || is_torn_batch(tail, torn),
    ensures
        recover_spec(log_encoding(batches) + tail, world, n) == (fold_batches(world, batches), n + batches.len()),
    decreases batches.len(),
{
    if batches.len() == 0 {
        assert(log_encoding(batches) + tail == tail);
        if tail.len() > 0 {
            lemma_recover_torn(tail, torn, world, n);
        }
    } else {
        let b = batches.first();
        assert(batches[0].len() <= u32::MAX);
        let rest = batches.drop_first();
        assert forall|i: int| 0 <= i < rest.len() implies #[trigger] rest[i].len() <= u32::MAX by {
            assert(rest[i] == batches[i + 1]);
        }
        assert(log_encoding(batches) + tail == batch_encoding(b) + (log_encoding(rest) + tail));
        lemma_recover_batch(b, log_encoding(rest) + tail, world, n);
        recovery_returns_committed_world(rest, tail, torn, fold_events(world, b), n + 1);
    }
}

/// A complete batch frame whose commit marker does not match its body: a header naming
/// `nev` events, `8 * nev` event bytes, then a 4-byte marker that is not the checksum of
/// header and events.
pub open spec fn failed_frame(frame: Seq<u8>) -> bool {
    &&& frame.len() >= 4
    &&& frame.len() == 4 + 8 * spec_u32_from_le_bytes(frame.subrange(0, 4)) + 4
    &&& crc32_spec(frame.subrange(0, frame.len() - 4)) != spec_u32_from_le_bytes(
        frame.subrange(frame.len() - 4, frame.len() as int),
    )
}

proof fn lemma_recover_failed(frame: Seq<u8>, tail: Seq<u8>, world: u64, n: nat)
    requires
        failed_frame(frame),
    ensures
        recover_spec(frame + tail, world, n) == (world, n),
{
    let b = frame + tail;
    assert(b.subrange(0, 4) == frame.subrange(0, 4));
    let body_len = frame.len() - 4;
    assert(b.subrange(0, body_len) == frame.subrange(0, body_len));
    assert(b.subrange(body_len, body_len + 4) == frame.subrange(body_len, frame.len() as int));
}

/// Recovery stops at the first batch whose marker fails: after committed batches, a
/// complete frame with a wrong marker ends recovery with exactly the world and count of
/// the committed batches, whatever bytes follow it (nothing after it is applied).
pub proof fn recovery_stops_at_failed_marker(
    batches: Seq<Seq<u64>>,
    frame: Seq<u8>,
    tail: Seq<u8>,
    world: u64,
    n: nat,
)
    requires
        forall|i: int| 0 <= i < batches.len() ==> #[trigger] batches[i].len() <= u32::MAX,
        failed_frame(frame),
    ensures
        recover_spec(log_encoding(batches) + frame + tail, world, n) == (fold_batches(world, batches), n + batches.len()),
    decreases batches.len(),
{
    if batches.len() == 0 {
        assert(log_encoding(batches) + frame + tail == frame + tail);
        lemma_recover_failed(frame, tail, world, n);
    } else {
        let b = batches.first();
        assert(batches[0].len() <= u32::MAX);
        let rest = batches.drop_first();
        assert forall|i: int| 0 <= i < rest.len() implies #[trigger] rest[i].len() <= u32::MAX by {
            assert(rest[i] == batches[i + 1]);
        }
        assert(log_encoding(batches) + frame + tail == batch_encoding(b) + (log_encoding(rest) + frame + tail));
        lemma_recover_batch(b, log_encoding(rest) + frame + tail, world, n);
        recovery_stops_at_failed_marker(rest, frame, tail, fold_events(world, b), n + 1);
    }
}

} // verus!
