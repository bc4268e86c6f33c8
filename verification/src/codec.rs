//! Length-prefixed binary encoding of the persisted records, with a proved
//! round trip: decoding an encoded record yields the record.
//!
//! Integers are fixed-width little-endian; every list is preceded by its
//! element count as a 64-bit integer.

use vstd::prelude::*;
use crate::key_range::{KeyRange, KeyRangeView, clone_bytes};
use crate::level::{HummockVersion, HummockVersionView, Level, LevelView, SstableInfo,
    SstableInfoView};
use crate::level_handler::{LevelHandler, LevelHandlerView, ReservationView, TaskReservation};
use crate::compact_status::{CompactStatus, CompactStatusView};

verus! {

pub open spec fn spec_encode_u64(v: u64) -> Seq<u8> {
    seq![
        (v & 0xff) as u8,
        ((v >> 8) & 0xff) as u8,
        ((v >> 16) & 0xff) as u8,
        ((v >> 24) & 0xff) as u8,
        ((v >> 32) & 0xff) as u8,
        ((v >> 40) & 0xff) as u8,
        ((v >> 48) & 0xff) as u8,
        ((v >> 56) & 0xff) as u8,
    ]
}

pub open spec fn spec_decode_u64(buf: Seq<u8>, pos: int) -> Option<(u64, int)> {
    if 0 <= pos && pos + 8 <= buf.len() {
        Some(
            (
                (buf[pos] as u64) | ((buf[pos + 1] as u64) << 8) | ((buf[pos + 2] as u64) << 16) | (
                (buf[pos + 3] as u64) << 24) | ((buf[pos + 4] as u64) << 32) | ((buf[pos + 5]
                    as u64) << 40) | ((buf[pos + 6] as u64) << 48) | ((buf[pos + 7] as u64) << 56),
                pos + 8,
            ),
        )
    } else {
        None
    }
}

pub proof fn lemma_decode_encode_u64(v: u64, buf: Seq<u8>, pos: int)
    requires
        0 <= pos,
        pos + 8 <= buf.len(),
        buf.subrange(pos, pos + 8) == spec_encode_u64(v),
    ensures
        spec_decode_u64(buf, pos) == Some((v, pos + 8)),
{
    assert forall|i: int| 0 <= i < 8 implies buf[pos + i] == spec_encode_u64(v)[i] by {
        assert(buf.subrange(pos, pos + 8)[i] == buf[pos + i]);
    }
    let r = spec_decode_u64(buf, pos).unwrap().0;
    assert(((v & 0xff) as u8 as u64) | (((v >> 8) & 0xff) as u8 as u64) << 8 | (((v >> 16)
        & 0xff) as u8 as u64) << 16 | (((v >> 24) & 0xff) as u8 as u64) << 24 | (((v >> 32)
        & 0xff) as u8 as u64) << 32 | (((v >> 40) & 0xff) as u8 as u64) << 40 | (((v >> 48)
        & 0xff) as u8 as u64) << 48 | (((v >> 56) & 0xff) as u8 as u64) << 56 == v)
        by (bit_vector);
    assert(buf[pos] == (v & 0xff) as u8);
    assert(buf[pos + 1] == ((v >> 8) & 0xff) as u8);
    assert(buf[pos + 2] == ((v >> 16) & 0xff) as u8);
    assert(buf[pos + 3] == ((v >> 24) & 0xff) as u8);
    assert(buf[pos + 4] == ((v >> 32) & 0xff) as u8);
    assert(buf[pos + 5] == ((v >> 40) & 0xff) as u8);
    assert(buf[pos + 6] == ((v >> 48) & 0xff) as u8);
    assert(buf[pos + 7] == ((v >> 56) & 0xff) as u8);
}

/// Appends the eight little-endian bytes of the value.
pub fn encode_u64(out: &mut Vec<u8>, v: u64)
    ensures
        final(out)@ == old(out)@ + spec_encode_u64(v),
{
    let ghost pre = out@;
    proof {
        assert(v & 0xff < 256 && (v >> 8) & 0xff < 256 && (v >> 16) & 0xff < 256 && (v >> 24)
            & 0xff < 256 && (v >> 32) & 0xff < 256 && (v >> 40) & 0xff < 256 && (v >> 48) & 0xff
            < 256 && (v >> 56) & 0xff < 256) by (bit_vector);
    }
    out.push((v & 0xff) as u8);
    out.push(((v >> 8) & 0xff) as u8);
    out.push(((v >> 16) & 0xff) as u8);
    out.push(((v >> 24) & 0xff) as u8);
    out.push(((v >> 32) & 0xff) as u8);
    out.push(((v >> 40) & 0xff) as u8);
    out.push(((v >> 48) & 0xff) as u8);
    out.push(((v >> 56) & 0xff) as u8);
    assert(out@ =~= pre + spec_encode_u64(v));
}

/// Reads the eight little-endian bytes at the cursor.
pub fn decode_u64(buf: &Vec<u8>, pos: usize) -> (r: Option<(u64, usize)>)
    requires
        pos <= buf@.len(),
    ensures
        match r {
            Some(p) => spec_decode_u64(buf@, pos as int) == Some((p.0, p.1 as int)) && p.1 <= buf@.len(),
            None => spec_decode_u64(buf@, pos as int) is None,
        },
{
    if buf.len() - pos < 8 {
        return None;
    }
    let v: u64 = (buf[pos] as u64) | ((buf[pos + 1] as u64) << 8u64) | ((buf[pos + 2] as u64)
        << 16u64) | ((buf[pos + 3] as u64) << 24u64) | ((buf[pos + 4] as u64) << 32u64) | ((buf[pos
        + 5] as u64) << 40u64) | ((buf[pos + 6] as u64) << 48u64) | ((buf[pos + 7] as u64)
        << 56u64);
    Some((v, pos + 8))
}

pub open spec fn spec_encode_u32(v: u32) -> Seq<u8> {
    seq![
        (v & 0xff) as u8,
        ((v >> 8) & 0xff) as u8,
        ((v >> 16) & 0xff) as u8,
        ((v >> 24) & 0xff) as u8,
    ]
}

pub open spec fn spec_decode_u32(buf: Seq<u8>, pos: int) -> Option<(u32, int)> {
    if 0 <= pos && pos + 4 <= buf.len() {
        Some(
            (
                (buf[pos] as u32) | ((buf[pos + 1] as u32) << 8) | ((buf[pos + 2] as u32) << 16) | (
                (buf[pos + 3] as u32) << 24),
                pos + 4,
            ),
        )
    } else {
        None
    }
}

pub proof fn lemma_decode_encode_u32(v: u32, buf: Seq<u8>, pos: int)
    requires
        0 <= pos,
        pos + 4 <= buf.len(),
        buf.subrange(pos, pos + 4) == spec_encode_u32(v),
    ensures
        spec_decode_u32(buf, pos) == Some((v, pos + 4)),
{
    assert forall|i: int| 0 <= i < 4 implies buf[pos + i] == spec_encode_u32(v)[i] by {
        assert(buf.subrange(pos, pos + 4)[i] == buf[pos + i]);
    }
    assert(((v & 0xff) as u8 as u32) | (((v >> 8) & 0xff) as u8 as u32) << 8 | (((v >> 16)
        & 0xff) as u8 as u32) << 16 | (((v >> 24) & 0xff) as u8 as u32) << 24 == v)
        by (bit_vector);
    assert(buf[pos] == (v & 0xff) as u8);
    assert(buf[pos + 1] == ((v >> 8) & 0xff) as u8);
    assert(buf[pos + 2] == ((v >> 16) & 0xff) as u8);
    assert(buf[pos + 3] == ((v >> 24) & 0xff) as u8);
}

pub fn encode_u32(out: &mut Vec<u8>, v: u32)
    ensures
        final(out)@ == old(out)@ + spec_encode_u32(v),
{
    let ghost pre = out@;
    proof {
        assert(v & 0xff < 256 && (v >> 8) & 0xff < 256 && (v >> 16) & 0xff < 256 && (v >> 24)
            & 0xff < 256) by (bit_vector);
    }
    out.push((v & 0xff) as u8);
    out.push(((v >> 8) & 0xff) as u8);
    out.push(((v >> 16) & 0xff) as u8);
    out.push(((v >> 24) & 0xff) as u8);
    assert(out@ =~= pre + spec_encode_u32(v));
}

pub fn decode_u32(buf: &Vec<u8>, pos: usize) -> (r: Option<(u32, usize)>)
    requires
        pos <= buf@.len(),
    ensures
        match r {
            Some(p) => spec_decode_u32(buf@, pos as int) == Some((p.0, p.1 as int)) && p.1 <= buf@.len(),
            None => spec_decode_u32(buf@, pos as int) is None,
        },
{
    if buf.len() - pos < 4 {
        return None;
    }
    let v: u32 = (buf[pos] as u32) | ((buf[pos + 1] as u32) << 8u32) | ((buf[pos + 2] as u32)
        << 16u32) | ((buf[pos + 3] as u32) << 24u32);
    Some((v, pos + 4))
}

pub open spec fn spec_encode_u64_list(s: Seq<u64>) -> Seq<u8>
    decreases s.len(),
{
    if s.len() == 0 {
        Seq::empty()
    } else {
        spec_encode_u64(s[0]) + spec_encode_u64_list(s.drop_first())
    }
}

pub proof fn lemma_encode_u64_list_len(s: Seq<u64>)
    ensures
        spec_encode_u64_list(s).len() == 8 * s.len(),
    decreases s.len(),
{
    if s.len() > 0 {
        lemma_encode_u64_list_len(s.drop_first());
    }
}

pub open spec fn spec_decode_u64_list(buf: Seq<u8>, pos: int, n: nat) -> Option<(Seq<u64>, int)>
    decreases n,
{
    if n == 0 {
        Some((Seq::empty(), pos))
    } else {
        match spec_decode_u64(buf, pos) {
            None => None,
            Some((x, p)) => match spec_decode_u64_list(buf, p, (n - 1) as nat) {
                None => None,
                Some((rest, q)) => Some((seq![x] + rest, q)),
            },
        }
    }
}

pub proof fn lemma_decode_encode_u64_list(s: Seq<u64>, buf: Seq<u8>, pos: int)
    requires
        0 <= pos,
        pos + spec_encode_u64_list(s).len() <= buf.len(),
        buf.subrange(pos, pos + spec_encode_u64_list(s).len()) == spec_encode_u64_list(s),
    ensures
        spec_decode_u64_list(buf, pos, s.len()) == Some(
            (s, pos + spec_encode_u64_list(s).len()),
        ),
    decreases s.len(),
{
    lemma_encode_u64_list_len(s);
    if s.len() == 0 {
        assert(s =~= Seq::<u64>::empty());
    } else {
        let ea = spec_encode_u64(s[0]);
        let eb = spec_encode_u64_list(s.drop_first());
        lemma_encode_u64_list_len(s.drop_first());
        assert(spec_encode_u64_list(s) == ea + eb);
        assert forall|i: int| 0 <= i < 8 implies buf[pos + i] == ea[i] by {
            assert(buf.subrange(pos, pos + spec_encode_u64_list(s).len())[i] == buf[pos + i]);
            assert((ea + eb)[i] == ea[i]);
        }
        assert(buf.subrange(pos, pos + 8) =~= ea);
        lemma_decode_encode_u64(s[0], buf, pos);
        assert forall|i: int| 0 <= i < eb.len() implies buf[pos + 8 + i] == eb[i] by {
            assert(buf.subrange(pos, pos + spec_encode_u64_list(s).len())[8 + i] == buf[pos + 8
                + i]);
            assert((ea + eb)[8 + i] == eb[i]);
        }
        assert(buf.subrange(pos + 8, pos + 8 + eb.len()) =~= eb);
        lemma_decode_encode_u64_list(s.drop_first(), buf, pos + 8);
        assert(seq![s[0]] + s.drop_first() =~= s);
    }
}

/// A reservation entry: task id, then its table ids with a count prefix.
pub open spec fn spec_encode_reservation(r: ReservationView) -> Seq<u8> {
    spec_encode_u64(r.task_id) + spec_encode_u64(r.ssts.len() as u64) + spec_encode_u64_list(
        r.ssts,
    )
}

pub open spec fn spec_decode_reservation(buf: Seq<u8>, pos: int) -> Option<(ReservationView, int)> {
    match spec_decode_u64(buf, pos) {
        None => None,
        Some((task_id, p1)) => match spec_decode_u64(buf, p1) {
            None => None,
            Some((n, p2)) => match spec_decode_u64_list(buf, p2, n as nat) {
                None => None,
                Some((ssts, p3)) => Some((ReservationView { task_id, ssts }, p3)),
            },
        },
    }
}

pub open spec fn encodable_reservation(r: ReservationView) -> bool {
    r.ssts.len() < 0x1_0000_0000_0000_0000
}

pub proof fn lemma_decode_encode_reservation(r: ReservationView, buf: Seq<u8>, pos: int)
    requires
        encodable_reservation(r),
        0 <= pos,
        pos + spec_encode_reservation(r).len() <= buf.len(),
        buf.subrange(pos, pos + spec_encode_reservation(r).len()) == spec_encode_reservation(r),
    ensures
        spec_decode_reservation(buf, pos) == Some((r, pos + spec_encode_reservation(r).len())),
{
    let ea = spec_encode_u64(r.task_id);
    let eb = spec_encode_u64((r.ssts.len() as u64));
    let ec = spec_encode_u64_list(r.ssts);
    lemma_encode_u64_list_len(r.ssts);
    let whole = spec_encode_reservation(r);
    assert(whole == (ea + eb) + ec);
    assert forall|i: int| 0 <= i < 8 implies buf[pos + i] == ea[i] by {
        assert(buf.subrange(pos, pos + whole.len())[i] == buf[pos + i]);
        assert(((ea + eb) + ec)[i] == ea[i]);
    }
    assert(buf.subrange(pos, pos + 8) =~= ea);
    lemma_decode_encode_u64(r.task_id, buf, pos);
    assert forall|i: int| 0 <= i < 8 implies buf[pos + 8 + i] == eb[i] by {
        assert(buf.subrange(pos, pos + whole.len())[8 + i] == buf[pos + 8 + i]);
        assert(((ea + eb) + ec)[8 + i] == eb[i]);
    }
    assert(buf.subrange(pos + 8, pos + 16) =~= eb);
    lemma_decode_encode_u64((r.ssts.len() as u64), buf, pos + 8);
    assert forall|i: int| 0 <= i < ec.len() implies buf[pos + 16 + i] == ec[i] by {
        assert(buf.subrange(pos, pos + whole.len())[16 + i] == buf[pos + 16 + i]);
        assert(((ea + eb) + ec)[16 + i] == ec[i]);
    }
    assert(buf.subrange(pos + 16, pos + 16 + ec.len() as int) =~= ec);
    lemma_decode_encode_u64_list(r.ssts, buf, pos + 16);
    assert((r.ssts.len() as u64) as nat == r.ssts.len());
}

pub open spec fn spec_encode_reservation_list(s: Seq<ReservationView>) -> Seq<u8>
    decreases s.len(),
{
    if s.len() == 0 {
        Seq::empty()
    } else {
        spec_encode_reservation(s[0]) + spec_encode_reservation_list(s.drop_first())
    }
}

pub open spec fn spec_decode_reservation_list(buf: Seq<u8>, pos: int, n: nat) -> Option<
    (Seq<ReservationView>, int),
>
    decreases n,
{
    if n == 0 {
        Some((Seq::empty(), pos))
    } else {
        match spec_decode_reservation(buf, pos) {
            None => None,
            Some((x, p)) => match spec_decode_reservation_list(buf, p, (n - 1) as nat) {
                None => None,
                Some((rest, q)) => Some((seq![x] + rest, q)),
            },
        }
    }
}

pub proof fn lemma_decode_encode_reservation_list(s: Seq<ReservationView>, buf: Seq<u8>, pos: int)
    requires
        forall|k: int| 0 <= k < s.len() ==> encodable_reservation(#[trigger] s[k]),
        0 <= pos,
        pos + spec_encode_reservation_list(s).len() <= buf.len(),
        buf.subrange(pos, pos + spec_encode_reservation_list(s).len())
            == spec_encode_reservation_list(s),
    ensures
        spec_decode_reservation_list(buf, pos, s.len()) == Some(
            (s, pos + spec_encode_reservation_list(s).len()),
        ),
    decreases s.len(),
{
    if s.len() == 0 {
        assert(s =~= Seq::<ReservationView>::empty());
    } else {
        let ea = spec_encode_reservation(s[0]);
        let eb = spec_encode_reservation_list(s.drop_first());
        assert(spec_encode_reservation_list(s) == ea + eb);
        assert forall|i: int| 0 <= i < ea.len() implies buf[pos + i] == ea[i] by {
            assert(buf.subrange(pos, pos + spec_encode_reservation_list(s).len())[i] == buf[pos
                + i]);
            assert((ea + eb)[i] == ea[i]);
        }
        assert(buf.subrange(pos, pos + ea.len() as int) =~= ea);
        lemma_decode_encode_reservation(s[0], buf, pos);
        assert forall|i: int| 0 <= i < eb.len() implies buf[pos + ea.len() + i] == eb[i] by {
            assert(buf.subrange(pos, pos + spec_encode_reservation_list(s).len())[ea.len() + i]
                == buf[pos + ea.len() + i]);
            assert((ea + eb)[ea.len() + i] == eb[i]);
        }
        assert(buf.subrange(pos + ea.len() as int, pos + ea.len() + eb.len()) =~= eb);
        assert forall|k: int| 0 <= k < s.drop_first().len() implies encodable_reservation(
            #[trigger] s.drop_first()[k],
        ) by {
            assert(s.drop_first()[k] == s[k + 1]);
        }
        lemma_decode_encode_reservation_list(s.drop_first(), buf, pos + ea.len());
        assert(seq![s[0]] + s.drop_first() =~= s);
    }
}

/// A handler: its level index, then its reservation entries with a count.
pub open spec fn spec_encode_handler(h: LevelHandlerView) -> Seq<u8> {
    spec_encode_u32(h.level_idx) + spec_encode_u64(h.reserved.len() as u64)
        + spec_encode_reservation_list(h.reserved)
}

pub open spec fn spec_decode_handler(buf: Seq<u8>, pos: int) -> Option<(LevelHandlerView, int)> {
    match spec_decode_u32(buf, pos) {
        None => None,
        Some((level_idx, p1)) => match spec_decode_u64(buf, p1) {
            None => None,
            Some((n, p2)) => match spec_decode_reservation_list(buf, p2, n as nat) {
                None => None,
                Some((reserved, p3)) => Some((LevelHandlerView { level_idx, reserved }, p3)),
            },
        },
    }
}

pub open spec fn encodable_handler(h: LevelHandlerView) -> bool {
    &&& h.reserved.len() < 0x1_0000_0000_0000_0000
    &&& forall|k: int| 0 <= k < h.reserved.len() ==> encodable_reservation(#[trigger] h.reserved[k])
}

pub proof fn lemma_decode_encode_handler(h: LevelHandlerView, buf: Seq<u8>, pos: int)
    requires
        encodable_handler(h),
        0 <= pos,
        pos + spec_encode_handler(h).len() <= buf.len(),
        buf.subrange(pos, pos + spec_encode_handler(h).len()) == spec_encode_handler(h),
    ensures
        spec_decode_handler(buf, pos) == Some((h, pos + spec_encode_handler(h).len())),
{
    let ea = spec_encode_u32(h.level_idx);
    let eb = spec_encode_u64((h.reserved.len() as u64));
    let ec = spec_encode_reservation_list(h.reserved);
    let whole = spec_encode_handler(h);
    assert(whole == (ea + eb) + ec);
    assert forall|i: int| 0 <= i < 4 implies buf[pos + i] == ea[i] by {
        assert(buf.subrange(pos, pos + whole.len())[i] == buf[pos + i]);
        assert(((ea + eb) + ec)[i] == ea[i]);
    }
    assert(buf.subrange(pos, pos + 4) =~= ea);
    lemma_decode_encode_u32(h.level_idx, buf, pos);
    assert forall|i: int| 0 <= i < 8 implies buf[pos + 4 + i] == eb[i] by {
        assert(buf.subrange(pos, pos + whole.len())[4 + i] == buf[pos + 4 + i]);
        assert(((ea + eb) + ec)[4 + i] == eb[i]);
    }
    assert(buf.subrange(pos + 4, pos + 12) =~= eb);
    lemma_decode_encode_u64((h.reserved.len() as u64), buf, pos + 4);
    assert forall|i: int| 0 <= i < ec.len() implies buf[pos + 12 + i] == ec[i] by {
        assert(buf.subrange(pos, pos + whole.len())[12 + i] == buf[pos + 12 + i]);
        assert(((ea + eb) + ec)[12 + i] == ec[i]);
    }
    assert(buf.subrange(pos + 12, pos + 12 + ec.len() as int) =~= ec);
    lemma_decode_encode_reservation_list(h.reserved, buf, pos + 12);
    assert((h.reserved.len() as u64) as nat == h.reserved.len());
}

pub open spec fn spec_encode_handler_list(s: Seq<LevelHandlerView>) -> Seq<u8>
    decreases s.len(),
{
    if s.len() == 0 {
        Seq::empty()
    } else {
        spec_encode_handler(s[0]) + spec_encode_handler_list(s.drop_first())
    }
}

pub open spec fn spec_decode_handler_list(buf: Seq<u8>, pos: int, n: nat) -> Option<
    (Seq<LevelHandlerView>, int),
>
    decreases n,
{
    if n == 0 {
        Some((Seq::empty(), pos))
    } else {
        match spec_decode_handler(buf, pos) {
            None => None,
            Some((x, p)) => match spec_decode_handler_list(buf, p, (n - 1) as nat) {
                None => None,
                Some((rest, q)) => Some((seq![x] + rest, q)),
            },
        }
    }
}

pub proof fn lemma_decode_encode_handler_list(s: Seq<LevelHandlerView>, buf: Seq<u8>, pos: int)
    requires
        forall|k: int| 0 <= k < s.len() ==> encodable_handler(#[trigger] s[k]),
        0 <= pos,
        pos + spec_encode_handler_list(s).len() <= buf.len(),
        buf.subrange(pos, pos + spec_encode_handler_list(s).len()) == spec_encode_handler_list(s),
    ensures
        spec_decode_handler_list(buf, pos, s.len()) == Some(
            (s, pos + spec_encode_handler_list(s).len()),
        ),
    decreases s.len(),
{
    if s.len() == 0 {
        assert(s =~= Seq::<LevelHandlerView>::empty());
    } else {
        let ea = spec_encode_handler(s[0]);
        let eb = spec_encode_handler_list(s.drop_first());
        assert(spec_encode_handler_list(s) == ea + eb);
        assert forall|i: int| 0 <= i < ea.len() implies buf[pos + i] == ea[i] by {
            assert(buf.subrange(pos, pos + spec_encode_handler_list(s).len())[i] == buf[pos + i]);
            assert((ea + eb)[i] == ea[i]);
        }
        assert(buf.subrange(pos, pos + ea.len() as int) =~= ea);
        lemma_decode_encode_handler(s[0], buf, pos);
        assert forall|i: int| 0 <= i < eb.len() implies buf[pos + ea.len() + i] == eb[i] by {
            assert(buf.subrange(pos, pos + spec_encode_handler_list(s).len())[ea.len() + i]
                == buf[pos + ea.len() + i]);
            assert((ea + eb)[ea.len() + i] == eb[i]);
        }
        assert(buf.subrange(pos + ea.len() as int, pos + ea.len() + eb.len()) =~= eb);
        assert forall|k: int| 0 <= k < s.drop_first().len() implies encodable_handler(
            #[trigger] s.drop_first()[k],
        ) by {
            assert(s.drop_first()[k] == s[k + 1]);
        }
        lemma_decode_encode_handler_list(s.drop_first(), buf, pos + ea.len());
        assert(seq![s[0]] + s.drop_first() =~= s);
    }
}

/// The whole status record: the id counter, then the handlers with a count.
pub open spec fn spec_encode_status(s: CompactStatusView) -> Seq<u8> {
    spec_encode_u64(s.next_compact_task_id) + spec_encode_u64(s.level_handlers.len() as u64)
        + spec_encode_handler_list(s.level_handlers)
}

pub open spec fn spec_decode_status(buf: Seq<u8>, pos: int) -> Option<(CompactStatusView, int)> {
    match spec_decode_u64(buf, pos) {
        None => None,
        Some((next_compact_task_id, p1)) => match spec_decode_u64(buf, p1) {
            None => None,
            Some((n, p2)) => match spec_decode_handler_list(buf, p2, n as nat) {
                None => None,
                Some((level_handlers, p3)) => Some(
                    (CompactStatusView { level_handlers, next_compact_task_id }, p3),
                ),
            },
        },
    }
}

/// A decoded status must fill the whole record: trailing bytes are corruption.
pub open spec fn spec_decode_status_exact(buf: Seq<u8>) -> Option<CompactStatusView> {
    match spec_decode_status(buf, 0) {
        None => None,
        Some((v, p)) => if p == buf.len() {
            Some(v)
        } else {
            None
        },
    }
}

pub open spec fn encodable_status(s: CompactStatusView) -> bool {
    &&& s.level_handlers.len() < 0x1_0000_0000_0000_0000
    &&& forall|i: int|
        0 <= i < s.level_handlers.len() ==> encodable_handler(#[trigger] s.level_handlers[i])
}

/// Round trip: decoding an encoded status yields exactly the status that was
/// encoded, for every machine-representable state.
#[verifier::rlimit(50)]
pub proof fn lemma_compact_status_round_trip(s: CompactStatusView)
    requires
        encodable_status(s),
    ensures
        spec_decode_status_exact(spec_encode_status(s)) == Some(s),
{
    let buf = spec_encode_status(s);
    let ea = spec_encode_u64(s.next_compact_task_id);
    let eb = spec_encode_u64((s.level_handlers.len() as u64));
    let ec = spec_encode_handler_list(s.level_handlers);
    assert(buf == (ea + eb) + ec);
    assert forall|i: int| 0 <= i < 8 implies buf[i] == ea[i] by {
        assert(((ea + eb) + ec)[i] == ea[i]);
    }
    assert(buf.subrange(0, 8) =~= ea);
    lemma_decode_encode_u64(s.next_compact_task_id, buf, 0);
    assert forall|i: int| 0 <= i < 8 implies buf[8 + i] == eb[i] by {
        assert(((ea + eb) + ec)[8 + i] == eb[i]);
    }
    assert(buf.subrange(8, 16) =~= eb);
    lemma_decode_encode_u64((s.level_handlers.len() as u64), buf, 8);
    assert forall|i: int| 0 <= i < ec.len() implies buf[16 + i] == ec[i] by {
        assert(((ea + eb) + ec)[16 + i] == ec[i]);
    }
    assert(buf.subrange(16, 16 + ec.len() as int) =~= ec);
    lemma_decode_encode_handler_list(s.level_handlers, buf, 16);
    assert((s.level_handlers.len() as u64) as nat == s.level_handlers.len());
}

fn encode_u64_list(out: &mut Vec<u8>, v: &Vec<u64>)
    ensures
        final(out)@ == old(out)@ + spec_encode_u64_list(v@),
{
    let ghost pre = out@;
    let mut k: usize = 0;
    assert(v@.skip(0) =~= v@);
    while k < v.len()
        invariant
            k <= v@.len(),
            pre + spec_encode_u64_list(v@) == out@ + spec_encode_u64_list(v@.skip(k as int)),
        decreases v@.len() - k,
    {
        let ghost rem = v@.skip(k as int);
        proof {
            assert(rem[0] == v@[k as int]);
            assert(rem.drop_first() =~= v@.skip(k as int + 1));
        }
        let ghost before = out@;
        encode_u64(out, v[k]);
        proof {
            assert(before + (spec_encode_u64(v@[k as int]) + spec_encode_u64_list(
                v@.skip(k as int + 1),
            )) =~= (before + spec_encode_u64(v@[k as int])) + spec_encode_u64_list(
                v@.skip(k as int + 1),
            ));
        }
        k = k + 1;
    }
    proof {
        assert(v@.skip(v@.len() as int) =~= Seq::<u64>::empty());
        assert(out@ + Seq::<u8>::empty() =~= out@);
    }
}

fn encode_reservation(out: &mut Vec<u8>, r: &TaskReservation)
    ensures
        final(out)@ == old(out)@ + spec_encode_reservation(r@),
{
    let ghost pre = out@;
    encode_u64(out, r.task_id);
    encode_u64(out, r.ssts.len() as u64);
    encode_u64_list(out, &r.ssts);
    assert(out@ =~= pre + spec_encode_reservation(r@));
}

fn encode_reservation_list(out: &mut Vec<u8>, v: &Vec<TaskReservation>)
    ensures
        final(out)@ == old(out)@ + spec_encode_reservation_list(
            v@.map_values(|r: TaskReservation| r@),
        ),
{
    let ghost vv = v@.map_values(|r: TaskReservation| r@);
    let ghost pre = out@;
    let mut k: usize = 0;
    assert(vv.skip(0) =~= vv);
    while k < v.len()
        invariant
            k <= vv.len(),
            vv == v@.map_values(|r: TaskReservation| r@),
            pre + spec_encode_reservation_list(vv) == out@ + spec_encode_reservation_list(
                vv.skip(k as int),
            ),
        decreases vv.len() - k,
    {
        let ghost rem = vv.skip(k as int);
        proof {
            assert(rem[0] == vv[k as int]);
            assert(rem.drop_first() =~= vv.skip(k as int + 1));
        }
        let ghost before = out@;
        encode_reservation(out, &v[k]);
        proof {
            assert(v@[k as int]@ == vv[k as int]);
            assert(before + (spec_encode_reservation(vv[k as int]) + spec_encode_reservation_list(
                vv.skip(k as int + 1),
            )) =~= (before + spec_encode_reservation(vv[k as int]))
                + spec_encode_reservation_list(vv.skip(k as int + 1)));
        }
        k = k + 1;
    }
    proof {
        assert(vv.skip(vv.len() as int) =~= Seq::<ReservationView>::empty());
        assert(out@ + Seq::<u8>::empty() =~= out@);
    }
}

fn encode_handler(out: &mut Vec<u8>, h: &LevelHandler)
    ensures
        final(out)@ == old(out)@ + spec_encode_handler(h@),
{
    let ghost pre = out@;
    encode_u32(out, h.level_idx);
    encode_u64(out, h.reserved.len() as u64);
    encode_reservation_list(out, &h.reserved);
    assert(out@ =~= pre + spec_encode_handler(h@));
}

fn encode_handler_list(out: &mut Vec<u8>, v: &Vec<LevelHandler>)
    ensures
        final(out)@ == old(out)@ + spec_encode_handler_list(
            v@.map_values(|h: LevelHandler| h@),
        ),
{
    let ghost vv = v@.map_values(|h: LevelHandler| h@);
    let ghost pre = out@;
    let mut k: usize = 0;
    assert(vv.skip(0) =~= vv);
    while k < v.len()
        invariant
            k <= vv.len(),
            vv == v@.map_values(|h: LevelHandler| h@),
            pre + spec_encode_handler_list(vv) == out@ + spec_encode_handler_list(
                vv.skip(k as int),
            ),
        decreases vv.len() - k,
    {
        let ghost rem = vv.skip(k as int);
        proof {
            assert(rem[0] == vv[k as int]);
            assert(rem.drop_first() =~= vv.skip(k as int + 1));
        }
        let ghost before = out@;
        encode_handler(out, &v[k]);
        proof {
            assert(v@[k as int]@ == vv[k as int]);
            assert(before + (spec_encode_handler(vv[k as int]) + spec_encode_handler_list(
                vv.skip(k as int + 1),
            )) =~= (before + spec_encode_handler(vv[k as int])) + spec_encode_handler_list(
                vv.skip(k as int + 1),
            ));
        }
        k = k + 1;
    }
    proof {
        assert(vv.skip(vv.len() as int) =~= Seq::<LevelHandlerView>::empty());
        assert(out@ + Seq::<u8>::empty() =~= out@);
    }
}

/// Serializes a status to its length-prefixed binary record.
pub fn encode_compact_status(s: &CompactStatus) -> (r: Vec<u8>)
    ensures
        r@ == spec_encode_status(s@),
{
    let mut out: Vec<u8> = Vec::new();
    assert(out@ =~= Seq::<u8>::empty());
    encode_u64(&mut out, s.next_compact_task_id);
    encode_u64(&mut out, s.level_handlers.len() as u64);
    encode_handler_list(&mut out, &s.level_handlers);
    assert(out@ =~= spec_encode_status(s@));
    out
}

fn decode_u64_list(buf: &Vec<u8>, pos: usize, n: u64) -> (r: Option<(Vec<u64>, usize)>)
    requires
        pos <= buf@.len(),
    ensures
        match r {
            Some(p) => spec_decode_u64_list(buf@, pos as int, n as nat) == Some(
                (p.0@, p.1 as int),
            ) && p.1 <= buf@.len(),
            None => spec_decode_u64_list(buf@, pos as int, n as nat) is None,
        },
{
    let mut acc: Vec<u64> = Vec::new();
    let mut cur: usize = pos;
    let mut i: u64 = 0;
    while i < n
        invariant
            i <= n,
            pos <= buf@.len(),
            cur <= buf@.len(),
            spec_decode_u64_list(buf@, pos as int, n as nat) == (match spec_decode_u64_list(
                buf@,
                cur as int,
                (n - i) as nat,
            ) {
                Some((rest, q)) => Some((acc@ + rest, q)),
                None => None::<(Seq<u64>, int)>,
            }),
        decreases n - i,
    {
        match decode_u64(buf, cur) {
            None => {
                return None;
            },
            Some((x, p)) => {
                let ghost before = acc@;
                acc.push(x);
                proof {
                    if spec_decode_u64_list(buf@, p as int, (n - i - 1) as nat) is Some {
                        let (rest, q) = spec_decode_u64_list(
                            buf@,
                            p as int,
                            (n - i - 1) as nat,
                        ).unwrap();
                        assert(before + (seq![x] + rest) =~= (before.push(x)) + rest);
                    }
                }
                cur = p;
            },
        }
        i = i + 1;
    }
    assert(acc@ + Seq::<u64>::empty() =~= acc@);
    Some((acc, cur))
}

fn decode_reservation(buf: &Vec<u8>, pos: usize) -> (r: Option<(TaskReservation, usize)>)
    requires
        pos <= buf@.len(),
    ensures
        match r {
            Some(p) => spec_decode_reservation(buf@, pos as int) == Some((p.0@, p.1 as int))
                && p.1 <= buf@.len(),
            None => spec_decode_reservation(buf@, pos as int) is None,
        },
{
    let (task_id, p1) = match decode_u64(buf, pos) {
        None => {
            return None;
        },
        Some(x) => x,
    };
    let (n, p2) = match decode_u64(buf, p1) {
        None => {
            return None;
        },
        Some(x) => x,
    };
    let (ssts, p3) = match decode_u64_list(buf, p2, n) {
        None => {
            return None;
        },
        Some(x) => x,
    };
    Some((TaskReservation { task_id, ssts }, p3))
}

fn decode_reservation_list(buf: &Vec<u8>, pos: usize, n: u64) -> (r: Option<
    (Vec<TaskReservation>, usize),
>)
    requires
        pos <= buf@.len(),
    ensures
        match r {
            Some(p) => spec_decode_reservation_list(buf@, pos as int, n as nat) == Some(
                (p.0@.map_values(|x: TaskReservation| x@), p.1 as int),
            ) && p.1 <= buf@.len(),
            None => spec_decode_reservation_list(buf@, pos as int, n as nat) is None,
        },
{
    let mut acc: Vec<TaskReservation> = Vec::new();
    let mut cur: usize = pos;
    let mut i: u64 = 0;
    assert(acc@.map_values(|x: TaskReservation| x@) =~= Seq::<ReservationView>::empty());
    while i < n
        invariant
            i <= n,
            pos <= buf@.len(),
            cur <= buf@.len(),
            spec_decode_reservation_list(buf@, pos as int, n as nat) == (match
                spec_decode_reservation_list(buf@, cur as int, (n - i) as nat) {
                Some((rest, q)) => Some((acc@.map_values(|x: TaskReservation| x@) + rest, q)),
                None => None::<(Seq<ReservationView>, int)>,
            }),
        decreases n - i,
    {
        match decode_reservation(buf, cur) {
            None => {
                return None;
            },
            Some((x, p)) => {
                let ghost before = acc@.map_values(|y: TaskReservation| y@);
                let ghost xv = x@;
                acc.push(x);
                proof {
                    assert(acc@.map_values(|y: TaskReservation| y@) =~= before.push(xv));
                    if spec_decode_reservation_list(buf@, p as int, (n - i - 1) as nat) is Some {
                        let (rest, q) = spec_decode_reservation_list(
                            buf@,
                            p as int,
                            (n - i - 1) as nat,
                        ).unwrap();
                        assert(before + (seq![xv] + rest) =~= (before.push(xv)) + rest);
                    }
                }
                cur = p;
            },
        }
        i = i + 1;
    }
    assert(acc@.map_values(|x: TaskReservation| x@) + Seq::<ReservationView>::empty()
        =~= acc@.map_values(|x: TaskReservation| x@));
    Some((acc, cur))
}

fn decode_handler(buf: &Vec<u8>, pos: usize) -> (r: Option<(LevelHandler, usize)>)
    requires
        pos <= buf@.len(),
    ensures
        match r {
            Some(p) => spec_decode_handler(buf@, pos as int) == Some((p.0@, p.1 as int)) && p.1
                <= buf@.len(),
            None => spec_decode_handler(buf@, pos as int) is None,
        },
{
    let (level_idx, p1) = match decode_u32(buf, pos) {
        None => {
            return None;
        },
        Some(x) => x,
    };
    let (n, p2) = match decode_u64(buf, p1) {
        None => {
            return None;
        },
        Some(x) => x,
    };
    let (reserved, p3) = match decode_reservation_list(buf, p2, n) {
        None => {
            return None;
        },
        Some(x) => x,
    };
    Some((LevelHandler { level_idx, reserved }, p3))
}

fn decode_handler_list(buf: &Vec<u8>, pos: usize, n: u64) -> (r: Option<
    (Vec<LevelHandler>, usize),
>)
    requires
        pos <= buf@.len(),
    ensures
        match r {
            Some(p) => spec_decode_handler_list(buf@, pos as int, n as nat) == Some(
                (p.0@.map_values(|x: LevelHandler| x@), p.1 as int),
            ) && p.1 <= buf@.len(),
            None => spec_decode_handler_list(buf@, pos as int, n as nat) is None,
        },
{
    let mut acc: Vec<LevelHandler> = Vec::new();
    let mut cur: usize = pos;
    let mut i: u64 = 0;
    assert(acc@.map_values(|x: LevelHandler| x@) =~= Seq::<LevelHandlerView>::empty());
    while i < n
        invariant
            i <= n,
            pos <= buf@.len(),
            cur <= buf@.len(),
            spec_decode_handler_list(buf@, pos as int, n as nat) == (match
                spec_decode_handler_list(buf@, cur as int, (n - i) as nat) {
                Some((rest, q)) => Some((acc@.map_values(|x: LevelHandler| x@) + rest, q)),
                None => None::<(Seq<LevelHandlerView>, int)>,
            }),
        decreases n - i,
    {
        match decode_handler(buf, cur) {
            None => {
                return None;
            },
            Some((x, p)) => {
                let ghost before = acc@.map_values(|y: LevelHandler| y@);
                let ghost xv = x@;
                acc.push(x);
                proof {
                    assert(acc@.map_values(|y: LevelHandler| y@) =~= before.push(xv));
                    if spec_decode_handler_list(buf@, p as int, (n - i - 1) as nat) is Some {
                        let (rest, q) = spec_decode_handler_list(
                            buf@,
                            p as int,
                            (n - i - 1) as nat,
                        ).unwrap();
                        assert(before + (seq![xv] + rest) =~= (before.push(xv)) + rest);
                    }
                }
                cur = p;
            },
        }
        i = i + 1;
    }
    assert(acc@.map_values(|x: LevelHandler| x@) + Seq::<LevelHandlerView>::empty()
        =~= acc@.map_values(|x: LevelHandler| x@));
    Some((acc, cur))
}

/// Parses a status record. Fails on a truncated record and on trailing
/// bytes: a corrupt record never silently yields a default.
pub fn decode_compact_status(buf: &Vec<u8>) -> (r: Option<CompactStatus>)
    ensures
        match r {
            Some(c) => spec_decode_status_exact(buf@) == Some(c@),
            None => spec_decode_status_exact(buf@) is None,
        },
{
    let (next_compact_task_id, p1) = match decode_u64(buf, 0) {
        None => {
            return None;
        },
        Some(x) => x,
    };
    let (n, p2) = match decode_u64(buf, p1) {
        None => {
            return None;
        },
        Some(x) => x,
    };
    let (level_handlers, p3) = match decode_handler_list(buf, p2, n) {
        None => {
            return None;
        },
        Some(x) => x,
    };
    if p3 != buf.len() {
        return None;
    }
    Some(CompactStatus { level_handlers, next_compact_task_id })
}

/// A byte string: its length, then its bytes.
pub open spec fn spec_encode_bytes(s: Seq<u8>) -> Seq<u8> {
    spec_encode_u64(s.len() as u64) + s
}

pub open spec fn spec_decode_bytes(buf: Seq<u8>, pos: int) -> Option<(Seq<u8>, int)> {
    match spec_decode_u64(buf, pos) {
        None => None,
        Some((n, p)) => if p + n <= buf.len() {
            Some((buf.subrange(p, p + n as int), p + n as int))
        } else {
            None
        },
    }
}

pub open spec fn encodable_bytes(s: Seq<u8>) -> bool {
    s.len() < 0x1_0000_0000_0000_0000
}

pub proof fn lemma_decode_encode_bytes(s: Seq<u8>, buf: Seq<u8>, pos: int)
    requires
        encodable_bytes(s),
        0 <= pos,
        pos + spec_encode_bytes(s).len() <= buf.len(),
        buf.subrange(pos, pos + spec_encode_bytes(s).len()) == spec_encode_bytes(s),
    ensures
        spec_decode_bytes(buf, pos) == Some((s, pos + spec_encode_bytes(s).len())),
{
    let ea = spec_encode_u64((s.len() as u64));
    assert forall|i: int| 0 <= i < 8 implies buf[pos + i] == ea[i] by {
        assert(buf.subrange(pos, pos + spec_encode_bytes(s).len())[i] == buf[pos + i]);
        assert((ea + s)[i] == ea[i]);
    }
    assert(buf.subrange(pos, pos + 8) =~= ea);
    lemma_decode_encode_u64((s.len() as u64), buf, pos);
    assert forall|i: int| 0 <= i < s.len() implies buf[pos + 8 + i] == s[i] by {
        assert(buf.subrange(pos, pos + spec_encode_bytes(s).len())[8 + i] == buf[pos + 8 + i]);
        assert((ea + s)[8 + i] == s[i]);
    }
    assert(buf.subrange(pos + 8, pos + 8 + s.len() as int) =~= s);
    assert((s.len() as u64) as int == s.len());
}

/// A key range: its two bounds.
pub open spec fn spec_encode_key_range(k: KeyRangeView) -> Seq<u8> {
    spec_encode_bytes(k.left) + spec_encode_bytes(k.right)
}

pub open spec fn spec_decode_key_range(buf: Seq<u8>, pos: int) -> Option<(KeyRangeView, int)> {
    match spec_decode_bytes(buf, pos) {
        None => None,
        Some((left, p1)) => match spec_decode_bytes(buf, p1) {
            None => None,
            Some((right, p2)) => Some((KeyRangeView { left, right }, p2)),
        },
    }
}

pub open spec fn encodable_key_range(k: KeyRangeView) -> bool {
    encodable_bytes(k.left) && encodable_bytes(k.right)
}

pub proof fn lemma_decode_encode_key_range(k: KeyRangeView, buf: Seq<u8>, pos: int)
    requires
        encodable_key_range(k),
        0 <= pos,
        pos + spec_encode_key_range(k).len() <= buf.len(),
        buf.subrange(pos, pos + spec_encode_key_range(k).len()) == spec_encode_key_range(k),
    ensures
        spec_decode_key_range(buf, pos) == Some((k, pos + spec_encode_key_range(k).len())),
{
    let ea = spec_encode_bytes(k.left);
    let eb = spec_encode_bytes(k.right);
    assert forall|i: int| 0 <= i < ea.len() implies buf[pos + i] == ea[i] by {
        assert(buf.subrange(pos, pos + spec_encode_key_range(k).len())[i] == buf[pos + i]);
        assert((ea + eb)[i] == ea[i]);
    }
    assert(buf.subrange(pos, pos + ea.len() as int) =~= ea);
    lemma_decode_encode_bytes(k.left, buf, pos);
    assert forall|i: int| 0 <= i < eb.len() implies buf[pos + ea.len() + i] == eb[i] by {
        assert(buf.subrange(pos, pos + spec_encode_key_range(k).len())[ea.len() + i] == buf[pos
            + ea.len() + i]);
        assert((ea + eb)[ea.len() + i] == eb[i]);
    }
    assert(buf.subrange(pos + ea.len() as int, pos + ea.len() + eb.len()) =~= eb);
    lemma_decode_encode_bytes(k.right, buf, pos + ea.len() as int);
}

/// A table descriptor: id, key range, size.
pub open spec fn spec_encode_sst(t: SstableInfoView) -> Seq<u8> {
    spec_encode_u64(t.id) + spec_encode_key_range(t.key_range) + spec_encode_u64(t.file_size)
}

pub open spec fn spec_decode_sst(buf: Seq<u8>, pos: int) -> Option<(SstableInfoView, int)> {
    match spec_decode_u64(buf, pos) {
        None => None,
        Some((id, p1)) => match spec_decode_key_range(buf, p1) {
            None => None,
            Some((key_range, p2)) => match spec_decode_u64(buf, p2) {
                None => None,
                Some((file_size, p3)) => Some((SstableInfoView { id, key_range, file_size }, p3)),
            },
        },
    }
}

pub open spec fn encodable_sst(t: SstableInfoView) -> bool {
    encodable_key_range(t.key_range)
}

pub proof fn lemma_decode_encode_sst(t: SstableInfoView, buf: Seq<u8>, pos: int)
    requires
        encodable_sst(t),
        0 <= pos,
        pos + spec_encode_sst(t).len() <= buf.len(),
        buf.subrange(pos, pos + spec_encode_sst(t).len()) == spec_encode_sst(t),
    ensures
        spec_decode_sst(buf, pos) == Some((t, pos + spec_encode_sst(t).len())),
{
    let ea = spec_encode_u64(t.id);
    let eb = spec_encode_key_range(t.key_range);
    let ec = spec_encode_u64(t.file_size);
    let whole = spec_encode_sst(t);
    assert(whole == (ea + eb) + ec);
    assert forall|i: int| 0 <= i < 8 implies buf[pos + i] == ea[i] by {
        assert(buf.subrange(pos, pos + whole.len())[i] == buf[pos + i]);
        assert(((ea + eb) + ec)[i] == ea[i]);
    }
    assert(buf.subrange(pos, pos + 8) =~= ea);
    lemma_decode_encode_u64(t.id, buf, pos);
    assert forall|i: int| 0 <= i < eb.len() implies buf[pos + 8 + i] == eb[i] by {
        assert(buf.subrange(pos, pos + whole.len())[8 + i] == buf[pos + 8 + i]);
        assert(((ea + eb) + ec)[8 + i] == eb[i]);
    }
    assert(buf.subrange(pos + 8, pos + 8 + eb.len() as int) =~= eb);
    lemma_decode_encode_key_range(t.key_range, buf, pos + 8);
    assert forall|i: int| 0 <= i < 8 implies buf[pos + 8 + eb.len() + i] == ec[i] by {
        assert(buf.subrange(pos, pos + whole.len())[8 + eb.len() + i] == buf[pos + 8 + eb.len()
            + i]);
        assert(((ea + eb) + ec)[8 + eb.len() + i] == ec[i]);
    }
    assert(buf.subrange(pos + 8 + eb.len() as int, pos + 8 + eb.len() + 8) =~= ec);
    lemma_decode_encode_u64(t.file_size, buf, pos + 8 + eb.len() as int);
}

pub open spec fn spec_encode_sst_list(s: Seq<SstableInfoView>) -> Seq<u8>
    decreases s.len(),
{
    if s.len() == 0 {
        Seq::empty()
    } else {
        spec_encode_sst(s[0]) + spec_encode_sst_list(s.drop_first())
    }
}

pub open spec fn spec_decode_sst_list(buf: Seq<u8>, pos: int, n: nat) -> Option<
    (Seq<SstableInfoView>, int),
>
    decreases n,
{
    if n == 0 {
        Some((Seq::empty(), pos))
    } else {
        match spec_decode_sst(buf, pos) {
            None => None,
            Some((x, p)) => match spec_decode_sst_list(buf, p, (n - 1) as nat) {
                None => None,
                Some((rest, q)) => Some((seq![x] + rest, q)),
            },
        }
    }
}

pub proof fn lemma_decode_encode_sst_list(s: Seq<SstableInfoView>, buf: Seq<u8>, pos: int)
    requires
        forall|k: int| 0 <= k < s.len() ==> encodable_sst(#[trigger] s[k]),
        0 <= pos,
        pos + spec_encode_sst_list(s).len() <= buf.len(),
        buf.subrange(pos, pos + spec_encode_sst_list(s).len()) == spec_encode_sst_list(s),
    ensures
        spec_decode_sst_list(buf, pos, s.len()) == Some(
            (s, pos + spec_encode_sst_list(s).len()),
        ),
    decreases s.len(),
{
    if s.len() == 0 {
        assert(s =~= Seq::<SstableInfoView>::empty());
    } else {
        let ea = spec_encode_sst(s[0]);
        let eb = spec_encode_sst_list(s.drop_first());
        assert(spec_encode_sst_list(s) == ea + eb);
        assert forall|i: int| 0 <= i < ea.len() implies buf[pos + i] == ea[i] by {
            assert(buf.subrange(pos, pos + spec_encode_sst_list(s).len())[i] == buf[pos + i]);
            assert((ea + eb)[i] == ea[i]);
        }
        assert(buf.subrange(pos, pos + ea.len() as int) =~= ea);
        lemma_decode_encode_sst(s[0], buf, pos);
        assert forall|i: int| 0 <= i < eb.len() implies buf[pos + ea.len() + i] == eb[i] by {
            assert(buf.subrange(pos, pos + spec_encode_sst_list(s).len())[ea.len() + i] == buf[pos
                + ea.len() + i]);
            assert((ea + eb)[ea.len() + i] == eb[i]);
        }
        assert(buf.subrange(pos + ea.len() as int, pos + ea.len() + eb.len()) =~= eb);
        assert forall|k: int| 0 <= k < s.drop_first().len() implies encodable_sst(
            #[trigger] s.drop_first()[k],
        ) by {
            assert(s.drop_first()[k] == s[k + 1]);
        }
        lemma_decode_encode_sst_list(s.drop_first(), buf, pos + ea.len() as int);
        assert(seq![s[0]] + s.drop_first() =~= s);
    }
}

/// A level: its index, then its tables with a count.
pub open spec fn spec_encode_level(l: LevelView) -> Seq<u8> {
    spec_encode_u32(l.level_idx) + spec_encode_u64(l.table_infos.len() as u64)
        + spec_encode_sst_list(l.table_infos)
}

pub open spec fn spec_decode_level(buf: Seq<u8>, pos: int) -> Option<(LevelView, int)> {
    match spec_decode_u32(buf, pos) {
        None => None,
        Some((level_idx, p1)) => match spec_decode_u64(buf, p1) {
            None => None,
            Some((n, p2)) => match spec_decode_sst_list(buf, p2, n as nat) {
                None => None,
                Some((table_infos, p3)) => Some((LevelView { level_idx, table_infos }, p3)),
            },
        },
    }
}

pub open spec fn encodable_level(l: LevelView) -> bool {
    &&& l.table_infos.len() < 0x1_0000_0000_0000_0000
    &&& forall|k: int| 0 <= k < l.table_infos.len() ==> encodable_sst(#[trigger] l.table_infos[k])
}

pub proof fn lemma_decode_encode_level(l: LevelView, buf: Seq<u8>, pos: int)
    requires
        encodable_level(l),
        0 <= pos,
        pos + spec_encode_level(l).len() <= buf.len(),
        buf.subrange(pos, pos + spec_encode_level(l).len()) == spec_encode_level(l),
    ensures
        spec_decode_level(buf, pos) == Some((l, pos + spec_encode_level(l).len())),
{
    let ea = spec_encode_u32(l.level_idx);
    let eb = spec_encode_u64((l.table_infos.len() as u64));
    let ec = spec_encode_sst_list(l.table_infos);
    let whole = spec_encode_level(l);
    assert(whole == (ea + eb) + ec);
    assert forall|i: int| 0 <= i < 4 implies buf[pos + i] == ea[i] by {
        assert(buf.subrange(pos, pos + whole.len())[i] == buf[pos + i]);
        assert(((ea + eb) + ec)[i] == ea[i]);
    }
    assert(buf.subrange(pos, pos + 4) =~= ea);
    lemma_decode_encode_u32(l.level_idx, buf, pos);
    assert forall|i: int| 0 <= i < 8 implies buf[pos + 4 + i] == eb[i] by {
        assert(buf.subrange(pos, pos + whole.len())[4 + i] == buf[pos + 4 + i]);
        assert(((ea + eb) + ec)[4 + i] == eb[i]);
    }
    assert(buf.subrange(pos + 4, pos + 12) =~= eb);
    lemma_decode_encode_u64((l.table_infos.len() as u64), buf, pos + 4);
    assert forall|i: int| 0 <= i < ec.len() implies buf[pos + 12 + i] == ec[i] by {
        assert(buf.subrange(pos, pos + whole.len())[12 + i] == buf[pos + 12 + i]);
        assert(((ea + eb) + ec)[12 + i] == ec[i]);
    }
    assert(buf.subrange(pos + 12, pos + 12 + ec.len() as int) =~= ec);
    lemma_decode_encode_sst_list(l.table_infos, buf, pos + 12);
    assert((l.table_infos.len() as u64) as nat == l.table_infos.len());
}

pub open spec fn spec_encode_level_list(s: Seq<LevelView>) -> Seq<u8>
    decreases s.len(),
{
    if s.len() == 0 {
        Seq::empty()
    } else {
        spec_encode_level(s[0]) + spec_encode_level_list(s.drop_first())
    }
}

pub open spec fn spec_decode_level_list(buf: Seq<u8>, pos: int, n: nat) -> Option<
    (Seq<LevelView>, int),
>
    decreases n,
{
    if n == 0 {
        Some((Seq::empty(), pos))
    } else {
        match spec_decode_level(buf, pos) {
            None => None,
            Some((x, p)) => match spec_decode_level_list(buf, p, (n - 1) as nat) {
                None => None,
                Some((rest, q)) => Some((seq![x] + rest, q)),
            },
        }
    }
}

pub proof fn lemma_decode_encode_level_list(s: Seq<LevelView>, buf: Seq<u8>, pos: int)
    requires
        forall|k: int| 0 <= k < s.len() ==> encodable_level(#[trigger] s[k]),
        0 <= pos,
        pos + spec_encode_level_list(s).len() <= buf.len(),
        buf.subrange(pos, pos + spec_encode_level_list(s).len()) == spec_encode_level_list(s),
    ensures
        spec_decode_level_list(buf, pos, s.len()) == Some(
            (s, pos + spec_encode_level_list(s).len()),
        ),
    decreases s.len(),
{
    if s.len() == 0 {
        assert(s =~= Seq::<LevelView>::empty());
    } else {
        let ea = spec_encode_level(s[0]);
        let eb = spec_encode_level_list(s.drop_first());
        assert(spec_encode_level_list(s) == ea + eb);
        assert forall|i: int| 0 <= i < ea.len() implies buf[pos + i] == ea[i] by {
            assert(buf.subrange(pos, pos + spec_encode_level_list(s).len())[i] == buf[pos + i]);
            assert((ea + eb)[i] == ea[i]);
        }
        assert(buf.subrange(pos, pos + ea.len() as int) =~= ea);
        lemma_decode_encode_level(s[0], buf, pos);
        assert forall|i: int| 0 <= i < eb.len() implies buf[pos + ea.len() + i] == eb[i] by {
            assert(buf.subrange(pos, pos + spec_encode_level_list(s).len())[ea.len() + i]
                == buf[pos + ea.len() + i]);
            assert((ea + eb)[ea.len() + i] == eb[i]);
        }
        assert(buf.subrange(pos + ea.len() as int, pos + ea.len() + eb.len()) =~= eb);
        assert forall|k: int| 0 <= k < s.drop_first().len() implies encodable_level(
            #[trigger] s.drop_first()[k],
        ) by {
            assert(s.drop_first()[k] == s[k + 1]);
        }
        lemma_decode_encode_level_list(s.drop_first(), buf, pos + ea.len() as int);
        assert(seq![s[0]] + s.drop_first() =~= s);
    }
}

/// The whole version record: the safe epoch, then the levels with a count.
pub open spec fn spec_encode_version(v: HummockVersionView) -> Seq<u8> {
    spec_encode_u64(v.safe_epoch) + spec_encode_u64(v.levels.len() as u64)
        + spec_encode_level_list(v.levels)
}

pub open spec fn spec_decode_version(buf: Seq<u8>, pos: int) -> Option<(HummockVersionView, int)> {
    match spec_decode_u64(buf, pos) {
        None => None,
        Some((safe_epoch, p1)) => match spec_decode_u64(buf, p1) {
            None => None,
            Some((n, p2)) => match spec_decode_level_list(buf, p2, n as nat) {
                None => None,
                Some((levels, p3)) => Some((HummockVersionView { levels, safe_epoch }, p3)),
            },
        },
    }
}

/// A decoded version must fill the whole record.
pub open spec fn spec_decode_version_exact(buf: Seq<u8>) -> Option<HummockVersionView> {
    match spec_decode_version(buf, 0) {
        None => None,
        Some((v, p)) => if p == buf.len() {
            Some(v)
        } else {
            None
        },
    }
}

pub open spec fn encodable_version(v: HummockVersionView) -> bool {
    &&& v.levels.len() < 0x1_0000_0000_0000_0000
    &&& forall|i: int| 0 <= i < v.levels.len() ==> encodable_level(#[trigger] v.levels[i])
}

/// Round trip: decoding an encoded version yields exactly the version that
/// was encoded, for every machine-representable snapshot.
#[verifier::rlimit(50)]
pub proof fn lemma_hummock_version_round_trip(v: HummockVersionView)
    requires
        encodable_version(v),
    ensures
        spec_decode_version_exact(spec_encode_version(v)) == Some(v),
{
    let buf = spec_encode_version(v);
    let ea = spec_encode_u64(v.safe_epoch);
    let eb = spec_encode_u64((v.levels.len() as u64));
    let ec = spec_encode_level_list(v.levels);
    assert(buf == (ea + eb) + ec);
    assert forall|i: int| 0 <= i < 8 implies buf[i] == ea[i] by {
        assert(((ea + eb) + ec)[i] == ea[i]);
    }
    assert(buf.subrange(0, 8) =~= ea);
    lemma_decode_encode_u64(v.safe_epoch, buf, 0);
    assert forall|i: int| 0 <= i < 8 implies buf[8 + i] == eb[i] by {
        assert(((ea + eb) + ec)[8 + i] == eb[i]);
    }
    assert(buf.subrange(8, 16) =~= eb);
    lemma_decode_encode_u64((v.levels.len() as u64), buf, 8);
    assert forall|i: int| 0 <= i < ec.len() implies buf[16 + i] == ec[i] by {
        assert(((ea + eb) + ec)[16 + i] == ec[i]);
    }
    assert(buf.subrange(16, 16 + ec.len() as int) =~= ec);
    lemma_decode_encode_level_list(v.levels, buf, 16);
    assert((v.levels.len() as u64) as nat == v.levels.len());
}

fn encode_bytes(out: &mut Vec<u8>, v: &Vec<u8>)
    ensures
        final(out)@ == old(out)@ + spec_encode_bytes(v@),
{
    let ghost pre = out@;
    encode_u64(out, v.len() as u64);
    let mut k: usize = 0;
    while k < v.len()
        invariant
            k <= v@.len(),
            out@ == pre + spec_encode_u64((v@.len() as u64)) + v@.subrange(0, k as int),
        decreases v@.len() - k,
    {
        out.push(v[k]);
        assert(out@ =~= pre + spec_encode_u64((v@.len() as u64)) + v@.subrange(0, k as int + 1));
        k = k + 1;
    }
    assert(v@.subrange(0, v@.len() as int) =~= v@);
    assert(out@ =~= pre + spec_encode_bytes(v@));
}

fn decode_bytes(buf: &Vec<u8>, pos: usize) -> (r: Option<(Vec<u8>, usize)>)
    requires
        pos <= buf@.len(),
    ensures
        match r {
            Some(p) => spec_decode_bytes(buf@, pos as int) == Some((p.0@, p.1 as int)) && p.1
                <= buf@.len(),
            None => spec_decode_bytes(buf@, pos as int) is None,
        },
{
    let (n, p) = match decode_u64(buf, pos) {
        None => {
            return None;
        },
        Some(x) => x,
    };
    if n > (buf.len() - p) as u64 {
        return None;
    }
    let end: usize = p + (n as usize);
    let mut outv: Vec<u8> = Vec::new();
    let mut k: usize = p;
    while k < end
        invariant
            p <= k <= end,
            end <= buf@.len(),
            outv@ == buf@.subrange(p as int, k as int),
        decreases end - k,
    {
        outv.push(buf[k]);
        assert(outv@ =~= buf@.subrange(p as int, k as int + 1));
        k = k + 1;
    }
    Some((outv, end))
}

fn encode_key_range(out: &mut Vec<u8>, v: &KeyRange)
    ensures
        final(out)@ == old(out)@ + spec_encode_key_range(v@),
{
    let ghost pre = out@;
    encode_bytes(out, &v.left);
    encode_bytes(out, &v.right);
    assert(out@ =~= pre + spec_encode_key_range(v@));
}

fn decode_key_range(buf: &Vec<u8>, pos: usize) -> (r: Option<(KeyRange, usize)>)
    requires
        pos <= buf@.len(),
    ensures
        match r {
            Some(p) => spec_decode_key_range(buf@, pos as int) == Some((p.0@, p.1 as int)) && p.1
                <= buf@.len(),
            None => spec_decode_key_range(buf@, pos as int) is None,
        },
{
    let (left, p1) = match decode_bytes(buf, pos) {
        None => {
            return None;
        },
        Some(x) => x,
    };
    let (right, p2) = match decode_bytes(buf, p1) {
        None => {
            return None;
        },
        Some(x) => x,
    };
    Some((KeyRange { left, right }, p2))
}

fn encode_sst(out: &mut Vec<u8>, v: &SstableInfo)
    ensures
        final(out)@ == old(out)@ + spec_encode_sst(v@),
{
    let ghost pre = out@;
    encode_u64(out, v.id);
    encode_key_range(out, &v.key_range);
    encode_u64(out, v.file_size);
    assert(out@ =~= pre + spec_encode_sst(v@));
}

fn decode_sst(buf: &Vec<u8>, pos: usize) -> (r: Option<(SstableInfo, usize)>)
    requires
        pos <= buf@.len(),
    ensures
        match r {
            Some(p) => spec_decode_sst(buf@, pos as int) == Some((p.0@, p.1 as int)) && p.1
                <= buf@.len(),
            None => spec_decode_sst(buf@, pos as int) is None,
        },
{
    let (id, p1) = match decode_u64(buf, pos) {
        None => {
            return None;
        },
        Some(x) => x,
    };
    let (key_range, p2) = match decode_key_range(buf, p1) {
        None => {
            return None;
        },
        Some(x) => x,
    };
    let (file_size, p3) = match decode_u64(buf, p2) {
        None => {
            return None;
        },
        Some(x) => x,
    };
    Some((SstableInfo { id, key_range, file_size }, p3))
}

fn encode_sst_list(out: &mut Vec<u8>, v: &Vec<SstableInfo>)
    ensures
        final(out)@ == old(out)@ + spec_encode_sst_list(v@.map_values(|t: SstableInfo| t@)),
{
    let ghost vv = v@.map_values(|t: SstableInfo| t@);
    let ghost pre = out@;
    let mut k: usize = 0;
    assert(vv.skip(0) =~= vv);
    while k < v.len()
        invariant
            k <= vv.len(),
            vv == v@.map_values(|t: SstableInfo| t@),
            pre + spec_encode_sst_list(vv) == out@ + spec_encode_sst_list(vv.skip(k as int)),
        decreases vv.len() - k,
    {
        let ghost rem = vv.skip(k as int);
        proof {
            assert(rem[0] == vv[k as int]);
            assert(rem.drop_first() =~= vv.skip(k as int + 1));
        }
        let ghost before = out@;
        encode_sst(out, &v[k]);
        proof {
            assert(v@[k as int]@ == vv[k as int]);
            assert(before + (spec_encode_sst(vv[k as int]) + spec_encode_sst_list(
                vv.skip(k as int + 1),
            )) =~= (before + spec_encode_sst(vv[k as int])) + spec_encode_sst_list(
                vv.skip(k as int + 1),
            ));
        }
        k = k + 1;
    }
    proof {
        assert(vv.skip(vv.len() as int) =~= Seq::<SstableInfoView>::empty());
        assert(out@ + Seq::<u8>::empty() =~= out@);
    }
}

fn decode_sst_list(buf: &Vec<u8>, pos: usize, n: u64) -> (r: Option<(Vec<SstableInfo>, usize)>)
    requires
        pos <= buf@.len(),
    ensures
        match r {
            Some(p) => spec_decode_sst_list(buf@, pos as int, n as nat) == Some(
                (p.0@.map_values(|t: SstableInfo| t@), p.1 as int),
            ) && p.1 <= buf@.len(),
            None => spec_decode_sst_list(buf@, pos as int, n as nat) is None,
        },
{
    let mut acc: Vec<SstableInfo> = Vec::new();
    let mut cur: usize = pos;
    let mut i: u64 = 0;
    assert(acc@.map_values(|t: SstableInfo| t@) =~= Seq::<SstableInfoView>::empty());
    while i < n
        invariant
            i <= n,
            pos <= buf@.len(),
            cur <= buf@.len(),
            spec_decode_sst_list(buf@, pos as int, n as nat) == (match spec_decode_sst_list(
                buf@,
                cur as int,
                (n - i) as nat,
            ) {
                Some((rest, q)) => Some((acc@.map_values(|t: SstableInfo| t@) + rest, q)),
                None => None::<(Seq<SstableInfoView>, int)>,
            }),
        decreases n - i,
    {
        match decode_sst(buf, cur) {
            None => {
                return None;
            },
            Some((x, p)) => {
                let ghost before = acc@.map_values(|t: SstableInfo| t@);
                let ghost xv = x@;
                acc.push(x);
                proof {
                    assert(acc@.map_values(|t: SstableInfo| t@) =~= before.push(xv));
                    if spec_decode_sst_list(buf@, p as int, (n - i - 1) as nat) is Some {
                        let (rest, q) = spec_decode_sst_list(
                            buf@,
                            p as int,
                            (n - i - 1) as nat,
                        ).unwrap();
                        assert(before + (seq![xv] + rest) =~= (before.push(xv)) + rest);
                    }
                }
                cur = p;
            },
        }
        i = i + 1;
    }
    assert(acc@.map_values(|t: SstableInfo| t@) + Seq::<SstableInfoView>::empty()
        =~= acc@.map_values(|t: SstableInfo| t@));
    Some((acc, cur))
}

fn encode_level(out: &mut Vec<u8>, v: &Level)
    ensures
        final(out)@ == old(out)@ + spec_encode_level(v@),
{
    let ghost pre = out@;
    encode_u32(out, v.level_idx);
    encode_u64(out, v.table_infos.len() as u64);
    encode_sst_list(out, &v.table_infos);
    assert(out@ =~= pre + spec_encode_level(v@));
}

fn decode_level(buf: &Vec<u8>, pos: usize) -> (r: Option<(Level, usize)>)
    requires
        pos <= buf@.len(),
    ensures
        match r {
            Some(p) => spec_decode_level(buf@, pos as int) == Some((p.0@, p.1 as int)) && p.1
                <= buf@.len(),
            None => spec_decode_level(buf@, pos as int) is None,
        },
{
    let (level_idx, p1) = match decode_u32(buf, pos) {
        None => {
            return None;
        },
        Some(x) => x,
    };
    let (n, p2) = match decode_u64(buf, p1) {
        None => {
            return None;
        },
        Some(x) => x,
    };
    let (table_infos, p3) = match decode_sst_list(buf, p2, n) {
        None => {
            return None;
        },
        Some(x) => x,
    };
    Some((Level { level_idx, table_infos }, p3))
}

fn encode_level_list(out: &mut Vec<u8>, v: &Vec<Level>)
    ensures
        final(out)@ == old(out)@ + spec_encode_level_list(v@.map_values(|l: Level| l@)),
{
    let ghost vv = v@.map_values(|l: Level| l@);
    let ghost pre = out@;
    let mut k: usize = 0;
    assert(vv.skip(0) =~= vv);
    while k < v.len()
        invariant
            k <= vv.len(),
            vv == v@.map_values(|l: Level| l@),
            pre + spec_encode_level_list(vv) == out@ + spec_encode_level_list(vv.skip(k as int)),
        decreases vv.len() - k,
    {
        let ghost rem = vv.skip(k as int);
        proof {
            assert(rem[0] == vv[k as int]);
            assert(rem.drop_first() =~= vv.skip(k as int + 1));
        }
        let ghost before = out@;
        encode_level(out, &v[k]);
        proof {
            assert(v@[k as int]@ == vv[k as int]);
            assert(before + (spec_encode_level(vv[k as int]) + spec_encode_level_list(
                vv.skip(k as int + 1),
            )) =~= (before + spec_encode_level(vv[k as int])) + spec_encode_level_list(
                vv.skip(k as int + 1),
            ));
        }
        k = k + 1;
    }
    proof {
        assert(vv.skip(vv.len() as int) =~= Seq::<LevelView>::empty());
        assert(out@ + Seq::<u8>::empty() =~= out@);
    }
}

fn decode_level_list(buf: &Vec<u8>, pos: usize, n: u64) -> (r: Option<(Vec<Level>, usize)>)
    requires
        pos <= buf@.len(),
    ensures
        match r {
            Some(p) => spec_decode_level_list(buf@, pos as int, n as nat) == Some(
                (p.0@.map_values(|l: Level| l@), p.1 as int),
            ) && p.1 <= buf@.len(),
            None => spec_decode_level_list(buf@, pos as int, n as nat) is None,
        },
{
    let mut acc: Vec<Level> = Vec::new();
    let mut cur: usize = pos;
    let mut i: u64 = 0;
    assert(acc@.map_values(|l: Level| l@) =~= Seq::<LevelView>::empty());
    while i < n
        invariant
            i <= n,
            pos <= buf@.len(),
            cur <= buf@.len(),
            spec_decode_level_list(buf@, pos as int, n as nat) == (match spec_decode_level_list(
                buf@,
                cur as int,
                (n - i) as nat,
            ) {
                Some((rest, q)) => Some((acc@.map_values(|l: Level| l@) + rest, q)),
                None => None::<(Seq<LevelView>, int)>,
            }),
        decreases n - i,
    {
        match decode_level(buf, cur) {
            None => {
                return None;
            },
            Some((x, p)) => {
                let ghost before = acc@.map_values(|l: Level| l@);
                let ghost xv = x@;
                acc.push(x);
                proof {
                    assert(acc@.map_values(|l: Level| l@) =~= before.push(xv));
                    if spec_decode_level_list(buf@, p as int, (n - i - 1) as nat) is Some {
                        let (rest, q) = spec_decode_level_list(
                            buf@,
                            p as int,
                            (n - i - 1) as nat,
                        ).unwrap();
                        assert(before + (seq![xv] + rest) =~= (before.push(xv)) + rest);
                    }
                }
                cur = p;
            },
        }
        i = i + 1;
    }
    assert(acc@.map_values(|l: Level| l@) + Seq::<LevelView>::empty() =~= acc@.map_values(
        |l: Level| l@,
    ));
    Some((acc, cur))
}

/// Serializes a version snapshot to its length-prefixed binary record.
pub fn encode_hummock_version(v: &HummockVersion) -> (r: Vec<u8>)
    ensures
        r@ == spec_encode_version(v@),
{
    let mut out: Vec<u8> = Vec::new();
    assert(out@ =~= Seq::<u8>::empty());
    encode_u64(&mut out, v.safe_epoch);
    encode_u64(&mut out, v.levels.len() as u64);
    encode_level_list(&mut out, &v.levels);
    assert(out@ =~= spec_encode_version(v@));
    out
}

/// Parses a version record. Fails on a truncated record and on trailing
/// bytes: a corrupt record never silently yields a default.
pub fn decode_hummock_version(buf: &Vec<u8>) -> (r: Option<HummockVersion>)
    ensures
        match r {
            Some(v) => spec_decode_version_exact(buf@) == Some(v@),
            None => spec_decode_version_exact(buf@) is None,
        },
{
    let (safe_epoch, p1) = match decode_u64(buf, 0) {
        None => {
            return None;
        },
        Some(x) => x,
    };
    let (n, p2) = match decode_u64(buf, p1) {
        None => {
            return None;
        },
        Some(x) => x,
    };
    let (levels, p3) = match decode_level_list(buf, p2, n) {
        None => {
            return None;
        },
        Some(x) => x,
    };
    if p3 != buf.len() {
        return None;
    }
    Some(HummockVersion { levels, safe_epoch })
}

} // verus!
