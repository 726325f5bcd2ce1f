//! A stable, tagged byte encoding for the store's records, so that the state
//! survives a process restart: one format version byte, a record count, then
//! one record per conversation (identity, state tag, and for a captured name
//! its UTF-8 bytes behind a length).

use vstd::prelude::*;

use crate::state::DialogueState;
use crate::state::StateView;
use crate::store::as_map;
use crate::store::StateStore;
use crate::store::StoreError;
use vstd::utf8::decode_utf8;
use vstd::utf8::encode_utf8;
use vstd::utf8::encode_utf8_decode_utf8;
use vstd::utf8::encode_utf8_valid_utf8;
use vstd::utf8::valid_utf8;

verus! {

pub const FORMAT_VERSION: u8 = 1;

pub const TAG_START: u8 = 0;

pub const TAG_AWAITING: u8 = 1;

pub const TAG_RECEIVED: u8 = 2;

/// A 64-bit value as eight little-endian bytes.
pub open spec fn enc_u64(x: u64) -> Seq<u8> {
    seq![
        (x & 0xff) as u8,
        ((x >> 8) & 0xff) as u8,
        ((x >> 16) & 0xff) as u8,
        ((x >> 24) & 0xff) as u8,
        ((x >> 32) & 0xff) as u8,
        ((x >> 40) & 0xff) as u8,
        ((x >> 48) & 0xff) as u8,
        ((x >> 56) & 0xff) as u8,
    ]
}

/// The 64-bit value held by the first eight bytes, little-endian.
pub open spec fn dec_u64(b: Seq<u8>) -> u64
    recommends
        b.len() >= 8,
{
    ((b[0] as u64) | ((b[1] as u64) << 8) | ((b[2] as u64) << 16) | ((b[3] as u64) << 24) | ((
    b[4] as u64) << 32) | ((b[5] as u64) << 40) | ((b[6] as u64) << 48) | ((b[7] as u64) << 56))
}

proof fn lemma_dec_enc_u64(x: u64, t: Seq<u8>)
    ensures
        enc_u64(x).len() == 8,
        dec_u64(enc_u64(x) + t) == x,
{
    let b = enc_u64(x) + t;
    assert(b[0] == (x & 0xff) as u8);
    assert(b[1] == ((x >> 8) & 0xff) as u8);
    assert(b[2] == ((x >> 16) & 0xff) as u8);
    assert(b[3] == ((x >> 24) & 0xff) as u8);
    assert(b[4] == ((x >> 32) & 0xff) as u8);
    assert(b[5] == ((x >> 40) & 0xff) as u8);
    assert(b[6] == ((x >> 48) & 0xff) as u8);
    assert(b[7] == ((x >> 56) & 0xff) as u8);
    assert(x == (((x & 0xff) as u8 as u64) | ((((x >> 8) & 0xff) as u8 as u64) << 8) | ((((x >> 16)
        & 0xff) as u8 as u64) << 16) | ((((x >> 24) & 0xff) as u8 as u64) << 24) | ((((x >> 32)
        & 0xff) as u8 as u64) << 32) | ((((x >> 40) & 0xff) as u8 as u64) << 40) | ((((x >> 48)
        & 0xff) as u8 as u64) << 48) | ((((x >> 56) & 0xff) as u8 as u64) << 56)))
        by (bit_vector);
}

proof fn lemma_i64_u64_roundtrip(x: i64)
    ensures
        (x as u64) as i64 == x,
{
    assert((x as u64) as i64 == x) by (bit_vector);
}

/// Whether a state's name payload is small enough for its byte length to be
/// recorded in the encoding's length field.
pub open spec fn state_encodable(s: StateView) -> bool {
    match s {
        StateView::ReceivedUserName { user_name } => encode_utf8(user_name).len() <= u64::MAX,
        _ => true,
    }
}

/// One state as bytes: a tag, and for a captured name the length of its
/// UTF-8 encoding followed by those bytes.
pub open spec fn enc_state(s: StateView) -> Seq<u8> {
    match s {
        StateView::Start => seq![TAG_START],
        StateView::AwaitingUserName => seq![TAG_AWAITING],
        StateView::ReceivedUserName { user_name } => seq![TAG_RECEIVED] + enc_u64(
            encode_utf8(user_name).len() as u64,
        ) + encode_utf8(user_name),
    }
}

/// The state held at the front of the bytes, with the number of bytes it
/// occupies; `None` if the front is not a valid state encoding.
pub open spec fn dec_state(b: Seq<u8>) -> Option<(StateView, int)> {
    if b.len() < 1 {
        None
    } else if b[0] == TAG_START {
        Some((StateView::Start, 1))
    } else if b[0] == TAG_AWAITING {
        Some((StateView::AwaitingUserName, 1))
    } else if b[0] == TAG_RECEIVED {
        if b.len() < 9 {
            None
        } else {
            let n = dec_u64(b.subrange(1, b.len() as int)) as int;
            if b.len() < 9 + n {
                None
            } else {
                let nb = b.subrange(9, 9 + n);
                if valid_utf8(nb) {
                    Some((StateView::ReceivedUserName { user_name: decode_utf8(nb) }, 9 + n))
                } else {
                    None
                }
            }
        }
    } else {
        None
    }
}

proof fn lemma_dec_enc_state(s: StateView, t: Seq<u8>)
    requires
        state_encodable(s),
    ensures
        enc_state(s).len() >= 1,
        dec_state(enc_state(s) + t) == Some((s, enc_state(s).len() as int)),
{
    let b = enc_state(s) + t;
    match s {
        StateView::Start => {
            assert(b[0] == TAG_START);
        },
        StateView::AwaitingUserName => {
            assert(b[0] == TAG_AWAITING);
        },
        StateView::ReceivedUserName { user_name } => {
            let nb = encode_utf8(user_name);
            let len64 = nb.len() as u64;
            assert(b[0] == TAG_RECEIVED);
            assert(b.subrange(1, b.len() as int) =~= enc_u64(len64) + (nb + t));
            lemma_dec_enc_u64(len64, nb + t);
            assert(dec_u64(b.subrange(1, b.len() as int)) == len64);
            assert(b.len() == 9 + nb.len() + t.len());
            assert(b.subrange(9, 9 + nb.len() as int) =~= nb);
            encode_utf8_valid_utf8(user_name);
            encode_utf8_decode_utf8(user_name);
            assert(enc_state(s).len() == 9 + nb.len());
        },
    }
}

/// One record as bytes: the conversation identity, then its state.
pub open spec fn enc_record(id: i64, s: StateView) -> Seq<u8> {
    enc_u64(id as u64) + enc_state(s)
}

/// A sequence of records as bytes, in order.
pub open spec fn enc_records(rs: Seq<(i64, StateView)>) -> Seq<u8>
    decreases rs.len(),
{
    if rs.len() == 0 {
        Seq::empty()
    } else {
        enc_record(rs[0].0, rs[0].1) + enc_records(rs.drop_first())
    }
}

/// Whether every record of the sequence can be encoded faithfully.
pub open spec fn records_encodable(rs: Seq<(i64, StateView)>) -> bool {
    rs.len() <= u64::MAX && (forall|i: int| 0 <= i < rs.len() ==> state_encodable(#[trigger] rs[i].1))
}

/// The records for a whole store: a version byte, the record count, then the
/// records themselves.
pub open spec fn enc_store_bytes(rs: Seq<(i64, StateView)>) -> Seq<u8> {
    seq![FORMAT_VERSION] + enc_u64(rs.len() as u64) + enc_records(rs)
}

/// Exactly `n` records read from the bytes, which must hold nothing else;
/// `None` if they are not such an encoding.
pub open spec fn dec_records(b: Seq<u8>, n: nat) -> Option<Seq<(i64, StateView)>>
    decreases n,
{
    if n == 0 {
        if b.len() == 0 {
            Some(Seq::empty())
        } else {
            None
        }
    } else if b.len() < 8 {
        None
    } else {
        let id = dec_u64(b) as i64;
        match dec_state(b.skip(8)) {
            Some((s, c)) => match dec_records(b.skip(8 + c), (n - 1) as nat) {
                Some(rest) => Some(seq![(id, s)] + rest),
                None => None,
            },
            None => None,
        }
    }
}

/// The record sequence denoted by a whole byte image, or `None` if the bytes
/// are not an image this encoding produces.
pub open spec fn dec_store(b: Seq<u8>) -> Option<Seq<(i64, StateView)>> {
    if b.len() < 9 {
        None
    } else if b[0] != FORMAT_VERSION {
        None
    } else {
        dec_records(b.skip(9), dec_u64(b.skip(1)) as nat)
    }
}

proof fn lemma_dec_enc_records(rs: Seq<(i64, StateView)>)
    requires
        records_encodable(rs),
    ensures
        dec_records(enc_records(rs), rs.len()) == Some(rs),
    decreases rs.len(),
{
    if rs.len() == 0 {
    } else {
        let (id0, s0) = rs[0];
        let rest = rs.drop_first();
        let b = enc_records(rs);
        let tail = enc_state(s0) + enc_records(rest);
        assert(b =~= enc_u64(id0 as u64) + tail);
        lemma_dec_enc_u64(id0 as u64, tail);
        lemma_i64_u64_roundtrip(id0);
        assert(dec_u64(b) as i64 == id0);
        assert(b.skip(8) =~= tail);
        assert(state_encodable(s0));
        lemma_dec_enc_state(s0, enc_records(rest));
        let c = enc_state(s0).len() as int;
        assert(dec_state(b.skip(8)) == Some((s0, c)));
        assert(b.skip(8 + c) =~= enc_records(rest));
        assert(records_encodable(rest)) by {
            assert(forall|i: int| 0 <= i < rest.len() ==> rest[i] == rs[i + 1]);
        }
        lemma_dec_enc_records(rest);
        assert(dec_records(b, rs.len()) == Some(seq![(id0, s0)] + rest));
        assert(seq![(id0, s0)] + rest =~= rs);
    }
}

/// Crash recovery: decoding the bytes that encode a store's records yields
/// those records exactly, so a store re-opened from its own image holds the
/// same state for every conversation.
pub proof fn lemma_store_bytes_roundtrip(rs: Seq<(i64, StateView)>)
    requires
        records_encodable(rs),
    ensures
        dec_store(enc_store_bytes(rs)) == Some(rs),
{
    let b = enc_store_bytes(rs);
    let n64 = rs.len() as u64;
    assert(b[0] == FORMAT_VERSION);
    assert(b.skip(1) =~= enc_u64(n64) + enc_records(rs));
    lemma_dec_enc_u64(n64, enc_records(rs));
    assert(dec_u64(b.skip(1)) == n64);
    assert(b.skip(9) =~= enc_records(rs));
    lemma_dec_enc_records(rs);
}

/// Appends the eight little-endian bytes of `x`.
fn push_u64(out: &mut Vec<u8>, x: u64)
    ensures
        final(out)@ == old(out)@ + enc_u64(x),
{
    out.push((x & 0xff) as u8);
    out.push(((x >> 8) & 0xff) as u8);
    out.push(((x >> 16) & 0xff) as u8);
    out.push(((x >> 24) & 0xff) as u8);
    out.push(((x >> 32) & 0xff) as u8);
    out.push(((x >> 40) & 0xff) as u8);
    out.push(((x >> 48) & 0xff) as u8);
    out.push(((x >> 56) & 0xff) as u8);
    proof {
        assert(final(out)@ =~= old(out)@ + enc_u64(x));
    }
}

/// Reads the 64-bit value encoded at `pos`.
fn read_u64(b: &Vec<u8>, pos: usize) -> (x: u64)
    requires
        pos + 8 <= b@.len(),
    ensures
        x == dec_u64(b@.skip(pos as int)),
{
    let total = b.len();
    assert(pos + 8 <= total);
    let x = (b[pos] as u64) | ((b[pos + 1] as u64) << 8) | ((b[pos + 2] as u64) << 16) | ((b[pos
        + 3] as u64) << 24) | ((b[pos + 4] as u64) << 32) | ((b[pos + 5] as u64) << 40) | ((b[pos
        + 6] as u64) << 48) | ((b[pos + 7] as u64) << 56);
    proof {
        let s = b@.skip(pos as int);
        assert(s[0] == b@[pos as int]);
        assert(s[1] == b@[pos + 1]);
        assert(s[2] == b@[pos + 2]);
        assert(s[3] == b@[pos + 3]);
        assert(s[4] == b@[pos + 4]);
        assert(s[5] == b@[pos + 5]);
        assert(s[6] == b@[pos + 6]);
        assert(s[7] == b@[pos + 7]);
    }
    x
}

/// Appends the encoding of one state.
fn encode_state(out: &mut Vec<u8>, s: &DialogueState)
    ensures
        final(out)@ == old(out)@ + enc_state(s@),
        state_encodable(s@),
{
    match s {
        DialogueState::Start => {
            out.push(TAG_START);
            proof {
                assert(final(out)@ =~= old(out)@ + enc_state(s@));
            }
        },
        DialogueState::AwaitingUserName => {
            out.push(TAG_AWAITING);
            proof {
                assert(final(out)@ =~= old(out)@ + enc_state(s@));
            }
        },
        DialogueState::ReceivedUserName { user_name } => {
            let mut nb = user_name.as_str().as_bytes_vec();
            out.push(TAG_RECEIVED);
            push_u64(out, nb.len() as u64);
            out.append(&mut nb);
            proof {
                assert(final(out)@ =~= old(out)@ + enc_state(s@));
            }
        },
    }
}

/// Relies on String::from_utf8: it accepts exactly the byte sequences that
/// are valid UTF-8, and decodes them to the characters they encode.
#[verifier::external_body]
fn string_from_utf8(bytes: Vec<u8>) -> (r: Option<String>)
    ensures
        r is Some <==> valid_utf8(bytes@),
        r matches Some(s) ==> s@ == decode_utf8(bytes@),
{
    String::from_utf8(bytes).ok()
}

/// Reads the state encoded at `pos`, returning it with the position just
/// after it.
fn read_state(b: &Vec<u8>, pos: usize) -> (r: Result<(DialogueState, usize), StoreError>)
    requires
        pos <= b@.len(),
    ensures
        match r {
            Ok(p) => dec_state(b@.skip(pos as int)) == Some((p.0@, p.1 - pos as int)) && pos < p.1
                <= b@.len(),
            Err(e) => dec_state(b@.skip(pos as int)) is None && e is Corrupt,
        },
{
    proof {
        let s = b@.skip(pos as int);
        assert(s.len() == b@.len() - pos);
    }
    if b.len() - pos < 1 {
        return Err(StoreError::Corrupt);
    }
    let tag = b[pos];
    proof {
        assert(b@.skip(pos as int)[0] == b@[pos as int]);
    }
    if tag == TAG_START {
        Ok((DialogueState::Start, pos + 1))
    } else if tag == TAG_AWAITING {
        Ok((DialogueState::AwaitingUserName, pos + 1))
    } else if tag == TAG_RECEIVED {
        if b.len() - (pos + 1) < 8 {
            return Err(StoreError::Corrupt);
        }
        let n64 = read_u64(b, pos + 1);
        proof {
            assert(b@.skip(pos as int).subrange(1, b@.skip(pos as int).len() as int) =~= b@.skip(
                pos + 1,
            ));
        }
        let avail = b.len() - (pos + 9);
        if n64 > avail as u64 {
            return Err(StoreError::Corrupt);
        }
        let n = n64 as usize;
        let mut nb: Vec<u8> = Vec::new();
        let mut j: usize = 0;
        while j < n
            invariant
                pos + 9 + n <= b@.len(),
                b@.len() <= usize::MAX,
                j <= n,
                nb@ =~= b@.subrange(pos + 9, pos + 9 + j),
            decreases n - j,
        {
            nb.push(b[pos + 9 + j]);
            j += 1;
        }
        proof {
            assert(nb@ =~= b@.skip(pos as int).subrange(9, 9 + n));
        }
        match string_from_utf8(nb) {
            Some(user_name) => Ok((DialogueState::ReceivedUserName { user_name }, pos + 9 + n)),
            None => Err(StoreError::Corrupt),
        }
    } else {
        Err(StoreError::Corrupt)
    }
}

/// Serializes the whole store: version byte, record count, records.
pub fn encode(store: &StateStore) -> (b: Vec<u8>)
    ensures
        b@ == enc_store_bytes(store.records_view()),
        records_encodable(store.records_view()),
{
    let ghost rs = store.records_view();
    let mut out: Vec<u8> = Vec::new();
    out.push(FORMAT_VERSION);
    let n = store.record_count();
    push_u64(&mut out, n as u64);
    proof {
        assert(out@ =~= seq![FORMAT_VERSION] + enc_u64(n as u64) + enc_records(rs.take(0)));
    }
    let mut i: usize = 0;
    while i < n
        invariant
            n == rs.len(),
            i <= n,
            out@ == seq![FORMAT_VERSION] + enc_u64(n as u64) + enc_records(rs.take(i as int)),
            forall|j: int| 0 <= j < i ==> state_encodable(#[trigger] rs[j].1),
            rs == store.records_view(),
        decreases n - i,
    {
        let (id, s) = store.record_at(i);
        push_u64(&mut out, id as u64);
        encode_state(&mut out, &s);
        proof {
            lemma_enc_records_snoc(rs.take(i as int), (id, s@));
            assert(rs.take(i as int).push((id, s@)) =~= rs.take(i + 1));
            assert(out@ =~= seq![FORMAT_VERSION] + enc_u64(n as u64) + enc_records(
                rs.take(i + 1),
            ));
        }
        i += 1;
    }
    proof {
        assert(rs.take(n as int) =~= rs);
    }
    out
}

proof fn lemma_enc_records_snoc(rs: Seq<(i64, StateView)>, p: (i64, StateView))
    ensures
        enc_records(rs.push(p)) == enc_records(rs) + enc_record(p.0, p.1),
    decreases rs.len(),
{
    let rp = rs.push(p);
    if rs.len() == 0 {
        assert(rp[0] == p);
        assert(rp.drop_first() =~= Seq::<(i64, StateView)>::empty());
        assert(enc_records(rp.drop_first()) == Seq::<u8>::empty());
        assert(enc_records(rp) == enc_record(rp[0].0, rp[0].1) + enc_records(rp.drop_first()));
        assert(enc_records(rp) =~= enc_records(rs) + enc_record(p.0, p.1));
    } else {
        assert(rp[0] == rs[0]);
        assert(rp.drop_first() =~= rs.drop_first().push(p));
        lemma_enc_records_snoc(rs.drop_first(), p);
        assert(rp.drop_first() == rs.drop_first().push(p));
        assert(enc_records(rp.drop_first()) == enc_records(rs.drop_first()) + enc_record(
            p.0,
            p.1,
        ));
        assert(enc_records(rp) == enc_record(rp[0].0, rp[0].1) + enc_records(rp.drop_first()));
        assert(enc_records(rs) == enc_record(rs[0].0, rs[0].1) + enc_records(rs.drop_first()));
        vstd::seq_lib::lemma_concat_associative(
            enc_record(rs[0].0, rs[0].1),
            enc_records(rs.drop_first()),
            enc_record(p.0, p.1),
        );
        assert(enc_records(rp) == enc_records(rs) + enc_record(p.0, p.1));
    }
}

/// What a partial parse denotes once the records already read are put in
/// front of it.
pub open spec fn prepend_records(
    acc: Seq<(i64, StateView)>,
    r: Option<Seq<(i64, StateView)>>,
) -> Option<Seq<(i64, StateView)>> {
    match r {
        Some(rest) => Some(acc + rest),
        None => None,
    }
}

/// Rebuilds a store from a byte image. Returns the store the image encodes,
/// or `Corrupt` for bytes this encoding never produces; a missing record is
/// thereby told apart from an unreadable one by the caller, who sees no bytes
/// at all for the former.
pub fn decode(b: &Vec<u8>) -> (r: Result<StateStore, StoreError>)
    ensures
        match r {
            Ok(s) => s.wf() && (dec_store(b@) matches Some(rs) && s@ == as_map(rs)),
            Err(e) => dec_store(b@) is None && e is Corrupt,
        },
{
    if b.len() < 9 {
        return Err(StoreError::Corrupt);
    }
    if b[0] != FORMAT_VERSION {
        return Err(StoreError::Corrupt);
    }
    let n64 = read_u64(b, 1);
    let mut store = StateStore::new();
    let ghost whole = dec_records(b@.skip(9), n64 as nat);
    let mut pos: usize = 9;
    let mut k: u64 = 0;
    let ghost mut acc: Seq<(i64, StateView)> = Seq::empty();
    proof {
        assert(acc + dec_records(b@.skip(9), (n64 - 0) as nat)->Some_0 =~= dec_records(
            b@.skip(9),
            n64 as nat,
        )->Some_0);
    }
    while k < n64
        invariant
            9 <= pos <= b@.len(),
            b@.len() <= usize::MAX,
            b@[0] == FORMAT_VERSION,
            k <= n64,
            n64 == dec_u64(b@.skip(1)),
            whole == dec_records(b@.skip(9), n64 as nat),
            whole == prepend_records(acc, dec_records(b@.skip(pos as int), (n64 - k) as nat)),
            store.wf(),
            store@ == as_map(acc),
        decreases n64 - k,
    {
        if b.len() - pos < 8 {
            proof {
                assert(dec_records(b@.skip(pos as int), (n64 - k) as nat) is None);
                assert(dec_store(b@) is None);
            }
            return Err(StoreError::Corrupt);
        }
        let idu = read_u64(b, pos);
        let id = #[verifier::truncate] (idu as i64);
        match read_state(b, pos + 8) {
            Ok((s, next_pos)) => {
                proof {
                    let rem = b@.skip(pos as int);
                    assert(rem.skip(8) =~= b@.skip(pos + 8));
                    assert(rem.skip(8 + (next_pos - (pos + 8))) =~= b@.skip(next_pos as int));
                    assert(dec_records(rem, (n64 - k) as nat) == prepend_records(
                        seq![(id, s@)],
                        dec_records(b@.skip(next_pos as int), (n64 - (k + 1)) as nat),
                    ));
                    assert(acc + (seq![(id, s@)]
                        + dec_records(b@.skip(next_pos as int), (n64 - (k + 1)) as nat)->Some_0)
                        =~= acc.push((id, s@)) + dec_records(
                        b@.skip(next_pos as int),
                        (n64 - (k + 1)) as nat,
                    )->Some_0);
                }
                let _ = store.set(id, s);
                proof {
                    lemma_as_map_snoc(acc, (id, s@));
                    acc = acc.push((id, s@));
                }
                pos = next_pos;
                k = k + 1;
            },
            Err(_) => {
                proof {
                    let rem = b@.skip(pos as int);
                    assert(rem.skip(8) =~= b@.skip(pos + 8));
                    assert(dec_records(rem, (n64 - k) as nat) is None);
                    assert(dec_store(b@) is None);
                }
                return Err(StoreError::Corrupt);
            },
        }
    }
    if pos != b.len() {
        proof {
            assert(b@.skip(pos as int).len() > 0);
            assert(dec_records(b@.skip(pos as int), (n64 - k) as nat) is None);
            assert(dec_store(b@) is None);
        }
        return Err(StoreError::Corrupt);
    }
    proof {
        assert(b@.skip(pos as int).len() == 0);
        assert(dec_records(b@.skip(pos as int), 0) == Some(Seq::<(i64, StateView)>::empty()));
        assert(acc + Seq::<(i64, StateView)>::empty() =~= acc);
        assert(dec_store(b@) == Some(acc));
    }
    Ok(store)
}

proof fn lemma_as_map_snoc(rs: Seq<(i64, StateView)>, p: (i64, StateView))
    ensures
        as_map(rs.push(p)) == as_map(rs).insert(p.0, p.1),
{
    assert(rs.push(p).drop_last() =~= rs);
}

} // verus!
