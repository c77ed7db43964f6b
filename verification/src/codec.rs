//! Wire codec for control and snapshot payloads.
//!
//! The format is fixed-width and little-endian: a one-byte tag, 64-bit
//! identities, and signed fixed-point coordinates as a sign byte plus an
//! 8-byte magnitude bounded by [`COORD_LIMIT`]. Decoding is total: any byte
//! string that is not exactly the encoding of a valid message is rejected,
//! and a decoded message is always valid ([`ServerMessage::ok`]).

use vstd::prelude::*;
use vstd::arithmetic::div_mod::lemma_fundamental_div_mod;
use crate::fixed::{Vec2i, coord_ok, COORD_LIMIT, SCALE};
use crate::idtable::distinct_ids;
use crate::messages::{
    ClientId, ClientMessage, PlayerController, RemotePlayerState, ServerMessage, ServerMessageView,
};

verus! {

/// Wire tag of `ServerMessage::PlayerConnected`.
pub const TAG_PLAYER_CONNECTED: u8 = 1;

/// Wire tag of `ServerMessage::PlayerDisconnected`.
pub const TAG_PLAYER_DISCONNECTED: u8 = 2;

/// Wire tag of `ServerMessage::Players`.
pub const TAG_PLAYERS: u8 = 3;

/// Wire tag of `ClientMessage::Controller`.
pub const TAG_CONTROLLER: u8 = 1;

/// Bytes of one snapshot row: an 8-byte identity and a 27-byte state.
pub const ENTRY_BYTES: usize = 35;

/// `v` in `n` little-endian bytes (low byte first).
pub open spec fn le_bytes(v: nat, n: nat) -> Seq<u8>
    decreases n,
{
    if n == 0 {
        Seq::empty()
    } else {
        seq![(v % 256) as u8] + le_bytes(v / 256, (n - 1) as nat)
    }
}

/// The value little-endian bytes stand for.
pub open spec fn le_val(s: Seq<u8>) -> nat
    decreases s.len(),
{
    if s.len() == 0 {
        0
    } else {
        s[0] as nat + 256 * le_val(s.skip(1))
    }
}

/// 256 to the `n`th power: the number of values `n` bytes can carry.
pub open spec fn pow256(n: nat) -> nat
    decreases n,
{
    if n == 0 {
        1
    } else {
        256 * pow256((n - 1) as nat)
    }
}

/// The concrete powers the codec works with.
pub proof fn lemma_pow256_values()
    ensures
        pow256(1) == 0x100,
        pow256(2) == 0x10000,
        pow256(3) == 0x1000000,
        pow256(4) == 0x100000000,
        pow256(5) == 0x10000000000,
        pow256(6) == 0x1000000000000,
        pow256(7) == 0x100000000000000,
        pow256(8) == 0x10000000000000000,
{
    assert(pow256(0) == 1);
    assert(pow256(1) == 256 * pow256(0));
    assert(pow256(2) == 256 * pow256(1));
    assert(pow256(3) == 256 * pow256(2));
    assert(pow256(4) == 256 * pow256(3));
    assert(pow256(5) == 256 * pow256(4));
    assert(pow256(6) == 256 * pow256(5));
    assert(pow256(7) == 256 * pow256(6));
    assert(pow256(8) == 256 * pow256(7));
}

/// `le_bytes` emits exactly `n` bytes.
pub proof fn lemma_le_bytes_len(v: nat, n: nat)
    ensures
        le_bytes(v, n).len() == n,
    decreases n,
{
    if n > 0 {
        lemma_le_bytes_len(v / 256, (n - 1) as nat);
    }
}

/// Reading back `n` little-endian bytes of a value below `256^n` gives the
/// value.
pub proof fn lemma_le_round_trip(v: nat, n: nat)
    requires
        v < pow256(n),
    ensures
        le_val(le_bytes(v, n)) == v,
    decreases n,
{
    if n == 0 {
        assert(v == 0);
    } else {
        let s = le_bytes(v, n);
        let rest = le_bytes(v / 256, (n - 1) as nat);
        assert(s.skip(1) =~= rest);
        assert(v / 256 < pow256((n - 1) as nat)) by (nonlinear_arith)
            requires
                v < 256 * pow256((n - 1) as nat),
        ;
        lemma_le_round_trip(v / 256, (n - 1) as nat);
        lemma_fundamental_div_mod(v as int, 256);
    }
}

/// Little-endian bytes always stand for a value below `256^len`.
pub proof fn lemma_le_val_bound(s: Seq<u8>)
    ensures
        le_val(s) < pow256(s.len()),
    decreases s.len(),
{
    if s.len() > 0 {
        lemma_le_val_bound(s.skip(1));
        assert(le_val(s) < 256 * pow256((s.len() - 1) as nat)) by (nonlinear_arith)
            requires
                le_val(s) == s[0] + 256 * le_val(s.skip(1)),
                s[0] < 256,
                le_val(s.skip(1)) < pow256((s.len() - 1) as nat),
        ;
    }
}

/// A signed coordinate on the wire: a sign byte, then the magnitude.
pub open spec fn enc_coord(v: i64) -> Seq<u8> {
    if v < 0 {
        seq![1u8] + le_bytes((-(v as int)) as nat, 8)
    } else {
        seq![0u8] + le_bytes(v as nat, 8)
    }
}

/// A replicated state on the wire: x, y, then the facing angle.
pub open spec fn enc_state(s: RemotePlayerState) -> Seq<u8> {
    enc_coord(s.position.x) + enc_coord(s.position.y) + enc_coord(s.angle)
}

/// One snapshot row on the wire: the identity, then the state.
pub open spec fn enc_entry(e: (u64, RemotePlayerState)) -> Seq<u8> {
    le_bytes(e.0 as nat, 8) + enc_state(e.1)
}

/// Snapshot rows on the wire, in order.
pub open spec fn enc_entries(s: Seq<(u64, RemotePlayerState)>) -> Seq<u8>
    decreases s.len(),
{
    if s.len() == 0 {
        Seq::empty()
    } else {
        enc_entry(s[0]) + enc_entries(s.skip(1))
    }
}

/// A server message on the wire.
pub open spec fn enc_server(m: ServerMessageView) -> Seq<u8> {
    match m {
        ServerMessageView::PlayerConnected { client_id, state } => {
            seq![TAG_PLAYER_CONNECTED] + le_bytes(client_id as nat, 8) + enc_state(state)
        },
        ServerMessageView::PlayerDisconnected { client_id } => {
            seq![TAG_PLAYER_DISCONNECTED] + le_bytes(client_id as nat, 8)
        },
        ServerMessageView::Players(players) => {
            seq![TAG_PLAYERS] + le_bytes(players.len(), 8) + enc_entries(players)
        },
    }
}

/// A client message on the wire.
pub open spec fn enc_client(m: ClientMessage) -> Seq<u8> {
    match m {
        ClientMessage::Controller(c) => {
            seq![TAG_CONTROLLER] + enc_coord(c.move_direction.x) + enc_coord(c.move_direction.y)
                + enc_coord(c.target_angle)
        },
    }
}

/// Decode a signed coordinate: reject an unknown sign byte or a magnitude
/// beyond the world bound.
pub open spec fn dec_coord(b: Seq<u8>) -> Option<i64> {
    if b.len() != 9 {
        None
    } else {
        let mag = le_val(b.subrange(1, 9));
        if mag > COORD_LIMIT as nat {
            None
        } else if b[0] == 0 {
            Some(mag as i64)
        } else if b[0] == 1 {
            Some((-(mag as int)) as i64)
        } else {
            None
        }
    }
}

/// Decode a replicated state (27 bytes).
pub open spec fn dec_state(b: Seq<u8>) -> Option<RemotePlayerState> {
    if b.len() != 27 {
        None
    } else {
        match (dec_coord(b.subrange(0, 9)), dec_coord(b.subrange(9, 18)), dec_coord(
            b.subrange(18, 27),
        )) {
            (Some(x), Some(y), Some(angle)) => {
                Some(RemotePlayerState { position: Vec2i { x, y }, angle })
            },
            _ => None,
        }
    }
}

/// Decode one snapshot row (35 bytes).
pub open spec fn dec_entry(b: Seq<u8>) -> Option<(u64, RemotePlayerState)> {
    if b.len() != 35 {
        None
    } else {
        match dec_state(b.subrange(8, 35)) {
            Some(st) => Some((le_val(b.subrange(0, 8)) as u64, st)),
            None => None,
        }
    }
}

/// Decode exactly `n` snapshot rows, consuming all of `b`.
pub open spec fn dec_entries(b: Seq<u8>, n: nat) -> Option<Seq<(u64, RemotePlayerState)>>
    decreases n,
{
    if n == 0 {
        if b.len() == 0 {
            Some(Seq::empty())
        } else {
            None
        }
    } else if b.len() < 35 {
        None
    } else {
        match (dec_entry(b.subrange(0, 35)), dec_entries(b.skip(35), (n - 1) as nat)) {
            (Some(e), Some(rest)) => Some(seq![e] + rest),
            _ => None,
        }
    }
}

/// Decode a server message: `Some` exactly for the encodings of valid
/// messages, including unique snapshot identities.
pub open spec fn dec_server(b: Seq<u8>) -> Option<ServerMessageView> {
    if b.len() < 1 {
        None
    } else if b[0] == TAG_PLAYER_CONNECTED {
        if b.len() != 36 {
            None
        } else {
            match dec_state(b.subrange(9, 36)) {
                Some(st) => Some(
                    ServerMessageView::PlayerConnected {
                        client_id: le_val(b.subrange(1, 9)) as u64,
                        state: st,
                    },
                ),
                None => None,
            }
        }
    } else if b[0] == TAG_PLAYER_DISCONNECTED {
        if b.len() != 9 {
            None
        } else {
            Some(
                ServerMessageView::PlayerDisconnected {
                    client_id: le_val(b.subrange(1, 9)) as u64,
                },
            )
        }
    } else if b[0] == TAG_PLAYERS {
        if b.len() < 9 {
            None
        } else {
            match dec_entries(b.skip(9), le_val(b.subrange(1, 9))) {
                Some(players) => {
                    if distinct_ids(players) {
                        Some(ServerMessageView::Players(players))
                    } else {
                        None
                    }
                },
                None => None,
            }
        }
    } else {
        None
    }
}

/// Decode a client message: `Some` exactly for the encodings of valid
/// controllers, direction magnitude at most one unit included.
pub open spec fn dec_client(b: Seq<u8>) -> Option<ClientMessage> {
    if b.len() != 28 || b[0] != TAG_CONTROLLER {
        None
    } else {
        match (dec_coord(b.subrange(1, 10)), dec_coord(b.subrange(10, 19)), dec_coord(
            b.subrange(19, 28),
        )) {
            (Some(dx), Some(dy), Some(angle)) => {
                if -SCALE <= dx && dx <= SCALE && -SCALE <= dy && dy <= SCALE && dx * dx + dy * dy
                    <= SCALE * SCALE {
                    Some(
                        ClientMessage::Controller(
                            PlayerController {
                                move_direction: Vec2i { x: dx, y: dy },
                                target_angle: angle,
                            },
                        ),
                    )
                } else {
                    None
                }
            },
            _ => None,
        }
    }
}

/// Append `v` as 8 little-endian bytes.
fn encode_u64_into(out: &mut Vec<u8>, v: u64)
    ensures
        final(out)@ == old(out)@ + le_bytes(v as nat, 8),
{
    let mut x = v;
    let mut i: usize = 0;
    while i < 8
        invariant
            i <= 8,
            out@ + le_bytes(x as nat, (8 - i) as nat) == old(out)@ + le_bytes(v as nat, 8),
        decreases 8 - i,
    {
        let ghost out0 = out@;
        let ghost x0 = x as nat;
        let b = (x % 256) as u8;
        out.push(b);
        x = x / 256;
        proof {
            assert(le_bytes(x0, (8 - i) as nat) == seq![(x0 % 256) as u8] + le_bytes(
                x0 / 256,
                (8 - i - 1) as nat,
            ));
            assert(out@ + le_bytes(x as nat, (8 - (i + 1)) as nat) =~= out0 + le_bytes(
                x0,
                (8 - i) as nat,
            ));
        }
        i = i + 1;
    }
    proof {
        assert(out@ + le_bytes(x as nat, 0) =~= out@);
    }
}

/// Append a signed coordinate: sign byte, then the magnitude.
fn encode_coord_into(out: &mut Vec<u8>, v: i64)
    requires
        coord_ok(v),
    ensures
        final(out)@ == old(out)@ + enc_coord(v),
{
    let ghost out0 = out@;
    if v < 0 {
        out.push(1);
        encode_u64_into(out, (-v) as u64);
        proof {
            assert(out@ =~= out0 + enc_coord(v));
        }
    } else {
        out.push(0);
        encode_u64_into(out, v as u64);
        proof {
            assert(out@ =~= out0 + enc_coord(v));
        }
    }
}

/// Append a replicated state.
fn encode_state_into(out: &mut Vec<u8>, s: &RemotePlayerState)
    requires
        s.ok(),
    ensures
        final(out)@ == old(out)@ + enc_state(*s),
{
    let ghost out0 = out@;
    encode_coord_into(out, s.position.x);
    encode_coord_into(out, s.position.y);
    encode_coord_into(out, s.angle);
    proof {
        assert(out@ =~= out0 + enc_state(*s));
    }
}

/// Encode a server message for the wire.
pub fn encode_server_message(m: &ServerMessage) -> (r: Vec<u8>)
    requires
        m.ok(),
    ensures
        r@ == enc_server(m@),
{
    let mut out: Vec<u8> = Vec::new();
    match m {
        ServerMessage::PlayerConnected { client_id, state } => {
            out.push(TAG_PLAYER_CONNECTED);
            encode_u64_into(&mut out, *client_id);
            encode_state_into(&mut out, state);
            proof {
                assert(out@ =~= enc_server(m@));
            }
        },
        ServerMessage::PlayerDisconnected { client_id } => {
            out.push(TAG_PLAYER_DISCONNECTED);
            encode_u64_into(&mut out, *client_id);
            proof {
                assert(out@ =~= enc_server(m@));
            }
        },
        ServerMessage::Players(players) => {
            out.push(TAG_PLAYERS);
            encode_u64_into(&mut out, players.len() as u64);
            let ghost head = out@;
            let n = players.len();
            let mut i: usize = 0;
            while i < n
                invariant
                    i <= n,
                    n == players@.len(),
                    forall|w: int| 0 <= w < n ==> (#[trigger] players@[w]).1.ok(),
                    out@ == head + enc_entries(players@.take(i as int)),
                decreases n - i,
            {
                let ghost out0 = out@;
                let entry = &players[i];
                encode_u64_into(&mut out, entry.0);
                encode_state_into(&mut out, &entry.1);
                proof {
                    lemma_enc_entries_snoc(players@, i as int);
                    assert(out@ =~= head + enc_entries(players@.take(i as int + 1)));
                }
                i = i + 1;
            }
            proof {
                assert(players@.take(n as int) =~= players@);
                assert(out@ =~= enc_server(m@));
            }
        },
    }
    out
}

/// Encode a client message for the wire.
pub fn encode_client_message(m: &ClientMessage) -> (r: Vec<u8>)
    requires
        m.ok(),
    ensures
        r@ == enc_client(*m),
{
    let mut out: Vec<u8> = Vec::new();
    match m {
        ClientMessage::Controller(c) => {
            out.push(TAG_CONTROLLER);
            encode_coord_into(&mut out, c.move_direction.x);
            encode_coord_into(&mut out, c.move_direction.y);
            encode_coord_into(&mut out, c.target_angle);
            proof {
                assert(out@ =~= enc_client(*m));
            }
        },
    }
    out
}

/// Read 8 little-endian bytes.
fn read_u64(b: &Vec<u8>, off: usize) -> (r: u64)
    requires
        off + 8 <= b@.len(),
    ensures
        r as nat == le_val(b@.subrange(off as int, off as int + 8)),
{
    proof {
        lemma_pow256_values();
        vstd::std_specs::vec::axiom_spec_len(b);
    }
    let mut val: u64 = 0;
    let mut j: usize = 0;
    while j < 8
        invariant
            j <= 8,
            off + 8 <= b@.len(),
            b@.len() <= usize::MAX,
            val as nat == le_val(b@.subrange(off as int + 8 - j, off as int + 8)),
            (val as nat) < pow256(j as nat),
            pow256(7) == 0x100000000000000,
            pow256(8) == 0x10000000000000000,
        decreases 8 - j,
    {
        proof {
            lemma_pow256_values();
            if j < 7 {
                assert(pow256(j as nat) <= pow256(7)) by {
                    lemma_pow256_monotone(j as nat, 7);
                }
            }
            lemma_le_val_bound(b@.subrange(off as int + 8 - j, off as int + 8));
        }
        let byte = b[off + 7 - j];
        let ghost val0 = val as nat;
        val = val * 256 + (byte as u64);
        proof {
            let lo = off as int + 8 - j - 1;
            let s = b@.subrange(lo, off as int + 8);
            assert(s.skip(1) =~= b@.subrange(lo + 1, off as int + 8));
            assert(s[0] == b@[lo]);
            assert(val as nat == le_val(s));
            assert((val as nat) < pow256((j + 1) as nat)) by (nonlinear_arith)
                requires
                    val as nat == s[0] as nat + 256 * val0,
                    s[0] < 256,
                    val0 < pow256(j as nat),
                    pow256((j + 1) as nat) == 256 * pow256(j as nat),
            ;
        }
        j = j + 1;
    }
    proof {
        assert(b@.subrange(off as int, off as int + 8) =~= b@.subrange(
            off as int + 8 - 8,
            off as int + 8,
        ));
    }
    val
}

/// `pow256` grows with its exponent.
proof fn lemma_pow256_monotone(a: nat, b: nat)
    requires
        a <= b,
    ensures
        pow256(a) <= pow256(b),
    decreases b,
{
    if a < b {
        lemma_pow256_monotone(a, (b - 1) as nat);
        assert(pow256(b) == 256 * pow256((b - 1) as nat));
        assert(pow256((b - 1) as nat) <= 256 * pow256((b - 1) as nat)) by (nonlinear_arith)
            requires
                pow256((b - 1) as nat) >= 0,
        ;
    }
}

/// Read a signed coordinate (9 bytes).
fn read_coord(b: &Vec<u8>, off: usize) -> (r: Option<i64>)
    requires
        off + 9 <= b@.len(),
    ensures
        r == dec_coord(b@.subrange(off as int, off as int + 9)),
        match r {
            Some(v) => coord_ok(v),
            None => true,
        },
{
    let ghost piece = b@.subrange(off as int, off as int + 9);
    proof {
        vstd::std_specs::vec::axiom_spec_len(b);
        assert(piece.subrange(1, 9) =~= b@.subrange(off as int + 1, off as int + 9));
        assert(piece[0] == b@[off as int]);
    }
    let sign = b[off];
    let mag = read_u64(b, off + 1);
    if mag > COORD_LIMIT as u64 {
        None
    } else if sign == 0 {
        Some(mag as i64)
    } else if sign == 1 {
        Some(-(mag as i64))
    } else {
        None
    }
}

/// Read a replicated state (27 bytes).
fn read_state(b: &Vec<u8>, off: usize) -> (r: Option<RemotePlayerState>)
    requires
        off + 27 <= b@.len(),
    ensures
        r == dec_state(b@.subrange(off as int, off as int + 27)),
        match r {
            Some(st) => st.ok(),
            None => true,
        },
{
    let ghost piece = b@.subrange(off as int, off as int + 27);
    proof {
        vstd::std_specs::vec::axiom_spec_len(b);
        assert(piece.subrange(0, 9) =~= b@.subrange(off as int, off as int + 9));
        assert(piece.subrange(9, 18) =~= b@.subrange(off as int + 9, off as int + 18));
        assert(piece.subrange(18, 27) =~= b@.subrange(off as int + 18, off as int + 27));
    }
    let x = match read_coord(b, off) {
        Some(v) => v,
        None => {
            return None;
        },
    };
    let y = match read_coord(b, off + 9) {
        Some(v) => v,
        None => {
            return None;
        },
    };
    let angle = match read_coord(b, off + 18) {
        Some(v) => v,
        None => {
            return None;
        },
    };
    Some(RemotePlayerState { position: Vec2i { x, y }, angle })
}

/// Read one snapshot row (35 bytes).
fn read_entry(b: &Vec<u8>, off: usize) -> (r: Option<(u64, RemotePlayerState)>)
    requires
        off + 35 <= b@.len(),
    ensures
        r == dec_entry(b@.subrange(off as int, off as int + 35)),
        match r {
            Some(e) => e.1.ok(),
            None => true,
        },
{
    let ghost piece = b@.subrange(off as int, off as int + 35);
    proof {
        vstd::std_specs::vec::axiom_spec_len(b);
        assert(piece.subrange(0, 8) =~= b@.subrange(off as int, off as int + 8));
        assert(piece.subrange(8, 35) =~= b@.subrange(off as int + 8, off as int + 35));
        lemma_le_val_bound(piece.subrange(0, 8));
        lemma_pow256_values();
    }
    let id = read_u64(b, off);
    match read_state(b, off + 8) {
        Some(st) => Some((id, st)),
        None => None,
    }
}

/// Whether all row identities are distinct.
fn rows_distinct(entries: &Vec<(u64, RemotePlayerState)>) -> (r: bool)
    ensures
        r == distinct_ids(entries@),
{
    let n = entries.len();
    let mut i: usize = 0;
    while i < n
        invariant
            i <= n,
            n == entries@.len(),
            forall|a: int, b: int|
                0 <= a < b < entries@.len() && a < i ==> (#[trigger] entries@[a]).0 != (
                #[trigger] entries@[b]).0,
        decreases n - i,
    {
        let mut j: usize = i + 1;
        while j < n
            invariant
                i < j <= n,
                n == entries@.len(),
                forall|b: int|
                    i < b < j ==> (#[trigger] entries@[b]).0 != entries@[i as int].0,
            decreases n - j,
        {
            if entries[j].0 == entries[i].0 {
                return false;
            }
            j = j + 1;
        }
        i = i + 1;
    }
    true
}

/// Decode a server message. Any malformed payload — bad tag, wrong length,
/// out-of-range coordinate, duplicate snapshot identity — is rejected, and a
/// decoded message is always valid.
pub fn decode_server_message(bytes: &Vec<u8>) -> (r: Option<ServerMessage>)
    ensures
        match r {
            Some(m) => dec_server(bytes@) == Some(m@) && m.ok(),
            None => dec_server(bytes@) is None,
        },
{
    if bytes.len() < 1 {
        return None;
    }
    let tag = bytes[0];
    if tag == TAG_PLAYER_CONNECTED {
        if bytes.len() != 36 {
            return None;
        }
        proof {
            lemma_le_val_bound(bytes@.subrange(1, 9));
            lemma_pow256_values();
        }
        let client_id = read_u64(bytes, 1);
        match read_state(bytes, 9) {
            Some(state) => Some(ServerMessage::PlayerConnected { client_id, state }),
            None => None,
        }
    } else if tag == TAG_PLAYER_DISCONNECTED {
        if bytes.len() != 9 {
            return None;
        }
        proof {
            lemma_le_val_bound(bytes@.subrange(1, 9));
            lemma_pow256_values();
        }
        let client_id = read_u64(bytes, 1);
        Some(ServerMessage::PlayerDisconnected { client_id })
    } else if tag == TAG_PLAYERS {
        if bytes.len() < 9 {
            return None;
        }
        let count = read_u64(bytes, 1);
        proof {
            lemma_le_val_bound(bytes@.subrange(1, 9));
            lemma_pow256_values();
        }
        let mut entries: Vec<(ClientId, RemotePlayerState)> = Vec::new();
        let mut pos: usize = 9;
        let mut w: u64 = 0;
        while w < count
            invariant
                w <= count,
                9 <= pos <= bytes@.len(),
                bytes@[0] == TAG_PLAYERS,
                entries@.len() == w,
                forall|a: int| 0 <= a < entries@.len() ==> (#[trigger] entries@[a]).1.ok(),
                count as nat == le_val(bytes@.subrange(1, 9)),
                match dec_entries(bytes@.skip(pos as int), (count - w) as nat) {
                    Some(rest) => dec_entries(bytes@.skip(9), count as nat) == Some(
                        entries@ + rest,
                    ),
                    None => dec_entries(bytes@.skip(9), count as nat) is None,
                },
            decreases count - w,
        {
            let ghost tail = bytes@.skip(pos as int);
            if bytes.len() - pos < ENTRY_BYTES {
                proof {
                    assert(tail.len() < 35);
                    assert(dec_entries(tail, (count - w) as nat) is None);
                }
                return None;
            }
            proof {
                assert(tail.subrange(0, 35) =~= bytes@.subrange(pos as int, pos as int + 35));
                assert(tail.skip(35) =~= bytes@.skip(pos as int + 35));
            }
            let entry = match read_entry(bytes, pos) {
                Some(e) => e,
                None => {
                    proof {
                        assert(dec_entries(tail, (count - w) as nat) is None);
                    }
                    return None;
                },
            };
            let ghost entries0 = entries@;
            entries.push(entry);
            pos = pos + ENTRY_BYTES;
            w = w + 1;
            proof {
                match dec_entries(bytes@.skip(pos as int), (count - w) as nat) {
                    Some(rest) => {
                        assert(dec_entries(tail, (count - w + 1) as nat) == Some(
                            seq![entry] + rest,
                        ));
                        assert(entries0 + (seq![entry] + rest) =~= entries@ + rest);
                    },
                    None => {
                        assert(dec_entries(tail, (count - w + 1) as nat) is None);
                    },
                }
            }
        }
        if pos != bytes.len() {
            proof {
                assert(bytes@.skip(pos as int).len() != 0);
                assert(dec_entries(bytes@.skip(pos as int), 0) is None);
            }
            return None;
        }
        proof {
            assert(bytes@.skip(pos as int).len() == 0);
            assert(dec_entries(bytes@.skip(pos as int), 0) == Some(
                Seq::<(u64, RemotePlayerState)>::empty(),
            ));
            assert(entries@ + Seq::<(u64, RemotePlayerState)>::empty() =~= entries@);
        }
        if rows_distinct(&entries) {
            Some(ServerMessage::Players(entries))
        } else {
            None
        }
    } else {
        None
    }
}

/// Decode a client input message; malformed or out-of-range payloads are
/// rejected, and a decoded message is always valid.
pub fn decode_client_message(bytes: &Vec<u8>) -> (r: Option<ClientMessage>)
    ensures
        r == dec_client(bytes@),
        match r {
            Some(m) => m.ok(),
            None => true,
        },
{
    if bytes.len() != 28 {
        return None;
    }
    if bytes[0] != TAG_CONTROLLER {
        return None;
    }
    proof {
        assert(bytes@.subrange(1, 10) =~= bytes@.subrange(1, 10));
    }
    let dx = match read_coord(bytes, 1) {
        Some(v) => v,
        None => {
            return None;
        },
    };
    let dy = match read_coord(bytes, 10) {
        Some(v) => v,
        None => {
            return None;
        },
    };
    let angle = match read_coord(bytes, 19) {
        Some(v) => v,
        None => {
            return None;
        },
    };
    if -SCALE <= dx && dx <= SCALE && -SCALE <= dy && dy <= SCALE {
        proof {
            assert(0 <= dx * dx <= SCALE * SCALE && 0 <= dy * dy <= SCALE * SCALE)
                by (nonlinear_arith)
                requires
                    -SCALE <= dx <= SCALE,
                    -SCALE <= dy <= SCALE,
            ;
        }
        if dx * dx + dy * dy <= SCALE * SCALE {
            Some(
                ClientMessage::Controller(
                    PlayerController {
                        move_direction: Vec2i { x: dx, y: dy },
                        target_angle: angle,
                    },
                ),
            )
        } else {
            None
        }
    } else {
        None
    }
}

/// Whether a coordinate is in the transmissible range.
fn coord_in_range(v: i64) -> (r: bool)
    ensures
        r == coord_ok(v),
{
    -COORD_LIMIT <= v && v <= COORD_LIMIT
}

/// Whether a state is in the transmissible range.
fn state_in_range(s: &RemotePlayerState) -> (r: bool)
    ensures
        r == s.ok(),
{
    coord_in_range(s.position.x) && coord_in_range(s.position.y) && coord_in_range(s.angle)
}

/// Executable check of [`ServerMessage::ok`]: whether a server message can
/// be encoded. A caller that did not build the message through the verified
/// server can test it before encoding.
pub fn server_message_ok(m: &ServerMessage) -> (r: bool)
    ensures
        r == m.ok(),
{
    match m {
        ServerMessage::PlayerConnected { client_id, state } => state_in_range(state),
        ServerMessage::PlayerDisconnected { client_id } => true,
        ServerMessage::Players(players) => {
            let n = players.len();
            proof {
                assert(players@.len() <= u64::MAX);
            }
            let mut i: usize = 0;
            while i < n
                invariant
                    i <= n,
                    n == players@.len(),
                    m@ == ServerMessageView::Players(players@),
                    forall|w: int| 0 <= w < i ==> (#[trigger] players@[w]).1.ok(),
                decreases n - i,
            {
                if !state_in_range(&players[i].1) {
                    return false;
                }
                i = i + 1;
            }
            rows_distinct(players)
        },
    }
}

/// Executable check of [`ClientMessage::ok`]: whether an input message can be
/// encoded.
pub fn client_message_ok(m: &ClientMessage) -> (r: bool)
    ensures
        r == m.ok(),
{
    match m {
        ClientMessage::Controller(c) => {
            let dx = c.move_direction.x;
            let dy = c.move_direction.y;
            if -SCALE <= dx && dx <= SCALE && -SCALE <= dy && dy <= SCALE {
                proof {
                    assert(0 <= dx * dx <= SCALE * SCALE && 0 <= dy * dy <= SCALE * SCALE)
                        by (nonlinear_arith)
                        requires
                            -SCALE <= dx <= SCALE,
                            -SCALE <= dy <= SCALE,
                    ;
                }
                dx * dx + dy * dy <= SCALE * SCALE && coord_in_range(c.target_angle)
            } else {
                false
            }
        },
    }
}

/// Round trip of a signed coordinate.
proof fn lemma_coord_round_trip(v: i64)
    requires
        coord_ok(v),
    ensures
        dec_coord(enc_coord(v)) == Some(v),
{
    lemma_pow256_values();
    let mag: nat = if v < 0 {
        (-(v as int)) as nat
    } else {
        v as nat
    };
    let b = enc_coord(v);
    lemma_le_bytes_len(mag, 8);
    assert(b.subrange(1, 9) =~= le_bytes(mag, 8));
    lemma_le_round_trip(mag, 8);
}

/// Round trip of a replicated state.
proof fn lemma_state_round_trip(s: RemotePlayerState)
    requires
        s.ok(),
    ensures
        dec_state(enc_state(s)) == Some(s),
{
    let b = enc_state(s);
    lemma_le_bytes_len(if s.position.x < 0 {
        (-(s.position.x as int)) as nat
    } else {
        s.position.x as nat
    }, 8);
    lemma_le_bytes_len(if s.position.y < 0 {
        (-(s.position.y as int)) as nat
    } else {
        s.position.y as nat
    }, 8);
    lemma_le_bytes_len(if s.angle < 0 {
        (-(s.angle as int)) as nat
    } else {
        s.angle as nat
    }, 8);
    assert(b.subrange(0, 9) =~= enc_coord(s.position.x));
    assert(b.subrange(9, 18) =~= enc_coord(s.position.y));
    assert(b.subrange(18, 27) =~= enc_coord(s.angle));
    lemma_coord_round_trip(s.position.x);
    lemma_coord_round_trip(s.position.y);
    lemma_coord_round_trip(s.angle);
}

/// The byte length of an encoded coordinate.
proof fn lemma_enc_coord_len(v: i64)
    ensures
        enc_coord(v).len() == 9,
{
    if v < 0 {
        lemma_le_bytes_len((-(v as int)) as nat, 8);
    } else {
        lemma_le_bytes_len(v as nat, 8);
    }
}

/// The byte length of an encoded state.
proof fn lemma_enc_state_len(s: RemotePlayerState)
    ensures
        enc_state(s).len() == 27,
{
    lemma_enc_coord_len(s.position.x);
    lemma_enc_coord_len(s.position.y);
    lemma_enc_coord_len(s.angle);
}

/// The byte length of an encoded snapshot row.
proof fn lemma_enc_entry_len(e: (u64, RemotePlayerState))
    ensures
        enc_entry(e).len() == 35,
{
    lemma_le_bytes_len(e.0 as nat, 8);
    lemma_enc_state_len(e.1);
}

/// Round trip of one snapshot row.
proof fn lemma_entry_round_trip(e: (u64, RemotePlayerState))
    requires
        e.1.ok(),
    ensures
        dec_entry(enc_entry(e)) == Some(e),
{
    let b = enc_entry(e);
    lemma_le_bytes_len(e.0 as nat, 8);
    lemma_enc_state_len(e.1);
    assert(b.subrange(0, 8) =~= le_bytes(e.0 as nat, 8));
    assert(b.subrange(8, 35) =~= enc_state(e.1));
    lemma_pow256_values();
    lemma_le_round_trip(e.0 as nat, 8);
    lemma_state_round_trip(e.1);
}

/// Round trip of a row list.
proof fn lemma_entries_round_trip(s: Seq<(u64, RemotePlayerState)>)
    requires
        forall|i: int| 0 <= i < s.len() ==> (#[trigger] s[i]).1.ok(),
    ensures
        dec_entries(enc_entries(s), s.len()) == Some(s),
    decreases s.len(),
{
    if s.len() == 0 {
        assert(enc_entries(s).len() == 0);
    } else {
        let b = enc_entries(s);
        lemma_enc_entry_len(s[0]);
        lemma_entries_round_trip(s.skip(1));
        assert(b.subrange(0, 35) =~= enc_entry(s[0]));
        assert(b.skip(35) =~= enc_entries(s.skip(1)));
        lemma_entry_round_trip(s[0]);
        assert(seq![s[0]] + s.skip(1) =~= s);
    }
}

/// The codec law for server messages: decoding the encoding of any valid
/// message gives the message back, so a delivered control or snapshot packet
/// reconstructs exactly what the server sent.
pub proof fn lemma_server_codec_round_trip(m: ServerMessageView)
    requires
        m.ok(),
    ensures
        dec_server(enc_server(m)) == Some(m),
{
    lemma_pow256_values();
    let b = enc_server(m);
    match m {
        ServerMessageView::PlayerConnected { client_id, state } => {
            lemma_le_bytes_len(client_id as nat, 8);
            lemma_enc_state_len(state);
            assert(b.subrange(1, 9) =~= le_bytes(client_id as nat, 8));
            assert(b.subrange(9, 36) =~= enc_state(state));
            lemma_le_round_trip(client_id as nat, 8);
            lemma_state_round_trip(state);
        },
        ServerMessageView::PlayerDisconnected { client_id } => {
            lemma_le_bytes_len(client_id as nat, 8);
            assert(b.subrange(1, 9) =~= le_bytes(client_id as nat, 8));
            lemma_le_round_trip(client_id as nat, 8);
        },
        ServerMessageView::Players(players) => {
            lemma_le_bytes_len(players.len(), 8);
            assert(b.subrange(1, 9) =~= le_bytes(players.len(), 8));
            assert(b.skip(9) =~= enc_entries(players));
            lemma_le_round_trip(players.len(), 8);
            lemma_entries_round_trip(players);
        },
    }
}

/// The codec law for client messages: decoding the encoding of any valid
/// input message gives the message back.
pub proof fn lemma_client_codec_round_trip(m: ClientMessage)
    requires
        m.ok(),
    ensures
        dec_client(enc_client(m)) == Some(m),
{
    match m {
        ClientMessage::Controller(c) => {
            let b = enc_client(m);
            lemma_enc_coord_len(c.move_direction.x);
            lemma_enc_coord_len(c.move_direction.y);
            lemma_enc_coord_len(c.target_angle);
            assert(b.subrange(1, 10) =~= enc_coord(c.move_direction.x));
            assert(b.subrange(10, 19) =~= enc_coord(c.move_direction.y));
            assert(b.subrange(19, 28) =~= enc_coord(c.target_angle));
            lemma_coord_round_trip(c.move_direction.x);
            lemma_coord_round_trip(c.move_direction.y);
            lemma_coord_round_trip(c.target_angle);
        },
    }
}

/// Encoding one more row appends its bytes.
proof fn lemma_enc_entries_snoc(s: Seq<(u64, RemotePlayerState)>, i: int)
    requires
        0 <= i < s.len(),
    ensures
        enc_entries(s.take(i + 1)) == enc_entries(s.take(i)) + enc_entry(s[i]),
    decreases i,
{
    if i == 0 {
        let one = s.take(1);
        assert(one.skip(1) =~= Seq::<(u64, RemotePlayerState)>::empty());
        assert(s.take(0) =~= Seq::<(u64, RemotePlayerState)>::empty());
        assert(one[0] == s[0]);
        assert(enc_entries(one) =~= enc_entries(s.take(0)) + enc_entry(s[0]));
    } else {
        lemma_enc_entries_snoc(s.skip(1), i - 1);
        assert(s.take(i + 1).skip(1) =~= s.skip(1).take(i));
        assert(s.take(i).skip(1) =~= s.skip(1).take(i - 1));
        assert(s.take(i + 1)[0] == s[0]);
        assert(s.take(i)[0] == s[0]);
        assert(s.skip(1)[i - 1] == s[i]);
        assert(enc_entries(s.take(i + 1)) =~= enc_entries(s.take(i)) + enc_entry(s[i]));
    }
}

} // verus!
