//! Session protocol: the fixed sequence the caller's main loop must follow.
//!
//! Handshake: player-tag line, size line, productions line, first map
//! frame; then the caller sends its display name. Turn loop: read one map
//! frame, compute moves, write one move-set line, until the transport
//! closes. The caller does the reading and writing and hands each line in
//! as bytes; `None` stands for end of stream.

use vstd::prelude::*;

use crate::codec::deserialize_map;
use crate::codec::deserialize_map_size;
use crate::codec::deserialize_productions;
use crate::codec::frame_result;
use crate::codec::move_token_seq;
use crate::codec::prods_result;
use crate::codec::serialize_move_set;
use crate::codec::size_result;
use crate::error::ProtocolError;
use crate::grid::GameMap;
use crate::moves::MoveSet;
use crate::text::bounded_token;
use crate::text::parse_bounded;
use crate::text::tokenize;
use crate::text::tokens;
use crate::text::val_of;

verus! {

/// What the player-tag line (first handshake message) decodes to: exactly
/// one byte-ranged integer.
pub open spec fn tag_result(line: Seq<u8>) -> Result<nat, ProtocolError> {
    let toks = tokens(line);
    if toks.len() == 0 {
        Err(ProtocolError::MissingField)
    } else if toks.len() > 1 || !bounded_token(toks[0], 255) {
        Err(ProtocolError::MalformedInt)
    } else {
        Ok(val_of(toks[0]))
    }
}

/// The bytes of an incoming line, or `None` at end of stream.
pub open spec fn line_view(line: Option<&Vec<u8>>) -> Option<Seq<u8>> {
    match line {
        Some(l) => Some(l@),
        None => None,
    }
}

/// What the whole four-line handshake decodes to: the player tag, the
/// board dimensions, and the owners and strengths the first map frame
/// assigns. The productions line is validated in full, though its values
/// are overwritten at once by the first frame, which rewrites every tile.
/// A missing line — end of stream mid-handshake — is `TransportClosed`.
pub open spec fn init_result(
    tag_line: Option<Seq<u8>>,
    size_line: Option<Seq<u8>>,
    prod_line: Option<Seq<u8>>,
    map_line: Option<Seq<u8>>,
) -> Result<(nat, nat, nat, Seq<nat>, Seq<nat>), ProtocolError> {
    match (tag_line, size_line, prod_line, map_line) {
        (Some(t), Some(s), Some(p), Some(m)) => match tag_result(t) {
            Err(e) => Err(e),
            Ok(tag) => match size_result(s) {
                Err(e) => Err(e),
                Ok(dims) => match prods_result(p, dims.0 * dims.1) {
                    Err(e) => Err(e),
                    Ok(prods) => match frame_result(m, dims.0 * dims.1) {
                        Err(e) => Err(e),
                        Ok(f) => Ok((tag, dims.0, dims.1, f.0, f.1)),
                    },
                },
            },
        },
        _ => Err(ProtocolError::TransportClosed),
    }
}

/// Runs the handshake on the four lines the caller read: player tag, size,
/// productions, first map frame. Returns the tag and the fully initialized
/// board.
pub fn get_init(
    tag_line: Option<&Vec<u8>>,
    size_line: Option<&Vec<u8>>,
    prod_line: Option<&Vec<u8>>,
    map_line: Option<&Vec<u8>>,
) -> (r: Result<(u8, GameMap), ProtocolError>)
    ensures
        match r {
            Ok(p) => {
                &&& init_result(
                    line_view(tag_line),
                    line_view(size_line),
                    line_view(prod_line),
                    line_view(map_line),
                ) matches Ok(q)
                &&& p.0 as nat == q.0
                &&& p.1.wf()
                &&& p.1.width as nat == q.1
                &&& p.1.height as nat == q.2
                &&& forall|i: int|
                    0 <= i < p.1.area() ==> (#[trigger] p.1.contents@[i]).owner as nat == q.3[i]
                        && p.1.contents@[i].strength as nat == q.4[i]
            },
            Err(e) => init_result(
                line_view(tag_line),
                line_view(size_line),
                line_view(prod_line),
                line_view(map_line),
            ) == Err::<(nat, nat, nat, Seq<nat>, Seq<nat>), _>(e),
        },
{
    let tl = match tag_line {
        Some(l) => l,
        None => {
            return Err(ProtocolError::TransportClosed);
        },
    };
    let sl = match size_line {
        Some(l) => l,
        None => {
            return Err(ProtocolError::TransportClosed);
        },
    };
    let pl = match prod_line {
        Some(l) => l,
        None => {
            return Err(ProtocolError::TransportClosed);
        },
    };
    let ml = match map_line {
        Some(l) => l,
        None => {
            return Err(ProtocolError::TransportClosed);
        },
    };
    let toks = tokenize(tl);
    if toks.len() == 0 {
        return Err(ProtocolError::MissingField);
    }
    if toks.len() > 1 {
        return Err(ProtocolError::MalformedInt);
    }
    let tag = match parse_bounded(&toks[0], 255) {
        Some(v) => v as u8,
        None => {
            return Err(ProtocolError::MalformedInt);
        },
    };
    let dims = match deserialize_map_size(sl) {
        Ok(d) => d,
        Err(e) => {
            return Err(e);
        },
    };
    let mut g = match deserialize_productions(pl, dims.0, dims.1) {
        Ok(g) => g,
        Err(e) => {
            return Err(e);
        },
    };
    match deserialize_map(ml, &mut g) {
        Ok(u) => {},
        Err(e) => {
            return Err(e);
        },
    }
    Ok((tag, g))
}

/// The init acknowledgment: the agent's display name, sent verbatim as one
/// line once the handshake has been decoded.
pub fn send_init_response(name: String) -> (r: String)
    ensures
        r == name,
{
    name
}

/// Applies one per-turn map line to the board. `None` means the transport
/// closed between turns: the session is over, reported as `Ok(false)` with
/// the board untouched — a normal shutdown, not an error. `Ok(true)` means
/// a frame was decoded and the board updated in place.
pub fn get_frame(line: Option<&Vec<u8>>, gmp: &mut GameMap) -> (r: Result<bool, ProtocolError>)
    requires
        old(gmp).wf(),
    ensures
        final(gmp).wf(),
        final(gmp).width == old(gmp).width,
        final(gmp).height == old(gmp).height,
        match line {
            None => r == Ok::<bool, ProtocolError>(false) && *final(gmp) == *old(gmp),
            Some(l) => match r {
                Ok(b) => {
                    &&& b == true
                    &&& frame_result(l@, old(gmp).area()) matches Ok(p)
                    &&& forall|i: int|
                        0 <= i < old(gmp).area() ==> (#[trigger] final(gmp).contents@[i]).owner
                            as nat == p.0[i] && final(gmp).contents@[i].strength as nat == p.1[i]
                },
                Err(e) => frame_result(l@, old(gmp).area()) == Err::<(Seq<nat>, Seq<nat>), _>(e)
                    && *final(gmp) == *old(gmp),
            },
        },
{
    match line {
        None => Ok(false),
        Some(l) => match deserialize_map(l, gmp) {
            Ok(u) => Ok(true),
            Err(e) => Err(e),
        },
    }
}

/// The move-set line to write for one turn, exactly as
/// [`serialize_move_set`] produces it.
pub fn send_frame(moves: &MoveSet) -> (r: Vec<u8>)
    ensures
        tokens(r@) == move_token_seq(moves@),
{
    serialize_move_set(moves)
}

} // verus!
