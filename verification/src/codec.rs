//! Frame codec: the translation between text lines and the grid model.
//!
//! Each `*_result` spec function states exactly what a decoder returns for
//! every possible line, including which error it fails with; the executable
//! decoders are proved to agree with them. Checks are ordered as the decoder
//! consumes tokens, left to right, which fixes which error wins when a line
//! is wrong in more than one way.

use vstd::prelude::*;

use crate::error::ProtocolError;
use crate::grid::GameMap;
use crate::grid::Tile;
use crate::grid::lemma_area_fits;
use crate::grid::Location;
use crate::moves::MoveSet;
use crate::text::bounded_token;
use crate::text::dec_rep;
use crate::text::is_ws;
use crate::text::lemma_dec_rep_val;
use crate::text::lemma_tokens_append;
use crate::text::lemma_tokens_tok_sp;
use crate::text::push_dec;
use crate::text::parse_bounded;
use crate::text::token_views;
use crate::text::tokenize;
use crate::text::tokens;
use crate::text::val_of;

verus! {

/// What the size line decodes to: `width` then `height`, both `u16`-ranged.
pub open spec fn size_result(line: Seq<u8>) -> Result<(nat, nat), ProtocolError> {
    let toks = tokens(line);
    if toks.len() < 2 {
        Err(ProtocolError::MissingField)
    } else if !bounded_token(toks[0], 0xFFFF) || !bounded_token(toks[1], 0xFFFF) {
        Err(ProtocolError::MalformedInt)
    } else {
        Ok((val_of(toks[0]), val_of(toks[1])))
    }
}

/// What a productions line over an `n`-tile board decodes to: exactly `n`
/// byte-ranged integers, the per-tile strengths in row-major order.
pub open spec fn prods_result(line: Seq<u8>, n: nat) -> Result<Seq<nat>, ProtocolError> {
    let toks = tokens(line);
    if toks.len() != n {
        Err(ProtocolError::TokenCountMismatch)
    } else if exists|i: int| 0 <= i < toks.len() && !bounded_token(#[trigger] toks[i], 255) {
        Err(ProtocolError::MalformedInt)
    } else {
        Ok(Seq::new(n, |i: int| val_of(toks[i])))
    }
}

/// The run-length-encoded ownership section: `(run, owner)` pairs consumed
/// from `toks` starting at index `i` until `n` tiles are covered. On success
/// the result is the `n` owners in row-major order plus the index of the
/// first token after the section. The runs must tile the board exactly: a
/// zero-length run, a run past the end of the board, or running out of
/// tokens mid-pair is `TruncatedRunLengthEncoding`.
pub open spec fn rle_result(toks: Seq<Seq<u8>>, i: int, n: nat) -> Result<
    (Seq<nat>, int),
    ProtocolError,
>
    decreases n,
{
    if n == 0 {
        Ok((Seq::empty(), i))
    } else if i >= toks.len() {
        Err(ProtocolError::TruncatedRunLengthEncoding)
    } else if !bounded_token(toks[i], 255) {
        Err(ProtocolError::MalformedInt)
    } else if i + 1 >= toks.len() {
        Err(ProtocolError::TruncatedRunLengthEncoding)
    } else if !bounded_token(toks[i + 1], 255) {
        Err(ProtocolError::MalformedInt)
    } else if val_of(toks[i]) == 0 || val_of(toks[i]) > n {
        Err(ProtocolError::TruncatedRunLengthEncoding)
    } else {
        match rle_result(toks, i + 2, (n - val_of(toks[i])) as nat) {
            Ok((rest, j)) => Ok(
                (Seq::new(val_of(toks[i]), |k: int| val_of(toks[i + 1])) + rest, j),
            ),
            Err(e) => Err(e),
        }
    }
}

/// The flat strength section: `n` byte-ranged integers from token index `j`,
/// in row-major order. Running out of tokens is `TokenCountMismatch`.
pub open spec fn strengths_result(toks: Seq<Seq<u8>>, j: int, n: nat) -> Result<
    Seq<nat>,
    ProtocolError,
>
    decreases n,
{
    if n == 0 {
        Ok(Seq::empty())
    } else if j >= toks.len() {
        Err(ProtocolError::TokenCountMismatch)
    } else if !bounded_token(toks[j], 255) {
        Err(ProtocolError::MalformedInt)
    } else {
        match strengths_result(toks, j + 1, (n - 1) as nat) {
            Ok(rest) => Ok(seq![val_of(toks[j])] + rest),
            Err(e) => Err(e),
        }
    }
}

/// What a per-turn map line over an `n`-tile board decodes to: the ownership
/// section, then the strength section, sharing one token stream. Tokens past
/// the two sections are ignored, as the engine's own clients do.
pub open spec fn frame_result(line: Seq<u8>, n: nat) -> Result<
    (Seq<nat>, Seq<nat>),
    ProtocolError,
> {
    let toks = tokens(line);
    match rle_result(toks, 0, n) {
        Ok((owners, j)) => match strengths_result(toks, j, n) {
            Ok(sts) => Ok((owners, sts)),
            Err(e) => Err(e),
        },
        Err(e) => Err(e),
    }
}

/// Decodes the size line of the handshake into `(width, height)`.
pub fn deserialize_map_size(line: &Vec<u8>) -> (r: Result<(u16, u16), ProtocolError>)
    ensures
        match r {
            Ok(d) => size_result(line@) == Ok::<_, ProtocolError>((d.0 as nat, d.1 as nat)),
            Err(e) => size_result(line@) == Err::<(nat, nat), _>(e),
        },
{
    let toks = tokenize(line);
    if toks.len() < 2 {
        return Err(ProtocolError::MissingField);
    }
    let w = match parse_bounded(&toks[0], 0xFFFF) {
        Some(v) => v,
        None => {
            return Err(ProtocolError::MalformedInt);
        },
    };
    let h = match parse_bounded(&toks[1], 0xFFFF) {
        Some(v) => v,
        None => {
            return Err(ProtocolError::MalformedInt);
        },
    };
    Ok((w as u16, h as u16))
}

/// Decodes the initial productions line into a freshly allocated board:
/// every tile unclaimed (`owner` 0), strengths taken positionally from the
/// line in row-major order, the token at index `y * width + x` landing on
/// the tile at `(x, y)`.
pub fn deserialize_productions(line: &Vec<u8>, width: u16, height: u16) -> (r: Result<
    GameMap,
    ProtocolError,
>)
    ensures
        match r {
            Ok(g) => {
                &&& prods_result(line@, width as nat * height as nat) matches Ok(sts)
                &&& g.wf()
                &&& g.width == width
                &&& g.height == height
                &&& forall|i: int|
                    0 <= i < g.area() ==> g.contents@[i].owner == 0 && (
                    #[trigger] g.contents@[i]).strength as nat == sts[i]
            },
            Err(e) => prods_result(line@, width as nat * height as nat) == Err::<Seq<nat>, _>(e),
        },
{
    proof {
        lemma_area_fits(width, height);
    }
    let n: usize = (width as usize) * (height as usize);
    let toks = tokenize(line);
    if toks.len() != n {
        return Err(ProtocolError::TokenCountMismatch);
    }
    let mut g = GameMap::new(width, height);
    let mut i: usize = 0;
    while i < n
        invariant
            i <= n,
            n == width as nat * height as nat,
            toks@.len() == n,
            token_views(toks@) == tokens(line@),
            g.wf(),
            g.width == width,
            g.height == height,
            forall|q: int|
                0 <= q < i ==> bounded_token(#[trigger] token_views(toks@)[q], 255),
            forall|q: int|
                0 <= q < i ==> g.contents@[q].owner == 0 && (#[trigger] g.contents@[q]).strength
                    as nat == val_of(token_views(toks@)[q]),
        decreases n - i,
    {
        let v = match parse_bounded(&toks[i], 255) {
            Some(v) => v,
            None => {
                proof {
                    assert(!bounded_token(tokens(line@)[i as int], 255));
                }
                return Err(ProtocolError::MalformedInt);
            },
        };
        g.contents[i] = Tile { owner: 0, strength: v as u8 };
        i += 1;
    }
    Ok(g)
}

/// A byte vector read as the mathematical values its entries stand for.
pub open spec fn byte_vals(s: Seq<u8>) -> Seq<nat> {
    s.map_values(|b: u8| b as nat)
}

/// Decodes one per-turn map line into an already-initialized board,
/// overwriting every tile's owner and strength in place: first the
/// run-length-encoded ownership section, then the flat strength section,
/// both in row-major order. On any error the board is left exactly as it
/// was.
pub fn deserialize_map(line: &Vec<u8>, gmp: &mut GameMap) -> (r: Result<(), ProtocolError>)
    requires
        old(gmp).wf(),
    ensures
        final(gmp).width == old(gmp).width,
        final(gmp).height == old(gmp).height,
        final(gmp).wf(),
        match r {
            Ok(u) => {
                &&& frame_result(line@, old(gmp).area()) matches Ok(p)
                &&& forall|i: int|
                    0 <= i < old(gmp).area() ==> (#[trigger] final(gmp).contents@[i]).owner as nat
                        == p.0[i] && final(gmp).contents@[i].strength as nat == p.1[i]
            },
            Err(e) => frame_result(line@, old(gmp).area()) == Err::<(Seq<nat>, Seq<nat>), _>(e)
                && *final(gmp) == *old(gmp),
        },
{
    proof {
        lemma_area_fits(old(gmp).width, old(gmp).height);
    }
    let n: usize = (gmp.width as usize) * (gmp.height as usize);
    let toks = tokenize(line);
    let ghost tv = tokens(line@);

    // Ownership section: consume (run, owner) pairs until all n tiles are
    // covered.
    let mut owners: Vec<u8> = Vec::new();
    let mut used: usize = 0;
    while owners.len() < n
        invariant
            owners@.len() <= n,
            used <= toks@.len(),
            n == old(gmp).area(),
            *gmp == *old(gmp),
            gmp.wf(),
            token_views(toks@) == tv,
            tv == tokens(line@),
            rle_result(tv, 0, n as nat) == (match rle_result(
                tv,
                used as int,
                (n - owners@.len()) as nat,
            ) {
                Ok(p) => Ok::<_, ProtocolError>((byte_vals(owners@) + p.0, p.1)),
                Err(e) => Err(e),
            }),
        decreases n - owners@.len(),
    {
        let rem = n - owners.len();
        if used >= toks.len() {
            return Err(ProtocolError::TruncatedRunLengthEncoding);
        }
        let run = match parse_bounded(&toks[used], 255) {
            Some(v) => v,
            None => {
                return Err(ProtocolError::MalformedInt);
            },
        };
        if used + 1 >= toks.len() {
            return Err(ProtocolError::TruncatedRunLengthEncoding);
        }
        let owner = match parse_bounded(&toks[used + 1], 255) {
            Some(v) => v,
            None => {
                return Err(ProtocolError::MalformedInt);
            },
        };
        if run == 0 || run > rem as u64 {
            return Err(ProtocolError::TruncatedRunLengthEncoding);
        }
        let run_u: usize = run as usize;
        let owner_b: u8 = owner as u8;
        let ghost snap = owners@;
        let mut k: usize = 0;
        while k < run_u
            invariant
                k <= run_u,
                owners@ == snap + Seq::new(k as nat, |q: int| owner_b),
            decreases run_u - k,
        {
            proof {
                assert(snap + Seq::new((k + 1) as nat, |q: int| owner_b) =~= (snap + Seq::new(
                    k as nat,
                    |q: int| owner_b,
                )).push(owner_b));
            }
            owners.push(owner_b);
            k += 1;
        }
        proof {
            let i = used as int;
            let remn = (n - snap.len()) as nat;
            let tail = rle_result(tv, i + 2, (remn - run) as nat);
            assert(rle_result(tv, i, remn) == (match tail {
                Ok(p) => Ok::<_, ProtocolError>(
                    (Seq::new(run as nat, |q: int| val_of(tv[i + 1])) + p.0, p.1),
                ),
                Err(e) => Err(e),
            }));
            assert(byte_vals(owners@) =~= byte_vals(snap) + Seq::new(
                run as nat,
                |q: int| owner as nat,
            ));
            if tail is Ok {
                let rest = tail->Ok_0.0;
                assert(byte_vals(snap) + (Seq::new(run as nat, |q: int| owner as nat) + rest)
                    =~= byte_vals(owners@) + rest);
            }
        }
        used += 2;
    }
    proof {
        assert(rle_result(tv, used as int, 0) == Ok::<_, ProtocolError>(
            (Seq::<nat>::empty(), used as int),
        ));
        assert(byte_vals(owners@) + Seq::<nat>::empty() =~= byte_vals(owners@));
    }
    let ghost owners_final = byte_vals(owners@);
    let rle_end: usize = used;

    // Strength section: exactly n more integers, flat.
    let mut sts: Vec<u8> = Vec::new();
    let mut j: usize = rle_end;
    while sts.len() < n
        invariant
            sts@.len() <= n,
            j <= toks@.len(),
            j as int == rle_end + sts@.len(),
            n == old(gmp).area(),
            *gmp == *old(gmp),
            gmp.wf(),
            token_views(toks@) == tv,
            tv == tokens(line@),
            owners@.len() == n,
            byte_vals(owners@) == owners_final,
            rle_result(tv, 0, n as nat) == Ok::<_, ProtocolError>((owners_final, rle_end as int)),
            strengths_result(tv, rle_end as int, n as nat) == (match strengths_result(
                tv,
                j as int,
                (n - sts@.len()) as nat,
            ) {
                Ok(rest) => Ok::<_, ProtocolError>(byte_vals(sts@) + rest),
                Err(e) => Err(e),
            }),
        decreases n - sts@.len(),
    {
        if j >= toks.len() {
            return Err(ProtocolError::TokenCountMismatch);
        }
        let v = match parse_bounded(&toks[j], 255) {
            Some(v) => v,
            None => {
                return Err(ProtocolError::MalformedInt);
            },
        };
        proof {
            let tail = strengths_result(tv, j as int + 1, ((n - sts@.len()) as nat - 1) as nat);
            assert(strengths_result(tv, j as int, (n - sts@.len()) as nat) == (match tail {
                Ok(rest) => Ok::<_, ProtocolError>(seq![val_of(tv[j as int])] + rest),
                Err(e) => Err(e),
            }));
            assert(byte_vals(sts@.push(v as u8)) =~= byte_vals(sts@) + seq![v as nat]);
            if tail is Ok {
                let rest = tail->Ok_0;
                assert(byte_vals(sts@) + (seq![v as nat] + rest) =~= byte_vals(sts@.push(v as u8))
                    + rest);
            }
        }
        sts.push(v as u8);
        j += 1;
    }
    proof {
        assert(strengths_result(tv, j as int, 0) == Ok::<_, ProtocolError>(Seq::<nat>::empty()));
        assert(byte_vals(sts@) + Seq::<nat>::empty() =~= byte_vals(sts@));
    }

    // Both sections decoded; overwrite the board in place.
    let mut i: usize = 0;
    while i < n
        invariant
            i <= n,
            n == old(gmp).area(),
            gmp.wf(),
            gmp.width == old(gmp).width,
            gmp.height == old(gmp).height,
            gmp.contents@.len() == n,
            owners@.len() == n,
            sts@.len() == n,
            frame_result(line@, n as nat) == Ok::<_, ProtocolError>(
                (byte_vals(owners@), byte_vals(sts@)),
            ),
            forall|q: int|
                0 <= q < i ==> (#[trigger] gmp.contents@[q]) == (Tile {
                    owner: owners@[q],
                    strength: sts@[q],
                }),
        decreases n - i,
    {
        gmp.contents[i] = Tile { owner: owners[i], strength: sts[i] };
        i += 1;
    }
    Ok(())
}

/// The token stream a move set encodes to: for each entry in order, the
/// decimal renderings of `x`, `y` and the direction code.
pub open spec fn move_token_seq(entries: Seq<(Location, u8)>) -> Seq<Seq<u8>>
    decreases entries.len(),
{
    if entries.len() == 0 {
        Seq::empty()
    } else {
        seq![
            dec_rep(entries[0].0.x as nat),
            dec_rep(entries[0].0.y as nat),
            dec_rep(entries[0].1 as nat),
        ] + move_token_seq(entries.skip(1))
    }
}

/// The (x, y, direction) facts a move set states, in entry order.
pub open spec fn move_facts(entries: Seq<(Location, u8)>) -> Seq<(nat, nat, nat)> {
    entries.map_values(|e: (Location, u8)| (e.0.x as nat, e.0.y as nat, e.1 as nat))
}

/// What a move-set line decodes to: the tokens read in threes as
/// `x y direction` facts. A trailing group of one or two tokens is
/// `MissingField`; an out-of-range or non-numeric token is `MalformedInt`.
pub open spec fn moves_result(toks: Seq<Seq<u8>>) -> Result<Seq<(nat, nat, nat)>, ProtocolError>
    decreases toks.len(),
{
    if toks.len() == 0 {
        Ok(Seq::empty())
    } else if toks.len() < 3 {
        Err(ProtocolError::MissingField)
    } else if !bounded_token(toks[0], 0xFFFF) || !bounded_token(toks[1], 0xFFFF)
        || !bounded_token(toks[2], 255) {
        Err(ProtocolError::MalformedInt)
    } else {
        match moves_result(toks.skip(3)) {
            Ok(rest) => Ok(seq![(val_of(toks[0]), val_of(toks[1]), val_of(toks[2]))] + rest),
            Err(e) => Err(e),
        }
    }
}

/// Extending a move set by one entry appends its three tokens.
proof fn lemma_mts_take_snoc(entries: Seq<(Location, u8)>, i: int)
    requires
        0 <= i < entries.len(),
    ensures
        move_token_seq(entries.take(i + 1)) == move_token_seq(entries.take(i)) + seq![
            dec_rep(entries[i].0.x as nat),
            dec_rep(entries[i].0.y as nat),
            dec_rep(entries[i].1 as nat),
        ],
    decreases i,
{
    let triple = seq![
        dec_rep(entries[i].0.x as nat),
        dec_rep(entries[i].0.y as nat),
        dec_rep(entries[i].1 as nat),
    ];
    if i == 0 {
        assert(entries.take(0) =~= Seq::<(Location, u8)>::empty());
        assert(entries.take(1).len() == 1);
        assert(entries.take(1)[0] == entries[0]);
        assert(entries.take(1).skip(1) =~= Seq::<(Location, u8)>::empty());
        assert(move_token_seq(Seq::<(Location, u8)>::empty()) == Seq::<Seq<u8>>::empty());
        assert(move_token_seq(entries.take(1)) == triple + move_token_seq(
            entries.take(1).skip(1),
        ));
        assert(triple + Seq::<Seq<u8>>::empty() =~= Seq::<Seq<u8>>::empty() + triple);
    } else {
        lemma_mts_take_snoc(entries.skip(1), i - 1);
        assert(entries.take(i + 1).skip(1) =~= entries.skip(1).take(i));
        assert(entries.take(i).skip(1) =~= entries.skip(1).take(i - 1));
        assert(entries.take(i + 1)[0] == entries[0]);
        assert(entries.take(i)[0] == entries[0]);
        assert(entries.skip(1)[i - 1] == entries[i]);
        let head = seq![
            dec_rep(entries[0].0.x as nat),
            dec_rep(entries[0].0.y as nat),
            dec_rep(entries[0].1 as nat),
        ];
        assert((head + move_token_seq(entries.skip(1).take(i - 1))) + triple =~= head + (
        move_token_seq(entries.skip(1).take(i - 1)) + triple));
    }
}

/// Appends the decimal rendering of a value and a separating space.
fn push_token(out: &mut Vec<u8>, v: u16)
    ensures
        final(out)@ == old(out)@ + dec_rep(v as nat) + seq![32u8],
{
    push_dec(out, v);
    out.push(32);
    proof {
        assert((old(out)@ + dec_rep(v as nat)).push(32u8) =~= old(out)@ + dec_rep(v as nat)
            + seq![32u8]);
    }
}

/// Encodes a move set as one line: `x y direction` for every entry, all
/// space-separated, trailing space permitted, entries in the set's own
/// order. The engine reads the line as an unordered collection of facts, so
/// the order carries no meaning.
pub fn serialize_move_set(moves: &MoveSet) -> (r: Vec<u8>)
    ensures
        tokens(r@) == move_token_seq(moves@),
{
    let mut out: Vec<u8> = Vec::new();
    let mut i: usize = 0;
    while i < moves.len()
        invariant
            i <= moves@.len(),
            tokens(out@) == move_token_seq(moves@.take(i as int)),
            out@.len() == 0 || is_ws(out@.last()),
        decreases moves@.len() - i,
    {
        let entry = moves.entry_at(i);
        let ghost snap = out@;
        push_token(&mut out, entry.0.x);
        push_token(&mut out, entry.0.y);
        push_token(&mut out, entry.1 as u16);
        proof {
            let dx = dec_rep(entry.0.x as nat);
            let dy = dec_rep(entry.0.y as nat);
            let dd = dec_rep(entry.1 as nat);
            let sp = seq![32u8];
            let piece = dx + sp + (dy + sp + (dd + sp));
            assert(out@ =~= snap + piece);
            lemma_dec_rep_val(entry.0.x as nat);
            lemma_dec_rep_val(entry.0.y as nat);
            lemma_dec_rep_val(entry.1 as nat);
            lemma_tokens_tok_sp(dx, dy + sp + (dd + sp));
            lemma_tokens_tok_sp(dy, dd + sp);
            lemma_tokens_tok_sp(dd, Seq::<u8>::empty());
            assert(dd + sp =~= dd + sp + Seq::<u8>::empty());
            lemma_tokens_append(snap, piece);
            assert(tokens(piece) =~= seq![dx, dy, dd]);
            lemma_mts_take_snoc(moves@, i as int);
            assert(tokens(snap) + seq![dx, dy, dd] =~= move_token_seq(
                moves@.take(i as int + 1),
            ));
        }
        i += 1;
    }
    proof {
        assert(moves@.take(moves@.len() as int) =~= moves@);
    }
    out
}

/// Decodes a move-set line back into the facts it states, token by token.
pub fn deserialize_move_set(line: &Vec<u8>) -> (r: Result<MoveSet, ProtocolError>)
    ensures
        match r {
            Ok(ms) => moves_result(tokens(line@)) == Ok::<_, ProtocolError>(move_facts(ms@)),
            Err(e) => moves_result(tokens(line@)) == Err::<Seq<(nat, nat, nat)>, _>(e),
        },
{
    let toks = tokenize(line);
    let ghost tv = tokens(line@);
    let mut entries: Vec<(Location, u8)> = Vec::new();
    let mut i: usize = 0;
    proof {
        assert(tv.skip(0) =~= tv);
        if moves_result(tv) is Ok {
            assert(move_facts(entries@) + moves_result(tv)->Ok_0 =~= moves_result(tv)->Ok_0);
        }
    }
    while i < toks.len()
        invariant
            i <= toks@.len(),
            token_views(toks@) == tv,
            tv == tokens(line@),
            moves_result(tv) == (match moves_result(tv.skip(i as int)) {
                Ok(rest) => Ok::<_, ProtocolError>(move_facts(entries@) + rest),
                Err(e) => Err(e),
            }),
        decreases toks@.len() - i,
    {
        if toks.len() - i < 3 {
            return Err(ProtocolError::MissingField);
        }
        let x = match parse_bounded(&toks[i], 0xFFFF) {
            Some(v) => v,
            None => {
                return Err(ProtocolError::MalformedInt);
            },
        };
        let y = match parse_bounded(&toks[i + 1], 0xFFFF) {
            Some(v) => v,
            None => {
                return Err(ProtocolError::MalformedInt);
            },
        };
        let d = match parse_bounded(&toks[i + 2], 255) {
            Some(v) => v,
            None => {
                return Err(ProtocolError::MalformedInt);
            },
        };
        let entry = (Location { x: x as u16, y: y as u16 }, d as u8);
        proof {
            let rem = tv.skip(i as int);
            assert(rem[0] == tv[i as int]);
            assert(rem[1] == tv[i as int + 1]);
            assert(rem[2] == tv[i as int + 2]);
            assert(rem.skip(3) =~= tv.skip(i as int + 3));
            let tail = moves_result(tv.skip(i as int + 3));
            let fact = (x as nat, y as nat, d as nat);
            assert(move_facts(entries@.push(entry)) =~= move_facts(entries@) + seq![fact]);
            if tail is Ok {
                let rest = tail->Ok_0;
                assert(move_facts(entries@) + (seq![fact] + rest) =~= move_facts(
                    entries@.push(entry),
                ) + rest);
            }
        }
        entries.push(entry);
        i += 3;
    }
    proof {
        assert(tv.skip(tv.len() as int) =~= Seq::<Seq<u8>>::empty());
        assert(move_facts(entries@) + Seq::<(nat, nat, nat)>::empty() =~= move_facts(entries@));
    }
    Ok(MoveSet { entries })
}

} // verus!
