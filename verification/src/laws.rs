//! The protocol's global guarantees, stated once over all inputs and proved
//! from the codec's own specifications.

use vstd::prelude::*;

use crate::codec::move_facts;
use crate::codec::move_token_seq;
use crate::codec::moves_result;
use crate::codec::prods_result;
use crate::codec::rle_result;
use crate::codec::frame_result;
use crate::codec::size_result;
use crate::codec::strengths_result;
use crate::error::ProtocolError;
use crate::grid::Location;
use crate::text::bounded_token;
use crate::text::is_ws;
use crate::text::lemma_dec_rep_val;
use crate::text::lemma_tokens_all_ws;
use crate::text::numeric;
use crate::text::tokens;
use crate::text::val_of;

verus! {

/// Round trip: the line a move set encodes to always parses back,
/// token by token, to exactly the (coordinate, direction) facts the set
/// held — same coordinates, same directions, same multiplicity — whatever
/// the order of emission was. The entries here are arbitrary, so the claim
/// holds for every order the encoder might have walked the set in.
pub proof fn lemma_move_set_round_trip(entries: Seq<(Location, u8)>)
    ensures
        moves_result(move_token_seq(entries)) == Ok::<_, ProtocolError>(move_facts(entries)),
    decreases entries.len(),
{
    if entries.len() == 0 {
        assert(move_facts(entries) =~= Seq::<(nat, nat, nat)>::empty());
        assert(move_token_seq(entries) =~= Seq::<Seq<u8>>::empty());
    } else {
        let e0 = entries[0];
        lemma_move_set_round_trip(entries.skip(1));
        lemma_dec_rep_val(e0.0.x as nat);
        lemma_dec_rep_val(e0.0.y as nat);
        lemma_dec_rep_val(e0.1 as nat);
        let mts = move_token_seq(entries);
        let rest = move_token_seq(entries.skip(1));
        assert(mts.skip(3) =~= rest);
        let fact = (e0.0.x as nat, e0.0.y as nat, e0.1 as nat);
        assert(seq![fact] + move_facts(entries.skip(1)) =~= move_facts(entries));
    }
}

/// Empty move set: it encodes to a line with no tokens at all, and any
/// empty or whitespace-only line decodes back to the empty set.
pub proof fn lemma_empty_move_set_line(line: Seq<u8>)
    requires
        forall|i: int| 0 <= i < line.len() ==> is_ws(#[trigger] line[i]),
    ensures
        move_token_seq(Seq::<(Location, u8)>::empty()) == Seq::<Seq<u8>>::empty(),
        tokens(line) == Seq::<Seq<u8>>::empty(),
        moves_result(tokens(line)) == Ok::<_, ProtocolError>(Seq::<(nat, nat, nat)>::empty()),
{
    lemma_tokens_all_ws(line);
}

/// Conversely, a move-set line with no tokens is whitespace-only: the
/// encoder's output for an empty set never smuggles in a visible byte.
pub proof fn lemma_no_tokens_all_ws(s: Seq<u8>)
    requires
        tokens(s) == Seq::<Seq<u8>>::empty(),
    ensures
        forall|i: int| 0 <= i < s.len() ==> is_ws(#[trigger] s[i]),
    decreases s.len(),
{
    if s.len() > 0 {
        if is_ws(s[0]) {
            lemma_no_tokens_all_ws(s.skip(1));
            assert forall|i: int| 0 <= i < s.len() implies is_ws(#[trigger] s[i]) by {
                if i > 0 {
                    assert(s.skip(1)[i - 1] == s[i]);
                }
            }
        }
    }
}

/// Sum of the run lengths of a list of (run, owner) pairs starting at
/// token index `i`.
pub open spec fn run_sum(toks: Seq<Seq<u8>>, i: int) -> nat
    decreases toks.len() - i,
{
    if i < 0 || i + 2 > toks.len() {
        0
    } else {
        val_of(toks[i]) + run_sum(toks, i + 2)
    }
}

/// Run-length sum mismatch: an ownership section made of well-formed
/// (run, owner) pairs whose runs sum to fewer tiles than the board holds,
/// with no tokens after it, is a truncated run-length encoding. (Pairs
/// summing short with further tokens behind them are indistinguishable
/// from pairs: the decoder keeps consuming, and fails on whatever
/// structural violation it meets first.)
pub proof fn lemma_rle_sum_short(toks: Seq<Seq<u8>>, i: int, n: nat)
    requires
        0 <= i <= toks.len(),
        (toks.len() - i) % 2 == 0,
        forall|k: int| i <= k < toks.len() ==> bounded_token(#[trigger] toks[k], 255),
        forall|k: int|
            i <= k < toks.len() && (k - i) % 2 == 0 ==> val_of(#[trigger] toks[k]) >= 1,
        run_sum(toks, i) < n,
    ensures
        rle_result(toks, i, n) == Err::<(Seq<nat>, int), _>(
            ProtocolError::TruncatedRunLengthEncoding,
        ),
    decreases toks.len() - i,
{
    if i < toks.len() {
        let run = val_of(toks[i]);
        assert((i + 1 - i) % 2 == 1);
        assert(run >= 1);
        assert(run <= run_sum(toks, i));
        assert forall|k: int|
            i + 2 <= k < toks.len() && (k - (i + 2)) % 2 == 0 implies val_of(
            #[trigger] toks[k],
        ) >= 1 by {
            assert((k - i) % 2 == 0);
        }
        lemma_rle_sum_short(toks, i + 2, (n - run) as nat);
    }
}

/// The same, lifted to a whole map line: if the line's tokens are exactly
/// such a short pair list, the frame decode fails with
/// `TruncatedRunLengthEncoding`.
pub proof fn lemma_frame_sum_short(line: Seq<u8>, n: nat)
    requires
        tokens(line).len() % 2 == 0,
        forall|k: int|
            0 <= k < tokens(line).len() ==> bounded_token(#[trigger] tokens(line)[k], 255),
        forall|k: int|
            0 <= k < tokens(line).len() && k % 2 == 0 ==> val_of(#[trigger] tokens(line)[k]) >= 1,
        run_sum(tokens(line), 0) < n,
    ensures
        frame_result(line, n) == Err::<(Seq<nat>, Seq<nat>), _>(
            ProtocolError::TruncatedRunLengthEncoding,
        ),
{
    lemma_rle_sum_short(tokens(line), 0, n);
}

/// A non-numeric token in either of the two fields a size line consumes
/// yields `MalformedInt`, whichever position it is in.
pub proof fn lemma_size_malformed(line: Seq<u8>, i: int)
    requires
        tokens(line).len() >= 2,
        0 <= i < 2,
        !numeric(tokens(line)[i]),
    ensures
        size_result(line) == Err::<(nat, nat), _>(ProtocolError::MalformedInt),
{
}

/// A non-numeric token anywhere in a productions line of the right length
/// yields `MalformedInt`, regardless of its position.
pub proof fn lemma_prods_malformed(line: Seq<u8>, n: nat, i: int)
    requires
        tokens(line).len() == n,
        0 <= i < n,
        !numeric(tokens(line)[i]),
    ensures
        prods_result(line, n) == Err::<Seq<nat>, _>(ProtocolError::MalformedInt),
{
    assert(!bounded_token(tokens(line)[i], 255));
}

/// A non-numeric token in the first field the frame decoder reads yields
/// `MalformedInt` on a non-empty board. (Later positions depend on the run
/// lengths already consumed; the decoder reports the first violation it
/// meets, which the per-position spec functions pin down exactly.)
pub proof fn lemma_frame_malformed_first(line: Seq<u8>, n: nat)
    requires
        n > 0,
        tokens(line).len() > 0,
        !numeric(tokens(line)[0]),
    ensures
        frame_result(line, n) == Err::<(Seq<nat>, Seq<nat>), _>(ProtocolError::MalformedInt),
{
    assert(!bounded_token(tokens(line)[0], 255));
}

proof fn lemma_rle_malformed_has_bad_token(toks: Seq<Seq<u8>>, i: int, n: nat)
    requires
        0 <= i,
        rle_result(toks, i, n) == Err::<(Seq<nat>, int), _>(ProtocolError::MalformedInt),
    ensures
        exists|k: int| 0 <= k < toks.len() && !bounded_token(#[trigger] toks[k], 255),
    decreases n,
{
    if n > 0 && i < toks.len() && bounded_token(toks[i], 255) && i + 1 < toks.len()
        && bounded_token(toks[i + 1], 255) && val_of(toks[i]) >= 1 && val_of(toks[i]) <= n {
        lemma_rle_malformed_has_bad_token(toks, i + 2, (n - val_of(toks[i])) as nat);
    }
}

proof fn lemma_rle_end_after_start(toks: Seq<Seq<u8>>, i: int, n: nat)
    requires
        rle_result(toks, i, n) is Ok,
    ensures
        rle_result(toks, i, n)->Ok_0.1 >= i,
    decreases n,
{
    if n > 0 {
        lemma_rle_end_after_start(toks, i + 2, (n - val_of(toks[i])) as nat);
    }
}

proof fn lemma_strengths_malformed_has_bad_token(toks: Seq<Seq<u8>>, j: int, n: nat)
    requires
        0 <= j,
        strengths_result(toks, j, n) == Err::<Seq<nat>, _>(ProtocolError::MalformedInt),
    ensures
        exists|k: int| 0 <= k < toks.len() && !bounded_token(#[trigger] toks[k], 255),
    decreases n,
{
    if n > 0 && j < toks.len() && bounded_token(toks[j], 255) {
        lemma_strengths_malformed_has_bad_token(toks, j + 1, (n - 1) as nat);
    }
}

/// The completeness side of the `MalformedInt` story for map frames: the
/// frame decoder reports a malformed integer only when some token on the
/// line really is non-numeric or out of byte range. A line of well-formed
/// tokens can only succeed or fail structurally.
pub proof fn lemma_frame_malformed_has_bad_token(line: Seq<u8>, n: nat)
    requires
        frame_result(line, n) == Err::<(Seq<nat>, Seq<nat>), _>(ProtocolError::MalformedInt),
    ensures
        exists|k: int|
            0 <= k < tokens(line).len() && !bounded_token(#[trigger] tokens(line)[k], 255),
{
    let toks = tokens(line);
    match rle_result(toks, 0, n) {
        Ok(p) => {
            lemma_rle_end_after_start(toks, 0, n);
            lemma_strengths_malformed_has_bad_token(toks, p.1, n);
        },
        Err(e) => {
            lemma_rle_malformed_has_bad_token(toks, 0, n);
        },
    }
}

} // verus!
