//! Text-level model of the wire format: lines are byte sequences, split on
//! runs of whitespace into tokens, and every token the protocol consumes is
//! an unsigned decimal integer.

use vstd::prelude::*;

verus! {

/// ASCII codes the tokenizer treats as whitespace: space, tab, CR, LF.
pub open spec fn is_ws(b: u8) -> bool {
    b == 32 || b == 9 || b == 13 || b == 10
}

/// ASCII decimal digit.
pub open spec fn is_digit(b: u8) -> bool {
    48 <= b && b <= 57
}

pub open spec fn digit_val(b: u8) -> nat {
    (b - 48) as nat
}

/// Length of the leading run of non-whitespace bytes.
pub open spec fn tok_len(s: Seq<u8>) -> nat
    decreases s.len(),
{
    if s.len() == 0 || is_ws(s[0]) {
        0
    } else {
        1 + tok_len(s.skip(1))
    }
}

/// The whitespace-separated tokens of a line, in order. Runs of whitespace
/// count as a single delimiter, and leading or trailing whitespace yields no
/// empty tokens.
pub open spec fn tokens(s: Seq<u8>) -> Seq<Seq<u8>>
    decreases s.len(),
    via tokens_decreases
{
    if s.len() == 0 {
        Seq::empty()
    } else if is_ws(s[0]) {
        tokens(s.skip(1))
    } else {
        seq![s.take(tok_len(s) as int)] + tokens(s.skip(tok_len(s) as int))
    }
}

#[via_fn]
proof fn tokens_decreases(s: Seq<u8>) {
    if s.len() > 0 && !is_ws(s[0]) {
        lemma_tok_len_le(s);
        assert(tok_len(s) == 1 + tok_len(s.skip(1)));
    }
}

/// The leading token never extends past the end of the line.
pub proof fn lemma_tok_len_le(s: Seq<u8>)
    ensures
        tok_len(s) <= s.len(),
    decreases s.len(),
{
    if s.len() > 0 && !is_ws(s[0]) {
        lemma_tok_len_le(s.skip(1));
    }
}

/// A token that is a well-formed unsigned decimal integer: nonempty, all
/// digits. Leading zeros are permitted, as in the engine's own format.
pub open spec fn numeric(t: Seq<u8>) -> bool {
    t.len() > 0 && forall|i: int| 0 <= i < t.len() ==> is_digit(#[trigger] t[i])
}

/// The value of a digit string, most significant digit first.
pub open spec fn val_of(t: Seq<u8>) -> nat
    decreases t.len(),
{
    if t.len() == 0 {
        0
    } else {
        val_of(t.drop_last()) * 10 + digit_val(t.last())
    }
}

/// A numeric token whose value fits the given bound.
pub open spec fn bounded_token(t: Seq<u8>, max: nat) -> bool {
    numeric(t) && val_of(t) <= max
}

/// The canonical decimal rendering of a value: no leading zeros, `"0"` for 0.
pub open spec fn dec_rep(v: nat) -> Seq<u8>
    decreases v,
{
    if v < 10 {
        seq![(48 + v) as u8]
    } else {
        dec_rep(v / 10).push((48 + v % 10) as u8)
    }
}

/// The views of a list of token buffers.
pub open spec fn token_views(ts: Seq<Vec<u8>>) -> Seq<Seq<u8>> {
    ts.map_values(|t: Vec<u8>| t@)
}

/// If the first `k` bytes of a line are non-whitespace and the byte after
/// them (if any) is whitespace, the leading token is exactly those `k` bytes.
pub proof fn lemma_tok_len_prefix(s: Seq<u8>, k: int)
    requires
        0 <= k <= s.len(),
        forall|i: int| 0 <= i < k ==> !is_ws(#[trigger] s[i]),
        k < s.len() ==> is_ws(s[k]),
    ensures
        tok_len(s) == k,
    decreases k,
{
    if k == 0 {
    } else {
        lemma_tok_len_prefix(s.skip(1), k - 1);
    }
}

/// Splitting off a complete leading token: if `cur` is a nonempty run of
/// non-whitespace bytes and `rest` is empty or starts with whitespace, then
/// the tokens of `cur + rest` are `cur` followed by the tokens of `rest`.
pub proof fn lemma_tokens_close(cur: Seq<u8>, rest: Seq<u8>)
    requires
        cur.len() > 0,
        forall|i: int| 0 <= i < cur.len() ==> !is_ws(#[trigger] cur[i]),
        rest.len() == 0 || is_ws(rest[0]),
    ensures
        tokens(cur + rest) == seq![cur] + tokens(rest),
{
    let s = cur + rest;
    assert forall|i: int| 0 <= i < cur.len() implies !is_ws(#[trigger] s[i]) by {
        assert(s[i] == cur[i]);
    }
    lemma_tok_len_prefix(s, cur.len() as int);
    assert(s.take(cur.len() as int) =~= cur);
    assert(s.skip(cur.len() as int) =~= rest);
}

/// A line of pure whitespace has no tokens.
pub proof fn lemma_tokens_all_ws(s: Seq<u8>)
    requires
        forall|i: int| 0 <= i < s.len() ==> is_ws(#[trigger] s[i]),
    ensures
        tokens(s) == Seq::<Seq<u8>>::empty(),
    decreases s.len(),
{
    if s.len() > 0 {
        lemma_tokens_all_ws(s.skip(1));
    }
}

/// The canonical decimal rendering is a numeric token and reads back as the
/// value it was rendered from.
pub proof fn lemma_dec_rep_val(v: nat)
    ensures
        numeric(dec_rep(v)),
        val_of(dec_rep(v)) == v,
    decreases v,
{
    if v < 10 {
        let t = dec_rep(v);
        assert(t.drop_last() =~= Seq::<u8>::empty());
        assert(val_of(t) == val_of(t.drop_last()) * 10 + digit_val(t.last()));
    } else {
        lemma_dec_rep_val(v / 10);
        let t = dec_rep(v);
        assert(t.drop_last() =~= dec_rep(v / 10));
        assert(val_of(t) == (v / 10) * 10 + v % 10);
    }
}

/// The leading token is a run of non-whitespace bytes ending at the first
/// whitespace byte, if there is one.
pub proof fn lemma_tok_len_spec(s: Seq<u8>)
    ensures
        tok_len(s) <= s.len(),
        forall|i: int| 0 <= i < tok_len(s) ==> !is_ws(#[trigger] s[i]),
        tok_len(s) < s.len() ==> is_ws(s[tok_len(s) as int]),
    decreases s.len(),
{
    if s.len() > 0 && !is_ws(s[0]) {
        lemma_tok_len_spec(s.skip(1));
        assert forall|i: int| 0 <= i < tok_len(s) implies !is_ws(#[trigger] s[i]) by {
            if i > 0 {
                assert(s.skip(1)[i - 1] == s[i]);
            }
        }
        if tok_len(s) < s.len() {
            assert(s.skip(1)[tok_len(s) as int - 1] == s[tok_len(s) as int]);
        }
    }
}

/// Appending to a line that ends in whitespace leaves its leading token
/// unchanged.
pub proof fn lemma_tok_len_append(a: Seq<u8>, b: Seq<u8>)
    requires
        a.len() > 0,
        is_ws(a.last()),
    ensures
        tok_len(a + b) == tok_len(a),
    decreases a.len(),
{
    if is_ws(a[0]) {
        assert((a + b)[0] == a[0]);
    } else {
        assert(a.skip(1).last() == a.last());
        lemma_tok_len_append(a.skip(1), b);
        assert((a + b).skip(1) =~= a.skip(1) + b);
    }
}

/// Tokenizing distributes over concatenation at a whitespace boundary.
pub proof fn lemma_tokens_append(a: Seq<u8>, b: Seq<u8>)
    requires
        a.len() == 0 || is_ws(a.last()),
    ensures
        tokens(a + b) == tokens(a) + tokens(b),
    decreases a.len(),
{
    if a.len() == 0 {
        assert(a + b =~= b);
        assert(tokens(a) + tokens(b) =~= tokens(b));
    } else if is_ws(a[0]) {
        assert((a + b).skip(1) =~= a.skip(1) + b);
        if a.len() > 1 {
            assert(a.skip(1).last() == a.last());
        }
        lemma_tokens_append(a.skip(1), b);
    } else {
        lemma_tok_len_append(a, b);
        lemma_tok_len_spec(a);
        let k = tok_len(a) as int;
        assert(k >= 1) by {
            assert(tok_len(a) == 1 + tok_len(a.skip(1)));
        }
        assert(k < a.len()) by {
            if k == a.len() {
                assert(!is_ws(a[a.len() - 1]));
            }
        }
        assert((a + b).take(k) =~= a.take(k));
        assert((a + b).skip(k) =~= a.skip(k) + b);
        assert(a.skip(k).last() == a.last());
        lemma_tokens_append(a.skip(k), b);
        assert((seq![a.take(k)] + tokens(a.skip(k))) + tokens(b) =~= seq![a.take(k)] + (tokens(
            a.skip(k),
        ) + tokens(b)));
    }
}

/// The tokens of an encoded numeric token, a space, and whatever follows:
/// the token itself, then the tokens of the rest.
pub proof fn lemma_tokens_tok_sp(t: Seq<u8>, rest: Seq<u8>)
    requires
        numeric(t),
    ensures
        tokens(t + seq![32u8] + rest) == seq![t] + tokens(rest),
{
    assert forall|i: int| 0 <= i < t.len() implies !is_ws(#[trigger] t[i]) by {
        assert(is_digit(t[i]));
    }
    let s1 = seq![32u8] + rest;
    assert(t + seq![32u8] + rest =~= t + s1);
    lemma_tokens_close(t, s1);
    assert(s1.skip(1) =~= rest);
}

/// Splits a line into its whitespace-separated tokens.
pub fn tokenize(line: &Vec<u8>) -> (r: Vec<Vec<u8>>)
    ensures
        token_views(r@) == tokens(line@),
{
    let mut toks: Vec<Vec<u8>> = Vec::new();
    let mut cur: Vec<u8> = Vec::new();
    let mut i: usize = 0;
    proof {
        assert(Seq::<u8>::empty() + line@.skip(0) =~= line@);
        assert(token_views(Seq::<Vec<u8>>::empty()) + tokens(line@) =~= tokens(line@));
    }
    while i < line.len()
        invariant
            i <= line.len(),
            forall|j: int| 0 <= j < cur@.len() ==> !is_ws(#[trigger] cur@[j]),
            token_views(toks@) + tokens(cur@ + line@.skip(i as int)) == tokens(line@),
        decreases line.len() - i,
    {
        let c = line[i];
        proof {
            assert((cur@ + line@.skip(i as int))[cur@.len() as int] == c);
            assert(line@.skip(i as int).skip(1) =~= line@.skip(i as int + 1));
        }
        if c == 32 || c == 9 || c == 13 || c == 10 {
            proof {
                if cur@.len() > 0 {
                    lemma_tokens_close(cur@, line@.skip(i as int));
                    assert(token_views(toks@.push(cur)) =~= token_views(toks@) + seq![cur@]);
                    assert((token_views(toks@) + seq![cur@]) + tokens(line@.skip(i as int + 1))
                        =~= token_views(toks@) + (seq![cur@] + tokens(line@.skip(i as int + 1))));
                } else {
                    assert(cur@ + line@.skip(i as int) =~= line@.skip(i as int));
                    assert(Seq::<u8>::empty() + line@.skip(i as int + 1) =~= line@.skip(
                        i as int + 1,
                    ));
                }
            }
            if cur.len() > 0 {
                toks.push(cur);
                cur = Vec::new();
            }
        } else {
            proof {
                assert(cur@.push(c) + line@.skip(i as int + 1) =~= cur@ + line@.skip(i as int));
            }
            cur.push(c);
        }
        i += 1;
    }
    proof {
        assert(line@.skip(line@.len() as int) =~= Seq::<u8>::empty());
        if cur@.len() > 0 {
            lemma_tokens_close(cur@, Seq::<u8>::empty());
            assert(token_views(toks@.push(cur)) =~= token_views(toks@) + seq![cur@]);
            assert(cur@ + Seq::<u8>::empty() =~= cur@);
            assert(seq![cur@] + tokens(Seq::<u8>::empty()) =~= seq![cur@]);
        } else {
            assert(cur@ + Seq::<u8>::empty() =~= Seq::<u8>::empty());
            assert(token_views(toks@) + Seq::<Seq<u8>>::empty() =~= token_views(toks@));
        }
    }
    if cur.len() > 0 {
        toks.push(cur);
    }
    toks
}

/// Parses one token as an unsigned decimal integer no greater than `max`.
/// Returns `None` if the token is not numeric or its value is out of range.
pub fn parse_bounded(t: &Vec<u8>, max: u64) -> (r: Option<u64>)
    requires
        max <= 0xFFFF,
    ensures
        match r {
            Some(v) => bounded_token(t@, max as nat) && v as nat == val_of(t@) && v <= max,
            None => !bounded_token(t@, max as nat),
        },
{
    let mut acc: u64 = 0;
    let mut i: usize = 0;
    while i < t.len()
        invariant
            max <= 0xFFFF,
            i <= t.len(),
            acc <= max + 1,
            forall|j: int| 0 <= j < i ==> is_digit(#[trigger] t@[j]),
            acc <= max ==> acc as nat == val_of(t@.take(i as int)),
            acc == max + 1 ==> val_of(t@.take(i as int)) > max,
        decreases t.len() - i,
    {
        let b = t[i];
        if b < 48 || b > 57 {
            return None;
        }
        proof {
            assert(t@.take(i as int + 1).drop_last() =~= t@.take(i as int));
            assert(t@.take(i as int + 1).last() == t@[i as int]);
        }
        let d = (b - 48) as u64;
        if acc <= max {
            let tentative = acc * 10 + d;
            acc = if tentative > max {
                max + 1
            } else {
                tentative
            };
        }
        i += 1;
    }
    if t.len() == 0 {
        return None;
    }
    proof {
        assert(t@.take(t@.len() as int) =~= t@);
    }
    if acc > max {
        return None;
    }
    Some(acc)
}

/// Appends the decimal rendering of a value to an output line.
pub fn push_dec(out: &mut Vec<u8>, v: u16)
    ensures
        final(out)@ == old(out)@ + dec_rep(v as nat),
    decreases v,
{
    if v < 10 {
        out.push(48 + v as u8);
        proof {
            assert(old(out)@.push((48 + v as nat) as u8) =~= old(out)@ + dec_rep(v as nat));
        }
    } else {
        push_dec(out, v / 10);
        out.push(48 + (v % 10) as u8);
        proof {
            assert((old(out)@ + dec_rep((v / 10) as nat)).push((48 + (v as nat) % 10) as u8)
                =~= old(out)@ + dec_rep(v as nat));
        }
    }
}

} // verus!
