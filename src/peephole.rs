use vstd::prelude::*;
use crate::token::Token;
use crate::brackets::{
    next_depth, skip_end, depth, balanced, never_negative, lemma_depth_step,
    lemma_never_negative_prefix, lemma_never_negative_push, lemma_skip_over,
};

verus! {

/// Two adjacent commands that together do nothing.
pub open spec fn cancels(a: Token, b: Token) -> bool {
    (a == Token::Flip && b == Token::Flip)
    || (a == Token::MoveLeft && b == Token::MoveRight)
    || (a == Token::MoveRight && b == Token::MoveLeft)
}

/// A loop that opens while nothing has been kept: at the start of the program,
/// after commands that cancelled out, or right after another dropped loop. The
/// tape is then as fresh, the bit under the cursor zero, and the loop never runs.
pub open spec fn opens_dead_loop(kept: Seq<Token>, t: Token) -> bool {
    t == Token::BracketLeft && kept.len() == 0
}

/// The optimizer's pass from position `i` of `s`, with `kept` the commands kept so
/// far and `skip` the number of brackets still open in a loop being dropped.
pub open spec fn dedup_from(s: Seq<Token>, i: int, kept: Seq<Token>, skip: nat) -> Seq<Token>
    decreases s.len() - i,
{
    if i < 0 || i >= s.len() {
        kept
    } else {
        let t = s[i];
        if skip > 0 {
            dedup_from(s, i + 1, kept, next_depth(skip, t))
        } else if kept.len() > 0 && cancels(kept.last(), t) {
            dedup_from(s, i + 1, kept.drop_last(), 0)
        } else if opens_dead_loop(kept, t) {
            dedup_from(s, i + 1, kept, 1)
        } else {
            dedup_from(s, i + 1, kept.push(t), 0)
        }
    }
}

/// The optimized form of a sequence of commands.
pub open spec fn optimized(s: Seq<Token>) -> Seq<Token> {
    dedup_from(s, 0, Seq::empty(), 0)
}

/// A sequence with nothing left for the optimizer to remove.
pub open spec fn settled(t: Seq<Token>) -> bool {
    &&& (t.len() > 0 ==> t[0] != Token::BracketLeft)
    &&& forall|j: int| 0 < j < t.len() ==> !cancels(t[j - 1], #[trigger] t[j])
}

/// Dropping a loop whole: the pass resumes just after its closing bracket.
pub proof fn lemma_dedup_skip(s: Seq<Token>, i: int, kept: Seq<Token>, skip: nat)
    requires
        0 <= i,
        skip > 0,
    ensures
        dedup_from(s, i, kept, skip) == dedup_from(s, skip_end(s, i, skip), kept, 0),
    decreases s.len() - i,
{
    if i < s.len() {
        let d2 = next_depth(skip, s[i]);
        if d2 != 0 {
            lemma_dedup_skip(s, i + 1, kept, d2);
        }
    }
}

/// The pass keeps the brackets in pairs.
pub proof fn lemma_dedup_balanced(s: Seq<Token>, i: int, kept: Seq<Token>, skip: nat)
    requires
        balanced(s),
        0 <= i <= s.len(),
        never_negative(kept),
        depth(kept) + skip == depth(s.take(i)),
    ensures
        balanced(dedup_from(s, i, kept, skip)),
    decreases s.len() - i,
{
    if i == s.len() {
        assert(s.take(i) =~= s);
        assert(kept.take(kept.len() as int) =~= kept);
    } else {
        let t = s[i];
        lemma_depth_step(s, i);
        assert(depth(s.take(i + 1)) >= 0);
        if skip > 0 {
            lemma_dedup_balanced(s, i + 1, kept, next_depth(skip, t));
        } else if kept.len() > 0 && cancels(kept.last(), t) {
            let k2 = kept.drop_last();
            assert(k2 + seq![kept.last()] =~= kept);
            lemma_never_negative_prefix(k2, seq![kept.last()]);
            lemma_dedup_balanced(s, i + 1, k2, 0);
        } else if opens_dead_loop(kept, t) {
            lemma_dedup_balanced(s, i + 1, kept, 1);
        } else {
            assert(kept.push(t).drop_last() =~= kept);
            lemma_never_negative_push(kept, t);
            lemma_dedup_balanced(s, i + 1, kept.push(t), 0);
        }
    }
}

/// The pass on `p + r` from inside `r` is the pass on `r` alone.
proof fn lemma_dedup_shift(p: Seq<Token>, r: Seq<Token>, j: int, kept: Seq<Token>, skip: nat)
    requires
        0 <= j,
    ensures
        dedup_from(p + r, p.len() + j, kept, skip) == dedup_from(r, j, kept, skip),
    decreases r.len() - j,
{
    if j < r.len() {
        let t = r[j];
        assert((p + r)[p.len() + j] == t);
        if skip > 0 {
            lemma_dedup_shift(p, r, j + 1, kept, next_depth(skip, t));
        } else if kept.len() > 0 && cancels(kept.last(), t) {
            lemma_dedup_shift(p, r, j + 1, kept.drop_last(), 0);
        } else if opens_dead_loop(kept, t) {
            lemma_dedup_shift(p, r, j + 1, kept, 1);
        } else {
            lemma_dedup_shift(p, r, j + 1, kept.push(t), 0);
        }
    }
}

/// A loop at the very start of a program never runs, since the tape starts as
/// zeros: the optimizer drops it whole, whatever its body holds.
pub proof fn lemma_leading_loop_dropped(body: Seq<Token>, rest: Seq<Token>)
    requires
        balanced(body),
    ensures
        optimized(seq![Token::BracketLeft] + body + seq![Token::BracketRight] + rest) == optimized(rest),
{
    let p = seq![Token::BracketLeft] + body + seq![Token::BracketRight];
    let s = p + rest;
    let m = body.len() as int;
    assert(s[0] == Token::BracketLeft);
    assert(opens_dead_loop(Seq::<Token>::empty(), s[0]));
    assert(optimized(s) == dedup_from(s, 1, Seq::empty(), 1));
    lemma_dedup_skip(s, 1, Seq::empty(), 1);
    assert forall|k: int| 1 <= k <= 1 + m implies 1 + depth(#[trigger] s.subrange(1, k)) > 0 by {
        assert(s.subrange(1, k) =~= body.take(k - 1));
    }
    lemma_skip_over(s, 1, 1 + m, 1);
    assert(s.subrange(1, 1 + m) =~= body);
    assert(s[1 + m] == Token::BracketRight);
    assert(skip_end(s, 1 + m, 1) == m + 2);
    assert(p.len() == m + 2);
    lemma_dedup_shift(p, rest, 0, Seq::empty(), 0);
}

#[verifier::rlimit(30)]
proof fn lemma_settled_from(s: Seq<Token>, i: int, kept: Seq<Token>, skip: nat)
    requires
        0 <= i,
        settled(kept),
    ensures
        settled(dedup_from(s, i, kept, skip)),
    decreases s.len() - i,
{
    if i < s.len() {
        let t = s[i];
        if skip > 0 {
            lemma_settled_from(s, i + 1, kept, next_depth(skip, t));
        } else if kept.len() > 0 && cancels(kept.last(), t) {
            let k2 = kept.drop_last();
            assert forall|j: int| 0 < j < k2.len() implies !cancels(k2[j - 1], #[trigger] k2[j]) by {
                assert(kept[j] == k2[j]);
            }
            lemma_settled_from(s, i + 1, k2, 0);
        } else if opens_dead_loop(kept, t) {
            lemma_settled_from(s, i + 1, kept, 1);
        } else {
            let k2 = kept.push(t);
            assert forall|j: int| 0 < j < k2.len() implies !cancels(k2[j - 1], #[trigger] k2[j]) by {
                if j < kept.len() {
                    assert(kept[j] == k2[j]);
                }
            }
            lemma_settled_from(s, i + 1, k2, 0);
        }
    }
}

#[verifier::rlimit(30)]
proof fn lemma_settled_fixed(t: Seq<Token>, i: int)
    requires
        settled(t),
        0 <= i <= t.len(),
    ensures
        dedup_from(t, i, t.take(i), 0) == t,
    decreases t.len() - i,
{
    if i == t.len() {
        assert(t.take(i) =~= t);
    } else {
        if i > 0 {
            assert(t.take(i).last() == t[i - 1]);
        }
        assert(t.take(i).push(t[i]) =~= t.take(i + 1));
        lemma_settled_fixed(t, i + 1);
    }
}

/// The optimizer leaves nothing for a second pass to remove.
pub proof fn lemma_optimized_settled(s: Seq<Token>)
    ensures
        settled(optimized(s)),
{
    lemma_settled_from(s, 0, Seq::empty(), 0);
}

/// Optimizing twice gives what optimizing once gives.
pub proof fn lemma_optimize_idempotent(s: Seq<Token>)
    ensures
        optimized(optimized(s)) == optimized(s),
{
    let t = optimized(s);
    lemma_optimized_settled(s);
    lemma_settled_fixed(t, 0);
    assert(t.take(0) =~= Seq::<Token>::empty());
}

} // verus!
