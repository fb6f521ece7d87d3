use vstd::prelude::*;
use crate::token::Token;

verus! {

/// How a command changes the bracket nesting depth.
pub open spec fn delta(t: Token) -> int {
    if t == Token::BracketLeft {
        1
    } else if t == Token::BracketRight {
        -1
    } else {
        0
    }
}

/// Opening brackets minus closing brackets.
pub open spec fn depth(t: Seq<Token>) -> int
    decreases t.len(),
{
    if t.len() == 0 {
        0
    } else {
        depth(t.drop_last()) + delta(t.last())
    }
}

/// No prefix closes more brackets than it opens.
pub open spec fn never_negative(t: Seq<Token>) -> bool {
    forall|k: int| 0 <= k <= t.len() ==> depth(#[trigger] t.take(k)) >= 0
}

/// Every bracket has its partner.
pub open spec fn balanced(t: Seq<Token>) -> bool {
    never_negative(t) && depth(t) == 0
}

/// A prefix of a sequence with no negative prefix has none either.
pub proof fn lemma_never_negative_prefix(t: Seq<Token>, u: Seq<Token>)
    requires
        never_negative(t + u),
    ensures
        never_negative(t),
{
    assert forall|k: int| 0 <= k <= t.len() implies depth(#[trigger] t.take(k)) >= 0 by {
        assert((t + u).take(k) =~= t.take(k));
    }
}

/// One more command keeps every prefix non-negative if the whole stays so.
pub proof fn lemma_never_negative_push(t: Seq<Token>, x: Token)
    requires
        never_negative(t),
        depth(t) + delta(x) >= 0,
    ensures
        never_negative(t.push(x)),
{
    assert forall|k: int| 0 <= k <= t.len() + 1 implies depth(#[trigger] t.push(x).take(k)) >= 0 by {
        if k <= t.len() {
            assert(t.push(x).take(k) =~= t.take(k));
        } else {
            assert(t.push(x).take(k) =~= t.push(x));
            assert(t.push(x).drop_last() =~= t);
        }
    }
}

/// The depth of an open scan after one more command.
pub open spec fn next_depth(d: nat, t: Token) -> nat {
    if t == Token::BracketLeft {
        d + 1
    } else if t == Token::BracketRight {
        if d > 0 { (d - 1) as nat } else { 0 }
    } else {
        d
    }
}

/// Scanning forward from `i` with `d` brackets open: the position just after the
/// bracket that closes them all, or the length when none does.
pub open spec fn skip_end(s: Seq<Token>, i: int, d: nat) -> int
    decreases s.len() - i,
{
    if i < 0 || i >= s.len() {
        s.len() as int
    } else {
        let d2 = next_depth(d, s[i]);
        if d2 == 0 {
            i + 1
        } else {
            skip_end(s, i + 1, d2)
        }
    }
}

/// Depth adds up over concatenation.
pub proof fn lemma_depth_append(a: Seq<Token>, b: Seq<Token>)
    ensures
        depth(a + b) == depth(a) + depth(b),
    decreases b.len(),
{
    if b.len() == 0 {
        assert(a + b =~= a);
    } else {
        lemma_depth_append(a, b.drop_last());
        assert((a + b).drop_last() =~= a + b.drop_last());
    }
}

/// Depth of one more command.
pub proof fn lemma_depth_step(s: Seq<Token>, i: int)
    requires
        0 <= i < s.len(),
    ensures
        depth(s.take(i + 1)) == depth(s.take(i)) + delta(s[i]),
{
    assert(s.take(i + 1).drop_last() =~= s.take(i));
}

/// A scan from inside the sequence ends after where it starts, and within it.
pub proof fn lemma_skip_end_bounds(s: Seq<Token>, i: int, d: nat)
    requires
        0 <= i <= s.len(),
    ensures
        i < s.len() ==> i < skip_end(s, i, d) <= s.len(),
        i == s.len() ==> skip_end(s, i, d) == s.len(),
    decreases s.len() - i,
{
    if i < s.len() {
        lemma_skip_end_bounds(s, i + 1, next_depth(d, s[i]));
    }
}

/// In a sequence with no prefix below zero, a scan that starts with `d` brackets
/// open beyond the depth at `i` ends just after the bracket that brings the depth
/// back down by `d`.
pub proof fn lemma_skip_end_depth(s: Seq<Token>, i: int, d: nat)
    requires
        balanced(s),
        0 <= i <= s.len(),
        d > 0,
        depth(s.take(i)) >= d,
    ensures
        i < skip_end(s, i, d) <= s.len(),
        depth(s.take(skip_end(s, i, d))) == depth(s.take(i)) - d,
        s[skip_end(s, i, d) - 1] == Token::BracketRight,
    decreases s.len() - i,
{
    if i == s.len() {
        assert(s.take(i) =~= s);
    } else {
        lemma_depth_step(s, i);
        let d2 = next_depth(d, s[i]);
        if d2 != 0 {
            lemma_skip_end_depth(s, i + 1, d2);
        }
    }
}

/// Scanning across a stretch that never closes the `d` open brackets.
pub proof fn lemma_skip_over(s: Seq<Token>, p: int, q: int, d: nat)
    requires
        0 <= p <= q <= s.len(),
        d > 0,
        forall|k: int| p <= k <= q ==> d + depth(#[trigger] s.subrange(p, k)) > 0,
    ensures
        d + depth(s.subrange(p, q)) > 0,
        skip_end(s, p, d) == skip_end(s, q, (d + depth(s.subrange(p, q))) as nat),
    decreases q - p,
{
    assert(d + depth(s.subrange(p, q)) > 0);
    if p == q {
        assert(s.subrange(p, q) =~= Seq::<Token>::empty());
    } else {
        let d2 = next_depth(d, s[p]);
        assert(s.subrange(p, p + 1) =~= seq![s[p]]);
        let one = s.subrange(p, p + 1);
        assert(one.drop_last() =~= Seq::<Token>::empty());
        assert(depth(one.drop_last()) == 0);
        assert(depth(one) == delta(s[p]));
        assert(d + depth(s.subrange(p, p + 1)) > 0);
        assert(d2 == d + delta(s[p]));
        assert forall|k: int| p + 1 <= k <= q implies d2 + depth(#[trigger] s.subrange(p + 1, k)) > 0 by {
            assert(s.subrange(p, k) =~= s.subrange(p, p + 1) + s.subrange(p + 1, k));
            lemma_depth_append(s.subrange(p, p + 1), s.subrange(p + 1, k));
            assert(d + depth(s.subrange(p, k)) > 0);
        }
        lemma_skip_over(s, p + 1, q, d2);
        assert(s.subrange(p, q) =~= s.subrange(p, p + 1) + s.subrange(p + 1, q));
        lemma_depth_append(s.subrange(p, p + 1), s.subrange(p + 1, q));
    }
}

/// The position just after the bracket that closes the one opened just before
/// `start`, or the length of `tokens` when none does.
pub fn skip_to_matching(tokens: &Vec<Token>, start: usize) -> (end: usize)
    requires
        0 < start <= tokens.len(),
    ensures
        end == skip_end(tokens@, start as int, 1),
        start < tokens.len() ==> start < end,
        end <= tokens.len(),
{
    proof {
        lemma_skip_end_bounds(tokens@, start as int, 1);
    }
    let mut i: usize = start;
    let mut open: usize = 1;
    while i < tokens.len()
        invariant
            0 < start <= i <= tokens.len(),
            0 < open <= i - start + 1,
            skip_end(tokens@, start as int, 1) == skip_end(tokens@, i as int, open as nat),
        decreases tokens.len() - i,
    {
        let t = tokens[i];
        if t == Token::BracketLeft {
            open = open + 1;
        } else if t == Token::BracketRight {
            open = open - 1;
            if open == 0 {
                return i + 1;
            }
        }
        i = i + 1;
    }
    i
}

} // verus!
