use vstd::prelude::*;
use crate::token::{Token, token_of_char, char_of_token, lemma_char_of_token_reads_back};
use crate::brackets::{
    depth, never_negative, balanced, lemma_never_negative_prefix, lemma_never_negative_push,
    lemma_depth_append, delta, skip_to_matching,
};
use crate::program::{Program, initial};
use crate::peephole::{optimized, dedup_from, cancels, lemma_dedup_skip, lemma_dedup_balanced};

verus! {

/// Why source text was rejected.
#[derive(PartialEq, Eq, Structural, Copy, Clone, Debug)]
pub enum LexError {
    /// A closing bracket came with no opening one outstanding.
    UnmatchedCloseBracket,
    /// The text ended with this many brackets still open.
    UnmatchedOpenBrackets(usize),
}

/// The commands written in a text, in order; other characters are comments.
pub open spec fn lex(s: Seq<char>) -> Seq<Token>
    decreases s.len(),
{
    if s.len() == 0 {
        Seq::empty()
    } else {
        match token_of_char(s.last()) {
            Some(t) => lex(s.drop_last()).push(t),
            None => lex(s.drop_last()),
        }
    }
}

/// What building a program from a text gives.
pub open spec fn lex_result(s: Seq<char>) -> Result<Seq<Token>, LexError> {
    let t = lex(s);
    if !never_negative(t) {
        Err(LexError::UnmatchedCloseBracket)
    } else if depth(t) != 0 {
        Err(LexError::UnmatchedOpenBrackets(depth(t) as usize))
    } else {
        Ok(t)
    }
}

/// The text that writes a sequence of commands, one character each.
pub open spec fn render(t: Seq<Token>) -> Seq<char>
    decreases t.len(),
{
    if t.len() == 0 {
        Seq::empty()
    } else {
        render(t.drop_last()).push(char_of_token(t.last()))
    }
}

/// Lexing works piece by piece.
pub proof fn lemma_lex_append(a: Seq<char>, b: Seq<char>)
    ensures
        lex(a + b) == lex(a) + lex(b),
    decreases b.len(),
{
    if b.len() == 0 {
        assert(a + b =~= a);
        assert(lex(a) + lex(b) =~= lex(a));
    } else {
        lemma_lex_append(a, b.drop_last());
        assert((a + b).drop_last() =~= a + b.drop_last());
        match token_of_char(b.last()) {
            Some(t) => {
                assert(lex(a) + lex(b.drop_last()).push(t) =~= (lex(a) + lex(b.drop_last())).push(t));
            },
            None => {},
        }
    }
}

/// Writing commands out and reading them back gives the same commands; a
/// program written out is accepted as that program.
pub proof fn lemma_render_relex(t: Seq<Token>)
    ensures
        lex(render(t)) == t,
        balanced(t) ==> lex_result(render(t)) == Ok::<Seq<Token>, LexError>(t),
    decreases t.len(),
{
    if t.len() > 0 {
        lemma_render_relex(t.drop_last());
        lemma_char_of_token_reads_back(t.last());
        assert(render(t).drop_last() =~= render(t.drop_last()));
        assert(lex(render(t.drop_last())).push(t.last()) =~= t);
    } else {
        assert(lex(render(t)) =~= t);
    }
}

/// `n` opening brackets.
pub open spec fn opening_brackets(n: nat) -> Seq<char> {
    Seq::new(n, |i: int| '[')
}

proof fn lemma_lex_opening(n: nat)
    ensures
        lex(opening_brackets(n)) == Seq::new(n, |i: int| Token::BracketLeft),
        never_negative(lex(opening_brackets(n))),
        depth(lex(opening_brackets(n))) == n,
    decreases n,
{
    let t = lex(opening_brackets(n));
    if n > 0 {
        lemma_lex_opening((n - 1) as nat);
        assert(opening_brackets(n).drop_last() =~= opening_brackets((n - 1) as nat));
        assert(t =~= Seq::new(n, |i: int| Token::BracketLeft));
        assert(t.drop_last() =~= lex(opening_brackets((n - 1) as nat)));
        lemma_never_negative_push(t.drop_last(), Token::BracketLeft);
        assert(t.drop_last().push(Token::BracketLeft) =~= t);
    } else {
        assert(t =~= Seq::new(n, |i: int| Token::BracketLeft));
        assert forall|k: int| 0 <= k <= t.len() implies depth(#[trigger] t.take(k)) >= 0 by {
            assert(t.take(k) =~= t);
        }
    }
}

/// What the lexer decides about brackets: an accepted program is well-bracketed;
/// a well-bracketed text with one closing bracket put in anywhere is rejected for
/// that bracket; and a well-bracketed text followed by `n` opening brackets is
/// rejected with `n` brackets left open.
pub proof fn lemma_lex_brackets(s: Seq<char>, a: Seq<char>, b: Seq<char>, n: nat)
    ensures
        lex_result(s) is Ok ==> balanced(lex_result(s)->Ok_0),
        balanced(lex(a + b)) ==> lex_result(a + seq![']'] + b) == Err::<Seq<Token>, LexError>(
            LexError::UnmatchedCloseBracket,
        ),
        balanced(lex(a)) && 0 < n <= usize::MAX ==> lex_result(a + opening_brackets(n))
            == Err::<Seq<Token>, LexError>(LexError::UnmatchedOpenBrackets(n as usize)),
{
    if balanced(lex(a + b)) {
        let c = seq![']'];
        lemma_lex_append(a, b);
        lemma_lex_append(a, c);
        lemma_lex_append(a + c, b);
        assert(c.drop_last() =~= Seq::<char>::empty());
        assert(c.last() == ']');
        assert(lex(c.drop_last()) =~= Seq::<Token>::empty());
        assert(lex(c) =~= seq![Token::BracketRight]);
        let t = lex(a + c + b);
        assert(t =~= lex(a) + seq![Token::BracketRight] + lex(b));
        lemma_depth_append(lex(a), lex(b));
        lemma_depth_append(lex(a), seq![Token::BracketRight]);
        lemma_depth_append(lex(a) + seq![Token::BracketRight], lex(b));
        assert(seq![Token::BracketRight].drop_last() =~= Seq::<Token>::empty());
        let r = seq![Token::BracketRight];
        assert(r.last() == Token::BracketRight);
        assert(depth(r.drop_last()) == 0);
        assert(delta(r.last()) == -1);
        assert(depth(r) == -1);
        assert(depth(lex(a)) + depth(lex(b)) == 0);
        assert(depth(t) == -1);
        assert(t.take(t.len() as int) =~= t);
    }
    if balanced(lex(a)) && 0 < n <= usize::MAX {
        let o = opening_brackets(n);
        lemma_lex_append(a, o);
        lemma_lex_opening(n);
        let t = lex(a + o);
        lemma_depth_append(lex(a), lex(o));
        assert forall|k: int| 0 <= k <= t.len() implies depth(#[trigger] t.take(k)) >= 0 by {
            let la = lex(a);
            if k <= la.len() {
                assert(t.take(k) =~= la.take(k));
            } else {
                assert(t.take(k) =~= la + lex(o).take(k - la.len()));
                lemma_depth_append(la, lex(o).take(k - la.len()));
                assert(lex(o).take(k - la.len()) =~= lex(o).take(k - la.len()));
            }
        }
    }
}

/// The text that a character of Brainfuck code stands for.
pub open spec fn brainfuck_piece(c: char) -> Seq<char> {
    if c == '+' {
        ">[>]+<[+<]>>>>>>>>>[+]<<<<<<<<<"@
    } else if c == '-' {
        ">>>>>>>>>+<<<<<<<<+[>+]<[<]>>>>>>>>>[+]<<<<<<<<<"@
    } else if c == '<' {
        "<<<<<<<<<"@
    } else if c == '>' {
        ">>>>>>>>>"@
    } else if c == ',' {
        ">,>,>,>,>,>,>,>,<<<<<<<<"@
    } else if c == '.' {
        ">;>;>;>;>;>;>;>;<<<<<<<<"@
    } else if c == '[' {
        ">>>>>>>>>+<<<<<<<<+[>+]<[<]>>>>>>>>>[+<<<<<<<<[>]+<[+<]"@
    } else if c == ']' {
        ">>>>>>>>>+<<<<<<<<+[>+]<[<]>>>>>>>>>]<[+<]"@
    } else {
        Seq::empty()
    }
}

/// Brainfuck code written in this language, character by character.
pub open spec fn from_brainfuck_text(s: Seq<char>) -> Seq<char>
    decreases s.len(),
{
    if s.len() == 0 {
        Seq::empty()
    } else {
        from_brainfuck_text(s.drop_last()) + brainfuck_piece(s.last())
    }
}

/// Relies on String::push: appends the one character at the end.
#[verifier::external_body]
fn push_char(s: &mut String, c: char)
    ensures
        final(s)@ == old(s)@.push(c),
{
    s.push(c);
}

/// A sequence of commands that the language accepts as a program.
#[derive(Debug)]
pub struct Source {
    source: Vec<Token>,
}

impl View for Source {
    type V = Seq<Token>;

    closed spec fn view(&self) -> Seq<Token> {
        self.source@
    }
}

impl Source {
    #[verifier::type_invariant]
    spec fn well_bracketed(&self) -> bool {
        balanced(self.source@)
    }

    /// Reads the commands of `source`, rejecting it when a closing bracket has no
    /// opening partner before it, or when brackets are left open at the end.
    pub fn new(source: &str) -> (r: Result<Source, LexError>)
        ensures
            match r {
                Ok(src) => lex_result(source@) == Ok::<Seq<Token>, LexError>(src@),
                Err(e) => lex_result(source@) == Err::<Seq<Token>, LexError>(e),
            },
    {
        let mut tokens: Vec<Token> = Vec::new();
        let mut brackets: usize = 0;
        let ghost s = source@;
        let n = source.unicode_len();
        let mut i: usize = 0;
        while i < n
            invariant
                n == s.len(),
                s == source@,
                0 <= i <= n,
                tokens@ == lex(s.take(i as int)),
                brackets as int == depth(tokens@),
                brackets <= i,
                never_negative(tokens@),
            decreases n - i,
        {
            let c = source.get_char(i);
            proof {
                assert(s.take(i + 1).drop_last() =~= s.take(i as int));
            }
            let tok: Option<Token> = if c == '<' {
                Some(Token::MoveLeft)
            } else if c == '>' {
                Some(Token::MoveRight)
            } else if c == '[' {
                Some(Token::BracketLeft)
            } else if c == ']' {
                Some(Token::BracketRight)
            } else if c == ',' {
                Some(Token::Read)
            } else if c == ';' {
                Some(Token::Write)
            } else if c == '+' {
                Some(Token::Flip)
            } else {
                None
            };
            match tok {
                Some(t) => {
                    if t == Token::BracketLeft {
                        brackets = brackets + 1;
                    } else if t == Token::BracketRight {
                        if brackets == 0 {
                            proof {
                                let bad = tokens@.push(t);
                                assert(bad.drop_last() =~= tokens@);
                                assert(bad.take(bad.len() as int) =~= bad);
                                assert(s =~= s.take(i + 1) + s.skip(i + 1));
                                lemma_lex_append(s.take(i + 1), s.skip(i + 1));
                                if never_negative(lex(s)) {
                                    lemma_never_negative_prefix(bad, lex(s.skip(i + 1)));
                                }
                            }
                            return Err(LexError::UnmatchedCloseBracket);
                        }
                        brackets = brackets - 1;
                    }
                    proof {
                        assert(tokens@.push(t).drop_last() =~= tokens@);
                        lemma_never_negative_push(tokens@, t);
                    }
                    tokens.push(t);
                },
                None => {},
            }
            i = i + 1;
        }
        proof {
            assert(s.take(n as int) =~= s);
        }
        if brackets != 0 {
            return Err(LexError::UnmatchedOpenBrackets(brackets));
        }
        Ok(Source { source: tokens })
    }

    /// Removes adjacent commands that undo each other (two flips, a move left and a
    /// move right) and loops that can never run: those that open while nothing has
    /// been kept, at the start of the program or right after another removed loop,
    /// where the bit under the cursor is still zero. A removal may bring two
    /// further commands together, which are then removed in turn.
    pub fn dedup(&mut self)
        ensures
            final(self)@ == optimized(old(self)@),
    {
        proof {
            use_type_invariant(&*self);
        }
        let ghost s = self.source@;
        let n = self.source.len();
        let mut kept: Vec<Token> = Vec::new();
        let mut i: usize = 0;
        while i < n
            invariant
                s == self.source@,
                n == s.len(),
                i <= n,
                dedup_from(s, i as int, kept@, 0) == optimized(s),
            decreases n - i,
        {
            let t = self.source[i];
            let k = kept.len();
            let undoes = k > 0 && ((kept[k - 1] == Token::Flip && t == Token::Flip)
                || (kept[k - 1] == Token::MoveLeft && t == Token::MoveRight)
                || (kept[k - 1] == Token::MoveRight && t == Token::MoveLeft));
            if undoes {
                assert(cancels(kept@.last(), t));
                kept.pop();
                i = i + 1;
            } else if t == Token::BracketLeft && k == 0 {
                proof {
                    lemma_dedup_skip(s, i + 1, kept@, 1);
                }
                i = skip_to_matching(&self.source, i + 1);
            } else {
                kept.push(t);
                i = i + 1;
            }
        }
        proof {
            lemma_dedup_balanced(s, 0, Seq::empty(), 0);
            assert(s.take(0) =~= Seq::<Token>::empty());
        }
        self.source = kept;
    }

    /// Reads Brainfuck code, each of its eight commands written out in this
    /// language, and rejects it as `new` rejects the text so obtained.
    pub fn from_brainfuck(source: &str) -> (r: Result<Source, LexError>)
        ensures
            match r {
                Ok(src) => lex_result(from_brainfuck_text(source@)) == Ok::<Seq<Token>, LexError>(src@),
                Err(e) => lex_result(from_brainfuck_text(source@)) == Err::<Seq<Token>, LexError>(e),
            },
    {
        let ghost s = source@;
        let mut text = String::new();
        let n = source.unicode_len();
        let mut i: usize = 0;
        while i < n
            invariant
                n == s.len(),
                s == source@,
                0 <= i <= n,
                text@ == from_brainfuck_text(s.take(i as int)),
            decreases n - i,
        {
            let c = source.get_char(i);
            proof {
                assert(s.take(i + 1).drop_last() =~= s.take(i as int));
            }
            if c == '+' {
                text.append(">[>]+<[+<]>>>>>>>>>[+]<<<<<<<<<");
            } else if c == '-' {
                text.append(">>>>>>>>>+<<<<<<<<+[>+]<[<]>>>>>>>>>[+]<<<<<<<<<");
            } else if c == '<' {
                text.append("<<<<<<<<<");
            } else if c == '>' {
                text.append(">>>>>>>>>");
            } else if c == ',' {
                text.append(">,>,>,>,>,>,>,>,<<<<<<<<");
            } else if c == '.' {
                text.append(">;>;>;>;>;>;>;>;<<<<<<<<");
            } else if c == '[' {
                text.append(">>>>>>>>>+<<<<<<<<+[>+]<[<]>>>>>>>>>[+<<<<<<<<[>]+<[+<]");
            } else if c == ']' {
                text.append(">>>>>>>>>+<<<<<<<<+[>+]<[<]>>>>>>>>>]<[+<]");
            } else {
                assert(text@ + brainfuck_piece(c) =~= text@);
            }
            i = i + 1;
        }
        proof {
            assert(s.take(n as int) =~= s);
        }
        Self::new(text.as_str())
    }

    /// The program written out, one character per command.
    pub fn render(&self) -> (r: String)
        ensures
            r@ == render(self@),
    {
        let mut out = String::new();
        let n = self.source.len();
        let mut i: usize = 0;
        while i < n
            invariant
                n == self.source@.len(),
                i <= n,
                out@ == render(self.source@.take(i as int)),
            decreases n - i,
        {
            proof {
                assert(self.source@.take(i + 1).drop_last() =~= self.source@.take(i as int));
            }
            push_char(&mut out, self.source[i].symbol());
            i = i + 1;
        }
        proof {
            assert(self.source@.take(n as int) =~= self.source@);
        }
        out
    }

    /// Loads the program into a fresh machine.
    pub fn gen(self) -> (p: Program)
        ensures
            p.wf(),
            p@ == initial(self@),
    {
        proof {
            use_type_invariant(&self);
        }
        Program::new(self.source)
    }

    /// The number of commands.
    pub fn len(&self) -> (n: usize)
        ensures
            n == self@.len(),
    {
        self.source.len()
    }
}

} // verus!
