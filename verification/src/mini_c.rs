//! The tiny C-like language of the Perses demos, as a backtracking
//! recursive-descent parser over whitespace-separated tokens:
//!
//! ```text
//! func    ::= "int" "main" "(" ")" block
//! block   ::= "{" stmt* "}"
//! stmt    ::= if_stmt | block | call      (each alternative backtracks)
//! if_stmt ::= "if" "(" ident ")" block
//! call    ::= ident "(" ")" ";"
//! ```
use vstd::prelude::*;
use crate::text::{spells, split_words, words, texts_of};
use crate::flat_grammar::lemma_chain_order;

verus! {

/// Token `pos` is `w`.
pub open spec fn tok_is(toks: Seq<Seq<char>>, pos: int, w: Seq<char>) -> bool {
    0 <= pos < toks.len() && toks[pos] == w
}

/// A keyword or punctuation token, which no identifier may be.
pub open spec fn reserved(t: Seq<char>) -> bool {
    ||| t == seq!['i', 'n', 't']
    ||| t == seq!['m', 'a', 'i', 'n']
    ||| t == seq!['i', 'f']
    ||| t == seq!['(']
    ||| t == seq![')']
    ||| t == seq!['{']
    ||| t == seq!['}']
    ||| t == seq![';']
}

/// Token `pos` is an identifier.
pub open spec fn ident_at(toks: Seq<Seq<char>>, pos: int) -> bool {
    0 <= pos < toks.len() && !reserved(toks[pos])
}

/// Where the block starting at `pos` ends, if one starts there.
pub open spec fn block_end(toks: Seq<Seq<char>>, pos: int) -> Option<int>
    decreases toks.len() - pos, 0int,
{
    if tok_is(toks, pos, seq!['{']) {
        stmts_end(toks, pos + 1)
    } else {
        None
    }
}

/// Where `stmt* "}"` starting at `pos` ends.
pub open spec fn stmts_end(toks: Seq<Seq<char>>, pos: int) -> Option<int>
    decreases toks.len() - pos, 3int,
{
    match stmt_end(toks, pos) {
        Some(p) => if pos < p <= toks.len() {
            stmts_end(toks, p)
        } else {
            None
        },
        None => if tok_is(toks, pos, seq!['}']) {
            Some(pos + 1)
        } else {
            None
        },
    }
}

/// Where the statement starting at `pos` ends: the first alternative that
/// parses.
pub open spec fn stmt_end(toks: Seq<Seq<char>>, pos: int) -> Option<int>
    decreases toks.len() - pos, 2int,
{
    match if_end(toks, pos) {
        Some(p) => Some(p),
        None => match block_end(toks, pos) {
            Some(p) => Some(p),
            None => call_end(toks, pos),
        },
    }
}

/// Where the `if` statement starting at `pos` ends.
pub open spec fn if_end(toks: Seq<Seq<char>>, pos: int) -> Option<int>
    decreases toks.len() - pos, 1int,
{
    if tok_is(toks, pos, seq!['i', 'f']) && tok_is(toks, pos + 1, seq!['(']) && ident_at(toks, pos + 2)
        && tok_is(toks, pos + 3, seq![')']) {
        block_end(toks, pos + 4)
    } else {
        None
    }
}

/// Where the call starting at `pos` ends.
pub open spec fn call_end(toks: Seq<Seq<char>>, pos: int) -> Option<int> {
    if ident_at(toks, pos) && tok_is(toks, pos + 1, seq!['(']) && tok_is(toks, pos + 2, seq![')'])
        && tok_is(toks, pos + 3, seq![';']) {
        Some(pos + 4)
    } else {
        None
    }
}

/// Where the function starting at `pos` ends.
pub open spec fn func_end(toks: Seq<Seq<char>>, pos: int) -> Option<int> {
    if tok_is(toks, pos, seq!['i', 'n', 't']) && tok_is(toks, pos + 1, seq!['m', 'a', 'i', 'n'])
        && tok_is(toks, pos + 2, seq!['(']) && tok_is(toks, pos + 3, seq![')']) {
        block_end(toks, pos + 4)
    } else {
        None
    }
}

/// The whole token sequence is one function.
pub open spec fn is_program(toks: Seq<Seq<char>>) -> bool {
    func_end(toks, 0) == Some(toks.len() as int)
}

/// Law: an identifier is any token but the keywords `int`, `main` and `if`
/// and the punctuation `(`, `)`, `{`, `}` and `;`.
pub proof fn lemma_identifiers(toks: Seq<Seq<char>>, pos: int)
    ensures
        ident_at(toks, pos) <==> (0 <= pos < toks.len() && toks[pos] != "int"@ && toks[pos] != "main"@
            && toks[pos] != "if"@ && toks[pos] != "("@ && toks[pos] != ")"@ && toks[pos] != "{"@
            && toks[pos] != "}"@ && toks[pos] != ";"@),
{
    lemma_literals();
}

/// Law: no statement starts with `int`, `main`, `(`, `)`, `}` or `;` -- in
/// particular no call names a keyword -- so a program that holds one where
/// a statement belongs does not parse.
pub proof fn lemma_no_keyword_statement(toks: Seq<Seq<char>>, pos: int)
    requires
        0 <= pos < toks.len(),
        toks[pos] == "int"@ || toks[pos] == "main"@ || toks[pos] == "("@ || toks[pos] == ")"@
            || toks[pos] == "}"@ || toks[pos] == ";"@,
    ensures
        stmt_end(toks, pos) is None,
        call_end(toks, pos) is None,
{
    lemma_literals();
    assert(toks[pos] != seq!['i', 'f'] && toks[pos] != seq!['{']);
    assert(if_end(toks, pos) is None);
    assert(block_end(toks, pos) is None);
    assert(call_end(toks, pos) is None);
}

/// `qs` are the starts of consecutive statements: each statement starting
/// at one of them parses and ends where the next starts.
pub open spec fn stmt_chain(toks: Seq<Seq<char>>, qs: Seq<int>) -> bool {
    &&& qs.len() >= 1
    &&& forall|i: int| 0 <= i < qs.len() - 1 ==> qs[i] < qs[i + 1] && #[trigger] stmt_end(toks, qs[i]) == Some(qs[i + 1])
}

/// Law (grammar, `stmt`): `if ( IDENT )` followed by a block is a
/// statement ending where the block ends.
pub proof fn lemma_if_rule(toks: Seq<Seq<char>>, pos: int, e: int)
    requires
        tok_is(toks, pos, "if"@),
        tok_is(toks, pos + 1, "("@),
        ident_at(toks, pos + 2),
        tok_is(toks, pos + 3, ")"@),
        block_end(toks, pos + 4) == Some(e),
    ensures
        stmt_end(toks, pos) == Some(e),
{
    lemma_literals();
}

/// Law (grammar, `stmt`): `IDENT ( ) ;` is a statement of four tokens.
pub proof fn lemma_call_rule(toks: Seq<Seq<char>>, pos: int)
    requires
        ident_at(toks, pos),
        tok_is(toks, pos + 1, "("@),
        tok_is(toks, pos + 2, ")"@),
        tok_is(toks, pos + 3, ";"@),
    ensures
        stmt_end(toks, pos) == Some(pos + 4),
{
    lemma_literals();
    assert(if_end(toks, pos) is None);
    assert(block_end(toks, pos) is None);
}

proof fn lemma_stmts_chain(toks: Seq<Seq<char>>, qs: Seq<int>)
    requires
        stmt_chain(toks, qs),
        tok_is(toks, qs.last(), "}"@),
    ensures
        stmts_end(toks, qs[0]) == Some(qs.last() + 1),
    decreases qs.len(),
{
    lemma_literals();
    if qs.len() > 1 {
        let rest = qs.drop_first();
        assert forall|i: int| 0 <= i < rest.len() - 1 implies rest[i] < rest[i + 1] && #[trigger] stmt_end(toks, rest[i]) == Some(rest[i + 1]) by {
            assert(rest[i] == qs[i + 1] && rest[i + 1] == qs[i + 2]);
        }
        lemma_stmts_chain(toks, rest);
        assert(stmt_end(toks, qs[0]) == Some(qs[1]));
        assert forall|i: int| 0 <= i < qs.len() - 1 implies #[trigger] qs[i] < qs[i + 1] by {
            assert(stmt_end(toks, qs[i]) == Some(qs[i + 1]));
        }
        lemma_chain_order(qs);
        assert(qs[1] <= qs.last());
        assert(rest[0] == qs[1]);
        assert(rest.last() == qs.last());
    } else {
        let p = qs[0];
        assert(toks[p] == seq!['}']);
        assert(seq!['}'] != seq!['{']) by {
            assert(seq!['}'][0] != seq!['{'][0]);
        }
        assert(seq!['}'] != seq!['i', 'f']);
        assert(if_end(toks, p) is None);
        assert(block_end(toks, p) is None);
        assert(call_end(toks, p) is None);
        assert(stmt_end(toks, p) is None);
    }
}

/// Law (grammar, `block`): `{` followed by statements, each ending where the
/// next starts, and then `}` is a block ending one past the `}`; such a
/// block is itself a statement.
pub proof fn lemma_block_rule(toks: Seq<Seq<char>>, pos: int, qs: Seq<int>)
    requires
        tok_is(toks, pos, "{"@),
        stmt_chain(toks, qs),
        qs[0] == pos + 1,
        tok_is(toks, qs.last(), "}"@),
    ensures
        block_end(toks, pos) == Some(qs.last() + 1),
        stmt_end(toks, pos) == Some(qs.last() + 1),
{
    lemma_literals();
    lemma_stmts_chain(toks, qs);
    assert(if_end(toks, pos) is None);
}

/// Law (grammar, `program`): `int main ( )` followed by a block that ends
/// with the last token is a program.
pub proof fn lemma_program_rule(toks: Seq<Seq<char>>)
    requires
        tok_is(toks, 0, "int"@),
        tok_is(toks, 1, "main"@),
        tok_is(toks, 2, "("@),
        tok_is(toks, 3, ")"@),
        block_end(toks, 4) == Some(toks.len() as int),
    ensures
        is_program(toks),
{
    lemma_literals();
}

/// What the literals of the grammar spell.
proof fn lemma_literals()
    ensures
        "int"@ == seq!['i', 'n', 't'],
        "main"@ == seq!['m', 'a', 'i', 'n'],
        "if"@ == seq!['i', 'f'],
        "("@ == seq!['('],
        ")"@ == seq![')'],
        "{"@ == seq!['{'],
        "}"@ == seq!['}'],
        ";"@ == seq![';'],
{
    reveal_strlit("int");
    reveal_strlit("main");
    reveal_strlit("if");
    reveal_strlit("(");
    reveal_strlit(")");
    reveal_strlit("{");
    reveal_strlit("}");
    reveal_strlit(";");
    assert("int"@ =~= seq!['i', 'n', 't']);
    assert("main"@ =~= seq!['m', 'a', 'i', 'n']);
    assert("if"@ =~= seq!['i', 'f']);
    assert("("@ =~= seq!['(']);
    assert(")"@ =~= seq![')']);
    assert("{"@ =~= seq!['{']);
    assert("}"@ =~= seq!['}']);
    assert(";"@ =~= seq![';']);
}

/// A parser: the tokens and a position in them.
pub struct Parser {
    toks: Vec<Vec<char>>,
    pos: usize,
}

impl Parser {
    /// A parser at the start of `toks`.
    pub fn new(toks: Vec<Vec<char>>) -> (p: Parser)
        ensures
            p.tokens() == texts_of(toks@),
            p.position() == 0,
    {
        Parser { toks, pos: 0 }
    }

    /// The tokens' texts.
    pub closed spec fn tokens(&self) -> Seq<Seq<char>> {
        texts_of(self.toks@)
    }

    /// The position reached.
    pub closed spec fn position(&self) -> nat {
        self.pos as nat
    }

    /// The position reached.
    pub fn pos(&self) -> (p: usize)
        ensures
            p == self.position(),
    {
        self.pos
    }

    /// The number of tokens.
    pub fn len(&self) -> (n: usize)
        ensures
            n == self.tokens().len(),
    {
        self.toks.len()
    }

    /// Goes back to position `pos`.
    pub fn reset(&mut self, pos: usize)
        ensures
            final(self).tokens() == old(self).tokens(),
            final(self).position() == pos,
    {
        self.pos = pos;
    }

    /// Consumes token `s`, if it comes next.
    pub fn eat(&mut self, s: &str) -> (ok: bool)
        ensures
            final(self).tokens() == old(self).tokens(),
            ok == tok_is(old(self).tokens(), old(self).position() as int, s@),
            final(self).position() == if ok { old(self).position() + 1 } else { old(self).position() },
    {
        let ok = self.pos < self.toks.len() && spells(&self.toks[self.pos], s);
        if ok {
            self.pos = self.pos + 1;
        }
        ok
    }

    /// Consumes an identifier, if one comes next.
    pub fn ident(&mut self) -> (ok: bool)
        ensures
            final(self).tokens() == old(self).tokens(),
            ok == ident_at(old(self).tokens(), old(self).position() as int),
            final(self).position() == if ok { old(self).position() + 1 } else { old(self).position() },
    {
        proof {
            lemma_literals();
        }
        let ok = self.pos < self.toks.len() && {
            let t = &self.toks[self.pos];
            !(spells(t, "int") || spells(t, "main") || spells(t, "if") || spells(t, "(") || spells(t, ")")
                || spells(t, "{") || spells(t, "}") || spells(t, ";"))
        };
        if ok {
            self.pos = self.pos + 1;
        }
        ok
    }

    /// `func ::= "int" "main" "(" ")" block`
    pub fn func(&mut self) -> (ok: bool)
        ensures
            final(self).tokens() == old(self).tokens(),
            ok == func_end(old(self).tokens(), old(self).position() as int) is Some,
            ok ==> Some(final(self).position() as int) == func_end(old(self).tokens(), old(self).position() as int),
    {
        proof {
            lemma_literals();
        }
        self.eat("int") && self.eat("main") && self.eat("(") && self.eat(")") && self.block()
    }

    /// `block ::= "{" stmt* "}"`
    pub fn block(&mut self) -> (ok: bool)
        ensures
            final(self).tokens() == old(self).tokens(),
            ok == block_end(old(self).tokens(), old(self).position() as int) is Some,
            ok ==> Some(final(self).position() as int) == block_end(old(self).tokens(), old(self).position() as int),
            ok ==> old(self).position() < final(self).position() <= old(self).tokens().len(),
        decreases old(self).tokens().len() - old(self).position(), 0int,
    {
        proof {
            lemma_literals();
        }
        let ghost t = self.tokens();
        let ghost start = self.pos;
        if !self.eat("{") {
            return false;
        }
        loop
            invariant
                self.tokens() == t,
                t == old(self).tokens(),
                start == old(self).position(),
                start < self.pos <= t.len(),
                stmts_end(t, self.pos as int) == block_end(t, start as int),
                "}"@ == seq!['}'],
            ensures
                self.tokens() == t,
                stmts_end(t, self.pos as int) == block_end(t, start as int),
                start < self.pos <= t.len(),
                stmt_end(t, self.pos as int) is None,
            decreases t.len() - self.pos,
        {
            let before = self.pos;
            if !self.stmt() {
                break;
            }
            proof {
                assert(stmts_end(t, before as int) == stmts_end(t, self.pos as int));
            }
        }
        self.eat("}")
    }

    /// `stmt ::= if_stmt | block | call`, each alternative backtracking on
    /// failure.
    pub fn stmt(&mut self) -> (ok: bool)
        ensures
            final(self).tokens() == old(self).tokens(),
            ok == stmt_end(old(self).tokens(), old(self).position() as int) is Some,
            ok ==> Some(final(self).position() as int) == stmt_end(old(self).tokens(), old(self).position() as int),
            ok ==> old(self).position() < final(self).position() <= old(self).tokens().len(),
            !ok ==> final(self).position() == old(self).position(),
        decreases old(self).tokens().len() - old(self).position(), 2int,
    {
        let save = self.pos;
        if self.if_stmt() {
            return true;
        }
        self.reset(save);
        if self.block() {
            return true;
        }
        self.reset(save);
        if self.call() {
            return true;
        }
        self.reset(save);
        false
    }

    /// `if_stmt ::= "if" "(" ident ")" block`
    pub fn if_stmt(&mut self) -> (ok: bool)
        ensures
            final(self).tokens() == old(self).tokens(),
            ok == if_end(old(self).tokens(), old(self).position() as int) is Some,
            ok ==> Some(final(self).position() as int) == if_end(old(self).tokens(), old(self).position() as int),
            ok ==> old(self).position() < final(self).position() <= old(self).tokens().len(),
        decreases old(self).tokens().len() - old(self).position(), 1int,
    {
        proof {
            lemma_literals();
        }
        self.eat("if") && self.eat("(") && self.ident() && self.eat(")") && self.block()
    }

    /// `call ::= ident "(" ")" ";"`
    pub fn call(&mut self) -> (ok: bool)
        ensures
            final(self).tokens() == old(self).tokens(),
            ok == call_end(old(self).tokens(), old(self).position() as int) is Some,
            ok ==> Some(final(self).position() as int) == call_end(old(self).tokens(), old(self).position() as int),
            ok ==> old(self).position() < final(self).position() <= old(self).tokens().len(),
    {
        proof {
            lemma_literals();
        }
        self.ident() && self.eat("(") && self.eat(")") && self.eat(";")
    }
}

/// Does the surviving program still parse against the grammar? Once any
/// node is deletable, a deletion can land mid-production (drop `{` but keep
/// `}`), so the oracle must also reject programs the grammar does not accept.
pub fn parses(src: &str) -> (ok: bool)
    ensures
        ok == is_program(words(src@)),
{
    let mut p = Parser::new(split_words(src));
    p.func() && p.pos() == p.len()
}

} // verus!
