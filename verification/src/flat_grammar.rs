//! The demo language of the flat-token example, as a recursive-descent
//! parser over its tokens:
//!
//! ```text
//! program := fn_item*
//! fn_item := "fn" IDENT block
//! block   := "{" stmt* "}"
//! stmt    := "if" IDENT block | IDENT "(" ")" ";" | IDENT ";"
//! ```
use vstd::prelude::*;
use vstd::string::StringExecFns;
use crate::config::Configuration;
use crate::text::same_text;
use crate::tree::joined;

verus! {

/// The tokens' texts.
pub open spec fn texts(toks: Seq<&str>) -> Seq<Seq<char>> {
    toks.map_values(|t: &str| t@)
}

/// `fn`
pub open spec fn kw_fn() -> Seq<char> {
    seq!['f', 'n']
}

/// `if`
pub open spec fn kw_if() -> Seq<char> {
    seq!['i', 'f']
}

/// A one-character token.
pub open spec fn punct(c: char) -> Seq<char> {
    seq![c]
}

/// Token `pos` is `w`.
pub open spec fn tok_is(toks: Seq<Seq<char>>, pos: int, w: Seq<char>) -> bool {
    0 <= pos < toks.len() && toks[pos] == w
}

/// A keyword or punctuation token, which no identifier may be.
pub open spec fn reserved(t: Seq<char>) -> bool {
    t == kw_fn() || t == kw_if() || t == punct('{') || t == punct('}') || t == punct('(') || t == punct(')') || t == punct(';')
}

/// Token `pos` is an identifier.
pub open spec fn ident_at(toks: Seq<Seq<char>>, pos: int) -> bool {
    0 <= pos < toks.len() && !reserved(toks[pos])
}

/// Where the block starting at `pos` ends, if one starts there.
pub open spec fn block_end(toks: Seq<Seq<char>>, pos: int) -> Option<int>
    decreases toks.len() - pos, 0int,
{
    if tok_is(toks, pos, punct('{')) {
        stmts_end(toks, pos + 1)
    } else {
        None
    }
}

/// Where `stmt* "}"` starting at `pos` ends.
pub open spec fn stmts_end(toks: Seq<Seq<char>>, pos: int) -> Option<int>
    decreases toks.len() - pos, 1int,
{
    if !(0 <= pos < toks.len()) {
        None
    } else if toks[pos] == punct('}') {
        Some(pos + 1)
    } else {
        match stmt_end(toks, pos) {
            Some(p) => if pos < p <= toks.len() {
                stmts_end(toks, p)
            } else {
                None
            },
            None => None,
        }
    }
}

/// Where the statement starting at `pos` ends.
pub open spec fn stmt_end(toks: Seq<Seq<char>>, pos: int) -> Option<int>
    decreases toks.len() - pos, 0int,
{
    if tok_is(toks, pos, kw_if()) {
        if ident_at(toks, pos + 1) {
            block_end(toks, pos + 2)
        } else {
            None
        }
    } else if !ident_at(toks, pos) {
        None
    } else if tok_is(toks, pos + 1, punct('(')) {
        if tok_is(toks, pos + 2, punct(')')) && tok_is(toks, pos + 3, punct(';')) {
            Some(pos + 4)
        } else {
            None
        }
    } else if tok_is(toks, pos + 1, punct(';')) {
        Some(pos + 2)
    } else {
        None
    }
}

/// Where the function item starting at `pos` ends.
pub open spec fn fn_item_end(toks: Seq<Seq<char>>, pos: int) -> Option<int> {
    if tok_is(toks, pos, kw_fn()) && ident_at(toks, pos + 1) {
        block_end(toks, pos + 2)
    } else {
        None
    }
}

/// The tokens from `pos` on are a sequence of function items.
pub open spec fn program_from(toks: Seq<Seq<char>>, pos: int) -> bool
    decreases toks.len() - pos,
{
    if pos >= toks.len() {
        true
    } else {
        match fn_item_end(toks, pos) {
            Some(p) => if pos < p <= toks.len() {
                program_from(toks, p)
            } else {
                false
            },
            None => false,
        }
    }
}

/// `qs` are the starts of consecutive statements: each statement starting
/// at one of them parses and ends where the next starts.
pub open spec fn stmt_chain(toks: Seq<Seq<char>>, qs: Seq<int>) -> bool {
    &&& qs.len() >= 1
    &&& forall|i: int| 0 <= i < qs.len() - 1 ==> qs[i] < qs[i + 1] && #[trigger] stmt_end(toks, qs[i]) == Some(qs[i + 1])
}

/// `qs` are the starts of consecutive function items, up to `qs.last()`.
pub open spec fn item_chain(toks: Seq<Seq<char>>, qs: Seq<int>) -> bool {
    &&& qs.len() >= 1
    &&& forall|i: int| 0 <= i < qs.len() - 1 ==> qs[i] < qs[i + 1] && #[trigger] fn_item_end(toks, qs[i]) == Some(qs[i + 1])
}

/// Law: an identifier is any token but the keywords `fn` and `if` and the
/// punctuation `{`, `}`, `(`, `)` and `;`.
pub proof fn lemma_identifiers(toks: Seq<Seq<char>>, pos: int)
    ensures
        ident_at(toks, pos) <==> (0 <= pos < toks.len() && toks[pos] != "fn"@ && toks[pos] != "if"@
            && toks[pos] != "{"@ && toks[pos] != "}"@ && toks[pos] != "("@ && toks[pos] != ")"@
            && toks[pos] != ";"@),
{
    lemma_literals();
}

/// Law (grammar, `stmt`): `if IDENT` followed by a block is a statement
/// that ends where the block ends.
pub proof fn lemma_if_rule(toks: Seq<Seq<char>>, pos: int, e: int)
    requires
        tok_is(toks, pos, "if"@),
        ident_at(toks, pos + 1),
        block_end(toks, pos + 2) == Some(e),
    ensures
        stmt_end(toks, pos) == Some(e),
{
    lemma_literals();
}

/// Law (grammar, `stmt`): `IDENT ( ) ;` and `IDENT ;` are statements.
pub proof fn lemma_call_rules(toks: Seq<Seq<char>>, pos: int)
    requires
        ident_at(toks, pos),
    ensures
        tok_is(toks, pos + 1, "("@) && tok_is(toks, pos + 2, ")"@) && tok_is(toks, pos + 3, ";"@)
            ==> stmt_end(toks, pos) == Some(pos + 4),
        tok_is(toks, pos + 1, ";"@) ==> stmt_end(toks, pos) == Some(pos + 2),
{
    lemma_literals();
    assert(punct(';') != punct('(')) by {
        assert(punct(';')[0] != punct('(')[0]);
    }
}

/// Every element of a strictly increasing chain comes at or before its last.
pub proof fn lemma_chain_order(qs: Seq<int>)
    requires
        qs.len() >= 1,
        forall|i: int| 0 <= i < qs.len() - 1 ==> #[trigger] qs[i] < qs[i + 1],
    ensures
        forall|i: int| 0 <= i < qs.len() ==> #[trigger] qs[i] <= qs.last(),
    decreases qs.len(),
{
    if qs.len() > 1 {
        let q0 = qs.drop_last();
        assert forall|i: int| 0 <= i < q0.len() - 1 implies #[trigger] q0[i] < q0[i + 1] by {
            assert(q0[i] == qs[i] && q0[i + 1] == qs[i + 1]);
        }
        lemma_chain_order(q0);
        assert forall|i: int| 0 <= i < qs.len() implies #[trigger] qs[i] <= qs.last() by {
            if i < qs.len() - 1 {
                assert(q0[i] == qs[i]);
                let k = qs.len() - 2;
                assert(qs[k] < qs[k + 1]);
            }
        }
    }
}

/// A chain of statements closed by `}` ends one past it.
proof fn lemma_stmts_chain(toks: Seq<Seq<char>>, qs: Seq<int>)
    requires
        stmt_chain(toks, qs),
        tok_is(toks, qs.last(), "}"@),
    ensures
        stmts_end(toks, qs[0]) == Some(qs.last() + 1),
    decreases qs.len(),
{
    lemma_literals();
    if qs.len() > 1 {
        let rest = qs.drop_first();
        assert forall|i: int| 0 <= i < rest.len() - 1 implies rest[i] < rest[i + 1] && #[trigger] stmt_end(toks, rest[i]) == Some(rest[i + 1]) by {
            assert(rest[i] == qs[i + 1] && rest[i + 1] == qs[i + 2]);
        }
        lemma_stmts_chain(toks, rest);
        assert(stmt_end(toks, qs[0]) == Some(qs[1]));
        assert forall|i: int| 0 <= i < qs.len() - 1 implies #[trigger] qs[i] < qs[i + 1] by {
            assert(stmt_end(toks, qs[i]) == Some(qs[i + 1]));
        }
        lemma_chain_order(qs);
        assert(qs[1] <= qs.last());
        assert(rest[0] == qs[1]);
        assert(rest.last() == qs.last());
    }
}

/// Law (grammar, `block`): `{` followed by statements, each ending where the
/// next starts -- whatever they are, `if` statements included -- and then
/// `}` is a block ending one past the `}`.
pub proof fn lemma_block_rule(toks: Seq<Seq<char>>, pos: int, qs: Seq<int>)
    requires
        tok_is(toks, pos, "{"@),
        stmt_chain(toks, qs),
        qs[0] == pos + 1,
        tok_is(toks, qs.last(), "}"@),
    ensures
        block_end(toks, pos) == Some(qs.last() + 1),
{
    lemma_literals();
    lemma_stmts_chain(toks, qs);
}

/// Law (grammar, `fn_item`): `fn IDENT` followed by a block is a function
/// item ending where the block ends.
pub proof fn lemma_fn_rule(toks: Seq<Seq<char>>, pos: int, e: int)
    requires
        tok_is(toks, pos, "fn"@),
        ident_at(toks, pos + 1),
        block_end(toks, pos + 2) == Some(e),
    ensures
        fn_item_end(toks, pos) == Some(e),
{
    lemma_literals();
}

/// Law (grammar, `program`): function items one after another, from the
/// first token to the last, make a program.
pub proof fn lemma_program_rule(toks: Seq<Seq<char>>, qs: Seq<int>)
    requires
        item_chain(toks, qs),
        qs[0] == 0,
        qs.last() == toks.len(),
    ensures
        program_from(toks, 0),
{
    lemma_program_from(toks, qs);
}

proof fn lemma_program_from(toks: Seq<Seq<char>>, qs: Seq<int>)
    requires
        item_chain(toks, qs),
        qs.last() == toks.len(),
    ensures
        program_from(toks, qs[0]),
    decreases qs.len(),
{
    if qs.len() > 1 {
        let rest = qs.drop_first();
        assert forall|i: int| 0 <= i < rest.len() - 1 implies rest[i] < rest[i + 1] && #[trigger] fn_item_end(toks, rest[i]) == Some(rest[i + 1]) by {
            assert(rest[i] == qs[i + 1] && rest[i + 1] == qs[i + 2]);
        }
        lemma_program_from(toks, rest);
        assert(fn_item_end(toks, qs[0]) == Some(qs[1]));
        assert forall|i: int| 0 <= i < qs.len() - 1 implies #[trigger] qs[i] < qs[i + 1] by {
            assert(fn_item_end(toks, qs[i]) == Some(qs[i + 1]));
        }
        lemma_chain_order(qs);
        assert(qs[1] <= qs.last());
        assert(rest[0] == qs[1]);
    }
}

/// Law (grammar): an `if` whose block holds any statements that parse --
/// another `if` first among them too -- parses as a statement.
pub proof fn lemma_nested_if(toks: Seq<Seq<char>>, pos: int, qs: Seq<int>)
    requires
        tok_is(toks, pos, "if"@),
        ident_at(toks, pos + 1),
        tok_is(toks, pos + 2, "{"@),
        stmt_chain(toks, qs),
        qs[0] == pos + 3,
        tok_is(toks, qs.last(), "}"@),
    ensures
        stmt_end(toks, pos) == Some(qs.last() + 1),
{
    lemma_block_rule(toks, pos + 2, qs);
    lemma_if_rule(toks, pos, qs.last() + 1);
}

/// `r` is the end position `e`, or no end where there is none.
pub open spec fn same_end(r: Option<usize>, e: Option<int>) -> bool {
    match r {
        Some(p) => e == Some(p as int),
        None => e is None,
    }
}

/// What the literals of the grammar spell.
proof fn lemma_literals()
    ensures
        "fn"@ == kw_fn(),
        "if"@ == kw_if(),
        "{"@ == punct('{'),
        "}"@ == punct('}'),
        "("@ == punct('('),
        ")"@ == punct(')'),
        ";"@ == punct(';'),
{
    reveal_strlit("fn");
    reveal_strlit("if");
    reveal_strlit("{");
    reveal_strlit("}");
    reveal_strlit("(");
    reveal_strlit(")");
    reveal_strlit(";");
    assert("fn"@ =~= kw_fn());
    assert("if"@ =~= kw_if());
    assert("{"@ =~= punct('{'));
    assert("}"@ =~= punct('}'));
    assert("("@ =~= punct('('));
    assert(")"@ =~= punct(')'));
    assert(";"@ =~= punct(';'));
}

/// Consumes token `want` at `pos`, if it is there.
pub fn eat(toks: &[&str], pos: &mut usize, want: &str) -> (hit: bool)
    ensures
        hit == tok_is(texts(toks@), *old(pos) as int, want@),
        *final(pos) == if hit { *old(pos) + 1 } else { *old(pos) as int },
{
    let hit = *pos < toks.len() && same_text(toks[*pos], want);
    if hit {
        *pos = *pos + 1;
    }
    hit
}

/// Consumes an identifier at `pos`, if one is there.
pub fn ident(toks: &[&str], pos: &mut usize) -> (hit: bool)
    ensures
        hit == ident_at(texts(toks@), *old(pos) as int),
        *final(pos) == if hit { *old(pos) + 1 } else { *old(pos) as int },
{
    proof {
        lemma_literals();
    }
    let hit = *pos < toks.len() && {
        let t = toks[*pos];
        !(same_text(t, "fn") || same_text(t, "if") || same_text(t, "{") || same_text(t, "}") || same_text(t, "(")
            || same_text(t, ")") || same_text(t, ";"))
    };
    if hit {
        *pos = *pos + 1;
    }
    hit
}

/// The end of the statement starting at `pos`.
fn stmt_at(toks: &[&str], pos: usize) -> (r: Option<usize>)
    ensures
        same_end(r, stmt_end(texts(toks@), pos as int)),
        r matches Some(p) ==> pos < p <= toks@.len(),
    decreases toks@.len() - pos, 0int,
{
    proof {
        lemma_literals();
    }
    let mut p = pos;
    if eat(toks, &mut p, "if") {
        if !ident(toks, &mut p) {
            return None;
        }
        return block_at(toks, p);
    }
    if !ident(toks, &mut p) {
        return None;
    }
    if eat(toks, &mut p, "(") && !eat(toks, &mut p, ")") {
        return None;
    }
    if eat(toks, &mut p, ";") {
        Some(p)
    } else {
        None
    }
}

/// The end of the block starting at `pos`.
fn block_at(toks: &[&str], pos: usize) -> (r: Option<usize>)
    ensures
        same_end(r, block_end(texts(toks@), pos as int)),
        r matches Some(p) ==> pos < p <= toks@.len(),
    decreases toks@.len() - pos, 1int,
{
    proof {
        lemma_literals();
    }
    let ghost t = texts(toks@);
    let mut p = pos;
    if !eat(toks, &mut p, "{") {
        return None;
    }
    loop
        invariant
            t == texts(toks@),
            pos < p <= toks@.len(),
            "}"@ == punct('}'),
            stmts_end(t, p as int) == block_end(t, pos as int),
        decreases toks@.len() - p,
    {
        if p >= toks.len() {
            return None;
        }
        if same_text(toks[p], "}") {
            return Some(p + 1);
        }
        match stmt_at(toks, p) {
            Some(q) => {
                p = q;
            },
            None => {
                return None;
            },
        }
    }
}

/// Consumes a block at `pos`, if one is there.
pub fn block(toks: &[&str], pos: &mut usize) -> (ok: bool)
    ensures
        ok == block_end(texts(toks@), *old(pos) as int) is Some,
        ok ==> Some(*final(pos) as int) == block_end(texts(toks@), *old(pos) as int),
{
    match block_at(toks, *pos) {
        Some(p) => {
            *pos = p;
            true
        },
        None => false,
    }
}

/// Consumes a statement at `pos`, if one is there.
pub fn stmt(toks: &[&str], pos: &mut usize) -> (ok: bool)
    ensures
        ok == stmt_end(texts(toks@), *old(pos) as int) is Some,
        ok ==> Some(*final(pos) as int) == stmt_end(texts(toks@), *old(pos) as int),
{
    match stmt_at(toks, *pos) {
        Some(p) => {
            *pos = p;
            true
        },
        None => false,
    }
}

/// Consumes a function item at `pos`, if one is there.
pub fn fn_item(toks: &[&str], pos: &mut usize) -> (ok: bool)
    ensures
        ok == fn_item_end(texts(toks@), *old(pos) as int) is Some,
        ok ==> Some(*final(pos) as int) == fn_item_end(texts(toks@), *old(pos) as int),
        ok ==> *old(pos) < *final(pos) <= toks@.len(),
{
    proof {
        lemma_literals();
    }
    let mut p = *pos;
    if !(eat(toks, &mut p, "fn") && ident(toks, &mut p)) {
        return false;
    }
    match block_at(toks, p) {
        Some(q) => {
            *pos = q;
            true
        },
        None => false,
    }
}

/// Do the tokens make up a program: a sequence of function items?
pub fn parses(toks: &[&str]) -> (ok: bool)
    ensures
        ok == program_from(texts(toks@), 0),
{
    let mut pos: usize = 0;
    while pos < toks.len()
        invariant
            pos <= toks@.len(),
            program_from(texts(toks@), pos as int) == program_from(texts(toks@), 0),
        decreases toks@.len() - pos,
    {
        if !fn_item(toks, &mut pos) {
            return false;
        }
    }
    true
}


/// The HDD demo's program, token by token.
pub open spec fn demo_seq() -> Seq<&'static str> {
    seq![
        "fn", "bar", "{", "b1", ";", "if", "guard", "{", "g",
        ";", "crash", "(", ")", ";", "}", "b2", ";", "}",
        "fn", "f2", "{", "s", ";", "s", ";", "}",
        "fn", "f3", "{", "s", ";", "s", ";", "}",
        "fn", "f4", "{", "s", ";", "s", ";", "}",
        "fn", "f5", "{", "s", ";", "s", ";", "}",
        "fn", "f6", "{", "s", ";", "s", ";", "}",
    ]
}

/// The tokens of the HDD demo's program as the raw stream a flat minimizer
/// sees: keywords, braces and semicolons are units too.
pub fn demo_tokens() -> (t: Vec<&'static str>)
    ensures
        t@ == demo_seq(),
        t@.len() == 58,
{
    let t = vec![
        // fn bar { b1 ; if guard { g ; crash ( ) ; } b2 ; }
        "fn", "bar", "{", "b1", ";", "if", "guard", "{", "g",
        ";", "crash", "(", ")", ";", "}", "b2", ";", "}",
        // fn f2 { s ; s ; } ... fn f6 { s ; s ; }
        "fn", "f2", "{", "s", ";", "s", ";", "}",
        "fn", "f3", "{", "s", ";", "s", ";", "}",
        "fn", "f4", "{", "s", ";", "s", ";", "}",
        "fn", "f5", "{", "s", ";", "s", ";", "}",
        "fn", "f6", "{", "s", ";", "s", ";", "}",
    ];
    assert(t@ =~= demo_seq());
    t
}

/// The surviving tokens of `config` in source order, separated by spaces.
pub open spec fn kept_text(tokens: Seq<&str>, config: Seq<u32>) -> Seq<char> {
    joined(config.map_values(|u: u32| tokens[u as int]@), seq![' '])
}

/// Render a configuration back into source: the surviving tokens in
/// source order.
pub fn render_flat(tokens: &[&str], config: &Configuration) -> (s: String)
    requires
        config.wf(),
        forall|u: u32| #[trigger] config@.contains(u) ==> u < tokens@.len(),
    ensures
        s@ == kept_text(tokens@, config.elems()),
{
    let ghost elems = config.elems();
    let ghost text = |u: u32| tokens@[u as int]@;
    let mut out = String::new();
    let n = config.len();
    let mut i: usize = 0;
    proof {
        assert(elems.take(0).map_values(text) =~= Seq::<Seq<char>>::empty());
    }
    while i < n
        invariant
            config.wf(),
            forall|u: u32| #[trigger] config@.contains(u) ==> u < tokens@.len(),
            elems == config.elems(),
            n == elems.len(),
            i <= n,
            text == (|u: u32| tokens@[u as int]@),
            out@ == joined(elems.take(i as int).map_values(text), seq![' ']),
        decreases n - i,
    {
        let u = config.get(i);
        proof {
            assert(config@.contains(elems[i as int]));
        }
        if i > 0 {
            out.append(" ");
        }
        out.append(tokens[u as usize]);
        proof {
            reveal_strlit(" ");
            let ws = elems.take(i as int + 1).map_values(text);
            assert(ws.drop_last() =~= elems.take(i as int).map_values(text));
            assert(ws.last() == tokens@[u as int]@);
            assert(out@ =~= joined(ws, seq![' ']));
        }
        i = i + 1;
    }
    proof {
        assert(elems.take(i as int) =~= elems);
    }
    out
}
} // verus!
