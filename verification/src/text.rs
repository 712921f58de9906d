//! Small text utilities: comparing words and splitting at whitespace.
use vstd::prelude::*;
use vstd::string::StrSliceExecFns;
use crate::tree::joined;

verus! {

/// Unicode's `White_Space` property: tab through carriage return, space,
/// next line, no-break space, ogham space mark, the spaces from en quad to
/// hair space, line and paragraph separator, narrow no-break space, medium
/// mathematical space and ideographic space.
pub open spec fn white_space(c: char) -> bool {
    let u = c as u32;
    (0x09 <= u <= 0x0d) || u == 0x20 || u == 0x85 || u == 0xa0 || u == 0x1680
        || (0x2000 <= u <= 0x200a) || u == 0x2028 || u == 0x2029 || u == 0x202f
        || u == 0x205f || u == 0x3000
}

/// Is `c` whitespace? Calls `char::is_whitespace`, which std documents as
/// the `White_Space` property of Unicode, stated by `white_space`.
#[verifier::external_body]
fn is_white_space(c: char) -> (b: bool)
    ensures
        b == white_space(c),
{
    c.is_whitespace()
}

/// Do `a` and `b` hold the same text?
pub fn same_text(a: &str, b: &str) -> (r: bool)
    ensures
        r == (a@ == b@),
{
    let n = a.unicode_len();
    if n != b.unicode_len() {
        return false;
    }
    let mut i: usize = 0;
    while i < n
        invariant
            n == a@.len(),
            n == b@.len(),
            i <= n,
            forall|j: int| 0 <= j < i ==> a@[j] == b@[j],
        decreases n - i,
    {
        if a.get_char(i) != b.get_char(i) {
            return false;
        }
        i = i + 1;
    }
    assert(a@ =~= b@);
    true
}

/// Does the character vector `a` spell `b`?
pub fn spells(a: &Vec<char>, b: &str) -> (r: bool)
    ensures
        r == (a@ == b@),
{
    let n = a.len();
    if n != b.unicode_len() {
        return false;
    }
    let mut i: usize = 0;
    while i < n
        invariant
            n == a@.len(),
            n == b@.len(),
            i <= n,
            forall|j: int| 0 <= j < i ==> a@[j] == b@[j],
        decreases n - i,
    {
        if a[i] != b.get_char(i) {
            return false;
        }
        i = i + 1;
    }
    assert(a@ =~= b@);
    true
}

/// The words of `s`: its maximal runs of non-whitespace characters, in order.
pub open spec fn words(s: Seq<char>) -> Seq<Seq<char>>
    decreases s.len(),
{
    if s.len() == 0 {
        seq![]
    } else {
        let w = words(s.drop_last());
        let c = s.last();
        if white_space(c) {
            w
        } else if s.len() >= 2 && !white_space(s[s.len() - 2]) {
            w.drop_last().push(w.last().push(c))
        } else {
            w.push(seq![c])
        }
    }
}

/// The character vectors' texts.
pub open spec fn texts_of(v: Seq<Vec<char>>) -> Seq<Seq<char>> {
    v.map_values(|w: Vec<char>| w@)
}

/// Splits `src` at whitespace, like `str::split_whitespace`.
pub fn split_words(src: &str) -> (r: Vec<Vec<char>>)
    ensures
        texts_of(r@) == words(src@),
{
    let n = src.unicode_len();
    let mut out: Vec<Vec<char>> = Vec::new();
    let mut cur: Vec<char> = Vec::new();
    let mut i: usize = 0;
    while i < n
        invariant
            n == src@.len(),
            i <= n,
            cur@.len() > 0 <==> (i > 0 && !white_space(src@[i - 1])),
            words(src@.take(i as int)) == if cur@.len() > 0 { texts_of(out@).push(cur@) } else { texts_of(out@) },
        decreases n - i,
    {
        let c = src.get_char(i);
        let ghost s = src@.take(i as int + 1);
        proof {
            assert(s.drop_last() =~= src@.take(i as int));
            assert(s.last() == c);
            if i > 0 {
                assert(s[s.len() - 2] == src@[i - 1]);
            }
        }
        if is_white_space(c) {
            if cur.len() > 0 {
                let ghost t = texts_of(out@);
                out.push(cur);
                proof {
                    assert(texts_of(out@) =~= t.push(cur@));
                }
                cur = Vec::new();
            }
        } else {
            let ghost t = texts_of(out@);
            let ghost c0 = cur@;
            cur.push(c);
            proof {
                if c0.len() > 0 {
                    assert(t.push(c0).drop_last() =~= t);
                    assert(words(s) =~= t.push(cur@));
                } else {
                    assert(cur@ =~= seq![c]);
                }
            }
        }
        i = i + 1;
    }
    proof {
        assert(src@.take(i as int) =~= src@);
    }
    if cur.len() > 0 {
        let ghost t = texts_of(out@);
        out.push(cur);
        proof {
            assert(texts_of(out@) =~= t.push(cur@));
        }
    }
    out
}

/// `w` is one word: not empty, and free of whitespace.
pub open spec fn is_word(w: Seq<char>) -> bool {
    w.len() > 0 && forall|i: int| 0 <= i < w.len() ==> !white_space(#[trigger] w[i])
}

/// A word after a space adds itself as one more word.
proof fn lemma_words_append(s: Seq<char>, w: Seq<char>)
    requires
        is_word(w),
    ensures
        words(s + seq![' '] + w) == words(s).push(w),
    decreases w.len(),
{
    let t = s + seq![' '] + w;
    let sp = s + seq![' '];
    assert(white_space(' '));
    assert(sp.drop_last() =~= s);
    assert(sp.last() == ' ');
    assert(words(sp) == words(s));
    if w.len() == 1 {
        assert(t.drop_last() =~= sp);
        assert(t.last() == w[0]);
        assert(!white_space(w[0]));
        assert(t[t.len() - 2] == ' ');
        assert(words(t) == words(sp).push(seq![w[0]]));
        assert(seq![w[0]] =~= w);
    } else {
        let w0 = w.drop_last();
        lemma_words_append(s, w0);
        assert(t.drop_last() =~= s + seq![' '] + w0);
        assert(t.last() == w[w.len() - 1]);
        assert(!white_space(w[w.len() - 1]));
        assert(t[t.len() - 2] == w[w.len() - 2]);
        assert(!white_space(w[w.len() - 2]));
        let ws0 = words(s).push(w0);
        assert(words(t) == ws0.drop_last().push(ws0.last().push(t.last())));
        assert(w0.push(w.last()) =~= w);
        assert(ws0.drop_last() =~= words(s));
    }
}

/// A single word splits into itself.
proof fn lemma_words_one(w: Seq<char>)
    requires
        is_word(w),
    ensures
        words(w) == seq![w],
    decreases w.len(),
{
    assert(!white_space(w.last()));
    if w.len() == 1 {
        assert(w.drop_last() =~= Seq::<char>::empty());
        assert(words(Seq::<char>::empty()) == Seq::<Seq<char>>::empty());
        assert(words(w) == Seq::<Seq<char>>::empty().push(seq![w.last()]));
        assert(seq![w[0]] =~= w);
        assert(Seq::<Seq<char>>::empty().push(w) =~= seq![w]);
    } else {
        let w0 = w.drop_last();
        lemma_words_one(w0);
        assert(!white_space(w[w.len() - 2]));
        assert(words(w) == seq![w0].drop_last().push(seq![w0].last().push(w.last())));
        assert(w0.push(w.last()) =~= w);
        assert(seq![w0].drop_last().push(w0.push(w.last())) =~= seq![w]);
    }
}

/// Words joined by single spaces split back into the same words.
pub proof fn lemma_words_joined(ws: Seq<Seq<char>>)
    requires
        forall|i: int| 0 <= i < ws.len() ==> is_word(#[trigger] ws[i]),
    ensures
        words(joined(ws, seq![' '])) == ws,
    decreases ws.len(),
{
    if ws.len() == 0 {
        assert(words(Seq::<char>::empty()) =~= ws);
    } else if ws.len() == 1 {
        lemma_words_one(ws[0]);
        assert(seq![ws[0]] =~= ws);
    } else {
        let w0 = ws.drop_last();
        lemma_words_joined(w0);
        lemma_words_append(joined(w0, seq![' ']), ws.last());
        assert(w0.push(ws.last()) =~= ws);
    }
}

} // verus!
