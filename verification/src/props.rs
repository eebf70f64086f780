//! Proved laws of the tokenizer and the grammar pass: whitespace-run
//! idempotence, the single-text shape of sigil-free input, the leading
//! notation of `@name`-style input, and the symmetry of grouping.

use vstd::prelude::*;
use crate::lexer::Tok;
use crate::lexer::is_hspace;
use crate::lexer::is_word_char;
use crate::lexer::lex_step;
use crate::lexer::lexed;
use crate::parser::ErrorModel;
use crate::parser::ItemModel;
use crate::parser::is_arg_tag;
use crate::parser::pad;
use crate::parser::parse_from;
use crate::parser::parsed_text;
use crate::parser::starts_with;

verus! {

/// The text holds no annotation sigil.
pub open spec fn no_sigil(s: Seq<char>) -> bool {
    forall|i: int| 0 <= i < s.len() ==> s[i] != '@'
}

/// No token of the stream from position `i` onward is the sigil token.
pub open spec fn no_at_from(toks: Seq<Tok>, i: int) -> bool {
    forall|j: int| i <= j < toks.len() ==> !(toks[j] is At)
}

/// The literal content of a token run: each word's characters, one space
/// per collapsed whitespace run, line breaks and braces one-for-one.
pub open spec fn text_of(toks: Seq<Tok>) -> Seq<char>
    decreases toks.len(),
{
    if toks.len() == 0 {
        Seq::<char>::empty()
    } else {
        text_of(toks.drop_last()) + (match toks.last() {
            Tok::At => Seq::<char>::empty(),
            Tok::Word(w) => w,
            Tok::Space => seq![' '],
            Tok::NewLine => seq!['\n'],
            Tok::Paren(c) => seq![c],
        })
    }
}

/// The text with every horizontal-whitespace run collapsed to a single
/// space character; all other characters kept one-for-one.
pub open spec fn collapse(s: Seq<char>) -> Seq<char>
    decreases s.len(),
{
    if s.len() == 0 {
        Seq::<char>::empty()
    } else if is_hspace(s.last()) && s.len() > 1 && is_hspace(s[s.len() - 2]) {
        collapse(s.drop_last())
    } else if is_hspace(s.last()) {
        collapse(s.drop_last()).push(' ')
    } else {
        collapse(s.drop_last()).push(s.last())
    }
}

/// A run of `n` space characters.
pub open spec fn spaces(n: nat) -> Seq<char> {
    Seq::new(n, |i: int| ' ')
}

/// Shape of a lexed stream: nonempty input lexes to a nonempty stream
/// whose first and last token kinds follow the first and last character
/// classes, and sigil-free text lexes to a sigil-free stream.
proof fn lemma_lexed_shape(s: Seq<char>)
    ensures
        s.len() == 0 ==> lexed(s).len() == 0,
        s.len() > 0 ==> lexed(s).len() > 0,
        s.len() > 0 ==> ((lexed(s).last() is Space) <==> is_hspace(s.last())),
        s.len() > 0 ==> ((lexed(s).last() is Word) <==> is_word_char(s.last())),
        s.len() > 0 ==> ((lexed(s)[0] is Word) <==> is_word_char(s[0])),
        s.len() > 0 ==> ((lexed(s)[0] is Space) <==> is_hspace(s[0])),
        s.len() > 0 ==> ((lexed(s)[0] is At) <==> s[0] == '@'),
        no_sigil(s) ==> no_at_from(lexed(s), 0),
    decreases s.len(),
{
    if s.len() > 0 {
        let s2 = s.drop_last();
        let c = s.last();
        lemma_lexed_shape(s2);
        if no_sigil(s) {
            assert(forall|i: int| 0 <= i < s2.len() ==> s2[i] == s[i]);
            assert(no_sigil(s2));
            let x = lexed(s2);
            let y = lexed(s);
            assert forall|j: int| 0 <= j < y.len() implies !(y[j] is At) by {
                if j < x.len() && y[j] == x[j] {
                    assert(!(x[j] is At));
                }
            }
        }
    }
}

/// A `lex_step` on a stream with a nonempty tail acts on the tail alone.
proof fn lemma_lex_step_prefix(x: Seq<Tok>, y: Seq<Tok>, c: char)
    requires
        y.len() > 0,
    ensures
        lex_step(x + y, c) == x + lex_step(y, c),
{
    let xy = x + y;
    assert(xy.last() == y.last());
    if c == '@' {
        assert(xy.push(Tok::At) =~= x + y.push(Tok::At));
    } else if c == '{' || c == '}' {
        assert(xy.push(Tok::Paren(c)) =~= x + y.push(Tok::Paren(c)));
    } else if c == '\n' {
        assert(xy.push(Tok::NewLine) =~= x + y.push(Tok::NewLine));
    } else if is_hspace(c) {
        if y.last() is Space {
            assert(lex_step(xy, c) == xy);
            assert(lex_step(y, c) == y);
        } else {
            assert(xy.push(Tok::Space) =~= x + y.push(Tok::Space));
        }
    } else {
        if y.last() is Word {
            let t = Tok::Word(y.last()->Word_0.push(c));
            assert(xy.update(xy.len() - 1, t) =~= x + y.update(y.len() - 1, t));
        } else {
            assert(xy.push(Tok::Word(seq![c])) =~= x + y.push(Tok::Word(seq![c])));
        }
    }
}

/// Lexing distributes over concatenation when no token run crosses the
/// boundary: the right part must not open with a character that would
/// extend the left part's final whitespace or word run.
proof fn lemma_lexed_concat(a: Seq<char>, b: Seq<char>)
    requires
        b.len() > 0 ==> !(lexed(a).len() > 0 && lexed(a).last() is Space && is_hspace(b[0])),
        b.len() > 0 ==> !(lexed(a).len() > 0 && lexed(a).last() is Word && is_word_char(b[0])),
    ensures
        lexed(a + b) == lexed(a) + lexed(b),
    decreases b.len(),
{
    if b.len() == 0 {
        assert(a + b =~= a);
        assert(lexed(a) + lexed(b) =~= lexed(a));
    } else if b.len() == 1 {
        let c = b[0];
        let x = lexed(a);
        let e = Seq::<Tok>::empty();
        assert((a + b).drop_last() =~= a);
        assert((a + b).last() == c);
        assert(b.drop_last() =~= Seq::<char>::empty());
        assert(b.last() == c);
        assert(lexed(Seq::<char>::empty()) == e);
        assert(lexed(b) == lex_step(e, c));
        assert(lexed(a + b) == lex_step(x, c));
        if c == '@' {
            assert(x.push(Tok::At) =~= x + e.push(Tok::At));
        } else if c == '{' || c == '}' {
            assert(x.push(Tok::Paren(c)) =~= x + e.push(Tok::Paren(c)));
        } else if c == '\n' {
            assert(x.push(Tok::NewLine) =~= x + e.push(Tok::NewLine));
        } else if is_hspace(c) {
            assert(!(x.len() > 0 && x.last() is Space));
            assert(x.push(Tok::Space) =~= x + e.push(Tok::Space));
        } else {
            assert(!(x.len() > 0 && x.last() is Word));
            assert(x.push(Tok::Word(seq![c])) =~= x + e.push(Tok::Word(seq![c])));
        }
    } else {
        let b2 = b.drop_last();
        assert(b2[0] == b[0]);
        lemma_lexed_concat(a, b2);
        lemma_lexed_shape(b2);
        assert((a + b).drop_last() =~= a + b2);
        assert((a + b).last() == b.last());
        lemma_lex_step_prefix(lexed(a), lexed(b2), b.last());
    }
}

/// Lexing looks only at the text: equal token streams stay equal under a
/// common continuation.
proof fn lemma_lexed_extend_eq(x: Seq<char>, y: Seq<char>, b: Seq<char>)
    requires
        lexed(x) == lexed(y),
    ensures
        lexed(x + b) == lexed(y + b),
    decreases b.len(),
{
    if b.len() == 0 {
        assert(x + b =~= x);
        assert(y + b =~= y);
    } else {
        lemma_lexed_extend_eq(x, y, b.drop_last());
        assert((x + b).drop_last() =~= x + b.drop_last());
        assert((y + b).drop_last() =~= y + b.drop_last());
        assert((x + b).last() == b.last());
        assert((y + b).last() == b.last());
    }
}

/// A run of spaces lexes as a single space does.
proof fn lemma_lexed_spaces(a: Seq<char>, n: nat)
    requires
        n >= 1,
    ensures
        lexed(a + spaces(n)) == lexed(a + seq![' ']),
    decreases n,
{
    if n == 1 {
        assert(spaces(1) =~= seq![' ']);
    } else {
        lemma_lexed_spaces(a, (n - 1) as nat);
        assert((a + spaces(n)).drop_last() =~= a + spaces((n - 1) as nat));
        assert((a + spaces(n)).last() == ' ');
        lemma_lexed_shape(a + seq![' ']);
        assert((a + seq![' ']).last() == ' ');
        assert(lexed(a + seq![' ']).last() is Space);
        assert(lex_step(lexed(a + seq![' ']), ' ') == lexed(a + seq![' ']));
    }
}

/// Idempotence of whitespace runs: any number (at least one) of
/// consecutive space characters between two fragments lexes — and hence
/// parses — exactly as a single space character between them does.
pub proof fn lemma_space_run_idempotent(a: Seq<char>, n: nat, b: Seq<char>)
    requires
        n >= 1,
    ensures
        lexed(a + spaces(n) + b) == lexed(a + seq![' '] + b),
        parsed_text(a + spaces(n) + b) == parsed_text(a + seq![' '] + b),
{
    lemma_lexed_spaces(a, n);
    lemma_lexed_extend_eq(a + spaces(n), a + seq![' '], b);
}

/// Literal content distributes over concatenation of token runs.
proof fn lemma_text_of_concat(a: Seq<Tok>, b: Seq<Tok>)
    ensures
        text_of(a + b) == text_of(a) + text_of(b),
    decreases b.len(),
{
    if b.len() == 0 {
        assert(a + b =~= a);
        assert(text_of(a) + text_of(b) =~= text_of(a));
    } else {
        lemma_text_of_concat(a, b.drop_last());
        assert((a + b).drop_last() =~= a + b.drop_last());
        assert((a + b).last() == b.last());
        assert(text_of(a + b) =~= text_of(a) + text_of(b));
    }
}

/// The literal content of one token.
proof fn lemma_text_of_singleton(t: Tok)
    ensures
        text_of(seq![t]) == (match t {
            Tok::At => Seq::<char>::empty(),
            Tok::Word(w) => w,
            Tok::Space => seq![' '],
            Tok::NewLine => seq!['\n'],
            Tok::Paren(c) => seq![c],
        }),
{
    let s = seq![t];
    assert(s.drop_last() =~= Seq::<Tok>::empty());
    assert(text_of(Seq::<Tok>::empty()) == Seq::<char>::empty());
    assert(Seq::<char>::empty() + text_of(s) =~= text_of(s));
    match t {
        Tok::At => {
            assert(text_of(s) =~= Seq::<char>::empty());
        },
        Tok::Word(w) => {
            assert(text_of(s) =~= w);
        },
        Tok::Space => {
            assert(text_of(s) =~= seq![' ']);
        },
        Tok::NewLine => {
            assert(text_of(s) =~= seq!['\n']);
        },
        Tok::Paren(c) => {
            assert(text_of(s) =~= seq![c]);
        },
    }
}

/// The literal content of a sigil-free text's token stream is the text
/// itself with each whitespace run collapsed to one space.
proof fn lemma_text_collapse(s: Seq<char>)
    requires
        no_sigil(s),
    ensures
        text_of(lexed(s)) == collapse(s),
    decreases s.len(),
{
    if s.len() > 0 {
        let s2 = s.drop_last();
        let c = s.last();
        assert(forall|i: int| 0 <= i < s2.len() ==> s2[i] == s[i]);
        assert(no_sigil(s2));
        assert(s[s.len() - 1] != '@');
        lemma_text_collapse(s2);
        lemma_lexed_shape(s2);
        let x = lexed(s2);
        let y = lexed(s);
        if c == '{' || c == '}' {
            assert(y == x.push(Tok::Paren(c)));
            assert(y.drop_last() =~= x);
            assert(text_of(y) =~= collapse(s2).push(c));
            assert(collapse(s) == collapse(s2).push(c));
        } else if c == '\n' {
            assert(y == x.push(Tok::NewLine));
            assert(y.drop_last() =~= x);
            assert(text_of(y) =~= collapse(s2).push('\n'));
        } else if is_hspace(c) {
            if x.len() > 0 && x.last() is Space {
                assert(y == x);
                assert(s2.len() > 0 && is_hspace(s2.last()));
                assert(s[s.len() - 2] == s2.last());
                assert(collapse(s) == collapse(s2));
            } else {
                assert(y == x.push(Tok::Space));
                assert(y.drop_last() =~= x);
                assert(!(s2.len() > 0 && is_hspace(s2.last())));
                assert(s.len() > 1 ==> s[s.len() - 2] == s2.last());
                assert(collapse(s) == collapse(s2).push(' '));
                assert(text_of(y) =~= collapse(s2).push(' '));
            }
        } else {
            assert(is_word_char(c));
            assert(collapse(s) == collapse(s2).push(c));
            if x.len() > 0 && x.last() is Word {
                let w = x.last()->Word_0;
                assert(y == x.update(x.len() - 1, Tok::Word(w.push(c))));
                assert(y.drop_last() =~= x.drop_last());
                assert(y.last() == Tok::Word(w.push(c)));
                assert(text_of(x) == text_of(x.drop_last()) + w);
                assert(text_of(y) == text_of(x.drop_last()) + w.push(c));
                assert(text_of(y) =~= text_of(x).push(c));
            } else {
                assert(y == x.push(Tok::Word(seq![c])));
                assert(y.drop_last() =~= x);
                assert(text_of(y) =~= text_of(x).push(c));
            }
        }
    }
}

/// Over a sigil-free span of tokens the grammar pass only appends
/// literal content to the trailing `Text` item, leaving the skip counter
/// at zero.
proof fn lemma_parse_text_span(toks: Seq<Tok>, i: int, end: int, items: Seq<ItemModel>)
    requires
        0 <= i <= end,
        end + 3 <= toks.len(),
        forall|j: int| i <= j < end ==> !(toks[j] is At),
        items.len() > 0,
        items.last() is Text,
    ensures
        parse_from(toks, i, items, 0nat) == parse_from(
            toks,
            end,
            items.update(
                items.len() - 1,
                ItemModel::Text(items.last()->Text_0 + text_of(toks.subrange(i, end))),
            ),
            0nat,
        ),
    decreases end - i,
{
    let t0 = items.last()->Text_0;
    if i == end {
        assert(toks.subrange(i, end) =~= Seq::<Tok>::empty());
        assert(text_of(Seq::<Tok>::empty()) == Seq::<char>::empty());
        assert(t0 + Seq::<char>::empty() =~= t0);
        assert(items.update(items.len() - 1, ItemModel::Text(t0)) =~= items);
    } else {
        let cur = toks[i];
        assert(!(cur is At));
        lemma_text_of_singleton(cur);
        lemma_text_of_concat(seq![cur], toks.subrange(i + 1, end));
        assert(seq![cur] + toks.subrange(i + 1, end) =~= toks.subrange(i, end));
        let m = text_of(seq![cur]);
        assert(text_of(toks.subrange(i, end)) == m + text_of(toks.subrange(i + 1, end)));
        let items2 = items.update(items.len() - 1, ItemModel::Text(t0 + m));
        match cur {
            Tok::At => {},
            Tok::Word(w) => {
                assert(parse_from(toks, i, items, 0nat) == parse_from(toks, i + 1, items2, 0nat));
            },
            Tok::Space => {
                assert(t0 + (" ")@ =~= t0 + m) by {
                    reveal_strlit(" ");
                }
                assert(parse_from(toks, i, items, 0nat) == parse_from(toks, i + 1, items2, 0nat));
            },
            Tok::NewLine => {
                assert(t0 + ("\n")@ =~= t0 + m) by {
                    reveal_strlit("\n");
                }
                assert(parse_from(toks, i, items, 0nat) == parse_from(toks, i + 1, items2, 0nat));
            },
            Tok::Paren(c) => {
                assert(t0.push(c) =~= t0 + m);
                assert(parse_from(toks, i, items, 0nat) == parse_from(toks, i + 1, items2, 0nat));
            },
        }
        lemma_parse_text_span(toks, i + 1, end, items2);
        let rest = text_of(toks.subrange(i + 1, end));
        assert((t0 + m) + rest =~= t0 + text_of(toks.subrange(i, end)));
        assert(items2.update(items2.len() - 1, ItemModel::Text((t0 + m) + rest)) =~= items.update(
            items.len() - 1,
            ItemModel::Text(t0 + text_of(toks.subrange(i, end))),
        ));
    }
}

/// Running the grammar pass to the end of a padded, sigil-free tail:
/// everything from position `i` on is appended to the trailing `Text`.
proof fn lemma_parse_text_full(body: Seq<Tok>, i: int, items: Seq<ItemModel>)
    requires
        0 <= i <= body.len(),
        forall|j: int| i <= j < body.len() ==> !(body[j] is At),
        items.len() > 0,
        items.last() is Text,
    ensures
        parse_from(pad(body), i, items, 0nat) == Ok::<Seq<ItemModel>, ErrorModel>(
            items.update(
                items.len() - 1,
                ItemModel::Text(
                    items.last()->Text_0 + text_of(body.subrange(i, body.len() as int)),
                ),
            ),
        ),
{
    let p = pad(body);
    let n = body.len() as int;
    assert(p.len() == n + 3);
    assert(forall|j: int| 0 <= j < n ==> p[j] == body[j]);
    lemma_parse_text_span(p, i, n, items);
    assert(p.subrange(i, n) =~= body.subrange(i, n));
}

/// For input containing no annotation sigil and not opening with a line
/// break or a brace, the output is exactly one `Text` item holding the
/// input with every horizontal-whitespace run collapsed to one space and
/// all other characters kept one-for-one.
pub proof fn lemma_no_sigil_single_text(s: Seq<char>)
    requires
        s.len() > 0,
        no_sigil(s),
        s[0] != '\n',
        s[0] != '{',
        s[0] != '}',
    ensures
        parsed_text(s) == Ok::<Seq<ItemModel>, ErrorModel>(seq![ItemModel::Text(collapse(s))]),
{
    let toks = lexed(s);
    lemma_lexed_shape(s);
    lemma_text_collapse(s);
    let p = pad(toks);
    let n = toks.len() as int;
    assert(p.len() == n + 3);
    assert(forall|j: int| 0 <= j < n ==> p[j] == toks[j]);
    assert(toks[0] is Word || toks[0] is Space);
    lemma_text_of_singleton(toks[0]);
    lemma_text_of_concat(seq![toks[0]], toks.subrange(1, n));
    assert(seq![toks[0]] + toks.subrange(1, n) =~= toks);
    let m = text_of(seq![toks[0]]);
    let e = Seq::<ItemModel>::empty();
    if toks[0] is Word {
        let w = toks[0]->Word_0;
        let items1 = seq![ItemModel::Text(w)];
        assert(e.push(ItemModel::Text(w)) =~= items1);
        assert(parse_from(p, 0, e, 0nat) == parse_from(p, 1, items1, 0nat));
        lemma_parse_text_full(toks, 1, items1);
        assert(items1.update(0, ItemModel::Text(w + text_of(toks.subrange(1, n)))) =~= seq![
            ItemModel::Text(text_of(toks)),
        ]);
    } else {
        let items1 = seq![ItemModel::Text((" ")@)];
        assert(e.push(ItemModel::Text((" ")@)) =~= items1);
        assert(parse_from(p, 0, e, 0nat) == parse_from(p, 1, items1, 0nat));
        lemma_parse_text_full(toks, 1, items1);
        assert((" ")@ =~= m) by {
            reveal_strlit(" ");
        }
        assert(items1.update(0, ItemModel::Text((" ")@ + text_of(toks.subrange(1, n)))) =~= seq![
            ItemModel::Text(text_of(toks)),
        ]);
    }
}

/// The tokens of the prefix `@name `.
proof fn lemma_lexed_name_prefix()
    ensures
        lexed(("@name ")@) == seq![Tok::At, Tok::Word(("name")@), Tok::Space],
{
    reveal_strlit("@name ");
    reveal_strlit("name");
    let a = ("@name ")@;
    assert(a.len() == 6);
    assert(a[0] == '@' && a[1] == 'n' && a[2] == 'a' && a[3] == 'm' && a[4] == 'e' && a[5] == ' ');
    let t1 = a.take(1);
    let t2 = a.take(2);
    let t3 = a.take(3);
    let t4 = a.take(4);
    let t5 = a.take(5);
    assert(t1.drop_last() =~= Seq::<char>::empty());
    assert(t2.drop_last() =~= t1);
    assert(t3.drop_last() =~= t2);
    assert(t4.drop_last() =~= t3);
    assert(t5.drop_last() =~= t4);
    assert(a.drop_last() =~= t5);
    assert(t1.last() == '@' && t2.last() == 'n' && t3.last() == 'a' && t4.last() == 'm'
        && t5.last() == 'e' && a.last() == ' ');
    assert(lexed(Seq::<char>::empty()) == Seq::<Tok>::empty());
    assert(lexed(t1) =~= seq![Tok::At]);
    assert(lexed(t2) =~= seq![Tok::At, Tok::Word(seq!['n'])]);
    assert(seq!['n'].push('a') =~= seq!['n', 'a']);
    assert(lexed(t3) =~= seq![Tok::At, Tok::Word(seq!['n', 'a'])]);
    assert(seq!['n', 'a'].push('m') =~= seq!['n', 'a', 'm']);
    assert(lexed(t4) =~= seq![Tok::At, Tok::Word(seq!['n', 'a', 'm'])]);
    assert(seq!['n', 'a', 'm'].push('e') =~= seq!['n', 'a', 'm', 'e']);
    assert(lexed(t5) =~= seq![Tok::At, Tok::Word(seq!['n', 'a', 'm', 'e'])]);
    assert(("name")@ =~= seq!['n', 'a', 'm', 'e']);
    assert(lexed(a) =~= seq![Tok::At, Tok::Word(("name")@), Tok::Space]);
}

/// `name` neither opens with `param` nor belongs to the closed set of
/// single-argument tag names.
proof fn lemma_name_is_plain_tag()
    ensures
        !starts_with(("name")@, ("param")@),
        !is_arg_tag(("name")@),
{
    reveal_strlit("name");
    reveal_strlit("param");
    assert(("name")@.len() == 4);
    assert(("param")@.len() == 5);
    reveal_strlit("a");
    reveal_strlit("b");
    reveal_strlit("c");
    reveal_strlit("p");
    reveal_strlit("emoji");
    reveal_strlit("e");
    reveal_strlit("em");
    reveal_strlit("def");
    reveal_strlit("class");
    reveal_strlit("category");
    reveal_strlit("concept");
    reveal_strlit("enum");
    reveal_strlit("example");
    reveal_strlit("extends");
    reveal_strlit("file");
    reveal_strlit("sa");
    reveal_strlit("see");
    reveal_strlit("retval");
    reveal_strlit("exception");
    reveal_strlit("throw");
    reveal_strlit("throws");
    assert(("a")@.len() == 1);
    assert(("b")@.len() == 1);
    assert(("c")@.len() == 1);
    assert(("p")@.len() == 1);
    assert(("emoji")@.len() == 5);
    assert(("e")@.len() == 1);
    assert(("em")@.len() == 2);
    assert(("def")@.len() == 3);
    assert(("class")@.len() == 5);
    assert(("category")@.len() == 8);
    assert(("concept")@.len() == 7);
    assert(("enum")@.len() == 4 && ("enum")@[0] == 'e');
    assert(("example")@.len() == 7);
    assert(("extends")@.len() == 7);
    assert(("file")@.len() == 4 && ("file")@[0] == 'f');
    assert(("sa")@.len() == 2);
    assert(("see")@.len() == 3);
    assert(("retval")@.len() == 6);
    assert(("exception")@.len() == 9);
    assert(("throw")@.len() == 5);
    assert(("throws")@.len() == 6);
    assert(("name")@[0] == 'n');
}

/// Every input opening with `@name ` parses to the bare notation for the
/// tag `name` followed by one `Text` item holding the whitespace-collapsed
/// remainder.
pub proof fn lemma_name_tag_prefix(rest: Seq<char>)
    requires
        no_sigil(rest),
        rest.len() > 0 ==> !is_hspace(rest[0]),
    ensures
        parsed_text(("@name ")@ + rest) == Ok::<Seq<ItemModel>, ErrorModel>(
            seq![
                ItemModel::Notation {
                    meta: Seq::<Seq<char>>::empty(),
                    params: Seq::<Seq<char>>::empty(),
                    tag: ("name")@,
                },
                ItemModel::Text(collapse(rest)),
            ],
        ),
{
    lemma_lexed_name_prefix();
    lemma_lexed_concat(("@name ")@, rest);
    let tokens = lexed(("@name ")@ + rest);
    let pre = seq![Tok::At, Tok::Word(("name")@), Tok::Space];
    let rt = lexed(rest);
    assert(tokens == pre + rt);
    lemma_lexed_shape(rest);
    lemma_text_collapse(rest);
    let p = pad(tokens);
    let n = tokens.len() as int;
    assert(n == 3 + rt.len());
    assert(p.len() == n + 3);
    assert(p[0] == Tok::At);
    assert(p[1] == Tok::Word(("name")@));
    assert(p[2] == Tok::Space);
    assert(forall|j: int| 3 <= j < n ==> p[j] == rt[j - 3]);
    lemma_name_is_plain_tag();
    let e = Seq::<ItemModel>::empty();
    let note = ItemModel::Notation {
        meta: Seq::<Seq<char>>::empty(),
        params: Seq::<Seq<char>>::empty(),
        tag: ("name")@,
    };
    let items1 = seq![note];
    assert(e.push(note) =~= items1);
    assert(parse_from(p, 0, e, 0nat) == parse_from(p, 1, items1, 1nat));
    assert(parse_from(p, 1, items1, 1nat) == parse_from(p, 2, items1, 0nat));
    let items2 = items1.push(ItemModel::Text(Seq::<char>::empty()));
    assert(parse_from(p, 2, items1, 0nat) == parse_from(p, 3, items2, 0nat));
    assert(forall|j: int| 3 <= j < n ==> !(tokens[j] is At));
    lemma_parse_text_full(tokens, 3, items2);
    assert(tokens.subrange(3, n) =~= rt);
    assert(Seq::<char>::empty() + text_of(rt) =~= text_of(rt));
    assert(items2.update(1, ItemModel::Text(Seq::<char>::empty() + text_of(rt))) =~= seq![
        note,
        ItemModel::Text(collapse(rest)),
    ]);
}

/// The tokens of the group opener `@{`.
proof fn lemma_lexed_open_group()
    ensures
        lexed(("@{")@) == seq![Tok::At, Tok::Paren('{')],
{
    reveal_strlit("@{");
    let a = ("@{")@;
    assert(a.len() == 2);
    assert(a[0] == '@' && a[1] == '{');
    let t1 = a.take(1);
    assert(t1.drop_last() =~= Seq::<char>::empty());
    assert(a.drop_last() =~= t1);
    assert(t1.last() == '@' && a.last() == '{');
    assert(lexed(Seq::<char>::empty()) == Seq::<Tok>::empty());
    assert(lexed(t1) =~= seq![Tok::At]);
    assert(lexed(a) =~= seq![Tok::At, Tok::Paren('{')]);
}

/// The tokens of the group closer `@}`.
proof fn lemma_lexed_close_group()
    ensures
        lexed(("@}")@) == seq![Tok::At, Tok::Paren('}')],
{
    reveal_strlit("@}");
    let a = ("@}")@;
    assert(a.len() == 2);
    assert(a[0] == '@' && a[1] == '}');
    let t1 = a.take(1);
    assert(t1.drop_last() =~= Seq::<char>::empty());
    assert(a.drop_last() =~= t1);
    assert(t1.last() == '@' && a.last() == '}');
    assert(lexed(Seq::<char>::empty()) == Seq::<Tok>::empty());
    assert(lexed(t1) =~= seq![Tok::At]);
    assert(lexed(a) =~= seq![Tok::At, Tok::Paren('}')]);
}

/// Grouping is symmetric: an input of the form `@{ … @}` whose enclosed
/// text holds no sigil and opens with a word character parses to
/// `GroupStart` first and `GroupEnd` last, the enclosed content between
/// them as one whitespace-collapsed `Text` item.
#[verifier::rlimit(100)]
pub proof fn lemma_grouping_symmetric(mid: Seq<char>)
    requires
        no_sigil(mid),
        mid.len() > 0 ==> is_word_char(mid[0]),
    ensures
        mid.len() == 0 ==> parsed_text(("@{")@ + mid + ("@}")@) == Ok::<
            Seq<ItemModel>,
            ErrorModel,
        >(seq![ItemModel::GroupStart, ItemModel::GroupEnd]),
        mid.len() > 0 ==> parsed_text(("@{")@ + mid + ("@}")@) == Ok::<
            Seq<ItemModel>,
            ErrorModel,
        >(seq![ItemModel::GroupStart, ItemModel::Text(collapse(mid)), ItemModel::GroupEnd]),
{
    lemma_lexed_open_group();
    lemma_lexed_close_group();
    reveal_strlit("@}");
    lemma_lexed_shape(mid);
    lemma_text_collapse(mid);
    lemma_lexed_concat(("@{")@, mid);
    lemma_lexed_concat(("@{")@ + mid, ("@}")@);
    assert(("@}")@[0] == '@');
    let m = lexed(mid);
    let mlen = m.len() as int;
    let tokens = lexed(("@{")@ + mid + ("@}")@);
    assert(tokens == (seq![Tok::At, Tok::Paren('{')] + m) + seq![Tok::At, Tok::Paren('}')]);
    let p = pad(tokens);
    let n = tokens.len() as int;
    assert(n == mlen + 4);
    assert(p.len() == n + 3);
    assert(p[0] == Tok::At);
    assert(p[1] == Tok::Paren('{'));
    assert(forall|k: int| 0 <= k < mlen ==> p[2 + k] == m[k]);
    assert(p[2 + mlen] == Tok::At);
    assert(p[3 + mlen] == Tok::Paren('}'));
    let e = Seq::<ItemModel>::empty();
    let items1 = seq![ItemModel::GroupStart];
    assert(e.push(ItemModel::GroupStart) =~= items1);
    assert(parse_from(p, 0, e, 0nat) == parse_from(p, 1, items1, 0nat));
    assert(parse_from(p, 1, items1, 0nat) == parse_from(p, 2, items1, 0nat));
    if mid.len() == 0 {
        assert(mlen == 0);
        let items4 = items1.push(ItemModel::GroupEnd);
        assert(parse_from(p, 2, items1, 0nat) == parse_from(p, 3, items4, 0nat));
        assert(parse_from(p, 3, items4, 0nat) == parse_from(p, 4, items4, 0nat));
        assert(parse_from(p, 4, items4, 0nat) == Ok::<Seq<ItemModel>, ErrorModel>(items4));
        assert(items4 =~= seq![ItemModel::GroupStart, ItemModel::GroupEnd]);
    } else {
        assert(m[0] is Word);
        let w0 = m[0]->Word_0;
        assert(p[2] == m[0]);
        let items2 = items1.push(ItemModel::Text(w0));
        assert(parse_from(p, 2, items1, 0nat) == parse_from(p, 3, items2, 0nat));
        assert(forall|j: int| 3 <= j < 2 + mlen ==> !(p[j] is At));
        lemma_parse_text_span(p, 3, 2 + mlen, items2);
        let rest = text_of(p.subrange(3, 2 + mlen));
        assert(p.subrange(3, 2 + mlen) =~= m.subrange(1, mlen));
        let items3 = items2.update(1, ItemModel::Text(w0 + rest));
        assert(parse_from(p, 3, items2, 0nat) == parse_from(p, 2 + mlen, items3, 0nat));
        lemma_text_of_singleton(m[0]);
        lemma_text_of_concat(seq![m[0]], m.subrange(1, mlen));
        assert(seq![m[0]] + m.subrange(1, mlen) =~= m);
        assert(w0 + text_of(m.subrange(1, mlen)) == text_of(m));
        let items4 = items3.push(ItemModel::GroupEnd);
        assert(parse_from(p, 2 + mlen, items3, 0nat) == parse_from(p, 3 + mlen, items4, 0nat));
        assert(items4.len() > 0 && !(items4.last() is Text));
        assert(parse_from(p, 3 + mlen, items4, 0nat) == parse_from(p, 4 + mlen, items4, 0nat));
        assert(parse_from(p, 4 + mlen, items4, 0nat) == Ok::<Seq<ItemModel>, ErrorModel>(items4));
        assert(items4 =~= seq![
            ItemModel::GroupStart,
            ItemModel::Text(collapse(mid)),
            ItemModel::GroupEnd,
        ]);
    }
}

} // verus!
