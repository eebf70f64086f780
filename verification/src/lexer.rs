//! Tokenizer: scans the raw character stream into a finite token alphabet.
//!
//! Every input character is accounted for by exactly one token.  Runs of
//! horizontal whitespace (spaces and tabs) collapse into a single `Space`
//! token; each line break is its own `NewLine` token; the sigil `@` and the
//! two brace delimiters each lex as their own token; everything else is
//! gathered greedily into maximal `Word` runs.

use vstd::prelude::*;
use vstd::string::StrSliceExecFns;

verus! {

/// One lexical token.
#[derive(Debug, Clone, PartialEq, Eq)]
pub enum LexItem {
    /// The annotation sigil `@`.
    At,
    /// A maximal run of characters that are not the sigil, not a brace,
    /// not horizontal whitespace and not a line break.
    Word(String),
    /// One or more consecutive spaces or tabs, collapsed.
    Space,
    /// A single line break.
    NewLine,
    /// One brace character, `{` or `}`.
    Paren(char),
}

/// Mathematical model of a token: `Word` content as a sequence of characters.
#[verifier::ext_equal]
pub enum Tok {
    At,
    Word(Seq<char>),
    Space,
    NewLine,
    Paren(char),
}

impl View for LexItem {
    type V = Tok;

    open spec fn view(&self) -> Tok {
        match self {
            LexItem::At => Tok::At,
            LexItem::Word(s) => Tok::Word(s@),
            LexItem::Space => Tok::Space,
            LexItem::NewLine => Tok::NewLine,
            LexItem::Paren(c) => Tok::Paren(*c),
        }
    }
}

/// The model of a whole token stream.
pub open spec fn toks_view(ts: Seq<LexItem>) -> Seq<Tok> {
    ts.map_values(|t: LexItem| t@)
}

/// Horizontal whitespace: collapsed into a single `Space` token per run.
pub open spec fn is_hspace(c: char) -> bool {
    c == ' ' || c == '\t'
}

/// A character that extends a `Word` run.
pub open spec fn is_word_char(c: char) -> bool {
    c != '@' && c != '{' && c != '}' && c != '\n' && !is_hspace(c)
}

/// Extends an already-lexed token sequence by one more input character:
/// word characters extend a trailing `Word` token, horizontal whitespace
/// is absorbed into a trailing `Space` token, and every other character
/// appends its own token.
pub open spec fn lex_step(acc: Seq<Tok>, c: char) -> Seq<Tok> {
    if c == '@' {
        acc.push(Tok::At)
    } else if c == '{' || c == '}' {
        acc.push(Tok::Paren(c))
    } else if c == '\n' {
        acc.push(Tok::NewLine)
    } else if is_hspace(c) {
        if acc.len() > 0 && acc.last() is Space {
            acc
        } else {
            acc.push(Tok::Space)
        }
    } else {
        if acc.len() > 0 && acc.last() is Word {
            acc.update(acc.len() - 1, Tok::Word(acc.last()->Word_0.push(c)))
        } else {
            acc.push(Tok::Word(seq![c]))
        }
    }
}

/// The token stream of an input text, built character by character.
pub open spec fn lexed(s: Seq<char>) -> Seq<Tok>
    decreases s.len(),
{
    if s.len() == 0 {
        Seq::<Tok>::empty()
    } else {
        lex_step(lexed(s.drop_last()), s.last())
    }
}

/// Tokenizes the input text.  Total: never fails, and every character is
/// represented by exactly one token of the result.
pub fn lex(input: &str) -> (toks: Vec<LexItem>)
    ensures
        toks_view(toks@) == lexed(input@),
{
    let n = input.unicode_len();
    let mut toks: Vec<LexItem> = Vec::new();
    let mut word_start: usize = 0;
    let mut i: usize = 0;
    proof {
        assert(input@.take(0) =~= Seq::<char>::empty());
        assert(toks_view(toks@) =~= Seq::<Tok>::empty());
    }
    while i < n
        invariant
            n == input@.len(),
            i <= n,
            toks_view(toks@) == lexed(input@.take(i as int)),
            (toks@.len() > 0 && toks@.last() matches LexItem::Word(_)) ==> (
                word_start < i && (toks@.last()@ matches Tok::Word(w)
                    ==> w == input@.subrange(word_start as int, i as int))
            ),
        decreases n - i,
    {
        let c = input.get_char(i);
        proof {
            assert(input@.take(i as int + 1).drop_last() =~= input@.take(i as int));
            assert(input@.take(i as int + 1).last() == input@[i as int]);
        }
        let ghost prev = toks_view(toks@);
        if c == '@' {
            toks.push(LexItem::At);
            proof {
                assert(toks_view(toks@) =~= prev.push(Tok::At));
            }
        } else if c == '{' || c == '}' {
            toks.push(LexItem::Paren(c));
            proof {
                assert(toks_view(toks@) =~= prev.push(Tok::Paren(c)));
            }
        } else if c == '\n' {
            toks.push(LexItem::NewLine);
            proof {
                assert(toks_view(toks@) =~= prev.push(Tok::NewLine));
            }
        } else if c == ' ' || c == '\t' {
            let mut last_is_space = false;
            if toks.len() > 0 {
                let li = toks.len() - 1;
                match &toks[li] {
                    LexItem::Space => {
                        last_is_space = true;
                    },
                    _ => {},
                }
            }
            if last_is_space {
                proof {
                    assert(prev.len() > 0 && prev.last() is Space);
                }
            } else {
                toks.push(LexItem::Space);
                proof {
                    assert(toks_view(toks@) =~= prev.push(Tok::Space));
                }
            }
        } else {
            let mut last_is_word = false;
            if toks.len() > 0 {
                let li = toks.len() - 1;
                match &toks[li] {
                    LexItem::Word(_) => {
                        last_is_word = true;
                    },
                    _ => {},
                }
            }
            if last_is_word {
                let w = input.substring_char(word_start, i + 1).to_owned();
                proof {
                    assert(prev.len() > 0 && prev.last() is Word);
                    assert(prev.last()->Word_0 == input@.subrange(
                        word_start as int,
                        i as int,
                    ));
                    assert(input@.subrange(word_start as int, i as int + 1) =~= input@.subrange(
                        word_start as int,
                        i as int,
                    ).push(input@[i as int]));
                }
                toks.pop();
                toks.push(LexItem::Word(w));
                proof {
                    assert(toks_view(toks@) =~= prev.update(
                        prev.len() - 1,
                        Tok::Word(prev.last()->Word_0.push(c)),
                    ));
                }
            } else {
                word_start = i;
                let w = input.substring_char(i, i + 1).to_owned();
                proof {
                    assert(input@.subrange(i as int, i as int + 1) =~= seq![input@[i as int]]);
                    assert(toks_view(toks@).len() == 0 || !(toks_view(toks@).last() is Word));
                }
                toks.push(LexItem::Word(w));
                proof {
                    assert(toks_view(toks@) =~= prev.push(Tok::Word(seq![c])));
                }
            }
        }
        i = i + 1;
    }
    proof {
        assert(input@.take(n as int) =~= input@);
    }
    toks
}

} // verus!
