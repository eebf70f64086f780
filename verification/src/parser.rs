//! Grammar pass: turns the token stream into the final item sequence.
//!
//! A window of four consecutive tokens slides across the stream one token
//! at a time.  The window's first element is the current token; the
//! elements at offsets 1 and 3 serve as lookahead for tag recognition and
//! argument capture.  A single `skip` counter records how many upcoming
//! `Word` tokens were already consumed by a prior tag and must not be
//! folded into literal text.  Adjacent literal content is merged into one
//! `Text` item.

use vstd::prelude::*;
use vstd::string::StrSliceExecFns;
use vstd::string::StringExecFns;
use crate::lexer::LexItem;
use crate::lexer::Tok;
use crate::lexer::lex;
use crate::lexer::lexed;
use crate::lexer::toks_view;

verus! {

/// A failure of the grammar pass.  The whole parse aborts on the first
/// structurally invalid token sequence; there is no partial output.
#[derive(Debug, Clone)]
pub enum ParseError {
    /// Reserved for stream-exhaustion conditions.  Not reachable through
    /// the documented token alphabet: the stream is padded so that the
    /// lookahead window is always fully populated.
    UnexpectedEndOfInput,
    /// The input fragment `found` appeared where one of the `expected`
    /// alternatives was required.
    UnexpectedInput { found: String, expected: Vec<String> },
}

/// One structured item of the output sequence.
#[derive(Debug, Clone, PartialEq, Eq)]
pub enum GrammarItem {
    /// A recognized annotation occurrence.  `meta` holds direction flags
    /// (`"in"`, `"out"`) only for the parameter tag; `params` holds zero
    /// or one captured argument word.
    Notation { meta: Vec<String>, params: Vec<String>, tag: String },
    /// An accumulated run of literal content.
    Text(String),
    /// Produced by `@{`.
    GroupStart,
    /// Produced by `@}`.
    GroupEnd,
}

/// Mathematical model of a `GrammarItem`.
#[verifier::ext_equal]
pub enum ItemModel {
    Notation { meta: Seq<Seq<char>>, params: Seq<Seq<char>>, tag: Seq<char> },
    Text(Seq<char>),
    GroupStart,
    GroupEnd,
}

/// Mathematical model of a `ParseError`.
#[verifier::ext_equal]
pub enum ErrorModel {
    UnexpectedEndOfInput,
    UnexpectedInput { found: Seq<char>, expected: Seq<Seq<char>> },
}

/// The model of a sequence of strings.
pub open spec fn strs_view(ss: Seq<String>) -> Seq<Seq<char>> {
    ss.map_values(|s: String| s@)
}

impl View for GrammarItem {
    type V = ItemModel;

    open spec fn view(&self) -> ItemModel {
        match self {
            GrammarItem::Notation { meta, params, tag } => ItemModel::Notation {
                meta: strs_view(meta@),
                params: strs_view(params@),
                tag: tag@,
            },
            GrammarItem::Text(t) => ItemModel::Text(t@),
            GrammarItem::GroupStart => ItemModel::GroupStart,
            GrammarItem::GroupEnd => ItemModel::GroupEnd,
        }
    }
}

impl View for ParseError {
    type V = ErrorModel;

    open spec fn view(&self) -> ErrorModel {
        match self {
            ParseError::UnexpectedEndOfInput => ErrorModel::UnexpectedEndOfInput,
            ParseError::UnexpectedInput { found, expected } => ErrorModel::UnexpectedInput {
                found: found@,
                expected: strs_view(expected@),
            },
        }
    }
}

/// The model of a sequence of items.
pub open spec fn items_view(items: Seq<GrammarItem>) -> Seq<ItemModel> {
    items.map_values(|g: GrammarItem| g@)
}

/// The model of the grammar pass's result.
pub open spec fn result_view(r: Result<Vec<GrammarItem>, ParseError>) -> Result<
    Seq<ItemModel>,
    ErrorModel,
> {
    match r {
        Ok(items) => Ok(items_view(items@)),
        Err(e) => Err(e@),
    }
}

/// `p` is a prefix of `s`.
pub open spec fn starts_with(s: Seq<char>, p: Seq<char>) -> bool {
    p.len() <= s.len() && s.subrange(0, p.len() as int) == p
}

/// The first position `>= from` holding `c`, or `s.len()` if there is none.
pub open spec fn find_from(s: Seq<char>, c: char, from: int) -> int
    decreases s.len() - from,
{
    if from < 0 || from >= s.len() {
        s.len() as int
    } else if s[from] == c {
        from
    } else {
        find_from(s, c, from + 1)
    }
}

/// The tag word carries a bracketed suffix.
pub open spec fn has_bracket(w: Seq<char>) -> bool {
    find_from(w, '[', 0) < w.len()
}

/// The fragment between the first `[` and the next `[` or the end of the
/// word: the direction suffix of a parameter tag, trailing `]` included.
pub open spec fn bracket_value(w: Seq<char>) -> Seq<char> {
    w.subrange(find_from(w, '[', 0) + 1, find_from(w, '[', find_from(w, '[', 0) + 1))
}

/// The four accepted direction suffixes of a parameter tag.
pub open spec fn is_valid_direction(v: Seq<char>) -> bool {
    v == ("in]")@ || v == ("out]")@ || v == ("in,out]")@ || v == ("out,in]")@
}

/// The direction flags denoted by an accepted suffix, `"in"` before `"out"`.
pub open spec fn direction_meta(v: Seq<char>) -> Seq<Seq<char>> {
    if v == ("in]")@ {
        seq![("in")@]
    } else if v == ("out]")@ {
        seq![("out")@]
    } else {
        seq![("in")@, ("out")@]
    }
}

/// The closed set of single-argument tag names: one following `Word`
/// token, if present, becomes the sole captured argument.
pub open spec fn is_arg_tag(w: Seq<char>) -> bool {
    ||| w == ("a")@
    ||| w == ("b")@
    ||| w == ("c")@
    ||| w == ("p")@
    ||| w == ("emoji")@
    ||| w == ("e")@
    ||| w == ("em")@
    ||| w == ("def")@
    ||| w == ("class")@
    ||| w == ("category")@
    ||| w == ("concept")@
    ||| w == ("enum")@
    ||| w == ("example")@
    ||| w == ("extends")@
    ||| w == ("file")@
    ||| w == ("sa")@
    ||| w == ("see")@
    ||| w == ("retval")@
    ||| w == ("exception")@
    ||| w == ("throw")@
    ||| w == ("throws")@
}

/// The argument captured from the lookahead token at offset 3: one word,
/// if that token is a word.
pub open spec fn captured_params(look3: Tok) -> Seq<Seq<char>> {
    match look3 {
        Tok::Word(u) => seq![u],
        _ => Seq::<Seq<char>>::empty(),
    }
}

/// The item emitted for a recognized tag word, together with how many
/// upcoming `Word` tokens it pre-consumed, or an error for a malformed
/// direction suffix.
pub open spec fn resolve_tag(w: Seq<char>, look3: Tok) -> Result<(ItemModel, nat), ErrorModel> {
    if starts_with(w, ("param")@) {
        if has_bracket(w) && !is_valid_direction(bracket_value(w)) {
            Err(
                ErrorModel::UnexpectedInput {
                    found: bracket_value(w),
                    expected: seq![("in]")@, ("out]")@],
                },
            )
        } else {
            let meta = if has_bracket(w) {
                direction_meta(bracket_value(w))
            } else {
                Seq::<Seq<char>>::empty()
            };
            let params = captured_params(look3);
            Ok(
                (
                    ItemModel::Notation { meta, params, tag: ("param")@ },
                    if params.len() == 0 {
                        1nat
                    } else {
                        2nat
                    },
                ),
            )
        }
    } else {
        let params = if is_arg_tag(w) {
            captured_params(look3)
        } else {
            Seq::<Seq<char>>::empty()
        };
        Ok(
            (
                ItemModel::Notation { meta: Seq::<Seq<char>>::empty(), params, tag: w },
                if params.len() == 0 {
                    1nat
                } else {
                    2nat
                },
            ),
        )
    }
}

/// Folds one word of literal content into the output: appended to a
/// trailing `Text` item, or starting a new one.
pub open spec fn fold_word(items: Seq<ItemModel>, w: Seq<char>) -> Seq<ItemModel> {
    if items.len() > 0 && items.last() is Text {
        items.update(items.len() - 1, ItemModel::Text(items.last()->Text_0 + w))
    } else {
        items.push(ItemModel::Text(w))
    }
}

/// Folds one collapsed whitespace run into the output: a single space
/// appended to a trailing `Text` item.  After a non-text item an empty
/// `Text` item is started instead, so that text following a tag or a
/// group delimiter is captured; at the very start of the output the run
/// itself starts the text.
pub open spec fn fold_space(items: Seq<ItemModel>) -> Seq<ItemModel> {
    if items.len() > 0 && items.last() is Text {
        items.update(items.len() - 1, ItemModel::Text(items.last()->Text_0 + (" ")@))
    } else if items.len() > 0 {
        items.push(ItemModel::Text(Seq::<char>::empty()))
    } else {
        items.push(ItemModel::Text((" ")@))
    }
}

/// Folds a line break into the output: appended only to a trailing
/// `Text` item, dropped otherwise.
pub open spec fn fold_break(items: Seq<ItemModel>) -> Seq<ItemModel> {
    if items.len() > 0 && items.last() is Text {
        items.update(items.len() - 1, ItemModel::Text(items.last()->Text_0 + ("\n")@))
    } else {
        items
    }
}

/// Folds a literal brace character into the output: appended only to a
/// trailing `Text` item, dropped otherwise.
pub open spec fn fold_brace(items: Seq<ItemModel>, c: char) -> Seq<ItemModel> {
    if items.len() > 0 && items.last() is Text {
        items.update(items.len() - 1, ItemModel::Text(items.last()->Text_0.push(c)))
    } else {
        items
    }
}

/// One step of the grammar pass: the effect of the current token `cur`,
/// with lookahead `look1` and `look3`, on the output built so far and on
/// the skip counter.
pub open spec fn step(
    items: Seq<ItemModel>,
    skip: nat,
    cur: Tok,
    look1: Tok,
    look3: Tok,
) -> Result<(Seq<ItemModel>, nat), ErrorModel> {
    match cur {
        Tok::At => match look1 {
            Tok::Paren(c) => if c == '{' {
                Ok((items.push(ItemModel::GroupStart), skip))
            } else if c == '}' {
                Ok((items.push(ItemModel::GroupEnd), skip))
            } else {
                Err(
                    ErrorModel::UnexpectedInput {
                        found: seq![c],
                        expected: seq![("{")@, ("}")@],
                    },
                )
            },
            Tok::Word(w) => match resolve_tag(w, look3) {
                Ok((item, skip2)) => Ok((items.push(item), skip2)),
                Err(e) => Err(e),
            },
            _ => Ok((items, skip)),
        },
        Tok::Word(w) => if skip > 0 {
            Ok((items, (skip - 1) as nat))
        } else {
            Ok((fold_word(items, w), skip))
        },
        Tok::Space => Ok((fold_space(items), skip)),
        Tok::NewLine => Ok((fold_break(items), skip)),
        Tok::Paren(c) => Ok((fold_brace(items, c), skip)),
    }
}

/// The grammar pass from window position `i` onward, given the items
/// already emitted and the current skip counter.  The window holds four
/// tokens, so the positions visited are those with at least four tokens
/// remaining; the trailing tokens (the padding appended by `parse`) are
/// lookahead only, never current.
pub open spec fn parse_from(
    toks: Seq<Tok>,
    i: int,
    items: Seq<ItemModel>,
    skip: nat,
) -> Result<Seq<ItemModel>, ErrorModel>
    decreases toks.len() - i,
{
    if i < 0 || i + 4 > toks.len() {
        Ok(items)
    } else {
        match step(items, skip, toks[i], toks[i + 1], toks[i + 3]) {
            Ok((items2, skip2)) => parse_from(toks, i + 1, items2, skip2),
            Err(e) => Err(e),
        }
    }
}

/// The grammar pass over a whole (already padded) token stream.
pub open spec fn parsed(toks: Seq<Tok>) -> Result<Seq<ItemModel>, ErrorModel> {
    parse_from(toks, 0, Seq::<ItemModel>::empty(), 0nat)
}

/// Three synthetic `Space` tokens keep the lookahead window fully
/// populated up to the last real token.
pub open spec fn pad(toks: Seq<Tok>) -> Seq<Tok> {
    toks + seq![Tok::Space, Tok::Space, Tok::Space]
}

/// What parsing a whole input text yields: tokenize, pad, run the pass.
pub open spec fn parsed_text(s: Seq<char>) -> Result<Seq<ItemModel>, ErrorModel> {
    parsed(pad(lexed(s)))
}

proof fn lemma_find_from_bounds(s: Seq<char>, c: char, from: int)
    requires
        0 <= from <= s.len(),
    ensures
        from <= find_from(s, c, from) <= s.len(),
    decreases s.len() - from,
{
    if from < s.len() && s[from] != c {
        lemma_find_from_bounds(s, c, from + 1);
    }
}

/// Character-for-character string equality.
fn str_eq(a: &str, b: &str) -> (r: bool)
    ensures
        r == (a@ == b@),
{
    let na = a.unicode_len();
    let nb = b.unicode_len();
    if na != nb {
        return false;
    }
    let mut i: usize = 0;
    while i < na
        invariant
            na == a@.len(),
            nb == b@.len(),
            na == nb,
            i <= na,
            forall|j: int| 0 <= j < i ==> a@[j] == b@[j],
        decreases na - i,
    {
        let ca = a.get_char(i);
        let cb = b.get_char(i);
        if ca != cb {
            return false;
        }
        i = i + 1;
    }
    proof {
        assert(a@ =~= b@);
    }
    true
}

/// Whether `p` is a prefix of `s`.
fn starts_with_str(s: &str, p: &str) -> (r: bool)
    ensures
        r == starts_with(s@, p@),
{
    let ns = s.unicode_len();
    let np = p.unicode_len();
    if np > ns {
        return false;
    }
    let mut i: usize = 0;
    while i < np
        invariant
            ns == s@.len(),
            np == p@.len(),
            np <= ns,
            i <= np,
            forall|j: int| 0 <= j < i ==> s@[j] == p@[j],
        decreases np - i,
    {
        let cs = s.get_char(i);
        let cp = p.get_char(i);
        if cs != cp {
            proof {
                assert(s@.subrange(0, np as int)[i as int] == s@[i as int]);
            }
            return false;
        }
        i = i + 1;
    }
    proof {
        assert(s@.subrange(0, np as int) =~= p@);
    }
    true
}

/// The first position `>= from` holding `c`, or the length if none does.
fn find_char_at(s: &str, c: char, from: usize) -> (r: usize)
    requires
        from <= s@.len(),
    ensures
        r == find_from(s@, c, from as int),
{
    let n = s.unicode_len();
    let mut i: usize = from;
    while i < n
        invariant
            from <= i <= n,
            n == s@.len(),
            find_from(s@, c, from as int) == find_from(s@, c, i as int),
        decreases n - i,
    {
        if s.get_char(i) == c {
            return i;
        }
        i = i + 1;
    }
    n
}

/// Membership in the closed set of single-argument tag names.
fn is_arg_tag_word(w: &str) -> (r: bool)
    ensures
        r == is_arg_tag(w@),
{
    str_eq(w, "a") || str_eq(w, "b") || str_eq(w, "c") || str_eq(w, "p") || str_eq(w, "emoji")
        || str_eq(w, "e") || str_eq(w, "em") || str_eq(w, "def") || str_eq(w, "class") || str_eq(
        w,
        "category",
    ) || str_eq(w, "concept") || str_eq(w, "enum") || str_eq(w, "example") || str_eq(w, "extends")
        || str_eq(w, "file") || str_eq(w, "sa") || str_eq(w, "see") || str_eq(w, "retval")
        || str_eq(w, "exception") || str_eq(w, "throw") || str_eq(w, "throws")
}

/// Relies on char::to_string from std: the returned string holds exactly
/// this one character.
#[verifier::external_body]
fn char_to_string(c: char) -> (r: String)
    ensures
        r@ == seq![c],
{
    c.to_string()
}

/// Appends literal characters to the trailing `Text` item.
fn append_to_last_text(items: &mut Vec<GrammarItem>, s: &str)
    requires
        old(items)@.len() > 0,
        old(items)@.last() matches GrammarItem::Text(_),
    ensures
        items_view(final(items)@) == items_view(old(items)@).update(
            old(items)@.len() - 1,
            ItemModel::Text(items_view(old(items)@).last()->Text_0 + s@),
        ),
{
    let popped = items.pop();
    match popped {
        Some(GrammarItem::Text(mut t)) => {
            t.append(s);
            items.push(GrammarItem::Text(t));
            proof {
                assert(items_view(items@) =~= items_view(old(items)@).update(
                    old(items)@.len() - 1,
                    ItemModel::Text(items_view(old(items)@).last()->Text_0 + s@),
                ));
            }
        },
        _ => {
            proof {
                assert(false);
            }
        },
    }
}

/// Whether the last item emitted so far is a `Text` item.
fn last_is_text(items: &Vec<GrammarItem>) -> (r: bool)
    ensures
        r == (items@.len() > 0 && items@.last() matches GrammarItem::Text(_)),
{
    let n = items.len();
    if n == 0 {
        return false;
    }
    match &items[n - 1] {
        GrammarItem::Text(_) => true,
        _ => false,
    }
}

/// Folds one word of literal content into the output.
fn fold_word_into(items: &mut Vec<GrammarItem>, w: &String)
    ensures
        items_view(final(items)@) == fold_word(items_view(old(items)@), w@),
{
    proof {
        assert(items_view(items@).len() == items@.len());
        if items@.len() > 0 {
            assert(items_view(items@).last() == items@.last()@);
        }
    }
    if last_is_text(items) {
        append_to_last_text(items, w.as_str());
    } else {
        items.push(GrammarItem::Text(w.clone()));
        proof {
            assert(items_view(items@) =~= items_view(old(items)@).push(ItemModel::Text(w@)));
        }
    }
}

/// Folds one collapsed whitespace run into the output.
fn fold_space_into(items: &mut Vec<GrammarItem>)
    ensures
        items_view(final(items)@) == fold_space(items_view(old(items)@)),
{
    proof {
        assert(items_view(items@).len() == items@.len());
        if items@.len() > 0 {
            assert(items_view(items@).last() == items@.last()@);
        }
    }
    if last_is_text(items) {
        append_to_last_text(items, " ");
    } else if items.len() > 0 {
        items.push(GrammarItem::Text(String::new()));
        proof {
            assert(items_view(items@) =~= items_view(old(items)@).push(
                ItemModel::Text(Seq::<char>::empty()),
            ));
        }
    } else {
        items.push(GrammarItem::Text(" ".to_owned()));
        proof {
            assert(items_view(items@) =~= items_view(old(items)@).push(ItemModel::Text((" ")@)));
        }
    }
}

/// The argument captured from the lookahead token at offset 3.
fn capture_params(look3: &LexItem) -> (r: Vec<String>)
    ensures
        strs_view(r@) == captured_params(look3@),
{
    match look3 {
        LexItem::Word(u) => {
            let mut v: Vec<String> = Vec::new();
            v.push(u.clone());
            proof {
                assert(strs_view(v@) =~= seq![u@]);
            }
            v
        },
        _ => {
            let v: Vec<String> = Vec::new();
            proof {
                assert(strs_view(v@) =~= Seq::<Seq<char>>::empty());
            }
            v
        },
    }
}

/// Resolves a tag word into its `Notation` item and the number of
/// upcoming `Word` tokens it pre-consumed, or rejects a malformed
/// direction suffix.
fn resolve_tag_word(w: &String, look3: &LexItem) -> (r: Result<(GrammarItem, usize), ParseError>)
    ensures
        (match r {
            Ok(p) => resolve_tag(w@, look3@) == Ok::<(ItemModel, nat), ErrorModel>(
                (p.0@, p.1 as nat),
            ),
            Err(e) => resolve_tag(w@, look3@) == Err::<(ItemModel, nat), ErrorModel>(e@),
        }),
{
    if starts_with_str(w.as_str(), "param") {
        let wn = w.as_str().unicode_len();
        let open_idx = find_char_at(w.as_str(), '[', 0);
        proof {
            lemma_find_from_bounds(w@, '[', 0);
        }
        let mut meta: Vec<String> = Vec::new();
        if open_idx < wn {
            let a = open_idx + 1;
            proof {
                lemma_find_from_bounds(w@, '[', a as int);
            }
            let b = find_char_at(w.as_str(), '[', a);
            let value = w.as_str().substring_char(a, b);
            proof {
                assert(value@ == bracket_value(w@));
            }
            if str_eq(value, "in]") {
                meta.push("in".to_owned());
                proof {
                    assert(strs_view(meta@) =~= seq![("in")@]);
                }
            } else if str_eq(value, "out]") {
                meta.push("out".to_owned());
                proof {
                    assert(strs_view(meta@) =~= seq![("out")@]);
                }
            } else if str_eq(value, "in,out]") || str_eq(value, "out,in]") {
                meta.push("in".to_owned());
                meta.push("out".to_owned());
                proof {
                    assert(strs_view(meta@) =~= seq![("in")@, ("out")@]);
                }
            } else {
                let mut expected: Vec<String> = Vec::new();
                expected.push("in]".to_owned());
                expected.push("out]".to_owned());
                proof {
                    assert(strs_view(expected@) =~= seq![("in]")@, ("out]")@]);
                }
                return Err(ParseError::UnexpectedInput { found: value.to_owned(), expected });
            }
        } else {
            proof {
                assert(strs_view(meta@) =~= Seq::<Seq<char>>::empty());
            }
        }
        let params = capture_params(look3);
        let skip: usize = if params.len() == 0 {
            1
        } else {
            2
        };
        Ok((GrammarItem::Notation { meta, params, tag: "param".to_owned() }, skip))
    } else {
        let params = if is_arg_tag_word(w.as_str()) {
            capture_params(look3)
        } else {
            let v: Vec<String> = Vec::new();
            proof {
                assert(strs_view(v@) =~= Seq::<Seq<char>>::empty());
            }
            v
        };
        let skip: usize = if params.len() == 0 {
            1
        } else {
            2
        };
        let meta: Vec<String> = Vec::new();
        proof {
            assert(strs_view(meta@) =~= Seq::<Seq<char>>::empty());
        }
        Ok((GrammarItem::Notation { meta, params, tag: w.clone() }, skip))
    }
}

/// The grammar pass over an already padded token stream: slides a window
/// of four tokens across it, one token at a time, and emits the item
/// sequence, or the first error.
pub fn parse_items(input: Vec<LexItem>) -> (r: Result<Vec<GrammarItem>, ParseError>)
    ensures
        result_view(r) == parsed(toks_view(input@)),
{
    let n = input.len();
    let mut items: Vec<GrammarItem> = Vec::new();
    let mut skip: usize = 0;
    let mut i: usize = 0;
    proof {
        assert(items_view(items@) =~= Seq::<ItemModel>::empty());
    }
    while n - i >= 4
        invariant
            i <= n,
            n == input@.len(),
            parse_from(toks_view(input@), 0, Seq::<ItemModel>::empty(), 0nat) == parse_from(
                toks_view(input@),
                i as int,
                items_view(items@),
                skip as nat,
            ),
        decreases n - i,
    {
        let ghost tv = toks_view(input@);
        let ghost cur_items = items_view(items@);
        let ghost cur_skip = skip as nat;
        proof {
            assert(tv[i as int] == input@[i as int]@);
            assert(tv[i as int + 1] == input@[i as int + 1]@);
            assert(tv[i as int + 3] == input@[i as int + 3]@);
        }
        match &input[i] {
            LexItem::At => {
                match &input[i + 1] {
                    LexItem::Paren(v) => {
                        if *v == '{' {
                            items.push(GrammarItem::GroupStart);
                            proof {
                                assert(items_view(items@) =~= cur_items.push(
                                    ItemModel::GroupStart,
                                ));
                            }
                        } else if *v == '}' {
                            items.push(GrammarItem::GroupEnd);
                            proof {
                                assert(items_view(items@) =~= cur_items.push(ItemModel::GroupEnd));
                            }
                        } else {
                            let mut expected: Vec<String> = Vec::new();
                            expected.push("{".to_owned());
                            expected.push("}".to_owned());
                            let found = char_to_string(*v);
                            proof {
                                assert(strs_view(expected@) =~= seq![("{")@, ("}")@]);
                            }
                            let e = ParseError::UnexpectedInput { found, expected };
                            proof {
                                assert(step(
                                    cur_items,
                                    cur_skip,
                                    tv[i as int],
                                    tv[i as int + 1],
                                    tv[i as int + 3],
                                ) == Err::<(Seq<ItemModel>, nat), ErrorModel>(e@));
                            }
                            return Err(e);
                        }
                    },
                    LexItem::Word(v) => {
                        match resolve_tag_word(v, &input[i + 3]) {
                            Ok(p) => {
                                let (item, sk) = p;
                                proof {
                                    assert(items_view(items@.push(item)) =~= cur_items.push(
                                        item@,
                                    ));
                                }
                                items.push(item);
                                skip = sk;
                            },
                            Err(e) => {
                                proof {
                                    assert(step(
                                        cur_items,
                                        cur_skip,
                                        tv[i as int],
                                        tv[i as int + 1],
                                        tv[i as int + 3],
                                    ) == Err::<(Seq<ItemModel>, nat), ErrorModel>(e@));
                                }
                                return Err(e);
                            },
                        }
                    },
                    _ => {},
                }
            },
            LexItem::Word(v) => {
                if skip > 0 {
                    skip = skip - 1;
                } else {
                    fold_word_into(&mut items, v);
                }
            },
            LexItem::Space => {
                fold_space_into(&mut items);
            },
            LexItem::NewLine => {
                if last_is_text(&items) {
                    append_to_last_text(&mut items, "\n");
                }
                proof {
                    assert(items_view(items@) == fold_break(cur_items));
                }
            },
            LexItem::Paren(v) => {
                if last_is_text(&items) {
                    let s = char_to_string(*v);
                    append_to_last_text(&mut items, s.as_str());
                    proof {
                        assert(cur_items.last()->Text_0 + seq![*v] =~= cur_items.last()->Text_0.push(
                            *v,
                        ));
                    }
                }
                proof {
                    assert(items_view(items@) == fold_brace(cur_items, *v));
                }
            },
        }
        proof {
            assert(step(cur_items, cur_skip, tv[i as int], tv[i as int + 1], tv[i as int + 3])
                == Ok::<(Seq<ItemModel>, nat), ErrorModel>((items_view(items@), skip as nat)));
        }
        i = i + 1;
    }
    proof {
        assert(parse_from(toks_view(input@), i as int, items_view(items@), skip as nat) == Ok::<
            Seq<ItemModel>,
            ErrorModel,
        >(items_view(items@)));
    }
    Ok(items)
}

/// Parses a whole annotation text: tokenizes it, pads the token stream
/// with three synthetic `Space` tokens so that the lookahead window is
/// always fully populated, and runs the grammar pass.
pub fn parse(input: String) -> (r: Result<Vec<GrammarItem>, ParseError>)
    ensures
        result_view(r) == parsed_text(input@),
{
    let mut toks = lex(input.as_str());
    toks.push(LexItem::Space);
    toks.push(LexItem::Space);
    toks.push(LexItem::Space);
    proof {
        assert(toks_view(toks@) =~= pad(lexed(input@)));
    }
    parse_items(toks)
}

} // verus!
