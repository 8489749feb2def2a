//! Splitting text into normalized tokens.
//!
//! Tokenization runs in two stages. Classification consults the Unicode
//! character tables of the standard library and turns text into a sequence of
//! [`Symbol`]s. Assembly is pure bookkeeping on symbols: it cuts the sequence
//! at separators, strips what is not alphanumeric from both ends of each
//! piece, and drops the pieces that end up empty.

use vstd::prelude::*;

verus! {

/// Whether `c` has the Unicode `White_Space` property, as `char::is_whitespace` reports it.
pub uninterp spec fn whitespace(c: char) -> bool;

/// Whether `c` is alphabetic or numeric in Unicode, as `char::is_alphanumeric` reports it.
pub uninterp spec fn alphanumeric(c: char) -> bool;

/// The lowercase mapping of `c` in Unicode, as `char::to_lowercase` yields it.
pub uninterp spec fn lowercase(c: char) -> Seq<char>;

/// Calls `char::is_whitespace`. Trusted: the result is the table lookup that
/// [`whitespace`] names, a function of the character alone.
#[verifier::external_body]
fn is_whitespace(c: char) -> (b: bool)
    ensures
        b == whitespace(c),
{
    c.is_whitespace()
}

/// Calls `char::is_alphanumeric`. Trusted: the result is the table lookup that
/// [`alphanumeric`] names, a function of the character alone.
#[verifier::external_body]
fn is_alphanumeric(c: char) -> (b: bool)
    ensures
        b == alphanumeric(c),
{
    c.is_alphanumeric()
}

/// Calls `char::to_lowercase` and collects what it yields. Trusted: the
/// characters are the mapping that [`lowercase`] names, a function of the
/// character alone.
#[verifier::external_body]
fn to_lowercase(c: char) -> (lower: Vec<char>)
    ensures
        lower@ == lowercase(c),
{
    c.to_lowercase().collect()
}

/// One classified unit of input text.
#[derive(Clone, Copy, Debug, PartialEq, Eq)]
pub enum Symbol {
    /// A whitespace character of the input; tokens never span one.
    Separator,
    /// A lowercased character that is alphabetic or numeric.
    Alphanumeric(char),
    /// Any other lowercased character.
    Other(char),
}

/// The symbol for an already lowercased character.
pub open spec fn symbol_of(c: char) -> Symbol {
    if alphanumeric(c) {
        Symbol::Alphanumeric(c)
    } else {
        Symbol::Other(c)
    }
}

/// The symbols that one character of input contributes.
pub open spec fn char_symbols(c: char) -> Seq<Symbol> {
    if whitespace(c) {
        seq![Symbol::Separator]
    } else {
        lowercase(c).map_values(|l: char| symbol_of(l))
    }
}

/// The symbols of a whole text: those of its characters, in order.
pub open spec fn text_symbols(text: Seq<char>) -> Seq<Symbol>
    decreases text.len(),
{
    if text.len() == 0 {
        Seq::empty()
    } else {
        text_symbols(text.drop_last()) + char_symbols(text.last())
    }
}

/// Extending a text by one character extends its symbols by that character's.
proof fn lemma_text_symbols_step(text: Seq<char>, n: int)
    requires
        0 <= n < text.len(),
    ensures
        text_symbols(text.take(n + 1)) == text_symbols(text.take(n)) + char_symbols(text[n]),
{
    assert(text.take(n + 1).drop_last() =~= text.take(n));
}

/// Classifies every character of `text`.
pub fn classify(text: &str) -> (symbols: Vec<Symbol>)
    ensures
        symbols@ == text_symbols(text@),
{
    broadcast use vstd::string::group_string_axioms;

    let mut symbols: Vec<Symbol> = Vec::new();
    for c in it: text.chars()
        invariant
            it.seq() == text@,
            symbols@ == text_symbols(text@.take(it.index() as int)),
    {
        let ghost n = it.index() as int;
        proof {
            lemma_text_symbols_step(text@, n);
        }
        if is_whitespace(c) {
            symbols.push(Symbol::Separator);
        } else {
            let lower = to_lowercase(c);
            let ghost before = symbols@;
            let mut j: usize = 0;
            while j < lower.len()
                invariant
                    j <= lower.len(),
                    lower@ == lowercase(c),
                    symbols@ == before + lower@.take(j as int).map_values(|l: char| symbol_of(l)),
                decreases lower.len() - j,
            {
                let l = lower[j];
                if is_alphanumeric(l) {
                    symbols.push(Symbol::Alphanumeric(l));
                } else {
                    symbols.push(Symbol::Other(l));
                }
                assert(lower@.take(j + 1).map_values(|l: char| symbol_of(l)) =~= lower@.take(
                    j as int,
                ).map_values(|l: char| symbol_of(l)).push(symbol_of(l)));
                j += 1;
            }
            assert(lower@.take(j as int) =~= lower@);
        }
    }
    assert(text@.take(text@.len() as int) =~= text@);
    symbols
}

/// Appends one character to a string. Trusted: `String::push` puts `ch` at
/// the end and leaves the characters before it as they were.
pub assume_specification[ String::push ](s: &mut String, ch: char)
    ensures
        final(s)@ == old(s)@.push(ch),
;

/// The character a symbol carries; a separator stands for a plain space.
pub open spec fn symbol_char(s: Symbol) -> char {
    match s {
        Symbol::Separator => ' ',
        Symbol::Alphanumeric(c) => c,
        Symbol::Other(c) => c,
    }
}

/// How many symbols at the front of `word` are not alphanumeric.
pub open spec fn leading(word: Seq<Symbol>) -> nat
    decreases word.len(),
{
    if word.len() == 0 || word.first() is Alphanumeric {
        0
    } else {
        1 + leading(word.drop_first())
    }
}

/// How many symbols at the back of `word` are not alphanumeric.
pub open spec fn trailing(word: Seq<Symbol>) -> nat
    decreases word.len(),
{
    if word.len() == 0 || word.last() is Alphanumeric {
        0
    } else {
        1 + trailing(word.drop_last())
    }
}

/// The characters of `word` from its first alphanumeric symbol to its last;
/// empty when it has none.
pub open spec fn trimmed(word: Seq<Symbol>) -> Seq<char> {
    if leading(word) >= word.len() {
        Seq::empty()
    } else {
        let lo = leading(word) as int;
        let hi = word.len() - trailing(word);
        Seq::new((hi - lo) as nat, |i: int| symbol_char(word[lo + i]))
    }
}

/// `leading` is the index of the first alphanumeric symbol, or the length.
proof fn lemma_leading(word: Seq<Symbol>, lo: int)
    requires
        0 <= lo <= word.len(),
        forall|k: int| 0 <= k < lo ==> !(word[k] is Alphanumeric),
        lo == word.len() || word[lo] is Alphanumeric,
    ensures
        leading(word) == lo,
    decreases lo,
{
    if lo > 0 {
        let rest = word.drop_first();
        assert forall|k: int| 0 <= k < lo - 1 implies !(rest[k] is Alphanumeric) by {
            assert(rest[k] == word[k + 1]);
        }
        lemma_leading(rest, lo - 1);
    }
}

/// `trailing` counts back from the end to the last alphanumeric symbol.
proof fn lemma_trailing(word: Seq<Symbol>, hi: int)
    requires
        0 <= hi <= word.len(),
        forall|k: int| hi <= k < word.len() ==> !(word[k] is Alphanumeric),
        hi == 0 || word[hi - 1] is Alphanumeric,
    ensures
        trailing(word) == word.len() - hi,
    decreases word.len() - hi,
{
    if hi < word.len() {
        lemma_trailing(word.drop_last(), hi);
    }
}

fn is_alphanumeric_symbol(s: Symbol) -> (b: bool)
    ensures
        b == (s is Alphanumeric),
{
    match s {
        Symbol::Alphanumeric(_) => true,
        _ => false,
    }
}

fn char_of(s: Symbol) -> (c: char)
    ensures
        c == symbol_char(s),
{
    match s {
        Symbol::Separator => ' ',
        Symbol::Alphanumeric(c) => c,
        Symbol::Other(c) => c,
    }
}

/// Strips the symbols that are not alphanumeric from both ends of `word` and
/// returns the characters that remain.
pub fn trim(word: &Vec<Symbol>) -> (token: String)
    ensures
        token@ == trimmed(word@),
{
    let n = word.len();
    let mut lo: usize = 0;
    while lo < n && !is_alphanumeric_symbol(word[lo])
        invariant
            n == word.len(),
            lo <= n,
            forall|k: int| 0 <= k < lo ==> !(word[k] is Alphanumeric),
        decreases n - lo,
    {
        lo += 1;
    }
    proof {
        lemma_leading(word@, lo as int);
    }
    let mut token = String::new();
    if lo == n {
        return token;
    }
    let mut hi: usize = n;
    while hi > lo && !is_alphanumeric_symbol(word[hi - 1])
        invariant
            n == word.len(),
            lo < hi <= n,
            word[lo as int] is Alphanumeric,
            forall|k: int| hi <= k < n ==> !(word[k] is Alphanumeric),
        decreases hi,
    {
        hi -= 1;
    }
    proof {
        lemma_trailing(word@, hi as int);
    }
    let mut i: usize = lo;
    while i < hi
        invariant
            lo <= i <= hi <= word.len(),
            token@ == Seq::new((i - lo) as nat, |k: int| symbol_char(word@[lo + k])),
        decreases hi - i,
    {
        token.push(char_of(word[i]));
        assert(token@ =~= Seq::new((i + 1 - lo) as nat, |k: int| symbol_char(word@[lo + k])));
        i += 1;
    }
    assert(token@ =~= trimmed(word@));
    token
}

/// The pieces between separators, in order. A sequence with `n` separators
/// has `n + 1` pieces, some of which may be empty.
pub open spec fn pieces(symbols: Seq<Symbol>) -> Seq<Seq<Symbol>>
    decreases symbols.len(),
{
    if symbols.len() == 0 {
        seq![Seq::empty()]
    } else {
        let before = pieces(symbols.drop_last());
        if symbols.last() is Separator {
            before.push(Seq::empty())
        } else {
            before.drop_last().push(before.last().push(symbols.last()))
        }
    }
}

/// The trimmed pieces that are not empty, in order.
pub open spec fn kept(pieces: Seq<Seq<Symbol>>) -> Seq<Seq<char>>
    decreases pieces.len(),
{
    if pieces.len() == 0 {
        Seq::empty()
    } else {
        let before = kept(pieces.drop_last());
        let token = trimmed(pieces.last());
        if token.len() > 0 {
            before.push(token)
        } else {
            before
        }
    }
}

/// The tokens that a sequence of symbols spells.
pub open spec fn symbol_tokens(symbols: Seq<Symbol>) -> Seq<Seq<char>> {
    kept(pieces(symbols))
}

/// The tokens of a text: the whitespace-separated words, lowercased, stripped
/// at both ends of what is not alphanumeric, without the empty ones.
pub open spec fn tokens_of(text: Seq<char>) -> Seq<Seq<char>> {
    symbol_tokens(text_symbols(text))
}

/// Appends the trimmed `word` to `tokens` unless nothing is left of it.
fn keep(tokens: &mut Vec<String>, word: &Vec<Symbol>)
    ensures
        final(tokens).deep_view() == if trimmed(word@).len() > 0 {
            old(tokens).deep_view().push(trimmed(word@))
        } else {
            old(tokens).deep_view()
        },
{
    let ghost before = tokens.deep_view();
    let token = trim(word);
    if !token.as_str().is_empty() {
        tokens.push(token);
        assert(tokens.deep_view() =~= before.push(trimmed(word@)));
    }
}

/// Cuts `symbols` at its separators and returns the trimmed, non-empty pieces.
pub fn assemble(symbols: &Vec<Symbol>) -> (tokens: Vec<String>)
    ensures
        tokens.deep_view() == symbol_tokens(symbols@),
{
    let mut tokens: Vec<String> = Vec::new();
    let mut current: Vec<Symbol> = Vec::new();
    let ghost mut done: Seq<Seq<Symbol>> = Seq::empty();
    let mut i: usize = 0;
    assert(symbols@.take(0) =~= Seq::empty());
    assert(pieces(Seq::empty()) =~= done.push(current@));
    assert(tokens.deep_view() =~= kept(done));
    while i < symbols.len()
        invariant
            i <= symbols.len(),
            pieces(symbols@.take(i as int)) == done.push(current@),
            tokens.deep_view() == kept(done),
        decreases symbols.len() - i,
    {
        let s = symbols[i];
        proof {
            assert(symbols@.take(i + 1).drop_last() =~= symbols@.take(i as int));
            assert(done.push(current@).drop_last() =~= done);
        }
        match s {
            Symbol::Separator => {
                keep(&mut tokens, &current);
                proof {
                    done = done.push(current@);
                }
                current = Vec::new();
            },
            _ => {
                current.push(s);
            },
        }
        i += 1;
    }
    proof {
        assert(symbols@.take(i as int) =~= symbols@);
        assert(done.push(current@).drop_last() =~= done);
    }
    keep(&mut tokens, &current);
    tokens
}

/// Splits `text` into its tokens.
pub fn tokenize(text: &str) -> (tokens: Vec<String>)
    ensures
        tokens.deep_view() == tokens_of(text@),
{
    let symbols = classify(text);
    assemble(&symbols)
}

/// Tokenization is a function of the text alone: whatever two runs on the
/// same text return, they return the same tokens.
pub proof fn lemma_tokenize_deterministic(
    text: Seq<char>,
    first: Seq<Seq<char>>,
    second: Seq<Seq<char>>,
)
    requires
        first == tokens_of(text),
        second == tokens_of(text),
    ensures
        first == second,
{
}

/// A trimmed piece that is not empty begins and ends with an alphanumeric
/// character of the piece.
pub proof fn lemma_trimmed_ends(word: Seq<Symbol>)
    requires
        trimmed(word).len() > 0,
    ensures
        leading(word) + trailing(word) < word.len(),
        word[leading(word) as int] is Alphanumeric,
        word[word.len() - trailing(word) - 1] is Alphanumeric,
        trimmed(word).first() == symbol_char(word[leading(word) as int]),
        trimmed(word).last() == symbol_char(word[word.len() - trailing(word) - 1]),
{
    lemma_leading_stops(word);
    lemma_trailing_stops(word);
}

/// `leading` stops within the word, and if before its end, at an
/// alphanumeric symbol that nothing alphanumeric comes before.
proof fn lemma_leading_stops(word: Seq<Symbol>)
    ensures
        leading(word) <= word.len(),
        leading(word) < word.len() ==> word[leading(word) as int] is Alphanumeric,
        forall|k: int| 0 <= k < leading(word) ==> !(#[trigger] word[k] is Alphanumeric),
    decreases word.len(),
{
    if word.len() > 0 && !(word.first() is Alphanumeric) {
        let rest = word.drop_first();
        lemma_leading_stops(rest);
        assert forall|k: int| 0 <= k < leading(word) implies !(
        #[trigger] word[k] is Alphanumeric) by {
            if k > 0 {
                assert(rest[k - 1] == word[k]);
            }
        }
        if leading(word) < word.len() {
            assert(rest[leading(rest) as int] == word[leading(word) as int]);
        }
    }
}

/// `trailing` stops within the word, and if before its start, behind an
/// alphanumeric symbol that nothing alphanumeric comes after.
proof fn lemma_trailing_stops(word: Seq<Symbol>)
    ensures
        trailing(word) <= word.len(),
        trailing(word) < word.len() ==> word[word.len() - trailing(word) - 1] is Alphanumeric,
        forall|k: int|
            word.len() - trailing(word) <= k < word.len() ==> !(#[trigger] word[k] is Alphanumeric),
    decreases word.len(),
{
    if word.len() > 0 && !(word.last() is Alphanumeric) {
        let rest = word.drop_last();
        lemma_trailing_stops(rest);
        assert forall|k: int| word.len() - trailing(word) <= k < word.len() implies !(
        #[trigger] word[k] is Alphanumeric) by {
            if k < word.len() - 1 {
                assert(rest[k] == word[k]);
            }
        }
        if trailing(word) < word.len() {
            assert(rest[rest.len() - trailing(rest) - 1] == word[word.len() - trailing(word) - 1]);
        }
    }
}

/// No token is empty.
pub proof fn lemma_tokens_nonempty(pieces: Seq<Seq<Symbol>>, k: int)
    requires
        0 <= k < kept(pieces).len(),
    ensures
        kept(pieces)[k].len() > 0,
    decreases pieces.len(),
{
    if pieces.len() > 0 {
        let before = kept(pieces.drop_last());
        if k < before.len() {
            lemma_tokens_nonempty(pieces.drop_last(), k);
        }
    }
}

} // verus!
