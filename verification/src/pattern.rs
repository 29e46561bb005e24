//! Wildcard byte patterns and their textual form.
use vstd::prelude::*;
use vstd::slice::slice_subrange;

use crate::error::{ParseErrorKind, ParsePatternError};

verus! {

/// Wildcard-aware byte pattern: `Some(b)` matches the literal byte `b`, `None` any byte.
pub type WildcardPattern<'a> = &'a [Option<u8>];

/// An owned wildcard byte pattern.
#[derive(Debug, PartialEq, Eq)]
pub struct Pattern {
    bytes: Vec<Option<u8>>,
}

/// The character separates tokens: space, tab, line feed, form feed or carriage return.
pub open spec fn is_ascii_whitespace(c: char) -> bool {
    c == ' ' || c == '\t' || c == '\n' || c == '\x0C' || c == '\r'
}

/// End of the run of characters from `i` on that are no whitespace.
pub open spec fn run_end(text: Seq<char>, i: int) -> int
    decreases text.len() - i,
{
    if i >= text.len() || is_ascii_whitespace(text[i]) {
        i
    } else {
        run_end(text, i + 1)
    }
}

/// The tokens of `text` from `i` on: the runs of characters between whitespace.
pub open spec fn tokens(text: Seq<char>, i: int) -> Seq<Seq<char>>
    decreases text.len() - i,
{
    if i >= text.len() {
        Seq::empty()
    } else if is_ascii_whitespace(text[i]) {
        tokens(text, i + 1)
    } else {
        proof {
            lemma_run_end(text, i + 1);
        }
        let end = run_end(text, i + 1);
        seq![text.subrange(i, end)] + tokens(text, end)
    }
}

/// Value of an ASCII hex digit of either case.
pub open spec fn hex_value(c: char) -> Option<int> {
    if '0' <= c <= '9' {
        Some(c as int - '0' as int)
    } else if 'a' <= c <= 'f' {
        Some(c as int - 'a' as int + 10)
    } else if 'A' <= c <= 'F' {
        Some(c as int - 'A' as int + 10)
    } else {
        None
    }
}

/// The byte that two hex digits spell. A token of two characters that are not both hex digits has
/// a wrong digit, a token of any other number of characters a wrong length.
pub open spec fn hex_byte(token: Seq<char>) -> Result<u8, ParseErrorKind> {
    if token.len() != 2 {
        Err(ParseErrorKind::InvalidLength)
    } else {
        match (hex_value(token[0]), hex_value(token[1])) {
            (Some(hi), Some(lo)) => Ok((16 * hi + lo) as u8),
            _ => Err(ParseErrorKind::InvalidHexDigit),
        }
    }
}

/// The token is `?` or `??`.
pub open spec fn is_wildcard(token: Seq<char>) -> bool {
    token == seq!['?'] || token == seq!['?', '?']
}

/// The pattern slot that a token stands for.
pub open spec fn token_slot(token: Seq<char>) -> Result<Option<u8>, ParseErrorKind> {
    if is_wildcard(token) {
        Ok(None)
    } else {
        match hex_byte(token) {
            Ok(byte) => Ok(Some(byte)),
            Err(kind) => Err(kind),
        }
    }
}

/// The slots of the first `n` tokens, or the first error among them.
pub open spec fn slots(tokens: Seq<Seq<char>>, n: int) -> Result<Seq<Option<u8>>, ParsePatternError>
    decreases n,
{
    if n <= 0 {
        Ok(Seq::empty())
    } else {
        match slots(tokens, n - 1) {
            Err(e) => Err(e),
            Ok(before) => match token_slot(tokens[n - 1]) {
                Ok(slot) => Ok(before.push(slot)),
                Err(kind) => Err(ParsePatternError { token_index: (n - 1) as usize, kind }),
            },
        }
    }
}

/// The pattern that `text` spells: one slot for each token. Text without tokens spells none.
pub open spec fn ida_pattern(text: Seq<char>) -> Result<Seq<Option<u8>>, ParsePatternError> {
    let all = tokens(text, 0);
    if all.len() == 0 {
        Err(ParsePatternError { token_index: 0, kind: ParseErrorKind::Empty })
    } else {
        slots(all, all.len() as int)
    }
}

/// A run ends at the end of the text or at whitespace, and holds none.
pub proof fn lemma_run_end(text: Seq<char>, i: int)
    ensures
        i <= run_end(text, i),
        i <= text.len() ==> run_end(text, i) <= text.len(),
        forall|k: int| i <= k < run_end(text, i) ==> !is_ascii_whitespace(#[trigger] text[k]),
        run_end(text, i) < text.len() ==> is_ascii_whitespace(text[run_end(text, i)]),
    decreases text.len() - i,
{
    if i < text.len() && !is_ascii_whitespace(text[i]) {
        lemma_run_end(text, i + 1);
    }
}

/// An error among the first `n` tokens is the error of all of them.
proof fn lemma_slots_first_error(tokens: Seq<Seq<char>>, n: int, m: int)
    requires
        n <= m,
        slots(tokens, n) is Err,
    ensures
        slots(tokens, m) == slots(tokens, n),
    decreases m - n,
{
    if n < m {
        lemma_slots_first_error(tokens, n, m - 1);
    }
}

/// Whether a character separates tokens.
fn separates(c: char) -> (r: bool)
    ensures
        r == is_ascii_whitespace(c),
{
    c == ' ' || c == '\t' || c == '\n' || c == '\x0C' || c == '\r'
}

/// The characters of `s`.
fn characters(s: &str) -> (r: Vec<char>)
    ensures
        r@ == s@,
{
    let mut r: Vec<char> = Vec::new();
    for c in it: s.chars()
        invariant
            r@ == it.seq().take(it.index() as int),
    {
        r.push(c);
    }
    r
}

/// Value of an ASCII hex digit of either case, `None` for any other character.
pub fn hex_digit(c: char) -> (r: Option<u8>)
    ensures
        match r {
            Some(v) => hex_value(c) == Some(v as int) && v < 16,
            None => hex_value(c) is None,
        },
{
    let code: u32 = c as u32;
    if '0' <= c && c <= '9' {
        Some((code - 0x30) as u8)
    } else if 'a' <= c && c <= 'f' {
        Some((code - 0x61 + 10) as u8)
    } else if 'A' <= c && c <= 'F' {
        Some((code - 0x41 + 10) as u8)
    } else {
        None
    }
}

/// Parse a token of two hex digits.
pub fn parse_hex_byte(token: &[char]) -> (r: Result<u8, ParseErrorKind>)
    ensures
        r == hex_byte(token@),
{
    if token.len() != 2 {
        return Err(ParseErrorKind::InvalidLength);
    }
    match (hex_digit(token[0]), hex_digit(token[1])) {
        (Some(hi), Some(lo)) => {
            assert((hi << 4) | lo == 16 * hi + lo) by (bit_vector)
                requires
                    hi < 16,
                    lo < 16,
            ;
            Ok((hi << 4) | lo)
        },
        _ => Err(ParseErrorKind::InvalidHexDigit),
    }
}

/// Parse a token.
fn parse_token(token: &[char]) -> (r: Result<Option<u8>, ParseErrorKind>)
    ensures
        r == token_slot(token@),
{
    let wildcard: bool = (token.len() == 1 && token[0] == '?') || (token.len() == 2 && token[0]
        == '?' && token[1] == '?');
    proof {
        if wildcard {
            if token@.len() == 1 {
                assert(token@ =~= seq!['?']);
            } else {
                assert(token@ =~= seq!['?', '?']);
            }
        } else if is_wildcard(token@) {
            assert(token@[0] == '?');
        }
    }
    if wildcard {
        return Ok(None);
    }
    match parse_hex_byte(token) {
        Ok(byte) => Ok(Some(byte)),
        Err(kind) => Err(kind),
    }
}

impl View for Pattern {
    type V = Seq<Option<u8>>;

    /// The slots of the pattern.
    closed spec fn view(&self) -> Seq<Option<u8>> {
        self.bytes@
    }
}

impl Clone for Pattern {
    /// A pattern of the same slots.
    fn clone(&self) -> (r: Self)
        ensures
            r@ == self@,
    {
        let bytes: Vec<Option<u8>> = self.bytes.clone();
        assert(bytes@ =~= self.bytes@);
        Pattern { bytes }
    }
}

impl Pattern {
    /// Make a pattern of the given slots.
    pub fn new(bytes: Vec<Option<u8>>) -> (r: Self)
        ensures
            r@ == bytes@,
    {
        Pattern { bytes }
    }

    /// Parse a pattern of tokens separated by ASCII whitespace:
    ///
    /// - `XX`, two hex digits of either case, stands for the byte `0xXX`;
    /// - `?` and `??` stand for the wildcard.
    ///
    /// The error names the first token that is neither.
    pub fn from_ida(s: &str) -> (r: Result<Self, ParsePatternError>)
        ensures
            match r {
                Ok(pattern) => ida_pattern(s@) == Ok::<_, ParsePatternError>(pattern@),
                Err(e) => ida_pattern(s@) == Err::<Seq<Option<u8>>, _>(e),
            },
    {
        let chars: Vec<char> = characters(s);
        let text: &[char] = chars.as_slice();
        let mut parsed: Vec<Option<u8>> = Vec::new();
        let ghost all = tokens(text@, 0);
        let ghost mut done: Seq<Seq<char>> = Seq::empty();
        let mut i: usize = 0;
        while i < text.len()
            invariant
                i <= text@.len(),
                text@ == s@,
                all == tokens(text@, 0),
                all == done + tokens(text@, i as int),
                parsed@.len() == done.len(),
                slots(all, done.len() as int) == Ok::<_, ParsePatternError>(parsed@),
            decreases text@.len() - i,
        {
            if separates(text[i]) {
                i = i + 1;
            } else {
                let start: usize = i;
                i = i + 1;
                while i < text.len() && !separates(text[i])
                    invariant
                        start < i <= text@.len(),
                        run_end(text@, start + 1) == run_end(text@, i as int),
                    decreases text@.len() - i,
                {
                    i = i + 1;
                }
                let token: &[char] = slice_subrange(text, start, i);
                proof {
                    assert(run_end(text@, start + 1) == i);
                    let rest = tokens(text@, i as int);
                    assert(tokens(text@, start as int) == seq![token@] + rest);
                    assert(all[done.len() as int] == token@);
                    assert(all =~= done.push(token@) + rest);
                }
                match parse_token(token) {
                    Ok(slot) => {
                        parsed.push(slot);
                        proof {
                            done = done.push(token@);
                        }
                    },
                    Err(kind) => {
                        proof {
                            lemma_slots_first_error(all, done.len() as int + 1, all.len() as int);
                        }
                        return Err(ParsePatternError { token_index: parsed.len(), kind });
                    },
                }
            }
        }
        if parsed.is_empty() {
            return Err(ParsePatternError { token_index: 0, kind: ParseErrorKind::Empty });
        }
        assert(all =~= done);
        Ok(Pattern { bytes: parsed })
    }

    /// The slots of the pattern, as the scanners take them.
    pub fn as_slice(&self) -> (r: WildcardPattern<'_>)
        ensures
            r@ == self@,
    {
        self.bytes.as_slice()
    }

    /// Number of slots.
    pub fn len(&self) -> (r: usize)
        ensures
            r == self@.len(),
    {
        self.bytes.len()
    }

    /// Whether there are no slots.
    pub fn is_empty(&self) -> (r: bool)
        ensures
            r == (self@.len() == 0),
    {
        self.bytes.is_empty()
    }
}

/// Tokens are not empty, so there are no more of them than characters.
proof fn lemma_token_count(text: Seq<char>, i: int)
    requires
        0 <= i <= text.len(),
    ensures
        tokens(text, i).len() <= text.len() - i,
    decreases text.len() - i,
{
    if i < text.len() {
        if is_ascii_whitespace(text[i]) {
            lemma_token_count(text, i + 1);
        } else {
            lemma_run_end(text, i + 1);
            lemma_token_count(text, run_end(text, i + 1));
        }
    }
}

/// What the first `n` tokens give.
proof fn lemma_slots(all: Seq<Seq<char>>, n: int)
    requires
        0 <= n <= all.len() <= usize::MAX,
    ensures
        match slots(all, n) {
            Ok(pattern) => {
                &&& pattern.len() == n
                &&& forall|i: int|
                    0 <= i < n ==> token_slot(#[trigger] all[i]) == Ok::<_, ParseErrorKind>(
                        pattern[i],
                    )
            },
            Err(e) => {
                &&& e.token_index < n
                &&& token_slot(all[e.token_index as int]) == Err::<Option<u8>, _>(e.kind)
                &&& forall|i: int|
                    0 <= i < e.token_index ==> token_slot(#[trigger] all[i]) is Ok
            },
        },
    decreases n,
{
    if n > 0 {
        lemma_slots(all, n - 1);
    }
}

/// A parsed pattern is not empty and has one slot for each token, the one that the token stands
/// for. An error names the first token that stands for none, and why; only text without tokens
/// is reported as empty.
pub proof fn parsing_goes_token_by_token(text: Seq<char>)
    requires
        text.len() <= usize::MAX,
    ensures
        ({
            let all = tokens(text, 0);
            match ida_pattern(text) {
                Ok(pattern) => {
                    &&& pattern.len() > 0
                    &&& pattern.len() == all.len()
                    &&& forall|i: int|
                        0 <= i < all.len() ==> token_slot(#[trigger] all[i]) == Ok::<
                            _,
                            ParseErrorKind,
                        >(pattern[i])
                },
                Err(e) => {
                    &&& e.kind is Empty <==> all.len() == 0
                    &&& all.len() == 0 ==> e.token_index == 0
                    &&& all.len() > 0 ==> {
                        &&& e.token_index < all.len()
                        &&& token_slot(all[e.token_index as int]) == Err::<Option<u8>, _>(e.kind)
                        &&& forall|i: int|
                            0 <= i < e.token_index ==> token_slot(#[trigger] all[i]) is Ok
                    }
                },
            }
        }),
{
    let all = tokens(text, 0);
    lemma_token_count(text, 0);
    lemma_slots(all, all.len() as int);
}

/// Only a token of two characters can have a wrong digit; a wrong token of any other number of
/// characters has the wrong length.
pub proof fn the_number_of_characters_decides_the_error(token: Seq<char>)
    ensures
        token_slot(token) matches Err(kind) ==> kind == if token.len() == 2 {
            ParseErrorKind::InvalidHexDigit
        } else {
            ParseErrorKind::InvalidLength
        },
{
}

/// The lower-case form of an ASCII letter; any other character itself.
pub open spec fn lower_case(c: char) -> char {
    if 'A' <= c <= 'Z' {
        (c as int - 'A' as int + 'a' as int) as char
    } else {
        c
    }
}

/// The texts differ in the case of letters at most.
pub open spec fn same_but_for_case(a: Seq<char>, b: Seq<char>) -> bool {
    &&& a.len() == b.len()
    &&& forall|k: int| 0 <= k < a.len() ==> lower_case(#[trigger] a[k]) == lower_case(b[k])
}

/// The tokens of texts that differ in case alone differ in case alone.
proof fn lemma_tokens_but_for_case(a: Seq<char>, b: Seq<char>, i: int)
    requires
        same_but_for_case(a, b),
        0 <= i,
    ensures
        run_end(a, i) == run_end(b, i),
        tokens(a, i).len() == tokens(b, i).len(),
        forall|k: int|
            0 <= k < tokens(a, i).len() ==> same_but_for_case(
                #[trigger] tokens(a, i)[k],
                tokens(b, i)[k],
            ),
    decreases a.len() - i,
{
    if i < a.len() {
        assert(lower_case(a[i]) == lower_case(b[i]));
        lemma_tokens_but_for_case(a, b, i + 1);
        if !is_ascii_whitespace(a[i]) {
            lemma_run_end(a, i + 1);
            let end = run_end(a, i + 1);
            lemma_tokens_but_for_case(a, b, end);
            assert(same_but_for_case(a.subrange(i, end), b.subrange(i, end)));
            assert forall|k: int| 0 <= k < tokens(a, i).len() implies same_but_for_case(
                #[trigger] tokens(a, i)[k],
                tokens(b, i)[k],
            ) by {
                if k > 0 {
                    assert(tokens(a, i)[k] == tokens(a, end)[k - 1]);
                    assert(tokens(b, i)[k] == tokens(b, end)[k - 1]);
                }
            }
        }
    }
}

/// Tokens that differ in case alone stand for the same slot.
proof fn lemma_slot_but_for_case(a: Seq<char>, b: Seq<char>)
    requires
        same_but_for_case(a, b),
    ensures
        token_slot(a) == token_slot(b),
{
    if a.len() == 1 {
        assert(lower_case(a[0]) == lower_case(b[0]));
        assert(is_wildcard(a) == is_wildcard(b)) by {
            assert(a[0] == '?' <==> b[0] == '?');
            assert(a[0] == '?' ==> a =~= seq!['?']);
            assert(b[0] == '?' ==> b =~= seq!['?']);
        }
    } else if a.len() == 2 {
        assert(lower_case(a[0]) == lower_case(b[0]));
        assert(lower_case(a[1]) == lower_case(b[1]));
        assert(is_wildcard(a) == is_wildcard(b)) by {
            assert(a[0] == '?' && a[1] == '?' ==> a =~= seq!['?', '?']);
            assert(b[0] == '?' && b[1] == '?' ==> b =~= seq!['?', '?']);
        }
        assert(hex_value(a[0]) == hex_value(b[0]));
        assert(hex_value(a[1]) == hex_value(b[1]));
    }
}

/// Hex digits of either case spell the same pattern, and give the same errors.
pub proof fn case_does_not_matter(a: Seq<char>, b: Seq<char>)
    requires
        same_but_for_case(a, b),
    ensures
        ida_pattern(a) == ida_pattern(b),
{
    lemma_tokens_but_for_case(a, b, 0);
    lemma_slots_but_for_case(tokens(a, 0), tokens(b, 0), tokens(a, 0).len() as int);
}

/// Token lists that differ in case alone give the same slots.
proof fn lemma_slots_but_for_case(a: Seq<Seq<char>>, b: Seq<Seq<char>>, n: int)
    requires
        n <= a.len(),
        a.len() == b.len(),
        forall|k: int| 0 <= k < a.len() ==> same_but_for_case(#[trigger] a[k], b[k]),
    ensures
        slots(a, n) == slots(b, n),
    decreases n,
{
    if n > 0 {
        lemma_slots_but_for_case(a, b, n - 1);
        lemma_slot_but_for_case(a[n - 1], b[n - 1]);
    }
}

/// The tokens from the index `i` on, each behind its separator, and the last separator.
pub open spec fn spelled(words: Seq<Seq<char>>, separators: Seq<Seq<char>>, i: int) -> Seq<char>
    decreases words.len() - i,
{
    if i < words.len() {
        separators[i] + (words[i] + spelled(words, separators, i + 1))
    } else {
        separators[i]
    }
}

/// Whitespace of any kind and length between tokens, and before and behind them, only separates
/// them: whatever separators the tokens are spelled with, the same tokens are read.
pub proof fn whitespace_only_separates(words: Seq<Seq<char>>, separators: Seq<Seq<char>>)
    requires
        separators.len() == words.len() + 1,
        forall|i: int, k: int|
            0 <= i < separators.len() && 0 <= k < separators[i].len() ==> is_ascii_whitespace(
                #[trigger] separators[i][k],
            ),
        forall|i: int| 0 < i < words.len() ==> (#[trigger] separators[i]).len() > 0,
        forall|i: int| 0 <= i < words.len() ==> (#[trigger] words[i]).len() > 0,
        forall|i: int, k: int|
            0 <= i < words.len() && 0 <= k < words[i].len() ==> !is_ascii_whitespace(
                #[trigger] words[i][k],
            ),
    ensures
        tokens(spelled(words, separators, 0), 0) == words,
        words.len() > 0 ==> ida_pattern(spelled(words, separators, 0)) == slots(
            words,
            words.len() as int,
        ),
{
    lemma_spelled_tokens(words, separators, 0);
    assert(words.skip(0) =~= words);
}

/// The tokens of the text spelled from the index `i` on.
proof fn lemma_spelled_tokens(words: Seq<Seq<char>>, separators: Seq<Seq<char>>, i: int)
    requires
        separators.len() == words.len() + 1,
        forall|i: int, k: int|
            0 <= i < separators.len() && 0 <= k < separators[i].len() ==> is_ascii_whitespace(
                #[trigger] separators[i][k],
            ),
        forall|i: int| 0 < i < words.len() ==> (#[trigger] separators[i]).len() > 0,
        forall|i: int| 0 <= i < words.len() ==> (#[trigger] words[i]).len() > 0,
        forall|i: int, k: int|
            0 <= i < words.len() && 0 <= k < words[i].len() ==> !is_ascii_whitespace(
                #[trigger] words[i][k],
            ),
        0 <= i <= words.len(),
    ensures
        tokens(spelled(words, separators, i), 0) == words.skip(i),
    decreases words.len() - i,
{
    let text = spelled(words, separators, i);
    let sep = separators[i];
    assert forall|k: int| 0 <= k < sep.len() implies is_ascii_whitespace(#[trigger] text[k]) by {
        assert(text[k] == separators[i][k]);
    }
    lemma_skip_whitespace(text, 0, sep.len() as int);
    if i < words.len() {
        let word = words[i];
        let rest = spelled(words, separators, i + 1);
        let start = sep.len() as int;
        let end = start + word.len();
        lemma_spelled_tokens(words, separators, i + 1);
        assert(text =~= (sep + word) + rest);
        assert(text.subrange(start, end) =~= word);
        assert forall|k: int| start <= k < end implies !is_ascii_whitespace(#[trigger] text[k]) by {
            assert(text[k] == words[i][k - start]);
        }
        assert(end == text.len() || is_ascii_whitespace(text[end])) by {
            if end < text.len() {
                let next = separators[i + 1];
                assert(text[end] == rest[0]);
                if i + 1 < words.len() {
                    assert(next.len() > 0);
                }
                assert(rest[0] == separators[i + 1][0]);
            }
        }
        lemma_run_of(text, start + 1, end);
        lemma_tokens_shift(sep + word, rest, 0);
        assert(tokens(text, end) == tokens(rest, 0));
        assert(tokens(text, start) == seq![word] + tokens(rest, 0));
        assert(words.skip(i) =~= seq![word] + words.skip(i + 1));
    } else {
        assert(words.skip(i) =~= Seq::<Seq<char>>::empty());
    }
}

/// Whitespace before a token is passed over.
proof fn lemma_skip_whitespace(text: Seq<char>, i: int, end: int)
    requires
        0 <= i <= end <= text.len(),
        forall|k: int| i <= k < end ==> is_ascii_whitespace(#[trigger] text[k]),
    ensures
        tokens(text, i) == tokens(text, end),
    decreases end - i,
{
    if i < end {
        lemma_skip_whitespace(text, i + 1, end);
    }
}

/// A run that stops at whitespace or at the end of the text ends there.
proof fn lemma_run_of(text: Seq<char>, i: int, end: int)
    requires
        0 <= i <= end <= text.len(),
        forall|k: int| i <= k < end ==> !is_ascii_whitespace(#[trigger] text[k]),
        end == text.len() || is_ascii_whitespace(text[end]),
    ensures
        run_end(text, i) == end,
    decreases end - i,
{
    if i < end {
        lemma_run_of(text, i + 1, end);
    }
}

/// What lies before a position does not matter to the tokens from there on.
proof fn lemma_tokens_shift(before: Seq<char>, text: Seq<char>, i: int)
    requires
        0 <= i,
    ensures
        run_end(before + text, before.len() + i) == before.len() + run_end(text, i),
        tokens(before + text, before.len() + i) == tokens(text, i),
    decreases text.len() - i,
{
    let n = before.len();
    let whole = before + text;
    if i < text.len() {
        assert(whole[n + i] == text[i]);
        lemma_tokens_shift(before, text, i + 1);
        if !is_ascii_whitespace(text[i]) {
            lemma_run_end(text, i + 1);
            let end = run_end(text, i + 1);
            lemma_tokens_shift(before, text, end);
            assert(whole.subrange(n + i, n + end) =~= text.subrange(i, end));
        }
    }
}

} // verus!
