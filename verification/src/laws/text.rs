//! What is parsed is what is spelled, and a message says what is wrong.
use vstd::prelude::*;

use crate::error;
use crate::error::{ParseErrorKind, ParsePatternError};
use crate::pattern;
use crate::pattern::Pattern;

verus! {

/// The character is a space, a tab, a line feed, a form feed or a carriage return.
pub open spec fn is_blank(c: char) -> bool {
    c as int == 32 || c as int == 9 || c as int == 10 || c as int == 12 || c as int == 13
}

/// The character is the hex digit of the value `v`, in either case.
pub open spec fn is_digit_of(c: char, v: int) -> bool {
    ||| 0 <= v < 10 && c as int == 48 + v
    ||| 10 <= v < 16 && c as int == 97 + (v - 10)
    ||| 10 <= v < 16 && c as int == 65 + (v - 10)
}

/// The word spells the slot: a byte in two hex digits, the higher first, a wildcard in one or two
/// question marks.
pub open spec fn spells(word: Seq<char>, slot: Option<u8>) -> bool {
    match slot {
        Some(byte) => {
            &&& word.len() == 2
            &&& is_digit_of(word[0], byte as int / 16)
            &&& is_digit_of(word[1], byte as int % 16)
        },
        None => {
            &&& word.len() == 1 || word.len() == 2
            &&& forall|k: int| 0 <= k < word.len() ==> (#[trigger] word[k]) as int == 63
        },
    }
}

/// The word spells no slot.
pub open spec fn spells_nothing(word: Seq<char>) -> bool {
    forall|slot: Option<u8>| !#[trigger] spells(word, slot)
}

/// The text is made of the words, which hold no blanks, and of blanks between them, before them
/// and behind them.
pub open spec fn is_written(
    text: Seq<char>,
    words: Seq<Seq<char>>,
    blanks: Seq<Seq<char>>,
) -> bool {
    &&& blanks.len() == words.len() + 1
    &&& text == written(words, blanks, 0)
    &&& forall|i: int, k: int|
        0 <= i < blanks.len() && 0 <= k < blanks[i].len() ==> is_blank(#[trigger] blanks[i][k])
    &&& forall|i: int| 0 < i < words.len() ==> (#[trigger] blanks[i]).len() > 0
    &&& forall|i: int| 0 <= i < words.len() ==> (#[trigger] words[i]).len() > 0
    &&& forall|i: int, k: int|
        0 <= i < words.len() && 0 <= k < words[i].len() ==> !is_blank(#[trigger] words[i][k])
}

/// The blanks and the words from the index `i` on, in turn.
pub open spec fn written(words: Seq<Seq<char>>, blanks: Seq<Seq<char>>, i: int) -> Seq<char>
    decreases words.len() - i,
{
    if i < words.len() {
        blanks[i] + (words[i] + written(words, blanks, i + 1))
    } else {
        blanks[i]
    }
}

/// The two ways to join words and blanks.
proof fn lemma_written(words: Seq<Seq<char>>, blanks: Seq<Seq<char>>, i: int)
    ensures
        written(words, blanks, i) == pattern::spelled(words, blanks, i),
    decreases words.len() - i,
{
    if i < words.len() {
        lemma_written(words, blanks, i + 1);
    }
}

/// The words of a text are its tokens.
proof fn lemma_words(text: Seq<char>, words: Seq<Seq<char>>, blanks: Seq<Seq<char>>)
    requires
        is_written(text, words, blanks),
    ensures
        pattern::tokens(text, 0) == words,
{
    lemma_written(words, blanks, 0);
    assert forall|c: char| #[trigger] is_blank(c) == pattern::is_ascii_whitespace(c) by {}
    assert forall|i: int, k: int|
        0 <= i < blanks.len() && 0 <= k < blanks[i].len() implies pattern::is_ascii_whitespace(
        #[trigger] blanks[i][k],
    ) by {
        assert(is_blank(blanks[i][k]));
    }
    assert forall|i: int, k: int|
        0 <= i < words.len() && 0 <= k < words[i].len() implies !pattern::is_ascii_whitespace(
        #[trigger] words[i][k],
    ) by {
        assert(!is_blank(words[i][k]));
    }
    pattern::whitespace_only_separates(words, blanks);
}

/// The digit of a value and the value of a digit.
proof fn lemma_digit(c: char)
    ensures
        forall|v: int| #[trigger] is_digit_of(c, v) <==> pattern::hex_value(c) == Some(v),
{
}

/// A word stands for the slot that it spells.
proof fn lemma_word(word: Seq<char>, slot: Option<u8>)
    ensures
        spells(word, slot) <==> pattern::token_slot(word) == Ok::<_, ParseErrorKind>(slot),
{
    if word.len() == 1 {
        lemma_digit(word[0]);
        if word[0] as int == 63 {
            assert(word =~= seq!['?']);
        }
        assert(pattern::is_wildcard(word) <==> word[0] == '?');
    } else if word.len() == 2 {
        lemma_digit(word[0]);
        lemma_digit(word[1]);
        if word[0] as int == 63 && word[1] as int == 63 {
            assert(word =~= seq!['?', '?']);
        }
        assert(pattern::is_wildcard(word) <==> word[0] == '?' && word[1] == '?');
        if let Some(byte) = slot {
            assert(byte as int == 16 * (byte as int / 16) + byte as int % 16);
        }
    }
}

/// The tokens that spell slots stand for them.
proof fn lemma_slots_of(words: Seq<Seq<char>>, slots: Seq<Option<u8>>, n: int)
    requires
        0 <= n <= words.len(),
        n <= slots.len(),
        forall|i: int| 0 <= i < n ==> spells(#[trigger] words[i], slots[i]),
    ensures
        pattern::slots(words, n) == Ok::<_, ParsePatternError>(slots.take(n)),
    decreases n,
{
    if n > 0 {
        lemma_slots_of(words, slots, n - 1);
        lemma_word(words[n - 1], slots[n - 1]);
        assert(spells(words[n - 1], slots[n - 1]));
        assert(slots.take(n - 1).push(slots[n - 1]) =~= slots.take(n));
    } else {
        assert(slots.take(n) =~= Seq::empty());
    }
}

/// The first wrong token decides.
proof fn lemma_first_wrong(words: Seq<Seq<char>>, slots: Seq<Option<u8>>, i: int, n: int)
    requires
        0 <= i < n <= words.len(),
        i <= slots.len(),
        forall|k: int| 0 <= k < i ==> spells(#[trigger] words[k], slots[k]),
        spells_nothing(words[i]),
    ensures
        pattern::slots(words, n) == Err::<Seq<Option<u8>>, _>(
            (ParsePatternError {
                token_index: i as usize,
                kind: if words[i].len() == 2 {
                    ParseErrorKind::InvalidHexDigit
                } else {
                    ParseErrorKind::InvalidLength
                },
            }),
        ),
    decreases n,
{
    if n == i + 1 {
        lemma_slots_of(words, slots, i);
        if let Ok(slot) = pattern::token_slot(words[i]) {
            lemma_word(words[i], slot);
            assert(!spells(words[i], slot));
        }
        pattern::the_number_of_characters_decides_the_error(words[i]);
    } else {
        lemma_first_wrong(words, slots, i, n - 1);
    }
}

/// A pattern is parsed as it is spelled, however long it is and whatever blanks stand between its
/// words, and holds the slots that are spelled. Text without words is reported as empty. The first
/// word that spells nothing is reported, as one of the wrong length unless it has two characters.
pub proof fn a_pattern_is_parsed_as_spelled(
    text: &str,
    r: Result<Pattern, ParsePatternError>,
    words: Seq<Seq<char>>,
    blanks: Seq<Seq<char>>,
    slots: Seq<Option<u8>>,
)
    requires
        call_ensures(Pattern::from_ida, (text,), r),
        is_written(text@, words, blanks),
        slots.len() <= words.len() <= usize::MAX,
        forall|i: int| 0 <= i < slots.len() ==> spells(#[trigger] words[i], slots[i]),
    ensures
        words.len() == 0 ==> (r matches Err(e) && e.token_index == 0 && e.kind is Empty),
        words.len() > 0 && slots.len() == words.len() ==> (r matches Ok(parsed) && parsed@
            == slots),
        slots.len() < words.len() && spells_nothing(words[slots.len() as int]) ==> {
            &&& r matches Err(e)
            &&& e.token_index == slots.len()
            &&& words[slots.len() as int].len() == 2 ==> e.kind is InvalidHexDigit
            &&& words[slots.len() as int].len() != 2 ==> e.kind is InvalidLength
        },
{
    lemma_words(text@, words, blanks);
    if words.len() > 0 && slots.len() == words.len() {
        lemma_slots_of(words, slots, words.len() as int);
        assert(slots.take(words.len() as int) =~= slots);
    }
    if slots.len() < words.len() && spells_nothing(words[slots.len() as int]) {
        lemma_first_wrong(words, slots, slots.len() as int, words.len() as int);
    }
}

/// Every text is made of words and blanks.
pub proof fn every_text_is_written(text: Seq<char>) -> (r: (Seq<Seq<char>>, Seq<Seq<char>>))
    ensures
        is_written(text, r.0, r.1),
    decreases text.len(),
{
    if text.len() == 0 {
        let words = Seq::<Seq<char>>::empty();
        let blanks = seq![text];
        assert(is_written(text, words, blanks));
        (words, blanks)
    } else {
        let c = text[0];
        let rest = text.subrange(1, text.len() as int);
        let (words, blanks) = every_text_is_written(rest);
        assert(text =~= seq![c] + rest);
        if is_blank(c) {
            let more = blanks.update(0, seq![c] + blanks[0]);
            lemma_written_from(words, blanks, more, 1);
            assert(written(words, more, 0) =~= text) by {
                if words.len() > 0 {
                    assert(written(words, more, 0) == more[0] + (words[0] + written(
                        words,
                        more,
                        1,
                    )));
                }
            }
            assert forall|i: int, k: int|
                0 <= i < more.len() && 0 <= k < more[i].len() implies is_blank(
                #[trigger] more[i][k],
            ) by {
                if i > 0 {
                    assert(is_blank(blanks[i][k]));
                } else if k > 0 {
                    assert(more[0][k] == blanks[0][k - 1]);
                    assert(is_blank(blanks[0][k - 1]));
                }
            }
            assert forall|i: int| 0 < i < words.len() implies (#[trigger] more[i]).len() > 0 by {
                assert(blanks[i].len() > 0);
            }
            (words, more)
        } else if words.len() > 0 && blanks[0].len() == 0 {
            let more = words.update(0, seq![c] + words[0]);
            lemma_written_words_from(words, more, blanks, 1);
            assert(written(more, blanks, 0) =~= text) by {
                assert(written(more, blanks, 0) == blanks[0] + (more[0] + written(
                    more,
                    blanks,
                    1,
                )));
                assert(rest == blanks[0] + (words[0] + written(words, blanks, 1)));
            }
            assert forall|i: int, k: int|
                0 <= i < more.len() && 0 <= k < more[i].len() implies !is_blank(
                #[trigger] more[i][k],
            ) by {
                if i > 0 {
                    assert(!is_blank(words[i][k]));
                } else if k > 0 {
                    assert(more[0][k] == words[0][k - 1]);
                    assert(!is_blank(words[0][k - 1]));
                }
            }
            assert forall|i: int| 0 <= i < more.len() implies (#[trigger] more[i]).len() > 0 by {
                if i > 0 {
                    assert(words[i].len() > 0);
                }
            }
            (more, blanks)
        } else {
            let new_words = seq![seq![c]] + words;
            let new_blanks = seq![Seq::<char>::empty()] + blanks;
            lemma_written_shift(words, blanks, new_words, new_blanks, 0);
            assert(written(new_words, new_blanks, 0) =~= text) by {
                assert(written(new_words, new_blanks, 0) == new_blanks[0] + (new_words[0] + written(
                    new_words,
                    new_blanks,
                    1,
                )));
            }
            assert forall|i: int, k: int|
                0 <= i < new_blanks.len() && 0 <= k < new_blanks[i].len() implies is_blank(
                #[trigger] new_blanks[i][k],
            ) by {
                assert(new_blanks[i] == blanks[i - 1]);
                assert(is_blank(blanks[i - 1][k]));
            }
            assert forall|i: int| 0 < i < new_words.len() implies (
            #[trigger] new_blanks[i]).len() > 0 by {
                assert(new_blanks[i] == blanks[i - 1]);
                if i > 1 {
                    assert(blanks[i - 1].len() > 0);
                }
            }
            assert forall|i: int| 0 <= i < new_words.len() implies (
            #[trigger] new_words[i]).len() > 0 by {
                if i > 0 {
                    assert(new_words[i] == words[i - 1]);
                    assert(words[i - 1].len() > 0);
                }
            }
            assert forall|i: int, k: int|
                0 <= i < new_words.len() && 0 <= k < new_words[i].len() implies !is_blank(
                #[trigger] new_words[i][k],
            ) by {
                if i > 0 {
                    assert(new_words[i] == words[i - 1]);
                    assert(!is_blank(words[i - 1][k]));
                }
            }
            (new_words, new_blanks)
        }
    }
}

/// Blanks before an index do not matter behind it.
proof fn lemma_written_from(
    words: Seq<Seq<char>>,
    a: Seq<Seq<char>>,
    b: Seq<Seq<char>>,
    i: int,
)
    requires
        0 <= i,
        a.len() == b.len() == words.len() + 1,
        forall|k: int| i <= k < a.len() ==> #[trigger] a[k] == b[k],
    ensures
        i <= words.len() ==> written(words, a, i) == written(words, b, i),
    decreases words.len() - i,
{
    if i < words.len() {
        lemma_written_from(words, a, b, i + 1);
    }
}

/// Words before an index do not matter behind it.
proof fn lemma_written_words_from(
    a: Seq<Seq<char>>,
    b: Seq<Seq<char>>,
    blanks: Seq<Seq<char>>,
    i: int,
)
    requires
        0 <= i,
        a.len() == b.len(),
        forall|k: int| i <= k < a.len() ==> #[trigger] a[k] == b[k],
    ensures
        written(a, blanks, i) == written(b, blanks, i),
    decreases a.len() - i,
{
    if i < a.len() {
        lemma_written_words_from(a, b, blanks, i + 1);
    }
}

/// A word and blanks put before the others do not change what stands behind them.
proof fn lemma_written_shift(
    words: Seq<Seq<char>>,
    blanks: Seq<Seq<char>>,
    new_words: Seq<Seq<char>>,
    new_blanks: Seq<Seq<char>>,
    i: int,
)
    requires
        0 <= i <= words.len(),
        blanks.len() == words.len() + 1,
        new_words.len() == words.len() + 1,
        new_blanks.len() == blanks.len() + 1,
        forall|k: int| 0 <= k < words.len() ==> new_words[k + 1] == #[trigger] words[k],
        forall|k: int| 0 <= k < blanks.len() ==> new_blanks[k + 1] == #[trigger] blanks[k],
    ensures
        written(new_words, new_blanks, i + 1) == written(words, blanks, i),
    decreases words.len() - i,
{
    assert(new_blanks[i + 1] == blanks[i]);
    if i < words.len() {
        assert(new_words[i + 1] == words[i]);
        lemma_written_shift(words, blanks, new_words, new_blanks, i + 1);
    }
}

/// A pattern keeps the slots that it is made of or parsed to, and tells them, their number and
/// whether there are any.
pub proof fn a_pattern_keeps_its_slots(
    bytes: Vec<Option<u8>>,
    made: Pattern,
    pattern: &Pattern,
    copy: Pattern,
    slots: &[Option<u8>],
    len: usize,
    empty: bool,
)
    requires
        call_ensures(Pattern::new, (bytes,), made),
        call_ensures(Pattern::clone, (pattern,), copy),
        call_ensures(Pattern::as_slice, (pattern,), slots),
        call_ensures(Pattern::len, (pattern,), len),
        call_ensures(Pattern::is_empty, (pattern,), empty),
    ensures
        made@ == bytes@,
        copy@ == pattern@,
        slots@ == pattern@,
        len == pattern@.len(),
        empty <==> pattern@.len() == 0,
{
}

/// The number that decimal digits stand for, the highest first.
pub open spec fn number(digits: Seq<char>) -> int
    decreases digits.len(),
{
    if digits.len() == 0 {
        0
    } else {
        10 * number(digits.drop_last()) + (digits.last() as int - 48)
    }
}

/// The digits are those of a number as it is written: decimal, and no zero at the front but for
/// zero itself.
pub open spec fn is_numeral(digits: Seq<char>, n: int) -> bool {
    &&& digits.len() > 0
    &&& forall|k: int| 0 <= k < digits.len() ==> 48 <= (#[trigger] digits[k]) as int <= 57
    &&& digits[0] as int == 48 ==> digits.len() == 1
    &&& number(digits) == n
}

/// The decimal representation is the numeral.
proof fn lemma_numeral(n: nat)
    ensures
        is_numeral(error::decimal(n), n as int),
        n > 0 ==> error::decimal(n)[0] as int != 48,
    decreases n,
{
    let digits = error::decimal(n);
    if n < 10 {
        assert(digits.drop_last() =~= Seq::empty());
        assert(digits.last() as int == 48 + n);
        assert(number(digits.drop_last()) == 0);
    } else {
        lemma_numeral(n / 10);
        let higher = error::decimal(n / 10);
        assert(digits.drop_last() =~= higher);
        assert(digits.last() as int == 48 + n % 10);
        assert forall|k: int| 0 <= k < digits.len() implies 48 <= (#[trigger] digits[k]) as int
            <= 57 by {
            if k < digits.len() - 1 {
                assert(digits[k] == higher[k]);
            }
        }
        assert(digits[0] == higher[0]);
    }
}

/// The message of an error names the wrong token by its number, and says what is wrong with it.
pub proof fn a_message_names_the_token(e: ParsePatternError, message: String)
    requires
        call_ensures(ParsePatternError::message, (&e,), message),
    ensures
        e.kind is Empty ==> message@ == "pattern string contained no tokens"@,
        e.kind is InvalidLength ==> exists|digits: Seq<char>| #[trigger]
            is_numeral(digits, e.token_index as int) && message@ == "token #"@ + digits
                + " must be two hex digits or `?` / `??`"@,
        e.kind is InvalidHexDigit ==> exists|digits: Seq<char>| #[trigger]
            is_numeral(digits, e.token_index as int) && message@ == "token #"@ + digits
                + " contains a non-hex digit"@,
{
    lemma_numeral(e.token_index as nat);
}

} // verus!
