//! Cutting source text into tokens.
//!
//! Each of the characters `( ) + - * /` is a token by itself. Every other run
//! of characters that holds no white space, taken as long as possible, is a
//! token too, whatever it spells: whether a word is a number is for the parser
//! to say.

use vstd::prelude::*;
use vstd::std_specs::iter::IteratorSpec;

verus! {

/// Trusted, not proved: `String::push` of the standard library appends the
/// character `c` to the end of `s` and changes nothing else of it.
pub assume_specification[ String::push ](s: &mut String, c: char)
    ensures
        final(s)@ == old(s)@.push(c),
;

/// Whether `c` is a token by itself: a parenthesis or an operator.
pub open spec fn is_delimiter(c: char) -> bool {
    c == '(' || c == ')' || c == '+' || c == '-' || c == '*' || c == '/'
}

/// Whether `c` is white space: a character with the Unicode property
/// `White_Space`.
pub open spec fn is_whitespace(c: char) -> bool {
    ||| '\u{9}' <= c <= '\u{D}'
    ||| c == ' '
    ||| c == '\u{85}'
    ||| c == '\u{A0}'
    ||| c == '\u{1680}'
    ||| '\u{2000}' <= c <= '\u{200A}'
    ||| c == '\u{2028}'
    ||| c == '\u{2029}'
    ||| c == '\u{202F}'
    ||| c == '\u{205F}'
    ||| c == '\u{3000}'
}

/// Whether `c` can stand inside a word: it is neither white space nor a token
/// by itself.
pub open spec fn is_word_char(c: char) -> bool {
    !is_delimiter(c) && !is_whitespace(c)
}

/// The number of word characters that `text` begins with.
pub open spec fn word_len(text: Seq<char>) -> nat
    decreases text.len(),
{
    if text.len() == 0 || !is_word_char(text[0]) {
        0
    } else {
        1 + word_len(text.skip(1))
    }
}

/// The leading word of a text is no longer than the text.
pub proof fn lemma_word_len_bound(text: Seq<char>)
    ensures
        word_len(text) <= text.len(),
    decreases text.len(),
{
    if text.len() > 0 && is_word_char(text[0]) {
        lemma_word_len_bound(text.skip(1));
    }
}

/// The tokens of `text`, in order. White space separates tokens and belongs
/// to none; a delimiter is a token of one character; a word is the longest
/// run of word characters from where it begins.
pub open spec fn tokens(text: Seq<char>) -> Seq<Seq<char>>
    decreases text.len(),
{
    if text.len() == 0 {
        Seq::empty()
    } else if is_whitespace(text[0]) {
        tokens(text.skip(1))
    } else if is_delimiter(text[0]) {
        seq![seq![text[0]]] + tokens(text.skip(1))
    } else {
        proof {
            lemma_word_len_bound(text);
        }
        seq![text.take(word_len(text) as int)] + tokens(text.skip(word_len(text) as int))
    }
}

/// What a list of strings spells: the characters of each, in order.
pub open spec fn texts(strings: Seq<String>) -> Seq<Seq<char>> {
    strings.map_values(|s: String| s@)
}

/// A run of word characters that ends at a character of another kind, or at
/// the end of the text, is the leading word.
pub proof fn lemma_word_len_is(text: Seq<char>, n: int)
    requires
        0 <= n <= text.len(),
        forall|k: int| 0 <= k < n ==> is_word_char(#[trigger] text[k]),
        n == text.len() || !is_word_char(text[n]),
    ensures
        word_len(text) == n,
    decreases n,
{
    if n > 0 {
        let rest = text.skip(1);
        assert forall|k: int| 0 <= k < n - 1 implies is_word_char(#[trigger] rest[k]) by {
            assert(rest[k] == text[k + 1]);
        }
        lemma_word_len_is(rest, n - 1);
    }
}

/// The tokens from the beginning of a word onward are that word, when it is
/// not empty, and then the tokens from its end onward.
pub proof fn lemma_tokens_after_word(text: Seq<char>, from: int, to: int)
    requires
        0 <= from <= to <= text.len(),
        forall|k: int| from <= k < to ==> is_word_char(#[trigger] text[k]),
        to == text.len() || !is_word_char(text[to]),
    ensures
        tokens(text.skip(from)) == if from < to {
            seq![text.subrange(from, to)] + tokens(text.skip(to))
        } else {
            tokens(text.skip(to))
        },
{
    if from < to {
        let tail = text.skip(from);
        assert forall|k: int| 0 <= k < to - from implies is_word_char(#[trigger] tail[k]) by {
            assert(tail[k] == text[from + k]);
        }
        lemma_word_len_is(tail, to - from);
        assert(tail.take(to - from) =~= text.subrange(from, to));
        assert(tail.skip(to - from) =~= text.skip(to));
    }
}

/// Whether `c` is a parenthesis or an operator.
pub fn delimiter(c: char) -> (r: bool)
    ensures
        r == is_delimiter(c),
{
    c == '(' || c == ')' || c == '+' || c == '-' || c == '*' || c == '/'
}

/// Whether `c` is white space.
pub fn whitespace(c: char) -> (r: bool)
    ensures
        r == is_whitespace(c),
{
    ('\u{9}' <= c && c <= '\u{D}') || c == ' ' || c == '\u{85}' || c == '\u{A0}' || c
        == '\u{1680}' || ('\u{2000}' <= c && c <= '\u{200A}') || c == '\u{2028}' || c
        == '\u{2029}' || c == '\u{202F}' || c == '\u{205F}' || c == '\u{3000}'
}

/// Whether `input` holds nothing but white space.
pub fn is_blank(input: &str) -> (r: bool)
    ensures
        r == forall|i: int| 0 <= i < input@.len() ==> is_whitespace(#[trigger] input@[i]),
{
    for c in it: input.chars()
        invariant
            it.seq() == input@,
            forall|i: int| 0 <= i < it.index() ==> is_whitespace(#[trigger] input@[i]),
    {
        if !whitespace(c) {
            return false;
        }
    }
    true
}

/// Cuts `input` into its tokens.
pub fn tokenize(input: &str) -> (out: Vec<String>)
    ensures
        texts(out@) == tokens(input@),
{
    let mut out: Vec<String> = Vec::new();
    let mut word = String::new();
    assert(texts(out@) =~= Seq::<Seq<char>>::empty());
    assert(input@.skip(0) =~= input@);
    assert(input@.subrange(0, 0) =~= word@);
    for c in it: input.chars()
        invariant
            it.seq() == input@,
            word@.len() <= it.index(),
            word@ == input@.subrange(it.index() - word@.len(), it.index() as int),
            forall|k: int| 0 <= k < word@.len() ==> is_word_char(#[trigger] word@[k]),
            texts(out@) + tokens(input@.skip(it.index() - word@.len())) == tokens(input@),
    {
        let ghost at = it.index();
        let ghost from = at - word@.len();
        let is_delim = delimiter(c);
        if is_delim || whitespace(c) {
            proof {
                assert forall|k: int| from <= k < at implies is_word_char(
                    #[trigger] input@[k],
                ) by {
                    assert(input@[k] == word@[k - from]);
                }
                lemma_tokens_after_word(input@, from, at);
                assert(input@.skip(at).skip(1) =~= input@.skip(at + 1));
                assert(input@.skip(at)[0] == c);
            }
            if !word.as_str().is_empty() {
                let ghost before = out@;
                out.push(word);
                assert(texts(out@) =~= texts(before).push(word@));
                word = String::new();
            }
            if is_delim {
                let ghost before = out@;
                let mut symbol = String::new();
                symbol.push(c);
                out.push(symbol);
                assert(symbol@ =~= seq![c]);
                assert(texts(out@) =~= texts(before).push(symbol@));
            }
            assert(input@.subrange(at + 1, at + 1) =~= word@);
            assert(texts(out@) + tokens(input@.skip(at + 1)) =~= tokens(input@));
        } else {
            word.push(c);
            assert(word@ =~= input@.subrange(from, at + 1));
        }
    }
    proof {
        let end = input@.len() as int;
        let from = end - word@.len();
        assert forall|k: int| from <= k < end implies is_word_char(#[trigger] input@[k]) by {
            assert(input@[k] == word@[k - from]);
        }
        lemma_tokens_after_word(input@, from, end);
        assert(input@.skip(end) =~= Seq::<char>::empty());
    }
    if !word.as_str().is_empty() {
        let ghost before = out@;
        out.push(word);
        assert(texts(out@) =~= texts(before).push(word@));
    }
    assert(texts(out@) =~= tokens(input@));
    out
}

/// Whether `token` is a word: word characters, one or more.
pub open spec fn is_word(token: Seq<char>) -> bool {
    token.len() > 0 && forall|i: int| 0 <= i < token.len() ==> is_word_char(#[trigger] token[i])
}

/// Whether `token` has the form of a token: a word, or one delimiter.
pub open spec fn is_token(token: Seq<char>) -> bool {
    is_word(token) || (token.len() == 1 && is_delimiter(token[0]))
}

/// Whether `gap` holds nothing but white space.
pub open spec fn is_gap(gap: Seq<char>) -> bool {
    forall|i: int| 0 <= i < gap.len() ==> is_whitespace(#[trigger] gap[i])
}

/// White space in front of a text adds no token.
pub proof fn lemma_tokens_after_gap(gap: Seq<char>, text: Seq<char>)
    requires
        is_gap(gap),
    ensures
        tokens(gap + text) == tokens(text),
    decreases gap.len(),
{
    if gap.len() == 0 {
        assert(gap + text =~= text);
    } else {
        assert((gap + text)[0] == gap[0]);
        assert((gap + text).skip(1) =~= gap.skip(1) + text);
        assert forall|i: int| 0 <= i < gap.skip(1).len() implies is_whitespace(
            #[trigger] gap.skip(1)[i],
        ) by {
            assert(gap.skip(1)[i] == gap[i + 1]);
        }
        lemma_tokens_after_gap(gap.skip(1), text);
    }
}

/// A delimiter in front of a text is the first token, whatever follows.
pub proof fn lemma_tokens_after_delimiter(c: char, text: Seq<char>)
    requires
        is_delimiter(c),
    ensures
        tokens(seq![c] + text) == seq![seq![c]] + tokens(text),
{
    let whole = seq![c] + text;
    assert(whole[0] == c);
    assert(whole.skip(1) =~= text);
}

/// A word in front of a text is the first token, provided that the text does
/// not go on with a word character.
pub proof fn lemma_tokens_after_word_text(word: Seq<char>, text: Seq<char>)
    requires
        is_word(word),
        text.len() == 0 || !is_word_char(text[0]),
    ensures
        tokens(word + text) == seq![word] + tokens(text),
{
    let whole = word + text;
    let n = word.len() as int;
    assert forall|k: int| 0 <= k < n implies is_word_char(#[trigger] whole[k]) by {
        assert(whole[k] == word[k]);
    }
    assert(n < whole.len() ==> whole[n] == text[0]);
    lemma_word_len_is(whole, n);
    assert(whole[0] == word[0]);
    assert(whole.take(n) =~= word);
    assert(whole.skip(n) =~= text);
}

/// Every token of a text has the form of a token.
pub proof fn lemma_tokens_are_tokens(text: Seq<char>)
    ensures
        forall|i: int| 0 <= i < tokens(text).len() ==> is_token(#[trigger] tokens(text)[i]),
    decreases text.len(),
{
    if text.len() == 0 {
        assert(tokens(text).len() == 0);
    } else if is_whitespace(text[0]) {
        lemma_tokens_are_tokens(text.skip(1));
        assert(tokens(text) == tokens(text.skip(1)));
    } else if is_delimiter(text[0]) {
        let others = tokens(text.skip(1));
        lemma_tokens_are_tokens(text.skip(1));
        let first = seq![text[0]];
        assert(first[0] == text[0]);
        assert(is_token(first));
        assert forall|i: int| 0 <= i < tokens(text).len() implies is_token(
            #[trigger] tokens(text)[i],
        ) by {
            if i > 0 {
                assert(tokens(text)[i] == others[i - 1]);
            }
        }
    } else {
        lemma_word_len_bound(text);
        lemma_word_chars(text);
        let n = word_len(text) as int;
        let others = tokens(text.skip(n));
        lemma_tokens_are_tokens(text.skip(n));
        assert(is_word(text.take(n)));
        assert forall|i: int| 0 <= i < tokens(text).len() implies is_token(
            #[trigger] tokens(text)[i],
        ) by {
            if i > 0 {
                assert(tokens(text)[i] == others[i - 1]);
            }
        }
    }
}

/// The characters that `word_len` counts are word characters, and the one
/// after them, if there is one, is not.
pub proof fn lemma_word_chars(text: Seq<char>)
    ensures
        word_len(text) <= text.len(),
        forall|k: int| 0 <= k < word_len(text) ==> is_word_char(#[trigger] text[k]),
        word_len(text) < text.len() ==> !is_word_char(text[word_len(text) as int]),
    decreases text.len(),
{
    if text.len() > 0 && is_word_char(text[0]) {
        let tail = text.skip(1);
        lemma_word_chars(tail);
        assert forall|k: int| 0 <= k < word_len(text) implies is_word_char(
            #[trigger] text[k],
        ) by {
            if k > 0 {
                assert(text[k] == tail[k - 1]);
            }
        }
        if word_len(text) < text.len() {
            assert(text[word_len(text) as int] == tail[word_len(tail) as int]);
        }
    }
}

/// The text that writes `toks` one after the other, a single space between
/// neighbours.
pub open spec fn spelled(toks: Seq<Seq<char>>) -> Seq<char>
    decreases toks.len(),
{
    if toks.len() == 0 {
        Seq::empty()
    } else if toks.len() == 1 {
        toks[0]
    } else {
        toks[0] + seq![' '] + spelled(toks.skip(1))
    }
}

/// Tokens written out with spaces between them are read back as they were.
pub proof fn lemma_spelled_reads_back(toks: Seq<Seq<char>>)
    requires
        forall|i: int| 0 <= i < toks.len() ==> is_token(#[trigger] toks[i]),
    ensures
        tokens(spelled(toks)) == toks,
    decreases toks.len(),
{
    if toks.len() > 0 {
        let first = toks[0];
        let others = toks.skip(1);
        let tail: Seq<char> = if toks.len() == 1 {
            Seq::empty()
        } else {
            seq![' '] + spelled(others)
        };
        assert(spelled(toks) =~= first + tail);
        assert forall|i: int| 0 <= i < others.len() implies is_token(#[trigger] others[i]) by {
            assert(others[i] == toks[i + 1]);
        }
        lemma_spelled_reads_back(others);
        if toks.len() == 1 {
            assert(tokens(tail) =~= others);
        } else {
            assert(is_gap(seq![' ']));
            lemma_tokens_after_gap(seq![' '], spelled(others));
            assert(tail[0] == ' ');
        }
        assert(is_token(first));
        if is_word(first) {
            lemma_tokens_after_word_text(first, tail);
        } else {
            assert(first =~= seq![first[0]]);
            lemma_tokens_after_delimiter(first[0], tail);
        }
        assert(seq![first] + others =~= toks);
    }
}

/// `text` with a space set before and after each delimiter.
pub open spec fn padded(text: Seq<char>) -> Seq<char>
    decreases text.len(),
{
    if text.len() == 0 {
        Seq::empty()
    } else if is_delimiter(text[0]) {
        seq![' ', text[0], ' '] + padded(text.skip(1))
    } else {
        seq![text[0]] + padded(text.skip(1))
    }
}

/// The number of characters other than white space that `text` begins with.
pub open spec fn run_len(text: Seq<char>) -> nat
    decreases text.len(),
{
    if text.len() == 0 || is_whitespace(text[0]) {
        0
    } else {
        1 + run_len(text.skip(1))
    }
}

/// A leading run is no longer than the text.
pub proof fn lemma_run_len_bound(text: Seq<char>)
    ensures
        run_len(text) <= text.len(),
    decreases text.len(),
{
    if text.len() > 0 && !is_whitespace(text[0]) {
        lemma_run_len_bound(text.skip(1));
    }
}

/// The pieces into which white space divides `text`: the runs of other
/// characters, each as long as possible.
pub open spec fn words(text: Seq<char>) -> Seq<Seq<char>>
    decreases text.len(),
{
    if text.len() == 0 {
        Seq::empty()
    } else if is_whitespace(text[0]) {
        words(text.skip(1))
    } else {
        proof {
            lemma_run_len_bound(text);
        }
        seq![text.take(run_len(text) as int)] + words(text.skip(run_len(text) as int))
    }
}

/// A run that ends at white space, or at the end of the text, is the leading
/// run.
proof fn lemma_run_len_is(text: Seq<char>, n: int)
    requires
        0 <= n <= text.len(),
        forall|k: int| 0 <= k < n ==> !is_whitespace(#[trigger] text[k]),
        n == text.len() || is_whitespace(text[n]),
    ensures
        run_len(text) == n,
    decreases n,
{
    if n > 0 {
        let tail = text.skip(1);
        assert forall|k: int| 0 <= k < n - 1 implies !is_whitespace(#[trigger] tail[k]) by {
            assert(tail[k] == text[k + 1]);
        }
        lemma_run_len_is(tail, n - 1);
    }
}

/// Padding leaves a leading word as it is.
proof fn lemma_padded_after_word(text: Seq<char>, n: int)
    requires
        0 <= n <= text.len(),
        forall|k: int| 0 <= k < n ==> is_word_char(#[trigger] text[k]),
    ensures
        padded(text) == text.take(n) + padded(text.skip(n)),
    decreases n,
{
    if n == 0 {
        assert(text.skip(0) =~= text);
        assert(text.take(0) + padded(text) =~= padded(text));
    } else {
        let tail = text.skip(1);
        assert forall|k: int| 0 <= k < n - 1 implies is_word_char(#[trigger] tail[k]) by {
            assert(tail[k] == text[k + 1]);
        }
        lemma_padded_after_word(tail, n - 1);
        assert(is_word_char(text[0]));
        assert(tail.skip(n - 1) =~= text.skip(n));
        assert(seq![text[0]] + (tail.take(n - 1) + padded(text.skip(n))) =~= text.take(n) + padded(
            text.skip(n),
        ));
    }
}

/// Padded text begins with white space wherever the text itself does not
/// begin with a word character.
proof fn lemma_padded_begins(text: Seq<char>)
    requires
        text.len() > 0,
        !is_word_char(text[0]),
    ensures
        padded(text).len() > 0,
        is_whitespace(padded(text)[0]),
{
    if is_delimiter(text[0]) {
        assert(padded(text)[0] == ' ');
    } else {
        assert(padded(text)[0] == text[0]);
    }
}

/// The tokens of a text are what white space divides it into once every
/// delimiter has a space on either side.
pub proof fn theorem_tokens_by_padding(text: Seq<char>)
    ensures
        tokens(text) == words(padded(text)),
    decreases text.len(),
{
    if text.len() == 0 {
    } else if is_whitespace(text[0]) {
        let p = padded(text.skip(1));
        theorem_tokens_by_padding(text.skip(1));
        assert(padded(text)[0] == text[0]);
        assert(padded(text).skip(1) =~= p);
    } else if is_delimiter(text[0]) {
        let c = text[0];
        let p = padded(text.skip(1));
        theorem_tokens_by_padding(text.skip(1));
        let whole = padded(text);
        assert(whole[0] == ' ' && whole[1] == c && whole[2] == ' ');
        let second = whole.skip(1);
        assert(second[0] == c && second[1] == ' ');
        assert(words(whole) == words(second));
        lemma_run_len_is(second, 1);
        assert(second.take(1) =~= seq![c]);
        let third = second.skip(1);
        assert(third[0] == ' ');
        assert(third.skip(1) =~= p);
        assert(words(third) == words(p));
    } else {
        lemma_word_chars(text);
        let n = word_len(text) as int;
        let word = text.take(n);
        let tail = text.skip(n);
        let p = padded(tail);
        theorem_tokens_by_padding(tail);
        lemma_padded_after_word(text, n);
        let whole = word + p;
        if tail.len() > 0 {
            assert(tail[0] == text[n]);
            lemma_padded_begins(tail);
            assert(whole[n] == p[0]);
        } else {
            assert(p.len() == 0);
        }
        assert forall|k: int| 0 <= k < n implies !is_whitespace(#[trigger] whole[k]) by {
            assert(whole[k] == text[k]);
        }
        lemma_run_len_is(whole, n);
        assert(whole[0] == text[0]);
        assert(whole.take(n) =~= word);
        assert(whole.skip(n) =~= p);
    }
}

} // verus!
