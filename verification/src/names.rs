//! Cleaning of column names: each name is trimmed, common symbols and
//! letters are spelled out, the text is decomposed (NFKD) and stripped of
//! combining marks, split into lower-case ASCII tokens and formatted in the
//! requested case style; names that come out equal get numeric suffixes.

use crate::text::{
    concat, decimal, is_alnum, is_alpha, is_digit, is_lower, is_upper, join, to_lower, to_upper,
    trim, chars_of, trim_chars, string_of, string_from_chars, char_is_alnum, char_is_alpha,
    char_is_digit, char_is_lower, char_is_upper, char_to_lower, char_to_upper, push_char,
    push_decimal, str_equal, chars_equal, all_ascii, is_ascii_char, upper_all, uppercase,
    str_to_uppercase, trim_start, trim_end, is_white_space,
};
use crate::unicode::{nfkd_string, char_is_combining_mark};
use crate::unicode::{combining_mark, nfkd};
use vstd::prelude::*;

verus! {

/// The message of the error for an unknown case style.
pub const CASE_ERROR: &'static str = "case must be one of: 'snake', 'camel', 'pascal', 'constant'";

#[derive(Debug, Clone, Copy, PartialEq, Eq)]
pub enum CaseStyle {
    Snake,
    Camel,
    Pascal,
    Constant,
}

/// An error of the name cleaner, with its message.
#[derive(Debug)]
pub struct NameError {
    message: String,
}

impl View for NameError {
    type V = Seq<char>;

    closed spec fn view(&self) -> Seq<char> {
        self.message@
    }
}

impl NameError {
    /// An error with the message `message`.
    pub fn new(message: &str) -> (r: NameError)
        ensures
            r@ == message@,
    {
        NameError { message: string_of(message) }
    }

    /// The error's message.
    pub fn message(&self) -> (r: &str)
        ensures
            r@ == self@,
    {
        self.message.as_str()
    }
}

// ---------------------------------------------------------------------------
// Specification
// ---------------------------------------------------------------------------

/// The case style that a case name selects, if any.
pub open spec fn case_style_of(case: Seq<char>) -> Option<CaseStyle> {
    if case == seq!['s', 'n', 'a', 'k', 'e'] {
        Some(CaseStyle::Snake)
    } else if case == seq!['c', 'a', 'm', 'e', 'l'] {
        Some(CaseStyle::Camel)
    } else if case == seq!['p', 'a', 's', 'c', 'a', 'l'] {
        Some(CaseStyle::Pascal)
    } else if case == seq!['c', 'o', 'n', 's', 't', 'a', 'n', 't'] {
        Some(CaseStyle::Constant)
    } else {
        None
    }
}

/// The spelling that replaces a character before normalization.
pub open spec fn translate_char(c: char) -> Seq<char> {
    if c == '\u{df}' {
        seq!['s', 's']
    } else if c == '\u{1e9e}' {
        seq!['S', 'S']
    } else if c == '\u{e6}' {
        seq!['a', 'e']
    } else if c == '\u{c6}' {
        seq!['A', 'E']
    } else if c == '\u{153}' {
        seq!['o', 'e']
    } else if c == '\u{152}' {
        seq!['O', 'E']
    } else if c == '\u{f8}' {
        seq!['o']
    } else if c == '\u{d8}' {
        seq!['O']
    } else if c == '\u{f0}' {
        seq!['d']
    } else if c == '\u{d0}' {
        seq!['D']
    } else if c == '\u{fe}' {
        seq!['t', 'h']
    } else if c == '\u{de}' {
        seq!['T', 'h']
    } else if c == '\u{142}' {
        seq!['l']
    } else if c == '\u{141}' {
        seq!['L']
    } else if c == '%' {
        seq![' ', 'p', 'e', 'r', 'c', 'e', 'n', 't', ' ']
    } else if c == '#' {
        seq![' ', 'n', 'u', 'm', 'b', 'e', 'r', ' ']
    } else if c == '&' {
        seq![' ', 'a', 'n', 'd', ' ']
    } else if c == '@' {
        seq![' ', 'a', 't', ' ']
    } else if c == '+' {
        seq![' ', 'p', 'l', 'u', 's', ' ']
    } else {
        seq![c]
    }
}

/// Every character of `s` replaced by its spelling.
pub open spec fn translate(s: Seq<char>) -> Seq<char>
    decreases s.len(),
{
    if s.len() == 0 {
        Seq::empty()
    } else {
        translate(s.drop_last()) + translate_char(s.last())
    }
}

/// `s` without its combining marks.
pub open spec fn strip_marks(s: Seq<char>) -> Seq<char>
    decreases s.len(),
{
    if s.len() == 0 {
        Seq::empty()
    } else if combining_mark(s.last()) {
        strip_marks(s.drop_last())
    } else {
        strip_marks(s.drop_last()).push(s.last())
    }
}

pub open spec fn char_at(s: Seq<char>, i: int) -> Option<char> {
    if 0 <= i < s.len() {
        Some(s[i])
    } else {
        None
    }
}

/// Whether a token ends between `prev` and `cur` (with `next` after `cur`):
/// before the last capital of a run of capitals that a lower-case letter
/// follows, before a capital that follows a lower-case letter or a digit,
/// and where letters and digits meet.
pub open spec fn token_boundary(prev: char, cur: char, next: Option<char>) -> bool {
    ||| is_upper(prev) && is_upper(cur) && (next matches Some(n) && is_lower(n))
    ||| (is_lower(prev) || is_digit(prev)) && is_upper(cur)
    ||| is_alpha(prev) && is_digit(cur)
    ||| is_digit(prev) && is_alpha(cur)
}

/// Whether a token begins at position `i` of `s`: an ASCII letter or digit
/// at the start, after another character, or at a token boundary.
pub open spec fn starts_token(s: Seq<char>, i: int) -> bool {
    &&& is_alnum(s[i])
    &&& (i == 0 || !is_alnum(s[i - 1]) || token_boundary(s[i - 1], s[i], char_at(s, i + 1)))
}

/// The tokens among the first `n` characters of `s`, each lower-cased: every
/// ASCII letter or digit either starts a new token or extends the last one;
/// every other character only separates tokens.
pub open spec fn tokens_upto(s: Seq<char>, n: nat) -> Seq<Seq<char>>
    decreases n,
{
    if n == 0 {
        Seq::empty()
    } else {
        let prev = tokens_upto(s, (n - 1) as nat);
        let c = s[n - 1];
        if !is_alnum(c) {
            prev
        } else if starts_token(s, n - 1) {
            prev.push(seq![to_lower(c)])
        } else {
            prev.update(prev.len() - 1, prev.last().push(to_lower(c)))
        }
    }
}

pub open spec fn tokenize(s: Seq<char>) -> Seq<Seq<char>> {
    tokens_upto(s, s.len())
}

/// The tokens of a raw name: trimmed, spelled out, decomposed, stripped of
/// marks and split.
pub open spec fn name_tokens(name: Seq<char>) -> Seq<Seq<char>> {
    tokenize(strip_marks(nfkd(translate(trim(name)))))
}

/// The tokens of a name made of 7-bit ASCII only: trimmed, spelled out and
/// split. For such a name this is what `name_tokens` gives, since neither
/// the decomposition nor the removal of marks changes ASCII text (the
/// trusted items in `unicode` state both of every call).
pub open spec fn ascii_name_tokens(name: Seq<char>) -> Seq<Seq<char>> {
    tokenize(translate(trim(name)))
}

/// A token with its first character in upper case.
pub open spec fn capitalize(token: Seq<char>) -> Seq<char> {
    if token.len() == 0 {
        token
    } else {
        seq![to_upper(token[0])] + token.skip(1)
    }
}

/// The tokens written in a case style. Tokens are lower-case ASCII letters
/// or ASCII digits (see `is_clean_token`), so upper-casing them is the ASCII
/// upper-casing; on such text it is also the Unicode one.
pub open spec fn format_tokens_spec(tokens: Seq<Seq<char>>, case: CaseStyle) -> Seq<char> {
    match case {
        CaseStyle::Snake => join(tokens, seq!['_']),
        CaseStyle::Constant => upper_all(join(tokens, seq!['_'])),
        CaseStyle::Camel => tokens[0] + concat(tokens.skip(1).map_values(|t: Seq<char>| capitalize(t))),
        CaseStyle::Pascal => concat(tokens.map_values(|t: Seq<char>| capitalize(t))),
    }
}

/// What goes before a name that starts with a digit.
pub open spec fn identifier_prefix(case: CaseStyle) -> Seq<char> {
    match case {
        CaseStyle::Constant => seq!['X', '_'],
        CaseStyle::Pascal => seq!['X'],
        CaseStyle::Camel => seq!['x'],
        CaseStyle::Snake => seq!['x', '_'],
    }
}

pub open spec fn identifier_start_spec(name: Seq<char>, case: CaseStyle) -> Seq<char> {
    if name.len() > 0 && is_digit(name[0]) {
        identifier_prefix(case) + name
    } else {
        name
    }
}

/// One name cleaned, before duplicates are told apart; a name without
/// tokens becomes `x`.
pub open spec fn clean_one_spec(name: Seq<char>, case: CaseStyle) -> Seq<char> {
    clean_tokens_spec(name_tokens(name), case)
}

/// A name's tokens written in a case style, `x` when there are none, with a
/// prefix when the result would start with a digit.
pub open spec fn clean_tokens_spec(tokens: Seq<Seq<char>>, case: CaseStyle) -> Seq<char> {
    let tokens = if tokens.len() == 0 { seq![seq!['x']] } else { tokens };
    identifier_start_spec(format_tokens_spec(tokens, case), case)
}

/// One 7-bit ASCII name cleaned, before duplicates are told apart.
pub open spec fn clean_one_ascii_spec(name: Seq<char>, case: CaseStyle) -> Seq<char> {
    clean_tokens_spec(ascii_name_tokens(name), case)
}

/// `name` with the numeric suffix `k`.
pub open spec fn with_suffix_spec(name: Seq<char>, k: nat, case: CaseStyle) -> Seq<char> {
    match case {
        CaseStyle::Camel | CaseStyle::Pascal => name + decimal(k),
        CaseStyle::Snake | CaseStyle::Constant => name + seq!['_'] + decimal(k),
    }
}

/// `k` is the least suffix from `start` on whose suffixed name is not in `used`.
pub open spec fn is_first_free(
    used: Set<Seq<char>>,
    name: Seq<char>,
    case: CaseStyle,
    start: nat,
    k: nat,
) -> bool {
    &&& start <= k
    &&& !used.contains(with_suffix_spec(name, k, case))
    &&& forall|j: nat| start <= j < k ==> used.contains(#[trigger] with_suffix_spec(name, j, case))
}

pub open spec fn first_free(used: Set<Seq<char>>, name: Seq<char>, case: CaseStyle, start: nat) -> nat {
    choose|k: nat| is_first_free(used, name, case, start, k)
}

/// The name given to `name` when `used` is taken, trying suffixes from
/// `start` on, and the suffix to try first next time.
pub open spec fn pick_name(used: Set<Seq<char>>, name: Seq<char>, case: CaseStyle, start: nat) -> (
    Seq<char>,
    nat,
) {
    if !used.contains(name) {
        (name, start)
    } else {
        let k = first_free(used, name, case, start);
        (with_suffix_spec(name, k, case), k + 1)
    }
}

/// The names given so far and, for each name met, the suffix to try first
/// when it comes again (2 for a name not met yet).
pub open spec fn dedupe_state(names: Seq<Seq<char>>, case: CaseStyle) -> (
    Seq<Seq<char>>,
    Map<Seq<char>, nat>,
)
    decreases names.len(),
{
    if names.len() == 0 {
        (Seq::empty(), Map::empty())
    } else {
        let prev = dedupe_state(names.drop_last(), case);
        let name = names.last();
        let start = if prev.1.dom().contains(name) {
            prev.1[name]
        } else {
            2
        };
        let picked = pick_name(prev.0.to_set(), name, case, start);
        (prev.0.push(picked.0), prev.1.insert(name, picked.1))
    }
}

pub open spec fn dedupe_spec(names: Seq<Seq<char>>, case: CaseStyle) -> Seq<Seq<char>> {
    dedupe_state(names, case).0
}

pub open spec fn char_views(v: Seq<Vec<char>>) -> Seq<Seq<char>> {
    v.map_values(|t: Vec<char>| t@)
}

pub open spec fn string_views(names: Seq<String>) -> Seq<Seq<char>> {
    names.map_values(|s: String| s@)
}

/// The cleaned names for a sequence of raw names.
pub open spec fn clean_names_spec(names: Seq<Seq<char>>, case: CaseStyle) -> Seq<Seq<char>> {
    dedupe_spec(names.map_values(|n: Seq<char>| clean_one_spec(n, case)), case)
}

/// The cleaned names for a sequence of 7-bit ASCII names: what
/// `make_clean_names` gives for them.
pub open spec fn clean_ascii_names_spec(names: Seq<Seq<char>>, case: CaseStyle) -> Seq<Seq<char>> {
    dedupe_spec(names.map_values(|n: Seq<char>| clean_one_ascii_spec(n, case)), case)
}


// ---------------------------------------------------------------------------
// Implementation
// ---------------------------------------------------------------------------

fn push_all(out: &mut Vec<char>, chars: Vec<char>)
    ensures
        final(out)@ == old(out)@ + chars@,
{
    let n = chars.len();
    let mut i: usize = 0;
    while i < n
        invariant
            n == chars.len(),
            i <= n,
            out@ == old(out)@ + chars@.take(i as int),
        decreases n - i,
    {
        out.push(chars[i]);
        proof {
            assert(chars@.take(i + 1) =~= chars@.take(i as int).push(chars@[i as int]));
        }
        i = i + 1;
    }
    proof {
        assert(chars@.take(n as int) =~= chars@);
    }
}

fn push_translation(out: &mut Vec<char>, c: char)
    ensures
        final(out)@ == old(out)@ + translate_char(c),
{
    if c == '\u{df}' {
        push_all(out, vec!['s', 's']);
    } else if c == '\u{1e9e}' {
        push_all(out, vec!['S', 'S']);
    } else if c == '\u{e6}' {
        push_all(out, vec!['a', 'e']);
    } else if c == '\u{c6}' {
        push_all(out, vec!['A', 'E']);
    } else if c == '\u{153}' {
        push_all(out, vec!['o', 'e']);
    } else if c == '\u{152}' {
        push_all(out, vec!['O', 'E']);
    } else if c == '\u{f8}' {
        push_all(out, vec!['o']);
    } else if c == '\u{d8}' {
        push_all(out, vec!['O']);
    } else if c == '\u{f0}' {
        push_all(out, vec!['d']);
    } else if c == '\u{d0}' {
        push_all(out, vec!['D']);
    } else if c == '\u{fe}' {
        push_all(out, vec!['t', 'h']);
    } else if c == '\u{de}' {
        push_all(out, vec!['T', 'h']);
    } else if c == '\u{142}' {
        push_all(out, vec!['l']);
    } else if c == '\u{141}' {
        push_all(out, vec!['L']);
    } else if c == '%' {
        push_all(out, vec![' ', 'p', 'e', 'r', 'c', 'e', 'n', 't', ' ']);
    } else if c == '#' {
        push_all(out, vec![' ', 'n', 'u', 'm', 'b', 'e', 'r', ' ']);
    } else if c == '&' {
        push_all(out, vec![' ', 'a', 'n', 'd', ' ']);
    } else if c == '@' {
        push_all(out, vec![' ', 'a', 't', ' ']);
    } else if c == '+' {
        push_all(out, vec![' ', 'p', 'l', 'u', 's', ' ']);
    } else {
        out.push(c);
    }
}

/// Spells out the symbols `% # & @ +` as words and replaces letters without
/// a decomposition (such as `ß`, `æ`, `ø`, `ł`) by ASCII.
fn translate_common_symbols_and_letters(value: &Vec<char>) -> (r: Vec<char>)
    ensures
        r@ == translate(value@),
{
    let mut translated: Vec<char> = Vec::new();
    let n = value.len();
    let mut i: usize = 0;
    while i < n
        invariant
            n == value.len(),
            i <= n,
            translated@ == translate(value@.take(i as int)),
        decreases n - i,
    {
        push_translation(&mut translated, value[i]);
        proof {
            assert(value@.take(i + 1).drop_last() =~= value@.take(i as int));
        }
        i = i + 1;
    }
    proof {
        assert(value@.take(n as int) =~= value@);
    }
    translated
}

fn strip_combining_marks(value: &Vec<char>) -> (r: Vec<char>)
    ensures
        r@ == strip_marks(value@),
        all_ascii(value@) ==> r@ == value@,
{
    let mut out: Vec<char> = Vec::new();
    let n = value.len();
    let mut i: usize = 0;
    while i < n
        invariant
            n == value.len(),
            i <= n,
            out@ == strip_marks(value@.take(i as int)),
            all_ascii(value@) ==> out@ == value@.take(i as int),
        decreases n - i,
    {
        if !char_is_combining_mark(value[i]) {
            out.push(value[i]);
        }
        proof {
            assert(value@.take(i + 1).drop_last() =~= value@.take(i as int));
            assert(value@.take(i + 1) =~= value@.take(i as int).push(value@[i as int]));
        }
        i = i + 1;
    }
    proof {
        assert(value@.take(n as int) =~= value@);
    }
    out
}

fn is_token_boundary(previous: char, current: char, next: Option<char>) -> (r: bool)
    ensures
        r == token_boundary(previous, current, next),
{
    if char_is_upper(previous) && char_is_upper(current) && match next {
        Some(n) => char_is_lower(n),
        None => false,
    } {
        return true;
    }
    if (char_is_lower(previous) || char_is_digit(previous)) && char_is_upper(current) {
        return true;
    }
    (char_is_alpha(previous) && char_is_digit(current)) || (char_is_digit(previous)
        && char_is_alpha(current))
}

/// Moves a non-empty `current` token to the end of `output`.
fn push_current(output: &mut Vec<Vec<char>>, current: &mut Vec<char>)
    ensures
        final(current)@ == Seq::<char>::empty(),
        char_views(final(output)@) == if old(current)@.len() == 0 {
            char_views(old(output)@)
        } else {
            char_views(old(output)@).push(old(current)@)
        },
{
    if current.len() > 0 {
        let mut taken: Vec<char> = Vec::new();
        std::mem::swap(&mut taken, current);
        let ghost before = char_views(output@);
        output.push(taken);
        proof {
            assert(char_views(output@) =~= before.push(taken@));
        }
    }
}

/// Splits a text into lower-case tokens of ASCII letters and digits.
pub fn tokenize_ascii(value: &Vec<char>) -> (r: Vec<Vec<char>>)
    ensures
        char_views(r@) == tokenize(value@),
{
    let n = value.len();
    let mut output: Vec<Vec<char>> = Vec::new();
    let mut current: Vec<char> = Vec::new();
    let mut index: usize = 0;
    while index < n
        invariant
            n == value.len(),
            index <= n,
            current@.len() > 0 <==> (index > 0 && is_alnum(value@[index - 1])),
            tokens_upto(value@, index as nat) == if current@.len() == 0 {
                char_views(output@)
            } else {
                char_views(output@).push(current@)
            },
        decreases n - index,
    {
        let ghost prev = tokens_upto(value@, index as nat);
        let character = value[index];
        if !char_is_alnum(character) {
            push_current(&mut output, &mut current);
            proof {
                assert(tokens_upto(value@, (index + 1) as nat) == prev);
            }
        } else {
            let ghost was_empty = current@.len() == 0;
            let mut split = false;
            if current.len() > 0 {
                let previous = value[index - 1];
                let next = if index + 1 < n {
                    Some(value[index + 1])
                } else {
                    None
                };
                proof {
                    assert(next == char_at(value@, index + 1));
                }
                if is_token_boundary(previous, character, next) {
                    push_current(&mut output, &mut current);
                    split = true;
                }
            }
            let ghost outs = char_views(output@);
            let ghost before = current@;
            current.push(char_to_lower(character));
            proof {
                assert(starts_token(value@, index as int) == (was_empty || split));
                if was_empty || split {
                    assert(before.len() == 0);
                    assert(tokens_upto(value@, (index + 1) as nat) == prev.push(seq![to_lower(character)]));
                    assert(prev == outs);
                    assert(current@ =~= seq![to_lower(character)]);
                } else {
                    assert(prev == outs.push(before));
                    assert(tokens_upto(value@, (index + 1) as nat) == prev.update(
                        prev.len() - 1,
                        prev.last().push(to_lower(character)),
                    ));
                    assert(prev.update(prev.len() - 1, prev.last().push(to_lower(character)))
                        =~= outs.push(current@));
                }
            }
        }
        index = index + 1;
    }
    push_current(&mut output, &mut current);
    output
}

/// The tokens of a raw name.
fn tokens(name: &str) -> (r: Vec<Vec<char>>)
    ensures
        char_views(r@) == name_tokens(name@),
        all_clean_tokens(char_views(r@)),
        all_ascii(name@) ==> char_views(r@) == ascii_name_tokens(name@),
{
    let chars = chars_of(name);
    let trimmed = trim_chars(&chars);
    let translated = translate_common_symbols_and_letters(&trimmed);
    let translated = string_from_chars(&translated);
    let normalized = nfkd_string(translated.as_str());
    let normalized = chars_of(normalized.as_str());
    proof {
        if all_ascii(name@) {
            lemma_trim_ascii(name@);
            lemma_translate_ascii(trim(name@));
        }
    }
    tokens_of_decomposed(&normalized)
}

/// The tokens of a name's decomposed text: its combining marks removed,
/// then split into lower-case ASCII tokens.
pub fn tokens_of_decomposed(decomposed: &Vec<char>) -> (r: Vec<Vec<char>>)
    ensures
        char_views(r@) == tokenize(strip_marks(decomposed@)),
        all_clean_tokens(char_views(r@)),
        all_ascii(decomposed@) ==> char_views(r@) == tokenize(decomposed@),
{
    let stripped = strip_combining_marks(decomposed);
    proof {
        lemma_tokenize_clean(stripped@);
    }
    tokenize_ascii(&stripped)
}

proof fn lemma_trim_start_ascii(s: Seq<char>)
    requires
        all_ascii(s),
    ensures
        all_ascii(trim_start(s)),
    decreases s.len(),
{
    if s.len() > 0 && is_white_space(s[0]) {
        let t = s.drop_first();
        assert forall|i: int| 0 <= i < t.len() implies is_ascii_char(#[trigger] t[i]) by {
            assert(t[i] == s[i + 1]);
        }
        lemma_trim_start_ascii(t);
    }
}

proof fn lemma_trim_end_ascii(s: Seq<char>)
    requires
        all_ascii(s),
    ensures
        all_ascii(trim_end(s)),
    decreases s.len(),
{
    if s.len() > 0 && is_white_space(s.last()) {
        let t = s.drop_last();
        assert forall|i: int| 0 <= i < t.len() implies is_ascii_char(#[trigger] t[i]) by {
            assert(t[i] == s[i]);
        }
        lemma_trim_end_ascii(t);
    }
}

/// Trimming 7-bit ASCII text leaves 7-bit ASCII text.
proof fn lemma_trim_ascii(s: Seq<char>)
    requires
        all_ascii(s),
    ensures
        all_ascii(trim(s)),
{
    lemma_trim_start_ascii(s);
    lemma_trim_end_ascii(trim_start(s));
}

/// Spelling out the symbols of 7-bit ASCII text leaves 7-bit ASCII text.
proof fn lemma_translate_ascii(s: Seq<char>)
    requires
        all_ascii(s),
    ensures
        all_ascii(translate(s)),
    decreases s.len(),
{
    if s.len() > 0 {
        let d = s.drop_last();
        assert forall|i: int| 0 <= i < d.len() implies is_ascii_char(#[trigger] d[i]) by {
            assert(d[i] == s[i]);
        }
        lemma_translate_ascii(d);
        let c = s.last();
        assert(is_ascii_char(c));
        let t = translate_char(c);
        assert(all_ascii(t));
        let r = translate(s);
        assert(r == translate(d) + t);
        assert forall|i: int| 0 <= i < r.len() implies is_ascii_char(#[trigger] r[i]) by {
            if i < translate(d).len() {
                assert(r[i] == translate(d)[i]);
            } else {
                assert(r[i] == t[i - translate(d).len()]);
            }
        }
    }
}


/// A token as the tokenizer makes it: non-empty, and either all lower-case
/// ASCII letters or all ASCII digits.
pub open spec fn is_clean_token(t: Seq<char>) -> bool {
    &&& t.len() > 0
    &&& {
        ||| forall|i: int| 0 <= i < t.len() ==> is_lower(#[trigger] t[i])
        ||| forall|i: int| 0 <= i < t.len() ==> is_digit(#[trigger] t[i])
    }
}

pub open spec fn all_clean_tokens(ts: Seq<Seq<char>>) -> bool {
    forall|k: int| 0 <= k < ts.len() ==> is_clean_token(#[trigger] ts[k])
}

pub(crate) proof fn lemma_tokens_upto_clean(s: Seq<char>, n: nat)
    requires
        n <= s.len(),
    ensures
        all_clean_tokens(tokens_upto(s, n)),
        n > 0 && is_alnum(s[n - 1]) ==> {
            let t = tokens_upto(s, n);
            t.len() > 0 && t.last().last() == to_lower(s[n - 1])
        },
    decreases n,
{
    if n > 0 {
        lemma_tokens_upto_clean(s, (n - 1) as nat);
        let prev = tokens_upto(s, (n - 1) as nat);
        let c = s[n - 1];
        let t = tokens_upto(s, n);
        if is_alnum(c) && !starts_token(s, n - 1) {
            let old_last = prev[prev.len() - 1];
            let last = old_last.push(to_lower(c));
            assert(is_clean_token(old_last));
            assert(old_last.last() == to_lower(s[n - 2]));
            assert(is_clean_token(last)) by {
                if is_digit(c) {
                    assert(is_digit(s[n - 2]));
                    assert(is_digit(old_last[old_last.len() - 1]));
                    assert(forall|i: int| 0 <= i < old_last.len() ==> is_digit(#[trigger] old_last[i]));
                    assert(forall|i: int| 0 <= i < last.len() ==> is_digit(#[trigger] last[i])) by {
                        assert forall|i: int| 0 <= i < last.len() implies is_digit(#[trigger] last[i]) by {
                            if i < old_last.len() {
                                assert(last[i] == old_last[i]);
                            }
                        }
                    }
                } else {
                    assert(is_alpha(s[n - 2]));
                    assert(is_lower(old_last[old_last.len() - 1]));
                    assert(forall|i: int| 0 <= i < old_last.len() ==> is_lower(#[trigger] old_last[i]));
                    assert(forall|i: int| 0 <= i < last.len() ==> is_lower(#[trigger] last[i])) by {
                        assert forall|i: int| 0 <= i < last.len() implies is_lower(#[trigger] last[i]) by {
                            if i < old_last.len() {
                                assert(last[i] == old_last[i]);
                            }
                        }
                    }
                }
            }
            assert forall|k: int| 0 <= k < t.len() implies is_clean_token(#[trigger] t[k]) by {
                if k < prev.len() - 1 {
                    assert(t[k] == prev[k]);
                }
            }
        } else if is_alnum(c) {
            let single = seq![to_lower(c)];
            assert(is_clean_token(single)) by {
                if is_digit(c) {
                    assert(forall|i: int| 0 <= i < single.len() ==> is_digit(#[trigger] single[i]));
                } else {
                    assert(forall|i: int| 0 <= i < single.len() ==> is_lower(#[trigger] single[i]));
                }
            }
            assert forall|k: int| 0 <= k < t.len() implies is_clean_token(#[trigger] t[k]) by {
                if k < prev.len() {
                    assert(t[k] == prev[k]);
                }
            }
        }
    }
}

/// The tokenizer yields clean tokens.
pub proof fn lemma_tokenize_clean(s: Seq<char>)
    ensures
        all_clean_tokens(tokenize(s)),
{
    lemma_tokens_upto_clean(s, s.len());
}

fn push_capitalized(out: &mut Vec<char>, token: &Vec<char>)
    ensures
        final(out)@ == old(out)@ + capitalize(token@),
{
    let n = token.len();
    if n == 0 {
        proof {
            assert(old(out)@ + capitalize(token@) =~= old(out)@);
        }
        return;
    }
    out.push(char_to_upper(token[0]));
    let mut i: usize = 1;
    while i < n
        invariant
            n == token.len(),
            1 <= i <= n,
            out@ == old(out)@ + seq![to_upper(token@[0])] + token@.subrange(1, i as int),
        decreases n - i,
    {
        out.push(token[i]);
        proof {
            assert(token@.subrange(1, i + 1) =~= token@.subrange(1, i as int).push(token@[i as int]));
        }
        i = i + 1;
    }
    proof {
        assert(token@.skip(1) =~= token@.subrange(1, n as int));
        assert(old(out)@ + seq![to_upper(token@[0])] + token@.subrange(1, n as int) =~= old(out)@
            + capitalize(token@));
    }
}

fn push_token(out: &mut Vec<char>, token: &Vec<char>)
    ensures
        final(out)@ == old(out)@ + token@,
{
    let n = token.len();
    let mut i: usize = 0;
    while i < n
        invariant
            n == token.len(),
            i <= n,
            out@ == old(out)@ + token@.take(i as int),
        decreases n - i,
    {
        out.push(token[i]);
        proof {
            assert(token@.take(i + 1) =~= token@.take(i as int).push(token@[i as int]));
        }
        i = i + 1;
    }
    proof {
        assert(token@.take(n as int) =~= token@);
    }
}

fn join_underscore(tokens: &Vec<Vec<char>>) -> (r: Vec<char>)
    requires
        tokens.len() > 0,
    ensures
        r@ == join(char_views(tokens@), seq!['_']),
{
    let ghost views = char_views(tokens@);
    let mut out: Vec<char> = Vec::new();
    push_token(&mut out, &tokens[0]);
    proof {
        assert(views.take(1).len() == 1);
        assert(out@ =~= views.take(1)[0]);
    }
    let n = tokens.len();
    let mut i: usize = 1;
    while i < n
        invariant
            n == tokens.len(),
            views == char_views(tokens@),
            1 <= i <= n,
            out@ == join(views.take(i as int), seq!['_']),
        decreases n - i,
    {
        out.push('_');
        push_token(&mut out, &tokens[i]);
        proof {
            let t = views.take(i + 1);
            assert(t.drop_last() =~= views.take(i as int));
            assert(t.last() == tokens@[i as int]@);
        }
        i = i + 1;
    }
    proof {
        assert(views.take(n as int) =~= views);
    }
    out
}

/// Capitalized tokens from position `from` on, appended to `out`.
fn push_capitalized_from(out: &mut Vec<char>, tokens: &Vec<Vec<char>>, from: usize)
    requires
        from <= tokens.len(),
    ensures
        final(out)@ == old(out)@ + concat(
            char_views(tokens@).skip(from as int).map_values(|t: Seq<char>| capitalize(t)),
        ),
{
    let ghost views = char_views(tokens@);
    let n = tokens.len();
    let mut i: usize = from;
    while i < n
        invariant
            n == tokens.len(),
            views == char_views(tokens@),
            from <= i <= n,
            out@ == old(out)@ + concat(
                views.subrange(from as int, i as int).map_values(|t: Seq<char>| capitalize(t)),
            ),
        decreases n - i,
    {
        push_capitalized(out, &tokens[i]);
        proof {
            let m = views.subrange(from as int, i + 1).map_values(|t: Seq<char>| capitalize(t));
            assert(m.drop_last() =~= views.subrange(from as int, i as int).map_values(
                |t: Seq<char>| capitalize(t),
            ));
            assert(m.last() == capitalize(tokens@[i as int]@));
        }
        i = i + 1;
    }
    proof {
        assert(views.skip(from as int) =~= views.subrange(from as int, n as int));
    }
}

/// Clean tokens joined with `_` are 7-bit ASCII text.
proof fn lemma_join_clean_ascii(ts: Seq<Seq<char>>)
    requires
        all_clean_tokens(ts),
    ensures
        all_ascii(join(ts, seq!['_'])),
    decreases ts.len(),
{
    if ts.len() > 1 {
        let d = ts.drop_last();
        assert forall|k: int| 0 <= k < d.len() implies is_clean_token(#[trigger] d[k]) by {
            assert(d[k] == ts[k]);
        }
        lemma_join_clean_ascii(d);
        let jd = join(d, seq!['_']);
        let t = ts.last();
        assert(is_clean_token(t));
        let j = join(ts, seq!['_']);
        assert(j == jd + seq!['_'] + t);
        assert forall|i: int| 0 <= i < j.len() implies is_ascii_char(#[trigger] j[i]) by {
            if i < jd.len() {
                assert(j[i] == jd[i]);
            } else if i > jd.len() {
                assert(j[i] == t[i - jd.len() - 1]);
            }
        }
    } else if ts.len() == 1 {
        assert(is_clean_token(ts[0]));
    }
}

/// The tokens written in a case style: joined with `_` (snake), joined
/// with `_` and upper-cased under the Unicode case mapping (constant), the
/// first token followed by the others capitalized (camel), or all tokens
/// capitalized (pascal); capitalizing upper-cases a first ASCII letter.
/// For clean tokens this is `format_tokens_spec`.
pub fn format_tokens(tokens: &Vec<Vec<char>>, case: CaseStyle) -> (r: Vec<char>)
    requires
        tokens.len() > 0,
    ensures
        !(case is Constant) ==> r@ == format_tokens_spec(char_views(tokens@), case),
        case is Constant ==> r@ == uppercase(join(char_views(tokens@), seq!['_'])),
        all_clean_tokens(char_views(tokens@)) ==> r@ == format_tokens_spec(char_views(tokens@), case),
{
    match case {
        CaseStyle::Snake => join_underscore(tokens),
        CaseStyle::Constant => {
            let joined = join_underscore(tokens);
            let text = string_from_chars(&joined);
            let upper = str_to_uppercase(text.as_str());
            proof {
                if all_clean_tokens(char_views(tokens@)) {
                    lemma_join_clean_ascii(char_views(tokens@));
                }
            }
            chars_of(upper.as_str())
        },
        CaseStyle::Camel => {
            let mut formatted: Vec<char> = Vec::new();
            push_token(&mut formatted, &tokens[0]);
            push_capitalized_from(&mut formatted, tokens, 1);
            formatted
        },
        CaseStyle::Pascal => {
            let mut formatted: Vec<char> = Vec::new();
            push_capitalized_from(&mut formatted, tokens, 0);
            proof {
                assert(char_views(tokens@).skip(0) =~= char_views(tokens@));
            }
            formatted
        },
    }
}

fn ensure_identifier_start(name: Vec<char>, case: CaseStyle) -> (r: Vec<char>)
    ensures
        r@ == identifier_start_spec(name@, case),
{
    if name.len() == 0 || !char_is_digit(name[0]) {
        return name;
    }
    let mut out: Vec<char> = match case {
        CaseStyle::Constant => vec!['X', '_'],
        CaseStyle::Pascal => vec!['X'],
        CaseStyle::Camel => vec!['x'],
        CaseStyle::Snake => vec!['x', '_'],
    };
    push_token(&mut out, &name);
    out
}

/// One name cleaned, before duplicates are told apart.
fn clean_one(name: &str, case: CaseStyle) -> (r: String)
    ensures
        r@ == clean_one_spec(name@, case),
        all_ascii(name@) ==> r@ == clean_one_ascii_spec(name@, case),
{
    let tokens = tokens(name);
    let tokens = if tokens.len() == 0 {
        let mut x: Vec<char> = Vec::new();
        x.push('x');
        let mut t: Vec<Vec<char>> = Vec::new();
        t.push(x);
        proof {
            assert(x@ =~= seq!['x']);
            assert(char_views(t@) =~= seq![seq!['x']]);
            assert(forall|i: int| 0 <= i < x@.len() ==> is_lower(#[trigger] x@[i]));
            assert(is_clean_token(char_views(t@)[0]));
        }
        t
    } else {
        tokens
    };
    let formatted = format_tokens(&tokens, case);
    let started = ensure_identifier_start(formatted, case);
    string_from_chars(&started)
}


// ---------------------------------------------------------------------------
// Telling duplicates apart
// ---------------------------------------------------------------------------

pub open spec fn suffix_prefix(name: Seq<char>, case: CaseStyle) -> Seq<char> {
    match case {
        CaseStyle::Camel | CaseStyle::Pascal => name,
        CaseStyle::Snake | CaseStyle::Constant => name + seq!['_'],
    }
}

pub(crate) proof fn lemma_with_suffix_shape(name: Seq<char>, k: nat, case: CaseStyle)
    ensures
        with_suffix_spec(name, k, case) == suffix_prefix(name, case) + decimal(k),
        with_suffix_spec(name, k, case).len() > name.len(),
{
    crate::text::lemma_decimal_digits(k);
    match case {
        CaseStyle::Camel | CaseStyle::Pascal => {},
        CaseStyle::Snake | CaseStyle::Constant => {},
    }
}

/// Different suffixes give different names.
pub proof fn lemma_with_suffix_injective(name: Seq<char>, a: nat, b: nat, case: CaseStyle)
    requires
        with_suffix_spec(name, a, case) == with_suffix_spec(name, b, case),
    ensures
        a == b,
{
    lemma_with_suffix_shape(name, a, case);
    lemma_with_suffix_shape(name, b, case);
    let p = suffix_prefix(name, case);
    assert((p + decimal(a)).skip(p.len() as int) =~= decimal(a));
    assert((p + decimal(b)).skip(p.len() as int) =~= decimal(b));
    crate::text::lemma_decimal_injective(a, b);
}

/// The suffixed names for the suffixes `lo..hi`.
pub open spec fn suffix_set(name: Seq<char>, case: CaseStyle, lo: nat, hi: nat) -> Set<Seq<char>>
    decreases hi - lo,
{
    if hi <= lo {
        Set::empty()
    } else {
        suffix_set(name, case, lo, (hi - 1) as nat).insert(
            with_suffix_spec(name, (hi - 1) as nat, case),
        )
    }
}

pub(crate) proof fn lemma_suffix_set(name: Seq<char>, case: CaseStyle, lo: nat, hi: nat)
    requires
        lo <= hi,
    ensures
        suffix_set(name, case, lo, hi).finite(),
        suffix_set(name, case, lo, hi).len() == hi - lo,
        forall|x: Seq<char>|
            #[trigger] suffix_set(name, case, lo, hi).contains(x) ==> exists|j: nat|
                lo <= j < hi && x == with_suffix_spec(name, j, case),
        forall|j: nat|
            lo <= j < hi ==> suffix_set(name, case, lo, hi).contains(
                #[trigger] with_suffix_spec(name, j, case),
            ),
    decreases hi - lo,
{
    if hi > lo {
        let h = (hi - 1) as nat;
        lemma_suffix_set(name, case, lo, h);
        let x = with_suffix_spec(name, h, case);
        if suffix_set(name, case, lo, h).contains(x) {
            let j = choose|j: nat| lo <= j < h && x == with_suffix_spec(name, j, case);
            lemma_with_suffix_injective(name, j, h, case);
        }
    }
}

/// When all suffixes `2..hi` are taken, there are at least `hi - 2` names in use.
proof fn lemma_suffix_bound(used: Set<Seq<char>>, name: Seq<char>, case: CaseStyle, hi: nat)
    requires
        used.finite(),
        2 <= hi,
        forall|j: nat| 2 <= j < hi ==> used.contains(#[trigger] with_suffix_spec(name, j, case)),
    ensures
        hi <= used.len() + 2,
{
    lemma_suffix_set(name, case, 2, hi);
    let t = suffix_set(name, case, 2, hi);
    assert(t.subset_of(used)) by {
        assert forall|x: Seq<char>| t.contains(x) implies used.contains(x) by {
            let j = choose|j: nat| 2 <= j < hi && x == with_suffix_spec(name, j, case);
        }
    }
    vstd::set_lib::lemma_len_subset(t, used);
}

proof fn lemma_first_free_unique(
    used: Set<Seq<char>>,
    name: Seq<char>,
    case: CaseStyle,
    start: nat,
    k: nat,
)
    requires
        is_first_free(used, name, case, start, k),
    ensures
        first_free(used, name, case, start) == k,
{
    let c = first_free(used, name, case, start);
    assert(is_first_free(used, name, case, start, c));
    if c < k {
        assert(used.contains(with_suffix_spec(name, c, case)));
    }
    if k < c {
        assert(used.contains(with_suffix_spec(name, k, case)));
    }
}

/// The suffix each name met so far is to try first, from a list where later
/// entries win.
pub open spec fn suffix_map(entries: Seq<(String, u128)>) -> Map<Seq<char>, nat>
    decreases entries.len(),
{
    if entries.len() == 0 {
        Map::empty()
    } else {
        suffix_map(entries.drop_last()).insert(entries.last().0@, entries.last().1 as nat)
    }
}

fn lookup_suffix(entries: &Vec<(String, u128)>, name: &String) -> (r: Option<u128>)
    ensures
        r is Some <==> suffix_map(entries@).dom().contains(name@),
        r matches Some(v) ==> v as nat == suffix_map(entries@)[name@],
{
    let mut j: usize = entries.len();
    proof {
        assert(entries@.take(j as int) =~= entries@);
    }
    while j > 0
        invariant
            j <= entries.len(),
            suffix_map(entries@.take(j as int)).dom().contains(name@) == suffix_map(
                entries@,
            ).dom().contains(name@),
            suffix_map(entries@.take(j as int)).dom().contains(name@) ==> suffix_map(
                entries@.take(j as int),
            )[name@] == suffix_map(entries@)[name@],
        decreases j,
    {
        proof {
            assert(entries@.take(j as int).drop_last() =~= entries@.take(j - 1));
        }
        if entries[j - 1].0 == *name {
            return Some(entries[j - 1].1);
        }
        j = j - 1;
    }
    None
}

fn contains_string(values: &Vec<String>, s: &String) -> (r: bool)
    ensures
        r == string_views(values@).contains(s@),
{
    let n = values.len();
    let mut i: usize = 0;
    while i < n
        invariant
            n == values.len(),
            i <= n,
            forall|k: int| 0 <= k < i ==> values@[k]@ != s@,
        decreases n - i,
    {
        if values[i] == *s {
            proof {
                assert(string_views(values@)[i as int] == s@);
            }
            return true;
        }
        i = i + 1;
    }
    proof {
        if string_views(values@).contains(s@) {
            let k = choose|k: int| 0 <= k < n && string_views(values@)[k] == s@;
        }
    }
    false
}

/// `name` with the numeric suffix `suffix`.
fn with_suffix(name: &String, suffix: u128, case: CaseStyle) -> (r: String)
    ensures
        r@ == with_suffix_spec(name@, suffix as nat, case),
{
    let mut out = name.clone();
    match case {
        CaseStyle::Camel | CaseStyle::Pascal => {},
        CaseStyle::Snake | CaseStyle::Constant => {
            push_char(&mut out, '_');
        },
    }
    push_decimal(&mut out, suffix);
    out
}

/// Gives every name that equals an earlier result a numeric suffix, the
/// smallest free one from where that name's suffixes stopped last time.
pub fn dedupe(names: &Vec<String>, case: CaseStyle) -> (r: Vec<String>)
    ensures
        string_views(r@) == dedupe_spec(string_views(names@), case),
{
    let ghost all = string_views(names@);
    let mut output: Vec<String> = Vec::new();
    let mut next: Vec<(String, u128)> = Vec::new();
    let n = names.len();
    let mut i: usize = 0;
    while i < n
        invariant
            n == names.len(),
            all == string_views(names@),
            i <= n,
            output.len() == i,
            string_views(output@) == dedupe_state(all.take(i as int), case).0,
            suffix_map(next@) == dedupe_state(all.take(i as int), case).1,
            forall|b: Seq<char>|
                #[trigger] suffix_map(next@).dom().contains(b) ==> suffix_map(next@)[b] >= 2,
            forall|b: Seq<char>, j: nat|
                suffix_map(next@).dom().contains(b) && 2 <= j < suffix_map(next@)[b]
                    ==> string_views(output@).contains(#[trigger] with_suffix_spec(b, j, case)),
        decreases n - i,
    {
        let ghost used = string_views(output@);
        let ghost map = suffix_map(next@);
        let name = &names[i];
        let start = match lookup_suffix(&next, name) {
            Some(s) => s,
            None => 2,
        };
        let mut candidate = name.clone();
        let mut suffix = start;
        proof {
            used.lemma_cardinality_of_set();
            vstd::seq_lib::seq_to_set_is_finite(used);
        }
        while contains_string(&output, &candidate)
            invariant
                used == string_views(output@),
                used.len() == i,
                i < n,
                2 <= start <= suffix,
                used.to_set().finite(),
                used.to_set().len() <= i,
                candidate@ == if suffix == start {
                    name@
                } else {
                    with_suffix_spec(name@, (suffix - 1) as nat, case)
                },
                suffix > start ==> used.contains(name@),
                forall|j: nat|
                    2 <= j < start ==> used.contains(#[trigger] with_suffix_spec(name@, j, case)),
                forall|j: nat|
                    start <= j < suffix - 1 ==> used.contains(
                        #[trigger] with_suffix_spec(name@, j, case),
                    ),
            decreases i + 3 - suffix,
        {
            proof {
                assert forall|j: nat| 2 <= j < suffix implies used.to_set().contains(
                    #[trigger] with_suffix_spec(name@, j, case),
                ) by {
                    if j >= start && j == suffix - 1 {
                        assert(used.contains(candidate@));
                    }
                }
                if suffix >= 2 {
                    lemma_suffix_bound(used.to_set(), name@, case, suffix as nat);
                }
            }
            candidate = with_suffix(name, suffix, case);
            suffix = suffix + 1;
        }
        proof {
            let st = dedupe_state(all.take(i as int), case);
            assert(all.take(i + 1).drop_last() =~= all.take(i as int));
            assert(all.take(i + 1).last() == name@);
            let start_spec: nat = if map.dom().contains(name@) { map[name@] } else { 2 };
            assert(start as nat == start_spec);
            if suffix > start {
                assert(used.to_set().contains(name@));
                let k = (suffix - 1) as nat;
                assert(is_first_free(used.to_set(), name@, case, start as nat, k)) by {
                    assert forall|j: nat| start <= j < k implies used.to_set().contains(
                        #[trigger] with_suffix_spec(name@, j, case),
                    ) by {}
                }
                lemma_first_free_unique(used.to_set(), name@, case, start as nat, k);
            } else {
                assert(!used.to_set().contains(name@));
            }
            assert(pick_name(used.to_set(), name@, case, start as nat) == (candidate@, suffix as nat));
        }
        let ghost old_next = next@;
        next.push((name.clone(), suffix));
        output.push(candidate);
        proof {
            assert(next@.drop_last() =~= old_next);
            let new_used = string_views(output@);
            assert(new_used =~= used.push(candidate@));
            assert forall|b: Seq<char>, j: nat|
                suffix_map(next@).dom().contains(b) && 2 <= j < suffix_map(next@)[b]
                    implies new_used.contains(#[trigger] with_suffix_spec(b, j, case)) by {
                let w = with_suffix_spec(b, j, case);
                if b == name@ && j >= start && j >= suffix - 1 {
                    assert(new_used[i as int] == w);
                } else {
                    assert(used.contains(w));
                    let k = choose|k: int| 0 <= k < used.len() && used[k] == w;
                    assert(new_used[k] == w);
                }
            }
        }
        i = i + 1;
    }
    proof {
        assert(all.take(n as int) =~= all);
    }
    output
}


// ---------------------------------------------------------------------------
// Entry points
// ---------------------------------------------------------------------------

fn parse_case(case: &str) -> (r: Result<CaseStyle, NameError>)
    ensures
        match case_style_of(case@) {
            Some(style) => r == Ok::<CaseStyle, NameError>(style),
            None => r is Err && r->Err_0@ == CASE_ERROR@,
        },
{
    proof {
        reveal_strlit("snake");
        reveal_strlit("camel");
        reveal_strlit("pascal");
        reveal_strlit("constant");
        assert("snake"@ =~= seq!['s', 'n', 'a', 'k', 'e']);
        assert("camel"@ =~= seq!['c', 'a', 'm', 'e', 'l']);
        assert("pascal"@ =~= seq!['p', 'a', 's', 'c', 'a', 'l']);
        assert("constant"@ =~= seq!['c', 'o', 'n', 's', 't', 'a', 'n', 't']);
    }
    if str_equal(case, "snake") {
        Ok(CaseStyle::Snake)
    } else if str_equal(case, "camel") {
        Ok(CaseStyle::Camel)
    } else if str_equal(case, "pascal") {
        Ok(CaseStyle::Pascal)
    } else if str_equal(case, "constant") {
        Ok(CaseStyle::Constant)
    } else {
        Err(NameError::new(CASE_ERROR))
    }
}

/// Cleans a list of column names in the case style that `case` names
/// (`snake`, `camel`, `pascal` or `constant`): every name is cleaned on its
/// own, then names that come out equal to an earlier result get numeric
/// suffixes. An unknown case style is refused with `CASE_ERROR`.
pub fn make_clean_names(names: &[String], case: &str) -> (r: Result<Vec<String>, NameError>)
    ensures
        case_style_of(case@) is None ==> r is Err && r->Err_0@ == CASE_ERROR@,
        case_style_of(case@) matches Some(style) ==> r is Ok && string_views(r->Ok_0@)
            == clean_names_spec(string_views(names@), style),
        case_style_of(case@) matches Some(style) ==> ((forall|i: int|
            0 <= i < names@.len() ==> all_ascii(#[trigger] names@[i]@)) ==> string_views(r->Ok_0@)
            == clean_ascii_names_spec(string_views(names@), style)),
{
    let case = match parse_case(case) {
        Ok(style) => style,
        Err(error) => {
            return Err(error);
        },
    };
    let ghost raw = string_views(names@);
    let mut bases: Vec<String> = Vec::new();
    let n = names.len();
    let mut i: usize = 0;
    while i < n
        invariant
            n == names@.len(),
            raw == string_views(names@),
            i <= n,
            bases.len() == i,
            forall|k: int| 0 <= k < i ==> (#[trigger] bases@[k])@ == clean_one_spec(raw[k], case),
            (forall|k: int| 0 <= k < n ==> all_ascii(#[trigger] raw[k])) ==> forall|k: int|
                0 <= k < i ==> (#[trigger] bases@[k])@ == clean_one_ascii_spec(raw[k], case),
        decreases n - i,
    {
        bases.push(clean_one(names[i].as_str(), case));
        i = i + 1;
    }
    proof {
        assert(string_views(bases@) =~= raw.map_values(|x: Seq<char>| clean_one_spec(x, case)));
        if forall|k: int| 0 <= k < n ==> all_ascii(#[trigger] raw[k]) {
            assert(string_views(bases@) =~= raw.map_values(|x: Seq<char>| clean_one_ascii_spec(x, case)));
        }
    }
    Ok(dedupe(&bases, case))
}

} // verus!
