//! The scanner: from the text of a pattern to its tokens.

use vstd::prelude::*;

use crate::error::RegexError;
use crate::parser::character_class::{spec_class_at, CharacterClass, ClassModel, lemma_class_advances};
use crate::text::{char_at, scalars};
use crate::unicode::{
    copy_categories, spec_categories_named, spec_category_group, spec_digit_categories,
    UnicodeCategory,
};

verus! {

/// Mathematical value of a token.
pub enum TokenModel {
    AnyCharacter,
    UnicodeCharacterClass(Seq<UnicodeCategory>),
    NegatedUnicodeCharacterClass(Seq<UnicodeCategory>),
    NonUnicodeCharacterClass(ClassModel),
    Literal(char),
    Alternation,
    OpenGroup,
    CloseGroup,
    Repetition { min: Option<u64>, max: Option<u64> },
}

/// A token of a pattern.
#[derive(Debug, Eq, PartialEq)]
pub enum RegexToken {
    AnyCharacter,
    UnicodeCharacterClass(Vec<UnicodeCategory>),
    NegatedUnicodeCharacterClass(Vec<UnicodeCategory>),
    NonUnicodeCharacterClass(CharacterClass),
    Literal(char),
    Alternation,
    OpenGroup,
    CloseGroup,
    Repetition { min: Option<u64>, max: Option<u64> },
}

impl View for RegexToken {
    type V = TokenModel;

    open spec fn view(&self) -> TokenModel {
        match self {
            RegexToken::AnyCharacter => TokenModel::AnyCharacter,
            RegexToken::UnicodeCharacterClass(categories) => TokenModel::UnicodeCharacterClass(
                categories@,
            ),
            RegexToken::NegatedUnicodeCharacterClass(categories) =>
                TokenModel::NegatedUnicodeCharacterClass(categories@),
            RegexToken::NonUnicodeCharacterClass(class) => TokenModel::NonUnicodeCharacterClass(
                class@,
            ),
            RegexToken::Literal(c) => TokenModel::Literal(*c),
            RegexToken::Alternation => TokenModel::Alternation,
            RegexToken::OpenGroup => TokenModel::OpenGroup,
            RegexToken::CloseGroup => TokenModel::CloseGroup,
            RegexToken::Repetition { min, max } => TokenModel::Repetition { min: *min, max: *max },
        }
    }
}

/// What an attempt to read one token gives: nothing, a token with the
/// position after it, or an error.
pub type TokenAttempt = Result<Option<(TokenModel, int)>, RegexError>;

/// The first attempt unless it found nothing, else the second.
pub open spec fn or_else(first: TokenAttempt, second: TokenAttempt) -> TokenAttempt {
    match first {
        Ok(None) => second,
        _ => first,
    }
}

/// The token that is the single scalar `c`, where there is one.
pub open spec fn spec_static_token(c: char) -> Option<TokenModel> {
    if c == '(' {
        Some(TokenModel::OpenGroup)
    } else if c == ')' {
        Some(TokenModel::CloseGroup)
    } else if c == '.' {
        Some(TokenModel::AnyCharacter)
    } else if c == '*' {
        Some(TokenModel::Repetition { min: Some(0), max: None })
    } else if c == '+' {
        Some(TokenModel::Repetition { min: Some(1), max: None })
    } else if c == '?' {
        Some(TokenModel::Repetition { min: Some(0), max: Some(1) })
    } else if c == '|' {
        Some(TokenModel::Alternation)
    } else {
        None
    }
}

/// The one-scalar token at `pos`, where `s[pos]` is `prefix`.
pub open spec fn spec_static_prefix(s: Seq<char>, pos: int, prefix: char) -> TokenAttempt {
    if 0 <= pos < s.len() && s[pos] == prefix && spec_static_token(prefix) is Some {
        Ok(Some((spec_static_token(prefix)->Some_0, pos + 1)))
    } else {
        Ok(None)
    }
}

/// Whether `s` holds a backslash at `pos` and `marker` after it.
pub open spec fn escape_at(s: Seq<char>, pos: int, marker: char) -> bool {
    0 <= pos && pos + 1 < s.len() && s[pos] == '\\' && s[pos + 1] == marker
}

/// A class of categories, negated or not, as a token.
pub open spec fn category_token(negated: bool, categories: Seq<UnicodeCategory>) -> TokenModel {
    if negated {
        TokenModel::NegatedUnicodeCharacterClass(categories)
    } else {
        TokenModel::UnicodeCharacterClass(categories)
    }
}

/// `\d` (or `\D`, where `negated`) at `pos`.
pub open spec fn spec_digit(s: Seq<char>, pos: int, negated: bool) -> TokenAttempt {
    if escape_at(s, pos, if negated { 'D' } else { 'd' }) {
        Ok(Some((category_token(negated, spec_digit_categories()), pos + 2)))
    } else {
        Ok(None)
    }
}

/// The first position from `from` on that holds `target`, or the length of
/// `s` where none does.
pub open spec fn spec_find(s: Seq<char>, from: int, target: char) -> int
    decreases s.len() - from,
{
    if from < 0 || from >= s.len() {
        s.len() as int
    } else if s[from] == target {
        from
    } else {
        spec_find(s, from + 1, target)
    }
}

/// `\p{Name}` (or `\P{Name}`, where `negated`) at `pos`.
pub open spec fn spec_multi_letter(s: Seq<char>, pos: int, negated: bool) -> TokenAttempt {
    if escape_at(s, pos, if negated { 'P' } else { 'p' }) && pos + 2 < s.len() && s[pos + 2]
        == '{' {
        let end = spec_find(s, pos + 3, '}');
        if end >= s.len() {
            Err(RegexError::UnterminatedClassName { position: pos as usize })
        } else {
            match spec_categories_named(s.subrange(pos + 3, end)) {
                Some(categories) => Ok(Some((category_token(negated, categories), end + 1))),
                None => Err(RegexError::UnknownClassName { position: pos as usize }),
            }
        }
    } else {
        Ok(None)
    }
}

/// `\pX` (or `\PX`, where `negated`) at `pos`.
pub open spec fn spec_one_letter(s: Seq<char>, pos: int, negated: bool) -> TokenAttempt {
    if escape_at(s, pos, if negated { 'P' } else { 'p' }) && pos + 2 < s.len() {
        match spec_category_group(s[pos + 2]) {
            Some(categories) => Ok(Some((category_token(negated, categories), pos + 3))),
            None => Err(RegexError::UnknownClassName { position: pos as usize }),
        }
    } else {
        Ok(None)
    }
}

/// A bracket expression at `pos` as a token.
pub open spec fn spec_class_token(s: Seq<char>, pos: int) -> TokenAttempt {
    match spec_class_at(s, pos) {
        Ok(Some((class, next))) => Ok(Some((TokenModel::NonUnicodeCharacterClass(class), next))),
        Ok(None) => Ok(None),
        Err(error) => Err(error),
    }
}

/// The value of a decimal digit.
pub open spec fn digit_value(c: char) -> Option<u64> {
    if 48 <= c as u32 <= 57 {
        Some((c as u32 - 48) as u64)
    } else {
        None
    }
}

/// The number that a run of decimal digits writes, where every scalar is a
/// digit and the number fits 64 bits; the empty run writes zero.
pub open spec fn spec_decimal(digits: Seq<char>) -> Option<u64>
    decreases digits.len(),
{
    if digits.len() == 0 {
        Some(0)
    } else {
        match (spec_decimal(digits.drop_last()), digit_value(digits.last())) {
            (Some(front), Some(digit)) => if front * 10 + digit <= u64::MAX {
                Some((front * 10 + digit) as u64)
            } else {
                None
            },
            _ => None,
        }
    }
}

/// A number: a run of at least one digit.
pub open spec fn spec_number(digits: Seq<char>) -> Option<u64> {
    if digits.len() == 0 {
        None
    } else {
        spec_decimal(digits)
    }
}

/// One side of a repetition with a comma: empty for no bound, else a number.
pub open spec fn spec_bound(digits: Seq<char>, position: int) -> Result<Option<u64>, RegexError> {
    if digits.len() == 0 {
        Ok(None)
    } else {
        match spec_decimal(digits) {
            Some(number) => Ok(Some(number)),
            None => Err(RegexError::InvalidRepetitionBound { position: position as usize }),
        }
    }
}

/// `{n}`, `{n,}`, `{,m}` or `{n,m}` at `pos`.
pub open spec fn spec_repetition(s: Seq<char>, pos: int) -> TokenAttempt {
    if 0 <= pos < s.len() && s[pos] == '{' {
        let end = spec_find(s, pos + 1, '}');
        let comma = spec_find(s, pos + 1, ',');
        if end >= s.len() {
            Err(RegexError::UnterminatedRepetition { position: pos as usize })
        } else if comma >= end {
            match spec_number(s.subrange(pos + 1, end)) {
                Some(number) => Ok(
                    Some((TokenModel::Repetition { min: Some(number), max: Some(number) }, end + 1)),
                ),
                None => Err(RegexError::InvalidRepetitionBound { position: pos as usize }),
            }
        } else if spec_find(s, comma + 1, ',') < end {
            Err(RegexError::TooManyCommas { position: pos as usize })
        } else {
            match spec_bound(s.subrange(pos + 1, comma), pos) {
                Err(error) => Err(error),
                Ok(min) => match spec_bound(s.subrange(comma + 1, end), pos) {
                    Err(error) => Err(error),
                    Ok(max) => Ok(Some((TokenModel::Repetition { min, max }, end + 1))),
                },
            }
        }
    } else {
        Ok(None)
    }
}

/// The scalars that have a meaning of their own in a pattern.
pub open spec fn is_special(c: char) -> bool {
    c == '.' || c == '*' || c == '+' || c == '?' || c == '|' || c == '(' || c == ')' || c == '{'
        || c == '}' || c == '[' || c == ']' || c == '\\'
}

/// Any other scalar stands for itself.
pub open spec fn spec_literal(s: Seq<char>, pos: int) -> TokenAttempt {
    if 0 <= pos < s.len() && !is_special(s[pos]) {
        Ok(Some((TokenModel::Literal(s[pos]), pos + 1)))
    } else {
        Ok(None)
    }
}

/// The token at `pos`: the first of the token forms that applies. The braced
/// form of a class name is tried before the one-letter form.
pub open spec fn spec_token_at(s: Seq<char>, pos: int) -> TokenAttempt {
    or_else(
        spec_static_prefix(s, pos, '('),
        or_else(
            spec_static_prefix(s, pos, ')'),
            or_else(
                spec_static_prefix(s, pos, '.'),
                or_else(
                    spec_static_prefix(s, pos, '*'),
                    or_else(
                        spec_static_prefix(s, pos, '+'),
                        or_else(
                            spec_static_prefix(s, pos, '?'),
                            or_else(
                                spec_static_prefix(s, pos, '|'),
                                or_else(
                                    spec_digit(s, pos, false),
                                    or_else(
                                        spec_digit(s, pos, true),
                                        or_else(
                                            spec_multi_letter(s, pos, false),
                                            or_else(
                                                spec_one_letter(s, pos, false),
                                                or_else(
                                                    spec_multi_letter(s, pos, true),
                                                    or_else(
                                                        spec_one_letter(s, pos, true),
                                                        or_else(
                                                            spec_class_token(s, pos),
                                                            or_else(
                                                                spec_repetition(s, pos),
                                                                spec_literal(s, pos),
                                                            ),
                                                        ),
                                                    ),
                                                ),
                                            ),
                                        ),
                                    ),
                                ),
                            ),
                        ),
                    ),
                ),
            ),
        ),
    )
}

/// A token before the tokens that follow it.
pub open spec fn prepend_token(token: TokenModel, rest: Result<Seq<TokenModel>, RegexError>) -> Result<
    Seq<TokenModel>,
    RegexError,
> {
    match rest {
        Ok(tokens) => Ok(seq![token] + tokens),
        Err(error) => Err(error),
    }
}

/// The tokens of `s` from `pos` to its end.
pub open spec fn spec_tokens(s: Seq<char>, pos: int) -> Result<Seq<TokenModel>, RegexError>
    decreases s.len() - pos,
{
    if pos < 0 || pos >= s.len() {
        Ok(Seq::empty())
    } else {
        match spec_token_at(s, pos) {
            Err(error) => Err(error),
            Ok(None) => Err(RegexError::NoTokenMatched { position: pos as usize }),
            Ok(Some((token, next))) => {
                proof {
                    lemma_token_advances(s, pos);
                }
                prepend_token(token, spec_tokens(s, next))
            },
        }
    }
}

/// A position found by `spec_find` lies between the start of the search and
/// the end of the text, and holds the target where it is inside the text.
pub proof fn lemma_find_bounds(s: Seq<char>, from: int, target: char)
    requires
        0 <= from <= s.len(),
    ensures
        from <= spec_find(s, from, target) <= s.len(),
        spec_find(s, from, target) < s.len() ==> s[spec_find(s, from, target)] == target,
    decreases s.len() - from,
{
    if from < s.len() && s[from] != target {
        lemma_find_bounds(s, from + 1, target);
    }
}

/// Every token takes at least one scalar and ends inside the text.
pub proof fn lemma_token_advances(s: Seq<char>, pos: int)
    requires
        0 <= pos < s.len(),
    ensures
        spec_token_at(s, pos) matches Ok(Some((_, next))) ==> pos < next <= s.len(),
{
    lemma_find_bounds(s, pos + 1, '}');
    if pos + 3 <= s.len() {
        lemma_find_bounds(s, pos + 3, '}');
    }
    lemma_class_advances(s, pos);
}

/// The values of a list of tokens.
pub open spec fn token_models(tokens: Seq<RegexToken>) -> Seq<TokenModel> {
    Seq::new(tokens.len(), |i: int| tokens[i]@)
}

/// Whether an attempt that was made has the value of the attempt that was
/// to be made.
pub open spec fn attempt_matches(
    got: Result<Option<(RegexToken, usize)>, RegexError>,
    want: TokenAttempt,
) -> bool {
    match (got, want) {
        (Ok(None), Ok(None)) => true,
        (Ok(Some((token, next))), Ok(Some((model, end)))) => token@ == model && next == end,
        (Err(e1), Err(e2)) => e1 == e2,
        _ => false,
    }
}

/// The position of the first `target` in `input[from..]`, or the length of
/// `input`.
pub fn find_scalar(input: &Vec<char>, from: usize, target: char) -> (found: usize)
    requires
        from <= input.len(),
    ensures
        found == spec_find(input@, from as int, target),
        from <= found <= input.len(),
        found < input.len() ==> input@[found as int] == target,
{
    let mut at: usize = from;
    while at < input.len() && char_at(input, at) != target
        invariant
            from <= at <= input.len(),
            spec_find(input@, from as int, target) == spec_find(input@, at as int, target),
        decreases input.len() - at,
    {
        at += 1;
    }
    at
}

/// Reads `input[from..to]` as a run of decimal digits.
pub fn parse_decimal(input: &Vec<char>, from: usize, to: usize) -> (number: Option<u64>)
    requires
        from <= to <= input.len(),
    ensures
        number == spec_decimal(input@.subrange(from as int, to as int)),
{
    let mut value: u64 = 0;
    let mut valid = true;
    let mut at: usize = from;
    assert(input@.subrange(from as int, from as int) =~= Seq::<char>::empty());
    while at < to
        invariant
            from <= at <= to <= input.len(),
            spec_decimal(input@.subrange(from as int, at as int)) == (if valid {
                Some(value)
            } else {
                None
            }),
        decreases to - at,
    {
        let code = char_at(input, at) as u32;
        proof {
            let longer = input@.subrange(from as int, at + 1);
            assert(longer.drop_last() =~= input@.subrange(from as int, at as int));
            assert(longer.last() == input@[at as int]);
        }
        if valid && 48 <= code && code <= 57 {
            let digit = (code - 48) as u64;
            if value > (u64::MAX - digit) / 10 {
                valid = false;
            } else {
                value = value * 10 + digit;
            }
        } else {
            valid = false;
        }
        at += 1;
    }
    if valid {
        Some(value)
    } else {
        None
    }
}

impl RegexToken {
    /// A deep copy with the same value.
    pub fn duplicate(&self) -> (copy: RegexToken)
        ensures
            copy@ == self@,
    {
        match self {
            RegexToken::AnyCharacter => RegexToken::AnyCharacter,
            RegexToken::UnicodeCharacterClass(categories) => RegexToken::UnicodeCharacterClass(
                copy_categories(categories),
            ),
            RegexToken::NegatedUnicodeCharacterClass(categories) =>
                RegexToken::NegatedUnicodeCharacterClass(copy_categories(categories)),
            RegexToken::NonUnicodeCharacterClass(class) => RegexToken::NonUnicodeCharacterClass(
                class.duplicate(),
            ),
            RegexToken::Literal(c) => RegexToken::Literal(*c),
            RegexToken::Alternation => RegexToken::Alternation,
            RegexToken::OpenGroup => RegexToken::OpenGroup,
            RegexToken::CloseGroup => RegexToken::CloseGroup,
            RegexToken::Repetition { min, max } => RegexToken::Repetition { min: *min, max: *max },
        }
    }

    /// Scans a pattern into its tokens.
    pub fn parse(regex: &str) -> (result: Result<Vec<RegexToken>, RegexError>)
        ensures
            match spec_tokens(regex@, 0) {
                Ok(models) => result matches Ok(tokens) && token_models(tokens@) == models,
                Err(error) => result == Err::<Vec<RegexToken>, RegexError>(error),
            },
    {
        let input = scalars(regex);
        let mut entries: Vec<RegexToken> = Vec::new();
        let mut pos: usize = 0;
        assert(token_models(entries@) =~= Seq::<TokenModel>::empty());
        while pos < input.len()
            invariant
                input@ == regex@,
                pos <= input.len(),
                spec_tokens(input@, 0) == match spec_tokens(input@, pos as int) {
                    Ok(rest) => Ok::<Seq<TokenModel>, RegexError>(token_models(entries@) + rest),
                    Err(error) => Err(error),
                },
            decreases input.len() - pos,
        {
            proof {
                lemma_token_advances(input@, pos as int);
            }
            match Self::try_parse_one_entry(&input, pos) {
                Ok(Some((entry, next))) => {
                    proof {
                        let rest = spec_tokens(input@, next as int);
                        if rest is Ok {
                            assert(token_models(entries@.push(entry)) + rest->Ok_0 =~= token_models(
                                entries@,
                            ) + (seq![entry@] + rest->Ok_0));
                        }
                    }
                    entries.push(entry);
                    pos = next;
                },
                Ok(None) => {
                    return Err(RegexError::NoTokenMatched { position: pos });
                },
                Err(error) => {
                    return Err(error);
                },
            }
        }
        assert(token_models(entries@) + Seq::<TokenModel>::empty() =~= token_models(entries@));
        Ok(entries)
    }

    /// Reads the token at `pos`, trying each form in turn.
    fn try_parse_one_entry(input: &Vec<char>, pos: usize) -> (result: Result<
        Option<(RegexToken, usize)>,
        RegexError,
    >)
        requires
            pos < input.len(),
        ensures
            attempt_matches(result, spec_token_at(input@, pos as int)),
    {
        let attempt = Self::try_parse_open_group(input, pos);
        if !matches!(attempt, Ok(None)) {
            return attempt;
        }
        let attempt = Self::try_parse_close_group(input, pos);
        if !matches!(attempt, Ok(None)) {
            return attempt;
        }
        let attempt = Self::try_parse_dot(input, pos);
        if !matches!(attempt, Ok(None)) {
            return attempt;
        }
        let attempt = Self::try_parse_zero_or_more(input, pos);
        if !matches!(attempt, Ok(None)) {
            return attempt;
        }
        let attempt = Self::try_parse_one_or_more(input, pos);
        if !matches!(attempt, Ok(None)) {
            return attempt;
        }
        let attempt = Self::try_parse_optional(input, pos);
        if !matches!(attempt, Ok(None)) {
            return attempt;
        }
        let attempt = Self::try_parse_alternation(input, pos);
        if !matches!(attempt, Ok(None)) {
            return attempt;
        }
        let attempt = Self::try_parse_digit(input, pos);
        if !matches!(attempt, Ok(None)) {
            return attempt;
        }
        let attempt = Self::try_parse_not_digit(input, pos);
        if !matches!(attempt, Ok(None)) {
            return attempt;
        }
        // The braced form comes first, so that the brace of `\p{` is never
        // read as a one-letter class name.
        let attempt = Self::try_parse_multi_letter_unicode_class_name(input, pos);
        if !matches!(attempt, Ok(None)) {
            return attempt;
        }
        let attempt = Self::try_parse_one_letter_unicode_class_name(input, pos);
        if !matches!(attempt, Ok(None)) {
            return attempt;
        }
        let attempt = Self::try_parse_negated_multi_letter_unicode_class_name(input, pos);
        if !matches!(attempt, Ok(None)) {
            return attempt;
        }
        let attempt = Self::try_parse_negated_one_letter_unicode_class_name(input, pos);
        if !matches!(attempt, Ok(None)) {
            return attempt;
        }
        let attempt = Self::try_parse_character_class(input, pos);
        if !matches!(attempt, Ok(None)) {
            return attempt;
        }
        let attempt = Self::try_parse_repetition(input, pos);
        if !matches!(attempt, Ok(None)) {
            return attempt;
        }
        Self::try_parse_literal(input, pos)
    }

    fn try_parse_open_group(input: &Vec<char>, pos: usize) -> (result: Result<
        Option<(RegexToken, usize)>,
        RegexError,
    >)
        requires
            pos < input.len(),
        ensures
            attempt_matches(result, spec_static_prefix(input@, pos as int, '(')),
    {
        Self::try_parse_static_prefix_character(input, pos, '(', RegexToken::OpenGroup)
    }

    fn try_parse_close_group(input: &Vec<char>, pos: usize) -> (result: Result<
        Option<(RegexToken, usize)>,
        RegexError,
    >)
        requires
            pos < input.len(),
        ensures
            attempt_matches(result, spec_static_prefix(input@, pos as int, ')')),
    {
        Self::try_parse_static_prefix_character(input, pos, ')', RegexToken::CloseGroup)
    }

    fn try_parse_dot(input: &Vec<char>, pos: usize) -> (result: Result<
        Option<(RegexToken, usize)>,
        RegexError,
    >)
        requires
            pos < input.len(),
        ensures
            attempt_matches(result, spec_static_prefix(input@, pos as int, '.')),
    {
        Self::try_parse_static_prefix_character(input, pos, '.', RegexToken::AnyCharacter)
    }

    fn try_parse_zero_or_more(input: &Vec<char>, pos: usize) -> (result: Result<
        Option<(RegexToken, usize)>,
        RegexError,
    >)
        requires
            pos < input.len(),
        ensures
            attempt_matches(result, spec_static_prefix(input@, pos as int, '*')),
    {
        Self::try_parse_static_prefix_character(
            input,
            pos,
            '*',
            RegexToken::Repetition { min: Some(0), max: None },
        )
    }

    fn try_parse_one_or_more(input: &Vec<char>, pos: usize) -> (result: Result<
        Option<(RegexToken, usize)>,
        RegexError,
    >)
        requires
            pos < input.len(),
        ensures
            attempt_matches(result, spec_static_prefix(input@, pos as int, '+')),
    {
        Self::try_parse_static_prefix_character(
            input,
            pos,
            '+',
            RegexToken::Repetition { min: Some(1), max: None },
        )
    }

    fn try_parse_optional(input: &Vec<char>, pos: usize) -> (result: Result<
        Option<(RegexToken, usize)>,
        RegexError,
    >)
        requires
            pos < input.len(),
        ensures
            attempt_matches(result, spec_static_prefix(input@, pos as int, '?')),
    {
        Self::try_parse_static_prefix_character(
            input,
            pos,
            '?',
            RegexToken::Repetition { min: Some(0), max: Some(1) },
        )
    }

    fn try_parse_alternation(input: &Vec<char>, pos: usize) -> (result: Result<
        Option<(RegexToken, usize)>,
        RegexError,
    >)
        requires
            pos < input.len(),
        ensures
            attempt_matches(result, spec_static_prefix(input@, pos as int, '|')),
    {
        Self::try_parse_static_prefix_character(input, pos, '|', RegexToken::Alternation)
    }

    /// Gives `to_return` where the scalar at `pos` is `prefix`.
    fn try_parse_static_prefix_character(
        input: &Vec<char>,
        pos: usize,
        prefix: char,
        to_return: RegexToken,
    ) -> (result: Result<Option<(RegexToken, usize)>, RegexError>)
        requires
            pos < input.len(),
            spec_static_token(prefix) == Some(to_return@),
        ensures
            attempt_matches(result, spec_static_prefix(input@, pos as int, prefix)),
    {
        if char_at(input, pos) == prefix {
            Ok(Some((to_return, pos + 1)))
        } else {
            Ok(None)
        }
    }

    /// Whether a backslash stands at `pos` and `marker` after it.
    fn escape_stands_at(input: &Vec<char>, pos: usize, marker: char) -> (stands: bool)
        requires
            pos < input.len(),
        ensures
            stands == escape_at(input@, pos as int, marker),
    {
        input.len() - pos >= 2 && char_at(input, pos) == '\\' && char_at(input, pos + 1) == marker
    }

    fn try_parse_digit(input: &Vec<char>, pos: usize) -> (result: Result<
        Option<(RegexToken, usize)>,
        RegexError,
    >)
        requires
            pos < input.len(),
        ensures
            attempt_matches(result, spec_digit(input@, pos as int, false)),
    {
        if Self::escape_stands_at(input, pos, 'd') {
            Ok(Some((RegexToken::UnicodeCharacterClass(UnicodeCategory::digits()), pos + 2)))
        } else {
            Ok(None)
        }
    }

    fn try_parse_not_digit(input: &Vec<char>, pos: usize) -> (result: Result<
        Option<(RegexToken, usize)>,
        RegexError,
    >)
        requires
            pos < input.len(),
        ensures
            attempt_matches(result, spec_digit(input@, pos as int, true)),
    {
        if Self::escape_stands_at(input, pos, 'D') {
            Ok(Some((RegexToken::NegatedUnicodeCharacterClass(UnicodeCategory::digits()), pos + 2)))
        } else {
            Ok(None)
        }
    }

    fn try_parse_one_letter_unicode_class_name(input: &Vec<char>, pos: usize) -> (result: Result<
        Option<(RegexToken, usize)>,
        RegexError,
    >)
        requires
            pos < input.len(),
        ensures
            attempt_matches(result, spec_one_letter(input@, pos as int, false)),
    {
        if Self::escape_stands_at(input, pos, 'p') && input.len() - pos >= 3 {
            let class_name_identifier = char_at(input, pos + 2);
            match Self::get_unicode_classes_single_letter(class_name_identifier, pos) {
                Ok(classes) => Ok(Some((RegexToken::UnicodeCharacterClass(classes), pos + 3))),
                Err(error) => Err(error),
            }
        } else {
            Ok(None)
        }
    }

    fn try_parse_multi_letter_unicode_class_name(input: &Vec<char>, pos: usize) -> (result: Result<
        Option<(RegexToken, usize)>,
        RegexError,
    >)
        requires
            pos < input.len(),
        ensures
            attempt_matches(result, spec_multi_letter(input@, pos as int, false)),
    {
        if Self::escape_stands_at(input, pos, 'p') && input.len() - pos >= 3 && char_at(
            input,
            pos + 2,
        ) == '{' {
            let end = Self::parse_string_until_bracket(input, pos + 3);
            if end >= input.len() {
                return Err(RegexError::UnterminatedClassName { position: pos });
            }
            match Self::get_unicode_classes_multi_or_single_letter(input, pos + 3, end, pos) {
                Ok(classes) => Ok(Some((RegexToken::UnicodeCharacterClass(classes), end + 1))),
                Err(error) => Err(error),
            }
        } else {
            Ok(None)
        }
    }

    fn try_parse_negated_one_letter_unicode_class_name(input: &Vec<char>, pos: usize) -> (result:
        Result<Option<(RegexToken, usize)>, RegexError>)
        requires
            pos < input.len(),
        ensures
            attempt_matches(result, spec_one_letter(input@, pos as int, true)),
    {
        if Self::escape_stands_at(input, pos, 'P') && input.len() - pos >= 3 {
            let class_name_identifier = char_at(input, pos + 2);
            match Self::get_unicode_classes_single_letter(class_name_identifier, pos) {
                Ok(classes) => Ok(
                    Some((RegexToken::NegatedUnicodeCharacterClass(classes), pos + 3)),
                ),
                Err(error) => Err(error),
            }
        } else {
            Ok(None)
        }
    }

    fn try_parse_negated_multi_letter_unicode_class_name(input: &Vec<char>, pos: usize) -> (result:
        Result<Option<(RegexToken, usize)>, RegexError>)
        requires
            pos < input.len(),
        ensures
            attempt_matches(result, spec_multi_letter(input@, pos as int, true)),
    {
        if Self::escape_stands_at(input, pos, 'P') && input.len() - pos >= 3 && char_at(
            input,
            pos + 2,
        ) == '{' {
            let end = Self::parse_string_until_bracket(input, pos + 3);
            if end >= input.len() {
                return Err(RegexError::UnterminatedClassName { position: pos });
            }
            match Self::get_unicode_classes_multi_or_single_letter(input, pos + 3, end, pos) {
                Ok(classes) => Ok(
                    Some((RegexToken::NegatedUnicodeCharacterClass(classes), end + 1)),
                ),
                Err(error) => Err(error),
            }
        } else {
            Ok(None)
        }
    }

    fn try_parse_character_class(input: &Vec<char>, pos: usize) -> (result: Result<
        Option<(RegexToken, usize)>,
        RegexError,
    >)
        requires
            pos < input.len(),
        ensures
            attempt_matches(result, spec_class_token(input@, pos as int)),
    {
        match CharacterClass::try_parse_at(input, pos) {
            Ok(Some((class, next))) => Ok(
                Some((RegexToken::NonUnicodeCharacterClass(class), next)),
            ),
            Ok(None) => Ok(None),
            Err(error) => Err(error),
        }
    }

    fn try_parse_repetition(input: &Vec<char>, pos: usize) -> (result: Result<
        Option<(RegexToken, usize)>,
        RegexError,
    >)
        requires
            pos < input.len(),
        ensures
            attempt_matches(result, spec_repetition(input@, pos as int)),
    {
        if char_at(input, pos) != '{' {
            return Ok(None);
        }
        let end = find_scalar(input, pos + 1, '}');
        if end >= input.len() {
            return Err(RegexError::UnterminatedRepetition { position: pos });
        }
        let comma = find_scalar(input, pos + 1, ',');
        let (min, max) = if comma >= end {
            if end == pos + 1 {
                return Err(RegexError::InvalidRepetitionBound { position: pos });
            }
            match parse_decimal(input, pos + 1, end) {
                Some(number) => (Some(number), Some(number)),
                None => {
                    return Err(RegexError::InvalidRepetitionBound { position: pos });
                },
            }
        } else {
            if find_scalar(input, comma + 1, ',') < end {
                return Err(RegexError::TooManyCommas { position: pos });
            }
            let min = match Self::parse_bound(input, pos + 1, comma, pos) {
                Ok(bound) => bound,
                Err(error) => {
                    return Err(error);
                },
            };
            let max = match Self::parse_bound(input, comma + 1, end, pos) {
                Ok(bound) => bound,
                Err(error) => {
                    return Err(error);
                },
            };
            (min, max)
        };
        Ok(Some((RegexToken::Repetition { min, max }, end + 1)))
    }

    /// Reads one side of a repetition with a comma.
    fn parse_bound(input: &Vec<char>, from: usize, to: usize, position: usize) -> (bound: Result<
        Option<u64>,
        RegexError,
    >)
        requires
            from <= to <= input.len(),
        ensures
            bound == spec_bound(input@.subrange(from as int, to as int), position as int),
    {
        if from == to {
            Ok(None)
        } else {
            match parse_decimal(input, from, to) {
                Some(number) => Ok(Some(number)),
                None => Err(RegexError::InvalidRepetitionBound { position }),
            }
        }
    }

    fn try_parse_literal(input: &Vec<char>, pos: usize) -> (result: Result<
        Option<(RegexToken, usize)>,
        RegexError,
    >)
        requires
            pos < input.len(),
        ensures
            attempt_matches(result, spec_literal(input@, pos as int)),
    {
        let c = char_at(input, pos);
        if c == '.' || c == '*' || c == '+' || c == '?' || c == '|' || c == '(' || c == ')' || c
            == '{' || c == '}' || c == '[' || c == ']' || c == '\\' {
            Ok(None)
        } else {
            Ok(Some((RegexToken::Literal(c), pos + 1)))
        }
    }

    /// The position of the brace that ends the identifier starting at `from`,
    /// or the length of `input` where none does.
    fn parse_string_until_bracket(input: &Vec<char>, from: usize) -> (end: usize)
        requires
            from <= input.len(),
        ensures
            end == spec_find(input@, from as int, '}'),
            from <= end <= input.len(),
    {
        find_scalar(input, from, '}')
    }

    /// The categories that the identifier `input[from..to]` names; `position`
    /// is where the token started.
    fn get_unicode_classes_multi_or_single_letter(
        input: &Vec<char>,
        from: usize,
        to: usize,
        position: usize,
    ) -> (result: Result<Vec<UnicodeCategory>, RegexError>)
        requires
            from <= to <= input.len(),
        ensures
            match spec_categories_named(input@.subrange(from as int, to as int)) {
                Some(members) => result matches Ok(found) && found@ == members,
                None => result == Err::<Vec<UnicodeCategory>, RegexError>(
                    RegexError::UnknownClassName { position },
                ),
            },
    {
        match UnicodeCategory::group_or_named(input, from, to) {
            Some(found) => Ok(found),
            None => Err(RegexError::UnknownClassName { position }),
        }
    }

    /// The categories of a one-letter shorthand; `position` is where the
    /// token started.
    fn get_unicode_classes_single_letter(class_identifier: char, position: usize) -> (result:
        Result<Vec<UnicodeCategory>, RegexError>)
        ensures
            match spec_category_group(class_identifier) {
                Some(members) => result matches Ok(found) && found@ == members,
                None => result == Err::<Vec<UnicodeCategory>, RegexError>(
                    RegexError::UnknownClassName { position },
                ),
            },
    {
        match UnicodeCategory::group(class_identifier) {
            Some(found) => Ok(found),
            None => Err(RegexError::UnknownClassName { position }),
        }
    }
}

} // verus!
