//! The errors of pattern compilation.

use vstd::prelude::*;
use vstd::string::*;

verus! {

/// Why a pattern could not be compiled. Positions count scalars from the start
/// of the text that was handed to the function that failed.
#[derive(Debug, Clone, Copy, PartialEq, Eq, Structural)]
pub enum RegexError {
    /// No token form matches the text at `position`.
    NoTokenMatched { position: usize },
    /// A `{` at `position` has no closing `}`.
    UnterminatedRepetition { position: usize },
    /// The repetition body that starts at `position` holds more than one comma.
    TooManyCommas { position: usize },
    /// A bound of the repetition that starts at `position` is not a decimal
    /// number that fits 64 bits.
    InvalidRepetitionBound { position: usize },
    /// A `\p{` or `\P{` at `position` has no closing `}`.
    UnterminatedClassName { position: usize },
    /// The Unicode class named at `position` is not a known one.
    UnknownClassName { position: usize },
    /// The text ended inside a bracket expression; `position` is the end.
    MissingClosingBracket { position: usize },
    /// A bracket expression, or the operand of `^` in one, holds no item;
    /// `position` is where the first item was expected.
    EmptyBrackets { position: usize },
    /// A repetition with nothing before it to repeat.
    RepetitionWithoutBase,
    /// An alternation bar with nothing before it.
    AlternationWithoutPreceding,
    /// An alternation bar with nothing after it.
    AlternationWithoutSucceeding,
    /// A structural token survived to the lowering stage.
    UnexpectedToken,
    /// A repetition asks for at most fewer copies than it asks for at least.
    DisorderedBounds,
    /// The automaton would have more states than the machine can index.
    TooManyStates,
}

impl RegexError {
    /// The fixed text that describes each kind of error.
    pub open spec fn description(self) -> Seq<char> {
        match self {
            RegexError::NoTokenMatched { .. } => "no token matches the pattern here"@,
            RegexError::UnterminatedRepetition { .. } => "started repetition token but did not finish"@,
            RegexError::TooManyCommas { .. } => "a repetition token must have exactly zero or one commas"@,
            RegexError::InvalidRepetitionBound { .. } => "failed to parse a number inside a repetition token"@,
            RegexError::UnterminatedClassName { .. } => "started a Unicode class name but did not finish"@,
            RegexError::UnknownClassName { .. } => "not a known Unicode class name; expected one of Lu, Uppercase_Letter, Ll, Lowercase_Letter, Lt, Titlecase_Letter, Lm, Modifier_Letter, Lo, Other_Letter, Mn, Nonspacing_Mark, Mc, Spacing_Mark, Me, Enclosing_Mark, Nd, Decimal_Number, Nl, Letter_Number, No, Other_Number, Pc, Connector_Punctuation, Pd, Dash_Punctuation, Ps, Open_Punctuation, Pe, Close_Punctuation, Pi, Initial_Punctuation, Pf, Final_Punctuation, Po, Other_Punctuation, Sm, Math_Symbol, Sc, Currency_Symbol, Sk, Modifier_Symbol, So, Other_Symbol, Zs, Space_Separator, Zl, Line_Separator, Zp, Paragraph_Separator, Cc, Control, Cf, Format, Cs, Surrogate, Co, Private_Use, Cn, Unassigned, L, M, N, P, S, Z, C"@,
            RegexError::MissingClosingBracket { .. } => "expected ] after character class"@,
            RegexError::EmptyBrackets { .. } => "a character class must hold at least one item"@,
            RegexError::RepetitionWithoutBase => "encountered repetition not succeeding repeatable token or group"@,
            RegexError::AlternationWithoutPreceding => "found alternation token without preceding item"@,
            RegexError::AlternationWithoutSucceeding => "found alternation token without succeeding item"@,
            RegexError::UnexpectedToken => "encountered unexpected lexed but not parsed token when lowering"@,
            RegexError::DisorderedBounds => "a repetition has a maximum below its minimum"@,
            RegexError::TooManyStates => "the pattern needs more states than can be indexed"@,
        }
    }

    /// Where in the pattern the error was found, for the kinds that know it.
    pub open spec fn spec_position(&self) -> Option<usize> {
        match *self {
            RegexError::NoTokenMatched { position } => Some(position),
            RegexError::UnterminatedRepetition { position } => Some(position),
            RegexError::TooManyCommas { position } => Some(position),
            RegexError::InvalidRepetitionBound { position } => Some(position),
            RegexError::UnterminatedClassName { position } => Some(position),
            RegexError::UnknownClassName { position } => Some(position),
            RegexError::MissingClosingBracket { position } => Some(position),
            RegexError::EmptyBrackets { position } => Some(position),
            _ => None,
        }
    }

    /// Where in the pattern the error was found, for the kinds that know it.
    #[verifier::when_used_as_spec(spec_position)]
    pub fn position(&self) -> (position: Option<usize>)
        ensures
            position == self.spec_position(),
    {
        match self {
            RegexError::NoTokenMatched { position } => Some(*position),
            RegexError::UnterminatedRepetition { position } => Some(*position),
            RegexError::TooManyCommas { position } => Some(*position),
            RegexError::InvalidRepetitionBound { position } => Some(*position),
            RegexError::UnterminatedClassName { position } => Some(*position),
            RegexError::UnknownClassName { position } => Some(*position),
            RegexError::MissingClosingBracket { position } => Some(*position),
            RegexError::EmptyBrackets { position } => Some(*position),
            _ => None,
        }
    }

    /// The description as an owned string.
    pub fn message(&self) -> (text: String)
        ensures
            text@ == self.description(),
    {
        match self {
            RegexError::NoTokenMatched { .. } => String::from_str("no token matches the pattern here"),
            RegexError::UnterminatedRepetition { .. } => String::from_str("started repetition token but did not finish"),
            RegexError::TooManyCommas { .. } => String::from_str("a repetition token must have exactly zero or one commas"),
            RegexError::InvalidRepetitionBound { .. } => String::from_str("failed to parse a number inside a repetition token"),
            RegexError::UnterminatedClassName { .. } => String::from_str("started a Unicode class name but did not finish"),
            RegexError::UnknownClassName { .. } => String::from_str("not a known Unicode class name; expected one of Lu, Uppercase_Letter, Ll, Lowercase_Letter, Lt, Titlecase_Letter, Lm, Modifier_Letter, Lo, Other_Letter, Mn, Nonspacing_Mark, Mc, Spacing_Mark, Me, Enclosing_Mark, Nd, Decimal_Number, Nl, Letter_Number, No, Other_Number, Pc, Connector_Punctuation, Pd, Dash_Punctuation, Ps, Open_Punctuation, Pe, Close_Punctuation, Pi, Initial_Punctuation, Pf, Final_Punctuation, Po, Other_Punctuation, Sm, Math_Symbol, Sc, Currency_Symbol, Sk, Modifier_Symbol, So, Other_Symbol, Zs, Space_Separator, Zl, Line_Separator, Zp, Paragraph_Separator, Cc, Control, Cf, Format, Cs, Surrogate, Co, Private_Use, Cn, Unassigned, L, M, N, P, S, Z, C"),
            RegexError::MissingClosingBracket { .. } => String::from_str("expected ] after character class"),
            RegexError::EmptyBrackets { .. } => String::from_str("a character class must hold at least one item"),
            RegexError::RepetitionWithoutBase => String::from_str("encountered repetition not succeeding repeatable token or group"),
            RegexError::AlternationWithoutPreceding => String::from_str("found alternation token without preceding item"),
            RegexError::AlternationWithoutSucceeding => String::from_str("found alternation token without succeeding item"),
            RegexError::UnexpectedToken => String::from_str("encountered unexpected lexed but not parsed token when lowering"),
            RegexError::DisorderedBounds => String::from_str("a repetition has a maximum below its minimum"),
            RegexError::TooManyStates => String::from_str("the pattern needs more states than can be indexed"),
        }
    }
}

} // verus!
