//! Unicode general categories: their names, the shorthands for groups of
//! them, and the category of a scalar.

use unic_char_property::EnumeratedCharProperty;
use vstd::prelude::*;

use crate::text::{same_text, scalars};

verus! {

/// A Unicode general category.
#[derive(Debug, Clone, Copy, PartialEq, Eq, Hash, Structural)]
pub enum UnicodeCategory {
    UppercaseLetter,
    LowercaseLetter,
    TitlecaseLetter,
    ModifierLetter,
    OtherLetter,
    NonspacingMark,
    SpacingMark,
    EnclosingMark,
    DecimalNumber,
    LetterNumber,
    OtherNumber,
    ConnectorPunctuation,
    DashPunctuation,
    OpenPunctuation,
    ClosePunctuation,
    InitialPunctuation,
    FinalPunctuation,
    OtherPunctuation,
    MathSymbol,
    CurrencySymbol,
    ModifierSymbol,
    OtherSymbol,
    SpaceSeparator,
    LineSeparator,
    ParagraphSeparator,
    Control,
    Format,
    Surrogate,
    PrivateUse,
    Unassigned,
}

/// The category that a short or long name stands for.
pub open spec fn spec_category_named(name: Seq<char>) -> Option<UnicodeCategory> {
    if name == "Lu"@ || name == "Uppercase_Letter"@ {
        Some(UnicodeCategory::UppercaseLetter)
    } else if name == "Ll"@ || name == "Lowercase_Letter"@ {
        Some(UnicodeCategory::LowercaseLetter)
    } else if name == "Lt"@ || name == "Titlecase_Letter"@ {
        Some(UnicodeCategory::TitlecaseLetter)
    } else if name == "Lm"@ || name == "Modifier_Letter"@ {
        Some(UnicodeCategory::ModifierLetter)
    } else if name == "Lo"@ || name == "Other_Letter"@ {
        Some(UnicodeCategory::OtherLetter)
    } else if name == "Mn"@ || name == "Nonspacing_Mark"@ {
        Some(UnicodeCategory::NonspacingMark)
    } else if name == "Mc"@ || name == "Spacing_Mark"@ {
        Some(UnicodeCategory::SpacingMark)
    } else if name == "Me"@ || name == "Enclosing_Mark"@ {
        Some(UnicodeCategory::EnclosingMark)
    } else if name == "Nd"@ || name == "Decimal_Number"@ {
        Some(UnicodeCategory::DecimalNumber)
    } else if name == "Nl"@ || name == "Letter_Number"@ {
        Some(UnicodeCategory::LetterNumber)
    } else if name == "No"@ || name == "Other_Number"@ {
        Some(UnicodeCategory::OtherNumber)
    } else if name == "Pc"@ || name == "Connector_Punctuation"@ {
        Some(UnicodeCategory::ConnectorPunctuation)
    } else if name == "Pd"@ || name == "Dash_Punctuation"@ {
        Some(UnicodeCategory::DashPunctuation)
    } else if name == "Ps"@ || name == "Open_Punctuation"@ {
        Some(UnicodeCategory::OpenPunctuation)
    } else if name == "Pe"@ || name == "Close_Punctuation"@ {
        Some(UnicodeCategory::ClosePunctuation)
    } else if name == "Pi"@ || name == "Initial_Punctuation"@ {
        Some(UnicodeCategory::InitialPunctuation)
    } else if name == "Pf"@ || name == "Final_Punctuation"@ {
        Some(UnicodeCategory::FinalPunctuation)
    } else if name == "Po"@ || name == "Other_Punctuation"@ {
        Some(UnicodeCategory::OtherPunctuation)
    } else if name == "Sm"@ || name == "Math_Symbol"@ {
        Some(UnicodeCategory::MathSymbol)
    } else if name == "Sc"@ || name == "Currency_Symbol"@ {
        Some(UnicodeCategory::CurrencySymbol)
    } else if name == "Sk"@ || name == "Modifier_Symbol"@ {
        Some(UnicodeCategory::ModifierSymbol)
    } else if name == "So"@ || name == "Other_Symbol"@ {
        Some(UnicodeCategory::OtherSymbol)
    } else if name == "Zs"@ || name == "Space_Separator"@ {
        Some(UnicodeCategory::SpaceSeparator)
    } else if name == "Zl"@ || name == "Line_Separator"@ {
        Some(UnicodeCategory::LineSeparator)
    } else if name == "Zp"@ || name == "Paragraph_Separator"@ {
        Some(UnicodeCategory::ParagraphSeparator)
    } else if name == "Cc"@ || name == "Control"@ {
        Some(UnicodeCategory::Control)
    } else if name == "Cf"@ || name == "Format"@ {
        Some(UnicodeCategory::Format)
    } else if name == "Cs"@ || name == "Surrogate"@ {
        Some(UnicodeCategory::Surrogate)
    } else if name == "Co"@ || name == "Private_Use"@ {
        Some(UnicodeCategory::PrivateUse)
    } else if name == "Cn"@ || name == "Unassigned"@ {
        Some(UnicodeCategory::Unassigned)
    } else {
        None
    }
}

/// The categories that a one-letter shorthand stands for, in their
/// conventional order.
pub open spec fn spec_category_group(letter: char) -> Option<Seq<UnicodeCategory>> {
    if letter == 'L' {
        Some(seq![UnicodeCategory::UppercaseLetter, UnicodeCategory::LowercaseLetter, UnicodeCategory::TitlecaseLetter, UnicodeCategory::ModifierLetter, UnicodeCategory::OtherLetter])
    } else if letter == 'M' {
        Some(seq![UnicodeCategory::NonspacingMark, UnicodeCategory::SpacingMark, UnicodeCategory::EnclosingMark])
    } else if letter == 'N' {
        Some(seq![UnicodeCategory::DecimalNumber, UnicodeCategory::LetterNumber, UnicodeCategory::OtherNumber])
    } else if letter == 'P' {
        Some(seq![UnicodeCategory::ConnectorPunctuation, UnicodeCategory::DashPunctuation, UnicodeCategory::OpenPunctuation, UnicodeCategory::ClosePunctuation, UnicodeCategory::InitialPunctuation, UnicodeCategory::FinalPunctuation, UnicodeCategory::OtherPunctuation])
    } else if letter == 'S' {
        Some(seq![UnicodeCategory::MathSymbol, UnicodeCategory::CurrencySymbol, UnicodeCategory::ModifierSymbol, UnicodeCategory::OtherSymbol])
    } else if letter == 'Z' {
        Some(seq![UnicodeCategory::SpaceSeparator, UnicodeCategory::LineSeparator, UnicodeCategory::ParagraphSeparator])
    } else if letter == 'C' {
        Some(seq![UnicodeCategory::Control, UnicodeCategory::Format, UnicodeCategory::Surrogate, UnicodeCategory::PrivateUse, UnicodeCategory::Unassigned])
    } else {
        None
    }
}

/// The categories that the identifier between the braces of `\p{..}` stands
/// for: those of a one-letter shorthand, else the one category of that name.
pub open spec fn spec_categories_named(name: Seq<char>) -> Option<Seq<UnicodeCategory>> {
    if name.len() == 1 && spec_category_group(name[0]) is Some {
        spec_category_group(name[0])
    } else {
        match spec_category_named(name) {
            Some(category) => Some(seq![category]),
            None => None,
        }
    }
}

/// The categories that `\d` and `\D` speak of.
pub open spec fn spec_digit_categories() -> Seq<UnicodeCategory> {
    seq![UnicodeCategory::DecimalNumber, UnicodeCategory::OtherNumber, UnicodeCategory::LetterNumber]
}

/// The short name of the general category that the Unicode tables of the
/// `unic-ucd-category` crate give to a scalar.
pub uninterp spec fn category_abbr_of(c: char) -> Seq<char>;

/// The general category of a scalar: the one that its short name stands for.
pub open spec fn spec_category_of(c: char) -> Option<UnicodeCategory> {
    spec_category_named(category_abbr_of(c))
}

/// Whether the scalar whose category has the short name `abbr` falls in one
/// of `categories`.
pub open spec fn categories_hold(categories: Seq<UnicodeCategory>, abbr: Seq<char>) -> bool {
    match spec_category_named(abbr) {
        Some(category) => categories.contains(category),
        None => false,
    }
}

/// Whether the general category of `c` is one of `categories`.
pub open spec fn categories_accept(categories: Seq<UnicodeCategory>, c: char) -> bool {
    categories_hold(categories, category_abbr_of(c))
}

/// Calls `unic_ucd_category::GeneralCategory::of` and hands back the short
/// name (`abbr_name`) of the category found. The lookup is a search in a
/// constant table, so the result depends on the scalar alone; nothing more is
/// claimed of it.
#[verifier::external_body]
fn category_abbr(c: char) -> (abbr: &'static str)
    ensures
        abbr@ == category_abbr_of(c),
{
    unic_ucd_category::GeneralCategory::of(c).abbr_name()
}

impl UnicodeCategory {
    /// The category named by the scalars `name[from..to]`, short or long form.
    pub fn named(name: &Vec<char>, from: usize, to: usize) -> (category: Option<UnicodeCategory>)
        requires
            from <= to <= name.len(),
        ensures
            category == spec_category_named(name@.subrange(from as int, to as int)),
    {
        if same_text(name, from, to, "Lu") || same_text(name, from, to, "Uppercase_Letter") {
            Some(UnicodeCategory::UppercaseLetter)
        } else if same_text(name, from, to, "Ll") || same_text(name, from, to, "Lowercase_Letter") {
            Some(UnicodeCategory::LowercaseLetter)
        } else if same_text(name, from, to, "Lt") || same_text(name, from, to, "Titlecase_Letter") {
            Some(UnicodeCategory::TitlecaseLetter)
        } else if same_text(name, from, to, "Lm") || same_text(name, from, to, "Modifier_Letter") {
            Some(UnicodeCategory::ModifierLetter)
        } else if same_text(name, from, to, "Lo") || same_text(name, from, to, "Other_Letter") {
            Some(UnicodeCategory::OtherLetter)
        } else if same_text(name, from, to, "Mn") || same_text(name, from, to, "Nonspacing_Mark") {
            Some(UnicodeCategory::NonspacingMark)
        } else if same_text(name, from, to, "Mc") || same_text(name, from, to, "Spacing_Mark") {
            Some(UnicodeCategory::SpacingMark)
        } else if same_text(name, from, to, "Me") || same_text(name, from, to, "Enclosing_Mark") {
            Some(UnicodeCategory::EnclosingMark)
        } else if same_text(name, from, to, "Nd") || same_text(name, from, to, "Decimal_Number") {
            Some(UnicodeCategory::DecimalNumber)
        } else if same_text(name, from, to, "Nl") || same_text(name, from, to, "Letter_Number") {
            Some(UnicodeCategory::LetterNumber)
        } else if same_text(name, from, to, "No") || same_text(name, from, to, "Other_Number") {
            Some(UnicodeCategory::OtherNumber)
        } else if same_text(name, from, to, "Pc") || same_text(name, from, to, "Connector_Punctuation") {
            Some(UnicodeCategory::ConnectorPunctuation)
        } else if same_text(name, from, to, "Pd") || same_text(name, from, to, "Dash_Punctuation") {
            Some(UnicodeCategory::DashPunctuation)
        } else if same_text(name, from, to, "Ps") || same_text(name, from, to, "Open_Punctuation") {
            Some(UnicodeCategory::OpenPunctuation)
        } else if same_text(name, from, to, "Pe") || same_text(name, from, to, "Close_Punctuation") {
            Some(UnicodeCategory::ClosePunctuation)
        } else if same_text(name, from, to, "Pi") || same_text(name, from, to, "Initial_Punctuation") {
            Some(UnicodeCategory::InitialPunctuation)
        } else if same_text(name, from, to, "Pf") || same_text(name, from, to, "Final_Punctuation") {
            Some(UnicodeCategory::FinalPunctuation)
        } else if same_text(name, from, to, "Po") || same_text(name, from, to, "Other_Punctuation") {
            Some(UnicodeCategory::OtherPunctuation)
        } else if same_text(name, from, to, "Sm") || same_text(name, from, to, "Math_Symbol") {
            Some(UnicodeCategory::MathSymbol)
        } else if same_text(name, from, to, "Sc") || same_text(name, from, to, "Currency_Symbol") {
            Some(UnicodeCategory::CurrencySymbol)
        } else if same_text(name, from, to, "Sk") || same_text(name, from, to, "Modifier_Symbol") {
            Some(UnicodeCategory::ModifierSymbol)
        } else if same_text(name, from, to, "So") || same_text(name, from, to, "Other_Symbol") {
            Some(UnicodeCategory::OtherSymbol)
        } else if same_text(name, from, to, "Zs") || same_text(name, from, to, "Space_Separator") {
            Some(UnicodeCategory::SpaceSeparator)
        } else if same_text(name, from, to, "Zl") || same_text(name, from, to, "Line_Separator") {
            Some(UnicodeCategory::LineSeparator)
        } else if same_text(name, from, to, "Zp") || same_text(name, from, to, "Paragraph_Separator") {
            Some(UnicodeCategory::ParagraphSeparator)
        } else if same_text(name, from, to, "Cc") || same_text(name, from, to, "Control") {
            Some(UnicodeCategory::Control)
        } else if same_text(name, from, to, "Cf") || same_text(name, from, to, "Format") {
            Some(UnicodeCategory::Format)
        } else if same_text(name, from, to, "Cs") || same_text(name, from, to, "Surrogate") {
            Some(UnicodeCategory::Surrogate)
        } else if same_text(name, from, to, "Co") || same_text(name, from, to, "Private_Use") {
            Some(UnicodeCategory::PrivateUse)
        } else if same_text(name, from, to, "Cn") || same_text(name, from, to, "Unassigned") {
            Some(UnicodeCategory::Unassigned)
        } else {
            None
        }
    }

    /// The categories of a one-letter shorthand.
    pub fn group(letter: char) -> (categories: Option<Vec<UnicodeCategory>>)
        ensures
            match spec_category_group(letter) {
                Some(members) => categories matches Some(found) && found@ == members,
                None => categories.is_none(),
            },
    {
        if letter == 'L' {
            let mut found: Vec<UnicodeCategory> = Vec::new();
            found.push(UnicodeCategory::UppercaseLetter);
            found.push(UnicodeCategory::LowercaseLetter);
            found.push(UnicodeCategory::TitlecaseLetter);
            found.push(UnicodeCategory::ModifierLetter);
            found.push(UnicodeCategory::OtherLetter);
            assert(found@ =~= seq![UnicodeCategory::UppercaseLetter, UnicodeCategory::LowercaseLetter, UnicodeCategory::TitlecaseLetter, UnicodeCategory::ModifierLetter, UnicodeCategory::OtherLetter]);
            Some(found)
        } else if letter == 'M' {
            let mut found: Vec<UnicodeCategory> = Vec::new();
            found.push(UnicodeCategory::NonspacingMark);
            found.push(UnicodeCategory::SpacingMark);
            found.push(UnicodeCategory::EnclosingMark);
            assert(found@ =~= seq![UnicodeCategory::NonspacingMark, UnicodeCategory::SpacingMark, UnicodeCategory::EnclosingMark]);
            Some(found)
        } else if letter == 'N' {
            let mut found: Vec<UnicodeCategory> = Vec::new();
            found.push(UnicodeCategory::DecimalNumber);
            found.push(UnicodeCategory::LetterNumber);
            found.push(UnicodeCategory::OtherNumber);
            assert(found@ =~= seq![UnicodeCategory::DecimalNumber, UnicodeCategory::LetterNumber, UnicodeCategory::OtherNumber]);
            Some(found)
        } else if letter == 'P' {
            let mut found: Vec<UnicodeCategory> = Vec::new();
            found.push(UnicodeCategory::ConnectorPunctuation);
            found.push(UnicodeCategory::DashPunctuation);
            found.push(UnicodeCategory::OpenPunctuation);
            found.push(UnicodeCategory::ClosePunctuation);
            found.push(UnicodeCategory::InitialPunctuation);
            found.push(UnicodeCategory::FinalPunctuation);
            found.push(UnicodeCategory::OtherPunctuation);
            assert(found@ =~= seq![UnicodeCategory::ConnectorPunctuation, UnicodeCategory::DashPunctuation, UnicodeCategory::OpenPunctuation, UnicodeCategory::ClosePunctuation, UnicodeCategory::InitialPunctuation, UnicodeCategory::FinalPunctuation, UnicodeCategory::OtherPunctuation]);
            Some(found)
        } else if letter == 'S' {
            let mut found: Vec<UnicodeCategory> = Vec::new();
            found.push(UnicodeCategory::MathSymbol);
            found.push(UnicodeCategory::CurrencySymbol);
            found.push(UnicodeCategory::ModifierSymbol);
            found.push(UnicodeCategory::OtherSymbol);
            assert(found@ =~= seq![UnicodeCategory::MathSymbol, UnicodeCategory::CurrencySymbol, UnicodeCategory::ModifierSymbol, UnicodeCategory::OtherSymbol]);
            Some(found)
        } else if letter == 'Z' {
            let mut found: Vec<UnicodeCategory> = Vec::new();
            found.push(UnicodeCategory::SpaceSeparator);
            found.push(UnicodeCategory::LineSeparator);
            found.push(UnicodeCategory::ParagraphSeparator);
            assert(found@ =~= seq![UnicodeCategory::SpaceSeparator, UnicodeCategory::LineSeparator, UnicodeCategory::ParagraphSeparator]);
            Some(found)
        } else if letter == 'C' {
            let mut found: Vec<UnicodeCategory> = Vec::new();
            found.push(UnicodeCategory::Control);
            found.push(UnicodeCategory::Format);
            found.push(UnicodeCategory::Surrogate);
            found.push(UnicodeCategory::PrivateUse);
            found.push(UnicodeCategory::Unassigned);
            assert(found@ =~= seq![UnicodeCategory::Control, UnicodeCategory::Format, UnicodeCategory::Surrogate, UnicodeCategory::PrivateUse, UnicodeCategory::Unassigned]);
            Some(found)
        } else {
            None
        }
    }

    /// The categories that the identifier `name[from..to]` stands for.
    pub fn group_or_named(name: &Vec<char>, from: usize, to: usize) -> (categories: Option<
        Vec<UnicodeCategory>,
    >)
        requires
            from <= to <= name.len(),
        ensures
            match spec_categories_named(name@.subrange(from as int, to as int)) {
                Some(members) => categories matches Some(found) && found@ == members,
                None => categories.is_none(),
            },
    {
        if to - from == 1 {
            if let Some(found) = Self::group(crate::text::char_at(name, from)) {
                return Some(found);
            }
        }
        match Self::named(name, from, to) {
            Some(category) => {
                let mut found: Vec<UnicodeCategory> = Vec::new();
                found.push(category);
                assert(found@ =~= seq![category]);
                Some(found)
            },
            None => None,
        }
    }

    /// The categories of `\d`.
    pub fn digits() -> (categories: Vec<UnicodeCategory>)
        ensures
            categories@ == spec_digit_categories(),
    {
        let mut found: Vec<UnicodeCategory> = Vec::new();
        found.push(UnicodeCategory::DecimalNumber);
        found.push(UnicodeCategory::OtherNumber);
        found.push(UnicodeCategory::LetterNumber);
        assert(found@ =~= spec_digit_categories());
        found
    }

    /// The general category of `c`, where the tables name one of the thirty.
    pub fn of(c: char) -> (category: Option<UnicodeCategory>)
        ensures
            category == spec_category_of(c),
    {
        let abbr = scalars(category_abbr(c));
        assert(abbr@.subrange(0, abbr@.len() as int) =~= abbr@);
        Self::named(&abbr, 0, abbr.len())
    }
}

/// Whether `category` is one of `categories`.
pub fn contains_category(categories: &Vec<UnicodeCategory>, category: UnicodeCategory) -> (found:
    bool)
    ensures
        found == categories@.contains(category),
{
    let mut i: usize = 0;
    while i < categories.len()
        invariant
            i <= categories.len(),
            forall|j: int| 0 <= j < i ==> categories@[j] != category,
        decreases categories.len() - i,
    {
        if categories[i] == category {
            return true;
        }
        i += 1;
    }
    false
}

/// Whether a scalar whose category has the short name `abbr` falls in one of
/// `categories`.
pub fn categories_hold_name(categories: &Vec<UnicodeCategory>, abbr: &str) -> (held: bool)
    ensures
        held == categories_hold(categories@, abbr@),
{
    let name = scalars(abbr);
    assert(name@.subrange(0, name@.len() as int) =~= name@);
    match UnicodeCategory::named(&name, 0, name.len()) {
        Some(category) => contains_category(categories, category),
        None => false,
    }
}

/// Whether the general category of `c` is one of `categories`.
pub fn categories_accept_char(categories: &Vec<UnicodeCategory>, c: char) -> (accepted: bool)
    ensures
        accepted == categories_accept(categories@, c),
{
    categories_hold_name(categories, category_abbr(c))
}

/// A copy of a list of categories.
pub fn copy_categories(categories: &Vec<UnicodeCategory>) -> (copy: Vec<UnicodeCategory>)
    ensures
        copy@ == categories@,
{
    let mut copy: Vec<UnicodeCategory> = Vec::new();
    let mut i: usize = 0;
    while i < categories.len()
        invariant
            i <= categories.len(),
            copy@ == categories@.subrange(0, i as int),
        decreases categories.len() - i,
    {
        copy.push(categories[i]);
        i += 1;
    }
    assert(categories@.subrange(0, categories@.len() as int) =~= categories@);
    copy
}

/// Whether two lists hold the same categories in the same order.
pub fn same_categories(left: &Vec<UnicodeCategory>, right: &Vec<UnicodeCategory>) -> (same: bool)
    ensures
        same == (left@ == right@),
{
    if left.len() != right.len() {
        return false;
    }
    let mut i: usize = 0;
    while i < left.len()
        invariant
            left.len() == right.len(),
            i <= left.len(),
            forall|j: int| 0 <= j < i ==> left@[j] == right@[j],
        decreases left.len() - i,
    {
        if left[i] != right[i] {
            return false;
        }
        i += 1;
    }
    assert(left@ =~= right@);
    true
}

} // verus!
