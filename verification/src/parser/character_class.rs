//! Bracket expressions such as `[a-z0-9_]` and `[^abc]`.

use vstd::prelude::*;
use vstd::string::*;

use crate::error::RegexError;
use crate::text::{char_at, scalars};

verus! {

/// Mathematical value of a bracket expression.
pub enum ClassModel {
    Char(char),
    Range { start: char, end: char },
    Disjunction(Seq<ClassModel>),
    Negated(Box<ClassModel>),
}

/// A bracket expression: one scalar, a range of scalars, a list of
/// classes of which one has to hold, or a class that must not hold.
#[derive(Debug, Eq, PartialEq)]
pub enum CharacterClass {
    Char(char),
    Range { start: char, end: char },
    Disjunction(Vec<CharacterClass>),
    Negated(Box<CharacterClass>),
}

/// The mathematical value of a parsed class.
pub open spec fn class_model(class: CharacterClass) -> ClassModel
    decreases class,
{
    match class {
        CharacterClass::Char(c) => ClassModel::Char(c),
        CharacterClass::Range { start, end } => ClassModel::Range { start, end },
        CharacterClass::Disjunction(items) => ClassModel::Disjunction(
            Seq::new(
                items@.len(),
                |i: int|
                    if 0 <= i < items@.len() {
                        class_model(items@[i])
                    } else {
                        ClassModel::Char('a')
                    },
            ),
        ),
        CharacterClass::Negated(inner) => ClassModel::Negated(Box::new(class_model(*inner))),
    }
}

impl View for CharacterClass {
    type V = ClassModel;

    open spec fn view(&self) -> ClassModel {
        class_model(*self)
    }
}

impl ClassModel {
    /// Whether the class holds the scalar `c`. A range holds the scalars
    /// from its start to its end in the order of their code points.
    pub open spec fn accepts(self, c: char) -> bool
        decreases self,
    {
        match self {
            ClassModel::Char(x) => c == x,
            ClassModel::Range { start, end } => start as u32 <= c as u32 <= end as u32,
            ClassModel::Disjunction(items) => exists|i: int| 0 <= i < items.len() && (#[trigger] items[i]).accepts(c),
            ClassModel::Negated(inner) => !inner.accepts(c),
        }
    }
}

/// One item with what follows it in a list of bracket items.
pub open spec fn prepend_item(
    item: ClassModel,
    rest: Result<(Seq<ClassModel>, int), RegexError>,
) -> Result<(Seq<ClassModel>, int), RegexError> {
    match rest {
        Ok((items, end)) => Ok((seq![item] + items, end)),
        Err(error) => Err(error),
    }
}

/// A list of items as one class: the item itself where there is one, else
/// their disjunction. An empty list is an error.
pub open spec fn collapse_items(
    items: Result<(Seq<ClassModel>, int), RegexError>,
    start: int,
) -> Result<(ClassModel, int), RegexError> {
    match items {
        Ok((items, end)) => if items.len() == 0 {
            Err(RegexError::EmptyBrackets { position: start as usize })
        } else if items.len() == 1 {
            Ok((items[0], end))
        } else {
            Ok((ClassModel::Disjunction(items), end))
        },
        Err(error) => Err(error),
    }
}

/// Whether a range item starts at `pos`: three scalars are left and the
/// second is a hyphen.
pub open spec fn range_starts_at(s: Seq<char>, pos: int) -> bool {
    0 <= pos && pos + 2 < s.len() && s[pos + 1] == '-'
}

/// The items of a bracket body from `pos` up to the closing bracket, with the
/// position of that bracket. A `^` negates all that follows it in the body.
pub open spec fn spec_items(s: Seq<char>, pos: int) -> Result<(Seq<ClassModel>, int), RegexError>
    decreases s.len() - pos, 0int,
{
    if pos < 0 || pos >= s.len() {
        Err(RegexError::MissingClosingBracket { position: s.len() as usize })
    } else if s[pos] == ']' {
        Ok((Seq::empty(), pos))
    } else if s[pos] == '^' {
        match spec_body(s, pos + 1) {
            Ok((inner, end)) => Ok((seq![ClassModel::Negated(Box::new(inner))], end)),
            Err(error) => Err(error),
        }
    } else if range_starts_at(s, pos) {
        prepend_item(ClassModel::Range { start: s[pos], end: s[pos + 2] }, spec_items(s, pos + 3))
    } else {
        prepend_item(ClassModel::Char(s[pos]), spec_items(s, pos + 1))
    }
}

/// The class that the bracket body from `pos` denotes, with the position of
/// the closing bracket.
pub open spec fn spec_body(s: Seq<char>, pos: int) -> Result<(ClassModel, int), RegexError>
    decreases s.len() - pos, 1int,
{
    collapse_items(spec_items(s, pos), pos)
}

/// The single item at `pos`, with the position after it; `None` at the end of
/// the text and at a closing bracket.
pub open spec fn spec_single(s: Seq<char>, pos: int) -> Result<Option<(ClassModel, int)>, RegexError> {
    if pos < 0 || pos >= s.len() || s[pos] == ']' {
        Ok(None)
    } else if s[pos] == '^' {
        match spec_body(s, pos + 1) {
            Ok((inner, end)) => Ok(Some((ClassModel::Negated(Box::new(inner)), end))),
            Err(error) => Err(error),
        }
    } else if range_starts_at(s, pos) {
        Ok(Some((ClassModel::Range { start: s[pos], end: s[pos + 2] }, pos + 3)))
    } else {
        Ok(Some((ClassModel::Char(s[pos]), pos + 1)))
    }
}

/// The bracket expression at `pos`, with the position after its closing
/// bracket; `None` where the text at `pos` does not open one.
pub open spec fn spec_class_at(s: Seq<char>, pos: int) -> Result<Option<(ClassModel, int)>, RegexError> {
    if pos < 0 || pos >= s.len() || s[pos] != '[' {
        Ok(None)
    } else {
        match spec_body(s, pos + 1) {
            Ok((class, end)) => Ok(Some((class, end + 1))),
            Err(error) => Err(error),
        }
    }
}

/// Whether a parse that was made has the value of the parse that was to be
/// made.
pub open spec fn class_result_matches(
    got: Result<Option<(CharacterClass, usize)>, RegexError>,
    want: Result<Option<(ClassModel, int)>, RegexError>,
) -> bool {
    match (got, want) {
        (Ok(None), Ok(None)) => true,
        (Ok(Some((class, next))), Ok(Some((model, end)))) => class@ == model && next == end,
        (Err(e1), Err(e2)) => e1 == e2,
        _ => false,
    }
}

/// A bracket body always ends at a closing bracket inside the text.
pub proof fn lemma_items_end_at_bracket(s: Seq<char>, pos: int)
    requires
        spec_items(s, pos) is Ok,
    ensures
        pos <= spec_items(s, pos)->Ok_0.1 < s.len(),
        s[spec_items(s, pos)->Ok_0.1] == ']',
    decreases s.len() - pos,
{
    if pos < 0 || pos >= s.len() {
    } else if s[pos] == ']' {
    } else if s[pos] == '^' {
        assert(spec_body(s, pos + 1) is Ok);
        assert(spec_items(s, pos + 1) is Ok);
        lemma_items_end_at_bracket(s, pos + 1);
    } else if range_starts_at(s, pos) {
        lemma_items_end_at_bracket(s, pos + 3);
    } else {
        lemma_items_end_at_bracket(s, pos + 1);
    }
}

/// Whether every disjunction in the class has at least two members.
pub open spec fn is_collapsed(class: ClassModel) -> bool
    decreases class,
{
    match class {
        ClassModel::Disjunction(items) => items.len() >= 2 && forall|i: int|
            0 <= i < items.len() ==> is_collapsed(#[trigger] items[i]),
        ClassModel::Negated(inner) => is_collapsed(*inner),
        _ => true,
    }
}

/// A class of one scalar and a range hold no disjunction.
pub proof fn lemma_leaves_collapsed(start: char, end: char)
    ensures
        is_collapsed(ClassModel::Char(start)),
        is_collapsed(ClassModel::Range { start, end }),
{
}

/// A collapsed item before collapsed items gives collapsed items.
pub proof fn lemma_prepend_collapsed(item: ClassModel, rest: Seq<ClassModel>)
    requires
        is_collapsed(item),
        forall|i: int| 0 <= i < rest.len() ==> is_collapsed(#[trigger] rest[i]),
    ensures
        forall|i: int|
            0 <= i < (seq![item] + rest).len() ==> is_collapsed(#[trigger] (seq![item] + rest)[i]),
        (seq![item] + rest).len() == rest.len() + 1,
        (seq![item] + rest)[0] == item,
{
    let items = seq![item] + rest;
    assert forall|i: int| 0 <= i < items.len() implies is_collapsed(#[trigger] items[i]) by {
        if i > 0 {
            assert(items[i] == rest[i - 1]);
        }
    }
}

/// No class that is parsed holds a disjunction of fewer than two members.
pub proof fn lemma_items_collapsed(s: Seq<char>, pos: int)
    ensures
        spec_items(s, pos) matches Ok((items, _)) ==> forall|i: int|
            0 <= i < items.len() ==> is_collapsed(#[trigger] items[i]),
        spec_body(s, pos) matches Ok((class, _)) ==> is_collapsed(class),
    decreases s.len() - pos,
{
    if pos < 0 || pos >= s.len() {
    } else if s[pos] == ']' {
    } else if s[pos] == '^' {
        lemma_items_collapsed(s, pos + 1);
        if spec_body(s, pos + 1) is Ok {
            let inner = spec_body(s, pos + 1)->Ok_0.0;
            let item = ClassModel::Negated(Box::new(inner));
            assert(spec_items(s, pos)->Ok_0.0 == seq![item]);
            lemma_prepend_collapsed(item, Seq::empty());
            assert(seq![item] + Seq::<ClassModel>::empty() =~= seq![item]);
        }
    } else {
        let next = if range_starts_at(s, pos) {
            pos + 3
        } else {
            pos + 1
        };
        let item = if range_starts_at(s, pos) {
            ClassModel::Range { start: s[pos], end: s[pos + 2] }
        } else {
            ClassModel::Char(s[pos])
        };
        lemma_items_collapsed(s, next);
        lemma_leaves_collapsed(s[pos], s[pos + 2]);
        if spec_items(s, next) is Ok {
            let rest = spec_items(s, next)->Ok_0.0;
            let items = seq![item] + rest;
            assert(spec_items(s, pos)->Ok_0.0 == items);
            lemma_prepend_collapsed(item, rest);
        }
    }
    if spec_items(s, pos) is Ok {
        let items = spec_items(s, pos)->Ok_0.0;
        if items.len() == 1 {
            assert(is_collapsed(items[0]));
        }
    }
}

/// A bracket expression takes at least two scalars and ends inside the text.
pub proof fn lemma_class_advances(s: Seq<char>, pos: int)
    requires
        0 <= pos,
    ensures
        spec_class_at(s, pos) matches Ok(Some((_, next))) ==> pos + 1 < next <= s.len(),
{
    if pos < s.len() && s[pos] == '[' && spec_body(s, pos + 1) is Ok {
        lemma_items_end_at_bracket(s, pos + 1);
    }
}

impl CharacterClass {
    /// A deep copy with the same value.
    pub fn duplicate(&self) -> (copy: CharacterClass)
        ensures
            copy@ == self@,
        decreases self,
    {
        match self {
            CharacterClass::Char(c) => CharacterClass::Char(*c),
            CharacterClass::Range { start, end } => CharacterClass::Range { start: *start, end: *end },
            CharacterClass::Disjunction(items) => {
                let mut copies: Vec<CharacterClass> = Vec::new();
                let mut i: usize = 0;
                while i < items.len()
                    invariant
                        *self == CharacterClass::Disjunction(*items),
                        i <= items.len(),
                        copies@.len() == i,
                        forall|j: int| 0 <= j < i ==> (#[trigger] copies@[j])@ == items@[j]@,
                    decreases items.len() - i,
                {
                    proof {
                        vstd::std_specs::vec::axiom_vec_index_decreases(*items, i as int);
                        assert(decreases_to!(*self => self->Disjunction_0));
                    }
                    copies.push(items[i].duplicate());
                    i += 1;
                }
                let copy = CharacterClass::Disjunction(copies);
                assert(copy@->Disjunction_0 =~= self@->Disjunction_0);
                copy
            },
            CharacterClass::Negated(inner) => CharacterClass::Negated(Box::new(inner.duplicate())),
        }
    }

    /// Whether the class holds the scalar `c`.
    pub fn matches(&self, c: char) -> (held: bool)
        ensures
            held == self@.accepts(c),
        decreases self,
    {
        match self {
            CharacterClass::Char(x) => c == *x,
            CharacterClass::Range { start, end } => {
                (*start as u32) <= (c as u32) && (c as u32) <= (*end as u32)
            },
            CharacterClass::Disjunction(items) => {
                let mut i: usize = 0;
                while i < items.len()
                    invariant
                        *self == CharacterClass::Disjunction(*items),
                        i <= items.len(),
                        forall|j: int| 0 <= j < i ==> !(#[trigger] items@[j])@.accepts(c),
                    decreases items.len() - i,
                {
                    proof {
                        vstd::std_specs::vec::axiom_vec_index_decreases(*items, i as int);
                        assert(decreases_to!(*self => self->Disjunction_0));
                    }
                    if items[i].matches(c) {
                        assert(self@->Disjunction_0[i as int] == items@[i as int]@);
                        return true;
                    }
                    i += 1;
                }
                assert forall|j: int| 0 <= j < self@->Disjunction_0.len() implies !(
                #[trigger] self@->Disjunction_0[j]).accepts(c) by {
                    assert(self@->Disjunction_0[j] == items@[j]@);
                }
                false
            },
            CharacterClass::Negated(inner) => !inner.matches(c),
        }
    }

    /// Whether two classes have the same value.
    pub fn same(&self, other: &CharacterClass) -> (same: bool)
        ensures
            same == (self@ == other@),
        decreases self,
    {
        match (self, other) {
            (CharacterClass::Char(a), CharacterClass::Char(b)) => *a == *b,
            (
                CharacterClass::Range { start: a, end: b },
                CharacterClass::Range { start: c, end: d },
            ) => *a == *c && *b == *d,
            (CharacterClass::Disjunction(left), CharacterClass::Disjunction(right)) => {
                if left.len() != right.len() {
                    assert(self@->Disjunction_0.len() != other@->Disjunction_0.len());
                    return false;
                }
                let mut i: usize = 0;
                while i < left.len()
                    invariant
                        *self == CharacterClass::Disjunction(*left),
                        *other == CharacterClass::Disjunction(*right),
                        left.len() == right.len(),
                        i <= left.len(),
                        forall|j: int| 0 <= j < i ==> (#[trigger] left@[j])@ == right@[j]@,
                    decreases left.len() - i,
                {
                    proof {
                        vstd::std_specs::vec::axiom_vec_index_decreases(*left, i as int);
                        assert(decreases_to!(*self => self->Disjunction_0));
                    }
                    if !left[i].same(&right[i]) {
                        assert(self@->Disjunction_0[i as int] == left@[i as int]@);
                        assert(other@->Disjunction_0[i as int] == right@[i as int]@);
                        return false;
                    }
                    i += 1;
                }
                assert(self@->Disjunction_0 =~= other@->Disjunction_0);
                true
            },
            (CharacterClass::Negated(left), CharacterClass::Negated(right)) => left.same(right),
            _ => false,
        }
    }

    /// Parses one bracket expression from the start of `remaining`. Gives
    /// `None` where `remaining` does not start with `[`, else the class and
    /// the text after the closing bracket.
    pub fn try_parse(remaining: &str) -> (result: Result<Option<(CharacterClass, &str)>, RegexError>)
        ensures
            match spec_class_at(remaining@, 0) {
                Ok(None) => result == Ok::<Option<(CharacterClass, &str)>, RegexError>(None),
                Ok(Some((model, end))) => result matches Ok(Some((class, rest))) && class@ == model
                    && is_collapsed(class@) && 0 <= end <= remaining@.len() && rest@
                    == remaining@.subrange(end, remaining@.len() as int),
                Err(error) => result == Err::<Option<(CharacterClass, &str)>, RegexError>(error),
            },
    {
        let input = scalars(remaining);
        match Self::try_parse_at(&input, 0) {
            Ok(Some((class, next))) => {
                let rest = remaining.substring_char(next, input.len());
                Ok(Some((class, rest)))
            },
            Ok(None) => Ok(None),
            Err(error) => Err(error),
        }
    }

    /// Parses the bracket expression that starts at `pos`, if one does.
    pub fn try_parse_at(input: &Vec<char>, pos: usize) -> (result: Result<
        Option<(CharacterClass, usize)>,
        RegexError,
    >)
        requires
            pos <= input.len(),
        ensures
            class_result_matches(result, spec_class_at(input@, pos as int)),
            result matches Ok(Some((class, next))) ==> pos < next <= input.len() && is_collapsed(
                class@,
            ),
    {
        proof {
            lemma_items_collapsed(input@, pos + 1);
        }
        if pos < input.len() && char_at(input, pos) == '[' {
            match Self::try_parse_no_prefix(input, pos + 1) {
                Ok((class, end)) => Ok(Some((class, end + 1))),
                Err(error) => Err(error),
            }
        } else {
            Ok(None)
        }
    }

    /// Parses a bracket body from `pos` up to its closing bracket, which is
    /// left in place.
    fn try_parse_no_prefix(input: &Vec<char>, pos: usize) -> (result: Result<
        (CharacterClass, usize),
        RegexError,
    >)
        requires
            pos <= input.len(),
        ensures
            match spec_body(input@, pos as int) {
                Ok((model, end)) => result matches Ok((class, next)) && class@ == model && next
                    == end,
                Err(error) => result == Err::<(CharacterClass, usize), RegexError>(error),
            },
            result matches Ok((_, next)) ==> pos <= next < input.len() && input@[next as int]
                == ']',
        decreases input.len() - pos, 2int,
    {
        let mut disjunction: Vec<CharacterClass> = Vec::new();
        let mut at: usize = pos;
        let ghost models: Seq<ClassModel> = Seq::empty();
        loop
            invariant
                pos <= at <= input.len(),
                models.len() == disjunction@.len(),
                forall|i: int| 0 <= i < models.len() ==> (#[trigger] disjunction@[i])@ == models[i],
                spec_items(input@, pos as int) == match spec_items(input@, at as int) {
                    Ok((items, end)) => Ok::<(Seq<ClassModel>, int), RegexError>(
                        (models + items, end),
                    ),
                    Err(error) => Err(error),
                },
            ensures
                at < input.len(),
                input@[at as int] == ']',
                models.len() == disjunction@.len(),
                forall|i: int| 0 <= i < models.len() ==> (#[trigger] disjunction@[i])@ == models[i],
                spec_items(input@, pos as int) == Ok::<(Seq<ClassModel>, int), RegexError>(
                    (models, at as int),
                ),
            decreases input.len() - at,
        {
            if at >= input.len() {
                return Err(RegexError::MissingClosingBracket { position: input.len() });
            }
            if char_at(input, at) == ']' {
                assert(models + Seq::<ClassModel>::empty() =~= models);
                break ;
            }
            match Self::try_parse_single_class(input, at) {
                Ok(Some((class, next))) => {
                    proof {
                        let item = class@;
                        let here = spec_items(input@, at as int);
                        let there = spec_items(input@, next as int);
                        if input@[at as int] == '^' {
                            assert(there == Ok::<(Seq<ClassModel>, int), RegexError>(
                                (Seq::empty(), next as int),
                            ));
                            assert(here == Ok::<(Seq<ClassModel>, int), RegexError>(
                                (seq![item], next as int),
                            ));
                        }
                        assert(here == prepend_item(item, there)) by {
                            if there is Ok {
                                assert(seq![item] + Seq::<ClassModel>::empty() =~= seq![item]);
                            }
                        }
                        if there is Ok {
                            assert((models.push(item)) + there->Ok_0.0 =~= models + (seq![item]
                                + there->Ok_0.0));
                        }
                        models = models.push(item);
                    }
                    disjunction.push(class);
                    at = next;
                },
                Ok(None) => {
                    return Err(RegexError::MissingClosingBracket { position: input.len() });
                },
                Err(error) => {
                    return Err(error);
                },
            }
        }
        if disjunction.len() == 0 {
            Err(RegexError::EmptyBrackets { position: pos })
        } else if disjunction.len() == 1 {
            let class = disjunction.remove(0);
            Ok((class, at))
        } else {
            let class = CharacterClass::Disjunction(disjunction);
            assert(class@->Disjunction_0 =~= models);
            Ok((class, at))
        }
    }

    /// Parses the single item at `pos`: a negation, a range or one scalar, in
    /// that order of preference.
    fn try_parse_single_class(input: &Vec<char>, pos: usize) -> (result: Result<
        Option<(CharacterClass, usize)>,
        RegexError,
    >)
        requires
            pos <= input.len(),
        ensures
            class_result_matches(result, spec_single(input@, pos as int)),
            result matches Ok(Some((_, next))) ==> pos < next <= input.len(),
            result matches Ok(Some((_, next))) ==> pos < input.len() && (input@[pos as int] == '^'
                ==> next < input.len() && input@[next as int] == ']'),
        decreases input.len() - pos, 1int,
    {
        if pos >= input.len() || char_at(input, pos) == ']' {
            return Ok(None);
        }
        match Self::try_parse_negated(input, pos) {
            Ok(Some(found)) => {
                return Ok(Some(found));
            },
            Ok(None) => {},
            Err(error) => {
                return Err(error);
            },
        }
        if let Some(found) = Self::try_parse_range(input, pos) {
            return Ok(Some(found));
        }
        if let Some(found) = Self::try_parse_simple_char(input, pos) {
            return Ok(Some(found));
        }
        Ok(None)
    }

    /// Parses `^` and the bracket body after it as the negation of that body.
    fn try_parse_negated(input: &Vec<char>, pos: usize) -> (result: Result<
        Option<(CharacterClass, usize)>,
        RegexError,
    >)
        requires
            pos <= input.len(),
        ensures
            pos < input.len() && input@[pos as int] == '^' ==> match spec_body(
                input@,
                pos as int + 1,
            ) {
                Ok((model, end)) => result matches Ok(Some((class, next))) && class@
                    == ClassModel::Negated(Box::new(model)) && next == end,
                Err(error) => result == Err::<Option<(CharacterClass, usize)>, RegexError>(error),
            },
            !(pos < input.len() && input@[pos as int] == '^') ==> result == Ok::<
                Option<(CharacterClass, usize)>,
                RegexError,
            >(None),
            result matches Ok(Some((_, next))) ==> pos < next < input.len() && input@[next as int]
                == ']',
        decreases input.len() - pos, 0int,
    {
        if pos < input.len() && char_at(input, pos) == '^' {
            match Self::try_parse_no_prefix(input, pos + 1) {
                Ok((to_negate, next)) => Ok(
                    Some((CharacterClass::Negated(Box::new(to_negate)), next)),
                ),
                Err(error) => Err(error),
            }
        } else {
            Ok(None)
        }
    }

    /// Parses a range: the scalar at `pos`, a hyphen, and the scalar after it.
    fn try_parse_range(input: &Vec<char>, pos: usize) -> (result: Option<(CharacterClass, usize)>)
        requires
            pos <= input.len(),
        ensures
            match result {
                Some((class, next)) => range_starts_at(input@, pos as int) && class@
                    == (ClassModel::Range { start: input@[pos as int], end: input@[pos + 2] })
                    && next == pos + 3,
                None => !range_starts_at(input@, pos as int),
            },
    {
        if input.len() - pos < 3 {
            return None;
        }
        if char_at(input, pos + 1) != '-' {
            return None;
        }
        let start = char_at(input, pos);
        let end = char_at(input, pos + 2);
        Some((CharacterClass::Range { start, end }, pos + 3))
    }

    /// Parses the scalar at `pos` as a class of one.
    fn try_parse_simple_char(input: &Vec<char>, pos: usize) -> (result: Option<
        (CharacterClass, usize),
    >)
        requires
            pos <= input.len(),
        ensures
            match result {
                Some((class, next)) => pos < input.len() && class@ == ClassModel::Char(
                    input@[pos as int],
                ) && next == pos + 1,
                None => pos >= input.len(),
            },
    {
        if input.len() - pos < 1 {
            return None;
        }
        Some((CharacterClass::Char(char_at(input, pos)), pos + 1))
    }
}

impl Clone for CharacterClass {
    fn clone(&self) -> (copy: CharacterClass)
        ensures
            copy@ == self@,
    {
        self.duplicate()
    }
}

} // verus!
