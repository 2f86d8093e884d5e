//! The parser: from the tokens of a pattern to its syntax tree, in stages
//! that make groups, repetitions and alternations, lower what is left, and
//! simplify the tree.

use vstd::prelude::*;

use crate::error::RegexError;
use crate::unicode::{copy_categories, UnicodeCategory};

use self::character_class::{CharacterClass, ClassModel};
use self::tokenizer::{spec_tokens, token_models, RegexToken, TokenModel};

pub mod character_class;
pub mod tokenizer;

verus! {

/// Mathematical value of a parsed pattern.
pub enum AstModel {
    AnyCharacter,
    UnicodeCharacterClass(Seq<UnicodeCategory>),
    NegatedUnicodeCharacterClass(Seq<UnicodeCategory>),
    NonUnicodeCharacterClass(ClassModel),
    Literal(char),
    Concatenation(Seq<AstModel>),
    Alternation(Seq<AstModel>),
    Repetition { base: Box<AstModel>, min: Option<u64>, max: Option<u64> },
}

/// The syntax tree of a pattern.
#[derive(Debug, Eq, PartialEq)]
pub enum RegexEntry {
    AnyCharacter,
    UnicodeCharacterClass(Vec<UnicodeCategory>),
    NegatedUnicodeCharacterClass(Vec<UnicodeCategory>),
    NonUnicodeCharacterClass(CharacterClass),
    Literal(char),
    Concatenation(Vec<RegexEntry>),
    Alternation(Vec<RegexEntry>),
    Repetition { base: Box<RegexEntry>, min: Option<u64>, max: Option<u64> },
}

/// Mathematical value of a partly parsed pattern.
pub enum PartialModel {
    Lexed(TokenModel),
    Group(Seq<PartialModel>),
    Repetition { base: Box<PartialModel>, min: Option<u64>, max: Option<u64> },
    Alternation(Seq<PartialModel>),
}

/// A pattern between the stages of parsing: tokens, and the groups,
/// repetitions and alternations found so far.
#[derive(Debug, Eq, PartialEq)]
pub enum PartiallyParsed {
    Lexed(RegexToken),
    Group(Vec<PartiallyParsed>),
    Repetition { base: Box<PartiallyParsed>, min: Option<u64>, max: Option<u64> },
    Alternation(Vec<PartiallyParsed>),
}

/// The two stages that run over every list of a partly parsed pattern.
#[derive(Debug, Clone, Copy, PartialEq, Eq, Structural)]
pub enum ParseStage {
    Repetitions,
    Alternations,
}

/// The mathematical value of a syntax tree.
pub open spec fn ast_model(entry: RegexEntry) -> AstModel
    decreases entry,
{
    match entry {
        RegexEntry::AnyCharacter => AstModel::AnyCharacter,
        RegexEntry::UnicodeCharacterClass(categories) => AstModel::UnicodeCharacterClass(
            categories@,
        ),
        RegexEntry::NegatedUnicodeCharacterClass(categories) =>
            AstModel::NegatedUnicodeCharacterClass(categories@),
        RegexEntry::NonUnicodeCharacterClass(class) => AstModel::NonUnicodeCharacterClass(class@),
        RegexEntry::Literal(c) => AstModel::Literal(c),
        RegexEntry::Concatenation(entries) => AstModel::Concatenation(
            Seq::new(
                entries@.len(),
                |i: int|
                    if 0 <= i < entries@.len() {
                        ast_model(entries@[i])
                    } else {
                        AstModel::AnyCharacter
                    },
            ),
        ),
        RegexEntry::Alternation(entries) => AstModel::Alternation(
            Seq::new(
                entries@.len(),
                |i: int|
                    if 0 <= i < entries@.len() {
                        ast_model(entries@[i])
                    } else {
                        AstModel::AnyCharacter
                    },
            ),
        ),
        RegexEntry::Repetition { base, min, max } => AstModel::Repetition {
            base: Box::new(ast_model(*base)),
            min,
            max,
        },
    }
}

impl View for RegexEntry {
    type V = AstModel;

    open spec fn view(&self) -> AstModel {
        ast_model(*self)
    }
}

/// The values of a list of syntax trees.
pub open spec fn ast_models(entries: Seq<RegexEntry>) -> Seq<AstModel> {
    Seq::new(entries.len(), |i: int| entries[i]@)
}

/// The mathematical value of a partly parsed pattern.
pub open spec fn partial_model(part: PartiallyParsed) -> PartialModel
    decreases part,
{
    match part {
        PartiallyParsed::Lexed(token) => PartialModel::Lexed(token@),
        PartiallyParsed::Group(parts) => PartialModel::Group(
            Seq::new(
                parts@.len(),
                |i: int|
                    if 0 <= i < parts@.len() {
                        partial_model(parts@[i])
                    } else {
                        PartialModel::Lexed(TokenModel::AnyCharacter)
                    },
            ),
        ),
        PartiallyParsed::Repetition { base, min, max } => PartialModel::Repetition {
            base: Box::new(partial_model(*base)),
            min,
            max,
        },
        PartiallyParsed::Alternation(parts) => PartialModel::Alternation(
            Seq::new(
                parts@.len(),
                |i: int|
                    if 0 <= i < parts@.len() {
                        partial_model(parts@[i])
                    } else {
                        PartialModel::Lexed(TokenModel::AnyCharacter)
                    },
            ),
        ),
    }
}

impl View for PartiallyParsed {
    type V = PartialModel;

    open spec fn view(&self) -> PartialModel {
        partial_model(*self)
    }
}

/// The values of a list of partly parsed patterns.
pub open spec fn partial_models(parts: Seq<PartiallyParsed>) -> Seq<PartialModel> {
    Seq::new(parts.len(), |i: int| parts[i]@)
}

/// Every token as a partly parsed pattern of its own.
pub open spec fn spec_lex(tokens: Seq<TokenModel>) -> Seq<PartialModel> {
    Seq::new(tokens.len(), |i: int| PartialModel::Lexed(tokens[i]))
}

/// The number of nodes of a partly parsed pattern.
pub open spec fn node_size(node: PartialModel) -> nat
    decreases node,
{
    match node {
        PartialModel::Lexed(_) => 1,
        PartialModel::Group(parts) => 1 + list_size(parts),
        PartialModel::Repetition { base, .. } => 1 + node_size(*base),
        PartialModel::Alternation(parts) => 1 + list_size(parts),
    }
}

/// The number of nodes of a list of partly parsed patterns.
pub open spec fn list_size(parts: Seq<PartialModel>) -> nat
    decreases parts,
{
    if parts.len() == 0 {
        0
    } else {
        list_size(parts.drop_last()) + node_size(parts.last())
    }
}

// ---------------------------------------------------------------- grouping

/// The items from `pos` up to the parenthesis that closes the group they
/// stand in, with the position after that parenthesis. The end of the list
/// closes every group that is still open.
pub open spec fn spec_group_from(items: Seq<PartialModel>, pos: int) -> (Seq<PartialModel>, int)
    decreases items.len() - pos,
{
    if pos < 0 || pos >= items.len() {
        (Seq::empty(), items.len() as int)
    } else if items[pos] == PartialModel::Lexed(TokenModel::CloseGroup) {
        (Seq::empty(), pos + 1)
    } else if items[pos] == PartialModel::Lexed(TokenModel::OpenGroup) {
        let inner = spec_group_from(items, pos + 1);
        // The position after a group lies behind its opening parenthesis and
        // within the list (`lemma_group_advances`); the test makes the
        // recursion well-founded.
        if pos < inner.1 <= items.len() {
            let rest = spec_group_from(items, inner.1);
            (seq![PartialModel::Group(inner.0)] + rest.0, rest.1)
        } else {
            (seq![PartialModel::Group(inner.0)], items.len() as int)
        }
    } else {
        let rest = spec_group_from(items, pos + 1);
        (seq![items[pos]] + rest.0, rest.1)
    }
}

/// The list with its parenthesised parts made groups.
pub open spec fn spec_group(items: Seq<PartialModel>) -> Seq<PartialModel> {
    spec_group_from(items, 0).0
}

/// The position after a run of grouped items lies behind its start and
/// within the list.
pub proof fn lemma_group_advances(items: Seq<PartialModel>, pos: int)
    requires
        0 <= pos,
    ensures
        pos < items.len() ==> pos < spec_group_from(items, pos).1,
        spec_group_from(items, pos).1 <= items.len(),
        pos >= items.len() ==> spec_group_from(items, pos).1 == items.len(),
    decreases items.len() - pos,
{
    if pos >= items.len() {
    } else if items[pos] == PartialModel::Lexed(TokenModel::CloseGroup) {
    } else if items[pos] == PartialModel::Lexed(TokenModel::OpenGroup) {
        lemma_group_advances(items, pos + 1);
        lemma_group_advances(items, spec_group_from(items, pos + 1).1);
    } else {
        lemma_group_advances(items, pos + 1);
    }
}

// ------------------------------------------------------------- repetitions

/// An item before the result for the items that follow it.
pub open spec fn prepend_part(part: PartialModel, rest: Result<Seq<PartialModel>, RegexError>) -> Result<
    Seq<PartialModel>,
    RegexError,
> {
    match rest {
        Ok(parts) => Ok(seq![part] + parts),
        Err(error) => Err(error),
    }
}

/// Whether an item is a repetition token that has no base yet.
pub open spec fn is_raw_repetition(part: PartialModel) -> bool {
    part matches PartialModel::Lexed(TokenModel::Repetition { .. })
}

/// The items from `pos` on, each repetition token made one node with the
/// item before it. A repetition token with no item before it is an error.
pub open spec fn spec_repetitions(items: Seq<PartialModel>, pos: int) -> Result<
    Seq<PartialModel>,
    RegexError,
>
    decreases items.len() - pos,
{
    if pos < 0 || pos >= items.len() {
        Ok(Seq::empty())
    } else if is_raw_repetition(items[pos]) {
        Err(RegexError::RepetitionWithoutBase)
    } else if pos + 1 < items.len() && is_raw_repetition(items[pos + 1]) {
        prepend_part(
            PartialModel::Repetition {
                base: Box::new(items[pos]),
                min: items[pos + 1]->Lexed_0->Repetition_min,
                max: items[pos + 1]->Lexed_0->Repetition_max,
            },
            spec_repetitions(items, pos + 2),
        )
    } else {
        prepend_part(items[pos], spec_repetitions(items, pos + 1))
    }
}

// ------------------------------------------------------------ alternations

/// The items already passed (`done`) and those from `pos` on, each bar made
/// one alternation of the item before it and the item after it; a bar that
/// follows an alternation adds its right-hand item to that alternation.
pub open spec fn spec_alternation(done: Seq<PartialModel>, items: Seq<PartialModel>, pos: int) -> Result<
    Seq<PartialModel>,
    RegexError,
>
    decreases items.len() - pos,
{
    if pos < 0 || pos >= items.len() {
        Ok(done)
    } else if items[pos] == PartialModel::Lexed(TokenModel::Alternation) {
        if done.len() == 0 {
            Err(RegexError::AlternationWithoutPreceding)
        } else if pos + 1 >= items.len() {
            Err(RegexError::AlternationWithoutSucceeding)
        } else {
            spec_alternation(
                done.drop_last().push(join_alternation(done.last(), items[pos + 1])),
                items,
                pos + 2,
            )
        }
    } else {
        spec_alternation(done.push(items[pos]), items, pos + 1)
    }
}

/// The alternation of `left` and `right`; where `left` is an alternation
/// already, `right` joins it.
pub open spec fn join_alternation(left: PartialModel, right: PartialModel) -> PartialModel {
    match left {
        PartialModel::Alternation(members) => PartialModel::Alternation(members.push(right)),
        _ => PartialModel::Alternation(seq![left, right]),
    }
}

/// One stage applied to one list.
pub open spec fn spec_stage(stage: ParseStage, items: Seq<PartialModel>) -> Result<
    Seq<PartialModel>,
    RegexError,
> {
    match stage {
        ParseStage::Repetitions => spec_repetitions(items, 0),
        ParseStage::Alternations => spec_alternation(Seq::empty(), items, 0),
    }
}

// ------------------------------------------------------------------- sizes

/// The size of a list that one more node was added to.
pub proof fn lemma_list_size_push(parts: Seq<PartialModel>, node: PartialModel)
    ensures
        list_size(parts.push(node)) == list_size(parts) + node_size(node),
{
    assert(parts.push(node).drop_last() =~= parts);
}

/// The size of two lists joined.
pub proof fn lemma_list_size_concat(left: Seq<PartialModel>, right: Seq<PartialModel>)
    ensures
        list_size(left + right) == list_size(left) + list_size(right),
    decreases right.len(),
{
    if right.len() == 0 {
        assert(left + right =~= left);
    } else {
        assert((left + right).drop_last() =~= left + right.drop_last());
        lemma_list_size_concat(left, right.drop_last());
    }
}

/// No member of a list is larger than the list.
pub proof fn lemma_list_size_index(parts: Seq<PartialModel>, i: int)
    requires
        0 <= i < parts.len(),
    ensures
        node_size(parts[i]) <= list_size(parts),
    decreases parts.len(),
{
    if i < parts.len() - 1 {
        lemma_list_size_index(parts.drop_last(), i);
    }
}

/// The size of the items from `pos` on.
pub open spec fn suffix_size(items: Seq<PartialModel>, pos: int) -> nat {
    list_size(items.subrange(pos, items.len() as int))
}

/// The size of a suffix is that of its first item and of the rest.
pub proof fn lemma_suffix_size(items: Seq<PartialModel>, pos: int)
    requires
        0 <= pos < items.len(),
    ensures
        suffix_size(items, pos) == node_size(items[pos]) + suffix_size(items, pos + 1),
{
    let rest = items.subrange(pos + 1, items.len() as int);
    assert(items.subrange(pos, items.len() as int) =~= seq![items[pos]] + rest);
    lemma_list_size_concat(seq![items[pos]], rest);
    lemma_list_size_push(Seq::empty(), items[pos]);
    assert(Seq::<PartialModel>::empty().push(items[pos]) =~= seq![items[pos]]);
}

/// Making repetitions adds no node.
pub proof fn lemma_repetitions_size(items: Seq<PartialModel>, pos: int)
    requires
        0 <= pos <= items.len(),
    ensures
        spec_repetitions(items, pos) matches Ok(parts) ==> list_size(parts) <= suffix_size(
            items,
            pos,
        ),
    decreases items.len() - pos,
{
    if pos >= items.len() {
    } else if is_raw_repetition(items[pos]) {
    } else if pos + 1 < items.len() && is_raw_repetition(items[pos + 1]) {
        lemma_repetitions_size(items, pos + 2);
        lemma_suffix_size(items, pos);
        lemma_suffix_size(items, pos + 1);
        if let Ok(rest) = spec_repetitions(items, pos + 2) {
            let node = PartialModel::Repetition {
                base: Box::new(items[pos]),
                min: items[pos + 1]->Lexed_0->Repetition_min,
                max: items[pos + 1]->Lexed_0->Repetition_max,
            };
            lemma_list_size_concat(seq![node], rest);
            lemma_list_size_push(Seq::empty(), node);
            assert(Seq::<PartialModel>::empty().push(node) =~= seq![node]);
        }
    } else {
        lemma_repetitions_size(items, pos + 1);
        lemma_suffix_size(items, pos);
        if let Ok(rest) = spec_repetitions(items, pos + 1) {
            lemma_list_size_concat(seq![items[pos]], rest);
            lemma_list_size_push(Seq::empty(), items[pos]);
            assert(Seq::<PartialModel>::empty().push(items[pos]) =~= seq![items[pos]]);
        }
    }
}

/// Joining an item to the one before it adds at most one node.
pub proof fn lemma_join_size(left: PartialModel, right: PartialModel)
    ensures
        node_size(join_alternation(left, right)) <= node_size(left) + node_size(right) + 1,
{
    match left {
        PartialModel::Alternation(members) => {
            lemma_list_size_push(members, right);
        },
        _ => {
            lemma_list_size_push(seq![left], right);
            lemma_list_size_push(Seq::empty(), left);
            assert(Seq::<PartialModel>::empty().push(left) =~= seq![left]);
            assert(seq![left].push(right) =~= seq![left, right]);
        },
    }
}

/// Making alternations adds no node.
pub proof fn lemma_alternation_size(done: Seq<PartialModel>, items: Seq<PartialModel>, pos: int)
    requires
        0 <= pos <= items.len(),
    ensures
        spec_alternation(done, items, pos) matches Ok(parts) ==> list_size(parts) <= list_size(
            done,
        ) + suffix_size(items, pos),
    decreases items.len() - pos,
{
    if pos >= items.len() {
    } else if items[pos] == PartialModel::Lexed(TokenModel::Alternation) {
        if done.len() > 0 && pos + 1 < items.len() {
            let joined = join_alternation(done.last(), items[pos + 1]);
            lemma_alternation_size(done.drop_last().push(joined), items, pos + 2);
            lemma_list_size_push(done.drop_last(), joined);
            lemma_join_size(done.last(), items[pos + 1]);
            lemma_suffix_size(items, pos);
            lemma_suffix_size(items, pos + 1);
        }
    } else {
        lemma_alternation_size(done.push(items[pos]), items, pos + 1);
        lemma_list_size_push(done, items[pos]);
        lemma_suffix_size(items, pos);
    }
}

/// A stage adds no node to a list.
pub proof fn lemma_stage_size(stage: ParseStage, items: Seq<PartialModel>)
    ensures
        spec_stage(stage, items) matches Ok(parts) ==> list_size(parts) <= list_size(items),
{
    assert(items.subrange(0, items.len() as int) =~= items);
    match stage {
        ParseStage::Repetitions => lemma_repetitions_size(items, 0),
        ParseStage::Alternations => lemma_alternation_size(Seq::empty(), items, 0),
    }
}

// ------------------------------------------------ a stage over every list

/// A stage applied to a list and then, from left to right, to every list
/// inside the items of the result.
pub open spec fn spec_deep(stage: ParseStage, items: Seq<PartialModel>) -> Result<
    Seq<PartialModel>,
    RegexError,
>
    decreases list_size(items), 1nat, 0nat,
{
    match spec_stage(stage, items) {
        Err(error) => Err(error),
        Ok(parts) => {
            proof {
                lemma_stage_size(stage, items);
            }
            spec_deep_each(stage, parts)
        },
    }
}

/// A stage applied inside every item of a list, from left to right.
pub open spec fn spec_deep_each(stage: ParseStage, parts: Seq<PartialModel>) -> Result<
    Seq<PartialModel>,
    RegexError,
>
    decreases list_size(parts), 0nat, parts.len(),
{
    if parts.len() == 0 {
        Ok(Seq::empty())
    } else {
        match spec_deep_each(stage, parts.drop_last()) {
            Err(error) => Err(error),
            Ok(front) => match spec_deep_node(stage, parts.last()) {
                Err(error) => Err(error),
                Ok(node) => Ok(front.push(node)),
            },
        }
    }
}

/// A stage applied to every list inside one item.
pub open spec fn spec_deep_node(stage: ParseStage, node: PartialModel) -> Result<
    PartialModel,
    RegexError,
>
    decreases node_size(node), 0nat, 0nat,
{
    match node {
        PartialModel::Lexed(_) => Ok(node),
        PartialModel::Group(parts) => match spec_deep(stage, parts) {
            Ok(inner) => Ok(PartialModel::Group(inner)),
            Err(error) => Err(error),
        },
        PartialModel::Alternation(parts) => match spec_deep(stage, parts) {
            Ok(inner) => Ok(PartialModel::Alternation(inner)),
            Err(error) => Err(error),
        },
        PartialModel::Repetition { base, min, max } => match spec_deep_node(stage, *base) {
            Ok(inner) => Ok(PartialModel::Repetition { base: Box::new(inner), min, max }),
            Err(error) => Err(error),
        },
    }
}

// ---------------------------------------------------------------- lowering

/// The syntax tree of a fully parsed item. A token that only gives
/// structure has no place left at this stage.
pub open spec fn spec_lower(node: PartialModel) -> Result<AstModel, RegexError>
    decreases node,
{
    match node {
        PartialModel::Lexed(TokenModel::AnyCharacter) => Ok(AstModel::AnyCharacter),
        PartialModel::Lexed(TokenModel::NonUnicodeCharacterClass(class)) => Ok(
            AstModel::NonUnicodeCharacterClass(class),
        ),
        PartialModel::Lexed(TokenModel::NegatedUnicodeCharacterClass(categories)) => Ok(
            AstModel::NegatedUnicodeCharacterClass(categories),
        ),
        PartialModel::Lexed(TokenModel::UnicodeCharacterClass(categories)) => Ok(
            AstModel::UnicodeCharacterClass(categories),
        ),
        PartialModel::Lexed(TokenModel::Literal(literal)) => Ok(AstModel::Literal(literal)),
        PartialModel::Lexed(_) => Err(RegexError::UnexpectedToken),
        PartialModel::Group(parts) => match spec_lower_list(parts) {
            Ok(entries) => Ok(AstModel::Concatenation(entries)),
            Err(error) => Err(error),
        },
        PartialModel::Repetition { base, min, max } => match spec_lower(*base) {
            Ok(entry) => Ok(AstModel::Repetition { base: Box::new(entry), min, max }),
            Err(error) => Err(error),
        },
        PartialModel::Alternation(parts) => match spec_lower_list(parts) {
            Ok(entries) => Ok(AstModel::Alternation(entries)),
            Err(error) => Err(error),
        },
    }
}

/// The syntax trees of a list of fully parsed items.
pub open spec fn spec_lower_list(parts: Seq<PartialModel>) -> Result<Seq<AstModel>, RegexError>
    decreases parts,
{
    if parts.len() == 0 {
        Ok(Seq::empty())
    } else {
        match (spec_lower_list(parts.drop_last()), spec_lower(parts.last())) {
            (Ok(front), Ok(entry)) => Ok(front.push(entry)),
            _ => Err(RegexError::UnexpectedToken),
        }
    }
}

/// The whole pattern as the concatenation of its items.
pub open spec fn spec_finish(parts: Seq<PartialModel>) -> Result<AstModel, RegexError> {
    match spec_lower_list(parts) {
        Ok(entries) => Ok(AstModel::Concatenation(entries)),
        Err(error) => Err(error),
    }
}

// ---------------------------------------------------------- simplification

/// The tree with every concatenation and alternation of one member replaced
/// by that member.
pub open spec fn spec_simplify(entry: AstModel) -> AstModel
    decreases entry,
{
    match entry {
        AstModel::Concatenation(members) => if members.len() == 1 {
            spec_simplify(members[0])
        } else {
            AstModel::Concatenation(
                Seq::new(
                    members.len(),
                    |i: int|
                        if 0 <= i < members.len() {
                            spec_simplify(members[i])
                        } else {
                            AstModel::AnyCharacter
                        },
                ),
            )
        },
        AstModel::Alternation(members) => if members.len() == 1 {
            spec_simplify(members[0])
        } else {
            AstModel::Alternation(
                Seq::new(
                    members.len(),
                    |i: int|
                        if 0 <= i < members.len() {
                            spec_simplify(members[i])
                        } else {
                            AstModel::AnyCharacter
                        },
                ),
            )
        },
        AstModel::Repetition { base, min, max } => AstModel::Repetition {
            base: Box::new(spec_simplify(*base)),
            min,
            max,
        },
        _ => entry,
    }
}

/// Whether no concatenation or alternation in the tree has exactly one
/// member.
pub open spec fn is_simplified(entry: AstModel) -> bool
    decreases entry,
{
    match entry {
        AstModel::Concatenation(members) => members.len() != 1 && forall|i: int|
            0 <= i < members.len() ==> is_simplified(#[trigger] members[i]),
        AstModel::Alternation(members) => members.len() != 1 && forall|i: int|
            0 <= i < members.len() ==> is_simplified(#[trigger] members[i]),
        AstModel::Repetition { base, .. } => is_simplified(*base),
        _ => true,
    }
}

/// Simplification leaves no concatenation or alternation of one member.
pub proof fn lemma_simplify_simplifies(entry: AstModel)
    ensures
        is_simplified(spec_simplify(entry)),
    decreases entry,
{
    match entry {
        AstModel::Concatenation(members) => {
            if members.len() == 1 {
                lemma_simplify_simplifies(members[0]);
            } else {
                assert forall|i: int| 0 <= i < members.len() implies is_simplified(
                    #[trigger] spec_simplify(entry)->Concatenation_0[i],
                ) by {
                    lemma_simplify_simplifies(members[i]);
                }
            }
        },
        AstModel::Alternation(members) => {
            if members.len() == 1 {
                lemma_simplify_simplifies(members[0]);
            } else {
                assert forall|i: int| 0 <= i < members.len() implies is_simplified(
                    #[trigger] spec_simplify(entry)->Alternation_0[i],
                ) by {
                    lemma_simplify_simplifies(members[i]);
                }
            }
        },
        AstModel::Repetition { base, .. } => {
            lemma_simplify_simplifies(*base);
        },
        _ => {},
    }
}

// --------------------------------------------------------------- the whole

/// The syntax tree of a pattern: its tokens, grouped, with repetitions and
/// then alternations made in every list, lowered and simplified.
pub open spec fn spec_parse(pattern: Seq<char>) -> Result<AstModel, RegexError> {
    match spec_tokens(pattern, 0) {
        Err(error) => Err(error),
        Ok(tokens) => match spec_deep(ParseStage::Repetitions, spec_group(spec_lex(tokens))) {
            Err(error) => Err(error),
            Ok(repetitions) => match spec_deep(ParseStage::Alternations, repetitions) {
                Err(error) => Err(error),
                Ok(alternations) => match spec_finish(alternations) {
                    Err(error) => Err(error),
                    Ok(entry) => Ok(spec_simplify(entry)),
                },
            },
        },
    }
}

// ------------------------------------------------------------ proof helpers

/// An error inside one item is the error of the list, where the items
/// before it have none.
pub proof fn lemma_deep_each_prefix(stage: ParseStage, parts: Seq<PartialModel>, k: int)
    requires
        0 <= k <= parts.len(),
        spec_deep_each(stage, parts.subrange(0, k)) is Err,
    ensures
        spec_deep_each(stage, parts) == spec_deep_each(stage, parts.subrange(0, k)),
    decreases parts.len(),
{
    if k == parts.len() {
        assert(parts.subrange(0, k) =~= parts);
    } else {
        assert(parts.drop_last().subrange(0, k) =~= parts.subrange(0, k));
        lemma_deep_each_prefix(stage, parts.drop_last(), k);
    }
}

/// Lowering knows one error only.
pub proof fn lemma_lower_error(node: PartialModel)
    ensures
        spec_lower(node) is Err ==> spec_lower(node) == Err::<AstModel, RegexError>(
            RegexError::UnexpectedToken,
        ),
    decreases node,
{
    match node {
        PartialModel::Repetition { base, .. } => {
            lemma_lower_error(*base);
        },
        PartialModel::Group(parts) => {
            assert(spec_lower_list(parts) is Err ==> parts.len() > 0);
        },
        PartialModel::Alternation(parts) => {
            assert(spec_lower_list(parts) is Err ==> parts.len() > 0);
        },
        _ => {},
    }
}

/// A list with an item that cannot be lowered cannot be lowered.
pub proof fn lemma_lower_list_error(parts: Seq<PartialModel>, i: int)
    requires
        0 <= i < parts.len(),
        spec_lower(parts[i]) is Err,
    ensures
        spec_lower_list(parts) == Err::<Seq<AstModel>, RegexError>(RegexError::UnexpectedToken),
    decreases parts.len(),
{
    if i < parts.len() - 1 {
        lemma_lower_list_error(parts.drop_last(), i);
    }
}

// ---------------------------------------------------------- executable code

impl PartiallyParsed {
    /// A deep copy with the same value.
    pub fn duplicate(&self) -> (copy: PartiallyParsed)
        ensures
            copy@ == self@,
        decreases self,
    {
        match self {
            PartiallyParsed::Lexed(token) => PartiallyParsed::Lexed(token.duplicate()),
            PartiallyParsed::Group(parts) => {
                proof {
                    assert(decreases_to!(*self => self->Group_0));
                }
                let copies = Self::duplicate_all(parts);
                let copy = PartiallyParsed::Group(copies);
                assert(copy@->Group_0 =~= partial_models(copies@));
                assert(self@->Group_0 =~= partial_models(parts@));
                copy
            },
            PartiallyParsed::Repetition { base, min, max } => PartiallyParsed::Repetition {
                base: Box::new(base.duplicate()),
                min: *min,
                max: *max,
            },
            PartiallyParsed::Alternation(parts) => {
                proof {
                    assert(decreases_to!(*self => self->Alternation_0));
                }
                let copies = Self::duplicate_all(parts);
                let copy = PartiallyParsed::Alternation(copies);
                assert(copy@->Alternation_0 =~= partial_models(copies@));
                assert(self@->Alternation_0 =~= partial_models(parts@));
                copy
            },
        }
    }

    /// Deep copies of the items of a list.
    pub fn duplicate_all(parts: &Vec<PartiallyParsed>) -> (copies: Vec<PartiallyParsed>)
        ensures
            partial_models(copies@) == partial_models(parts@),
        decreases parts,
    {
        let mut copies: Vec<PartiallyParsed> = Vec::new();
        let mut i: usize = 0;
        while i < parts.len()
            invariant
                i <= parts.len(),
                copies@.len() == i,
                forall|j: int| 0 <= j < i ==> (#[trigger] copies@[j])@ == parts@[j]@,
            decreases parts.len() - i,
        {
            proof {
                vstd::std_specs::vec::axiom_vec_index_decreases(*parts, i as int);
            }
            copies.push(parts[i].duplicate());
            i += 1;
        }
        assert(partial_models(copies@) =~= partial_models(parts@));
        copies
    }

    /// The bounds of a repetition token that has no base yet.
    fn raw_repetition(&self) -> (bounds: Option<(Option<u64>, Option<u64>)>)
        ensures
            match bounds {
                Some((min, max)) => self@ == PartialModel::Lexed(
                    TokenModel::Repetition { min, max },
                ),
                None => !is_raw_repetition(self@),
            },
    {
        match self {
            PartiallyParsed::Lexed(RegexToken::Repetition { min, max }) => Some((*min, *max)),
            _ => None,
        }
    }

    /// Whether this is the token with the given fixed value.
    fn is_token(&self, token: &RegexToken) -> (same: bool)
        requires
            token@ == TokenModel::Alternation || token@ == TokenModel::OpenGroup || token@
                == TokenModel::CloseGroup,
        ensures
            same == (self@ == PartialModel::Lexed(token@)),
    {
        match (self, token) {
            (PartiallyParsed::Lexed(RegexToken::Alternation), RegexToken::Alternation) => true,
            (PartiallyParsed::Lexed(RegexToken::OpenGroup), RegexToken::OpenGroup) => true,
            (PartiallyParsed::Lexed(RegexToken::CloseGroup), RegexToken::CloseGroup) => true,
            _ => false,
        }
    }
}

impl Clone for PartiallyParsed {
    fn clone(&self) -> (copy: PartiallyParsed)
        ensures
            copy@ == self@,
    {
        self.duplicate()
    }
}

impl RegexEntry {
    /// Parses a pattern into its syntax tree.
    pub fn parse(regex: &str) -> (result: Result<RegexEntry, RegexError>)
        ensures
            match spec_parse(regex@) {
                Ok(model) => result matches Ok(entry) && entry@ == model && is_simplified(entry@),
                Err(error) => result == Err::<RegexEntry, RegexError>(error),
            },
    {
        let lexed = match Self::lex(regex) {
            Ok(lexed) => lexed,
            Err(error) => {
                return Err(error);
            },
        };
        let grouped = Self::group(lexed);
        let repetitions = match Self::parse_for_all_groups_recursively(
            grouped,
            ParseStage::Repetitions,
        ) {
            Ok(parts) => parts,
            Err(error) => {
                return Err(error);
            },
        };
        let alternations = match Self::parse_for_all_groups_recursively(
            repetitions,
            ParseStage::Alternations,
        ) {
            Ok(parts) => parts,
            Err(error) => {
                return Err(error);
            },
        };
        let parsed = match Self::finish_parsing(alternations) {
            Ok(entry) => entry,
            Err(error) => {
                return Err(error);
            },
        };
        proof {
            lemma_simplify_simplifies(parsed@);
        }
        Ok(Self::simplify_ast(&parsed))
    }

    /// The tokens of a pattern, each as a partly parsed pattern of its own.
    pub fn lex(regex: &str) -> (result: Result<Vec<PartiallyParsed>, RegexError>)
        ensures
            match spec_tokens(regex@, 0) {
                Ok(tokens) => result matches Ok(parts) && partial_models(parts@) == spec_lex(
                    tokens,
                ),
                Err(error) => result == Err::<Vec<PartiallyParsed>, RegexError>(error),
            },
    {
        match RegexToken::parse(regex) {
            Err(error) => Err(error),
            Ok(tokens) => {
                let mut parts: Vec<PartiallyParsed> = Vec::new();
                let mut i: usize = 0;
                while i < tokens.len()
                    invariant
                        i <= tokens.len(),
                        parts@.len() == i,
                        forall|j: int|
                            0 <= j < i ==> (#[trigger] parts@[j])@ == PartialModel::Lexed(
                                tokens@[j]@,
                            ),
                    decreases tokens.len() - i,
                {
                    parts.push(PartiallyParsed::Lexed(tokens[i].duplicate()));
                    i += 1;
                }
                assert(partial_models(parts@) =~= spec_lex(token_models(tokens@)));
                Ok(parts)
            },
        }
    }

    /// Makes every parenthesised run of items one group. The end of the list
    /// closes the groups that are still open.
    pub fn group(input: Vec<PartiallyParsed>) -> (output: Vec<PartiallyParsed>)
        ensures
            partial_models(output@) == spec_group(partial_models(input@)),
    {
        let (output, _) = Self::parse_group(&input, 0);
        output
    }

    /// Collects the items from `pos` up to the parenthesis that closes them.
    fn parse_group(input: &Vec<PartiallyParsed>, pos: usize) -> (result: (
        Vec<PartiallyParsed>,
        usize,
    ))
        requires
            pos <= input.len(),
        ensures
            partial_models(result.0@) == spec_group_from(partial_models(input@), pos as int).0,
            result.1 == spec_group_from(partial_models(input@), pos as int).1,
            pos <= result.1 <= input.len(),
            pos < input.len() ==> pos < result.1,
        decreases input.len() - pos,
    {
        let ghost items = partial_models(input@);
        let mut output: Vec<PartiallyParsed> = Vec::new();
        let mut at: usize = pos;
        assert(partial_models(output@) + spec_group_from(items, pos as int).0
            =~= spec_group_from(items, pos as int).0);
        loop
            invariant_except_break
                spec_group_from(items, pos as int) == (
                    partial_models(output@) + spec_group_from(items, at as int).0,
                    spec_group_from(items, at as int).1,
                ),
            invariant
                items == partial_models(input@),
                pos <= at <= input.len(),
                pos < input.len() && at == pos ==> output@.len() == 0,
            ensures
                spec_group_from(items, pos as int) == (partial_models(output@), at as int),
                pos < input.len() ==> pos < at,
            decreases input.len() - at,
        {
            if at >= input.len() {
                assert(partial_models(output@) + Seq::<PartialModel>::empty() =~= partial_models(
                    output@,
                ));
                break ;
            }
            proof {
                lemma_group_advances(items, at as int + 1);
            }
            if input[at].is_token(&RegexToken::CloseGroup) {
                assert(partial_models(output@) + Seq::<PartialModel>::empty() =~= partial_models(
                    output@,
                ));
                at += 1;
                break ;
            } else if input[at].is_token(&RegexToken::OpenGroup) {
                let (inner, after) = Self::parse_group(input, at + 1);
                let part = PartiallyParsed::Group(inner);
                proof {
                    assert(part@->Group_0 =~= spec_group_from(items, at + 1).0);
                    let rest = spec_group_from(items, after as int);
                    assert(partial_models(output@.push(part)) + rest.0 =~= partial_models(output@)
                        + (seq![part@] + rest.0));
                }
                output.push(part);
                at = after;
            } else {
                let part = input[at].duplicate();
                proof {
                    let rest = spec_group_from(items, at + 1);
                    assert(partial_models(output@.push(part)) + rest.0 =~= partial_models(output@)
                        + (seq![part@] + rest.0));
                }
                output.push(part);
                at += 1;
            }
        }
        (output, at)
    }

    /// Applies a stage to a list and then to every list inside its items.
    pub fn parse_for_all_groups_recursively(input: Vec<PartiallyParsed>, stage: ParseStage) -> (result:
        Result<Vec<PartiallyParsed>, RegexError>)
        ensures
            match spec_deep(stage, partial_models(input@)) {
                Ok(models) => result matches Ok(parts) && partial_models(parts@) == models,
                Err(error) => result == Err::<Vec<PartiallyParsed>, RegexError>(error),
            },
        decreases list_size(partial_models(input@)), 1nat,
    {
        let ghost items = partial_models(input@);
        let staged = match stage {
            ParseStage::Repetitions => Self::parse_repetitions(input),
            ParseStage::Alternations => Self::parse_alternation(input),
        };
        let parts = match staged {
            Ok(parts) => parts,
            Err(error) => {
                return Err(error);
            },
        };
        let ghost models = partial_models(parts@);
        proof {
            lemma_stage_size(stage, items);
        }
        let mut output: Vec<PartiallyParsed> = Vec::new();
        let mut i: usize = 0;
        assert(models.subrange(0, 0) =~= Seq::<PartialModel>::empty());
        assert(partial_models(output@) =~= Seq::<PartialModel>::empty());
        while i < parts.len()
            invariant
                i <= parts.len(),
                models == partial_models(parts@),
                list_size(models) <= list_size(items),
                items == partial_models(input@),
                spec_deep(stage, items) == spec_deep_each(stage, models),
                spec_deep_each(stage, models.subrange(0, i as int)) == Ok::<
                    Seq<PartialModel>,
                    RegexError,
                >(partial_models(output@)),
            decreases parts.len() - i,
        {
            proof {
                lemma_list_size_index(models, i as int);
                assert(models.subrange(0, i + 1).drop_last() =~= models.subrange(0, i as int));
                assert(models.subrange(0, i + 1).last() == models[i as int]);
            }
            match Self::parse_child_recursively(&parts[i], stage) {
                Ok(node) => {
                    proof {
                        assert(partial_models(output@.push(node)) =~= partial_models(output@).push(
                            node@,
                        ));
                    }
                    output.push(node);
                },
                Err(error) => {
                    proof {
                        lemma_deep_each_prefix(stage, models, i + 1);
                    }
                    return Err(error);
                },
            }
            i += 1;
        }
        assert(models.subrange(0, i as int) =~= models);
        Ok(output)
    }

    /// Applies a stage to every list inside one item.
    fn parse_child_recursively(child: &PartiallyParsed, stage: ParseStage) -> (result: Result<
        PartiallyParsed,
        RegexError,
    >)
        ensures
            match spec_deep_node(stage, child@) {
                Ok(model) => result matches Ok(node) && node@ == model,
                Err(error) => result == Err::<PartiallyParsed, RegexError>(error),
            },
        decreases node_size(child@), 0nat,
    {
        match child {
            PartiallyParsed::Group(parts) => {
                let inner = PartiallyParsed::duplicate_all(parts);
                assert(child@->Group_0 =~= partial_models(parts@));
                match Self::parse_for_all_groups_recursively(inner, stage) {
                    Ok(parsed) => {
                        let node = PartiallyParsed::Group(parsed);
                        assert(node@->Group_0 =~= partial_models(parsed@));
                        Ok(node)
                    },
                    Err(error) => Err(error),
                }
            },
            PartiallyParsed::Alternation(parts) => {
                let inner = PartiallyParsed::duplicate_all(parts);
                assert(child@->Alternation_0 =~= partial_models(parts@));
                match Self::parse_for_all_groups_recursively(inner, stage) {
                    Ok(parsed) => {
                        let node = PartiallyParsed::Alternation(parsed);
                        assert(node@->Alternation_0 =~= partial_models(parsed@));
                        Ok(node)
                    },
                    Err(error) => Err(error),
                }
            },
            PartiallyParsed::Repetition { base, min, max } => {
                match Self::parse_child_recursively(base, stage) {
                    Ok(parsed) => Ok(
                        PartiallyParsed::Repetition { base: Box::new(parsed), min: *min, max: *max },
                    ),
                    Err(error) => Err(error),
                }
            },
            PartiallyParsed::Lexed(_) => Ok(child.duplicate()),
        }
    }

    /// Attaches every repetition token of a list to the item before it.
    pub fn parse_repetitions(input: Vec<PartiallyParsed>) -> (result: Result<
        Vec<PartiallyParsed>,
        RegexError,
    >)
        ensures
            match spec_repetitions(partial_models(input@), 0) {
                Ok(models) => result matches Ok(parts) && partial_models(parts@) == models,
                Err(error) => result == Err::<Vec<PartiallyParsed>, RegexError>(error),
            },
    {
        let ghost items = partial_models(input@);
        let mut output: Vec<PartiallyParsed> = Vec::new();
        let mut at: usize = 0;
        assert(partial_models(output@) =~= Seq::<PartialModel>::empty());
        while at < input.len()
            invariant
                items == partial_models(input@),
                at <= input.len(),
                spec_repetitions(items, 0) == match spec_repetitions(items, at as int) {
                    Ok(rest) => Ok::<Seq<PartialModel>, RegexError>(partial_models(output@) + rest),
                    Err(error) => Err(error),
                },
            decreases input.len() - at,
        {
            if input[at].raw_repetition().is_some() {
                return Err(RegexError::RepetitionWithoutBase);
            }
            let follower = if at + 1 < input.len() {
                input[at + 1].raw_repetition()
            } else {
                None
            };
            match follower {
                Some((min, max)) => {
                    let part = PartiallyParsed::Repetition {
                        base: Box::new(input[at].duplicate()),
                        min,
                        max,
                    };
                    proof {
                        let rest = spec_repetitions(items, at + 2);
                        if rest is Ok {
                            assert(partial_models(output@.push(part)) + rest->Ok_0
                                =~= partial_models(output@) + (seq![part@] + rest->Ok_0));
                        }
                    }
                    output.push(part);
                    at += 2;
                },
                None => {
                    let part = input[at].duplicate();
                    proof {
                        let rest = spec_repetitions(items, at + 1);
                        if rest is Ok {
                            assert(partial_models(output@.push(part)) + rest->Ok_0
                                =~= partial_models(output@) + (seq![part@] + rest->Ok_0));
                        }
                    }
                    output.push(part);
                    at += 1;
                },
            }
        }
        assert(partial_models(output@) + Seq::<PartialModel>::empty() =~= partial_models(output@));
        Ok(output)
    }

    /// Makes every bar of a list one alternation of its two neighbours;
    /// bars in a row make one alternation of all their operands.
    pub fn parse_alternation(input: Vec<PartiallyParsed>) -> (result: Result<
        Vec<PartiallyParsed>,
        RegexError,
    >)
        ensures
            match spec_alternation(Seq::empty(), partial_models(input@), 0) {
                Ok(models) => result matches Ok(parts) && partial_models(parts@) == models,
                Err(error) => result == Err::<Vec<PartiallyParsed>, RegexError>(error),
            },
    {
        let ghost items = partial_models(input@);
        let mut output: Vec<PartiallyParsed> = Vec::new();
        let mut at: usize = 0;
        assert(partial_models(output@) =~= Seq::<PartialModel>::empty());
        while at < input.len()
            invariant
                items == partial_models(input@),
                at <= input.len(),
                spec_alternation(Seq::empty(), items, 0) == spec_alternation(
                    partial_models(output@),
                    items,
                    at as int,
                ),
            decreases input.len() - at,
        {
            if input[at].is_token(&RegexToken::Alternation) {
                if output.len() == 0 {
                    return Err(RegexError::AlternationWithoutPreceding);
                }
                if at + 1 >= input.len() {
                    return Err(RegexError::AlternationWithoutSucceeding);
                }
                let ghost before = partial_models(output@);
                let preceding = output.pop().unwrap();
                let succeeding = input[at + 1].duplicate();
                let joined = match preceding {
                    PartiallyParsed::Alternation(mut members) => {
                        members.push(succeeding);
                        let joined = PartiallyParsed::Alternation(members);
                        assert(joined@->Alternation_0 =~= preceding@->Alternation_0.push(
                            succeeding@,
                        ));
                        joined
                    },
                    other => {
                        let mut members: Vec<PartiallyParsed> = Vec::new();
                        members.push(other);
                        members.push(succeeding);
                        let joined = PartiallyParsed::Alternation(members);
                        assert(joined@->Alternation_0 =~= seq![preceding@, succeeding@]);
                        joined
                    },
                };
                proof {
                    assert(partial_models(output@) =~= before.drop_last());
                    assert(before.last() == preceding@);
                    assert(partial_models(output@.push(joined)) =~= before.drop_last().push(
                        joined@,
                    ));
                }
                output.push(joined);
                at += 2;
            } else {
                let part = input[at].duplicate();
                proof {
                    assert(partial_models(output@.push(part)) =~= partial_models(output@).push(
                        part@,
                    ));
                }
                output.push(part);
                at += 1;
            }
        }
        Ok(output)
    }

    /// Lowers the items of the whole pattern into one concatenation.
    pub fn finish_parsing(input: Vec<PartiallyParsed>) -> (result: Result<RegexEntry, RegexError>)
        ensures
            match spec_finish(partial_models(input@)) {
                Ok(model) => result matches Ok(entry) && entry@ == model,
                Err(error) => result == Err::<RegexEntry, RegexError>(error),
            },
    {
        match Self::lower_all(&input) {
            Ok(entries) => {
                let entry = RegexEntry::Concatenation(entries);
                assert(entry@->Concatenation_0 =~= ast_models(entries@));
                Ok(entry)
            },
            Err(error) => Err(error),
        }
    }

    /// Lowers every item of a list.
    fn lower_all(parts: &Vec<PartiallyParsed>) -> (result: Result<Vec<RegexEntry>, RegexError>)
        ensures
            match spec_lower_list(partial_models(parts@)) {
                Ok(models) => result matches Ok(entries) && ast_models(entries@) == models,
                Err(error) => result == Err::<Vec<RegexEntry>, RegexError>(error),
            },
        decreases parts,
    {
        let ghost models = partial_models(parts@);
        let mut entries: Vec<RegexEntry> = Vec::new();
        let mut i: usize = 0;
        assert(models.subrange(0, 0) =~= Seq::<PartialModel>::empty());
        assert(ast_models(entries@) =~= Seq::<AstModel>::empty());
        while i < parts.len()
            invariant
                i <= parts.len(),
                models == partial_models(parts@),
                spec_lower_list(models.subrange(0, i as int)) == Ok::<Seq<AstModel>, RegexError>(
                    ast_models(entries@),
                ),
            decreases parts.len() - i,
        {
            proof {
                vstd::std_specs::vec::axiom_vec_index_decreases(*parts, i as int);
                assert(models.subrange(0, i + 1).drop_last() =~= models.subrange(0, i as int));
                assert(models.subrange(0, i + 1).last() == models[i as int]);
            }
            match Self::lower_single_partially_parsed(&parts[i]) {
                Ok(entry) => {
                    proof {
                        assert(ast_models(entries@.push(entry)) =~= ast_models(entries@).push(
                            entry@,
                        ));
                    }
                    entries.push(entry);
                },
                Err(error) => {
                    proof {
                        lemma_lower_error(models[i as int]);
                        lemma_lower_list_error(models, i as int);
                    }
                    return Err(error);
                },
            }
            i += 1;
        }
        assert(models.subrange(0, i as int) =~= models);
        Ok(entries)
    }

    /// Lowers one fully parsed item into a syntax tree.
    fn lower_single_partially_parsed(partially_parsed: &PartiallyParsed) -> (result: Result<
        RegexEntry,
        RegexError,
    >)
        ensures
            match spec_lower(partially_parsed@) {
                Ok(model) => result matches Ok(entry) && entry@ == model,
                Err(error) => result == Err::<RegexEntry, RegexError>(error),
            },
        decreases partially_parsed,
    {
        match partially_parsed {
            PartiallyParsed::Lexed(RegexToken::AnyCharacter) => Ok(RegexEntry::AnyCharacter),
            PartiallyParsed::Lexed(RegexToken::NonUnicodeCharacterClass(class)) => Ok(
                RegexEntry::NonUnicodeCharacterClass(class.duplicate()),
            ),
            PartiallyParsed::Lexed(RegexToken::NegatedUnicodeCharacterClass(categories)) => Ok(
                RegexEntry::NegatedUnicodeCharacterClass(copy_categories(categories)),
            ),
            PartiallyParsed::Lexed(RegexToken::UnicodeCharacterClass(categories)) => Ok(
                RegexEntry::UnicodeCharacterClass(copy_categories(categories)),
            ),
            PartiallyParsed::Lexed(RegexToken::Literal(literal)) => Ok(
                RegexEntry::Literal(*literal),
            ),
            PartiallyParsed::Lexed(_) => Err(RegexError::UnexpectedToken),
            PartiallyParsed::Group(concatenation) => {
                proof {
                    assert(decreases_to!(*partially_parsed => partially_parsed->Group_0));
                }
                assert(partially_parsed@->Group_0 =~= partial_models(concatenation@));
                match Self::lower_all(concatenation) {
                    Ok(entries) => {
                        let entry = RegexEntry::Concatenation(entries);
                        assert(entry@->Concatenation_0 =~= ast_models(entries@));
                        Ok(entry)
                    },
                    Err(error) => Err(error),
                }
            },
            PartiallyParsed::Repetition { base, min, max } => {
                match Self::lower_single_partially_parsed(base) {
                    Ok(entry) => Ok(
                        RegexEntry::Repetition { base: Box::new(entry), min: *min, max: *max },
                    ),
                    Err(error) => Err(error),
                }
            },
            PartiallyParsed::Alternation(entries) => {
                proof {
                    assert(decreases_to!(*partially_parsed => partially_parsed->Alternation_0));
                }
                assert(partially_parsed@->Alternation_0 =~= partial_models(entries@));
                match Self::lower_all(entries) {
                    Ok(lowered) => {
                        let entry = RegexEntry::Alternation(lowered);
                        assert(entry@->Alternation_0 =~= ast_models(lowered@));
                        Ok(entry)
                    },
                    Err(error) => Err(error),
                }
            },
        }
    }

    /// The tree with every concatenation and alternation of one member
    /// replaced by that member.
    pub fn simplify_ast(input: &RegexEntry) -> (output: RegexEntry)
        ensures
            output@ == spec_simplify(input@),
        decreases input,
    {
        match input {
            RegexEntry::Alternation(members) => {
                proof {
                    assert(decreases_to!(*input => input->Alternation_0));
                }
                if members.len() == 1 {
                    proof {
                        vstd::std_specs::vec::axiom_vec_index_decreases(*members, 0);
                    }
                    Self::simplify_ast(&members[0])
                } else {
                    let simplified = Self::simplify_all(members);
                    let output = RegexEntry::Alternation(simplified);
                    assert(output@->Alternation_0 =~= spec_simplify(input@)->Alternation_0);
                    output
                }
            },
            RegexEntry::Concatenation(members) => {
                proof {
                    assert(decreases_to!(*input => input->Concatenation_0));
                }
                if members.len() == 1 {
                    proof {
                        vstd::std_specs::vec::axiom_vec_index_decreases(*members, 0);
                    }
                    Self::simplify_ast(&members[0])
                } else {
                    let simplified = Self::simplify_all(members);
                    let output = RegexEntry::Concatenation(simplified);
                    assert(output@->Concatenation_0 =~= spec_simplify(input@)->Concatenation_0);
                    output
                }
            },
            RegexEntry::Repetition { base, min, max } => RegexEntry::Repetition {
                base: Box::new(Self::simplify_ast(base)),
                min: *min,
                max: *max,
            },
            RegexEntry::AnyCharacter => RegexEntry::AnyCharacter,
            RegexEntry::UnicodeCharacterClass(categories) => RegexEntry::UnicodeCharacterClass(
                copy_categories(categories),
            ),
            RegexEntry::NegatedUnicodeCharacterClass(categories) =>
                RegexEntry::NegatedUnicodeCharacterClass(copy_categories(categories)),
            RegexEntry::NonUnicodeCharacterClass(class) => RegexEntry::NonUnicodeCharacterClass(
                class.duplicate(),
            ),
            RegexEntry::Literal(c) => RegexEntry::Literal(*c),
        }
    }

    /// Every member of a list simplified.
    fn simplify_all(members: &Vec<RegexEntry>) -> (simplified: Vec<RegexEntry>)
        ensures
            simplified@.len() == members@.len(),
            forall|i: int|
                0 <= i < members@.len() ==> (#[trigger] simplified@[i])@ == spec_simplify(
                    members@[i]@,
                ),
        decreases members,
    {
        let mut simplified: Vec<RegexEntry> = Vec::new();
        let mut i: usize = 0;
        while i < members.len()
            invariant
                i <= members.len(),
                simplified@.len() == i,
                forall|j: int|
                    0 <= j < i ==> (#[trigger] simplified@[j])@ == spec_simplify(members@[j]@),
            decreases members.len() - i,
        {
            proof {
                vstd::std_specs::vec::axiom_vec_index_decreases(*members, i as int);
            }
            simplified.push(Self::simplify_ast(&members[i]));
            i += 1;
        }
        simplified
    }
}

} // verus!
