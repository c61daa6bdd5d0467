//! What the options of an index come to.

use crate::options::{
    decoded, default_settings, definitions, encoded, option_settings, ChoiceSet, Folding,
    GraphemeMode, IndexOptions, LongTokenMode, OptionDefinition, OptionKind, PositionGapMode,
    TokenizerPipelineSpec, TokenizerSpec,
};
use vstd::prelude::*;

verus! {

/// What a user calls the tokenizer.
pub open spec fn tokenizer_name(tokenizer: TokenizerSpec) -> Seq<char> {
    match tokenizer {
        TokenizerSpec::Unicode => "unicode"@,
        TokenizerSpec::Whitespace => "whitespace"@,
        TokenizerSpec::Jieba => "jieba"@,
    }
}

/// What a user calls the folding policy.
pub open spec fn folding_name(folding: Folding) -> Seq<char> {
    match folding {
        Folding::Preserve => "preserve"@,
        Folding::Fold => "fold"@,
    }
}

/// What a user calls the policy on long tokens.
pub open spec fn long_name(mode: LongTokenMode) -> Seq<char> {
    match mode {
        LongTokenMode::Truncate => "truncate"@,
        LongTokenMode::Discard => "discard"@,
        LongTokenMode::Split => "split"@,
    }
}

/// What a user calls the policy on graphemes.
pub open spec fn grapheme_name(mode: GraphemeMode) -> Seq<char> {
    match mode {
        GraphemeMode::Discard => "discard"@,
        GraphemeMode::Emoji => "emoji"@,
        GraphemeMode::Retain => "retain"@,
    }
}

/// What a user calls the policy on removed tokens.
pub open spec fn gap_name(mode: PositionGapMode) -> Seq<char> {
    match mode {
        PositionGapMode::Collapse => "collapse"@,
        PositionGapMode::Preserve => "preserve"@,
    }
}

/// The number stands for one of the values that the option lists, the one that
/// the user calls `name`.
pub open spec fn means(definition: OptionDefinition, code: i32, name: Seq<char>) -> bool {
    definition.kind matches OptionKind::Choice { members, default: _ } && 0 <= code
        < members.names().len() && members.names()[code as int]@ == name
}

/// The number is one of the codes of the option.
pub open spec fn is_code(definition: OptionDefinition, code: i32) -> bool {
    definition.kind matches OptionKind::Choice { members, default: _ } && 0 <= code
        < members.names().len()
}

/// The value of an option that is not set.
pub open spec fn unset(definition: OptionDefinition) -> i32 {
    match definition.kind {
        OptionKind::Choice { members: _, default } => default,
        OptionKind::Integer { default, min: _, max: _ } => default,
        _ => 0,
    }
}

/// Every number of an option is of one of the values that the option table
/// lists for it.
pub open spec fn in_table(options: IndexOptions, table: Seq<OptionDefinition>) -> bool {
    &&& is_code(table[5], options.tokenizer)
    &&& is_code(table[6], options.case_folding)
    &&& is_code(table[7], options.accent_folding)
    &&& is_code(table[8], options.long_tokens)
    &&& is_code(table[10], options.graphemes)
    &&& is_code(table[11], options.position_gaps)
}

/// An index has the settings that its options name: the value that stands at an
/// option's place in the list of the values is the setting of that name.
pub proof fn law_options_are_what_they_name(options: IndexOptions, least: i32, most: i32)
    requires
        options.max_token_bytes >= 0,
        in_table(options, definitions(least, most)),
    ensures
        ({
            let table = definitions(least, most);
            let settings = option_settings(options);
            &&& table.len() == 15
            &&& table[5].name@ == "tokenizer"@ && means(
                table[5],
                options.tokenizer,
                tokenizer_name(settings.tokenizer),
            )
            &&& table[6].name@ == "case_folding"@ && means(
                table[6],
                options.case_folding,
                folding_name(settings.case_folding),
            )
            &&& table[7].name@ == "accent_folding"@ && means(
                table[7],
                options.accent_folding,
                folding_name(settings.accent_folding),
            )
            &&& table[8].name@ == "long_tokens"@ && means(
                table[8],
                options.long_tokens,
                long_name(settings.long_tokens.mode),
            )
            &&& table[9].name@ == "max_token_bytes"@ && settings.long_tokens.max_bytes
                == options.max_token_bytes
            &&& table[10].name@ == "graphemes"@ && means(
                table[10],
                options.graphemes,
                grapheme_name(settings.graphemes),
            )
            &&& table[11].name@ == "position_gaps"@ && means(
                table[11],
                options.position_gaps,
                gap_name(settings.position_gaps),
            )
        }),
{
}

/// Different values of an option are different settings.
pub proof fn law_options_differ(a: IndexOptions, b: IndexOptions, least: i32, most: i32)
    requires
        a.max_token_bytes >= 0,
        b.max_token_bytes >= 0,
        in_table(a, definitions(least, most)),
        in_table(b, definitions(least, most)),
        option_settings(a) == option_settings(b),
    ensures
        a == (IndexOptions { score_stop_words: a.score_stop_words, ..b }),
{
}

/// An index that sets options to what they are when they are not set has the
/// settings of one that sets none: it splits at Unicode's word boundaries, folds
/// case and accents, splits tokens of more than 256 bytes, keeps emoji of the
/// graphemes, and preserves the positions of removed tokens.
pub proof fn law_unset_options_are_the_defaults(options: IndexOptions, least: i32, most: i32)
    requires
        ({
            let table = definitions(least, most);
            &&& options.tokenizer == unset(table[5])
            &&& options.case_folding == unset(table[6])
            &&& options.accent_folding == unset(table[7])
            &&& options.long_tokens == unset(table[8])
            &&& options.max_token_bytes == unset(table[9])
            &&& options.graphemes == unset(table[10])
            &&& options.position_gaps == unset(table[11])
        }),
    ensures
        in_table(options, definitions(least, most)),
        option_settings(options) == default_settings(),
        tokenizer_name(default_settings().tokenizer) == "unicode"@,
        folding_name(default_settings().case_folding) == "fold"@,
        folding_name(default_settings().accent_folding) == "fold"@,
        long_name(default_settings().long_tokens.mode) == "split"@,
        default_settings().long_tokens.max_bytes == 256,
        grapheme_name(default_settings().graphemes) == "emoji"@,
        gap_name(default_settings().position_gaps) == "preserve"@,
{
}

/// A setting is stored as the number of its option.
pub proof fn law_settings_are_stored_by_option(options: IndexOptions, least: i32, most: i32)
    requires
        0 <= options.max_token_bytes <= u16::MAX,
        in_table(options, definitions(least, most)),
    ensures
        ({
            let bytes = encoded(option_settings(options));
            &&& bytes.len() == 8
            &&& bytes[0] == options.tokenizer
            &&& bytes[1] == options.case_folding
            &&& bytes[2] == options.accent_folding
            &&& bytes[3] == options.long_tokens
            &&& bytes[4] + 256 * bytes[5] == options.max_token_bytes
            &&& bytes[6] == options.graphemes
            &&& bytes[7] == options.position_gaps
            &&& decoded(bytes) == option_settings(options)
        }),
{
}

/// Different settings are stored differently, as far as their limits fit.
pub proof fn law_settings_differ_when_stored(a: TokenizerPipelineSpec, b: TokenizerPipelineSpec)
    requires
        a.long_tokens.max_bytes <= u16::MAX,
        b.long_tokens.max_bytes <= u16::MAX,
        a != b,
    ensures
        encoded(a) != encoded(b),
{
    crate::options::law_settings_survive(a);
    crate::options::law_settings_survive(b);
}

/// An option that is not set has a value among those it may be set to.
pub proof fn law_unset_options_are_allowed(least: i32, most: i32, i: int)
    requires
        least <= 256 <= most,
        0 <= i < definitions(least, most).len(),
    ensures
        match definitions(least, most)[i].kind {
            OptionKind::Integer { default, min, max } => min <= default <= max,
            OptionKind::Choice { members, default } => 0 <= default < members.names().len(),
            _ => true,
        },
{
}

/// The names that a user can choose from differ.
pub proof fn law_choices_have_one_name(members: ChoiceSet, i: int, j: int)
    requires
        0 <= i < j < members.names().len(),
    ensures
        members.names()[i]@ != members.names()[j]@,
{
    reveal_strlit("unicode");
    reveal_strlit("whitespace");
    reveal_strlit("jieba");
    reveal_strlit("preserve");
    reveal_strlit("fold");
    reveal_strlit("truncate");
    reveal_strlit("discard");
    reveal_strlit("split");
    reveal_strlit("emoji");
    reveal_strlit("retain");
    reveal_strlit("collapse");
    assert("unicode"@[0] == 'u' && "whitespace"@[0] == 'w' && "jieba"@[0] == 'j');
    assert("preserve"@[0] == 'p' && "fold"@[0] == 'f' && "collapse"@[0] == 'c');
    assert("truncate"@[0] == 't' && "discard"@[0] == 'd' && "split"@[0] == 's');
    assert("emoji"@[0] == 'e' && "retain"@[0] == 'r');
    assert(members.names()[i]@[0] != members.names()[j]@[0]);
}

/// The options that are accepted and ignored are the first five of the table, and
/// no other option of the table is ignored.
pub proof fn law_the_first_options_are_ignored(least: i32, most: i32, i: int)
    requires
        0 <= i < definitions(least, most).len(),
    ensures
        crate::options::ignored(definitions(least, most)[i].name@) <==> i < 5,
{
    reveal_strlit("initial_segment_count");
    reveal_strlit("target_segment_count");
    reveal_strlit("max_mutable_segment_size");
    reveal_strlit("max_merged_segment_size");
    reveal_strlit("dead_percent_threshold");
    reveal_strlit("tokenizer");
    reveal_strlit("case_folding");
    reveal_strlit("accent_folding");
    reveal_strlit("long_tokens");
    reveal_strlit("max_token_bytes");
    reveal_strlit("graphemes");
    reveal_strlit("position_gaps");
    reveal_strlit("k1");
    reveal_strlit("b");
    reveal_strlit("score_stop_words");
    let name = definitions(least, most)[i].name@;
    assert("initial_segment_count"@.len() == 21 && "target_segment_count"@.len() == 20);
    assert("max_mutable_segment_size"@.len() == 24 && "max_merged_segment_size"@.len() == 23);
    assert("dead_percent_threshold"@.len() == 22);
    if i >= 5 {
        assert(name.len() < 20);
    }
}

} // verus!
