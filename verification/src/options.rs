//! Index options: tokenizer settings and how the index stores them, scoring
//! parameters, and options that are accepted and ignored.

use crate::text::same;
use vstd::prelude::*;

verus! {

/// Token boundary policy.
#[derive(Clone, Copy, Debug, PartialEq, Eq, Structural)]
pub enum TokenizerSpec {
    Unicode,
    Whitespace,
    Jieba,
}

/// Case or accent folding policy.
#[derive(Clone, Copy, Debug, PartialEq, Eq, Structural)]
pub enum Folding {
    Preserve,
    Fold,
}

/// What becomes of a token that is too long.
#[derive(Clone, Copy, Debug, PartialEq, Eq, Structural)]
pub enum LongTokenMode {
    Truncate,
    Discard,
    Split,
}

/// Long-token policy.
#[derive(Clone, Copy, Debug, PartialEq, Eq, Structural)]
pub struct LongTokenSpec {
    pub mode: LongTokenMode,
    pub max_bytes: usize,
}

/// Standalone grapheme policy.
#[derive(Clone, Copy, Debug, PartialEq, Eq, Structural)]
pub enum GraphemeMode {
    Discard,
    Emoji,
    Retain,
}

/// Position policy for removed tokens.
#[derive(Clone, Copy, Debug, PartialEq, Eq, Structural)]
pub enum PositionGapMode {
    Collapse,
    Preserve,
}

/// Tokenizer settings.
#[derive(Clone, Copy, Debug, PartialEq, Eq, Structural)]
pub struct TokenizerPipelineSpec {
    pub tokenizer: TokenizerSpec,
    pub case_folding: Folding,
    pub accent_folding: Folding,
    pub long_tokens: LongTokenSpec,
    pub graphemes: GraphemeMode,
    pub position_gaps: PositionGapMode,
}

/// The settings of an index that sets none.
pub open spec fn default_settings() -> TokenizerPipelineSpec {
    TokenizerPipelineSpec {
        tokenizer: TokenizerSpec::Unicode,
        case_folding: Folding::Fold,
        accent_folding: Folding::Fold,
        long_tokens: LongTokenSpec { mode: LongTokenMode::Split, max_bytes: 256 },
        graphemes: GraphemeMode::Emoji,
        position_gaps: PositionGapMode::Preserve,
    }
}

impl TokenizerPipelineSpec {
    /// The settings of an index that sets none.
    pub fn stannum_default() -> (spec: Self)
        ensures
            spec == default_settings(),
    {
        TokenizerPipelineSpec {
            tokenizer: TokenizerSpec::Unicode,
            case_folding: Folding::Fold,
            accent_folding: Folding::Fold,
            long_tokens: LongTokenSpec { mode: LongTokenMode::Split, max_bytes: 256 },
            graphemes: GraphemeMode::Emoji,
            position_gaps: PositionGapMode::Preserve,
        }
    }
}

/// Whether the tokenizer takes settings.
pub struct Validation<V> {
    pub accepts: V,
}

impl<V: Fn(TokenizerPipelineSpec) -> bool> Validation<V> {
    /// The tokenizer takes the settings.
    pub open spec fn accepted(self, spec: TokenizerPipelineSpec) -> bool {
        choose|accepted: bool| call_ensures(self.accepts, (spec,), accepted)
    }

    /// Whether settings are taken can always be told, and is always the same.
    pub open spec fn deterministic(self) -> bool {
        &&& forall|spec: TokenizerPipelineSpec| #[trigger] call_requires(self.accepts, (spec,))
        &&& forall|spec: TokenizerPipelineSpec, accepted: bool| #[trigger]
            call_ensures(self.accepts, (spec,), accepted) ==> accepted == self.accepted(spec)
    }
}

/// Serialized tokenizer settings, so scans and inserts analyze text exactly as
/// the build did.
pub const SPEC_BYTES: usize = 8;

pub open spec fn tokenizer_code(tokenizer: TokenizerSpec) -> u8 {
    match tokenizer {
        TokenizerSpec::Unicode => 0,
        TokenizerSpec::Whitespace => 1,
        TokenizerSpec::Jieba => 2,
    }
}

pub open spec fn folding_code(folding: Folding) -> u8 {
    match folding {
        Folding::Preserve => 0,
        Folding::Fold => 1,
    }
}

pub open spec fn long_code(mode: LongTokenMode) -> u8 {
    match mode {
        LongTokenMode::Truncate => 0,
        LongTokenMode::Discard => 1,
        LongTokenMode::Split => 2,
    }
}

pub open spec fn grapheme_code(mode: GraphemeMode) -> u8 {
    match mode {
        GraphemeMode::Discard => 0,
        GraphemeMode::Emoji => 1,
        GraphemeMode::Retain => 2,
    }
}

pub open spec fn gap_code(mode: PositionGapMode) -> u8 {
    match mode {
        PositionGapMode::Collapse => 0,
        PositionGapMode::Preserve => 1,
    }
}

/// The bytes that hold settings. The limit on token length takes two, the low
/// one first, and what does not fit is lost.
pub open spec fn encoded(spec: TokenizerPipelineSpec) -> Seq<u8> {
    seq![
        tokenizer_code(spec.tokenizer),
        folding_code(spec.case_folding),
        folding_code(spec.accent_folding),
        long_code(spec.long_tokens.mode),
        (spec.long_tokens.max_bytes % 256) as u8,
        (spec.long_tokens.max_bytes / 256 % 256) as u8,
        grapheme_code(spec.graphemes),
        gap_code(spec.position_gaps),
    ]
}

/// Every byte is the code of a setting.
pub open spec fn codes_known(bytes: Seq<u8>) -> bool {
    bytes.len() == 8 && bytes[0] <= 2 && bytes[1] <= 1 && bytes[2] <= 1 && bytes[3] <= 2 && bytes[6]
        <= 2 && bytes[7] <= 1
}

/// The settings whose codes the bytes are.
pub open spec fn decoded(bytes: Seq<u8>) -> TokenizerPipelineSpec {
    TokenizerPipelineSpec {
        tokenizer: if bytes[0] == 0 {
            TokenizerSpec::Unicode
        } else if bytes[0] == 1 {
            TokenizerSpec::Whitespace
        } else {
            TokenizerSpec::Jieba
        },
        case_folding: if bytes[1] == 0 {
            Folding::Preserve
        } else {
            Folding::Fold
        },
        accent_folding: if bytes[2] == 0 {
            Folding::Preserve
        } else {
            Folding::Fold
        },
        long_tokens: LongTokenSpec {
            mode: if bytes[3] == 0 {
                LongTokenMode::Truncate
            } else if bytes[3] == 1 {
                LongTokenMode::Discard
            } else {
                LongTokenMode::Split
            },
            max_bytes: (bytes[4] + 256 * bytes[5]) as usize,
        },
        graphemes: if bytes[6] == 0 {
            GraphemeMode::Discard
        } else if bytes[6] == 1 {
            GraphemeMode::Emoji
        } else {
            GraphemeMode::Retain
        },
        position_gaps: if bytes[7] == 0 {
            PositionGapMode::Collapse
        } else {
            PositionGapMode::Preserve
        },
    }
}

/// Reading stored settings back gives the settings.
pub proof fn law_settings_survive(spec: TokenizerPipelineSpec)
    requires
        spec.long_tokens.max_bytes <= u16::MAX,
    ensures
        codes_known(encoded(spec)),
        decoded(encoded(spec)) == spec,
{
}

/// Settings are stored in one way only.
pub proof fn law_stored_settings_unique(bytes: Seq<u8>)
    requires
        codes_known(bytes),
    ensures
        encoded(decoded(bytes)) == bytes,
{
    assert(encoded(decoded(bytes)) =~= bytes);
}

fn folding_byte(folding: Folding) -> (code: u8)
    ensures
        code == folding_code(folding),
{
    match folding {
        Folding::Preserve => 0,
        Folding::Fold => 1,
    }
}

/// The bytes that hold the settings.
pub fn encode_spec(spec: &TokenizerPipelineSpec) -> (bytes: [u8; SPEC_BYTES])
    ensures
        bytes@ == encoded(*spec),
{
    let tokenizer: u8 = match spec.tokenizer {
        TokenizerSpec::Unicode => 0,
        TokenizerSpec::Whitespace => 1,
        TokenizerSpec::Jieba => 2,
    };
    let mode: u8 = match spec.long_tokens.mode {
        LongTokenMode::Truncate => 0,
        LongTokenMode::Discard => 1,
        LongTokenMode::Split => 2,
    };
    let graphemes: u8 = match spec.graphemes {
        GraphemeMode::Discard => 0,
        GraphemeMode::Emoji => 1,
        GraphemeMode::Retain => 2,
    };
    let gaps: u8 = match spec.position_gaps {
        PositionGapMode::Collapse => 0,
        PositionGapMode::Preserve => 1,
    };
    let bytes: [u8; SPEC_BYTES] = [
        tokenizer,
        folding_byte(spec.case_folding),
        folding_byte(spec.accent_folding),
        mode,
        (spec.long_tokens.max_bytes % 256) as u8,
        (spec.long_tokens.max_bytes / 256 % 256) as u8,
        graphemes,
        gaps,
    ];
    proof {
        assert(bytes@ =~= encoded(*spec));
    }
    bytes
}

fn folding_of(code: u8) -> (folding: Folding)
    ensures
        folding == (if code == 0 {
            Folding::Preserve
        } else {
            Folding::Fold
        }),
{
    if code == 0 {
        Folding::Preserve
    } else {
        Folding::Fold
    }
}

/// The settings that the bytes hold: none when a byte is no code, or the
/// tokenizer does not take the settings.
pub fn decode_spec<V: Fn(TokenizerPipelineSpec) -> bool>(
    bytes: &[u8; SPEC_BYTES],
    validation: &Validation<V>,
) -> (spec: Option<TokenizerPipelineSpec>)
    requires
        validation.deterministic(),
    ensures
        spec == (if codes_known(bytes@) && validation.accepted(decoded(bytes@)) {
            Some(decoded(bytes@))
        } else {
            None
        }),
{
    if bytes[0] > 2 || bytes[1] > 1 || bytes[2] > 1 || bytes[3] > 2 || bytes[6] > 2 || bytes[7]
        > 1 {
        return None;
    }
    let spec = TokenizerPipelineSpec {
        tokenizer: match bytes[0] {
            0 => TokenizerSpec::Unicode,
            1 => TokenizerSpec::Whitespace,
            _ => TokenizerSpec::Jieba,
        },
        case_folding: folding_of(bytes[1]),
        accent_folding: folding_of(bytes[2]),
        long_tokens: LongTokenSpec {
            mode: match bytes[3] {
                0 => LongTokenMode::Truncate,
                1 => LongTokenMode::Discard,
                _ => LongTokenMode::Split,
            },
            max_bytes: bytes[4] as usize + 256 * bytes[5] as usize,
        },
        graphemes: match bytes[6] {
            0 => GraphemeMode::Discard,
            1 => GraphemeMode::Emoji,
            _ => GraphemeMode::Retain,
        },
        position_gaps: match bytes[7] {
            0 => PositionGapMode::Collapse,
            _ => PositionGapMode::Preserve,
        },
    };
    if (validation.accepts)(spec) {
        Some(spec)
    } else {
        None
    }
}

/// Tokenizer settings as the catalog holds them.
#[derive(Clone, Copy, Debug, PartialEq, Eq, Structural)]
pub struct IndexOptions {
    pub tokenizer: i32,
    pub case_folding: i32,
    pub accent_folding: i32,
    pub long_tokens: i32,
    pub max_token_bytes: i32,
    pub graphemes: i32,
    pub position_gaps: i32,
    /// Where the stop words stand, behind the options.
    pub score_stop_words: i32,
}

/// The folding policy that an option's value is.
pub open spec fn folding_option(value: i32) -> Folding {
    if value == 0 {
        Folding::Preserve
    } else {
        Folding::Fold
    }
}

/// The settings that options are; a value that is no setting is the default.
pub open spec fn option_settings(options: IndexOptions) -> TokenizerPipelineSpec {
    TokenizerPipelineSpec {
        tokenizer: if options.tokenizer == 1 {
            TokenizerSpec::Whitespace
        } else if options.tokenizer == 2 {
            TokenizerSpec::Jieba
        } else {
            TokenizerSpec::Unicode
        },
        case_folding: folding_option(options.case_folding),
        accent_folding: folding_option(options.accent_folding),
        long_tokens: LongTokenSpec {
            mode: if options.long_tokens == 0 {
                LongTokenMode::Truncate
            } else if options.long_tokens == 1 {
                LongTokenMode::Discard
            } else {
                LongTokenMode::Split
            },
            max_bytes: options.max_token_bytes as usize,
        },
        graphemes: if options.graphemes == 0 {
            GraphemeMode::Discard
        } else if options.graphemes == 2 {
            GraphemeMode::Retain
        } else {
            GraphemeMode::Emoji
        },
        position_gaps: if options.position_gaps == 0 {
            PositionGapMode::Collapse
        } else {
            PositionGapMode::Preserve
        },
    }
}

/// The folding policy that an option's value is.
pub fn decode_folding(value: i32) -> (folding: Folding)
    ensures
        folding == folding_option(value),
{
    if value == 0 {
        Folding::Preserve
    } else {
        Folding::Fold
    }
}

/// The settings of an index with these options, or of one without.
pub fn tokenizer_spec(options: Option<IndexOptions>) -> (spec: TokenizerPipelineSpec)
    requires
        options matches Some(set) ==> set.max_token_bytes >= 0,
    ensures
        spec == (match options {
            Some(set) => option_settings(set),
            None => default_settings(),
        }),
{
    match options {
        None => TokenizerPipelineSpec::stannum_default(),
        Some(set) => TokenizerPipelineSpec {
            tokenizer: match set.tokenizer {
                1 => TokenizerSpec::Whitespace,
                2 => TokenizerSpec::Jieba,
                _ => TokenizerSpec::Unicode,
            },
            case_folding: decode_folding(set.case_folding),
            accent_folding: decode_folding(set.accent_folding),
            long_tokens: LongTokenSpec {
                mode: match set.long_tokens {
                    0 => LongTokenMode::Truncate,
                    1 => LongTokenMode::Discard,
                    _ => LongTokenMode::Split,
                },
                max_bytes: set.max_token_bytes as usize,
            },
            graphemes: match set.graphemes {
                0 => GraphemeMode::Discard,
                2 => GraphemeMode::Retain,
                _ => GraphemeMode::Emoji,
            },
            position_gaps: match set.position_gaps {
                0 => PositionGapMode::Collapse,
                _ => PositionGapMode::Preserve,
            },
        },
    }
}

/// Where the stop words of an index stand behind its options, if it has any.
pub fn score_stop_words(options: Option<IndexOptions>) -> (offset: Option<usize>)
    ensures
        offset == (match options {
            Some(set) => if set.score_stop_words > 0 {
                Some(set.score_stop_words as usize)
            } else {
                None
            },
            None => None,
        }),
{
    match options {
        Some(set) => if set.score_stop_words > 0 {
            Some(set.score_stop_words as usize)
        } else {
            None
        },
        None => None,
    }
}

/// Scoring parameters, as the bit patterns of their numbers.
#[derive(Clone, Copy, Debug, PartialEq, Eq, Structural)]
pub struct Bm25Params {
    /// Term-frequency saturation.
    pub k1: u32,
    /// Document-length normalization.
    pub b: u32,
}

impl Default for Bm25Params {
    /// A saturation of 1.2 and a normalization of 0.75.
    fn default() -> (params: Self)
        ensures
            params == (Bm25Params { k1: 0x3f99_999a, b: 0x3f40_0000 }),
    {
        Bm25Params { k1: 0x3f99_999a, b: 0x3f40_0000 }
    }
}

/// The scoring parameters of an index that sets them, or of one that does
/// not.
pub fn bm25(set: Option<Bm25Params>) -> (params: Bm25Params)
    ensures
        params == (match set {
            Some(set) => set,
            None => (Bm25Params { k1: 0x3f99_999a, b: 0x3f40_0000 }),
        }),
{
    match set {
        Some(set) => set,
        None => Bm25Params::default(),
    }
}

/// An option that is accepted for compatibility and ignored.
pub open spec fn ignored(name: Seq<char>) -> bool {
    ||| name == "initial_segment_count"@
    ||| name == "target_segment_count"@
    ||| name == "max_mutable_segment_size"@
    ||| name == "max_merged_segment_size"@
    ||| name == "dead_percent_threshold"@
}

/// The warning that an option is accepted and ignored, if it is.
pub fn ignored_option_warning(name: &str) -> (warning: Option<String>)
    ensures
        match warning {
            Some(text) => ignored(name@) && text@ == "Stannum accepts "@ + name@
                + " for TIN compatibility but ignores it; Stannum's storage and maintenance settings apply"@,
            None => !ignored(name@),
        },
{
    if same(name, "initial_segment_count") || same(name, "target_segment_count") || same(
        name,
        "max_mutable_segment_size",
    ) || same(name, "max_merged_segment_size") || same(name, "dead_percent_threshold") {
        let mut text = String::from_str("Stannum accepts ");
        text.append(name);
        text.append(
            " for TIN compatibility but ignores it; Stannum's storage and maintenance settings apply",
        );
        Some(text)
    } else {
        None
    }
}

/// The values an option can choose from. The code of a value is its place.
#[derive(Clone, Copy, Debug, PartialEq, Eq, Structural)]
pub enum ChoiceSet {
    Tokenizers,
    Foldings,
    LongModes,
    GraphemeModes,
    GapModes,
}

impl ChoiceSet {
    /// The names of the values, by code.
    pub open spec fn names(self) -> Seq<&'static str> {
        match self {
            ChoiceSet::Tokenizers => seq!["unicode", "whitespace", "jieba"],
            ChoiceSet::Foldings => seq!["preserve", "fold"],
            ChoiceSet::LongModes => seq!["truncate", "discard", "split"],
            ChoiceSet::GraphemeModes => seq!["discard", "emoji", "retain"],
            ChoiceSet::GapModes => seq!["collapse", "preserve"],
        }
    }

    /// The names of the values, by code.
    pub fn members(self) -> (names: Vec<&'static str>)
        ensures
            names@ == self.names(),
    {
        let mut names: Vec<&'static str> = Vec::new();
        match self {
            ChoiceSet::Tokenizers => {
                names.push("unicode");
                names.push("whitespace");
                names.push("jieba");
            },
            ChoiceSet::Foldings => {
                names.push("preserve");
                names.push("fold");
            },
            ChoiceSet::LongModes => {
                names.push("truncate");
                names.push("discard");
                names.push("split");
            },
            ChoiceSet::GraphemeModes => {
                names.push("discard");
                names.push("emoji");
                names.push("retain");
            },
            ChoiceSet::GapModes => {
                names.push("collapse");
                names.push("preserve");
            },
        }
        proof {
            assert(names@ =~= self.names());
        }
        names
    }
}

/// What values an option takes. The range of a real number is set where it is
/// registered.
#[derive(Clone, Copy, Debug, PartialEq, Eq, Structural)]
pub enum OptionKind {
    Integer { default: i32, min: i32, max: i32 },
    Real,
    Choice { members: ChoiceSet, default: i32 },
    Text,
}

/// An option of an index.
#[derive(Clone, Copy, Debug)]
pub struct OptionDefinition {
    pub name: &'static str,
    pub description: &'static str,
    pub kind: OptionKind,
}

/// The options of an index, in the order they are registered and stored.
pub open spec fn definitions(min_token_bytes: i32, max_token_bytes: i32) -> Seq<OptionDefinition> {
    seq![
        OptionDefinition {
            name: "initial_segment_count",
            description: "Ignored Stannum segment-count compatibility option",
            kind: OptionKind::Integer { default: 1, min: 1, max: 4096 },
        },
        OptionDefinition {
            name: "target_segment_count",
            description: "Accepted for TIN DDL compatibility; ignored by Stannum",
            kind: OptionKind::Integer { default: 1, min: 1, max: 4096 },
        },
        OptionDefinition {
            name: "max_mutable_segment_size",
            description: "Accepted for TIN DDL compatibility; ignored by Stannum",
            kind: OptionKind::Integer { default: 4_194_304, min: 131_072, max: i32::MAX },
        },
        OptionDefinition {
            name: "max_merged_segment_size",
            description: "Accepted for TIN DDL compatibility; ignored by Stannum",
            kind: OptionKind::Integer { default: 2000, min: 100, max: i32::MAX },
        },
        OptionDefinition {
            name: "dead_percent_threshold",
            description: "Accepted for TIN DDL compatibility; ignored by Stannum",
            kind: OptionKind::Real,
        },
        OptionDefinition {
            name: "tokenizer",
            description: "Token boundary policy",
            kind: OptionKind::Choice { members: ChoiceSet::Tokenizers, default: 0 },
        },
        OptionDefinition {
            name: "case_folding",
            description: "Case folding policy",
            kind: OptionKind::Choice { members: ChoiceSet::Foldings, default: 1 },
        },
        OptionDefinition {
            name: "accent_folding",
            description: "Accent folding policy",
            kind: OptionKind::Choice { members: ChoiceSet::Foldings, default: 1 },
        },
        OptionDefinition {
            name: "long_tokens",
            description: "Long-token policy",
            kind: OptionKind::Choice { members: ChoiceSet::LongModes, default: 2 },
        },
        OptionDefinition {
            name: "max_token_bytes",
            description: "Maximum analyzed token length",
            kind: OptionKind::Integer {
                default: 256,
                min: min_token_bytes,
                max: max_token_bytes,
            },
        },
        OptionDefinition {
            name: "graphemes",
            description: "Standalone grapheme policy",
            kind: OptionKind::Choice { members: ChoiceSet::GraphemeModes, default: 1 },
        },
        OptionDefinition {
            name: "position_gaps",
            description: "Position policy for removed tokens",
            kind: OptionKind::Choice { members: ChoiceSet::GapModes, default: 1 },
        },
        OptionDefinition {
            name: "k1",
            description: "BM25 term-frequency saturation",
            kind: OptionKind::Real,
        },
        OptionDefinition {
            name: "b",
            description: "BM25 document-length normalization",
            kind: OptionKind::Real,
        },
        OptionDefinition {
            name: "score_stop_words",
            description: "Comma-separated analyzed terms omitted by stannum.score",
            kind: OptionKind::Text,
        },
    ]
}

/// The options of an index, in the order they are registered and stored.
pub fn option_table(min_token_bytes: i32, max_token_bytes: i32) -> (table: Vec<OptionDefinition>)
    ensures
        table@ == definitions(min_token_bytes, max_token_bytes),
{
    let mut table: Vec<OptionDefinition> = Vec::new();
    table.push(
        OptionDefinition {
            name: "initial_segment_count",
            description: "Ignored Stannum segment-count compatibility option",
            kind: OptionKind::Integer { default: 1, min: 1, max: 4096 },
        },
    );
    table.push(
        OptionDefinition {
            name: "target_segment_count",
            description: "Accepted for TIN DDL compatibility; ignored by Stannum",
            kind: OptionKind::Integer { default: 1, min: 1, max: 4096 },
        },
    );
    table.push(
        OptionDefinition {
            name: "max_mutable_segment_size",
            description: "Accepted for TIN DDL compatibility; ignored by Stannum",
            kind: OptionKind::Integer { default: 4_194_304, min: 131_072, max: i32::MAX },
        },
    );
    table.push(
        OptionDefinition {
            name: "max_merged_segment_size",
            description: "Accepted for TIN DDL compatibility; ignored by Stannum",
            kind: OptionKind::Integer { default: 2000, min: 100, max: i32::MAX },
        },
    );
    table.push(
        OptionDefinition {
            name: "dead_percent_threshold",
            description: "Accepted for TIN DDL compatibility; ignored by Stannum",
            kind: OptionKind::Real,
        },
    );
    table.push(
        OptionDefinition {
            name: "tokenizer",
            description: "Token boundary policy",
            kind: OptionKind::Choice { members: ChoiceSet::Tokenizers, default: 0 },
        },
    );
    table.push(
        OptionDefinition {
            name: "case_folding",
            description: "Case folding policy",
            kind: OptionKind::Choice { members: ChoiceSet::Foldings, default: 1 },
        },
    );
    table.push(
        OptionDefinition {
            name: "accent_folding",
            description: "Accent folding policy",
            kind: OptionKind::Choice { members: ChoiceSet::Foldings, default: 1 },
        },
    );
    table.push(
        OptionDefinition {
            name: "long_tokens",
            description: "Long-token policy",
            kind: OptionKind::Choice { members: ChoiceSet::LongModes, default: 2 },
        },
    );
    table.push(
        OptionDefinition {
            name: "max_token_bytes",
            description: "Maximum analyzed token length",
            kind: OptionKind::Integer {
                default: 256,
                min: min_token_bytes,
                max: max_token_bytes,
            },
        },
    );
    table.push(
        OptionDefinition {
            name: "graphemes",
            description: "Standalone grapheme policy",
            kind: OptionKind::Choice { members: ChoiceSet::GraphemeModes, default: 1 },
        },
    );
    table.push(
        OptionDefinition {
            name: "position_gaps",
            description: "Position policy for removed tokens",
            kind: OptionKind::Choice { members: ChoiceSet::GapModes, default: 1 },
        },
    );
    table.push(
        OptionDefinition {
            name: "k1",
            description: "BM25 term-frequency saturation",
            kind: OptionKind::Real,
        },
    );
    table.push(
        OptionDefinition {
            name: "b",
            description: "BM25 document-length normalization",
            kind: OptionKind::Real,
        },
    );
    table.push(
        OptionDefinition {
            name: "score_stop_words",
            description: "Comma-separated analyzed terms omitted by stannum.score",
            kind: OptionKind::Text,
        },
    );
    proof {
        assert(table@ =~= definitions(min_token_bytes, max_token_bytes));
    }
    table
}

} // verus!
