use stannum::options::{
    bm25, decode_folding, decode_spec, encode_spec, ignored_option_warning, option_table,
    score_stop_words, tokenizer_spec, Bm25Params, ChoiceSet, Folding, GraphemeMode, IndexOptions,
    LongTokenMode, LongTokenSpec, OptionKind, PositionGapMode, TokenizerPipelineSpec,
    TokenizerSpec, Validation,
};

/// A tokenizer that takes limits of four bytes and more.
fn taken() -> Validation<impl Fn(TokenizerPipelineSpec) -> bool> {
    Validation { accepts: |spec: TokenizerPipelineSpec| spec.long_tokens.max_bytes >= 4 }
}

#[test]
fn spec_bytes_round_trip_every_setting() {
    let spec = TokenizerPipelineSpec {
        tokenizer: TokenizerSpec::Whitespace,
        case_folding: Folding::Preserve,
        accent_folding: Folding::Fold,
        long_tokens: LongTokenSpec {
            mode: LongTokenMode::Discard,
            max_bytes: 2_692,
        },
        graphemes: GraphemeMode::Retain,
        position_gaps: PositionGapMode::Collapse,
    };
    assert_eq!(decode_spec(&encode_spec(&spec), &taken()), Some(spec));
    let jieba = TokenizerPipelineSpec {
        tokenizer: TokenizerSpec::Jieba,
        ..spec
    };
    assert_eq!(decode_spec(&encode_spec(&jieba), &taken()), Some(jieba));
    let default = TokenizerPipelineSpec::stannum_default();
    assert_eq!(decode_spec(&encode_spec(&default), &taken()), Some(default));
    assert_eq!(decode_spec(&[9, 0, 0, 0, 0, 1, 0, 0], &taken()), None);
    assert_eq!(decode_spec(&[0, 0, 0, 0, 1, 0, 0, 0], &taken()), None);
}

#[test]
fn defaults_match_the_standalone_pipeline() {
    assert_eq!(
        TokenizerPipelineSpec::stannum_default()
            .long_tokens
            .max_bytes,
        256
    );
    let default = Bm25Params::default();
    assert_eq!(f32::from_bits(default.k1), 1.2);
    assert_eq!(f32::from_bits(default.b), 0.75);
}

#[test]
fn settings_are_stored_in_fixed_bytes() {
    let spec = TokenizerPipelineSpec {
        tokenizer: TokenizerSpec::Jieba,
        case_folding: Folding::Fold,
        accent_folding: Folding::Preserve,
        long_tokens: LongTokenSpec {
            mode: LongTokenMode::Split,
            max_bytes: 0x0a84,
        },
        graphemes: GraphemeMode::Emoji,
        position_gaps: PositionGapMode::Preserve,
    };
    assert_eq!(encode_spec(&spec), [2, 1, 0, 2, 0x84, 0x0a, 1, 1]);
}

#[test]
fn every_byte_is_checked() {
    let good = [0, 0, 0, 0, 0, 1, 0, 0];
    assert!(decode_spec(&good, &taken()).is_some());
    for (place, bad) in [(0, 3), (1, 2), (2, 2), (3, 3), (6, 3), (7, 2)] {
        let mut bytes = good;
        bytes[place] = bad;
        assert_eq!(decode_spec(&bytes, &taken()), None);
    }
}

#[test]
fn settings_that_the_tokenizer_does_not_take_are_refused() {
    let stored = [0, 0, 0, 0, 3, 0, 0, 0];
    assert_eq!(decode_spec(&stored, &taken()), None);
    let any = Validation { accepts: |_: TokenizerPipelineSpec| true };
    assert_eq!(decode_spec(&stored, &any).unwrap().long_tokens.max_bytes, 3);
    let only = Validation {
        accepts: |spec: TokenizerPipelineSpec| spec.tokenizer == TokenizerSpec::Jieba,
    };
    assert_eq!(decode_spec(&stored, &only), None);
    assert!(decode_spec(&[2, 0, 0, 0, 3, 0, 0, 0], &only).is_some());
}

#[test]
fn a_limit_past_two_bytes_loses_its_high_part() {
    let mut spec = TokenizerPipelineSpec::stannum_default();
    spec.long_tokens.max_bytes = 65_536 + 300;
    let stored = decode_spec(&encode_spec(&spec), &taken()).unwrap();
    assert_eq!(stored.long_tokens.max_bytes, 300);
}

fn options() -> IndexOptions {
    IndexOptions {
        tokenizer: 1,
        case_folding: 0,
        accent_folding: 1,
        long_tokens: 0,
        max_token_bytes: 64,
        graphemes: 2,
        position_gaps: 0,
        score_stop_words: 0,
    }
}

#[test]
fn catalog_options_become_settings() {
    assert_eq!(tokenizer_spec(None), TokenizerPipelineSpec::stannum_default());
    assert_eq!(
        tokenizer_spec(Some(options())),
        TokenizerPipelineSpec {
            tokenizer: TokenizerSpec::Whitespace,
            case_folding: Folding::Preserve,
            accent_folding: Folding::Fold,
            long_tokens: LongTokenSpec { mode: LongTokenMode::Truncate, max_bytes: 64 },
            graphemes: GraphemeMode::Retain,
            position_gaps: PositionGapMode::Collapse,
        }
    );
    let unknown = IndexOptions { tokenizer: 7, long_tokens: 7, graphemes: 7, position_gaps: 7, ..options() };
    let spec = tokenizer_spec(Some(unknown));
    assert_eq!(spec.tokenizer, TokenizerSpec::Unicode);
    assert_eq!(spec.long_tokens.mode, LongTokenMode::Split);
    assert_eq!(spec.graphemes, GraphemeMode::Emoji);
    assert_eq!(spec.position_gaps, PositionGapMode::Preserve);
    assert_eq!(decode_folding(0), Folding::Preserve);
    assert_eq!(decode_folding(5), Folding::Fold);
}

#[test]
fn stop_words_stand_behind_the_options() {
    assert_eq!(score_stop_words(None), None);
    assert_eq!(score_stop_words(Some(options())), None);
    assert_eq!(score_stop_words(Some(IndexOptions { score_stop_words: -4, ..options() })), None);
    assert_eq!(score_stop_words(Some(IndexOptions { score_stop_words: 96, ..options() })), Some(96));
}

#[test]
fn scoring_parameters_fall_back_to_the_defaults() {
    let set = Bm25Params { k1: 2.0f32.to_bits(), b: 0.0f32.to_bits() };
    assert_eq!(bm25(Some(set)), set);
    assert_eq!(bm25(None), Bm25Params { k1: 1.2f32.to_bits(), b: 0.75f32.to_bits() });
}

#[test]
fn compatibility_options_are_warned_about() {
    assert_eq!(
        ignored_option_warning("target_segment_count").unwrap(),
        "Stannum accepts target_segment_count for TIN compatibility but ignores it; Stannum's storage and maintenance settings apply"
    );
    assert!(ignored_option_warning("dead_percent_threshold").is_some());
    assert_eq!(ignored_option_warning("tokenizer"), None);
}

#[test]
fn the_option_table_lists_every_option_in_order() {
    let table = option_table(4, 2_692);
    let names: Vec<&str> = table.iter().map(|option| option.name).collect();
    assert_eq!(
        names,
        vec![
            "initial_segment_count", "target_segment_count", "max_mutable_segment_size",
            "max_merged_segment_size", "dead_percent_threshold", "tokenizer", "case_folding",
            "accent_folding", "long_tokens", "max_token_bytes", "graphemes", "position_gaps", "k1",
            "b", "score_stop_words",
        ]
    );
    assert_eq!(table[2].kind, OptionKind::Integer { default: 4_194_304, min: 131_072, max: i32::MAX });
    assert_eq!(table[9].kind, OptionKind::Integer { default: 256, min: 4, max: 2_692 });
    assert_eq!(table[8].kind, OptionKind::Choice { members: ChoiceSet::LongModes, default: 2 });
    assert_eq!(ChoiceSet::LongModes.members(), vec!["truncate", "discard", "split"]);
    assert_eq!(ChoiceSet::Tokenizers.members(), vec!["unicode", "whitespace", "jieba"]);
}
