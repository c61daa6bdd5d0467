use siphasher::sip::SipHasher13;
use stannum::dict::{
    analysis_summary, check_add, check_delete, index_analysis, is_jieba, parallel_safe, stamp,
    status, validate_word, AnalysisAction, AnalysisStamp, AnalysisStatus, ChangeError, DictState,
    Reload,
};
use stannum::fingerprint::{fingerprint, identity_of_hash, Word, EMPTY_FINGERPRINT};
use stannum::options::{TokenizerPipelineSpec, Validation};
use std::hash::Hasher;

fn word(word: &str, freq: i32, tag: Option<&str>) -> Word {
    Word {
        word: word.to_owned(),
        freq,
        tag: tag.map(str::to_owned),
    }
}

#[test]
fn stable_framed_fingerprint() {
    let a = || word("词", 0, None);
    let b = || word("词语", 42, Some("n"));
    assert_eq!(
        fingerprint(&mut vec![a(), b()]),
        fingerprint(&mut vec![b(), a()])
    );
    assert_eq!(fingerprint(&mut vec![]), EMPTY_FINGERPRINT);
    assert_ne!(
        fingerprint(&mut vec![a()]),
        fingerprint(&mut vec![word("词", 0, Some(""))])
    );
}

#[test]
fn fingerprint_hashes_the_framed_rows_in_order() {
    let mut hash = SipHasher13::new_with_keys(0x7374616e6e756d31, 0x6a69656261646963);
    hash.write(b"stannum.jieba.dict.v1\0");
    for (text, freq, tag) in [("a", 7i32, None), ("a", 7, Some("n")), ("b", -1, Some(""))] {
        hash.write(b"row\0");
        hash.write(&(text.len() as u32).to_le_bytes());
        hash.write(text.as_bytes());
        hash.write(&(freq as u32).to_le_bytes());
        hash.write(&[u8::from(Option::<&str>::is_some(&tag))]);
        if let Some(tag) = tag {
            hash.write(&(tag.len() as u32).to_le_bytes());
            hash.write(tag.as_bytes());
        }
    }
    let mut rows = vec![word("b", -1, Some("")), word("a", 7, Some("n")), word("a", 7, None)];
    assert_eq!(fingerprint(&mut rows), hash.finish());
    assert_eq!(rows[0].tag, None);
    assert_eq!(rows[2].word, "b");
    assert_eq!(identity_of_hash(0), 1);
    assert_eq!(identity_of_hash(9), 9);
}

#[test]
fn drift_matrix() {
    let s = AnalysisStamp {
        jieba_rs_version: 7,
        dict_fingerprint: 42,
    };
    assert_eq!(status(None, None), AnalysisStatus::NotApplicable);
    assert_eq!(status(Some(s), None), AnalysisStatus::NotApplicable);
    assert_eq!(status(None, Some(s)), AnalysisStatus::MissingStamp);
    assert_eq!(status(Some(s), Some(s)), AnalysisStatus::Match);
    assert_eq!(
        status(
            Some(s),
            Some(AnalysisStamp {
                dict_fingerprint: 43,
                ..s
            })
        ),
        AnalysisStatus::DictionaryDrift
    );
    assert_eq!(
        status(
            Some(s),
            Some(AnalysisStamp {
                jieba_rs_version: 8,
                ..s
            })
        ),
        AnalysisStatus::JiebaVersionDrift
    );
    assert_eq!(
        status(
            Some(s),
            Some(AnalysisStamp {
                jieba_rs_version: 8,
                dict_fingerprint: 43
            })
        ),
        AnalysisStatus::BothDrift
    );
}

#[test]
fn word_byte_boundaries_and_validation_errors() {
    let ascii = "x".repeat(256);
    let unicode = format!("{}x", "词".repeat(85));
    assert_eq!(unicode.len(), 256);
    assert!(validate_word(&ascii));
    assert!(validate_word(&unicode));
    assert!(!validate_word(&format!("{unicode}x")));
    assert!(!validate_word("\u{2003}\t\n"));
    assert!(!validate_word("valid\u{00a0}word"));
    assert!(!validate_word(""));
    assert_eq!(check_add(true, &unicode, -1), Err(ChangeError::NegativeFrequency));
    assert_eq!(check_add(true, &unicode, i32::MAX), Ok(()));
    assert_eq!(check_add(true, "a b", -1), Err(ChangeError::InvalidWord));
    assert_eq!(check_delete(true, ""), Err(ChangeError::InvalidWord));
    assert_eq!(
        ChangeError::InvalidWord.message(),
        "dictionary word must be nonempty, at most 256 UTF-8 bytes, and contain no Unicode whitespace"
    );
    assert_eq!(
        ChangeError::NegativeFrequency.message(),
        "dictionary frequency must be non-negative"
    );
}

#[test]
fn the_admin_check_comes_first() {
    assert_eq!(check_add(false, "", -1), Err(ChangeError::NotAllowed));
    assert_eq!(check_delete(false, ""), Err(ChangeError::NotAllowed));
    assert_eq!(
        ChangeError::NotAllowed.message(),
        "stannum dictionary changes require superuser or pg_database_owner membership"
    );
}

#[test]
fn every_white_space_character_is_refused() {
    for code in 0..=0x10ffffu32 {
        if let Some(c) = char::from_u32(code) {
            let text = format!("a{c}b");
            assert_eq!(validate_word(&text), !c.is_whitespace(), "{code:x}");
        }
    }
}

#[test]
fn drift_warnings_are_per_index_and_reset_per_statement() {
    let mut state = DictState::new();
    let drift = AnalysisStatus::DictionaryDrift;
    match state.check_analysis(1, "docs_idx", drift, false) {
        AnalysisAction::Warn(text) => {
            assert_eq!(text, "stannum index docs_idx: dictionary drift; REINDEX required")
        }
        other => panic!("{other:?}"),
    }
    assert!(matches!(state.check_analysis(1, "docs_idx", drift, false), AnalysisAction::Nothing));
    assert!(matches!(state.check_analysis(2, "other_idx", drift, false), AnalysisAction::Warn(_)));
    assert_eq!(state.warned.len(), 2);
    state.note_executor_start();
    assert!(state.warned.is_empty());
    assert!(matches!(state.check_analysis(1, "docs_idx", drift, false), AnalysisAction::Warn(_)));
    assert!(matches!(
        state.check_analysis(1, "docs_idx", drift, true),
        AnalysisAction::Refuse(text) if text.ends_with("dictionary drift; REINDEX required")
    ));
    assert!(matches!(
        state.check_analysis(3, "docs_idx", AnalysisStatus::Match, true),
        AnalysisAction::Nothing
    ));
}

#[test]
fn a_missing_stamp_stays_a_warning_in_strict_mode() {
    let mut state = DictState::new();
    let missing = AnalysisStatus::MissingStamp;
    assert!(matches!(state.check_analysis(5, "old", missing, true), AnalysisAction::Warn(_)));
    assert!(matches!(state.check_analysis(5, "old", missing, true), AnalysisAction::Nothing));
    assert_eq!(state.warned.len(), 1);
}

#[test]
fn the_dictionary_is_read_once_per_statement_until_it_changes() {
    let mut state = DictState::new();
    assert_eq!(state.begin_reload(false, false, true, 1, 0), Reload::Load);
    assert!(!state.dirty);
    let mut rows = vec![word("星河", 5, Some("n")), word("数据", 0, None)];
    let (value, install) = state.loaded(&mut rows, false, 1, 0);
    let install = install.unwrap();
    assert_eq!(install.len(), 2);
    assert_eq!(install[0].word, "数据");
    assert_eq!(install[0].freq, None);
    assert_eq!(install[1].freq, Some(5));
    assert_eq!(install[1].tag.as_deref(), Some("n"));
    assert!(state.nonempty);
    assert_eq!(state.begin_reload(false, false, true, 1, 77), Reload::Current(value));
    assert_eq!(state.begin_reload(false, false, true, 2, value), Reload::Current(value));
    assert_eq!(state.seen, Some((2, value)));
    state.words_oid = 99;
    state.invalidate(98);
    assert!(!state.dirty);
    state.invalidate(99);
    assert_eq!(state.begin_reload(false, false, true, 2, value), Reload::Current(value));
    assert_eq!(state.begin_reload(false, false, true, 3, value), Reload::Load);
    let (again, nothing) = state.loaded(&mut rows, false, 3, value);
    assert_eq!(again, value);
    assert!(nothing.is_none());
    assert_eq!(state.begin_reload(true, false, true, 3, value), Reload::Load);
    assert!(state.loaded(&mut rows, true, 3, value).1.is_some());
    state.forget_reads();
    assert_eq!(state.begin_reload(false, false, true, 3, value), Reload::Load);
    state.reload_failed();
    assert!(state.dirty);
}

#[test]
fn workers_and_idle_backends_do_not_read_the_dictionary() {
    let mut state = DictState::new();
    assert_eq!(state.begin_reload(true, true, true, 1, 0), Reload::InstallEmpty);
    assert_eq!(state.begin_reload(true, true, true, 1, 6), Reload::Current(6));
    assert_eq!(state.begin_reload(true, false, false, 1, 8), Reload::Current(8));
    assert!(state.dirty);
}

#[test]
fn parallel_dictionary_policy_is_narrow() {
    let jieba = [2, 1, 1, 2, 0, 1, 1, 1];
    let plain = [0, 1, 1, 2, 0, 1, 1, 1];
    let taken =
        Validation { accepts: |spec: TokenizerPipelineSpec| spec.long_tokens.max_bytes >= 4 };
    assert!(is_jieba(&jieba, &taken) && !is_jieba(&plain, &taken));
    assert!(!is_jieba(&[2, 9, 1, 2, 0, 1, 1, 1], &taken));
    assert!(!is_jieba(&[2, 1, 1, 2, 3, 0, 1, 1], &taken));
    assert!(parallel_safe(&jieba, &taken, false));
    assert!(!parallel_safe(&jieba, &taken, true));
    assert!(parallel_safe(&plain, &taken, true));
    assert_eq!(stamp(&plain, &taken, 1, 2), None);
    assert_eq!(
        stamp(&jieba, &taken, 1, 2),
        Some(AnalysisStamp { jieba_rs_version: 1, dict_fingerprint: 2 })
    );
}

#[test]
fn analysis_is_summarized_in_a_line() {
    let was = AnalysisStamp { jieba_rs_version: 0x0000_0903, dict_fingerprint: 0x1f };
    let (matched, text) = analysis_summary(Some(was), Some(was)).unwrap();
    assert!(matched);
    assert_eq!(text, format!("jieba {}.{}.{} / dict {:016x} / matches", 0, 9, 3, 0x1f));
    let now = AnalysisStamp { dict_fingerprint: u64::MAX, ..was };
    let (matched, text) = analysis_summary(Some(now), Some(was)).unwrap();
    assert!(!matched);
    assert_eq!(text, "jieba 0.9.3 / dict ffffffffffffffff / drift");
    assert!(analysis_summary(None, Some(was)).is_none());
    assert!(analysis_summary(Some(was), None).is_none());
}

#[test]
fn index_analysis_shows_what_applies() {
    let s = AnalysisStamp { jieba_rs_version: 1, dict_fingerprint: 2 };
    let row = index_analysis(Some(s), Some(s), true);
    assert_eq!((row.recorded, row.matches, row.status), (Some(s), Some(true), "matches"));
    let row = index_analysis(Some(s), Some(s), false);
    assert_eq!((row.recorded, row.matches), (None, Some(false)));
    assert_eq!(row.status, "missing analysis stamp; REINDEX required");
    let row = index_analysis(Some(s), None, true);
    assert_eq!((row.recorded, row.matches, row.status), (None, None, "not applicable"));
}
