//! Governance of the custom dictionary: when a backend loads it again, whether
//! an index was analyzed with it, and who may change it.

use crate::chars::{chars_of, is_white, white};
use crate::decimal::{decimal, decimal_text};
use crate::fingerprint::{fingerprint, fingerprint_of, rows_of, rows_sorted, Word, WordRow};
use crate::laws::requests::{addition_granted, lemma_addition_granted};
use crate::options::{
    codes_known, decode_spec, decoded, TokenizerPipelineSpec, TokenizerSpec, Validation, SPEC_BYTES,
};
use vstd::prelude::*;
use vstd::utf8::encode_utf8;

verus! {

/// What an index was analyzed with.
#[derive(Clone, Copy, Debug, PartialEq, Eq, Structural)]
pub struct AnalysisStamp {
    pub jieba_rs_version: u32,
    pub dict_fingerprint: u64,
}

/// How what an index was analyzed with compares to what there is now.
#[derive(Clone, Copy, Debug, PartialEq, Eq, Structural)]
pub enum AnalysisStatus {
    NotApplicable,
    Match,
    MissingStamp,
    JiebaVersionDrift,
    DictionaryDrift,
    BothDrift,
}

impl AnalysisStatus {
    /// The status in words.
    pub open spec fn words(self) -> Seq<char> {
        match self {
            AnalysisStatus::NotApplicable => "not applicable"@,
            AnalysisStatus::Match => "matches"@,
            AnalysisStatus::MissingStamp => "missing analysis stamp; REINDEX required"@,
            AnalysisStatus::JiebaVersionDrift => "jieba version drift; REINDEX required"@,
            AnalysisStatus::DictionaryDrift => "dictionary drift; REINDEX required"@,
            AnalysisStatus::BothDrift =>
            "jieba version and dictionary drift; REINDEX required"@,
        }
    }

    /// The status in words.
    pub fn text(&self) -> (text: &'static str)
        ensures
            text@ == self.words(),
    {
        match self {
            AnalysisStatus::NotApplicable => "not applicable",
            AnalysisStatus::Match => "matches",
            AnalysisStatus::MissingStamp => "missing analysis stamp; REINDEX required",
            AnalysisStatus::JiebaVersionDrift => "jieba version drift; REINDEX required",
            AnalysisStatus::DictionaryDrift => "dictionary drift; REINDEX required",
            AnalysisStatus::BothDrift => "jieba version and dictionary drift; REINDEX required",
        }
    }
}

/// How a recorded analysis compares to the one there is now, if any applies.
pub open spec fn status_of(recorded: Option<AnalysisStamp>, runtime: Option<AnalysisStamp>) -> AnalysisStatus {
    match (recorded, runtime) {
        (_, None) => AnalysisStatus::NotApplicable,
        (None, Some(_)) => AnalysisStatus::MissingStamp,
        (Some(was), Some(is)) => if was == is {
            AnalysisStatus::Match
        } else if was.jieba_rs_version == is.jieba_rs_version {
            AnalysisStatus::DictionaryDrift
        } else if was.dict_fingerprint == is.dict_fingerprint {
            AnalysisStatus::JiebaVersionDrift
        } else {
            AnalysisStatus::BothDrift
        },
    }
}

/// How a recorded analysis compares to the one there is now.
pub fn status(recorded: Option<AnalysisStamp>, runtime: Option<AnalysisStamp>) -> (state:
    AnalysisStatus)
    ensures
        state == status_of(recorded, runtime),
{
    let is = match runtime {
        Some(is) => is,
        None => {
            return AnalysisStatus::NotApplicable;
        },
    };
    let was = match recorded {
        Some(was) => was,
        None => {
            return AnalysisStatus::MissingStamp;
        },
    };
    let same_version = was.jieba_rs_version == is.jieba_rs_version;
    let same_dictionary = was.dict_fingerprint == is.dict_fingerprint;
    if same_version && same_dictionary {
        AnalysisStatus::Match
    } else if same_version {
        AnalysisStatus::DictionaryDrift
    } else if same_dictionary {
        AnalysisStatus::JiebaVersionDrift
    } else {
        AnalysisStatus::BothDrift
    }
}

/// Stored settings are of an index that the dictionary applies to.
pub open spec fn uses_dictionary<V: Fn(TokenizerPipelineSpec) -> bool>(
    spec: Seq<u8>,
    validation: Validation<V>,
) -> bool {
    codes_known(spec) && validation.accepted(decoded(spec)) && decoded(spec).tokenizer
        == TokenizerSpec::Jieba
}

/// Whether stored settings are of an index that the dictionary applies to.
pub fn is_jieba<V: Fn(TokenizerPipelineSpec) -> bool>(
    spec: &[u8; SPEC_BYTES],
    validation: &Validation<V>,
) -> (is: bool)
    requires
        validation.deterministic(),
    ensures
        is == uses_dictionary(spec@, *validation),
{
    match decode_spec(spec, validation) {
        Some(settings) => settings.tokenizer == TokenizerSpec::Jieba,
        None => false,
    }
}

/// What an index with these settings is analyzed with now.
pub fn stamp<V: Fn(TokenizerPipelineSpec) -> bool>(
    spec: &[u8; SPEC_BYTES],
    validation: &Validation<V>,
    version: u32,
    fingerprint: u64,
) -> (stamp: Option<AnalysisStamp>)
    requires
        validation.deterministic(),
    ensures
        stamp == (if uses_dictionary(spec@, *validation) {
            Some(AnalysisStamp { jieba_rs_version: version, dict_fingerprint: fingerprint })
        } else {
            None
        }),
{
    if is_jieba(spec, validation) {
        Some(AnalysisStamp { jieba_rs_version: version, dict_fingerprint: fingerprint })
    } else {
        None
    }
}

/// Whether a scan of an index with these settings may run in a worker, which
/// cannot load the dictionary: not when there are words in it.
pub fn parallel_safe<V: Fn(TokenizerPipelineSpec) -> bool>(
    spec: &[u8; SPEC_BYTES],
    validation: &Validation<V>,
    nonempty: bool,
) -> (safe: bool)
    requires
        validation.deterministic(),
    ensures
        safe == (!uses_dictionary(spec@, *validation) || !nonempty),
{
    !is_jieba(spec, validation) || !nonempty
}

/// The digits of a number in base sixteen, as many as `width`.
pub open spec fn hex(n: nat, width: nat) -> Seq<char>
    decreases width,
{
    if width == 0 {
        Seq::empty()
    } else {
        hex(n / 16, (width - 1) as nat).push(
            seq![
                '0', '1', '2', '3', '4', '5', '6', '7', '8', '9', 'a', 'b', 'c', 'd', 'e', 'f',
            ][(n % 16) as int],
        )
    }
}

fn hex_digit(n: u64) -> (digit: char)
    requires
        n < 16,
    ensures
        digit == seq![
            '0', '1', '2', '3', '4', '5', '6', '7', '8', '9', 'a', 'b', 'c', 'd', 'e', 'f',
        ][n as int],
{
    match n {
        0 => '0',
        1 => '1',
        2 => '2',
        3 => '3',
        4 => '4',
        5 => '5',
        6 => '6',
        7 => '7',
        8 => '8',
        9 => '9',
        10 => 'a',
        11 => 'b',
        12 => 'c',
        13 => 'd',
        14 => 'e',
        _ => 'f',
    }
}

fn push_hex(text: &mut String, n: u64, width: u64)
    ensures
        final(text)@ == old(text)@ + hex(n as nat, width as nat),
    decreases width,
{
    let ghost before = text@;
    if width == 0 {
        proof {
            assert(before + hex(n as nat, 0) =~= before);
        }
        return;
    }
    push_hex(text, n / 16, width - 1);
    text.push(hex_digit(n % 16));
    proof {
        assert(text@ =~= before + hex(n as nat, width as nat));
    }
}

/// An analysis in one line.
pub open spec fn summary_text(was: AnalysisStamp, matched: bool) -> Seq<char> {
    "jieba "@ + decimal((was.jieba_rs_version / 65536) as nat) + "."@ + decimal(
        (was.jieba_rs_version / 256 % 256) as nat,
    ) + "."@ + decimal((was.jieba_rs_version % 256) as nat) + " / dict "@ + hex(
        was.dict_fingerprint as nat,
        16,
    ) + " / "@ + if matched {
        "matches"@
    } else {
        "drift"@
    }
}

/// The one-line identity of the analysis an index was built with, and whether
/// it is the one there is now. None where no analysis is recorded or none
/// applies. Unlike [`DictState::check_analysis`] this never warns.
pub fn analysis_summary(recorded: Option<AnalysisStamp>, runtime: Option<AnalysisStamp>) -> (summary:
    Option<(bool, String)>)
    ensures
        match (recorded, runtime) {
            (Some(was), Some(is)) => summary is Some && (summary->0).0 == (was == is)
                && (summary->0).1@ == summary_text(was, was == is),
            _ => summary is None,
        },
{
    let was = match recorded {
        Some(was) => was,
        None => {
            return None;
        },
    };
    let is = match runtime {
        Some(is) => is,
        None => {
            return None;
        },
    };
    let matched = was.jieba_rs_version == is.jieba_rs_version && was.dict_fingerprint
        == is.dict_fingerprint;
    let version: u64 = was.jieba_rs_version as u64;
    let mut text = String::from_str("jieba ");
    text.append(decimal_text(version / 65536).as_str());
    text.append(".");
    text.append(decimal_text(version / 256 % 256).as_str());
    text.append(".");
    text.append(decimal_text(version % 256).as_str());
    text.append(" / dict ");
    push_hex(&mut text, was.dict_fingerprint, 16);
    text.append(" / ");
    if matched {
        text.append("matches");
    } else {
        text.append("drift");
    }
    Some((matched, text))
}

/// Why a change of the dictionary is refused.
#[derive(Clone, Copy, Debug, PartialEq, Eq, Structural)]
pub enum ChangeError {
    NotAllowed,
    InvalidWord,
    NegativeFrequency,
}

impl ChangeError {
    /// What the user is told.
    pub open spec fn words(self) -> Seq<char> {
        match self {
            ChangeError::NotAllowed =>
            "stannum dictionary changes require superuser or pg_database_owner membership"@,
            ChangeError::InvalidWord =>
            "dictionary word must be nonempty, at most 256 UTF-8 bytes, and contain no Unicode whitespace"@,
            ChangeError::NegativeFrequency => "dictionary frequency must be non-negative"@,
        }
    }

    /// What the user is told.
    pub fn message(self) -> (text: &'static str)
        ensures
            text@ == self.words(),
    {
        match self {
            ChangeError::NotAllowed =>
            "stannum dictionary changes require superuser or pg_database_owner membership",
            ChangeError::InvalidWord =>
            "dictionary word must be nonempty, at most 256 UTF-8 bytes, and contain no Unicode whitespace",
            ChangeError::NegativeFrequency => "dictionary frequency must be non-negative",
        }
    }
}

/// A word can stand in the dictionary: it is not empty, not too long, and
/// has no white space.
pub open spec fn word_valid(word: Seq<char>) -> bool {
    &&& word.len() > 0
    &&& encode_utf8(word).len() <= 256
    &&& forall|i: int| 0 <= i < word.len() ==> !white(#[trigger] word[i])
}

/// Whether a word can stand in the dictionary.
pub fn validate_word(word: &str) -> (is_valid: bool)
    ensures
        is_valid == word_valid(word@),
{
    if word.is_empty() || word.as_bytes().len() > 256 {
        return false;
    }
    let chars = chars_of(word);
    let mut i: usize = 0;
    while i < chars.len()
        invariant
            i <= chars.len(),
            chars@ == word@,
            forall|j: int| 0 <= j < i ==> !white(#[trigger] chars[j]),
        decreases chars.len() - i,
    {
        if is_white(chars[i]) {
            return false;
        }
        i = i + 1;
    }
    true
}

/// Whether a word may be removed. Who asks is looked at first.
pub fn check_delete(admin: bool, word: &str) -> (checked: Result<(), ChangeError>)
    ensures
        checked == (if !admin {
            Err(ChangeError::NotAllowed)
        } else if !word_valid(word@) {
            Err(ChangeError::InvalidWord)
        } else {
            Ok(())
        }),
{
    if !admin {
        return Err(ChangeError::NotAllowed);
    }
    if !validate_word(word) {
        return Err(ChangeError::InvalidWord);
    }
    Ok(())
}

/// Whether a word may be added with a frequency. Who asks is looked at first.
pub fn check_add(admin: bool, word: &str, freq: i32) -> (checked: Result<(), ChangeError>)
    ensures
        checked == (if !admin {
            Err(ChangeError::NotAllowed)
        } else if !word_valid(word@) {
            Err(ChangeError::InvalidWord)
        } else if freq < 0 {
            Err(ChangeError::NegativeFrequency)
        } else {
            Ok(())
        }),
        addition_granted(admin, word@, freq, checked),
{
    proof {
        lemma_addition_granted(admin, word@, freq);
    }
    match check_delete(admin, word) {
        Ok(()) => if freq < 0 {
            Err(ChangeError::NegativeFrequency)
        } else {
            Ok(())
        },
        Err(error) => Err(error),
    }
}

/// What is to be done to have the dictionary current.
#[derive(Clone, Copy, Debug, PartialEq, Eq, Structural)]
pub enum Reload {
    /// Nothing; the dictionary has this identity.
    Current(u64),
    /// Install the embedded dictionary as one without words.
    InstallEmpty,
    /// Read the table.
    Load,
}

/// What is to be done about an index whose analysis is looked at.
#[derive(Debug)]
pub enum AnalysisAction {
    Nothing,
    Refuse(String),
    Warn(String),
}

/// A word as the tokenizer takes it.
#[derive(Debug)]
pub struct InstalledWord {
    pub word: String,
    /// None where the tokenizer is to find one.
    pub freq: Option<usize>,
    pub tag: Option<String>,
}

/// What a backend knows of the dictionary.
#[derive(Debug)]
pub struct DictState {
    /// The table may have changed since it was read.
    pub dirty: bool,
    /// The identity that a statement saw.
    pub seen: Option<(u64, u64)>,
    /// The table had words when it was read.
    pub nonempty: bool,
    /// The table, once it is known.
    pub words_oid: u32,
    /// The indexes that the statement warned of.
    pub warned: Vec<u32>,
}

impl DictState {
    /// Nothing read yet.
    pub fn new() -> (state: Self)
        ensures
            state.dirty && !state.nonempty,
            state.seen is None,
            state.words_oid == 0,
            state.warned@ == Seq::<u32>::empty(),
    {
        DictState { dirty: true, seen: None, nonempty: false, words_oid: 0, warned: Vec::new() }
    }

    /// A statement starts: what it sees of the dictionary is looked at anew,
    /// and it warns of each index once.
    pub fn note_executor_start(&mut self)
        ensures
            final(self).seen is None,
            final(self).warned@ == Seq::<u32>::empty(),
            final(self).dirty == old(self).dirty,
            final(self).nonempty == old(self).nonempty,
            final(self).words_oid == old(self).words_oid,
    {
        self.seen = None;
        self.warned.clear();
    }

    /// A relation changed; `0` is any.
    pub fn invalidate(&mut self, oid: u32)
        ensures
            *final(self) == (DictState {
                dirty: old(self).dirty || oid == 0 || oid == old(self).words_oid,
                ..*old(self)
            }),
    {
        if oid == 0 || oid == self.words_oid {
            self.dirty = true;
        }
    }

    /// The dictionary may read differently from here on: a transaction ended
    /// or a subtransaction was rolled back, or a word was changed.
    pub fn forget_reads(&mut self)
        ensures
            *final(self) == (DictState { dirty: true, seen: None, ..*old(self) }),
    {
        self.dirty = true;
        self.seen = None;
    }

    /// What [`DictState::begin_reload`] answers.
    pub open spec fn reload_of(
        self,
        force: bool,
        worker: bool,
        in_transaction: bool,
        statement: u64,
        installed: u64,
    ) -> Reload {
        if worker {
            if installed == 0 {
                Reload::InstallEmpty
            } else {
                Reload::Current(installed)
            }
        } else if !in_transaction {
            Reload::Current(installed)
        } else if force {
            Reload::Load
        } else if self.seen matches Some((seen, identity)) && seen == statement {
            Reload::Current((self.seen->0).1)
        } else if !self.dirty {
            Reload::Current(installed)
        } else {
            Reload::Load
        }
    }

    /// Decides whether the dictionary is read again, of which `installed` is
    /// the identity now. Workers cannot read it, and one that has none gets
    /// the embedded dictionary. When it is read, what changes meanwhile is
    /// kept for the next statement.
    pub fn begin_reload(
        &mut self,
        force: bool,
        worker: bool,
        in_transaction: bool,
        statement: u64,
        installed: u64,
    ) -> (reload: Reload)
        ensures
            reload == old(self).reload_of(force, worker, in_transaction, statement, installed),
            *final(self) == (if reload == Reload::Load {
                DictState { dirty: false, ..*old(self) }
            } else if !worker && in_transaction && !(old(self).seen matches Some((seen, _)) && seen
                == statement) {
                DictState { seen: Some((statement, installed)), ..*old(self) }
            } else {
                *old(self)
            }),
    {
        if worker {
            return if installed == 0 {
                Reload::InstallEmpty
            } else {
                Reload::Current(installed)
            };
        }
        if !in_transaction {
            return Reload::Current(installed);
        }
        if !force {
            if let Some((seen, identity)) = self.seen {
                if seen == statement {
                    return Reload::Current(identity);
                }
            }
            if !self.dirty {
                self.seen = Some((statement, installed));
                return Reload::Current(installed);
            }
        }
        self.dirty = false;
        Reload::Load
    }

    /// Reading the table failed: it is to be read again.
    pub fn reload_failed(&mut self)
        ensures
            *final(self) == (DictState { dirty: true, ..*old(self) }),
    {
        self.dirty = true;
    }

    /// Takes the rows of the table: their identity, and the words to install
    /// unless the dictionary there is has it already.
    pub fn loaded(&mut self, rows: &mut Vec<Word>, force: bool, statement: u64, installed: u64) -> (
    result: (u64, Option<Vec<InstalledWord>>))
        ensures
            result.0 == fingerprint_of(rows_of(old(rows)@)),
            result.1 is Some <==> force || result.0 != installed,
            result.1 matches Some(words) ==> installed_rows(words@) == rows_sorted(
                rows_of(old(rows)@),
            ).map_values(|row: WordRow| installed_row(row)),
            *final(self) == (DictState {
                nonempty: old(rows).len() > 0,
                seen: Some((statement, result.0)),
                ..*old(self)
            }),
    {
        let value: u64 = fingerprint(rows);
        let install = if force || value != installed {
            Some(install_words(rows))
        } else {
            None
        };
        self.nonempty = rows.len() > 0;
        self.seen = Some((statement, value));
        (value, install)
    }

    /// What is done about an index called `name` with this status: drift is an
    /// error where that is asked for, and otherwise a warning, once in a
    /// statement.
    pub fn check_analysis(&mut self, index: u32, name: &str, state: AnalysisStatus, strict: bool) -> (
    action: AnalysisAction)
        ensures
            final(self).dirty == old(self).dirty,
            final(self).seen == old(self).seen,
            final(self).nonempty == old(self).nonempty,
            final(self).words_oid == old(self).words_oid,
            if state == AnalysisStatus::NotApplicable || state == AnalysisStatus::Match {
                action is Nothing && final(self).warned == old(self).warned
            } else if state != AnalysisStatus::MissingStamp && strict {
                action matches AnalysisAction::Refuse(text) && text@ == "stannum index "@ + name@
                    + ": "@ + state.words() && final(self).warned == old(self).warned
            } else if old(self).warned@.contains(index) {
                action is Nothing && final(self).warned == old(self).warned
            } else {
                action matches AnalysisAction::Warn(text) && text@ == "stannum index "@ + name@
                    + ": "@ + state.words() && final(self).warned@ == old(self).warned@.push(index)
            },
    {
        match state {
            AnalysisStatus::NotApplicable | AnalysisStatus::Match => {
                return AnalysisAction::Nothing;
            },
            _ => {},
        }
        if state != AnalysisStatus::MissingStamp && strict {
            return AnalysisAction::Refuse(analysis_message(name, state));
        }
        let mut i: usize = 0;
        while i < self.warned.len()
            invariant
                i <= self.warned.len(),
                *self == *old(self),
                state != AnalysisStatus::NotApplicable && state != AnalysisStatus::Match,
                state == AnalysisStatus::MissingStamp || !strict,
                forall|j: int| 0 <= j < i ==> self.warned[j] != index,
            decreases self.warned.len() - i,
        {
            if self.warned[i] == index {
                assert(self.warned@[i as int] == index);
                return AnalysisAction::Nothing;
            }
            i = i + 1;
        }
        self.warned.push(index);
        AnalysisAction::Warn(analysis_message(name, state))
    }
}

fn analysis_message(name: &str, state: AnalysisStatus) -> (message: String)
    ensures
        message@ == "stannum index "@ + name@ + ": "@ + state.words(),
{
    let mut message = String::from_str("stannum index ");
    message.append(name);
    message.append(": ");
    message.append(state.text());
    message
}

/// A word to install.
pub struct InstalledRow {
    pub word: Seq<char>,
    pub freq: Option<int>,
    pub tag: Option<Seq<char>>,
}

/// A row as the tokenizer takes it: a frequency that is not positive is none.
pub open spec fn installed_row(row: WordRow) -> InstalledRow {
    InstalledRow {
        word: row.word,
        freq: if row.freq > 0 {
            Some(row.freq)
        } else {
            None
        },
        tag: row.tag,
    }
}

impl View for InstalledWord {
    type V = InstalledRow;

    open spec fn view(&self) -> InstalledRow {
        InstalledRow {
            word: self.word@,
            freq: match self.freq {
                Some(freq) => Some(freq as int),
                None => None,
            },
            tag: match self.tag {
                Some(tag) => Some(tag@),
                None => None,
            },
        }
    }
}

/// The words to install.
pub open spec fn installed_rows(words: Seq<InstalledWord>) -> Seq<InstalledRow> {
    words.map_values(|word: InstalledWord| word@)
}

fn install_words(rows: &Vec<Word>) -> (words: Vec<InstalledWord>)
    ensures
        installed_rows(words@) == rows_of(rows@).map_values(|row: WordRow| installed_row(row)),
{
    let ghost all = rows_of(rows@).map_values(|row: WordRow| installed_row(row));
    let mut words: Vec<InstalledWord> = Vec::new();
    let mut i: usize = 0;
    while i < rows.len()
        invariant
            i <= rows.len(),
            all == rows_of(rows@).map_values(|row: WordRow| installed_row(row)),
            installed_rows(words@) == all.take(i as int),
        decreases rows.len() - i,
    {
        let row = &rows[i];
        let tag = match &row.tag {
            Some(tag) => Some(tag.clone()),
            None => None,
        };
        let freq: Option<usize> = if row.freq > 0 {
            Some(row.freq as usize)
        } else {
            None
        };
        let ghost before = installed_rows(words@);
        let word = InstalledWord { word: row.word.clone(), freq, tag };
        proof {
            assert(word@ == installed_row(row@));
        }
        words.push(word);
        proof {
            assert(installed_rows(words@) =~= before.push(installed_row(row@)));
            assert(installed_rows(words@) =~= all.take(i + 1));
        }
        i = i + 1;
    }
    proof {
        assert(all.take(i as int) =~= all);
    }
    words
}

/// A dictionary that was read in a statement, and has not changed since, is
/// not read again in it.
pub proof fn law_read_once_per_statement(state: DictState, statement: u64, installed: u64, identity: u64)
    requires
        state.seen == Some((statement, identity)),
    ensures
        state.reload_of(false, false, true, statement, installed) == Reload::Current(identity),
{
}

/// A change that arrives while the table is read is not lost: the dictionary
/// is read again in the next statement.
pub proof fn law_late_change_reloads(state: DictState, statement: u64, installed: u64)
    requires
        state.dirty,
        state.seen is None,
    ensures
        state.reload_of(false, false, true, statement, installed) == Reload::Load,
{
}

/// What is shown of an index's analysis: what it was built with, what there is
/// now, whether they match where any analysis applies, and their status.
#[derive(Debug)]
pub struct AnalysisRow {
    pub recorded: Option<AnalysisStamp>,
    pub runtime: Option<AnalysisStamp>,
    pub matches: Option<bool>,
    pub status: &'static str,
}

/// What is shown of an index's analysis. What an index was built with is
/// looked at only where an analysis applies and the index is there.
pub fn index_analysis(
    recorded: Option<AnalysisStamp>,
    runtime: Option<AnalysisStamp>,
    present: bool,
) -> (row: AnalysisRow)
    ensures
        row.runtime == runtime,
        row.recorded == (if runtime is Some && present {
            recorded
        } else {
            None
        }),
        row.matches == (match runtime {
            Some(_) => Some(status_of(row.recorded, runtime) == AnalysisStatus::Match),
            None => None,
        }),
        row.status@ == status_of(row.recorded, runtime).words(),
{
    let recorded = if runtime.is_some() && present {
        recorded
    } else {
        None
    };
    let state = status(recorded, runtime);
    let matches = match runtime {
        Some(_) => Some(state == AnalysisStatus::Match),
        None => None,
    };
    AnalysisRow { recorded, runtime, matches, status: state.text() }
}

} // verus!
