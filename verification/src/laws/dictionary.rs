//! What is said of dictionaries and of what indexes were built with.

use crate::dict::{
    hex, installed_row, status_of, uses_dictionary, word_valid, AnalysisStamp, DictState, Reload,
};
use crate::fingerprint::{
    framed_row, framed_upto, identity, le32, lemma_read32, lemma_rows_sorted, read32, row_before,
    rows_sorted, unsigned, WordRow,
};
use crate::highlight::words;
use crate::laws::labels::law_a_word_is_one_word;
use crate::laws::options::tokenizer_name;
use crate::options::{encoded, law_settings_survive, TokenizerPipelineSpec, Validation};
use crate::text::{bytes_before, lemma_bytes_total, lemma_text_bytes};
use vstd::prelude::*;
use vstd::utf8::encode_utf8;

verus! {

/// An index matches the dictionary just where it was built with the same
/// tokenizer and the same words; else its status says which of them differs.
/// An index that no dictionary applies to has no status.
pub proof fn law_the_status_tells_what_differs(
    recorded: Option<AnalysisStamp>,
    runtime: Option<AnalysisStamp>,
)
    ensures
        status_of(recorded, runtime) is NotApplicable <==> runtime is None,
        status_of(recorded, runtime) is MissingStamp <==> runtime is Some && recorded is None,
        recorded is Some && runtime is Some ==> {
            let (was, is) = (recorded->0, runtime->0);
            let same_version = was.jieba_rs_version == is.jieba_rs_version;
            let same_words = was.dict_fingerprint == is.dict_fingerprint;
            &&& status_of(recorded, runtime) is Match <==> same_version && same_words
            &&& status_of(recorded, runtime) is DictionaryDrift <==> same_version && !same_words
            &&& status_of(recorded, runtime) is JiebaVersionDrift <==> !same_version && same_words
            &&& status_of(recorded, runtime) is BothDrift <==> !same_version && !same_words
        },
{
}

/// The dictionary applies to the indexes that name its tokenizer.
pub proof fn law_the_dictionary_is_of_its_tokenizer<V: Fn(TokenizerPipelineSpec) -> bool>(
    spec: TokenizerPipelineSpec,
    validation: Validation<V>,
)
    requires
        spec.long_tokens.max_bytes <= u16::MAX,
    ensures
        uses_dictionary(encoded(spec), validation) <==> validation.accepted(spec) && tokenizer_name(
            spec.tokenizer,
        ) == "jieba"@,
{
    law_settings_survive(spec);
    reveal_strlit("unicode");
    reveal_strlit("whitespace");
    reveal_strlit("jieba");
    assert("unicode"@[0] == 'u' && "whitespace"@[0] == 'w' && "jieba"@[0] == 'j');
}

/// A word of the dictionary is one word, of at most 256 bytes.
pub proof fn law_dictionary_words_are_words(text: Seq<char>)
    ensures
        word_valid(text) <==> words(text) == seq![text] && encode_utf8(text).len() <= 256,
{
    if word_valid(text) {
        law_a_word_is_one_word(text);
    }
    if words(text) == seq![text] {
        assert(words(text).len() == 1);
        lemma_words_are_dark(text);
        assert(words(text)[0] == text);
        if text.len() == 0 {
            assert(words(text).len() == 0);
        }
    }
}

proof fn lemma_words_are_dark(text: Seq<char>)
    ensures
        forall|i: int, j: int|
            0 <= i < words(text).len() && 0 <= j < (#[trigger] words(text)[i]).len()
                ==> !crate::chars::white(#[trigger] words(text)[i][j]),
    decreases text.len(),
{
    if text.len() > 0 {
        let rest = text.drop_last();
        lemma_words_are_dark(rest);
        let before = words(rest);
        let all = words(text);
        assert forall|i: int, j: int|
            0 <= i < all.len() && 0 <= j < (#[trigger] all[i]).len() implies !crate::chars::white(
            #[trigger] all[i][j],
        ) by {
            if i < before.len() && all[i] == before[i] {
                assert(!crate::chars::white(before[i][j]));
            } else if i < before.len() {
                assert(all[i] == before[i].push(text.last()));
                if j < before[i].len() {
                    assert(all[i][j] == before[i][j]);
                    assert(!crate::chars::white(before[i][j]));
                }
            }
        }
    }
}

/// The number that digits in base sixteen are.
pub open spec fn read_hex(digits: Seq<char>) -> nat
    decreases digits.len(),
{
    if digits.len() == 0 {
        0
    } else {
        let c = digits.last();
        let digit: int = if '0' <= c <= '9' {
            c as int - '0' as int
        } else {
            c as int - 'a' as int + 10
        };
        (read_hex(digits.drop_last()) * 16 + digit) as nat
    }
}

/// An identity is shown with as many digits as asked for, and they read back.
pub proof fn law_hex_reads_back(n: nat, width: nat)
    requires
        n < vstd::arithmetic::power::pow(16, width),
    ensures
        hex(n, width).len() == width,
        read_hex(hex(n, width)) == n,
    decreases width,
{
    if width == 0 {
        vstd::arithmetic::power::lemma_pow0(16);
    } else {
        let less = (width - 1) as nat;
        vstd::arithmetic::power::lemma_pow_adds(16, less, 1);
        vstd::arithmetic::power::lemma_pow1(16);
        let scale = vstd::arithmetic::power::pow(16, less);
        assert(n / 16 < scale) by (nonlinear_arith)
            requires
                n < scale * 16,
        ;
        law_hex_reads_back(n / 16, less);
        let digits = seq![
            '0', '1', '2', '3', '4', '5', '6', '7', '8', '9', 'a', 'b', 'c', 'd', 'e', 'f',
        ];
        assert(hex(n, width).drop_last() =~= hex(n / 16, less));
        assert(hex(n, width).last() == digits[(n % 16) as int]);
    }
}

/// A dictionary is read by hand whenever it is asked for, and by itself once a
/// change came in; never outside a transaction, nor by a worker, which is given
/// the empty one if it has none.
pub proof fn law_a_changed_dictionary_is_read(
    state: DictState,
    force: bool,
    worker: bool,
    in_transaction: bool,
    statement: u64,
    installed: u64,
)
    ensures
        ({
            let reload = state.reload_of(force, worker, in_transaction, statement, installed);
            let read_before = state.seen matches Some((seen, _)) && seen == statement;
            &&& reload is Load <==> !worker && in_transaction && (force || (state.dirty
                && !read_before))
            &&& reload is InstallEmpty <==> worker && installed == 0
            &&& reload matches Reload::Current(identity) ==> identity == (if !worker
                && in_transaction && read_before {
                (state.seen->0).1
            } else {
                installed
            })
        }),
{
}

/// The rows of a dictionary stand in the order of their words' bytes, those of one
/// word in that of their frequencies, and those of one frequency in that of their
/// tags, a row without one first.
pub proof fn law_rows_are_framed_in_order(rows: Seq<WordRow>)
    ensures
        rows_sorted(rows).to_multiset() == rows.to_multiset(),
        forall|i: int, j: int|
            #![trigger rows_sorted(rows)[i], rows_sorted(rows)[j]]
            0 <= i < j < rows_sorted(rows).len() ==> stands_before(
                rows_sorted(rows)[i],
                rows_sorted(rows)[j],
            ),
{
    lemma_rows_sorted(rows);
    let sorted = rows_sorted(rows);
    assert forall|i: int, j: int|
        #![trigger sorted[i], sorted[j]]
        0 <= i < j < sorted.len() implies stands_before(sorted[i], sorted[j]) by {
        let a = sorted[i];
        let b = sorted[j];
        assert(!row_before(b, a));
        lemma_bytes_total(encode_utf8(a.word), encode_utf8(b.word));
        lemma_text_bytes(a.word, b.word);
        if let (Some(left), Some(right)) = (a.tag, b.tag) {
            lemma_bytes_total(encode_utf8(left), encode_utf8(right));
            lemma_text_bytes(left, right);
        }
    }
}

/// The one row may stand before the other.
pub open spec fn stands_before(a: WordRow, b: WordRow) -> bool {
    let left = encode_utf8(a.word);
    let right = encode_utf8(b.word);
    ||| bytes_before(left, right)
    ||| left == right && a.freq < b.freq
    ||| left == right && a.freq == b.freq && match (a.tag, b.tag) {
        (None, _) => true,
        (Some(_), None) => false,
        (Some(x), Some(y)) => encode_utf8(x) == encode_utf8(y) || bytes_before(
            encode_utf8(x),
            encode_utf8(y),
        ),
    }
}

/// A row can be read from its frame: behind the mark stand the length of the word
/// and its bytes, the frequency, whether there is a tag, and the tag like the word.
pub proof fn law_a_frame_holds_its_row(row: WordRow)
    requires
        encode_utf8(row.word).len() < 0x1_0000_0000,
        row.tag matches Some(tag) ==> encode_utf8(tag).len() < 0x1_0000_0000,
        i32::MIN <= row.freq <= i32::MAX,
    ensures
        ({
            let mark = encode_utf8("row\u{0}"@);
            let word = encode_utf8(row.word);
            let frame = framed_row(row);
            let start = mark.len() as int;
            let after = start + 4 + word.len() as int;
            let freq = read32(frame.subrange(after, after + 4));
            &&& frame.len() >= after + 5
            &&& frame.take(start) == mark
            &&& read32(frame.subrange(start, start + 4)) == word.len()
            &&& frame.subrange(start + 4, after) == word
            &&& row.freq == if freq < 0x8000_0000 {
                freq
            } else {
                freq - 0x1_0000_0000
            }
            &&& match row.tag {
                None => frame.len() == after + 5 && frame[after + 4] == 0,
                Some(tag) => {
                    let bytes = encode_utf8(tag);
                    &&& frame[after + 4] == 1
                    &&& frame.len() == after + 9 + bytes.len()
                    &&& read32(frame.subrange(after + 5, after + 9)) == bytes.len()
                    &&& frame.skip(after + 9) == bytes
                },
            }
        }),
{
    let mark = encode_utf8("row\u{0}"@);
    let word = encode_utf8(row.word);
    let frame = framed_row(row);
    let start = mark.len() as int;
    let after = start + 4 + word.len() as int;
    lemma_read32(word.len());
    lemma_read32(unsigned(row.freq));
    assert(frame.take(start) =~= mark);
    assert(frame.subrange(start, start + 4) =~= le32(word.len()));
    assert(frame.subrange(start + 4, after) =~= word);
    assert(frame.subrange(after, after + 4) =~= le32(unsigned(row.freq)));
    if let Some(tag) = row.tag {
        let bytes = encode_utf8(tag);
        lemma_read32(bytes.len());
        assert(frame.subrange(after + 5, after + 9) =~= le32(bytes.len()));
        assert(frame.skip(after + 9) =~= bytes);
    }
}

/// A dictionary's frame is the frames of its rows, one behind the other.
pub proof fn law_rows_are_framed_one_by_one(rows: Seq<WordRow>, row: WordRow)
    ensures
        framed_upto(rows.push(row), rows.len() as int + 1) == framed_upto(rows, rows.len() as int)
            + framed_row(row),
        framed_upto(Seq::empty(), 0) == encode_utf8("stannum.jieba.dict.v1\u{0}"@),
{
    lemma_framed_prefix(rows, row, rows.len() as int);
}

proof fn lemma_framed_prefix(rows: Seq<WordRow>, row: WordRow, upto: int)
    requires
        0 <= upto <= rows.len(),
    ensures
        framed_upto(rows.push(row), upto) == framed_upto(rows, upto),
    decreases upto,
{
    if upto > 0 {
        lemma_framed_prefix(rows, row, upto - 1);
    }
}

/// The identity of a table is never that of the embedded dictionary, and no two
/// hashes but zero and one give the same.
pub proof fn law_an_identity_is_a_hash(a: u64, b: u64)
    ensures
        identity(a) != 0,
        identity(a) == identity(b) ==> a == b || (a <= 1 && b <= 1),
        a != 0 ==> identity(a) == a,
{
}

/// A word is installed with its tag, and with its frequency if that is positive.
pub proof fn law_words_are_installed_with_positive_frequencies(row: WordRow)
    ensures
        installed_row(row).word == row.word && installed_row(row).tag == row.tag,
        installed_row(row).freq matches Some(freq) ==> 0 < freq && freq == row.freq,
        installed_row(row).freq is None ==> row.freq <= 0,
{
}

} // verus!
