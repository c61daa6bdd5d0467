//! The identity of a custom dictionary.
//!
//! The identity is frozen: SipHash-1-3 with fixed keys, over the rows in the
//! order of their bytes. Each row is separated from the others and framed by
//! lengths, its tag like its word.

use crate::text::{
    before, lemma_text_bytes, lemma_text_total, lemma_text_transitive, same, text_before,
};
use siphasher::sip::SipHasher13;
use std::hash::Hasher;
use vstd::prelude::*;
use vstd::utf8::encode_utf8;

verus! {

/// The identity of a dictionary without words.
pub const EMPTY_FINGERPRINT: u64 = 0x6855_a073_6155_f3dd;

pub const KEY_LOW: u64 = 0x7374_616e_6e75_6d31;

pub const KEY_HIGH: u64 = 0x6a69_6562_6164_6963;

/// A word of the dictionary: its frequency, where zero is none given, and its
/// tag.
#[derive(Debug)]
pub struct Word {
    pub word: String,
    pub freq: i32,
    pub tag: Option<String>,
}

/// What a word of the dictionary holds.
pub struct WordRow {
    pub word: Seq<char>,
    pub freq: int,
    pub tag: Option<Seq<char>>,
}

impl View for Word {
    type V = WordRow;

    open spec fn view(&self) -> WordRow {
        WordRow {
            word: self.word@,
            freq: self.freq as int,
            tag: match self.tag {
                Some(tag) => Some(tag@),
                None => None,
            },
        }
    }
}

/// What each word holds.
pub open spec fn rows_of(words: Seq<Word>) -> Seq<WordRow> {
    words.map_values(|word: Word| word@)
}

/// No tag comes before any; tags by their bytes.
pub open spec fn tag_before(a: Option<Seq<char>>, b: Option<Seq<char>>) -> bool {
    match (a, b) {
        (None, Some(_)) => true,
        (Some(left), Some(right)) => text_before(left, right),
        _ => false,
    }
}

/// Rows by word, then by frequency, then by tag.
pub open spec fn row_before(a: WordRow, b: WordRow) -> bool {
    text_before(a.word, b.word) || (a.word == b.word && (a.freq < b.freq || (a.freq == b.freq
        && tag_before(a.tag, b.tag))))
}

/// No row comes before one to its left.
pub open spec fn in_row_order(rows: Seq<WordRow>) -> bool {
    forall|i: int, j: int| 0 <= i < j < rows.len() ==> !row_before(rows[j], rows[i])
}

/// `rows` with `row` put behind every row it does not come before.
pub open spec fn row_inserted(rows: Seq<WordRow>, row: WordRow) -> Seq<WordRow>
    decreases rows.len(),
{
    if rows.len() == 0 || !row_before(row, rows.last()) {
        rows.push(row)
    } else {
        row_inserted(rows.drop_last(), row).push(rows.last())
    }
}

/// All of `rows`, in order.
pub open spec fn rows_sorted(rows: Seq<WordRow>) -> Seq<WordRow>
    decreases rows.len(),
{
    if rows.len() == 0 {
        rows
    } else {
        row_inserted(rows_sorted(rows.drop_last()), rows.last())
    }
}

proof fn lemma_tag_total(a: Option<Seq<char>>, b: Option<Seq<char>>)
    ensures
        !(tag_before(a, b) && tag_before(b, a)),
        tag_before(a, b) || tag_before(b, a) || a == b,
        !tag_before(a, a),
{
    if let (Some(left), Some(right)) = (a, b) {
        lemma_text_total(left, right);
    }
    if let Some(left) = a {
        lemma_text_total(left, left);
    }
}

proof fn lemma_row_total(a: WordRow, b: WordRow)
    ensures
        !(row_before(a, b) && row_before(b, a)),
        row_before(a, b) || row_before(b, a) || a == b,
{
    lemma_text_total(a.word, b.word);
    lemma_tag_total(a.tag, b.tag);
}

proof fn lemma_row_transitive(a: WordRow, b: WordRow, c: WordRow)
    requires
        row_before(a, b),
        !row_before(c, b),
    ensures
        row_before(a, c),
{
    lemma_row_total(b, c);
    lemma_text_total(b.word, c.word);
    lemma_text_total(a.word, b.word);
    if text_before(a.word, b.word) && text_before(b.word, c.word) {
        lemma_text_transitive(a.word, b.word, c.word);
    }
    if let (Some(x), Some(y)) = (a.tag, b.tag) {
        if let Some(z) = c.tag {
            if text_before(x, y) && text_before(y, z) {
                lemma_text_transitive(x, y, z);
            }
        }
    }
}

proof fn lemma_row_inserted(rows: Seq<WordRow>, row: WordRow)
    ensures
        row_inserted(rows, row).len() == rows.len() + 1,
        row_inserted(rows, row).to_multiset() == rows.to_multiset().insert(row),
        in_row_order(rows) ==> in_row_order(row_inserted(rows, row)),
    decreases rows.len(),
{
    broadcast use vstd::seq_lib::group_to_multiset_ensures;

    if rows.len() == 0 || !row_before(row, rows.last()) {
        if in_row_order(rows) && rows.len() > 0 {
            assert forall|i: int| 0 <= i < rows.len() implies !row_before(row, rows[i]) by {
                if i < rows.len() - 1 && row_before(row, rows[i]) {
                    assert(!row_before(rows[rows.len() - 1], rows[i]));
                    lemma_row_transitive(row, rows[i], rows.last());
                }
            }
        }
    } else {
        let rest = rows.drop_last();
        lemma_row_inserted(rest, row);
        assert(rest.push(rows.last()) =~= rows);
        assert(row_inserted(rows, row).to_multiset() =~= rows.to_multiset().insert(row));
        if in_row_order(rows) {
            let all = row_inserted(rest, row);
            assert forall|i: int| 0 <= i < all.len() implies !row_before(rows.last(), all[i]) by {
                lemma_row_total(row, rows.last());
                assert(all.to_multiset().contains(all[i]));
                if all[i] != row {
                    assert(rest.to_multiset().contains(all[i]));
                    assert(rest.contains(all[i]));
                    let j = choose|j: int| 0 <= j < rest.len() && rest[j] == all[i];
                    assert(!row_before(rows[rows.len() - 1], rows[j]));
                }
            }
        }
    }
}

pub(crate) proof fn lemma_rows_sorted(rows: Seq<WordRow>)
    ensures
        in_row_order(rows_sorted(rows)),
        rows_sorted(rows).to_multiset() == rows.to_multiset(),
        rows_sorted(rows).len() == rows.len(),
    decreases rows.len(),
{
    broadcast use vstd::seq_lib::group_to_multiset_ensures;

    if rows.len() > 0 {
        lemma_rows_sorted(rows.drop_last());
        lemma_row_inserted(rows_sorted(rows.drop_last()), rows.last());
        assert(rows.drop_last().push(rows.last()) =~= rows);
    }
}

proof fn lemma_row_order_unique(a: Seq<WordRow>, b: Seq<WordRow>)
    requires
        in_row_order(a),
        in_row_order(b),
        a.to_multiset() == b.to_multiset(),
    ensures
        a == b,
    decreases a.len(),
{
    broadcast use vstd::seq_lib::group_to_multiset_ensures;

    assert(a.len() == a.to_multiset().len());
    assert(b.len() == b.to_multiset().len());
    if a.len() > 0 {
        assert(a.to_multiset().contains(a.last()));
        assert(b.contains(a.last()));
        assert(b.to_multiset().contains(b.last()));
        assert(a.contains(b.last()));
        let i = choose|i: int| 0 <= i < b.len() && b[i] == a.last();
        let j = choose|j: int| 0 <= j < a.len() && a[j] == b.last();
        lemma_row_total(a.last(), b.last());
        if i < b.len() - 1 {
            assert(!row_before(b[b.len() - 1], b[i]));
        }
        if j < a.len() - 1 {
            assert(!row_before(a[a.len() - 1], a[j]));
        }
        assert(a.last() == b.last());
        assert(a.drop_last().push(a.last()) =~= a);
        assert(b.drop_last().push(b.last()) =~= b);
        assert(a.drop_last().to_multiset() =~= a.to_multiset().remove(a.last()));
        assert(b.drop_last().to_multiset() =~= b.to_multiset().remove(b.last()));
        lemma_row_order_unique(a.drop_last(), b.drop_last());
        assert(a =~= b);
    } else {
        assert(a =~= b);
    }
}

/// The four bytes of a number, the lowest first.
pub open spec fn le32(n: nat) -> Seq<u8> {
    seq![
        (n % 256) as u8,
        (n / 256 % 256) as u8,
        (n / 65536 % 256) as u8,
        (n / 16777216 % 256) as u8,
    ]
}

/// A frequency as an unsigned number of 32 bits.
pub open spec fn unsigned(freq: int) -> nat {
    if freq < 0 {
        (freq + 0x1_0000_0000) as nat
    } else {
        freq as nat
    }
}

/// A text with its length before it.
pub open spec fn framed_text(text: Seq<char>) -> Seq<u8> {
    le32(encode_utf8(text).len()) + encode_utf8(text)
}

/// The bytes that stand for a row.
pub open spec fn framed_row(row: WordRow) -> Seq<u8> {
    encode_utf8("row\u{0}"@) + framed_text(row.word) + le32(unsigned(row.freq)) + match row.tag {
        Some(tag) => seq![1u8] + framed_text(tag),
        None => seq![0u8],
    }
}

/// What every identity starts with.
pub open spec fn preamble() -> Seq<u8> {
    encode_utf8("stannum.jieba.dict.v1\u{0}"@)
}

/// The bytes that stand for the first `upto` rows.
pub open spec fn framed_upto(rows: Seq<WordRow>, upto: int) -> Seq<u8>
    decreases upto,
{
    if upto <= 0 || upto > rows.len() {
        preamble()
    } else {
        framed_upto(rows, upto - 1) + framed_row(rows[upto - 1])
    }
}

/// The bytes that stand for the rows of a dictionary, in whatever order they
/// come.
pub open spec fn framed(rows: Seq<WordRow>) -> Seq<u8> {
    framed_upto(rows_sorted(rows), rows.len() as int)
}

/// What SipHash-1-3 makes of bytes under two keys.
pub uninterp spec fn sip13(key0: u64, key1: u64, bytes: Seq<u8>) -> u64;

/// `siphasher::sip::SipHasher13`, made with two keys, given all the bytes and
/// finished: the hash is named by the keys and the bytes.
#[verifier::external_body]
fn sip_hash(key0: u64, key1: u64, bytes: &Vec<u8>) -> (hash: u64)
    ensures
        hash == sip13(key0, key1, bytes@),
{
    let mut hasher = SipHasher13::new_with_keys(key0, key1);
    hasher.write(bytes);
    hasher.finish()
}

/// The identity that a hash is: zero is none.
pub open spec fn identity(hash: u64) -> u64 {
    if hash == 0 {
        1
    } else {
        hash
    }
}

/// The identity of a dictionary.
pub open spec fn fingerprint_of(rows: Seq<WordRow>) -> u64 {
    identity(sip13(KEY_LOW, KEY_HIGH, framed(rows)))
}

/// The identity that a hash is: zero stands for the embedded dictionary and
/// is no identity of a table.
pub fn identity_of_hash(hash: u64) -> (fingerprint: u64)
    ensures
        fingerprint == identity(hash),
        fingerprint != 0,
{
    if hash == 0 {
        1
    } else {
        hash
    }
}

/// The identity of a dictionary does not depend on the order of its rows.
pub proof fn law_fingerprint_ignores_order(a: Seq<WordRow>, b: Seq<WordRow>)
    requires
        a.to_multiset() == b.to_multiset(),
    ensures
        framed(a) == framed(b),
        fingerprint_of(a) == fingerprint_of(b),
{
    broadcast use vstd::seq_lib::group_to_multiset_ensures;

    lemma_rows_sorted(a);
    lemma_rows_sorted(b);
    lemma_row_order_unique(rows_sorted(a), rows_sorted(b));
    assert(a.len() == a.to_multiset().len());
    assert(b.len() == b.to_multiset().len());
}

fn is_row_before(a: &Word, b: &Word) -> (earlier: bool)
    ensures
        earlier == row_before(a@, b@),
{
    if before(a.word.as_str(), b.word.as_str()) {
        return true;
    }
    if !same(a.word.as_str(), b.word.as_str()) {
        return false;
    }
    if a.freq != b.freq {
        return a.freq < b.freq;
    }
    match (&a.tag, &b.tag) {
        (None, Some(_)) => true,
        (Some(left), Some(right)) => before(left.as_str(), right.as_str()),
        _ => false,
    }
}

fn insert_word(sorted: &mut Vec<Word>, word: Word)
    ensures
        rows_of(final(sorted)@) == row_inserted(rows_of(old(sorted)@), word@),
{
    let ghost all = rows_of(sorted@);
    let mut at: usize = sorted.len();
    proof {
        assert(all.take(at as int) =~= all);
        assert(row_inserted(all, word@) + all.skip(at as int) =~= row_inserted(all, word@));
    }
    while at > 0 && is_row_before(&word, &sorted[at - 1])
        invariant
            at <= sorted.len(),
            rows_of(sorted@) == all,
            row_inserted(all, word@) == row_inserted(all.take(at as int), word@) + all.skip(
                at as int,
            ),
        decreases at,
    {
        proof {
            let head = all.take(at as int);
            assert(head.last() == sorted[at - 1]@);
            assert(head.drop_last() =~= all.take(at - 1));
            assert(row_inserted(head.drop_last(), word@).push(head.last()) + all.skip(at as int)
                =~= row_inserted(all.take(at - 1), word@) + all.skip(at - 1));
        }
        at = at - 1;
    }
    proof {
        let head = all.take(at as int);
        if at > 0 {
            assert(head.last() == sorted[at - 1]@);
        }
        assert(all.insert(at as int, word@) =~= head.push(word@) + all.skip(at as int));
    }
    let ghost added = word@;
    sorted.insert(at, word);
    proof {
        assert(rows_of(sorted@) =~= all.insert(at as int, added));
    }
}

/// Puts the rows in order.
fn sort_words(rows: &mut Vec<Word>)
    ensures
        rows_of(final(rows)@) == rows_sorted(rows_of(old(rows)@)),
        final(rows).len() == old(rows).len(),
{
    let ghost all = rows_of(rows@);
    let len: usize = rows.len();
    let mut rest: Vec<Word> = Vec::new();
    std::mem::swap(rows, &mut rest);
    let mut i: usize = 0;
    proof {
        assert(all.take(0) =~= Seq::empty());
        assert(all.skip(0) =~= all);
        assert(rows_of(rows@) =~= Seq::empty());
    }
    while rest.len() > 0
        invariant
            all == rows_of(old(rows)@),
            all.len() == len,
            i + rest.len() == len,
            rows_of(rest@) == all.skip(i as int),
            rows_of(rows@) == rows_sorted(all.take(i as int)),
        decreases rest.len(),
    {
        let ghost had = rows_of(rest@);
        let word = rest.remove(0);
        proof {
            assert(had[0] == all[i as int]);
            assert(rows_of(rest@) =~= had.drop_first());
            assert(had.drop_first() =~= all.skip(i + 1));
            assert(all.take(i + 1).drop_last() =~= all.take(i as int));
            assert(all.take(i + 1).last() == word@);
        }
        insert_word(rows, word);
        i = i + 1;
    }
    proof {
        assert(all.take(i as int) =~= all);
        lemma_rows_sorted(all);
        assert(rows_of(rows@).len() == rows.len());
    }
}

fn push_bytes(out: &mut Vec<u8>, bytes: &[u8])
    ensures
        final(out)@ == old(out)@ + bytes@,
{
    let ghost before = out@;
    let mut i: usize = 0;
    proof {
        assert(before + bytes@.take(0) =~= before);
    }
    while i < bytes.len()
        invariant
            i <= bytes.len(),
            out@ == before + bytes@.take(i as int),
        decreases bytes.len() - i,
    {
        out.push(bytes[i]);
        proof {
            assert(out@ =~= before + bytes@.take(i + 1));
        }
        i = i + 1;
    }
    proof {
        assert(bytes@.take(i as int) =~= bytes@);
    }
}

fn push_le32(out: &mut Vec<u8>, n: u64)
    ensures
        final(out)@ == old(out)@ + le32(n as nat),
{
    let ghost before = out@;
    out.push((n % 256) as u8);
    out.push((n / 256 % 256) as u8);
    out.push((n / 65536 % 256) as u8);
    out.push((n / 16777216 % 256) as u8);
    proof {
        assert(out@ =~= before + le32(n as nat));
    }
}

fn push_framed_text(out: &mut Vec<u8>, text: &str)
    ensures
        final(out)@ == old(out)@ + framed_text(text@),
{
    let ghost before = out@;
    let bytes = text.as_bytes();
    push_le32(out, bytes.len() as u64);
    push_bytes(out, bytes);
    proof {
        assert(out@ =~= before + framed_text(text@));
    }
}

fn push_row(out: &mut Vec<u8>, row: &Word)
    ensures
        final(out)@ == old(out)@ + framed_row(row@),
{
    let ghost all = out@;
    push_bytes(out, "row\u{0}".as_bytes());
    push_framed_text(out, row.word.as_str());
    let freq: u64 = if row.freq < 0 {
        (row.freq as i64 + 0x1_0000_0000) as u64
    } else {
        row.freq as u64
    };
    push_le32(out, freq);
    match &row.tag {
        Some(tag) => {
            out.push(1);
            push_framed_text(out, tag.as_str());
        },
        None => {
            out.push(0);
        },
    }
    proof {
        assert(out@ =~= all + framed_row(row@));
    }
}

/// The bytes that stand for rows which are in order.
fn frame(rows: &Vec<Word>) -> (out: Vec<u8>)
    ensures
        out@ == framed_upto(rows_of(rows@), rows.len() as int),
{
    let mut out: Vec<u8> = Vec::new();
    push_bytes(&mut out, "stannum.jieba.dict.v1\u{0}".as_bytes());
    proof {
        assert(out@ =~= preamble());
    }
    let mut i: usize = 0;
    while i < rows.len()
        invariant
            i <= rows.len(),
            out@ == framed_upto(rows_of(rows@), i as int),
        decreases rows.len() - i,
    {
        assert(rows_of(rows@)[i as int] == rows[i as int]@);
        push_row(&mut out, &rows[i]);
        i = i + 1;
    }
    out
}

/// The identity of the dictionary that `rows` are, which are put in order.
pub fn fingerprint(rows: &mut Vec<Word>) -> (value: u64)
    ensures
        value == fingerprint_of(rows_of(old(rows)@)),
        value != 0,
        rows_of(final(rows)@) == rows_sorted(rows_of(old(rows)@)),
        final(rows).len() == old(rows).len(),
{
    sort_words(rows);
    let bytes = frame(rows);
    identity_of_hash(sip_hash(KEY_LOW, KEY_HIGH, &bytes))
}

/// The number that four bytes are, the lowest first.
pub open spec fn read32(bytes: Seq<u8>) -> int {
    bytes[0] + 0x100 * bytes[1] + 0x1_0000 * bytes[2] + 0x100_0000 * bytes[3]
}

/// The bytes of a number read back as the number.
pub(crate) proof fn lemma_read32(n: nat)
    requires
        n < 0x1_0000_0000,
    ensures
        read32(le32(n)) == n,
        le32(n).len() == 4,
{
    let rest: nat = n / 256;
    let upper: nat = n / 65536;
    let top: nat = n / 16777216;
    assert(n == 256 * rest + n % 256);
    assert(rest / 256 == upper && rest == 256 * upper + rest % 256);
    assert(upper / 256 == top && upper == 256 * top + upper % 256);
    assert(top < 256);
}

proof fn lemma_le32(a: nat, b: nat)
    requires
        a < 0x1_0000_0000,
        b < 0x1_0000_0000,
        le32(a) == le32(b),
    ensures
        a == b,
{
    lemma_read32(a);
    lemma_read32(b);
}

/// A row can be read back: no length is beyond what four bytes hold, nor is a
/// frequency.
pub open spec fn readable(row: WordRow) -> bool {
    &&& encode_utf8(row.word).len() < 0x1_0000_0000
    &&& i32::MIN <= row.freq <= i32::MAX
    &&& row.tag matches Some(tag) ==> encode_utf8(tag).len() < 0x1_0000_0000
}

proof fn lemma_framed_text(a: Seq<char>, b: Seq<char>, x: Seq<u8>, y: Seq<u8>)
    requires
        encode_utf8(a).len() < 0x1_0000_0000,
        encode_utf8(b).len() < 0x1_0000_0000,
        framed_text(a) + x == framed_text(b) + y,
    ensures
        a == b,
        x == y,
{
    let left = framed_text(a) + x;
    let right = framed_text(b) + y;
    assert(le32(encode_utf8(a).len()) =~= left.take(4));
    assert(le32(encode_utf8(b).len()) =~= right.take(4));
    lemma_le32(encode_utf8(a).len(), encode_utf8(b).len());
    let n = encode_utf8(a).len() as int;
    assert(encode_utf8(a) =~= left.subrange(4, 4 + n));
    assert(encode_utf8(b) =~= right.subrange(4, 4 + n));
    lemma_text_bytes(a, b);
    assert(x =~= left.skip(4 + n));
    assert(y =~= right.skip(4 + n));
}

proof fn lemma_framed_row(a: WordRow, b: WordRow, x: Seq<u8>, y: Seq<u8>)
    requires
        readable(a),
        readable(b),
        framed_row(a) + x == framed_row(b) + y,
    ensures
        a == b,
        x == y,
{
    let head = encode_utf8("row\u{0}"@);
    let end_a = match a.tag {
        Some(tag) => seq![1u8] + framed_text(tag),
        None => seq![0u8],
    };
    let end_b = match b.tag {
        Some(tag) => seq![1u8] + framed_text(tag),
        None => seq![0u8],
    };
    let rest_a = le32(unsigned(a.freq)) + end_a + x;
    let rest_b = le32(unsigned(b.freq)) + end_b + y;
    let left = framed_row(a) + x;
    let right = framed_row(b) + y;
    let n = head.len() as int;
    assert(left.skip(n) =~= framed_text(a.word) + rest_a);
    assert(right.skip(n) =~= framed_text(b.word) + rest_b);
    lemma_framed_text(a.word, b.word, rest_a, rest_b);
    assert(rest_a.take(4) =~= le32(unsigned(a.freq)));
    assert(rest_b.take(4) =~= le32(unsigned(b.freq)));
    lemma_le32(unsigned(a.freq), unsigned(b.freq));
    assert(a.freq == b.freq);
    let tail_a = rest_a.skip(4);
    let tail_b = rest_b.skip(4);
    assert(tail_a =~= end_a + x);
    assert(tail_b =~= end_b + y);
    assert(tail_a[0] == tail_b[0]);
    match (a.tag, b.tag) {
        (Some(s), Some(t)) => {
            assert(tail_a.skip(1) =~= framed_text(s) + x);
            assert(tail_b.skip(1) =~= framed_text(t) + y);
            lemma_framed_text(s, t, x, y);
        },
        (None, None) => {
            assert(x =~= tail_a.skip(1));
            assert(y =~= tail_b.skip(1));
        },
        (Some(s), None) => {
            assert(end_a[0] == 1u8);
            assert(end_b[0] == 0u8);
        },
        (None, Some(t)) => {
            assert(end_a[0] == 0u8);
            assert(end_b[0] == 1u8);
        },
    }
}

/// The bytes from row `i` on.
spec fn framed_from(rows: Seq<WordRow>, i: int) -> Seq<u8>
    decreases rows.len() - i,
{
    if i < 0 || i >= rows.len() {
        Seq::empty()
    } else {
        framed_row(rows[i]) + framed_from(rows, i + 1)
    }
}

proof fn lemma_framed_split(rows: Seq<WordRow>, i: int)
    requires
        0 <= i <= rows.len(),
    ensures
        framed_upto(rows, rows.len() as int) == framed_upto(rows, i) + framed_from(rows, i),
    decreases rows.len() - i,
{
    if i < rows.len() {
        lemma_framed_split(rows, i + 1);
        assert(framed_upto(rows, i) + framed_row(rows[i]) + framed_from(rows, i + 1)
            =~= framed_upto(rows, i) + framed_from(rows, i));
    } else {
        assert(framed_upto(rows, i) + framed_from(rows, i) =~= framed_upto(rows, i));
    }
}

proof fn lemma_framed_nonempty(rows: Seq<WordRow>, i: int)
    requires
        0 <= i < rows.len(),
    ensures
        framed_from(rows, i).len() > 0,
{
    let row = framed_row(rows[i]);
    assert(row.len() >= 4) by {
        assert(le32(unsigned(rows[i].freq)).len() == 4);
    }
}

proof fn lemma_framed_from(a: Seq<WordRow>, b: Seq<WordRow>, i: int)
    requires
        forall|x: int| 0 <= x < a.len() ==> readable(#[trigger] a[x]),
        forall|x: int| 0 <= x < b.len() ==> readable(#[trigger] b[x]),
        0 <= i <= a.len(),
        i <= b.len(),
        framed_from(a, i) == framed_from(b, i),
    ensures
        a.len() == b.len(),
        a.skip(i) == b.skip(i),
    decreases a.len() - i,
{
    if i < a.len() && i < b.len() {
        lemma_framed_row(a[i], b[i], framed_from(a, i + 1), framed_from(b, i + 1));
        lemma_framed_from(a, b, i + 1);
        assert(a.skip(i) =~= seq![a[i]] + a.skip(i + 1));
        assert(b.skip(i) =~= seq![b[i]] + b.skip(i + 1));
    } else if i < a.len() {
        lemma_framed_nonempty(a, i);
    } else if i < b.len() {
        lemma_framed_nonempty(b, i);
    } else {
        assert(a.skip(i) =~= b.skip(i));
    }
}

/// Rows that differ are hashed as bytes that differ: nothing in one row reads
/// as part of another.
pub proof fn law_framing_is_injective(a: Seq<WordRow>, b: Seq<WordRow>)
    requires
        forall|x: int| 0 <= x < a.len() ==> readable(#[trigger] a[x]),
        forall|x: int| 0 <= x < b.len() ==> readable(#[trigger] b[x]),
        framed(a) == framed(b),
    ensures
        a.to_multiset() == b.to_multiset(),
{
    broadcast use vstd::seq_lib::group_to_multiset_ensures;

    lemma_rows_sorted(a);
    lemma_rows_sorted(b);
    let x = rows_sorted(a);
    let y = rows_sorted(b);
    lemma_framed_split(x, 0);
    lemma_framed_split(y, 0);
    assert(framed_from(x, 0) =~= framed(a).skip(preamble().len() as int));
    assert(framed_from(y, 0) =~= framed(b).skip(preamble().len() as int));
    assert forall|i: int| 0 <= i < x.len() implies readable(#[trigger] x[i]) by {
        assert(x.to_multiset().contains(x[i]));
        assert(a.to_multiset().contains(x[i]));
        assert(a.contains(x[i]));
    }
    assert forall|i: int| 0 <= i < y.len() implies readable(#[trigger] y[i]) by {
        assert(y.to_multiset().contains(y[i]));
        assert(b.to_multiset().contains(y[i]));
        assert(b.contains(y[i]));
    }
    lemma_framed_from(x, y, 0);
    assert(x.skip(0) =~= x);
    assert(y.skip(0) =~= y);
}

} // verus!
