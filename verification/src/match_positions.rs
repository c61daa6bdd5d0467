//! Matched query parts.

use vstd::prelude::*;

verus! {

/// One matched query part over token-position coordinates.
///
/// `start` and `end` are token positions in the indexed token stream, both
/// inside the match. Point matches use `start == end`. `field` is the field
/// the match belongs to, zero on a single-column index; a renderer picks each
/// field's positions by it, so marks never leak into another field's text.
#[derive(Debug, PartialEq)]
pub struct MatchPosition {
    pub part: String,
    pub start: i32,
    pub end: i32,
    pub field: u16,
}

/// A position as a signed number; one past the largest wraps around.
pub open spec fn signed(position: u32) -> int {
    if position <= i32::MAX {
        position as int
    } else {
        position - 0x1_0000_0000
    }
}

fn to_signed(position: u32) -> (value: i32)
    ensures
        value == signed(position),
{
    if position <= 0x7fff_ffff {
        position as i32
    } else {
        (position as i64 - 0x1_0000_0000) as i32
    }
}

impl MatchPosition {
    /// A match of one token, in field zero.
    pub fn point(part: String, pos: u32) -> (position: Self)
        ensures
            position.part == part,
            position.start == signed(pos),
            position.end == signed(pos),
            position.field == 0,
    {
        Self::span(part, pos, pos, 0)
    }

    /// A match of the tokens from `start` through `end`.
    pub fn span(part: String, start: u32, end: u32, field: u16) -> (position: Self)
        ensures
            position.part == part,
            position.start == signed(start),
            position.end == signed(end),
            position.field == field,
    {
        MatchPosition { part, start: to_signed(start), end: to_signed(end), field }
    }
}

/// A match as the query evaluator reports it.
#[derive(Debug)]
pub struct EvaluatedMatch {
    pub part: String,
    pub start: u32,
    pub end: u32,
}

impl EvaluatedMatch {
    /// The match as a position in `field`.
    pub open spec fn position(self, field: u16) -> MatchPosition {
        MatchPosition {
            part: self.part,
            start: signed(self.start) as i32,
            end: signed(self.end) as i32,
            field,
        }
    }
}

/// What the evaluator reported, as positions in `field`.
pub open spec fn positions(reported: Seq<EvaluatedMatch>, field: u16) -> Seq<MatchPosition> {
    reported.map_values(|found: EvaluatedMatch| found.position(field))
}

/// The positions of what the evaluator reported, in order; none when the
/// query could not be parsed.
pub fn positions_from_query(reported: Option<Vec<EvaluatedMatch>>, field: u16) -> (found: Vec<
    MatchPosition,
>)
    ensures
        reported is None ==> found.len() == 0,
        reported is Some ==> found@ == positions(reported->0@, field),
{
    let mut found: Vec<MatchPosition> = Vec::new();
    if let Some(all) = reported {
        let mut i: usize = 0;
        while i < all.len()
            invariant
                i <= all.len(),
                reported == Some(all),
                found@ == positions(all@.take(i as int), field),
            decreases all.len() - i,
        {
            let part = all[i].part.clone();
            found.push(MatchPosition::span(part, all[i].start, all[i].end, field));
            proof {
                assert(found@ =~= positions(all@.take(i + 1), field));
            }
            i = i + 1;
        }
        proof {
            assert(all@.take(i as int) =~= all@);
        }
    }
    found
}

} // verus!
