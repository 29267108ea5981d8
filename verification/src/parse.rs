//! The recursive-descent parser: consumes a positioned token stream and
//! builds the entry model, or reports the first grammar error with the
//! token and source position at which it was found.
//!
//! Every parsing step has a mathematical mirror over token shapes; each
//! method returns exactly what its mirror says, result and new cursor
//! alike.

use vstd::prelude::*;
use vstd::string::StringExecFns;

use crate::error::Error;
use crate::error::ErrorV;
use crate::error::ParseResult;
use crate::models::entry::Entries;
use crate::models::entry::EntryType;
use crate::models::entry::EntryTypeV;
use crate::models::entry::CommentEntry;
use crate::models::entry::PreambleEntry;
use crate::models::entry::RefEntry;
use crate::models::entry::RefEntryV;
use crate::models::entry::StringEntry;
use crate::models::entry::entry_views;
use crate::models::tag::Part;
use crate::models::tag::PartV;
use crate::models::tag::Sequence;
use crate::models::tag::Tag;
use crate::models::tag::TagV;
use crate::models::tag::Value;
use crate::models::tag::ValueV;
use crate::models::tag::part_views;
use crate::models::tag::tag_views;
use crate::strutil::eq_str;
use crate::strutil::lower_seq;
use crate::strutil::lowercased;
use crate::strutil::parse_u64;
use crate::strutil::spec_parse_u64;
use crate::strutil::trim_seq;
use crate::strutil::trimmed;
use crate::token::Position;
use crate::token::Special;
use crate::token::Token;
use crate::token::TokenInfo;
use crate::token::TokenInfoV;
use crate::token::TokenV;
use crate::token::Whitespace;
use crate::token::stringify;
use crate::token::token_info_views;
use crate::token::token_views;
use crate::token::tokens_text;

verus! {

/// The position the parser reports when it has consumed up to token
/// `i`: the position of the last consumed token, or line 0, column 0
/// before anything was consumed.
pub open spec fn spec_last_pos(toks: Seq<TokenInfoV>, i: int) -> Position {
    if i == 0 {
        Position { line: 0u32, column: 0u32 }
    } else {
        toks[i - 1].position
    }
}

/// The error for a token stream that ended too early.
pub open spec fn eots(toks: Seq<TokenInfoV>) -> ErrorV {
    ErrorV::EndOfTokenStream(spec_last_pos(toks, toks.len() as int))
}

/// The first index at or after `i` holding a token that is not
/// whitespace, or the length if there is none.
pub open spec fn skip_ws(toks: Seq<TokenInfoV>, i: int) -> int
    recommends
        0 <= i <= toks.len(),
    decreases toks.len() - i when 0 <= i <= toks.len()
{
    if i >= toks.len() {
        i
    } else if toks[i].value is Whitespace {
        skip_ws(toks, i + 1)
    } else {
        i
    }
}

pub proof fn lemma_skip_ws(toks: Seq<TokenInfoV>, i: int)
    requires
        0 <= i <= toks.len(),
    ensures
        i <= skip_ws(toks, i) <= toks.len(),
        skip_ws(toks, i) < toks.len() ==> !(toks[skip_ws(toks, i)].value is Whitespace),
        forall|m: int| i <= m < skip_ws(toks, i) ==> toks[m].value is Whitespace,
    decreases toks.len() - i,
{
    if i < toks.len() && toks[i].value is Whitespace {
        lemma_skip_ws(toks, i + 1);
    }
}

/// What looking past whitespace yields: the first non-whitespace token
/// and the index after it, if any token is left.
pub open spec fn spec_next_non_ws(toks: Seq<TokenInfoV>, i: int) -> Option<(TokenInfoV, int)> {
    let j = skip_ws(toks, i);
    if j < toks.len() {
        Some((toks[j], j + 1))
    } else {
        None
    }
}

/// What demanding one specific token yields: the index after it, or the
/// mismatch or end-of-stream error.
pub open spec fn spec_expect(toks: Seq<TokenInfoV>, i: int, expected: TokenV) -> Result<
    int,
    ErrorV,
> {
    match spec_next_non_ws(toks, i) {
        Some((ti, j)) => if ti.value == expected {
            Ok(j)
        } else {
            Err(ErrorV::UnexpectedToken(expected, ti))
        },
        None => Err(eots(toks)),
    }
}

pub proof fn lemma_spec_expect(toks: Seq<TokenInfoV>, i: int, expected: TokenV)
    requires
        0 <= i <= toks.len(),
    ensures
        spec_expect(toks, i, expected) is Ok ==> i < spec_expect(toks, i, expected)->Ok_0
            <= toks.len(),
{
    lemma_skip_ws(toks, i);
}

/// Prefixes already-collected tokens onto the result of reading the
/// rest of a delimited body.
pub open spec fn delim_cons(pre: Seq<TokenV>, r: Result<(Seq<TokenV>, int), ErrorV>) -> Result<
    (Seq<TokenV>, int),
    ErrorV,
> {
    match r {
        Ok((s, j)) => Ok((pre + s, j)),
        Err(e) => Err(e),
    }
}

/// What reading the body of a delimited string yields, token by token:
/// the collected tokens and the index after the closing delimiter.
/// `nested` counts unclosed inner `start` delimiters (never counted
/// when `start` and `end` coincide); runs of whitespace collapse to one
/// space, tracked by `last_ws`.
pub open spec fn spec_delim_body(
    toks: Seq<TokenInfoV>,
    i: int,
    start: TokenV,
    end: TokenV,
    nested: int,
    last_ws: bool,
) -> Result<(Seq<TokenV>, int), ErrorV>
    recommends
        0 <= i <= toks.len(),
    decreases toks.len() - i when 0 <= i <= toks.len()
{
    if i >= toks.len() {
        Err(eots(toks))
    } else {
        let t = toks[i].value;
        if start == end && t == end {
            Ok((Seq::empty(), i + 1))
        } else if t == end && nested == 0 {
            Ok((Seq::empty(), i + 1))
        } else {
            let nested2 = if t == start {
                nested + 1
            } else if t == end {
                nested - 1
            } else {
                nested
            };
            if t is Whitespace {
                if last_ws {
                    spec_delim_body(toks, i + 1, start, end, nested2, true)
                } else {
                    delim_cons(
                        seq![TokenV::Whitespace(Whitespace::Space)],
                        spec_delim_body(toks, i + 1, start, end, nested2, true),
                    )
                }
            } else {
                delim_cons(seq![t], spec_delim_body(toks, i + 1, start, end, nested2, false))
            }
        }
    }
}

pub proof fn lemma_spec_delim_body(
    toks: Seq<TokenInfoV>,
    i: int,
    start: TokenV,
    end: TokenV,
    nested: int,
    last_ws: bool,
)
    requires
        0 <= i <= toks.len(),
    ensures
        spec_delim_body(toks, i, start, end, nested, last_ws) is Ok ==> i < spec_delim_body(
            toks,
            i,
            start,
            end,
            nested,
            last_ws,
        )->Ok_0.1 <= toks.len(),
    decreases toks.len() - i,
{
    if i < toks.len() {
        let t = toks[i].value;
        if (start == end && t == end) || (t == end && nested == 0) {
        } else {
            let nested2 = if t == start {
                nested + 1
            } else if t == end {
                nested - 1
            } else {
                nested
            };
            if t is Whitespace {
                lemma_spec_delim_body(toks, i + 1, start, end, nested2, true);
            } else {
                lemma_spec_delim_body(toks, i + 1, start, end, nested2, false);
            }
        }
    }
}

/// The text of a delimited body's result: its collected tokens written
/// out in order.
pub open spec fn delim_text(r: Result<(Seq<TokenV>, int), ErrorV>) -> Result<
    (Seq<char>, int),
    ErrorV,
> {
    match r {
        Ok((ts, j)) => Ok((tokens_text(ts), j)),
        Err(e) => Err(e),
    }
}

/// What reading a whole delimited string yields: the opening delimiter,
/// the body with whitespace coalesced, the closing delimiter; the text
/// is the body's tokens written out.
pub open spec fn spec_parse_delimited(toks: Seq<TokenInfoV>, i: int, start: TokenV, end: TokenV)
    -> Result<(Seq<char>, int), ErrorV> {
    match spec_next_non_ws(toks, i) {
        None => Err(eots(toks)),
        Some((ti, j)) => {
            if ti.value == start {
                match spec_delim_body(toks, j, start, end, 0, false) {
                    Ok((ts, k)) => Ok((tokens_text(ts), k)),
                    Err(e) => Err(e),
                }
            } else {
                Err(ErrorV::UnexpectedToken(start, ti))
            }
        },
    }
}

pub proof fn lemma_spec_parse_delimited(toks: Seq<TokenInfoV>, i: int, start: TokenV, end: TokenV)
    requires
        0 <= i <= toks.len(),
    ensures
        spec_parse_delimited(toks, i, start, end) is Ok ==> i < spec_parse_delimited(
            toks,
            i,
            start,
            end,
        )->Ok_0.1 <= toks.len(),
{
    lemma_skip_ws(toks, i);
    let j = skip_ws(toks, i);
    if j < toks.len() {
        lemma_spec_delim_body(toks, j + 1, start, end, 0, false);
    }
}

/// What reading one part of a value sequence yields: a quoted string
/// with whitespace coalesced, or one bare value token.
pub open spec fn spec_parse_part(toks: Seq<TokenInfoV>, i: int) -> Result<(PartV, int), ErrorV> {
    match spec_next_non_ws(toks, i) {
        None => Err(eots(toks)),
        Some((ti, j)) => match ti.value {
            TokenV::Special(Special::Quote) => {
                match spec_parse_delimited(
                    toks,
                    j - 1,
                    TokenV::Special(Special::Quote),
                    TokenV::Special(Special::Quote),
                ) {
                    Ok((s, k)) => Ok((PartV::Quoted(s), k)),
                    Err(e) => Err(e),
                }
            },
            TokenV::Value(s) => Ok((PartV::Value(s), j)),
            _ => Err(ErrorV::MissingContent(ti)),
        },
    }
}

pub proof fn lemma_spec_parse_part(toks: Seq<TokenInfoV>, i: int)
    requires
        0 <= i <= toks.len(),
    ensures
        spec_parse_part(toks, i) is Ok ==> i < spec_parse_part(toks, i)->Ok_0.1 <= toks.len(),
{
    lemma_skip_ws(toks, i);
    let j = skip_ws(toks, i);
    if j < toks.len() {
        lemma_spec_parse_delimited(
            toks,
            j,
            TokenV::Special(Special::Quote),
            TokenV::Special(Special::Quote),
        );
    }
}

/// Prefixes an already-read part onto the result of reading the rest of
/// a value sequence.
pub open spec fn parts_cons(pre: Seq<PartV>, r: Result<(Seq<PartV>, int), ErrorV>) -> Result<
    (Seq<PartV>, int),
    ErrorV,
> {
    match r {
        Ok((s, j)) => Ok((pre + s, j)),
        Err(e) => Err(e),
    }
}

/// What reading the rest of a value sequence yields, after its first
/// part: further parts for every `#`, stopping before a closing brace
/// or a comma.
pub open spec fn spec_parse_seq_rest(toks: Seq<TokenInfoV>, i: int) -> Result<
    (Seq<PartV>, int),
    ErrorV,
>
    recommends
        0 <= i <= toks.len(),
    decreases toks.len() - i when 0 <= i <= toks.len()
    via spec_parse_seq_rest_decreases
{
    match spec_next_non_ws(toks, i) {
        None => Err(eots(toks)),
        Some((ti, j)) => match ti.value {
            TokenV::Special(Special::BraceRight) => Ok((Seq::empty(), j - 1)),
            TokenV::Special(Special::Comma) => Ok((Seq::empty(), j - 1)),
            TokenV::Special(Special::Pound) => {
                match spec_parse_part(toks, j) {
                    Ok((p, k)) => parts_cons(seq![p], spec_parse_seq_rest(toks, k)),
                    Err(e) => Err(e),
                }
            },
            _ => Err(ErrorV::UnexpectedToken(TokenV::Special(Special::Comma), ti)),
        },
    }
}

#[via_fn]
proof fn spec_parse_seq_rest_decreases(toks: Seq<TokenInfoV>, i: int) {
    lemma_skip_ws(toks, i);
    let j = skip_ws(toks, i);
    if j < toks.len() {
        lemma_spec_parse_part(toks, j + 1);
    }
}

pub proof fn lemma_spec_parse_seq_rest(toks: Seq<TokenInfoV>, i: int)
    requires
        0 <= i <= toks.len(),
    ensures
        spec_parse_seq_rest(toks, i) is Ok ==> i <= spec_parse_seq_rest(toks, i)->Ok_0.1
            <= toks.len(),
    decreases toks.len() - i,
{
    lemma_skip_ws(toks, i);
    let j = skip_ws(toks, i);
    if j < toks.len() && toks[j].value == TokenV::Special(Special::Pound) {
        lemma_spec_parse_part(toks, j + 1);
        match spec_parse_part(toks, j + 1) {
            Ok((p, k)) => {
                lemma_spec_parse_seq_rest(toks, k);
            },
            Err(_) => {},
        }
    }
}

/// What reading a whole value sequence yields: one part, then the rest.
pub open spec fn spec_parse_sequence(toks: Seq<TokenInfoV>, i: int) -> Result<
    (Seq<PartV>, int),
    ErrorV,
> {
    match spec_parse_part(toks, i) {
        Ok((p, k)) => parts_cons(seq![p], spec_parse_seq_rest(toks, k)),
        Err(e) => Err(e),
    }
}

pub proof fn lemma_spec_parse_sequence(toks: Seq<TokenInfoV>, i: int)
    requires
        0 <= i <= toks.len(),
    ensures
        spec_parse_sequence(toks, i) is Ok ==> i < spec_parse_sequence(toks, i)->Ok_0.1
            <= toks.len(),
        spec_parse_sequence(toks, i) is Ok ==> spec_parse_sequence(toks, i)->Ok_0.0.len() >= 1,
{
    lemma_spec_parse_part(toks, i);
    match spec_parse_part(toks, i) {
        Ok((p, k)) => {
            lemma_spec_parse_seq_rest(toks, k);
        },
        Err(_) => {},
    }
}

/// What reading one tag value yields: a braced string trimmed, or a
/// value sequence, which collapses when it has exactly one part — a
/// quoted part to a trimmed single string, a bare part to an integer
/// when it reads as one.
pub open spec fn spec_parse_tag_value(toks: Seq<TokenInfoV>, i: int) -> Result<
    (ValueV, int),
    ErrorV,
> {
    match spec_next_non_ws(toks, i) {
        None => Err(eots(toks)),
        Some((ti, j)) => match ti.value {
            TokenV::Special(Special::BraceLeft) => {
                match spec_parse_delimited(
                    toks,
                    j - 1,
                    TokenV::Special(Special::BraceLeft),
                    TokenV::Special(Special::BraceRight),
                ) {
                    Ok((s, k)) => Ok((ValueV::Single(trim_seq(s)), k)),
                    Err(e) => Err(e),
                }
            },
            TokenV::Special(Special::Quote) => spec_collapse_sequence(
                spec_parse_sequence(toks, j - 1),
            ),
            TokenV::Value(_) => spec_collapse_sequence(spec_parse_sequence(toks, j - 1)),
            _ => Err(ErrorV::MissingContent(ti)),
        },
    }
}

/// How a one-part sequence collapses into a single value.
pub open spec fn spec_collapse_sequence(r: Result<(Seq<PartV>, int), ErrorV>) -> Result<
    (ValueV, int),
    ErrorV,
> {
    match r {
        Err(e) => Err(e),
        Ok((ps, j)) => {
            if ps.len() == 1 {
                match ps[0] {
                    PartV::Quoted(s) => Ok((ValueV::Single(trim_seq(s)), j)),
                    PartV::Value(s) => match spec_parse_u64(s) {
                        Some(v) => Ok((ValueV::Integer(v), j)),
                        None => Ok((ValueV::Sequence(seq![PartV::Value(s)]), j)),
                    },
                }
            } else {
                Ok((ValueV::Sequence(ps), j))
            }
        },
    }
}

pub proof fn lemma_spec_parse_tag_value(toks: Seq<TokenInfoV>, i: int)
    requires
        0 <= i <= toks.len(),
    ensures
        spec_parse_tag_value(toks, i) is Ok ==> i < spec_parse_tag_value(toks, i)->Ok_0.1
            <= toks.len(),
{
    lemma_skip_ws(toks, i);
    let j = skip_ws(toks, i);
    if j < toks.len() {
        lemma_spec_parse_delimited(
            toks,
            j,
            TokenV::Special(Special::BraceLeft),
            TokenV::Special(Special::BraceRight),
        );
        lemma_spec_parse_sequence(toks, j);
    }
}

/// What reading one `name = value` tag yields; the name is folded to
/// lower case.
pub open spec fn spec_parse_tag(toks: Seq<TokenInfoV>, i: int) -> Result<(TagV, int), ErrorV> {
    match spec_next_non_ws(toks, i) {
        None => Err(eots(toks)),
        Some((ti, j)) => match ti.value {
            TokenV::Value(name) => {
                match spec_expect(toks, j, TokenV::Special(Special::Equals)) {
                    Err(e) => Err(e),
                    Ok(k) => match spec_parse_tag_value(toks, k) {
                        Ok((v, m)) => Ok((TagV { name: lower_seq(name), value: v }, m)),
                        Err(e) => Err(e),
                    },
                }
            },
            _ => Err(ErrorV::MissingTagName(ti)),
        },
    }
}

pub proof fn lemma_spec_parse_tag(toks: Seq<TokenInfoV>, i: int)
    requires
        0 <= i <= toks.len(),
    ensures
        spec_parse_tag(toks, i) is Ok ==> i < spec_parse_tag(toks, i)->Ok_0.1 <= toks.len(),
{
    lemma_skip_ws(toks, i);
    let j = skip_ws(toks, i);
    if j < toks.len() {
        lemma_spec_expect(toks, j + 1, TokenV::Special(Special::Equals));
        match spec_expect(toks, j + 1, TokenV::Special(Special::Equals)) {
            Ok(k) => {
                lemma_spec_parse_tag_value(toks, k);
            },
            Err(_) => {},
        }
    }
}

/// What reading a comment body yields: every token up to the first
/// closing brace, verbatim, with no nesting.
pub open spec fn spec_comment_body(toks: Seq<TokenInfoV>, i: int) -> Result<
    (Seq<TokenV>, int),
    ErrorV,
>
    recommends
        0 <= i <= toks.len(),
    decreases toks.len() - i when 0 <= i <= toks.len()
{
    if i >= toks.len() {
        Err(eots(toks))
    } else if toks[i].value == TokenV::Special(Special::BraceRight) {
        Ok((Seq::empty(), i + 1))
    } else {
        delim_cons(seq![toks[i].value], spec_comment_body(toks, i + 1))
    }
}

pub proof fn lemma_spec_comment_body(toks: Seq<TokenInfoV>, i: int)
    requires
        0 <= i <= toks.len(),
    ensures
        spec_comment_body(toks, i) is Ok ==> i < spec_comment_body(toks, i)->Ok_0.1 <= toks.len(),
    decreases toks.len() - i,
{
    if i < toks.len() && toks[i].value != TokenV::Special(Special::BraceRight) {
        lemma_spec_comment_body(toks, i + 1);
    }
}

/// What reading a `@comment` entry yields: an opening brace, then the
/// body written out verbatim.
pub open spec fn spec_parse_comment_entry(toks: Seq<TokenInfoV>, i: int) -> Result<
    (Seq<char>, int),
    ErrorV,
> {
    match spec_expect(toks, i, TokenV::Special(Special::BraceLeft)) {
        Err(e) => Err(e),
        Ok(j) => match spec_comment_body(toks, j) {
            Ok((ts, k)) => Ok((tokens_text(ts), k)),
            Err(e) => Err(e),
        },
    }
}

pub proof fn lemma_spec_parse_comment_entry(toks: Seq<TokenInfoV>, i: int)
    requires
        0 <= i <= toks.len(),
    ensures
        spec_parse_comment_entry(toks, i) is Ok ==> i < spec_parse_comment_entry(toks, i)->Ok_0.1
            <= toks.len(),
{
    lemma_spec_expect(toks, i, TokenV::Special(Special::BraceLeft));
    match spec_expect(toks, i, TokenV::Special(Special::BraceLeft)) {
        Ok(j) => {
            lemma_spec_comment_body(toks, j);
        },
        Err(_) => {},
    }
}

/// What reading a `@preamble` entry yields: a braced value sequence.
pub open spec fn spec_parse_preamble_entry(toks: Seq<TokenInfoV>, i: int) -> Result<
    (Seq<PartV>, int),
    ErrorV,
> {
    match spec_expect(toks, i, TokenV::Special(Special::BraceLeft)) {
        Err(e) => Err(e),
        Ok(j) => match spec_parse_sequence(toks, j) {
            Err(e) => Err(e),
            Ok((ps, k)) => match spec_expect(toks, k, TokenV::Special(Special::BraceRight)) {
                Err(e) => Err(e),
                Ok(m) => Ok((ps, m)),
            },
        },
    }
}

pub proof fn lemma_spec_parse_preamble_entry(toks: Seq<TokenInfoV>, i: int)
    requires
        0 <= i <= toks.len(),
    ensures
        spec_parse_preamble_entry(toks, i) is Ok ==> i < spec_parse_preamble_entry(toks, i)->Ok_0.1
            <= toks.len(),
{
    lemma_spec_expect(toks, i, TokenV::Special(Special::BraceLeft));
    match spec_expect(toks, i, TokenV::Special(Special::BraceLeft)) {
        Ok(j) => {
            lemma_spec_parse_sequence(toks, j);
            match spec_parse_sequence(toks, j) {
                Ok((ps, k)) => {
                    lemma_spec_expect(toks, k, TokenV::Special(Special::BraceRight));
                },
                Err(_) => {},
            }
        },
        Err(_) => {},
    }
}

/// What reading a `@string` entry yields: a braced single tag with an
/// optional trailing comma.
pub open spec fn spec_parse_string_entry(toks: Seq<TokenInfoV>, i: int) -> Result<
    (TagV, int),
    ErrorV,
> {
    match spec_expect(toks, i, TokenV::Special(Special::BraceLeft)) {
        Err(e) => Err(e),
        Ok(j) => match spec_parse_tag(toks, j) {
            Err(e) => Err(e),
            Ok((t, k)) => match spec_next_non_ws(toks, k) {
                None => Err(eots(toks)),
                Some((ti, m)) => {
                    if ti.value == TokenV::Special(Special::BraceRight) {
                        Ok((t, m))
                    } else if ti.value == TokenV::Special(Special::Comma) {
                        match spec_expect(toks, m, TokenV::Special(Special::BraceRight)) {
                            Err(e) => Err(e),
                            Ok(n) => Ok((t, n)),
                        }
                    } else {
                        Err(ErrorV::UnexpectedToken(TokenV::Special(Special::BraceRight), ti))
                    }
                },
            },
        },
    }
}

pub proof fn lemma_spec_parse_string_entry(toks: Seq<TokenInfoV>, i: int)
    requires
        0 <= i <= toks.len(),
    ensures
        spec_parse_string_entry(toks, i) is Ok ==> i < spec_parse_string_entry(toks, i)->Ok_0.1
            <= toks.len(),
{
    lemma_spec_expect(toks, i, TokenV::Special(Special::BraceLeft));
    match spec_expect(toks, i, TokenV::Special(Special::BraceLeft)) {
        Ok(j) => {
            lemma_spec_parse_tag(toks, j);
            match spec_parse_tag(toks, j) {
                Ok((t, k)) => {
                    lemma_skip_ws(toks, k);
                    let m = skip_ws(toks, k) + 1;
                    if skip_ws(toks, k) < toks.len() {
                        lemma_spec_expect(toks, m, TokenV::Special(Special::BraceRight));
                    }
                },
                Err(_) => {},
            }
        },
        Err(_) => {},
    }
}

/// Wraps the tags of a reference entry, or its error, into the entry's
/// own result, with kind and key folded to lower case.
pub open spec fn ref_done(kind: Seq<char>, key: Seq<char>, r: Result<(Seq<TagV>, int), ErrorV>)
    -> Result<(RefEntryV, int), ErrorV> {
    match r {
        Ok((ts, m)) => Ok(
            (RefEntryV { kind: lower_seq(kind), key: lower_seq(key), tags: ts }, m),
        ),
        Err(e) => Err(e),
    }
}

/// Prefixes an already-read tag onto the result of reading the rest of
/// a reference entry's tags.
pub open spec fn tags_cons(pre: Seq<TagV>, r: Result<(Seq<TagV>, int), ErrorV>) -> Result<
    (Seq<TagV>, int),
    ErrorV,
> {
    match r {
        Ok((s, j)) => Ok((pre + s, j)),
        Err(e) => Err(e),
    }
}

/// What reading a reference entry's tag block yields: tags separated by
/// commas, until the closing brace.
pub open spec fn spec_ref_tags(toks: Seq<TokenInfoV>, i: int) -> Result<(Seq<TagV>, int), ErrorV>
    recommends
        0 <= i <= toks.len(),
    decreases toks.len() - i when 0 <= i <= toks.len()
    via spec_ref_tags_decreases
{
    let j = skip_ws(toks, i);
    if j < toks.len() && toks[j].value == TokenV::Special(Special::BraceRight) {
        Ok((Seq::empty(), j + 1))
    } else if j < toks.len() && toks[j].value == TokenV::Special(Special::Comma) {
        spec_ref_tags(toks, j + 1)
    } else {
        match spec_parse_tag(toks, j) {
            Ok((t, k)) => tags_cons(seq![t], spec_ref_tags(toks, k)),
            Err(e) => Err(e),
        }
    }
}

#[via_fn]
proof fn spec_ref_tags_decreases(toks: Seq<TokenInfoV>, i: int) {
    lemma_skip_ws(toks, i);
    let j = skip_ws(toks, i);
    lemma_spec_parse_tag(toks, j);
}

pub proof fn lemma_spec_ref_tags(toks: Seq<TokenInfoV>, i: int)
    requires
        0 <= i <= toks.len(),
    ensures
        spec_ref_tags(toks, i) is Ok ==> i < spec_ref_tags(toks, i)->Ok_0.1 <= toks.len(),
    decreases toks.len() - i,
{
    lemma_skip_ws(toks, i);
    let j = skip_ws(toks, i);
    if j < toks.len() && toks[j].value == TokenV::Special(Special::BraceRight) {
    } else if j < toks.len() && toks[j].value == TokenV::Special(Special::Comma) {
        lemma_spec_ref_tags(toks, j + 1);
    } else {
        lemma_spec_parse_tag(toks, j);
        match spec_parse_tag(toks, j) {
            Ok((t, k)) => {
                lemma_spec_ref_tags(toks, k);
            },
            Err(_) => {},
        }
    }
}

/// What reading a reference entry yields after its kind: a brace, a
/// cite key, then tags until the closing brace; kind and key are folded
/// to lower case.
pub open spec fn spec_parse_ref_entry(toks: Seq<TokenInfoV>, i: int, kind: Seq<char>) -> Result<
    (RefEntryV, int),
    ErrorV,
> {
    match spec_expect(toks, i, TokenV::Special(Special::BraceLeft)) {
        Err(e) => Err(e),
        Ok(j) => match spec_next_non_ws(toks, j) {
            None => Err(eots(toks)),
            Some((ti, k)) => match ti.value {
                TokenV::Value(key) => match spec_ref_tags(toks, k) {
                    Ok((ts, m)) => Ok(
                        (
                            RefEntryV {
                                kind: lower_seq(kind),
                                key: lower_seq(key),
                                tags: ts,
                            },
                            m,
                        ),
                    ),
                    Err(e) => Err(e),
                },
                _ => Err(ErrorV::MissingCiteKey(ti)),
            },
        },
    }
}

pub proof fn lemma_spec_parse_ref_entry(toks: Seq<TokenInfoV>, i: int, kind: Seq<char>)
    requires
        0 <= i <= toks.len(),
    ensures
        spec_parse_ref_entry(toks, i, kind) is Ok ==> i < spec_parse_ref_entry(
            toks,
            i,
            kind,
        )->Ok_0.1 <= toks.len(),
{
    lemma_spec_expect(toks, i, TokenV::Special(Special::BraceLeft));
    match spec_expect(toks, i, TokenV::Special(Special::BraceLeft)) {
        Ok(j) => {
            lemma_skip_ws(toks, j);
            let k = skip_ws(toks, j);
            if k < toks.len() {
                lemma_spec_ref_tags(toks, k + 1);
            }
        },
        Err(_) => {},
    }
}

/// What reading one entry yields: `@`, a kind, then the entry form the
/// lowercased kind selects.
pub open spec fn spec_parse_entry(toks: Seq<TokenInfoV>, i: int) -> Result<
    (EntryTypeV, int),
    ErrorV,
> {
    match spec_expect(toks, i, TokenV::Special(Special::At)) {
        Err(e) => Err(e),
        Ok(j) => match spec_next_non_ws(toks, j) {
            None => Err(eots(toks)),
            Some((ti, k)) => match ti.value {
                TokenV::Value(kind) => {
                    if lower_seq(kind) == "comment"@ {
                        match spec_parse_comment_entry(toks, k) {
                            Ok((s, m)) => Ok((EntryTypeV::CommentEntry(s), m)),
                            Err(e) => Err(e),
                        }
                    } else if lower_seq(kind) == "preamble"@ {
                        match spec_parse_preamble_entry(toks, k) {
                            Ok((ps, m)) => Ok((EntryTypeV::PreambleEntry(ps), m)),
                            Err(e) => Err(e),
                        }
                    } else if lower_seq(kind) == "string"@ {
                        match spec_parse_string_entry(toks, k) {
                            Ok((t, m)) => Ok((EntryTypeV::StringEntry(t), m)),
                            Err(e) => Err(e),
                        }
                    } else {
                        match spec_parse_ref_entry(toks, k, kind) {
                            Ok((e, m)) => Ok((EntryTypeV::RefEntry(e), m)),
                            Err(e) => Err(e),
                        }
                    }
                },
                _ => Err(ErrorV::MissingEntryType(ti)),
            },
        },
    }
}

pub proof fn lemma_spec_parse_entry(toks: Seq<TokenInfoV>, i: int)
    requires
        0 <= i <= toks.len(),
    ensures
        spec_parse_entry(toks, i) is Ok ==> i < spec_parse_entry(toks, i)->Ok_0.1 <= toks.len(),
{
    lemma_spec_expect(toks, i, TokenV::Special(Special::At));
    match spec_expect(toks, i, TokenV::Special(Special::At)) {
        Ok(j) => {
            lemma_skip_ws(toks, j);
            let k = skip_ws(toks, j) + 1;
            if skip_ws(toks, j) < toks.len() {
                lemma_spec_parse_comment_entry(toks, k);
                lemma_spec_parse_preamble_entry(toks, k);
                lemma_spec_parse_string_entry(toks, k);
                match toks[k - 1].value {
                    TokenV::Value(kind) => {
                        lemma_spec_parse_ref_entry(toks, k, kind);
                    },
                    _ => {},
                }
            }
        },
        Err(_) => {},
    }
}

/// Prefixes an already-read entry onto the result of reading the rest
/// of the file.
pub open spec fn entries_cons(pre: Seq<EntryTypeV>, r: Result<(Seq<EntryTypeV>, int), ErrorV>)
    -> Result<(Seq<EntryTypeV>, int), ErrorV> {
    match r {
        Ok((s, j)) => Ok((pre + s, j)),
        Err(e) => Err(e),
    }
}

/// What reading a whole file yields: entries until the tokens run out,
/// each opened by `@`; anything else at the top level is an error.
pub open spec fn spec_parse_entries(toks: Seq<TokenInfoV>, i: int) -> Result<
    (Seq<EntryTypeV>, int),
    ErrorV,
>
    recommends
        0 <= i <= toks.len(),
    decreases toks.len() - i when 0 <= i <= toks.len()
    via spec_parse_entries_decreases
{
    let j = skip_ws(toks, i);
    if j >= toks.len() {
        Ok((Seq::empty(), j))
    } else if toks[j].value == TokenV::Special(Special::At) {
        match spec_parse_entry(toks, j) {
            Ok((e, k)) => entries_cons(seq![e], spec_parse_entries(toks, k)),
            Err(e) => Err(e),
        }
    } else {
        Err(ErrorV::UnexpectedToken(TokenV::Special(Special::At), toks[j]))
    }
}

#[via_fn]
proof fn spec_parse_entries_decreases(toks: Seq<TokenInfoV>, i: int) {
    lemma_skip_ws(toks, i);
    let j = skip_ws(toks, i);
    lemma_spec_parse_entry(toks, j);
}

/// Whether two tokens are the same token, character for character.
fn token_eq(a: &Token, b: &Token) -> (r: bool)
    ensures
        r == (a@ == b@),
{
    match (a, b) {
        (Token::Special(x), Token::Special(y)) => x == y,
        (Token::Value(x), Token::Value(y)) => eq_str(x.as_str(), y.as_str()),
        (Token::Whitespace(x), Token::Whitespace(y)) => x == y,
        _ => false,
    }
}

/// A single-lookahead cursor over an owned token list, tracking the
/// position of the last consumed token for error reports.
pub struct Parser {
    pub tokens: Vec<TokenInfo>,
    pub cursor: usize,
    pub position: Position,
}

impl Parser {
    /// The shapes of the tokens this parser reads.
    pub open spec fn toks(&self) -> Seq<TokenInfoV> {
        token_info_views(self.tokens@)
    }

    /// The cursor is inside the token list and the recorded position is
    /// that of the last consumed token.
    pub open spec fn wf(&self) -> bool {
        &&& self.cursor <= self.tokens@.len()
        &&& self.position == spec_last_pos(self.toks(), self.cursor as int)
    }

    /// Opens a parser at the start of a token list.
    pub fn new(tokens: Vec<TokenInfo>) -> (r: Parser)
        ensures
            r.wf(),
            r.toks() == token_info_views(tokens@),
            r.cursor == 0,
    {
        Parser { tokens, cursor: 0, position: Position { line: 0, column: 0 } }
    }

    /// Consumes one token of any kind.
    fn next(&mut self) -> (r: Option<TokenInfo>)
        requires
            old(self).wf(),
        ensures
            final(self).wf(),
            final(self).toks() == old(self).toks(),
            old(self).cursor < old(self).toks().len() ==> {
                &&& r is Some
                &&& r->Some_0@ == old(self).toks()[old(self).cursor as int]
                &&& final(self).cursor == old(self).cursor + 1
            },
            old(self).cursor >= old(self).toks().len() ==> r is None && *final(self) == *old(self),
    {
        if self.cursor < self.tokens.len() {
            let ti = self.tokens[self.cursor].clone();
            self.position = ti.position;
            self.cursor = self.cursor + 1;
            proof {
                assert(ti@ == self.toks()[self.cursor - 1]);
            }
            Some(ti)
        } else {
            None
        }
    }

    /// Consumes tokens up to and including the first non-whitespace one,
    /// and hands that one out.
    #[verifier::loop_isolation(false)]
    fn next_non_whitespace(&mut self) -> (r: Option<TokenInfo>)
        requires
            old(self).wf(),
        ensures
            final(self).wf(),
            final(self).toks() == old(self).toks(),
            ({
                let j = skip_ws(old(self).toks(), old(self).cursor as int);
                &&& (j < old(self).toks().len() ==> r is Some && r->Some_0@ == old(self).toks()[j]
                    && final(self).cursor == j + 1)
                &&& (j >= old(self).toks().len() ==> r is None && final(self).cursor == old(
                    self,
                ).toks().len())
            }),
    {
        let ghost toks0 = self.toks();
        let ghost c0 = self.cursor as int;
        loop
            invariant
                self.wf(),
                self.toks() == toks0,
                c0 <= self.cursor <= toks0.len(),
                skip_ws(toks0, c0) == skip_ws(toks0, self.cursor as int),
            decreases toks0.len() - self.cursor,
        {
            if self.cursor >= self.tokens.len() {
                return None;
            }
            let ti = self.tokens[self.cursor].clone();
            proof {
                assert(ti@ == toks0[self.cursor as int]);
            }
            self.position = ti.position;
            self.cursor = self.cursor + 1;
            if !ti.is_whitespace() {
                proof {
                    assert(skip_ws(toks0, self.cursor - 1) == self.cursor - 1);
                }
                return Some(ti);
            }
            proof {
                assert(skip_ws(toks0, self.cursor - 1) == skip_ws(toks0, self.cursor as int));
            }
        }
    }

    /// Consumes any leading whitespace and hands out the first
    /// non-whitespace token without consuming it.
    #[verifier::loop_isolation(false)]
    fn peek_non_whitespace(&mut self) -> (r: Option<TokenInfo>)
        requires
            old(self).wf(),
        ensures
            final(self).wf(),
            final(self).toks() == old(self).toks(),
            final(self).cursor == skip_ws(old(self).toks(), old(self).cursor as int) || (skip_ws(
                old(self).toks(),
                old(self).cursor as int,
            ) >= old(self).toks().len() && final(self).cursor == old(self).toks().len()),
            ({
                let j = skip_ws(old(self).toks(), old(self).cursor as int);
                &&& (j < old(self).toks().len() ==> r is Some && r->Some_0@ == old(self).toks()[j]
                    && final(self).cursor == j)
                &&& (j >= old(self).toks().len() ==> r is None && final(self).cursor == old(
                    self,
                ).toks().len())
            }),
    {
        let ghost toks0 = self.toks();
        let ghost c0 = self.cursor as int;
        loop
            invariant
                self.wf(),
                self.toks() == toks0,
                c0 <= self.cursor <= toks0.len(),
                skip_ws(toks0, c0) == skip_ws(toks0, self.cursor as int),
            decreases toks0.len() - self.cursor,
        {
            if self.cursor >= self.tokens.len() {
                return None;
            }
            let ti = self.tokens[self.cursor].clone();
            proof {
                assert(ti@ == toks0[self.cursor as int]);
            }
            if !ti.is_whitespace() {
                proof {
                    assert(skip_ws(toks0, self.cursor as int) == self.cursor as int);
                }
                return Some(ti);
            }
            self.position = ti.position;
            self.cursor = self.cursor + 1;
            proof {
                assert(skip_ws(toks0, self.cursor - 1) == skip_ws(toks0, self.cursor as int));
            }
        }
    }

    /// Reads a delimited string: the opening delimiter, a body in which
    /// runs of whitespace collapse to one space and inner `start`/`end`
    /// pairs nest, and the closing delimiter. When `start` and `end`
    /// coincide, the first `end` closes the string.
    pub fn parse_delimited_string(&mut self, start: Token, end: Token) -> (r: ParseResult<String>)
        requires
            old(self).wf(),
        ensures
            final(self).wf(),
            final(self).toks() == old(self).toks(),
            ({
                let s = spec_parse_delimited(
                    old(self).toks(),
                    old(self).cursor as int,
                    start@,
                    end@,
                );
                &&& (r is Ok ==> s is Ok && r->Ok_0@ == s->Ok_0.0 && final(self).cursor
                    == s->Ok_0.1)
                &&& (r is Err ==> s is Err && r->Err_0@ == s->Err_0)
            }),
    {
        let ghost toks0 = old(self).toks();
        match self.next_non_whitespace() {
            Some(token_info) => {
                if !token_eq(&token_info.value, &start) {
                    return Err(Error::UnexpectedToken(start, token_info));
                }
            },
            None => {
                return Err(Error::EndOfTokenStream(self.position));
            },
        }
        let ghost body0 = self.cursor as int;
        let mut nested: usize = 0;
        let mut tokens: Vec<Token> = Vec::new();
        let mut last_ws: bool = false;
        proof {
            assert(token_views(tokens@) =~= Seq::<TokenV>::empty());
            assert(delim_cons(
                Seq::<TokenV>::empty(),
                spec_delim_body(toks0, body0, start@, end@, 0, false),
            ) == spec_delim_body(toks0, body0, start@, end@, 0, false)) by {
                match spec_delim_body(toks0, body0, start@, end@, 0, false) {
                    Ok((s, j)) => {
                        assert(Seq::<TokenV>::empty() + s =~= s);
                    },
                    Err(_) => {},
                }
            }
            assert(spec_parse_delimited(toks0, old(self).cursor as int, start@, end@)
                == delim_text(spec_delim_body(toks0, body0, start@, end@, 0, false)));
        }
        loop
            invariant_except_break
                spec_parse_delimited(toks0, old(self).cursor as int, start@, end@) == delim_text(
                    delim_cons(
                        token_views(tokens@),
                        spec_delim_body(
                            toks0,
                            self.cursor as int,
                            start@,
                            end@,
                            nested as int,
                            last_ws,
                        ),
                    ),
                ),
            invariant
                self.wf(),
                self.toks() == toks0,
                toks0 == old(self).toks(),
                nested <= self.cursor,
            ensures
                self.wf(),
                self.toks() == toks0,
                spec_parse_delimited(toks0, old(self).cursor as int, start@, end@) == Ok::<
                    (Seq<char>, int),
                    ErrorV,
                >((tokens_text(token_views(tokens@)), self.cursor as int)),
            decreases self.toks().len() - self.cursor,
        {
            let ghost c = self.cursor as int;
            let ghost pre_views = token_views(tokens@);
            let ghost spec_here = spec_delim_body(toks0, c, start@, end@, nested as int, last_ws);
            match self.next() {
                Some(token) => {
                    proof {
                        assert(token@ == toks0[c]);
                    }
                    let is_end = token_eq(&token.value, &end);
                    let is_start = token_eq(&token.value, &start);
                    let start_is_end = token_eq(&start, &end);
                    if start_is_end && is_end {
                        proof {
                            assert(spec_here == Ok::<(Seq<TokenV>, int), ErrorV>((
                                Seq::<TokenV>::empty(),
                                c + 1,
                            )));
                            assert(pre_views + Seq::<TokenV>::empty() =~= pre_views);
                        }
                        break ;
                    }
                    if is_end && nested == 0 {
                        proof {
                            assert(spec_here == Ok::<(Seq<TokenV>, int), ErrorV>((
                                Seq::<TokenV>::empty(),
                                c + 1,
                            )));
                            assert(pre_views + Seq::<TokenV>::empty() =~= pre_views);
                        }
                        break ;
                    }
                    if is_start {
                        nested = nested + 1;
                    } else if is_end {
                        nested = nested - 1;
                    }
                    let is_ws = matches!(token.value, Token::Whitespace(_));
                    if is_ws {
                        if !last_ws {
                            tokens.push(Token::Whitespace(Whitespace::Space));
                            proof {
                                let sp = TokenV::Whitespace(Whitespace::Space);
                                assert(token_views(tokens@) =~= pre_views.push(sp));
                                let inner = spec_delim_body(
                                    toks0,
                                    c + 1,
                                    start@,
                                    end@,
                                    nested as int,
                                    true,
                                );
                                assert(spec_here == delim_cons(seq![sp], inner));
                                match inner {
                                    Ok((s, j)) => {
                                        assert(pre_views + (seq![sp] + s) =~= pre_views.push(sp)
                                            + s);
                                    },
                                    Err(_) => {},
                                }
                            }
                        }
                        last_ws = true;
                    } else {
                        let ghost tv = token.value@;
                        tokens.push(token.value);
                        proof {
                            assert(token_views(tokens@) =~= pre_views.push(tv));
                            let inner = spec_delim_body(
                                toks0,
                                c + 1,
                                start@,
                                end@,
                                nested as int,
                                false,
                            );
                            assert(spec_here == delim_cons(seq![tv], inner));
                            match inner {
                                Ok((s, j)) => {
                                    assert(pre_views + (seq![tv] + s) =~= pre_views.push(tv) + s);
                                },
                                Err(_) => {},
                            }
                        }
                        last_ws = false;
                    }
                },
                None => {
                    return Err(Error::EndOfTokenStream(self.position));
                },
            }
        }
        Ok(stringify(tokens))
    }

    /// Demands one specific token, whitespace aside, and fails with the
    /// mismatch or end-of-stream error otherwise.
    fn expect(&mut self, expected: Token) -> (r: ParseResult<()>)
        requires
            old(self).wf(),
        ensures
            final(self).wf(),
            final(self).toks() == old(self).toks(),
            ({
                let s = spec_expect(old(self).toks(), old(self).cursor as int, expected@);
                &&& (r is Ok ==> s is Ok && final(self).cursor == s->Ok_0)
                &&& (r is Err ==> s is Err && r->Err_0@ == s->Err_0)
            }),
    {
        match self.next_non_whitespace() {
            Some(token_info) => {
                if token_eq(&token_info.value, &expected) {
                    Ok(())
                } else {
                    Err(Error::UnexpectedToken(expected, token_info))
                }
            },
            None => Err(Error::EndOfTokenStream(self.position)),
        }
    }

    /// Reads one part of a value sequence: a quoted string or a bare
    /// value token.
    pub fn parse_tag_value_part(&mut self) -> (r: ParseResult<Part>)
        requires
            old(self).wf(),
        ensures
            final(self).wf(),
            final(self).toks() == old(self).toks(),
            ({
                let s = spec_parse_part(old(self).toks(), old(self).cursor as int);
                &&& (r is Ok ==> s is Ok && r->Ok_0@ == s->Ok_0.0 && final(self).cursor
                    == s->Ok_0.1)
                &&& (r is Err ==> s is Err && r->Err_0@ == s->Err_0)
            }),
    {
        let ghost toks0 = old(self).toks();
        let ghost c0 = old(self).cursor as int;
        proof {
            lemma_skip_ws(toks0, c0);
        }
        match self.peek_non_whitespace() {
            Some(token_info) => {
                match token_info.value {
                    Token::Special(Special::Quote) => {
                        match self.parse_delimited_string(
                            Token::Special(Special::Quote),
                            Token::Special(Special::Quote),
                        ) {
                            Ok(s) => Ok(Part::Quoted(s)),
                            Err(e) => Err(e),
                        }
                    },
                    Token::Value(_) => {
                        match self.next_non_whitespace() {
                            Some(inner) => {
                                if let Token::Value(s) = inner.value {
                                    Ok(Part::Value(s))
                                } else {
                                    proof {
                                        assert(false);
                                    }
                                    Err(
                                        Error::InternalAssertion(
                                            String::from_str("token should be a value"),
                                        ),
                                    )
                                }
                            },
                            None => {
                                proof {
                                    assert(false);
                                }
                                Err(
                                    Error::InternalAssertion(
                                        String::from_str("peeked token gone"),
                                    ),
                                )
                            },
                        }
                    },
                    _ => Err(Error::MissingContent(token_info)),
                }
            },
            None => Err(Error::EndOfTokenStream(self.position)),
        }
    }

    /// Reads a whole value sequence: one part, then one more part for
    /// every `#`, stopping before a closing brace or a comma.
    pub fn parse_tag_value_sequence(&mut self) -> (r: ParseResult<Sequence>)
        requires
            old(self).wf(),
        ensures
            final(self).wf(),
            final(self).toks() == old(self).toks(),
            ({
                let s = spec_parse_sequence(old(self).toks(), old(self).cursor as int);
                &&& (r is Ok ==> s is Ok && r->Ok_0@ == s->Ok_0.0 && final(self).cursor
                    == s->Ok_0.1)
                &&& (r is Err ==> s is Err && r->Err_0@ == s->Err_0)
            }),
    {
        let ghost toks0 = old(self).toks();
        let ghost c0 = old(self).cursor as int;
        let mut parts: Vec<Part> = Vec::new();
        match self.parse_tag_value_part() {
            Ok(p) => {
                parts.push(p);
            },
            Err(e) => {
                return Err(e);
            },
        }
        proof {
            lemma_spec_parse_part(toks0, c0);
            assert(part_views(parts@) =~= seq![spec_parse_part(toks0, c0)->Ok_0.0]);
            assert(parts_cons(
                part_views(parts@),
                spec_parse_seq_rest(toks0, self.cursor as int),
            ) == spec_parse_sequence(toks0, c0)) by {
                match spec_parse_seq_rest(toks0, self.cursor as int) {
                    Ok((s, j)) => {
                        assert(part_views(parts@) + s =~= seq![spec_parse_part(toks0, c0)->Ok_0.0]
                            + s);
                    },
                    Err(_) => {},
                }
            }
        }
        loop
            invariant_except_break
                spec_parse_sequence(toks0, c0) == parts_cons(
                    part_views(parts@),
                    spec_parse_seq_rest(toks0, self.cursor as int),
                ),
            invariant
                self.wf(),
                self.toks() == toks0,
                toks0 == old(self).toks(),
                c0 == old(self).cursor as int,
            ensures
                self.wf(),
                self.toks() == toks0,
                spec_parse_sequence(toks0, c0) == Ok::<(Seq<PartV>, int), ErrorV>((
                    part_views(parts@),
                    self.cursor as int,
                )),
            decreases self.toks().len() - self.cursor,
        {
            let ghost c = self.cursor as int;
            let ghost pre_views = part_views(parts@);
            proof {
                lemma_skip_ws(toks0, c);
            }
            match self.peek_non_whitespace() {
                Some(token_info) => {
                    match token_info.value {
                        Token::Special(Special::BraceRight) => {
                            proof {
                                assert(spec_parse_seq_rest(toks0, c) == Ok::<
                                    (Seq<PartV>, int),
                                    ErrorV,
                                >((Seq::empty(), self.cursor as int)));
                                assert(pre_views + Seq::<PartV>::empty() =~= pre_views);
                            }
                            break ;
                        },
                        Token::Special(Special::Comma) => {
                            proof {
                                assert(spec_parse_seq_rest(toks0, c) == Ok::<
                                    (Seq<PartV>, int),
                                    ErrorV,
                                >((Seq::empty(), self.cursor as int)));
                                assert(pre_views + Seq::<PartV>::empty() =~= pre_views);
                            }
                            break ;
                        },
                        Token::Special(Special::Pound) => {
                            let ghost cp = self.cursor as int;
                            match self.expect(Token::Special(Special::Pound)) {
                                Ok(()) => {},
                                Err(_) => {
                                    proof {
                                        assert(false);
                                    }
                                    return Err(
                                        Error::InternalAssertion(
                                            String::from_str("expected the pound just seen"),
                                        ),
                                    );
                                },
                            }
                            let ghost cpart = self.cursor as int;
                            match self.parse_tag_value_part() {
                                Ok(p) => {
                                    parts.push(p);
                                    proof {
                                        lemma_spec_parse_part(toks0, cpart);
                                        let pv = spec_parse_part(toks0, cpart)->Ok_0.0;
                                        assert(part_views(parts@) =~= pre_views.push(pv));
                                        assert(spec_parse_seq_rest(toks0, c) == parts_cons(
                                            seq![pv],
                                            spec_parse_seq_rest(toks0, self.cursor as int),
                                        ));
                                        match spec_parse_seq_rest(toks0, self.cursor as int) {
                                            Ok((s, j)) => {
                                                assert(pre_views + (seq![pv] + s) =~= pre_views.push(
                                                    pv,
                                                ) + s);
                                            },
                                            Err(_) => {},
                                        }
                                    }
                                },
                                Err(e) => {
                                    proof {
                                        assert(spec_parse_seq_rest(toks0, c) is Err);
                                    }
                                    return Err(e);
                                },
                            }
                        },
                        _ => {
                            return Err(
                                Error::UnexpectedToken(
                                    Token::Special(Special::Comma),
                                    token_info,
                                ),
                            );
                        },
                    }
                },
                None => {
                    return Err(Error::EndOfTokenStream(self.position));
                },
            }
        }
        Ok(Sequence::new(parts))
    }

    /// Reads one tag value: a braced string is a single value, trimmed;
    /// anything else is read as a value sequence, which collapses when
    /// it has exactly one part — a quoted part to a trimmed single
    /// string, a bare part to an integer when it reads as one.
    pub fn parse_tag_value(&mut self) -> (r: ParseResult<Value>)
        requires
            old(self).wf(),
        ensures
            final(self).wf(),
            final(self).toks() == old(self).toks(),
            ({
                let s = spec_parse_tag_value(old(self).toks(), old(self).cursor as int);
                &&& (r is Ok ==> s is Ok && r->Ok_0@ == s->Ok_0.0 && final(self).cursor
                    == s->Ok_0.1)
                &&& (r is Err ==> s is Err && r->Err_0@ == s->Err_0)
            }),
    {
        let ghost toks0 = old(self).toks();
        let ghost c0 = old(self).cursor as int;
        proof {
            lemma_skip_ws(toks0, c0);
        }
        match self.peek_non_whitespace() {
            None => Err(Error::EndOfTokenStream(self.position)),
            Some(token_info) => {
                match token_info.value {
                    Token::Special(Special::BraceLeft) => {
                        match self.parse_delimited_string(
                            Token::Special(Special::BraceLeft),
                            Token::Special(Special::BraceRight),
                        ) {
                            Ok(s) => Ok(Value::Single(trimmed(s.as_str()))),
                            Err(e) => Err(e),
                        }
                    },
                    Token::Special(Special::Quote) => self.collapse_sequence_value(
                        Ghost(toks0),
                        Ghost(self.cursor as int),
                    ),
                    Token::Value(_) => self.collapse_sequence_value(
                        Ghost(toks0),
                        Ghost(self.cursor as int),
                    ),
                    _ => Err(Error::MissingContent(token_info)),
                }
            },
        }
    }

    /// Reads a value sequence and collapses it when it has exactly one
    /// part.
    fn collapse_sequence_value(&mut self, Ghost(toks0): Ghost<Seq<TokenInfoV>>, Ghost(c): Ghost<
        int,
    >) -> (r: ParseResult<Value>)
        requires
            old(self).wf(),
            toks0 == old(self).toks(),
            c == old(self).cursor as int,
        ensures
            final(self).wf(),
            final(self).toks() == old(self).toks(),
            ({
                let s = spec_collapse_sequence(spec_parse_sequence(toks0, c));
                &&& (r is Ok ==> s is Ok && r->Ok_0@ == s->Ok_0.0 && final(self).cursor
                    == s->Ok_0.1)
                &&& (r is Err ==> s is Err && r->Err_0@ == s->Err_0)
            }),
    {
        let seq = match self.parse_tag_value_sequence() {
            Ok(seq) => seq,
            Err(e) => {
                return Err(e);
            },
        };
        if seq.len() == 1 {
            let Sequence(mut parts) = seq;
            let part = parts.remove(0);
            proof {
                assert(part@ == spec_parse_sequence(toks0, c)->Ok_0.0[0]);
            }
            match part {
                Part::Quoted(s) => Ok(Value::Single(trimmed(s.as_str()))),
                Part::Value(s) => {
                    match parse_u64(s.as_str()) {
                        Some(v) => Ok(Value::Integer(v)),
                        None => {
                            let one = Sequence::new(vec![Part::Value(s)]);
                            proof {
                                assert(one@ =~= seq![
                                    spec_parse_sequence(toks0, c)->Ok_0.0[0],
                                ]);
                            }
                            Ok(Value::Sequence(one))
                        },
                    }
                },
            }
        } else {
            Ok(Value::Sequence(seq))
        }
    }

    /// Reads one `name = value` tag; the name is folded to lower case.
    pub fn parse_tag(&mut self) -> (r: ParseResult<Tag>)
        requires
            old(self).wf(),
        ensures
            final(self).wf(),
            final(self).toks() == old(self).toks(),
            ({
                let s = spec_parse_tag(old(self).toks(), old(self).cursor as int);
                &&& (r is Ok ==> s is Ok && r->Ok_0@ == s->Ok_0.0 && final(self).cursor
                    == s->Ok_0.1)
                &&& (r is Err ==> s is Err && r->Err_0@ == s->Err_0)
            }),
    {
        let ghost toks0 = old(self).toks();
        let ghost c0 = old(self).cursor as int;
        proof {
            lemma_skip_ws(toks0, c0);
        }
        let token_info = match self.next_non_whitespace() {
            Some(token) => token,
            None => {
                return Err(Error::EndOfTokenStream(self.position));
            },
        };
        let name = match token_info.value {
            Token::Value(name) => name,
            _ => {
                return Err(Error::MissingTagName(token_info));
            },
        };
        match self.expect(Token::Special(Special::Equals)) {
            Ok(()) => {},
            Err(e) => {
                return Err(e);
            },
        }
        let value = match self.parse_tag_value() {
            Ok(v) => v,
            Err(e) => {
                return Err(e);
            },
        };
        Ok(Tag::new(name, value))
    }

    /// Reads a `@comment` entry after its kind: an opening brace, then
    /// everything up to the first closing brace, kept verbatim.
    pub fn parse_comment_entry(&mut self) -> (r: ParseResult<CommentEntry>)
        requires
            old(self).wf(),
        ensures
            final(self).wf(),
            final(self).toks() == old(self).toks(),
            ({
                let s = spec_parse_comment_entry(old(self).toks(), old(self).cursor as int);
                &&& (r is Ok ==> s is Ok && r->Ok_0@ == s->Ok_0.0 && final(self).cursor
                    == s->Ok_0.1)
                &&& (r is Err ==> s is Err && r->Err_0@ == s->Err_0)
            }),
    {
        let ghost toks0 = old(self).toks();
        let ghost c0 = old(self).cursor as int;
        match self.expect(Token::Special(Special::BraceLeft)) {
            Ok(()) => {},
            Err(e) => {
                return Err(e);
            },
        }
        let ghost body0 = self.cursor as int;
        let mut tokens: Vec<Token> = Vec::new();
        proof {
            assert(token_views(tokens@) =~= Seq::<TokenV>::empty());
            assert(delim_cons(Seq::<TokenV>::empty(), spec_comment_body(toks0, body0))
                == spec_comment_body(toks0, body0)) by {
                match spec_comment_body(toks0, body0) {
                    Ok((s, j)) => {
                        assert(Seq::<TokenV>::empty() + s =~= s);
                    },
                    Err(_) => {},
                }
            }
        }
        loop
            invariant_except_break
                spec_parse_comment_entry(toks0, c0) == delim_text(
                    delim_cons(token_views(tokens@), spec_comment_body(toks0, self.cursor as int)),
                ),
            invariant
                self.wf(),
                self.toks() == toks0,
                toks0 == old(self).toks(),
                c0 == old(self).cursor as int,
            ensures
                self.wf(),
                self.toks() == toks0,
                spec_parse_comment_entry(toks0, c0) == Ok::<(Seq<char>, int), ErrorV>((
                    tokens_text(token_views(tokens@)),
                    self.cursor as int,
                )),
            decreases self.toks().len() - self.cursor,
        {
            let ghost c = self.cursor as int;
            let ghost pre_views = token_views(tokens@);
            match self.next() {
                Some(token_info) => {
                    proof {
                        assert(token_info@ == toks0[c]);
                    }
                    if token_eq(&token_info.value, &Token::Special(Special::BraceRight)) {
                        proof {
                            assert(spec_comment_body(toks0, c) == Ok::<(Seq<TokenV>, int), ErrorV>(
                                (Seq::empty(), c + 1),
                            ));
                            assert(pre_views + Seq::<TokenV>::empty() =~= pre_views);
                        }
                        break ;
                    }
                    let ghost tv = token_info.value@;
                    tokens.push(token_info.value);
                    proof {
                        assert(token_views(tokens@) =~= pre_views.push(tv));
                        assert(spec_comment_body(toks0, c) == delim_cons(
                            seq![tv],
                            spec_comment_body(toks0, c + 1),
                        ));
                        match spec_comment_body(toks0, c + 1) {
                            Ok((s, j)) => {
                                assert(pre_views + (seq![tv] + s) =~= pre_views.push(tv) + s);
                            },
                            Err(_) => {},
                        }
                    }
                },
                None => {
                    return Err(Error::EndOfTokenStream(self.position));
                },
            }
        }
        Ok(CommentEntry::new(stringify(tokens)))
    }

    /// Reads a `@preamble` entry after its kind: a braced value
    /// sequence.
    pub fn parse_preamble_entry(&mut self) -> (r: ParseResult<PreambleEntry>)
        requires
            old(self).wf(),
        ensures
            final(self).wf(),
            final(self).toks() == old(self).toks(),
            ({
                let s = spec_parse_preamble_entry(old(self).toks(), old(self).cursor as int);
                &&& (r is Ok ==> s is Ok && r->Ok_0@ == s->Ok_0.0 && final(self).cursor
                    == s->Ok_0.1)
                &&& (r is Err ==> s is Err && r->Err_0@ == s->Err_0)
            }),
    {
        match self.expect(Token::Special(Special::BraceLeft)) {
            Ok(()) => {},
            Err(e) => {
                return Err(e);
            },
        }
        let seq = match self.parse_tag_value_sequence() {
            Ok(seq) => seq,
            Err(e) => {
                return Err(e);
            },
        };
        match self.expect(Token::Special(Special::BraceRight)) {
            Ok(()) => {},
            Err(e) => {
                return Err(e);
            },
        }
        Ok(PreambleEntry::new(seq))
    }

    /// Reads a `@string` entry after its kind: a braced single tag with
    /// an optional trailing comma.
    pub fn parse_string_entry(&mut self) -> (r: ParseResult<StringEntry>)
        requires
            old(self).wf(),
        ensures
            final(self).wf(),
            final(self).toks() == old(self).toks(),
            ({
                let s = spec_parse_string_entry(old(self).toks(), old(self).cursor as int);
                &&& (r is Ok ==> s is Ok && r->Ok_0@ == s->Ok_0.0 && final(self).cursor
                    == s->Ok_0.1)
                &&& (r is Err ==> s is Err && r->Err_0@ == s->Err_0)
            }),
    {
        match self.expect(Token::Special(Special::BraceLeft)) {
            Ok(()) => {},
            Err(e) => {
                return Err(e);
            },
        }
        let tag = match self.parse_tag() {
            Ok(tag) => tag,
            Err(e) => {
                return Err(e);
            },
        };
        match self.next_non_whitespace() {
            Some(token) => {
                if token_eq(&token.value, &Token::Special(Special::BraceRight)) {
                } else if token_eq(&token.value, &Token::Special(Special::Comma)) {
                    match self.expect(Token::Special(Special::BraceRight)) {
                        Ok(()) => {},
                        Err(e) => {
                            return Err(e);
                        },
                    }
                } else {
                    return Err(
                        Error::UnexpectedToken(Token::Special(Special::BraceRight), token),
                    );
                }
            },
            None => {
                return Err(Error::EndOfTokenStream(self.position));
            },
        }
        Ok(StringEntry::new(tag))
    }

    /// Reads a reference entry after its kind: a brace, a cite key, then
    /// `name = value` tags separated by commas, up to the closing brace;
    /// kind and key are folded to lower case.
    pub fn parse_ref_entry(&mut self, kind: String) -> (r: ParseResult<RefEntry>)
        requires
            old(self).wf(),
        ensures
            final(self).wf(),
            final(self).toks() == old(self).toks(),
            ({
                let s = spec_parse_ref_entry(old(self).toks(), old(self).cursor as int, kind@);
                &&& (r is Ok ==> s is Ok && r->Ok_0@ == s->Ok_0.0 && final(self).cursor
                    == s->Ok_0.1)
                &&& (r is Err ==> s is Err && r->Err_0@ == s->Err_0)
            }),
    {
        let ghost toks0 = old(self).toks();
        let ghost c0 = old(self).cursor as int;
        match self.expect(Token::Special(Special::BraceLeft)) {
            Ok(()) => {},
            Err(e) => {
                return Err(e);
            },
        }
        proof {
            lemma_skip_ws(toks0, self.cursor as int);
        }
        let key = match self.next_non_whitespace() {
            Some(token) => {
                match token.value {
                    Token::Value(key) => key,
                    _ => {
                        return Err(Error::MissingCiteKey(token));
                    },
                }
            },
            None => {
                return Err(Error::EndOfTokenStream(self.position));
            },
        };
        let ghost t0 = self.cursor as int;
        let ghost kindv = kind@;
        let ghost keyv = key@;
        let mut tags: Vec<Tag> = Vec::new();
        proof {
            assert(tag_views(tags@) =~= Seq::<TagV>::empty());
            assert(tags_cons(Seq::<TagV>::empty(), spec_ref_tags(toks0, t0)) == spec_ref_tags(
                toks0,
                t0,
            )) by {
                match spec_ref_tags(toks0, t0) {
                    Ok((s, j)) => {
                        assert(Seq::<TagV>::empty() + s =~= s);
                    },
                    Err(_) => {},
                }
            }
            assert(spec_parse_ref_entry(toks0, c0, kindv) == ref_done(
                kindv,
                keyv,
                spec_ref_tags(toks0, t0),
            ));
        }
        loop
            invariant_except_break
                spec_ref_tags(toks0, t0) == tags_cons(
                    tag_views(tags@),
                    spec_ref_tags(toks0, self.cursor as int),
                ),
            invariant
                self.wf(),
                self.toks() == toks0,
                toks0 == old(self).toks(),
                c0 == old(self).cursor as int,
                kindv == kind@,
                keyv == key@,
                0 <= t0 <= toks0.len(),
                spec_parse_ref_entry(toks0, c0, kindv) == ref_done(
                    kindv,
                    keyv,
                    spec_ref_tags(toks0, t0),
                ),
            ensures
                self.wf(),
                self.toks() == toks0,
                spec_ref_tags(toks0, t0) == Ok::<(Seq<TagV>, int), ErrorV>((
                    tag_views(tags@),
                    self.cursor as int,
                )),
            decreases self.toks().len() - self.cursor,
        {
            let ghost c = self.cursor as int;
            let ghost pre_views = tag_views(tags@);
            proof {
                lemma_skip_ws(toks0, c);
            }
            let peeked = self.peek_non_whitespace();
            let is_brace_right = match &peeked {
                Some(token) => matches!(token.value, Token::Special(Special::BraceRight)),
                None => false,
            };
            let is_comma = match &peeked {
                Some(token) => matches!(token.value, Token::Special(Special::Comma)),
                None => false,
            };
            if is_brace_right {
                self.next_non_whitespace();
                proof {
                    assert(spec_ref_tags(toks0, c) == Ok::<(Seq<TagV>, int), ErrorV>((
                        Seq::empty(),
                        self.cursor as int,
                    )));
                    assert(pre_views + Seq::<TagV>::empty() =~= pre_views);
                }
                break ;
            } else if is_comma {
                self.next_non_whitespace();
                proof {
                    assert(spec_ref_tags(toks0, c) == spec_ref_tags(toks0, self.cursor as int));
                }
            } else {
                let ghost ct = self.cursor as int;
                match self.parse_tag() {
                    Ok(tag) => {
                        tags.push(tag);
                        proof {
                            lemma_spec_parse_tag(toks0, ct);
                            let tv = spec_parse_tag(toks0, ct)->Ok_0.0;
                            assert(tag_views(tags@) =~= pre_views.push(tv));
                            assert(spec_ref_tags(toks0, c) == tags_cons(
                                seq![tv],
                                spec_ref_tags(toks0, self.cursor as int),
                            ));
                            match spec_ref_tags(toks0, self.cursor as int) {
                                Ok((s, j)) => {
                                    assert(pre_views + (seq![tv] + s) =~= pre_views.push(tv) + s);
                                },
                                Err(_) => {},
                            }
                        }
                    },
                    Err(e) => {
                        proof {
                            assert(spec_ref_tags(toks0, c) is Err);
                        }
                        return Err(e);
                    },
                }
            }
        }
        Ok(RefEntry::new(kind, key, tags))
    }

    /// Reads one entry: `@`, a kind, then the entry form the lowercased
    /// kind selects — `comment`, `preamble`, `string`, or a reference
    /// entry for anything else.
    pub fn parse_entry(&mut self) -> (r: ParseResult<EntryType>)
        requires
            old(self).wf(),
        ensures
            final(self).wf(),
            final(self).toks() == old(self).toks(),
            ({
                let s = spec_parse_entry(old(self).toks(), old(self).cursor as int);
                &&& (r is Ok ==> s is Ok && r->Ok_0@ == s->Ok_0.0 && final(self).cursor
                    == s->Ok_0.1)
                &&& (r is Err ==> s is Err && r->Err_0@ == s->Err_0)
            }),
    {
        let ghost toks0 = old(self).toks();
        let ghost c0 = old(self).cursor as int;
        match self.expect(Token::Special(Special::At)) {
            Ok(()) => {},
            Err(e) => {
                return Err(e);
            },
        }
        proof {
            lemma_skip_ws(toks0, self.cursor as int);
        }
        let token_info = match self.next_non_whitespace() {
            Some(token) => token,
            None => {
                return Err(Error::EndOfTokenStream(self.position));
            },
        };
        let kind = match token_info.value {
            Token::Value(kind) => kind,
            _ => {
                return Err(Error::MissingEntryType(token_info));
            },
        };
        let folded = lowercased(kind.as_str());
        let entry = if eq_str(folded.as_str(), "comment") {
            match self.parse_comment_entry() {
                Ok(e) => EntryType::CommentEntry(e),
                Err(e) => {
                    return Err(e);
                },
            }
        } else if eq_str(folded.as_str(), "preamble") {
            match self.parse_preamble_entry() {
                Ok(e) => EntryType::PreambleEntry(e),
                Err(e) => {
                    return Err(e);
                },
            }
        } else if eq_str(folded.as_str(), "string") {
            match self.parse_string_entry() {
                Ok(e) => EntryType::StringEntry(e),
                Err(e) => {
                    return Err(e);
                },
            }
        } else {
            match self.parse_ref_entry(kind) {
                Ok(e) => EntryType::RefEntry(e),
                Err(e) => {
                    return Err(e);
                },
            }
        };
        Ok(entry)
    }

    /// Reads a whole token stream into the entry collection, in source
    /// order, or reports the first grammar error.
    pub fn parse(&mut self) -> (r: ParseResult<Entries>)
        requires
            old(self).wf(),
        ensures
            final(self).wf(),
            final(self).toks() == old(self).toks(),
            ({
                let s = spec_parse_entries(old(self).toks(), old(self).cursor as int);
                &&& (r is Ok ==> s is Ok && r->Ok_0@ == s->Ok_0.0 && final(self).cursor
                    == s->Ok_0.1)
                &&& (r is Err ==> s is Err && r->Err_0@ == s->Err_0)
            }),
    {
        let ghost toks0 = old(self).toks();
        let ghost c0 = old(self).cursor as int;
        let mut entries: Vec<EntryType> = Vec::new();
        proof {
            assert(entry_views(entries@) =~= Seq::<EntryTypeV>::empty());
            assert(entries_cons(Seq::<EntryTypeV>::empty(), spec_parse_entries(toks0, c0))
                == spec_parse_entries(toks0, c0)) by {
                match spec_parse_entries(toks0, c0) {
                    Ok((s, j)) => {
                        assert(Seq::<EntryTypeV>::empty() + s =~= s);
                    },
                    Err(_) => {},
                }
            }
        }
        loop
            invariant_except_break
                spec_parse_entries(toks0, c0) == entries_cons(
                    entry_views(entries@),
                    spec_parse_entries(toks0, self.cursor as int),
                ),
            invariant
                self.wf(),
                self.toks() == toks0,
                toks0 == old(self).toks(),
                c0 == old(self).cursor as int,
                0 <= c0 <= toks0.len(),
            ensures
                self.wf(),
                self.toks() == toks0,
                spec_parse_entries(toks0, c0) == Ok::<(Seq<EntryTypeV>, int), ErrorV>((
                    entry_views(entries@),
                    self.cursor as int,
                )),
            decreases self.toks().len() - self.cursor,
        {
            let ghost c = self.cursor as int;
            let ghost pre_views = entry_views(entries@);
            proof {
                lemma_skip_ws(toks0, c);
            }
            let peeked = self.peek_non_whitespace();
            match peeked {
                None => {
                    proof {
                        assert(spec_parse_entries(toks0, c) == Ok::<
                            (Seq<EntryTypeV>, int),
                            ErrorV,
                        >((Seq::empty(), self.cursor as int)));
                        assert(pre_views + Seq::<EntryTypeV>::empty() =~= pre_views);
                    }
                    break ;
                },
                Some(token_info) => {
                    if matches!(token_info.value, Token::Special(Special::At)) {
                        let ghost ce = self.cursor as int;
                        match self.parse_entry() {
                            Ok(entry) => {
                                entries.push(entry);
                                proof {
                                    lemma_spec_parse_entry(toks0, ce);
                                    let ev = spec_parse_entry(toks0, ce)->Ok_0.0;
                                    assert(entry_views(entries@) =~= pre_views.push(ev));
                                    assert(spec_parse_entries(toks0, c) == entries_cons(
                                        seq![ev],
                                        spec_parse_entries(toks0, self.cursor as int),
                                    ));
                                    match spec_parse_entries(toks0, self.cursor as int) {
                                        Ok((s, j)) => {
                                            assert(pre_views + (seq![ev] + s) =~= pre_views.push(
                                                ev,
                                            ) + s);
                                        },
                                        Err(_) => {},
                                    }
                                }
                            },
                            Err(e) => {
                                proof {
                                    assert(spec_parse_entries(toks0, c) is Err);
                                }
                                return Err(e);
                            },
                        }
                    } else {
                        match self.next() {
                            Some(token_info) => {
                                return Err(
                                    Error::UnexpectedToken(
                                        Token::Special(Special::At),
                                        token_info,
                                    ),
                                );
                            },
                            None => {
                                proof {
                                    assert(false);
                                }
                                return Err(
                                    Error::InternalAssertion(
                                        String::from_str("peeked token gone"),
                                    ),
                                );
                            },
                        }
                    }
                },
            }
        }
        Ok(Entries::new(entries))
    }
}

} // verus!
