//! The formatter: renders the entry model back to canonical BibTeX
//! text, under four options — protect capitalized title words with
//! braces, drop empty tags, sort entries, sort tags.

use vstd::prelude::*;
use vstd::relations::sorted_by;
use vstd::string::StrSliceExecFns;
use vstd::string::StringExecFns;

use crate::models::entry::CommentEntry;
use crate::models::entry::Entries;
use crate::models::entry::EntryType;
use crate::models::entry::EntryTypeV;
use crate::models::entry::PreambleEntry;
use crate::models::entry::RefEntry;
use crate::models::entry::RefEntryV;
use crate::models::entry::StringEntry;
use crate::models::entry::entry_rank;
use crate::models::entry::entry_views;
use crate::models::entry::spec_sort_entries;
use crate::models::tag::Part;
use crate::models::tag::PartV;
use crate::models::tag::part_views;
use crate::models::tag::Sequence;
use crate::models::tag::Tag;
use crate::models::tag::TagV;
use crate::models::tag::Value;
use crate::models::tag::ValueV;
use crate::models::tag::tag_le;
use crate::models::tag::tag_le_exec;
use crate::models::tag::tag_name_le;
use crate::models::tag::tag_name_rank;
use crate::models::tag::tag_views;
use crate::models::tag::value_is_empty;
use crate::models::tag::lemma_tag_name_le_total;
use crate::models::tag::lemma_tag_name_le_trans;
use crate::sorting::lemma_count_two_indices;
use crate::sorting::lemma_dup_count;
use crate::sorting::lemma_insert_by_shape;
use crate::sorting::lemma_sort_by_multiset;
use crate::sorting::lemma_sort_by_sorted;
use crate::sorting::spec_insert_by;
use crate::sorting::spec_sort_by;
use crate::sorting::total_preorder;
use crate::strutil::dec_digits;
use crate::strutil::fmt_u64;
use crate::strutil::is_upper_char;
use crate::strutil::lower_seq;
use crate::strutil::lowercased;
use crate::strutil::eq_str;
use crate::strutil::push_char;
use crate::token::is_whitespace_char;

verus! {

/// `s` with every brace, opening or closing, removed.
pub open spec fn spec_remove_braces(s: Seq<char>) -> Seq<char> {
    s.filter(|c: char| c != '{' && c != '}')
}

/// Removes every brace from a string.
pub fn remove_braces(text: &str) -> (r: String)
    ensures
        r@ == spec_remove_braces(text@),
{
    let len = text.unicode_len();
    let mut out = String::new();
    let mut i: usize = 0;
    proof {
        reveal(Seq::filter);
        assert(text@.take(0).filter(|c: char| c != '{' && c != '}') =~= Seq::<char>::empty());
    }
    while i < len
        invariant
            len == text@.len(),
            i <= len,
            out@ == text@.take(i as int).filter(|c: char| c != '{' && c != '}'),
        decreases len - i,
    {
        let c = text.get_char(i);
        if c != '{' && c != '}' {
            push_char(&mut out, c);
        }
        proof {
            reveal(Seq::filter);
            assert(text@.take(i + 1).drop_last() =~= text@.take(i as int));
            assert(text@.take(i + 1).last() == text@[i as int]);
        }
        i = i + 1;
    }
    proof {
        assert(text@.take(len as int) =~= text@);
    }
    out
}

/// The length of the maximal prefix of `s` free of whitespace.
pub open spec fn word_run_len(s: Seq<char>) -> nat
    decreases s.len(),
{
    if s.len() > 0 && !is_whitespace_char(s[0]) {
        1 + word_run_len(s.skip(1))
    } else {
        0
    }
}

proof fn lemma_word_run(s: Seq<char>)
    ensures
        word_run_len(s) <= s.len(),
        forall|j: int| 0 <= j < word_run_len(s) ==> !is_whitespace_char(#[trigger] s[j]),
        word_run_len(s) < s.len() ==> is_whitespace_char(s[word_run_len(s) as int]),
    decreases s.len(),
{
    if s.len() > 0 && !is_whitespace_char(s[0]) {
        lemma_word_run(s.skip(1));
        let n = word_run_len(s);
        assert forall|j: int| 0 <= j < n implies !is_whitespace_char(#[trigger] s[j]) by {
            if j > 0 {
                assert(!is_whitespace_char(s.skip(1)[j - 1]));
            }
        }
        if n < s.len() {
            assert(is_whitespace_char(s.skip(1)[n - 1]));
        }
    }
}

/// `s` split on whitespace: its maximal whitespace-free words, in
/// order, with all whitespace dropped.
pub open spec fn spec_split_words(s: Seq<char>) -> Seq<Seq<char>>
    decreases s.len()
    via spec_split_words_decreases
{
    if s.len() == 0 {
        Seq::empty()
    } else if is_whitespace_char(s[0]) {
        spec_split_words(s.skip(1))
    } else {
        let n = word_run_len(s) as int;
        seq![s.take(n)] + spec_split_words(s.skip(n))
    }
}

#[via_fn]
proof fn spec_split_words_decreases(s: Seq<char>) {
    lemma_word_run(s);
}

/// Whether a word's first character is a capital.
pub open spec fn first_cap(w: Seq<char>) -> bool {
    w.len() > 0 && is_upper_char(w[0])
}

/// Whether a word holds a capital after its first character.
pub open spec fn rest_cap(w: Seq<char>) -> bool {
    exists|i: int| 1 <= i < w.len() && is_upper_char(#[trigger] w[i])
}

/// The word with its first character wrapped in braces.
pub open spec fn wrap_first(w: Seq<char>) -> Seq<char> {
    seq!['{'] + w.take(1) + seq!['}'] + w.skip(1)
}

/// The whole word wrapped in braces; a trailing colon stays outside.
pub open spec fn wrap_word(w: Seq<char>) -> Seq<char> {
    if w.len() > 0 && w.last() == ':' {
        seq!['{'] + w.drop_last() + seq!['}', ':']
    } else {
        seq!['{'] + w + seq!['}']
    }
}

/// How one word of a title is protected: a word with a capital beyond
/// its first character is wrapped whole; a word whose only capital is
/// its first character has that character wrapped, except in the very
/// first word, which BibTeX capitalizes by itself; a word with no
/// capital is left alone.
pub open spec fn fmt_word(idx: int, w: Seq<char>) -> Seq<char> {
    if first_cap(w) && !rest_cap(w) {
        if idx == 0 {
            w
        } else {
            wrap_first(w)
        }
    } else if rest_cap(w) {
        wrap_word(w)
    } else {
        w
    }
}

/// The protected words joined by single spaces, numbering from `idx`.
pub open spec fn fmt_words(ws: Seq<Seq<char>>, idx: int) -> Seq<char>
    decreases ws.len(),
{
    if ws.len() == 0 {
        Seq::empty()
    } else if ws.len() == 1 {
        fmt_word(idx, ws[0])
    } else {
        fmt_word(idx, ws[0]) + seq![' '] + fmt_words(ws.skip(1), idx + 1)
    }
}

/// What protecting a title yields: braces stripped, words split on
/// whitespace, each word protected, all joined by single spaces.
pub open spec fn spec_format_title(s: Seq<char>) -> Seq<char> {
    fmt_words(spec_split_words(spec_remove_braces(s)), 0)
}

/// The separator owed before the words still to be written: one space,
/// once any word has been written and more remain.
spec fn title_sep(idx: int, ws: Seq<Seq<char>>) -> Seq<char> {
    if idx > 0 && ws.len() > 0 {
        seq![' ']
    } else {
        Seq::empty()
    }
}

/// Protects the capitalized words of a title with braces, so that
/// BibTeX's automatic downcasing leaves them alone.
pub fn format_title(text: &str) -> (r: String)
    ensures
        r@ == spec_format_title(text@),
{
    let stripped = remove_braces(text);
    let s = stripped.as_str();
    let len = s.unicode_len();
    let ghost sv = s@;
    let mut out = String::new();
    let mut i: usize = 0;
    let mut word_idx: usize = 0;
    proof {
        assert(sv.skip(0) =~= sv);
        assert(Seq::<char>::empty() + fmt_words(spec_split_words(sv), 0) =~= fmt_words(
            spec_split_words(sv),
            0,
        ));
    }
    while i < len
        invariant
            len == sv.len(),
            sv == s@,
            stripped@ == sv,
            i <= len,
            word_idx <= i,
            spec_format_title(text@) == out@ + title_sep(
                word_idx as int,
                spec_split_words(sv.skip(i as int)),
            ) + fmt_words(spec_split_words(sv.skip(i as int)), word_idx as int),
        decreases len - i,
    {
        let c = s.get_char(i);
        if matches!(c, ' ' | '\t' | '\n' | '\r') {
            proof {
                assert(sv.skip(i as int)[0] == sv[i as int]);
                assert(sv.skip(i as int).skip(1) =~= sv.skip(i + 1));
            }
            i = i + 1;
        } else {
            let ghost rem = sv.skip(i as int);
            let ghost n = word_run_len(rem);
            proof {
                lemma_word_run(rem);
                assert(rem[0] == sv[i as int]);
            }
            // find the end of the word
            let mut j: usize = i;
            while j < len && !is_ws_exec(s.get_char(j))
                invariant
                    len == sv.len(),
                    sv == s@,
                    i <= j <= len,
                    rem == sv.skip(i as int),
                    n == word_run_len(rem),
                    n <= rem.len(),
                    forall|m: int| 0 <= m < n ==> !is_whitespace_char(#[trigger] rem[m]),
                    n < rem.len() ==> is_whitespace_char(rem[n as int]),
                    j - i <= n,
                    forall|m: int| i <= m < j ==> !is_whitespace_char(#[trigger] sv[m]),
                decreases len - j,
            {
                proof {
                    assert(rem[j - i] == sv[j as int]);
                    assert(j - i < n) by {
                        if j - i >= n {
                            assert(n < rem.len());
                            assert(is_whitespace_char(rem[n as int]));
                            assert(rem[n as int] == sv[i + n]);
                            assert(i + n == j);
                        }
                    }
                }
                j = j + 1;
            }
            proof {
                assert(j - i == n) by {
                    if j - i < n {
                        assert(!is_whitespace_char(rem[j - i]));
                        assert(rem[j - i] == sv[j as int]);
                        assert(j < len);
                    }
                }
            }
            let word = s.substring_char(i, j);
            proof {
                assert(word@ =~= rem.take(n as int));
            }
            let ghost out0 = out@;
            let ghost idx0 = word_idx as int;
            if word_idx > 0 {
                push_char(&mut out, ' ');
            }
            append_formatted_word(&mut out, word, word_idx == 0);
            i = j;
            word_idx = word_idx + 1;
            proof {
                let ws = spec_split_words(rem);
                assert(ws == seq![rem.take(n as int)] + spec_split_words(rem.skip(n as int)));
                assert(ws[0] == rem.take(n as int));
                assert(ws.skip(1) =~= spec_split_words(rem.skip(n as int)));
                assert(rem.skip(n as int) =~= sv.skip(i as int));
                let rest = spec_split_words(sv.skip(i as int));
                lemma_fmt_words_unfold(ws, idx0);
                let fw = fmt_word(idx0, word@);
                assert(out@ =~= out0 + title_sep(idx0, ws) + fw);
                if rest.len() == 0 {
                    assert(fmt_words(ws, idx0) == fw);
                    assert(out0 + title_sep(idx0, ws) + fmt_words(ws, idx0) =~= out@ + title_sep(
                        word_idx as int,
                        rest,
                    ) + fmt_words(rest, word_idx as int));
                } else {
                    assert(fmt_words(ws, idx0) == fw + seq![' '] + fmt_words(rest, idx0 + 1));
                    assert(out0 + title_sep(idx0, ws) + fmt_words(ws, idx0) =~= out@ + title_sep(
                        word_idx as int,
                        rest,
                    ) + fmt_words(rest, word_idx as int));
                }
            }
        }
    }
    proof {
        assert(sv.skip(len as int) =~= Seq::<char>::empty());
        assert(fmt_words(Seq::<Seq<char>>::empty(), word_idx as int) =~= Seq::<char>::empty());
        assert(out@ + title_sep(word_idx as int, spec_split_words(sv.skip(len as int)))
            + fmt_words(spec_split_words(sv.skip(len as int)), word_idx as int) =~= out@);
    }
    out
}

proof fn lemma_fmt_words_unfold(ws: Seq<Seq<char>>, idx: int)
    requires
        ws.len() >= 1,
    ensures
        ws.len() == 1 ==> fmt_words(ws, idx) == fmt_word(idx, ws[0]),
        ws.len() > 1 ==> fmt_words(ws, idx) == fmt_word(idx, ws[0]) + seq![' '] + fmt_words(
            ws.skip(1),
            idx + 1,
        ),
{
}

/// Whether `c` is whitespace, as the word splitter sees it.
fn is_ws_exec(c: char) -> (r: bool)
    ensures
        r == is_whitespace_char(c),
{
    matches!(c, ' ' | '\t' | '\n' | '\r')
}

/// Appends one protected word to the output being built.
fn append_formatted_word(out: &mut String, word: &str, first_word: bool)
    ensures
        final(out)@ == old(out)@ + fmt_word(if first_word { 0 } else { 1 }, word@),
{
    let len = word.unicode_len();
    let has_first_cap = len > 0 && {
        let c = word.get_char(0);
        c >= 'A' && c <= 'Z'
    };
    let mut has_rest_cap = false;
    let mut k: usize = 1;
    if len > 0 {
        while k < len
            invariant
                1 <= k <= len,
                len == word@.len(),
                has_rest_cap == exists|i: int| 1 <= i < k && is_upper_char(#[trigger] word@[i]),
            decreases len - k,
        {
            let c = word.get_char(k);
            if c >= 'A' && c <= 'Z' {
                has_rest_cap = true;
            }
            k = k + 1;
        }
    }
    proof {
        assert(has_first_cap == first_cap(word@));
        assert(has_rest_cap == rest_cap(word@));
    }
    if has_first_cap && !has_rest_cap {
        if first_word {
            out.append(word);
        } else {
            push_char(out, '{');
            let head = word.substring_char(0, 1);
            out.append(head);
            push_char(out, '}');
            let tail = word.substring_char(1, len);
            out.append(tail);
            proof {
                assert(old(out)@ + seq!['{'] + word@.subrange(0, 1) + seq!['}'] + word@.subrange(
                    1,
                    len as int,
                ) =~= old(out)@ + (seq!['{'] + word@.take(1) + seq!['}'] + word@.skip(1)));
            }
        }
    } else if has_rest_cap {
        let last_colon = len > 0 && word.get_char(len - 1) == ':';
        if last_colon {
            push_char(out, '{');
            let body = word.substring_char(0, len - 1);
            out.append(body);
            push_char(out, '}');
            push_char(out, ':');
            proof {
                assert(word@.drop_last() =~= word@.subrange(0, len - 1));
                assert(old(out)@ + seq!['{'] + word@.subrange(0, len - 1) + seq!['}'] + seq![':']
                    =~= old(out)@ + (seq!['{'] + word@.drop_last() + seq!['}', ':']));
            }
        } else {
            push_char(out, '{');
            out.append(word);
            push_char(out, '}');
            proof {
                assert(old(out)@ + seq!['{'] + word@ + seq!['}'] =~= old(out)@ + (seq!['{'] + word@
                    + seq!['}']));
            }
        }
    } else {
        out.append(word);
    }
}

/// Whether `s` holds no brace.
pub open spec fn brace_free(s: Seq<char>) -> bool {
    forall|i: int| 0 <= i < s.len() ==> s[i] != '{' && s[i] != '}'
}

/// The words joined back by single spaces, unprotected.
pub open spec fn join_words(ws: Seq<Seq<char>>) -> Seq<char>
    decreases ws.len(),
{
    if ws.len() == 0 {
        Seq::empty()
    } else if ws.len() == 1 {
        ws[0]
    } else {
        ws[0] + seq![' '] + join_words(ws.skip(1))
    }
}

proof fn lemma_filter_identity(s: Seq<char>, p: spec_fn(char) -> bool)
    requires
        forall|i: int| 0 <= i < s.len() ==> p(s[i]),
    ensures
        s.filter(p) == s,
    decreases s.len(),
{
    reveal(Seq::filter);
    if s.len() > 0 {
        let dl = s.drop_last();
        lemma_filter_identity(dl, p);
        assert(p(s.last()));
        assert(dl.push(s.last()) =~= s);
    }
}

proof fn lemma_filter_single(c: char, p: spec_fn(char) -> bool)
    ensures
        p(c) ==> seq![c].filter(p) == seq![c],
        !p(c) ==> seq![c].filter(p) == Seq::<char>::empty(),
{
    reveal(Seq::filter);
    assert(seq![c].drop_last() =~= Seq::<char>::empty());
    assert(seq![c].last() == c);
    assert(Seq::<char>::empty().filter(p) == Seq::<char>::empty());
    if p(c) {
        assert(Seq::<char>::empty().push(c) =~= seq![c]);
    }
}

/// Stripping braces undoes the protection of one word: the word had no
/// braces of its own, and protection only adds braces.
proof fn lemma_remove_braces_word(idx: int, w: Seq<char>)
    requires
        brace_free(w),
    ensures
        spec_remove_braces(fmt_word(idx, w)) == w,
{
    let p = |c: char| c != '{' && c != '}';
    lemma_filter_identity(w, p);
    lemma_filter_single('{', p);
    lemma_filter_single('}', p);
    lemma_filter_single(':', p);
    if first_cap(w) && !rest_cap(w) {
        if idx != 0 {
            assert(wrap_first(w) == (seq!['{'] + w.take(1)) + (seq!['}'] + w.skip(1)));
            assert(forall|i: int| 0 <= i < w.take(1).len() ==> p(w.take(1)[i]));
            assert(forall|i: int| 0 <= i < w.skip(1).len() ==> p(w.skip(1)[i]));
            lemma_filter_identity(w.take(1), p);
            lemma_filter_identity(w.skip(1), p);
            Seq::filter_distributes_over_add(seq!['{'] + w.take(1), seq!['}'] + w.skip(1), p);
            Seq::filter_distributes_over_add(seq!['{'], w.take(1), p);
            Seq::filter_distributes_over_add(seq!['}'], w.skip(1), p);
            assert(spec_remove_braces(wrap_first(w)) == (Seq::<char>::empty() + w.take(1)) + (Seq::<
                char,
            >::empty() + w.skip(1)));
            assert(w.len() >= 1);
            assert(Seq::<char>::empty() + w.take(1) =~= w.take(1));
            assert(Seq::<char>::empty() + w.skip(1) =~= w.skip(1));
            assert((w.take(1) + w.skip(1)).len() == w.len());
            assert forall|i: int| 0 <= i < w.len() implies (w.take(1) + w.skip(1))[i] == w[i] by {
                if i < 1 {
                    assert((w.take(1) + w.skip(1))[i] == w.take(1)[i]);
                } else {
                    assert((w.take(1) + w.skip(1))[i] == w.skip(1)[i - 1]);
                }
            }
            assert(w.take(1) + w.skip(1) =~= w);
        }
    } else if rest_cap(w) {
        if w.len() > 0 && w.last() == ':' {
            assert(seq!['}', ':'] =~= seq!['}'] + seq![':']);
            assert(wrap_word(w) == (seq!['{'] + w.drop_last()) + (seq!['}'] + seq![':']));
            assert(forall|i: int| 0 <= i < w.drop_last().len() ==> p(w.drop_last()[i]));
            lemma_filter_identity(w.drop_last(), p);
            Seq::filter_distributes_over_add(seq!['{'] + w.drop_last(), seq!['}'] + seq![':'], p);
            Seq::filter_distributes_over_add(seq!['{'], w.drop_last(), p);
            Seq::filter_distributes_over_add(seq!['}'], seq![':'], p);
            assert(spec_remove_braces(wrap_word(w)) == (Seq::<char>::empty() + w.drop_last()) + (
            Seq::<char>::empty() + seq![':']));
            assert(w.len() >= 1);
            assert(Seq::<char>::empty() + w.drop_last() =~= w.drop_last());
            assert(Seq::<char>::empty() + seq![':'] =~= seq![':']);
            assert(w.drop_last() + seq![':'] =~= w.drop_last().push(':'));
            assert(w.drop_last().push(w.last()).len() == w.len());
            assert forall|i: int| 0 <= i < w.len() implies w.drop_last().push(w.last())[i]
                == w[i] by {
                if i < w.len() - 1 {
                    assert(w.drop_last().push(w.last())[i] == w.drop_last()[i]);
                } else {
                    assert(w.drop_last().push(w.last())[i] == w.last());
                }
            }
            assert(w.drop_last().push(w.last()) =~= w);
        } else {
            assert(wrap_word(w) == (seq!['{'] + w) + seq!['}']);
            Seq::filter_distributes_over_add(seq!['{'] + w, seq!['}'], p);
            Seq::filter_distributes_over_add(seq!['{'], w, p);
            assert(spec_remove_braces(wrap_word(w)) == (Seq::<char>::empty() + w) + Seq::<
                char,
            >::empty());
            assert((Seq::<char>::empty() + w) + Seq::<char>::empty() =~= w);
        }
    }
}

/// Stripping braces from a protected title leaves the bare words,
/// joined by single spaces.
proof fn lemma_remove_braces_words(ws: Seq<Seq<char>>, idx: int)
    requires
        forall|k: int| 0 <= k < ws.len() ==> brace_free(#[trigger] ws[k]),
    ensures
        spec_remove_braces(fmt_words(ws, idx)) == join_words(ws),
    decreases ws.len(),
{
    let p = |c: char| c != '{' && c != '}';
    if ws.len() == 0 {
        reveal(Seq::filter);
    } else if ws.len() == 1 {
        lemma_remove_braces_word(idx, ws[0]);
    } else {
        lemma_remove_braces_word(idx, ws[0]);
        lemma_remove_braces_words(ws.skip(1), idx + 1);
        lemma_filter_single(' ', p);
        assert(fmt_words(ws, idx) == (fmt_word(idx, ws[0]) + seq![' ']) + fmt_words(
            ws.skip(1),
            idx + 1,
        ));
        Seq::filter_distributes_over_add(fmt_word(idx, ws[0]) + seq![' '], fmt_words(ws.skip(1), idx + 1), p);
        Seq::filter_distributes_over_add(fmt_word(idx, ws[0]), seq![' '], p);
        assert(spec_remove_braces(fmt_words(ws, idx)) == (ws[0] + seq![' ']) + join_words(
            ws.skip(1),
        ));
        assert((ws[0] + seq![' ']) + join_words(ws.skip(1)) =~= ws[0] + seq![' '] + join_words(
            ws.skip(1),
        ));
    }
}

proof fn lemma_word_run_of_prefix(w: Seq<char>, rest: Seq<char>)
    requires
        forall|i: int| 0 <= i < w.len() ==> !is_whitespace_char(#[trigger] w[i]),
        rest.len() == 0 || is_whitespace_char(rest[0]),
    ensures
        word_run_len(w + rest) == w.len(),
    decreases w.len(),
{
    let s = w + rest;
    if w.len() == 0 {
        assert(s =~= rest);
    } else {
        assert(s[0] == w[0]);
        assert(s.skip(1) =~= w.skip(1) + rest);
        lemma_word_run_of_prefix(w.skip(1), rest);
    }
}

/// Splitting the words joined by single spaces recovers them: each word
/// is nonempty and free of whitespace.
proof fn lemma_split_join(ws: Seq<Seq<char>>)
    requires
        forall|k: int| 0 <= k < ws.len() ==> (#[trigger] ws[k]).len() > 0,
        forall|k: int, i: int|
            0 <= k < ws.len() && 0 <= i < ws[k].len() ==> !is_whitespace_char(
                #[trigger] ws[k][i],
            ),
    ensures
        spec_split_words(join_words(ws)) == ws,
    decreases ws.len(),
{
    if ws.len() == 0 {
    } else if ws.len() == 1 {
        let w = ws[0];
        assert(join_words(ws) == w);
        assert(!is_whitespace_char(w[0]));
        lemma_word_run_of_prefix(w, Seq::<char>::empty());
        assert(w + Seq::<char>::empty() =~= w);
        assert(word_run_len(w) == w.len());
        assert(w.take(w.len() as int) =~= w);
        assert(w.skip(w.len() as int) =~= Seq::<char>::empty());
        assert(seq![w] + spec_split_words(Seq::<char>::empty()) =~= ws);
    } else {
        let w = ws[0];
        let tail = seq![' '] + join_words(ws.skip(1));
        assert(join_words(ws) =~= w + tail);
        let s = w + tail;
        assert(s[0] == w[0]);
        assert(!is_whitespace_char(s[0]));
        lemma_word_run_of_prefix(w, tail);
        let n = w.len() as int;
        assert(word_run_len(s) == n);
        assert(s.take(n) =~= w);
        assert(s.skip(n) =~= tail);
        assert(spec_split_words(s) == seq![w] + spec_split_words(tail));
        assert(tail[0] == ' ');
        assert(tail.skip(1) =~= join_words(ws.skip(1)));
        assert(spec_split_words(tail) == spec_split_words(join_words(ws.skip(1))));
        assert forall|k: int| 0 <= k < ws.skip(1).len() implies (#[trigger] ws.skip(
            1,
        )[k]).len() > 0 by {
            assert(ws.skip(1)[k] == ws[k + 1]);
        }
        assert forall|k: int, i: int|
            0 <= k < ws.skip(1).len() && 0 <= i < ws.skip(1)[k].len() implies !is_whitespace_char(
            #[trigger] ws.skip(1)[k][i],
        ) by {
            assert(ws.skip(1)[k] == ws[k + 1]);
        }
        lemma_split_join(ws.skip(1));
        assert(seq![w] + ws.skip(1) =~= ws);
    }
}

/// The words a split yields are nonempty, hold no whitespace, and hold
/// no brace when the text held none.
proof fn lemma_split_words_shape(s: Seq<char>)
    requires
        brace_free(s),
    ensures
        forall|k: int| 0 <= k < spec_split_words(s).len() ==> (#[trigger] spec_split_words(
            s,
        )[k]).len() > 0,
        forall|k: int, i: int|
            0 <= k < spec_split_words(s).len() && 0 <= i < spec_split_words(s)[k].len()
                ==> !is_whitespace_char(#[trigger] spec_split_words(s)[k][i]),
        forall|k: int| 0 <= k < spec_split_words(s).len() ==> brace_free(
            #[trigger] spec_split_words(s)[k],
        ),
    decreases s.len(),
{
    if s.len() == 0 {
    } else if is_whitespace_char(s[0]) {
        assert(brace_free(s.skip(1))) by {
            assert(forall|i: int| 0 <= i < s.skip(1).len() ==> s.skip(1)[i] == s[i + 1]);
        }
        lemma_split_words_shape(s.skip(1));
        assert(spec_split_words(s) == spec_split_words(s.skip(1)));
    } else {
        lemma_word_run(s);
        let n = word_run_len(s) as int;
        assert(brace_free(s.skip(n))) by {
            assert(forall|i: int| 0 <= i < s.skip(n).len() ==> s.skip(n)[i] == s[i + n]);
        }
        lemma_split_words_shape(s.skip(n));
        let head = s.take(n);
        assert(head.len() > 0);
        assert(forall|i: int| 0 <= i < head.len() ==> !is_whitespace_char(#[trigger] head[i]));
        assert(brace_free(head));
        let out = spec_split_words(s);
        assert(out == seq![head] + spec_split_words(s.skip(n)));
        assert forall|k: int| 0 <= k < out.len() implies (#[trigger] out[k]).len() > 0 by {
            if k > 0 {
                assert(out[k] == spec_split_words(s.skip(n))[k - 1]);
            }
        }
        assert forall|k: int, i: int|
            0 <= k < out.len() && 0 <= i < out[k].len() implies !is_whitespace_char(
            #[trigger] out[k][i],
        ) by {
            if k > 0 {
                assert(out[k] == spec_split_words(s.skip(n))[k - 1]);
            }
        }
        assert forall|k: int| 0 <= k < out.len() implies brace_free(#[trigger] out[k]) by {
            if k > 0 {
                assert(out[k] == spec_split_words(s.skip(n))[k - 1]);
            }
        }
    }
}

/// Law: protecting a title is a fixed point — protecting an already
/// protected title changes nothing.
pub proof fn lemma_format_title_idempotent(s: Seq<char>)
    ensures
        spec_format_title(spec_format_title(s)) == spec_format_title(s),
{
    let p = |c: char| c != '{' && c != '}';
    let rb = spec_remove_braces(s);
    assert(brace_free(rb)) by {
        assert forall|i: int| 0 <= i < rb.len() implies rb[i] != '{' && rb[i] != '}' by {
            s.lemma_filter_pred(p, i);
        }
    }
    let ws = spec_split_words(rb);
    lemma_split_words_shape(rb);
    let t = fmt_words(ws, 0);
    lemma_remove_braces_words(ws, 0);
    lemma_split_join(ws);
    assert(spec_split_words(spec_remove_braces(t)) == ws);
}

/// Whether a tag's casing is preserved: only titles, and only when the
/// option is on.
pub open spec fn preserve_casing(format_title: bool, name: Seq<char>) -> bool {
    format_title && name == "title"@
}

/// How one part of a value sequence renders: a quoted part in quotes,
/// title-protected when casing is preserved; a bare part folded to
/// lower case.
pub open spec fn fmt_value_part(ft: bool, name: Seq<char>, p: PartV) -> Seq<char> {
    match p {
        PartV::Quoted(s) => if preserve_casing(ft, name) {
            "\""@ + spec_format_title(s) + "\""@
        } else {
            "\""@ + s + "\""@
        },
        PartV::Value(v) => lower_seq(v),
    }
}

/// The parts of a value sequence joined by ` # `.
pub open spec fn fmt_value_sequence(ft: bool, name: Seq<char>, ps: Seq<PartV>) -> Seq<char>
    decreases ps.len(),
{
    if ps.len() == 0 {
        Seq::empty()
    } else if ps.len() == 1 {
        fmt_value_part(ft, name, ps[0])
    } else {
        fmt_value_part(ft, name, ps[0]) + " # "@ + fmt_value_sequence(ft, name, ps.skip(1))
    }
}

/// How a tag value renders inside a reference entry: a single string in
/// braces, an integer bare, a sequence joined by ` # `.
pub open spec fn fmt_value(ft: bool, name: Seq<char>, v: ValueV) -> Seq<char> {
    match v {
        ValueV::Single(s) => if preserve_casing(ft, name) {
            "{"@ + spec_format_title(s) + "}"@
        } else {
            "{"@ + s + "}"@
        },
        ValueV::Integer(n) => dec_digits(n as nat),
        ValueV::Sequence(ps) => fmt_value_sequence(ft, name, ps),
    }
}

/// How a tag renders: its lowercased name, ` = `, and its value.
pub open spec fn fmt_tag(ft: bool, t: TagV) -> Seq<char> {
    lower_seq(t.name) + " = "@ + fmt_value(ft, lower_seq(t.name), t.value)
}

/// How a string macro renders: `@STRING{name = value}`, with a single
/// or integer value in quotes.
pub open spec fn fmt_string_entry(ft: bool, t: TagV) -> Seq<char> {
    "@STRING{"@ + lower_seq(t.name) + " = "@ + (match t.value {
        ValueV::Single(s) => "\""@ + s + "\""@,
        ValueV::Integer(n) => "\""@ + dec_digits(n as nat) + "\""@,
        ValueV::Sequence(ps) => fmt_value_sequence(ft, t.name, ps),
    }) + "}"@
}

/// How a preamble renders: `@PREAMBLE{sequence}`.
pub open spec fn fmt_preamble_entry(ft: bool, ps: Seq<PartV>) -> Seq<char> {
    "@PREAMBLE{"@ + fmt_value_sequence(ft, "preamble"@, ps) + "}"@
}

/// How a comment renders: `@COMMENT{body}`, verbatim.
pub open spec fn fmt_comment_entry(body: Seq<char>) -> Seq<char> {
    "@COMMENT{"@ + body + "}"@
}

/// Whether a tag survives the empty-tag filter.
pub open spec fn tag_keep() -> spec_fn(TagV) -> bool {
    |t: TagV| !value_is_empty(t.value)
}

/// The tag order as a function value, for use with the sort.
pub open spec fn tag_leq() -> spec_fn(TagV, TagV) -> bool {
    |a: TagV, b: TagV| tag_le(a, b)
}

/// One output line per tag: four spaces, the tag, a comma, a newline.
pub open spec fn fmt_tag_lines(ft: bool, ts: Seq<TagV>) -> Seq<char>
    decreases ts.len(),
{
    if ts.len() == 0 {
        Seq::empty()
    } else {
        "    "@ + fmt_tag(ft, ts[0]) + ",\n"@ + fmt_tag_lines(ft, ts.skip(1))
    }
}

/// The tags a reference entry shows, in the order it shows them:
/// empty tags dropped when `skip_empty_tags` is set, and the rest
/// sorted under the tag order when `sort_tags` is set.
pub open spec fn shown_tags(fmt: Formatter, tags: Seq<TagV>) -> Seq<TagV> {
    let kept = if fmt.skip_empty_tags {
        tags.filter(tag_keep())
    } else {
        tags
    };
    if fmt.sort_tags {
        spec_sort_by(kept, tag_leq())
    } else {
        kept
    }
}

/// How a reference entry renders: `@kind{key}` when no tag survives,
/// else the header line, one line per surviving tag in the shown
/// order, and a closing brace.
pub open spec fn fmt_ref_entry(fmt: Formatter, e: RefEntryV) -> Seq<char> {
    let ordered = shown_tags(fmt, e.tags);
    if ordered.len() == 0 {
        "@"@ + lower_seq(e.kind) + "{"@ + lower_seq(e.key) + "}"@
    } else {
        "@"@ + lower_seq(e.kind) + "{"@ + lower_seq(e.key) + ",\n"@ + fmt_tag_lines(
            fmt.format_title,
            ordered,
        ) + "}"@
    }
}

/// How one entry renders, by its kind.
pub open spec fn fmt_entry(fmt: Formatter, e: EntryTypeV) -> Seq<char> {
    match e {
        EntryTypeV::CommentEntry(body) => fmt_comment_entry(body),
        EntryTypeV::PreambleEntry(ps) => fmt_preamble_entry(fmt.format_title, ps),
        EntryTypeV::StringEntry(t) => fmt_string_entry(fmt.format_title, t),
        EntryTypeV::RefEntry(r) => fmt_ref_entry(fmt, r),
    }
}

/// The blank line owed between two consecutive entries: one when their
/// kinds differ, or when the second is a reference entry.
pub open spec fn entry_gap(a: EntryTypeV, b: EntryTypeV) -> Seq<char> {
    if entry_rank(a) != entry_rank(b) || b is RefEntry {
        "\n"@
    } else {
        Seq::empty()
    }
}

/// A list of entries rendered in order, one per line, with a blank
/// line between kind groups and before every reference entry; no
/// newline after the last.
pub open spec fn fmt_entry_list(fmt: Formatter, es: Seq<EntryTypeV>) -> Seq<char>
    decreases es.len(),
{
    if es.len() == 0 {
        Seq::empty()
    } else if es.len() == 1 {
        fmt_entry(fmt, es[0])
    } else {
        fmt_entry(fmt, es[0]) + "\n"@ + entry_gap(es[0], es[1]) + fmt_entry_list(fmt, es.skip(1))
    }
}

/// How a whole collection renders: its entries, sorted first when
/// `sort_entries` is set.
pub open spec fn fmt_entries(fmt: Formatter, es: Seq<EntryTypeV>) -> Seq<char> {
    fmt_entry_list(
        fmt,
        if fmt.sort_entries {
            spec_sort_entries(es)
        } else {
            es
        },
    )
}

/// The formatter: four independent switches over one rendering scheme.
#[derive(Debug, PartialEq, Eq, Structural, Clone, Copy)]
pub struct Formatter {
    pub format_title: bool,
    pub skip_empty_tags: bool,
    pub sort_entries: bool,
    pub sort_tags: bool,
}

/// Collects the tags of a reference entry that the formatter shows,
/// before sorting.
fn kept_tags(skip_empty: bool, tags: &Vec<Tag>) -> (r: Vec<Tag>)
    ensures
        tag_views(r@) == (if skip_empty {
            tag_views(tags@).filter(tag_keep())
        } else {
            tag_views(tags@)
        }),
{
    let mut kept: Vec<Tag> = Vec::new();
    let mut i: usize = 0;
    proof {
        reveal(Seq::filter);
        assert(tag_views(kept@) =~= Seq::<TagV>::empty());
        assert(tag_views(tags@.take(0)) =~= Seq::<TagV>::empty());
        assert(Seq::<TagV>::empty().filter(tag_keep()) == Seq::<TagV>::empty());
    }
    while i < tags.len()
        invariant
            i <= tags@.len(),
            tag_views(kept@) == (if skip_empty {
                tag_views(tags@.take(i as int)).filter(tag_keep())
            } else {
                tag_views(tags@.take(i as int))
            }),
        decreases tags@.len() - i,
    {
        let keep = if skip_empty {
            !tags[i].value.is_empty()
        } else {
            true
        };
        let ghost pre = tag_views(kept@);
        if keep {
            kept.push(tags[i].clone());
            proof {
                assert(tag_views(kept@) =~= pre.push(tags@[i as int]@));
            }
        }
        proof {
            reveal(Seq::filter);
            assert(tag_views(tags@.take(i + 1)) =~= tag_views(tags@.take(i as int)).push(
                tags@[i as int]@,
            ));
            assert(tag_views(tags@.take(i + 1)).drop_last() =~= tag_views(tags@.take(i as int)));
            assert(tag_views(tags@.take(i + 1)).last() == tags@[i as int]@);
        }
        i = i + 1;
    }
    proof {
        assert(tags@.take(tags@.len() as int) =~= tags@);
    }
    kept
}

/// Inserts a tag into a run of already-inserted tags, after every tag
/// that compares at or below it.
fn insert_tag(v: &mut Vec<Tag>, x: Tag)
    ensures
        tag_views(final(v)@) == spec_insert_by(tag_views(old(v)@), x@, tag_leq()),
{
    let ghost s = tag_views(v@);
    let mut k: usize = v.len();
    while k > 0 && !tag_le_exec(&v[k - 1], &x)
        invariant
            k <= v@.len(),
            s == tag_views(v@),
            forall|j: int| k <= j < s.len() ==> !tag_leq()(#[trigger] s[j], x@),
        decreases k,
    {
        k = k - 1;
    }
    proof {
        lemma_insert_by_shape(s, x@, tag_leq(), k as int);
    }
    v.insert(k, x);
    proof {
        assert(tag_views(v@) =~= s.take(k as int).push(x@) + s.skip(k as int));
    }
}

/// Sorts tags under the tag order, stably.
fn sort_tags_vec(tags: Vec<Tag>) -> (r: Vec<Tag>)
    ensures
        tag_views(r@) == spec_sort_by(tag_views(tags@), tag_leq()),
{
    let ghost orig = tag_views(tags@);
    let mut rest = tags;
    let mut sorted: Vec<Tag> = Vec::new();
    proof {
        assert(tag_views(rest@) =~= orig.skip(0));
        assert(tag_views(sorted@) =~= spec_sort_by(orig.take(0), tag_leq()));
    }
    while rest.len() > 0
        invariant
            tag_views(rest@) == orig.skip(orig.len() - rest@.len()),
            rest@.len() <= orig.len(),
            tag_views(sorted@) == spec_sort_by(orig.take(orig.len() - rest@.len()), tag_leq()),
        decreases rest@.len(),
    {
        let ghost k = orig.len() - rest@.len();
        let ghost pre = rest@;
        let x = rest.remove(0);
        proof {
            assert(x@ == orig[k]) by {
                assert(tag_views(pre)[0] == orig.skip(k)[0]);
                assert(orig.skip(k)[0] == orig[k]);
            }
            assert(rest@ =~= pre.skip(1));
            assert forall|j: int| 0 <= j < rest@.len() implies tag_views(rest@)[j] == orig.skip(
                k + 1,
            )[j] by {
                assert(rest@[j] == pre[j + 1]);
                assert(tag_views(pre)[j + 1] == orig.skip(k)[j + 1]);
                assert(orig.skip(k)[j + 1] == orig[k + 1 + j]);
                assert(orig.skip(k + 1)[j] == orig[k + 1 + j]);
            }
            assert(tag_views(rest@) =~= orig.skip(k + 1));
            assert(orig.take(k + 1).drop_last() =~= orig.take(k));
            assert(orig.take(k + 1).last() == orig[k]);
        }
        insert_tag(&mut sorted, x);
        proof {
            assert(tag_views(sorted@) == spec_sort_by(orig.take(k + 1), tag_leq()));
        }
    }
    proof {
        assert(orig.take(orig.len() as int) =~= orig);
    }
    sorted
}

impl Formatter {
    /// Opens a builder with every option switched on.
    pub fn builder() -> (r: FormatterBuilder)
        ensures
            r == (FormatterBuilder {
                format_title: true,
                skip_empty_tags: true,
                sort_entries: true,
                sort_tags: true,
            }),
    {
        FormatterBuilder::default()
    }

    /// Renders a whole collection, sorted first when `sort_entries` is
    /// set, with a blank line between kind groups and before every
    /// reference entry.
    pub fn format_entries(&self, entries: &Entries) -> (r: String)
        ensures
            r@ == fmt_entries(*self, entries@),
    {
        let mut list = entries.clone();
        if self.sort_entries {
            list.sort();
        }
        let ghost es = entry_views(list.0@);
        let items = list.iter();
        let n = items.len();
        let mut out = String::new();
        let mut i: usize = 0;
        proof {
            assert(es.skip(0) =~= es);
            assert(Seq::<char>::empty() + fmt_entry_list(*self, es) =~= fmt_entry_list(*self, es));
        }
        while i < n
            invariant
                n == es.len(),
                es == entry_views(items@),
                i <= n,
                fmt_entries(*self, entries@) == out@ + fmt_entry_list(*self, es.skip(i as int)),
            decreases n - i,
        {
            let piece = self.format_entry(&items[i]);
            out.append(piece.as_str());
            proof {
                assert(es.skip(i as int)[0] == es[i as int]);
                assert(es.skip(i as int).skip(1) =~= es.skip(i + 1));
            }
            if i + 1 < n {
                out.append("\n");
                let gap = {
                    let ra = entry_rank_differs(&items[i], &items[i + 1]);
                    ra
                };
                if gap {
                    out.append("\n");
                }
                proof {
                    assert(es.skip(i as int)[1] == es[i + 1]);
                    assert(entry_gap(es[i as int], es[i + 1]) == if gap {
                        "\n"@
                    } else {
                        Seq::<char>::empty()
                    });
                }
            } else {
                proof {
                    assert(es.skip(i as int).len() == 1);
                    assert(fmt_entry_list(*self, es.skip(i as int)) == fmt_entry(
                        *self,
                        es[i as int],
                    ));
                    assert(es.skip(i + 1).len() == 0);
                }
            }
            i = i + 1;
        }
        proof {
            assert(es.skip(n as int) =~= Seq::<EntryTypeV>::empty());
            assert(out@ + Seq::<char>::empty() =~= out@);
        }
        out
    }

    /// Renders one entry of any kind.
    pub fn format_entry(&self, entry: &EntryType) -> (r: String)
        ensures
            r@ == fmt_entry(*self, entry@),
    {
        match entry {
            EntryType::CommentEntry(e) => self.format_comment_entry(e),
            EntryType::PreambleEntry(e) => self.format_preamble_entry(e),
            EntryType::RefEntry(e) => self.format_ref_entry(e),
            EntryType::StringEntry(e) => self.format_string_entry(e),
        }
    }

    /// Renders a comment entry: `@COMMENT{body}`.
    pub fn format_comment_entry(&self, entry: &CommentEntry) -> (r: String)
        ensures
            r@ == fmt_comment_entry(entry@),
    {
        let mut out = String::new();
        out.append("@COMMENT{");
        out.append(entry.body());
        out.append("}");
        proof {
            assert(out@ =~= fmt_comment_entry(entry@));
        }
        out
    }

    /// Renders a preamble entry: `@PREAMBLE{sequence}`.
    pub fn format_preamble_entry(&self, entry: &PreambleEntry) -> (r: String)
        ensures
            r@ == fmt_preamble_entry(self.format_title, entry@),
    {
        let mut out = String::new();
        out.append("@PREAMBLE{");
        let body = self.format_value_sequence("preamble", entry.body());
        out.append(body.as_str());
        out.append("}");
        proof {
            assert(out@ =~= fmt_preamble_entry(self.format_title, entry@));
        }
        out
    }

    /// Renders a reference entry: `@kind{key}` when no tag survives the
    /// empty-tag filter, else one indented line per tag, in sorted
    /// order when `sort_tags` is set.
    pub fn format_ref_entry(&self, entry: &RefEntry) -> (r: String)
        ensures
            r@ == fmt_ref_entry(*self, entry@),
    {
        let kept = kept_tags(self.skip_empty_tags, &entry.tags);
        let tags = if self.sort_tags {
            sort_tags_vec(kept)
        } else {
            kept
        };
        let ghost shown = shown_tags(*self, entry@.tags);
        proof {
            assert(tag_views(tags@) == shown);
        }
        let mut out = String::new();
        out.append("@");
        let kind = lowercased(entry.kind.as_str());
        out.append(kind.as_str());
        out.append("{");
        let key = lowercased(entry.key.as_str());
        out.append(key.as_str());
        if tags.len() == 0 {
            out.append("}");
            proof {
                assert(out@ =~= fmt_ref_entry(*self, entry@));
            }
            return out;
        }
        out.append(",\n");
        let ghost header = out@;
        let mut i: usize = 0;
        proof {
            assert(shown.skip(0) =~= shown);
            assert(header + Seq::<char>::empty() =~= header);
            assert(fmt_tag_lines(self.format_title, shown.take(0)) =~= Seq::<char>::empty());
        }
        while i < tags.len()
            invariant
                i <= tags@.len(),
                tag_views(tags@) == shown,
                out@ == header + fmt_tag_lines(self.format_title, shown.take(i as int)),
            decreases tags@.len() - i,
        {
            out.append("    ");
            let line = self.format_tag(&tags[i]);
            out.append(line.as_str());
            out.append(",\n");
            proof {
                lemma_fmt_tag_lines_snoc(self.format_title, shown.take(i as int), shown[i as int]);
                assert(shown.take(i + 1) =~= shown.take(i as int).push(shown[i as int]));
            }
            i = i + 1;
        }
        out.append("}");
        proof {
            assert(shown.take(shown.len() as int) =~= shown);
            assert(out@ =~= fmt_ref_entry(*self, entry@));
        }
        out
    }

    /// Renders a string macro: `@STRING{name = value}`.
    pub fn format_string_entry(&self, entry: &StringEntry) -> (r: String)
        ensures
            r@ == fmt_string_entry(self.format_title, entry@),
    {
        let tag = entry.tag();
        let mut out = String::new();
        out.append("@STRING{");
        let name = lowercased(tag.name.as_str());
        out.append(name.as_str());
        out.append(" = ");
        match &tag.value {
            Value::Single(s) => {
                out.append("\"");
                out.append(s.as_str());
                out.append("\"");
            },
            Value::Integer(v) => {
                out.append("\"");
                let digits = fmt_u64(*v);
                out.append(digits.as_str());
                out.append("\"");
            },
            Value::Sequence(s) => {
                let body = self.format_value_sequence(tag.name.as_str(), s);
                out.append(body.as_str());
            },
        }
        out.append("}");
        proof {
            assert(out@ =~= fmt_string_entry(self.format_title, entry@));
        }
        out
    }

    /// Renders one tag as `name = value`, the name folded to lower
    /// case.
    pub fn format_tag(&self, tag: &Tag) -> (r: String)
        ensures
            r@ == fmt_tag(self.format_title, tag@),
    {
        let name = lowercased(tag.name.as_str());
        let mut out = String::new();
        out.append(name.as_str());
        out.append(" = ");
        let value = self.format_value(name.as_str(), &tag.value);
        out.append(value.as_str());
        proof {
            assert(out@ =~= fmt_tag(self.format_title, tag@));
        }
        out
    }

    /// Renders a tag value, given the lowercased tag name that governs
    /// title protection.
    fn format_value(&self, name: &str, value: &Value) -> (r: String)
        ensures
            r@ == fmt_value(self.format_title, name@, value@),
    {
        match value {
            Value::Single(s) => {
                let mut out = String::new();
                out.append("{");
                if self.preserve_tag_casing(name) {
                    let t = format_title(s.as_str());
                    out.append(t.as_str());
                } else {
                    out.append(s.as_str());
                }
                out.append("}");
                proof {
                    assert(out@ =~= fmt_value(self.format_title, name@, value@));
                }
                out
            },
            Value::Integer(v) => fmt_u64(*v),
            Value::Sequence(s) => self.format_value_sequence(name, s),
        }
    }

    /// Renders a value sequence, parts joined by ` # `.
    fn format_value_sequence(&self, name: &str, seq: &Sequence) -> (r: String)
        ensures
            r@ == fmt_value_sequence(self.format_title, name@, seq@),
    {
        let parts = seq.parts();
        let n = parts.len();
        let ghost ps = seq@;
        let mut out = String::new();
        let mut i: usize = 0;
        proof {
            assert(ps.skip(0) =~= ps);
            assert(Seq::<char>::empty() + fmt_value_sequence(self.format_title, name@, ps)
                =~= fmt_value_sequence(self.format_title, name@, ps));
        }
        while i < n
            invariant
                n == ps.len(),
                ps == part_views(parts@),
                i <= n,
                fmt_value_sequence(self.format_title, name@, ps) == out@ + seq_sep(
                    i as int,
                    ps.skip(i as int),
                ) + fmt_value_sequence(self.format_title, name@, ps.skip(i as int)),
            decreases n - i,
        {
            let ghost out0 = out@;
            if i > 0 {
                out.append(" # ");
            }
            let piece = self.format_value_part(name, &parts[i]);
            out.append(piece.as_str());
            proof {
                let rem = ps.skip(i as int);
                assert(rem[0] == ps[i as int]);
                assert(rem.skip(1) =~= ps.skip(i + 1));
                let fp = fmt_value_part(self.format_title, name@, ps[i as int]);
                assert(out@ =~= out0 + seq_sep(i as int, rem) + fp);
                let rest = ps.skip(i + 1);
                if rest.len() == 0 {
                    assert(fmt_value_sequence(self.format_title, name@, rem) == fp);
                    assert(out0 + seq_sep(i as int, rem) + fmt_value_sequence(
                        self.format_title,
                        name@,
                        rem,
                    ) =~= out@ + seq_sep(i + 1, rest) + fmt_value_sequence(
                        self.format_title,
                        name@,
                        rest,
                    ));
                } else {
                    assert(fmt_value_sequence(self.format_title, name@, rem) == fp + " # "@
                        + fmt_value_sequence(self.format_title, name@, rest));
                    assert(out0 + seq_sep(i as int, rem) + fmt_value_sequence(
                        self.format_title,
                        name@,
                        rem,
                    ) =~= out@ + seq_sep(i + 1, rest) + fmt_value_sequence(
                        self.format_title,
                        name@,
                        rest,
                    ));
                }
            }
            i = i + 1;
        }
        proof {
            assert(ps.skip(n as int) =~= Seq::<PartV>::empty());
            assert(fmt_value_sequence(self.format_title, name@, Seq::<PartV>::empty())
                == Seq::<char>::empty());
            assert(out@ + seq_sep(n as int, ps.skip(n as int)) + Seq::<char>::empty() =~= out@);
        }
        out
    }

    /// Renders one part of a value sequence.
    fn format_value_part(&self, name: &str, part: &Part) -> (r: String)
        ensures
            r@ == fmt_value_part(self.format_title, name@, part@),
    {
        match part {
            Part::Quoted(s) => {
                let mut out = String::new();
                out.append("\"");
                if self.preserve_tag_casing(name) {
                    let t = format_title(s.as_str());
                    out.append(t.as_str());
                } else {
                    out.append(s.as_str());
                }
                out.append("\"");
                proof {
                    assert(out@ =~= fmt_value_part(self.format_title, name@, part@));
                }
                out
            },
            Part::Value(v) => lowercased(v.as_str()),
        }
    }

    /// Whether the given tag name keeps its casing under this
    /// formatter.
    fn preserve_tag_casing(&self, name: &str) -> (r: bool)
        ensures
            r == preserve_casing(self.format_title, name@),
    {
        self.format_title && eq_str(name, "title")
    }
}

/// Whether no two tags of `ts` share a lowercased name.
pub open spec fn distinct_tag_names(ts: Seq<TagV>) -> bool {
    forall|i: int, j: int|
        0 <= i < j < ts.len() ==> lower_seq(#[trigger] ts[i].name) != lower_seq(
            #[trigger] ts[j].name,
        )
}

/// Law: among tags ordered under the tag order, with no two tags
/// sharing a name, a tag named `title` stands first and a tag named
/// `author` second, whatever the other names are.
pub proof fn lemma_tag_order_title_author(ts: Seq<TagV>)
    requires
        sorted_by(ts, tag_leq()),
        distinct_tag_names(ts),
        exists|i: int| 0 <= i < ts.len() && lower_seq(#[trigger] ts[i].name) == "title"@,
        exists|i: int| 0 <= i < ts.len() && lower_seq(#[trigger] ts[i].name) == "author"@,
    ensures
        ts.len() >= 2,
        lower_seq(ts[0].name) == "title"@,
        lower_seq(ts[1].name) == "author"@,
{
    reveal_strlit("title");
    reveal_strlit("author");
    assert("title"@ != "author"@) by {
        assert("title"@.len() == 5);
        assert("author"@.len() == 6);
    }
    let it = choose|i: int| 0 <= i < ts.len() && lower_seq(#[trigger] ts[i].name) == "title"@;
    let ia = choose|i: int| 0 <= i < ts.len() && lower_seq(#[trigger] ts[i].name) == "author"@;
    assert(it != ia);
    assert(it == 0) by {
        if it > 0 {
            assert(tag_leq()(ts[0], ts[it]));
            let l0 = lower_seq(ts[0].name);
            assert(tag_name_le(l0, "title"@));
            assert(tag_name_rank("title"@) == 0);
            assert(l0 == "title"@);
        }
    }
    assert(ia >= 1);
    assert(ts.len() >= 2);
    assert(ia == 1) by {
        if ia > 1 {
            assert(tag_leq()(ts[1], ts[ia]));
            let l1 = lower_seq(ts[1].name);
            assert(tag_name_le(l1, "author"@));
            assert(tag_name_rank("author"@) == 1);
            if tag_name_rank(l1) == 0 {
                assert(l1 == "title"@);
                assert(lower_seq(ts[0].name) == lower_seq(ts[1].name));
            } else {
                assert(tag_name_rank(l1) == 1);
                assert(l1 == "author"@);
                assert(lower_seq(ts[1].name) == lower_seq(ts[ia].name));
            }
        }
    }
}

proof fn lemma_filter_elem_in(ts: Seq<TagV>, p: spec_fn(TagV) -> bool, i: int)
    requires
        0 <= i < ts.filter(p).len(),
    ensures
        exists|k: int| 0 <= k < ts.len() && ts[k] == ts.filter(p)[i],
    decreases ts.len(),
{
    reveal(Seq::filter);
    if ts.len() > 0 {
        let dl = ts.drop_last();
        if p(ts.last()) && i == ts.filter(p).len() - 1 {
            assert(ts[ts.len() - 1] == ts.filter(p)[i]);
        } else {
            lemma_filter_elem_in(dl, p, i);
            let k = choose|k: int| 0 <= k < dl.len() && dl[k] == dl.filter(p)[i];
            assert(ts[k] == ts.filter(p)[i]);
        }
    }
}

proof fn lemma_filter_distinct(ts: Seq<TagV>, p: spec_fn(TagV) -> bool)
    requires
        distinct_tag_names(ts),
    ensures
        distinct_tag_names(ts.filter(p)),
    decreases ts.len(),
{
    reveal(Seq::filter);
    if ts.len() > 0 {
        let dl = ts.drop_last();
        assert(distinct_tag_names(dl)) by {
            assert forall|i: int, j: int| 0 <= i < j < dl.len() implies lower_seq(
                #[trigger] dl[i].name,
            ) != lower_seq(#[trigger] dl[j].name) by {
                assert(dl[i] == ts[i] && dl[j] == ts[j]);
            }
        }
        lemma_filter_distinct(dl, p);
        let f = ts.filter(p);
        assert forall|i: int, j: int| 0 <= i < j < f.len() implies lower_seq(#[trigger] f[i].name)
            != lower_seq(#[trigger] f[j].name) by {
            if p(ts.last()) && j == f.len() - 1 && f == dl.filter(p).push(ts.last()) {
                assert(f[j] == ts.last());
                assert(f[i] == dl.filter(p)[i]);
                lemma_filter_elem_in(dl, p, i);
                let k = choose|k: int| 0 <= k < dl.len() && dl[k] == dl.filter(p)[i];
                assert(lower_seq(ts[k].name) != lower_seq(ts[ts.len() - 1].name));
            } else {
                assert(f[i] == dl.filter(p)[i] && f[j] == dl.filter(p)[j]);
            }
        }
    }
}

/// Law: when tags are sorted, the tag block a reference entry shows
/// places its `title` tag first and its `author` tag second, whatever
/// the input order; the entry's tag names must be distinct and the two
/// tags must survive the empty-tag filter.
pub proof fn lemma_shown_tags_title_author(fmt: Formatter, tags: Seq<TagV>)
    requires
        fmt.sort_tags,
        distinct_tag_names(tags),
        exists|i: int|
            0 <= i < tags.len() && lower_seq(#[trigger] tags[i].name) == "title"@ && (
            fmt.skip_empty_tags ==> !value_is_empty(tags[i].value)),
        exists|i: int|
            0 <= i < tags.len() && lower_seq(#[trigger] tags[i].name) == "author"@ && (
            fmt.skip_empty_tags ==> !value_is_empty(tags[i].value)),
    ensures
        shown_tags(fmt, tags).len() >= 2,
        lower_seq(shown_tags(fmt, tags)[0].name) == "title"@,
        lower_seq(shown_tags(fmt, tags)[1].name) == "author"@,
{
    broadcast use vstd::seq_lib::group_to_multiset_ensures;

    let kept = if fmt.skip_empty_tags {
        tags.filter(tag_keep())
    } else {
        tags
    };
    let it = choose|i: int|
        0 <= i < tags.len() && lower_seq(#[trigger] tags[i].name) == "title"@ && (
        fmt.skip_empty_tags ==> !value_is_empty(tags[i].value));
    let ia = choose|i: int|
        0 <= i < tags.len() && lower_seq(#[trigger] tags[i].name) == "author"@ && (
        fmt.skip_empty_tags ==> !value_is_empty(tags[i].value));
    assert(kept.contains(tags[it])) by {
        if fmt.skip_empty_tags {
            tags.lemma_filter_contains(tag_keep(), it);
        }
    }
    assert(kept.contains(tags[ia])) by {
        if fmt.skip_empty_tags {
            tags.lemma_filter_contains(tag_keep(), ia);
        }
    }
    assert(distinct_tag_names(kept)) by {
        if fmt.skip_empty_tags {
            lemma_filter_distinct(tags, tag_keep());
        }
    }
    let sorted = shown_tags(fmt, tags);
    assert(sorted == spec_sort_by(kept, tag_leq()));
    assert(total_preorder(tag_leq())) by {
        assert forall|a: TagV, b: TagV| #[trigger]
            tag_leq()(a, b) || #[trigger] tag_leq()(b, a) by {
            lemma_tag_name_le_total(lower_seq(a.name), lower_seq(b.name));
        }
        assert forall|a: TagV, b: TagV, c: TagV|
            #[trigger] tag_leq()(a, b) && #[trigger] tag_leq()(b, c) implies #[trigger] tag_leq()(
            a,
            c,
        ) by {
            lemma_tag_name_le_trans(lower_seq(a.name), lower_seq(b.name), lower_seq(c.name));
        }
    }
    lemma_sort_by_sorted(kept, tag_leq());
    lemma_sort_by_multiset(kept, tag_leq());
    assert(sorted.contains(tags[it])) by {
        assert(kept.to_multiset().count(tags[it]) >= 1);
    }
    assert(sorted.contains(tags[ia])) by {
        assert(kept.to_multiset().count(tags[ia]) >= 1);
    }
    assert(distinct_tag_names(sorted)) by {
        assert forall|i: int, j: int| 0 <= i < j < sorted.len() implies lower_seq(
            #[trigger] sorted[i].name,
        ) != lower_seq(#[trigger] sorted[j].name) by {
            if lower_seq(sorted[i].name) == lower_seq(sorted[j].name) {
                if sorted[i] == sorted[j] {
                    lemma_dup_count(sorted, i, j);
                    lemma_count_two_indices(kept, sorted[i]);
                    let (a, b) = choose|a: int, b: int|
                        0 <= a < b < kept.len() && kept[a] == sorted[i] && kept[b] == sorted[i];
                    assert(lower_seq(kept[a].name) != lower_seq(kept[b].name));
                } else {
                    assert(sorted.to_multiset().count(sorted[i]) >= 1) by {
                        assert(sorted.contains(sorted[i]));
                    }
                    assert(sorted.to_multiset().count(sorted[j]) >= 1) by {
                        assert(sorted.contains(sorted[j]));
                    }
                    assert(kept.contains(sorted[i]));
                    assert(kept.contains(sorted[j]));
                    let a = choose|a: int| 0 <= a < kept.len() && kept[a] == sorted[i];
                    let b = choose|b: int| 0 <= b < kept.len() && kept[b] == sorted[j];
                    assert(a != b);
                    assert(lower_seq(kept[a].name) != lower_seq(kept[b].name));
                }
            }
        }
    }
    let si = choose|i: int| 0 <= i < sorted.len() && sorted[i] == tags[it];
    let sa = choose|i: int| 0 <= i < sorted.len() && sorted[i] == tags[ia];
    assert(lower_seq(sorted[si].name) == "title"@);
    assert(lower_seq(sorted[sa].name) == "author"@);
    lemma_tag_order_title_author(sorted);
}

/// The separator owed before the parts still to be written.
spec fn seq_sep(idx: int, ps: Seq<PartV>) -> Seq<char> {
    if idx > 0 && ps.len() > 0 {
        " # "@
    } else {
        Seq::empty()
    }
}

proof fn lemma_fmt_tag_lines_snoc(ft: bool, ts: Seq<TagV>, t: TagV)
    ensures
        fmt_tag_lines(ft, ts.push(t)) == fmt_tag_lines(ft, ts) + "    "@ + fmt_tag(ft, t) + ",\n"@,
    decreases ts.len(),
{
    if ts.len() == 0 {
        assert(ts.push(t)[0] == t);
        assert(ts.push(t).skip(1) =~= Seq::<TagV>::empty());
        assert(fmt_tag_lines(ft, Seq::<TagV>::empty()) == Seq::<char>::empty());
        assert(fmt_tag_lines(ft, ts.push(t)) == "    "@ + fmt_tag(ft, t) + ",\n"@ + Seq::<
            char,
        >::empty());
        assert(fmt_tag_lines(ft, ts) + "    "@ + fmt_tag(ft, t) + ",\n"@ =~= "    "@ + fmt_tag(
            ft,
            t,
        ) + ",\n"@ + Seq::<char>::empty());
    } else {
        assert(ts.push(t)[0] == ts[0]);
        assert(ts.push(t).skip(1) =~= ts.skip(1).push(t));
        lemma_fmt_tag_lines_snoc(ft, ts.skip(1), t);
        assert(fmt_tag_lines(ft, ts.push(t)) == "    "@ + fmt_tag(ft, ts[0]) + ",\n"@
            + fmt_tag_lines(ft, ts.skip(1).push(t)));
        assert("    "@ + fmt_tag(ft, ts[0]) + ",\n"@ + (fmt_tag_lines(ft, ts.skip(1)) + "    "@
            + fmt_tag(ft, t) + ",\n"@) =~= ("    "@ + fmt_tag(ft, ts[0]) + ",\n"@ + fmt_tag_lines(
            ft,
            ts.skip(1),
        )) + "    "@ + fmt_tag(ft, t) + ",\n"@);
    }
}

/// Whether two consecutive entries take a blank line between them.
fn entry_rank_differs(a: &EntryType, b: &EntryType) -> (r: bool)
    ensures
        r == (entry_rank(a@) != entry_rank(b@) || b@ is RefEntry),
{
    let ra: u8 = match a {
        EntryType::PreambleEntry(_) => 0,
        EntryType::StringEntry(_) => 1,
        EntryType::CommentEntry(_) => 2,
        EntryType::RefEntry(_) => 3,
    };
    let rb: u8 = match b {
        EntryType::PreambleEntry(_) => 0,
        EntryType::StringEntry(_) => 1,
        EntryType::CommentEntry(_) => 2,
        EntryType::RefEntry(_) => 3,
    };
    ra != rb || matches!(b, EntryType::RefEntry(_))
}

/// Picks the formatter's options one by one; every option starts
/// switched on.
#[derive(Debug, PartialEq, Eq, Structural)]
pub struct FormatterBuilder {
    pub format_title: bool,
    pub skip_empty_tags: bool,
    pub sort_entries: bool,
    pub sort_tags: bool,
}

impl Default for FormatterBuilder {
    /// Every option starts switched on.
    fn default() -> (r: FormatterBuilder)
        ensures
            r == (FormatterBuilder {
                format_title: true,
                skip_empty_tags: true,
                sort_entries: true,
                sort_tags: true,
            }),
    {
        FormatterBuilder {
            format_title: true,
            skip_empty_tags: true,
            sort_entries: true,
            sort_tags: true,
        }
    }
}

impl FormatterBuilder {
    /// Opens a builder with every option switched on.
    pub fn new() -> (r: FormatterBuilder)
        ensures
            r == (FormatterBuilder {
                format_title: true,
                skip_empty_tags: true,
                sort_entries: true,
                sort_tags: true,
            }),
    {
        FormatterBuilder::default()
    }

    /// Closes the builder into a formatter with the chosen options.
    pub fn build(self) -> (r: Formatter)
        ensures
            r == (Formatter {
                format_title: self.format_title,
                skip_empty_tags: self.skip_empty_tags,
                sort_entries: self.sort_entries,
                sort_tags: self.sort_tags,
            }),
    {
        Formatter {
            format_title: self.format_title,
            skip_empty_tags: self.skip_empty_tags,
            sort_entries: self.sort_entries,
            sort_tags: self.sort_tags,
        }
    }

    /// Chooses whether titles are protected with braces.
    pub fn format_title(self, format_title: bool) -> (r: FormatterBuilder)
        ensures
            r == (FormatterBuilder { format_title, ..self }),
    {
        FormatterBuilder { format_title, ..self }
    }

    /// Chooses whether empty tags are dropped from output.
    pub fn skip_empty_tags(self, skip_empty_tags: bool) -> (r: FormatterBuilder)
        ensures
            r == (FormatterBuilder { skip_empty_tags, ..self }),
    {
        FormatterBuilder { skip_empty_tags, ..self }
    }

    /// Chooses whether entries are sorted.
    pub fn sort_entries(self, sort_entries: bool) -> (r: FormatterBuilder)
        ensures
            r == (FormatterBuilder { sort_entries, ..self }),
    {
        FormatterBuilder { sort_entries, ..self }
    }

    /// Chooses whether tags are sorted inside reference entries.
    pub fn sort_tags(self, sort_tags: bool) -> (r: FormatterBuilder)
        ensures
            r == (FormatterBuilder { sort_tags, ..self }),
    {
        FormatterBuilder { sort_tags, ..self }
    }
}

} // verus!
