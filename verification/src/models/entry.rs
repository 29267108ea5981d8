//! The four entry kinds a BibTeX file holds — preambles, string macros,
//! comments and reference entries — and the ordered collection of them,
//! with its stable sort.

use vstd::prelude::*;
use vstd::relations::sorted_by;

use crate::models::tag::Tag;
use crate::models::tag::TagV;
use crate::models::tag::PartV;
use crate::models::tag::Sequence;
use crate::models::tag::tag_le;
use crate::models::tag::tag_le_exec;
use crate::models::tag::tag_views;
use crate::models::tag::lemma_tag_name_le_total;
use crate::models::tag::lemma_tag_name_le_trans;
use crate::sorting::lemma_insert_by_shape;
use crate::sorting::lemma_sort_by_filter;
use crate::sorting::lemma_sort_by_multiset;
use crate::sorting::lemma_sort_by_of_sorted;
use crate::sorting::lemma_sort_by_sorted;
use crate::sorting::spec_insert_by;
use crate::sorting::spec_sort_by;
use crate::sorting::total_preorder;
use crate::strutil::lex_le;
use crate::strutil::lower_seq;
use crate::strutil::lowercased;
use crate::strutil::str_le;
use crate::strutil::lemma_lex_le_total;
use crate::strutil::lemma_lex_le_trans;

verus! {

/// What every entry kind has in common: a place in the collection.
pub trait Entry {

}

/// A bibliographic record: `@kind{key, name = value, ...}`; kind and
/// key are folded to lower case when the entry is built.
#[derive(Debug, PartialEq, Eq)]
pub struct RefEntry {
    pub kind: String,
    pub key: String,
    pub tags: Vec<Tag>,
}

/// The mathematical shape of a reference entry.
pub struct RefEntryV {
    pub kind: Seq<char>,
    pub key: Seq<char>,
    pub tags: Seq<TagV>,
}

impl View for RefEntry {
    type V = RefEntryV;

    open spec fn view(&self) -> RefEntryV {
        RefEntryV { kind: self.kind@, key: self.key@, tags: tag_views(self.tags@) }
    }
}

impl Entry for RefEntry {

}

impl Clone for RefEntry {
    /// A clone carries the same kind, key and tags.
    fn clone(&self) -> (r: RefEntry)
        ensures
            r@ == self@,
    {
        let mut tags: Vec<Tag> = Vec::new();
        let mut i: usize = 0;
        proof {
            assert(tag_views(tags@) =~= tag_views(self.tags@.take(0)));
        }
        while i < self.tags.len()
            invariant
                i <= self.tags@.len(),
                tag_views(tags@) == tag_views(self.tags@.take(i as int)),
            decreases self.tags@.len() - i,
        {
            tags.push(self.tags[i].clone());
            proof {
                assert(tag_views(tags@) =~= tag_views(self.tags@.take(i as int)).push(
                    self.tags@[i as int]@,
                ));
                assert(tag_views(self.tags@.take(i + 1)) =~= tag_views(
                    self.tags@.take(i as int),
                ).push(self.tags@[i as int]@));
            }
            i = i + 1;
        }
        proof {
            assert(self.tags@.take(self.tags@.len() as int) =~= self.tags@);
        }
        RefEntry { kind: self.kind.clone(), key: self.key.clone(), tags }
    }
}

impl RefEntry {
    /// Builds a record; kind and key are folded to lower case.
    pub fn new(kind: String, key: String, tags: Vec<Tag>) -> (r: RefEntry)
        ensures
            r@.kind == lower_seq(kind@),
            r@.key == lower_seq(key@),
            r@.tags == tag_views(tags@),
    {
        RefEntry { kind: lowercased(kind.as_str()), key: lowercased(key.as_str()), tags }
    }
}

/// An opaque `@comment{...}` payload, kept as written.
#[derive(Debug, PartialEq, Eq)]
pub struct CommentEntry(pub String);

impl View for CommentEntry {
    type V = Seq<char>;

    open spec fn view(&self) -> Seq<char> {
        self.0@
    }
}

impl Entry for CommentEntry {

}

impl Clone for CommentEntry {
    /// A clone carries the same body.
    fn clone(&self) -> (r: CommentEntry)
        ensures
            r@ == self@,
    {
        CommentEntry(self.0.clone())
    }
}

impl CommentEntry {
    /// Wraps a comment body.
    pub fn new(body: String) -> (r: CommentEntry)
        ensures
            r@ == body@,
    {
        CommentEntry(body)
    }

    /// The comment body, as written.
    pub fn body(&self) -> (r: &str)
        ensures
            r@ == self@,
    {
        self.0.as_str()
    }
}

/// A `@preamble{...}` block: a value sequence passed through.
#[derive(Debug, PartialEq, Eq)]
pub struct PreambleEntry(pub Sequence);

impl View for PreambleEntry {
    type V = Seq<PartV>;

    open spec fn view(&self) -> Seq<PartV> {
        self.0@
    }
}

impl Entry for PreambleEntry {

}

impl Clone for PreambleEntry {
    /// A clone carries the same parts.
    fn clone(&self) -> (r: PreambleEntry)
        ensures
            r@ == self@,
    {
        PreambleEntry(self.0.clone())
    }
}

impl PreambleEntry {
    /// Wraps a preamble body.
    pub fn new(parts: Sequence) -> (r: PreambleEntry)
        ensures
            r@ == parts@,
    {
        PreambleEntry(parts)
    }

    /// The preamble body.
    pub fn body(&self) -> (r: &Sequence)
        ensures
            r@ == self@,
    {
        &self.0
    }
}

/// A `@string{name = value}` macro definition: exactly one tag.
#[derive(Debug, PartialEq, Eq)]
pub struct StringEntry(pub Tag);

impl View for StringEntry {
    type V = TagV;

    open spec fn view(&self) -> TagV {
        self.0@
    }
}

impl Entry for StringEntry {

}

impl Clone for StringEntry {
    /// A clone carries the same tag.
    fn clone(&self) -> (r: StringEntry)
        ensures
            r@ == self@,
    {
        StringEntry(self.0.clone())
    }
}

impl StringEntry {
    /// Wraps the macro's one tag.
    pub fn new(tag: Tag) -> (r: StringEntry)
        ensures
            r@ == tag@,
    {
        StringEntry(tag)
    }

    /// The macro's tag.
    pub fn tag(&self) -> (r: &Tag)
        ensures
            r@ == self@,
    {
        &self.0
    }
}

/// One entry of any of the four kinds. The order of the variants is the
/// order of the kind groups in sorted output.
#[derive(Debug, PartialEq, Eq)]
pub enum EntryType {
    PreambleEntry(PreambleEntry),
    StringEntry(StringEntry),
    CommentEntry(CommentEntry),
    RefEntry(RefEntry),
}

/// The mathematical shape of an entry.
pub enum EntryTypeV {
    PreambleEntry(Seq<PartV>),
    StringEntry(TagV),
    CommentEntry(Seq<char>),
    RefEntry(RefEntryV),
}

impl View for EntryType {
    type V = EntryTypeV;

    open spec fn view(&self) -> EntryTypeV {
        match self {
            EntryType::PreambleEntry(e) => EntryTypeV::PreambleEntry(e@),
            EntryType::StringEntry(e) => EntryTypeV::StringEntry(e@),
            EntryType::CommentEntry(e) => EntryTypeV::CommentEntry(e@),
            EntryType::RefEntry(e) => EntryTypeV::RefEntry(e@),
        }
    }
}

impl Clone for EntryType {
    /// A clone carries the same entry.
    fn clone(&self) -> (r: EntryType)
        ensures
            r@ == self@,
    {
        match self {
            EntryType::PreambleEntry(e) => EntryType::PreambleEntry(e.clone()),
            EntryType::StringEntry(e) => EntryType::StringEntry(e.clone()),
            EntryType::CommentEntry(e) => EntryType::CommentEntry(e.clone()),
            EntryType::RefEntry(e) => EntryType::RefEntry(e.clone()),
        }
    }
}

/// The shapes of a sequence of entries.
pub open spec fn entry_views(s: Seq<EntryType>) -> Seq<EntryTypeV> {
    s.map_values(|e: EntryType| e@)
}

/// Where an entry's kind sorts: preamble, string, comment, reference.
pub open spec fn entry_rank(e: EntryTypeV) -> int {
    match e {
        EntryTypeV::PreambleEntry(_) => 0,
        EntryTypeV::StringEntry(_) => 1,
        EntryTypeV::CommentEntry(_) => 2,
        EntryTypeV::RefEntry(_) => 3,
    }
}

/// The entry order: by kind group first; within a group, preambles all
/// tie (they keep file order), string macros order by their tag's name,
/// comments by their body, and reference entries by their cite key.
pub open spec fn entry_le(a: EntryTypeV, b: EntryTypeV) -> bool {
    if entry_rank(a) != entry_rank(b) {
        entry_rank(a) < entry_rank(b)
    } else {
        match (a, b) {
            (EntryTypeV::PreambleEntry(_), EntryTypeV::PreambleEntry(_)) => true,
            (EntryTypeV::StringEntry(x), EntryTypeV::StringEntry(y)) => tag_le(x, y),
            (EntryTypeV::CommentEntry(x), EntryTypeV::CommentEntry(y)) => lex_le(x, y),
            (EntryTypeV::RefEntry(x), EntryTypeV::RefEntry(y)) => lex_le(x.key, y.key),
            _ => true,
        }
    }
}

/// The entry order as a function value, for use with the sort.
pub open spec fn entry_leq() -> spec_fn(EntryTypeV, EntryTypeV) -> bool {
    |a: EntryTypeV, b: EntryTypeV| entry_le(a, b)
}

/// What sorting a collection yields: a stable insertion sort under the
/// entry order.
pub open spec fn spec_sort_entries(s: Seq<EntryTypeV>) -> Seq<EntryTypeV> {
    spec_sort_by(s, entry_leq())
}

/// The entry order admits any two entries one way or the other and is
/// transitive, so sorting under it is meaningful.
pub proof fn lemma_entry_le_total_preorder()
    ensures
        total_preorder(entry_leq()),
{
    assert forall|a: EntryTypeV, b: EntryTypeV| #[trigger]
        entry_leq()(a, b) || #[trigger] entry_leq()(b, a) by {
        if entry_rank(a) == entry_rank(b) {
            match (a, b) {
                (EntryTypeV::StringEntry(x), EntryTypeV::StringEntry(y)) => {
                    lemma_tag_name_le_total(lower_seq(x.name), lower_seq(y.name));
                },
                (EntryTypeV::CommentEntry(x), EntryTypeV::CommentEntry(y)) => {
                    lemma_lex_le_total(x, y);
                },
                (EntryTypeV::RefEntry(x), EntryTypeV::RefEntry(y)) => {
                    lemma_lex_le_total(x.key, y.key);
                },
                _ => {},
            }
        }
    }
    assert forall|a: EntryTypeV, b: EntryTypeV, c: EntryTypeV|
        #[trigger] entry_leq()(a, b) && #[trigger] entry_leq()(b, c) implies #[trigger] entry_leq()(
        a,
        c,
    ) by {
        if entry_rank(a) == entry_rank(b) && entry_rank(b) == entry_rank(c) {
            match (a, b, c) {
                (
                    EntryTypeV::StringEntry(x),
                    EntryTypeV::StringEntry(y),
                    EntryTypeV::StringEntry(z),
                ) => {
                    lemma_tag_name_le_trans(
                        lower_seq(x.name),
                        lower_seq(y.name),
                        lower_seq(z.name),
                    );
                },
                (
                    EntryTypeV::CommentEntry(x),
                    EntryTypeV::CommentEntry(y),
                    EntryTypeV::CommentEntry(z),
                ) => {
                    lemma_lex_le_trans(x, y, z);
                },
                (EntryTypeV::RefEntry(x), EntryTypeV::RefEntry(y), EntryTypeV::RefEntry(z)) => {
                    lemma_lex_le_trans(x.key, y.key, z.key);
                },
                _ => {},
            }
        }
    }
}

/// Decides the entry order on two entries.
pub fn entry_le_exec(a: &EntryType, b: &EntryType) -> (r: bool)
    ensures
        r == entry_le(a@, b@),
{
    let ra = entry_rank_exec(a);
    let rb = entry_rank_exec(b);
    if ra != rb {
        return ra < rb;
    }
    match (a, b) {
        (EntryType::PreambleEntry(_), EntryType::PreambleEntry(_)) => true,
        (EntryType::StringEntry(x), EntryType::StringEntry(y)) => tag_le_exec(&x.0, &y.0),
        (EntryType::CommentEntry(x), EntryType::CommentEntry(y)) => str_le(
            x.0.as_str(),
            y.0.as_str(),
        ),
        (EntryType::RefEntry(x), EntryType::RefEntry(y)) => str_le(
            x.key.as_str(),
            y.key.as_str(),
        ),
        _ => true,
    }
}

fn entry_rank_exec(e: &EntryType) -> (r: u8)
    ensures
        r as int == entry_rank(e@),
{
    match e {
        EntryType::PreambleEntry(_) => 0,
        EntryType::StringEntry(_) => 1,
        EntryType::CommentEntry(_) => 2,
        EntryType::RefEntry(_) => 3,
    }
}

/// Inserts an entry into a run of already-inserted entries, after every
/// entry that compares at or below it.
fn insert_entry(v: &mut Vec<EntryType>, x: EntryType)
    ensures
        entry_views(final(v)@) == spec_insert_by(entry_views(old(v)@), x@, entry_leq()),
{
    let ghost s = entry_views(v@);
    let mut k: usize = v.len();
    while k > 0 && !entry_le_exec(&v[k - 1], &x)
        invariant
            k <= v@.len(),
            s == entry_views(v@),
            forall|j: int| k <= j < s.len() ==> !entry_leq()(#[trigger] s[j], x@),
        decreases k,
    {
        k = k - 1;
    }
    proof {
        lemma_insert_by_shape(s, x@, entry_leq(), k as int);
    }
    v.insert(k, x);
    proof {
        assert(entry_views(v@) =~= s.take(k as int).push(x@) + s.skip(k as int));
    }
}

/// The ordered collection of all parsed entries, in source order until
/// it is sorted.
#[derive(Debug, PartialEq, Eq)]
pub struct Entries(pub Vec<EntryType>);

impl View for Entries {
    type V = Seq<EntryTypeV>;

    open spec fn view(&self) -> Seq<EntryTypeV> {
        entry_views(self.0@)
    }
}

impl Clone for Entries {
    /// A clone carries the same entries in the same order.
    fn clone(&self) -> (r: Entries)
        ensures
            r@ == self@,
    {
        let mut entries: Vec<EntryType> = Vec::new();
        let mut i: usize = 0;
        proof {
            assert(entry_views(entries@) =~= entry_views(self.0@.take(0)));
        }
        while i < self.0.len()
            invariant
                i <= self.0@.len(),
                entry_views(entries@) == entry_views(self.0@.take(i as int)),
            decreases self.0@.len() - i,
        {
            entries.push(self.0[i].clone());
            proof {
                assert(entry_views(entries@) =~= entry_views(self.0@.take(i as int)).push(
                    self.0@[i as int]@,
                ));
                assert(entry_views(self.0@.take(i + 1)) =~= entry_views(
                    self.0@.take(i as int),
                ).push(self.0@[i as int]@));
            }
            i = i + 1;
        }
        proof {
            assert(self.0@.take(self.0@.len() as int) =~= self.0@);
        }
        Entries(entries)
    }
}

impl Entries {
    /// Wraps a list of entries, in the given order.
    pub fn new(entries: Vec<EntryType>) -> (r: Entries)
        ensures
            r@ == entry_views(entries@),
    {
        Entries(entries)
    }

    /// The entries themselves, in order.
    pub fn iter(&self) -> (r: &Vec<EntryType>)
        ensures
            entry_views(r@) == self@,
    {
        &self.0
    }

    /// Sorts the collection under the entry order, stably: entries that
    /// compare as ties — among them any two preambles — keep their
    /// relative source order.
    pub fn sort(&mut self)
        ensures
            final(self)@ == spec_sort_entries(old(self)@),
    {
        let ghost orig = entry_views(self.0@);
        let mut sorted: Vec<EntryType> = Vec::new();
        proof {
            assert(entry_views(self.0@) =~= orig.skip(0));
            assert(entry_views(sorted@) =~= spec_sort_by(orig.take(0), entry_leq()));
        }
        while self.0.len() > 0
            invariant
                entry_views(self.0@) == orig.skip(orig.len() - self.0@.len()),
                self.0@.len() <= orig.len(),
                entry_views(sorted@) == spec_sort_by(
                    orig.take(orig.len() - self.0@.len()),
                    entry_leq(),
                ),
            decreases self.0@.len(),
        {
            let ghost k = orig.len() - self.0@.len();
            let ghost pre = self.0@;
            let x = self.0.remove(0);
            proof {
                assert(x@ == orig[k]) by {
                    assert(entry_views(pre)[0] == orig.skip(k)[0]);
                    assert(orig.skip(k)[0] == orig[k]);
                }
                assert(self.0@ =~= pre.skip(1));
                assert forall|j: int| 0 <= j < self.0@.len() implies entry_views(self.0@)[j]
                    == orig.skip(k + 1)[j] by {
                    assert(self.0@[j] == pre[j + 1]);
                    assert(entry_views(pre)[j + 1] == orig.skip(k)[j + 1]);
                    assert(orig.skip(k)[j + 1] == orig[k + 1 + j]);
                    assert(orig.skip(k + 1)[j] == orig[k + 1 + j]);
                }
                assert(entry_views(self.0@) =~= orig.skip(k + 1));
                assert(orig.take(k + 1).drop_last() =~= orig.take(k));
                assert(orig.take(k + 1).last() == orig[k]);
            }
            insert_entry(&mut sorted, x);
            proof {
                assert(entry_views(sorted@) == spec_sort_by(orig.take(k + 1), entry_leq()));
            }
        }
        proof {
            assert(orig.take(orig.len() as int) =~= orig);
        }
        self.0 = sorted;
    }
}

/// Whether an entry is a preamble.
pub open spec fn is_preamble() -> spec_fn(EntryTypeV) -> bool {
    |e: EntryTypeV| e is PreambleEntry
}

/// Law: sorting yields a sequence that is ordered under the entry
/// order and holds exactly the entries that went in.
pub proof fn lemma_sort_entries_sorted(s: Seq<EntryTypeV>)
    ensures
        sorted_by(spec_sort_entries(s), entry_leq()),
        spec_sort_entries(s).to_multiset() == s.to_multiset(),
{
    lemma_entry_le_total_preorder();
    lemma_sort_by_sorted(s, entry_leq());
    lemma_sort_by_multiset(s, entry_leq());
}

/// Law: sorting is a fixed point — sorting a collection a second time
/// changes nothing.
pub proof fn lemma_sort_entries_idempotent(s: Seq<EntryTypeV>)
    ensures
        spec_sort_entries(spec_sort_entries(s)) == spec_sort_entries(s),
{
    lemma_entry_le_total_preorder();
    lemma_sort_by_sorted(s, entry_leq());
    lemma_sort_by_of_sorted(spec_sort_entries(s), entry_leq());
}

/// Law: sorting keeps the preamble entries in their original relative
/// order — the subsequence of preambles is unchanged.
pub proof fn lemma_sort_entries_preamble_order(s: Seq<EntryTypeV>)
    ensures
        spec_sort_entries(s).filter(is_preamble()) == s.filter(is_preamble()),
{
    assert forall|a: EntryTypeV, b: EntryTypeV| #[trigger]
        is_preamble()(a) && #[trigger] is_preamble()(b) implies entry_leq()(a, b) by {}
    lemma_sort_by_filter(s, entry_leq(), is_preamble());
}

} // verus!
