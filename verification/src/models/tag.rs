//! Tags and tag values: a tag is a `name = value` pair; a value is a
//! delimited string, a bare integer, or a `#`-joined sequence of quoted
//! strings and macro references.

use vstd::prelude::*;

use crate::strutil::eq_str;
use crate::strutil::lex_le;
use crate::strutil::lower_seq;
use crate::strutil::lowercased;
use crate::strutil::str_le;
use crate::strutil::trim_seq;
use crate::strutil::trimmed;
use crate::strutil::lemma_lex_le_total;
use crate::strutil::lemma_lex_le_trans;

verus! {

/// One piece of a value sequence: a quoted string or a bare macro
/// reference.
#[derive(Debug, PartialEq, Eq)]
pub enum Part {
    Quoted(String),
    Value(String),
}

/// The mathematical shape of a part.
pub enum PartV {
    Quoted(Seq<char>),
    Value(Seq<char>),
}

impl View for Part {
    type V = PartV;

    open spec fn view(&self) -> PartV {
        match self {
            Part::Quoted(s) => PartV::Quoted(s@),
            Part::Value(s) => PartV::Value(s@),
        }
    }
}

impl Clone for Part {
    /// A clone carries the same part, character for character.
    fn clone(&self) -> (r: Part)
        ensures
            r@ == self@,
    {
        match self {
            Part::Quoted(s) => Part::Quoted(s.clone()),
            Part::Value(s) => Part::Value(s.clone()),
        }
    }
}

/// Whether a part holds no characters.
pub open spec fn part_is_empty(p: PartV) -> bool {
    match p {
        PartV::Quoted(s) => s.len() == 0,
        PartV::Value(s) => s.len() == 0,
    }
}

impl Part {
    /// Whether this part holds no characters.
    pub fn is_empty(&self) -> (r: bool)
        ensures
            r == part_is_empty(self@),
    {
        match self {
            Part::Quoted(s) => s.as_str().is_empty(),
            Part::Value(s) => s.as_str().is_empty(),
        }
    }
}

/// The shapes of a sequence of parts.
pub open spec fn part_views(s: Seq<Part>) -> Seq<PartV> {
    s.map_values(|p: Part| p@)
}

/// An ordered list of parts joined by `#` in source form.
#[derive(Debug, PartialEq, Eq)]
pub struct Sequence(pub Vec<Part>);

impl View for Sequence {
    type V = Seq<PartV>;

    open spec fn view(&self) -> Seq<PartV> {
        part_views(self.0@)
    }
}

impl Clone for Sequence {
    /// A clone carries the same parts in the same order.
    fn clone(&self) -> (r: Sequence)
        ensures
            r@ == self@,
    {
        let mut parts: Vec<Part> = Vec::new();
        let mut i: usize = 0;
        proof {
            assert(part_views(self.0@.take(0)) =~= part_views(parts@));
        }
        while i < self.0.len()
            invariant
                i <= self.0@.len(),
                part_views(parts@) == part_views(self.0@.take(i as int)),
            decreases self.0@.len() - i,
        {
            parts.push(self.0[i].clone());
            proof {
                assert(part_views(parts@) =~= part_views(self.0@.take(i as int)).push(
                    self.0@[i as int]@,
                ));
                assert(part_views(self.0@.take(i + 1)) =~= part_views(self.0@.take(i as int)).push(
                    self.0@[i as int]@,
                ));
            }
            i = i + 1;
        }
        proof {
            assert(self.0@.take(self.0@.len() as int) =~= self.0@);
        }
        Sequence(parts)
    }
}

/// Whether every part of `ps` is empty.
pub open spec fn parts_all_empty(ps: Seq<PartV>) -> bool {
    forall|i: int| 0 <= i < ps.len() ==> part_is_empty(#[trigger] ps[i])
}

impl Sequence {
    /// Wraps a list of parts.
    pub fn new(parts: Vec<Part>) -> (r: Sequence)
        ensures
            r@ == part_views(parts@),
    {
        Sequence(parts)
    }

    /// Whether every part is empty; an empty list counts as empty.
    pub fn is_empty(&self) -> (r: bool)
        ensures
            r == parts_all_empty(self@),
    {
        let mut i: usize = 0;
        while i < self.0.len()
            invariant
                i <= self.0@.len(),
                forall|j: int| 0 <= j < i ==> part_is_empty(#[trigger] part_views(self.0@)[j]),
            decreases self.0@.len() - i,
        {
            if !self.0[i].is_empty() {
                assert(!part_is_empty(part_views(self.0@)[i as int]));
                return false;
            }
            i = i + 1;
        }
        true
    }

    /// The number of parts.
    pub fn len(&self) -> (r: usize)
        ensures
            r == self@.len(),
    {
        self.0.len()
    }

    /// The parts themselves, in order.
    pub fn parts(&self) -> (r: &Vec<Part>)
        ensures
            part_views(r@) == self@,
    {
        &self.0
    }
}

/// A tag value: one delimited string, one bare integer, or a sequence
/// of parts.
#[derive(Debug, PartialEq, Eq)]
pub enum Value {
    Single(String),
    Integer(u64),
    Sequence(Sequence),
}

/// The mathematical shape of a tag value.
pub enum ValueV {
    Single(Seq<char>),
    Integer(u64),
    Sequence(Seq<PartV>),
}

impl View for Value {
    type V = ValueV;

    open spec fn view(&self) -> ValueV {
        match self {
            Value::Single(s) => ValueV::Single(s@),
            Value::Integer(v) => ValueV::Integer(*v),
            Value::Sequence(s) => ValueV::Sequence(s@),
        }
    }
}

impl Clone for Value {
    /// A clone carries the same value.
    fn clone(&self) -> (r: Value)
        ensures
            r@ == self@,
    {
        match self {
            Value::Single(s) => Value::Single(s.clone()),
            Value::Integer(v) => Value::Integer(*v),
            Value::Sequence(s) => Value::Sequence(s.clone()),
        }
    }
}

/// Whether a value renders as nothing: a single string of bare
/// whitespace, or a sequence whose parts are all empty. An integer is
/// never empty.
pub open spec fn value_is_empty(v: ValueV) -> bool {
    match v {
        ValueV::Single(s) => trim_seq(s).len() == 0,
        ValueV::Integer(_) => false,
        ValueV::Sequence(ps) => parts_all_empty(ps),
    }
}

impl Value {
    /// Whether this value renders as nothing.
    pub fn is_empty(&self) -> (r: bool)
        ensures
            r == value_is_empty(self@),
    {
        match self {
            Value::Single(s) => trimmed(s.as_str()).as_str().is_empty(),
            Value::Integer(_) => false,
            Value::Sequence(s) => s.is_empty(),
        }
    }
}

/// A `name = value` pair; the name is folded to lower case when the
/// tag is built.
#[derive(Debug, PartialEq, Eq)]
pub struct Tag {
    pub name: String,
    pub value: Value,
}

/// The mathematical shape of a tag.
pub struct TagV {
    pub name: Seq<char>,
    pub value: ValueV,
}

impl View for Tag {
    type V = TagV;

    open spec fn view(&self) -> TagV {
        TagV { name: self.name@, value: self.value@ }
    }
}

impl Clone for Tag {
    /// A clone carries the same name and value.
    fn clone(&self) -> (r: Tag)
        ensures
            r@ == self@,
    {
        Tag { name: self.name.clone(), value: self.value.clone() }
    }
}

impl Tag {
    /// Pairs a name with a value; the name is folded to lower case.
    pub fn new(name: String, value: Value) -> (r: Tag)
        ensures
            r@.name == lower_seq(name@),
            r@.value == value@,
    {
        Tag { name: lowercased(name.as_str()), value }
    }
}

/// The shapes of a sequence of tags.
pub open spec fn tag_views(s: Seq<Tag>) -> Seq<TagV> {
    s.map_values(|t: Tag| t@)
}

/// Where a tag name sorts: `title` before `author` before everything
/// else.
pub open spec fn tag_name_rank(a: Seq<char>) -> int {
    if a == "title"@ {
        0
    } else if a == "author"@ {
        1
    } else {
        2
    }
}

/// The tag-name order: `title` first, `author` second, all other names
/// alphabetically after; equal names tie.
pub open spec fn tag_name_le(a: Seq<char>, b: Seq<char>) -> bool {
    if tag_name_rank(a) != tag_name_rank(b) {
        tag_name_rank(a) < tag_name_rank(b)
    } else {
        tag_name_rank(a) < 2 || lex_le(a, b)
    }
}

/// The tag order: by name alone, with names folded to lower case.
pub open spec fn tag_le(a: TagV, b: TagV) -> bool {
    tag_name_le(lower_seq(a.name), lower_seq(b.name))
}

pub proof fn lemma_tag_name_le_total(a: Seq<char>, b: Seq<char>)
    ensures
        tag_name_le(a, b) || tag_name_le(b, a),
{
    lemma_lex_le_total(a, b);
}

pub proof fn lemma_tag_name_le_trans(a: Seq<char>, b: Seq<char>, c: Seq<char>)
    requires
        tag_name_le(a, b),
        tag_name_le(b, c),
    ensures
        tag_name_le(a, c),
{
    if tag_name_rank(a) == tag_name_rank(b) && tag_name_rank(b) == tag_name_rank(c)
        && tag_name_rank(a) == 2 {
        lemma_lex_le_trans(a, b, c);
    }
}

/// Decides the tag order on two tags.
pub fn tag_le_exec(a: &Tag, b: &Tag) -> (r: bool)
    ensures
        r == tag_le(a@, b@),
{
    let an = lowercased(a.name.as_str());
    let bn = lowercased(b.name.as_str());
    tag_name_le_exec(an.as_str(), bn.as_str())
}

/// Decides the tag-name order on two names, as given.
pub fn tag_name_le_exec(a: &str, b: &str) -> (r: bool)
    ensures
        r == tag_name_le(a@, b@),
{
    let ra = tag_name_rank_exec(a);
    let rb = tag_name_rank_exec(b);
    if ra != rb {
        ra < rb
    } else if ra < 2 {
        true
    } else {
        str_le(a, b)
    }
}

fn tag_name_rank_exec(a: &str) -> (r: u8)
    ensures
        r as int == tag_name_rank(a@),
{
    if eq_str(a, "title") {
        0
    } else if eq_str(a, "author") {
        1
    } else {
        2
    }
}

} // verus!
