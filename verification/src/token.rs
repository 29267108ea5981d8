//! The token model: the seven special characters, the whitespace kinds,
//! opaque value runs, and source positions, together with the tokenizer
//! that turns a character stream into positioned tokens.

use vstd::prelude::*;
use vstd::string::StrSliceExecFns;
use vstd::string::StringExecFns;

use crate::strutil::is_whitespace;
use crate::strutil::push_char;

verus! {

/// The seven characters that carry structural meaning in BibTeX.
#[derive(Clone, Copy, Debug, PartialEq, Eq, Structural)]
pub enum Special {
    At,
    BraceLeft,
    BraceRight,
    Comma,
    Equals,
    Pound,
    Quote,
}

/// Whether `c` is one of the seven special characters.
pub open spec fn is_special_char(c: char) -> bool {
    c == '@' || c == '{' || c == '}' || c == ',' || c == '=' || c == '#' || c == '"'
}

/// The special token for a character, if it is special.
pub open spec fn special_from_char(c: char) -> Option<Special> {
    if c == '@' {
        Some(Special::At)
    } else if c == '{' {
        Some(Special::BraceLeft)
    } else if c == '}' {
        Some(Special::BraceRight)
    } else if c == ',' {
        Some(Special::Comma)
    } else if c == '=' {
        Some(Special::Equals)
    } else if c == '#' {
        Some(Special::Pound)
    } else if c == '"' {
        Some(Special::Quote)
    } else {
        None
    }
}

/// The character a special token stands for.
pub open spec fn special_char(s: Special) -> char {
    match s {
        Special::At => '@',
        Special::BraceLeft => '{',
        Special::BraceRight => '}',
        Special::Comma => ',',
        Special::Equals => '=',
        Special::Pound => '#',
        Special::Quote => '"',
    }
}

impl Special {
    /// Classifies a character as one of the special tokens.
    pub fn from(c: &char) -> (r: Option<Special>)
        ensures
            r == special_from_char(*c),
    {
        match *c {
            '@' => Some(Special::At),
            '{' => Some(Special::BraceLeft),
            '}' => Some(Special::BraceRight),
            ',' => Some(Special::Comma),
            '=' => Some(Special::Equals),
            '#' => Some(Special::Pound),
            '"' => Some(Special::Quote),
            _ => None,
        }
    }

    /// Whether the character is one of the seven special characters.
    pub fn is_special(c: &char) -> (r: bool)
        ensures
            r == is_special_char(*c),
    {
        matches!(*c, '@' | '{' | '}' | ',' | '=' | '#' | '"')
    }

    /// The character this token stands for.
    pub fn as_char(&self) -> (r: char)
        ensures
            r == special_char(*self),
    {
        match self {
            Special::At => '@',
            Special::BraceLeft => '{',
            Special::BraceRight => '}',
            Special::Comma => ',',
            Special::Equals => '=',
            Special::Pound => '#',
            Special::Quote => '"',
        }
    }
}

/// The three whitespace kinds the tokenizer distinguishes.
#[derive(Clone, Copy, Debug, PartialEq, Eq, Structural)]
pub enum Whitespace {
    NewLine,
    Space,
    Tab,
}

/// Whether `c` ends a line.
pub open spec fn is_newline_char(c: char) -> bool {
    c == '\n' || c == '\r'
}

/// Whether `c` is whitespace to the tokenizer.
pub open spec fn is_whitespace_char(c: char) -> bool {
    c == ' ' || c == '\t' || is_newline_char(c)
}

/// The whitespace token for a character, if it is whitespace.
pub open spec fn whitespace_from_char(c: char) -> Option<Whitespace> {
    if is_newline_char(c) {
        Some(Whitespace::NewLine)
    } else if c == '\t' {
        Some(Whitespace::Tab)
    } else if c == ' ' {
        Some(Whitespace::Space)
    } else {
        None
    }
}

/// The character a whitespace token is rendered as.
pub open spec fn whitespace_char(w: Whitespace) -> char {
    match w {
        Whitespace::NewLine => '\n',
        Whitespace::Space => ' ',
        Whitespace::Tab => '\t',
    }
}

impl Whitespace {
    /// Classifies a character as one of the whitespace tokens.
    pub fn from(c: &char) -> (r: Option<Whitespace>)
        ensures
            r == whitespace_from_char(*c),
    {
        match *c {
            '\n' | '\r' => Some(Whitespace::NewLine),
            '\t' => Some(Whitespace::Tab),
            ' ' => Some(Whitespace::Space),
            _ => None,
        }
    }

    /// The character this token is rendered as.
    pub fn as_char(&self) -> (r: char)
        ensures
            r == whitespace_char(*self),
    {
        match self {
            Whitespace::NewLine => '\n',
            Whitespace::Space => ' ',
            Whitespace::Tab => '\t',
        }
    }
}

/// Whether `c` belongs to a value run: neither special nor whitespace.
pub open spec fn is_value_char(c: char) -> bool {
    !is_special_char(c) && !is_whitespace_char(c)
}

/// A lexical token: a special character, a maximal run of value
/// characters, or a single whitespace character.
#[derive(Debug, PartialEq, Eq)]
pub enum Token {
    Special(Special),
    Value(String),
    Whitespace(Whitespace),
}

/// The mathematical shape of a token: value runs become character
/// sequences.
pub enum TokenV {
    Special(Special),
    Value(Seq<char>),
    Whitespace(Whitespace),
}

impl View for Token {
    type V = TokenV;

    open spec fn view(&self) -> TokenV {
        match self {
            Token::Special(s) => TokenV::Special(*s),
            Token::Value(v) => TokenV::Value(v@),
            Token::Whitespace(w) => TokenV::Whitespace(*w),
        }
    }
}

impl Clone for Token {
    /// A clone carries the same token, character for character.
    fn clone(&self) -> (r: Token)
        ensures
            r@ == self@,
    {
        match self {
            Token::Special(s) => Token::Special(*s),
            Token::Value(v) => Token::Value(v.clone()),
            Token::Whitespace(w) => Token::Whitespace(*w),
        }
    }
}

/// The text a token stands for. A `NewLine` renders as `'\n'` whatever
/// line-ending character produced it.
pub open spec fn token_text(t: TokenV) -> Seq<char> {
    match t {
        TokenV::Special(s) => seq![special_char(s)],
        TokenV::Value(v) => v,
        TokenV::Whitespace(w) => seq![whitespace_char(w)],
    }
}

/// The concatenation of the texts of a sequence of tokens.
pub open spec fn tokens_text(ts: Seq<TokenV>) -> Seq<char>
    decreases ts.len(),
{
    if ts.len() == 0 {
        Seq::empty()
    } else {
        token_text(ts[0]) + tokens_text(ts.skip(1))
    }
}

/// A 1-indexed source location, advanced over every consumed character.
#[derive(Clone, Copy, Debug, PartialEq, Eq, Structural)]
pub struct Position {
    pub line: u32,
    pub column: u32,
}

impl Position {
    /// Builds a position from its line and column.
    pub fn new(line: u32, column: u32) -> (r: Position)
        ensures
            r == (Position { line, column }),
    {
        Position { line, column }
    }
}

/// Where a character stream starts: line 1, column 1.
pub open spec fn start_position() -> Position {
    Position { line: 1u32, column: 1u32 }
}

/// The position after consuming `c` at position `p`: a newline opens the
/// next line at column 1, any other character moves one column right.
pub open spec fn advance_position(p: Position, c: char) -> Position {
    if is_newline_char(c) {
        Position { line: (p.line + 1) as u32, column: 1u32 }
    } else {
        Position { line: p.line, column: (p.column + 1) as u32 }
    }
}

/// The position after consuming all of `s` starting at `p`.
pub open spec fn advance_position_seq(p: Position, s: Seq<char>) -> Position
    decreases s.len(),
{
    if s.len() == 0 {
        p
    } else {
        advance_position_seq(advance_position(p, s[0]), s.skip(1))
    }
}

/// A token together with the position of its first character.
#[derive(Debug, PartialEq, Eq)]
pub struct TokenInfo {
    pub value: Token,
    pub position: Position,
}

/// The mathematical shape of a positioned token.
pub struct TokenInfoV {
    pub value: TokenV,
    pub position: Position,
}

impl View for TokenInfo {
    type V = TokenInfoV;

    open spec fn view(&self) -> TokenInfoV {
        TokenInfoV { value: self.value@, position: self.position }
    }
}

impl Clone for TokenInfo {
    /// A clone carries the same token and position.
    fn clone(&self) -> (r: TokenInfo)
        ensures
            r@ == self@,
    {
        TokenInfo { value: self.value.clone(), position: self.position }
    }
}

impl TokenInfo {
    /// Pairs a token with a position.
    pub fn new(value: Token, position: Position) -> (r: TokenInfo)
        ensures
            r@ == (TokenInfoV { value: value@, position }),
    {
        TokenInfo { value, position }
    }

    /// Whether this token is a special character.
    pub fn is_special(&self) -> (r: bool)
        ensures
            r == self@.value is Special,
    {
        matches!(self.value, Token::Special(_))
    }

    /// Whether this token is a value run.
    pub fn is_value(&self) -> (r: bool)
        ensures
            r == self@.value is Value,
    {
        matches!(self.value, Token::Value(_))
    }

    /// Whether this token is whitespace.
    pub fn is_whitespace(&self) -> (r: bool)
        ensures
            r == self@.value is Whitespace,
    {
        matches!(self.value, Token::Whitespace(_))
    }
}

/// The token shapes of a sequence of tokens.
pub open spec fn token_views(ts: Seq<Token>) -> Seq<TokenV> {
    ts.map_values(|t: Token| t@)
}

/// The shapes of a sequence of positioned tokens.
pub open spec fn token_info_views(ts: Seq<TokenInfo>) -> Seq<TokenInfoV> {
    ts.map_values(|t: TokenInfo| t@)
}

/// The tokens of a sequence of positioned tokens, positions dropped.
pub open spec fn token_values(ts: Seq<TokenInfoV>) -> Seq<TokenV> {
    ts.map_values(|t: TokenInfoV| t.value)
}

/// The length of the maximal prefix of `s` made of value characters.
pub open spec fn value_run_len(s: Seq<char>) -> nat
    decreases s.len(),
{
    if s.len() > 0 && is_value_char(s[0]) {
        1 + value_run_len(s.skip(1))
    } else {
        0
    }
}

proof fn lemma_value_run(s: Seq<char>)
    ensures
        value_run_len(s) <= s.len(),
        forall|j: int| 0 <= j < value_run_len(s) ==> is_value_char(#[trigger] s[j]),
        value_run_len(s) < s.len() ==> !is_value_char(s[value_run_len(s) as int]),
    decreases s.len(),
{
    if s.len() > 0 && is_value_char(s[0]) {
        lemma_value_run(s.skip(1));
        let n = value_run_len(s);
        assert forall|j: int| 0 <= j < n implies is_value_char(#[trigger] s[j]) by {
            if j > 0 {
                assert(is_value_char(s.skip(1)[j - 1]));
            }
        }
        if n < s.len() {
            assert(!is_value_char(s.skip(1)[n - 1]));
        }
    }
}

/// The positioned tokens a text yields, starting at position `p`: each
/// character is classified as special, whitespace, or the start of a
/// maximal value run, and each token carries the position of its first
/// character.
pub open spec fn spec_tokenize(s: Seq<char>, p: Position) -> Seq<TokenInfoV>
    decreases s.len(),
    via spec_tokenize_decreases
{
    if s.len() == 0 {
        Seq::empty()
    } else {
        let c = s[0];
        if special_from_char(c) is Some {
            seq![TokenInfoV { value: TokenV::Special(special_from_char(c)->Some_0), position: p }]
                + spec_tokenize(s.skip(1), advance_position(p, c))
        } else if whitespace_from_char(c) is Some {
            seq![
                TokenInfoV {
                    value: TokenV::Whitespace(whitespace_from_char(c)->Some_0),
                    position: p,
                },
            ] + spec_tokenize(s.skip(1), advance_position(p, c))
        } else {
            let n = value_run_len(s) as int;
            seq![TokenInfoV { value: TokenV::Value(s.take(n)), position: p }] + spec_tokenize(
                s.skip(n),
                advance_position_seq(p, s.take(n)),
            )
        }
    }
}

#[via_fn]
proof fn spec_tokenize_decreases(s: Seq<char>, p: Position) {
    if s.len() > 0 {
        lemma_value_run(s);
    }
}

proof fn lemma_advance_position_seq_snoc(p: Position, s: Seq<char>, c: char)
    ensures
        advance_position_seq(p, s.push(c)) == advance_position(advance_position_seq(p, s), c),
    decreases s.len(),
{
    if s.len() == 0 {
        assert(s.push(c)[0] == c);
        assert(s.push(c).skip(1) =~= Seq::<char>::empty());
        assert(advance_position_seq(p, s.push(c)) == advance_position_seq(
            advance_position(p, c),
            s.push(c).skip(1),
        ));
        assert(advance_position_seq(advance_position(p, c), Seq::<char>::empty())
            == advance_position(p, c));
        assert(advance_position_seq(p, s) == p);
    } else {
        assert(s.push(c)[0] == s[0]);
        assert(s.push(c).skip(1) =~= s.skip(1).push(c));
        assert(advance_position_seq(p, s.push(c)) == advance_position_seq(
            advance_position(p, s[0]),
            s.skip(1).push(c),
        ));
        lemma_advance_position_seq_snoc(advance_position(p, s[0]), s.skip(1), c);
        assert(advance_position_seq(p, s) == advance_position_seq(
            advance_position(p, s[0]),
            s.skip(1),
        ));
    }
}

proof fn lemma_advance_position_seq_bounds(p: Position, s: Seq<char>)
    requires
        p.line + s.len() <= u32::MAX,
        p.column + s.len() <= u32::MAX,
    ensures
        advance_position_seq(p, s).line <= p.line + s.len(),
        advance_position_seq(p, s).column <= p.column + s.len(),
    decreases s.len(),
{
    if s.len() > 0 {
        lemma_advance_position_seq_bounds(advance_position(p, s[0]), s.skip(1));
    }
}

/// The longest input the tokenizer accepts, in characters; the bound
/// keeps line and column numbers within 32 bits.
pub const MAX_INPUT_LEN: usize = 0xFFF0_0000;

/// A single-pass cursor over a text that hands out characters while
/// tracking the source position of the last and the next character.
pub struct Tokenizer<'a> {
    pub text: &'a str,
    pub length: usize,
    pub idx: usize,
    pub last: Position,
    pub next: Position,
}

impl<'a> Tokenizer<'a> {
    /// The cursor is inside the text, its length is recorded, and the
    /// position of the next character follows from the consumed prefix.
    pub open spec fn wf(&self) -> bool {
        &&& self.length == self.text@.len()
        &&& self.text@.len() <= MAX_INPUT_LEN
        &&& self.idx <= self.length
        &&& self.next == advance_position_seq(start_position(), self.text@.take(self.idx as int))
    }

    /// The characters not yet consumed.
    pub open spec fn remaining(&self) -> Seq<char> {
        self.text@.skip(self.idx as int)
    }

    /// Opens a cursor at the start of a text.
    pub fn new(text: &'a str) -> (r: Tokenizer<'a>)
        requires
            text@.len() <= MAX_INPUT_LEN,
        ensures
            r.wf(),
            r.text@ == text@,
            r.idx == 0,
            r.next == start_position(),
    {
        let length = text.unicode_len();
        proof {
            assert(text@.take(0) =~= Seq::<char>::empty());
        }
        Tokenizer {
            text,
            length,
            idx: 0,
            last: Position { line: 1, column: 1 },
            next: Position { line: 1, column: 1 },
        }
    }

    /// The next character, without consuming it.
    pub fn peek(&self) -> (r: Option<char>)
        requires
            self.wf(),
        ensures
            r == (if self.idx < self.text@.len() {
                Some(self.text@[self.idx as int])
            } else {
                Option::<char>::None
            }),
    {
        if self.idx < self.length {
            Some(self.text.get_char(self.idx))
        } else {
            None
        }
    }

    /// Consumes one character; `last` then holds the position of the
    /// consumed character and `next` the position after it.
    pub fn next(&mut self) -> (r: Option<char>)
        requires
            old(self).wf(),
        ensures
            final(self).wf(),
            final(self).text == old(self).text,
            old(self).idx < old(self).text@.len() ==> {
                &&& r == Some(old(self).text@[old(self).idx as int])
                &&& final(self).idx == old(self).idx + 1
                &&& final(self).last == old(self).next
                &&& final(self).next == advance_position(
                    old(self).next,
                    old(self).text@[old(self).idx as int],
                )
            },
            old(self).idx >= old(self).text@.len() ==> r is None && *final(self) == *old(self),
    {
        if self.idx < self.length {
            let c = self.text.get_char(self.idx);
            proof {
                lemma_advance_position_seq_bounds(
                    start_position(),
                    self.text@.take(self.idx as int),
                );
            }
            self.last = self.next;
            if c == '\n' || c == '\r' {
                self.next.line = self.next.line + 1;
                self.next.column = 1;
            } else {
                self.next.column = self.next.column + 1;
            }
            proof {
                assert(self.text@.take(self.idx + 1) =~= self.text@.take(self.idx as int).push(c));
                lemma_advance_position_seq_snoc(
                    start_position(),
                    self.text@.take(self.idx as int),
                    c,
                );
            }
            self.idx = self.idx + 1;
            Some(c)
        } else {
            None
        }
    }

    /// Reads the whole remaining text into positioned tokens.
    pub fn tokenize(&mut self) -> (tokens: Vec<TokenInfo>)
        requires
            old(self).wf(),
        ensures
            final(self).wf(),
            token_info_views(tokens@) == spec_tokenize(old(self).remaining(), old(self).next),
            final(self).idx == final(self).length,
    {
        let mut tokens: Vec<TokenInfo> = Vec::new();
        let ghost text0 = self.text@;
        let ghost s0 = self.remaining();
        let ghost p0 = self.next;
        proof {
            assert(token_info_views(tokens@) + spec_tokenize(s0, p0) =~= spec_tokenize(s0, p0));
        }
        loop
            invariant
                self.wf(),
                self.text@ == text0,
                token_info_views(tokens@) + spec_tokenize(self.remaining(), self.next)
                    == spec_tokenize(s0, p0),
            ensures
                self.wf(),
                self.text@ == text0,
                self.idx == self.length,
                token_info_views(tokens@) == spec_tokenize(s0, p0),
            decreases self.length - self.idx,
        {
            let ghost pre = *self;
            let copt = self.next();
            match copt {
                None => {
                    proof {
                        assert(self.remaining() =~= Seq::<char>::empty());
                        assert(token_info_views(tokens@) + Seq::<TokenInfoV>::empty()
                            =~= token_info_views(tokens@));
                    }
                    break ;
                },
                Some(c) => {
                    proof {
                        assert(pre.remaining()[0] == c);
                        assert(self.remaining() =~= pre.remaining().skip(1));
                    }
                    let token = if let Some(token_type) = Special::from(&c) {
                        TokenInfo::new(Token::Special(token_type), self.last)
                    } else if let Some(token_type) = Whitespace::from(&c) {
                        TokenInfo::new(Token::Whitespace(token_type), self.last)
                    } else {
                        let mut value = String::new();
                        let position = self.last;
                        let ghost run = value_run_len(pre.remaining());
                        proof {
                            lemma_value_run(pre.remaining());
                            assert(pre.remaining().take(1) =~= Seq::<char>::empty().push(c));
                        }
                        push_char(&mut value, c);
                        proof {
                            assert(value@ =~= pre.remaining().take(1));
                            assert(pre.remaining().take(1).skip(1) =~= Seq::<char>::empty());
                            assert(advance_position_seq(pre.next, pre.remaining().take(1))
                                == advance_position_seq(
                                advance_position(pre.next, c),
                                pre.remaining().take(1).skip(1),
                            ));
                            assert(advance_position_seq(
                                advance_position(pre.next, c),
                                Seq::<char>::empty(),
                            ) == advance_position(pre.next, c));
                        }
                        loop
                            invariant
                                self.wf(),
                                self.text@ == text0,
                                1 <= value@.len() <= run,
                                run == value_run_len(pre.remaining()),
                                run <= pre.remaining().len(),
                                forall|j: int|
                                    0 <= j < run ==> is_value_char(#[trigger] pre.remaining()[j]),
                                run < pre.remaining().len() ==> !is_value_char(
                                    pre.remaining()[run as int],
                                ),
                                pre.wf(),
                                pre.text@ == text0,
                                self.idx == pre.idx + value@.len(),
                                value@ == pre.remaining().take(value@.len() as int),
                                self.next == advance_position_seq(
                                    pre.next,
                                    pre.remaining().take(value@.len() as int),
                                ),
                            ensures
                                self.wf(),
                                self.text@ == text0,
                                value@ == pre.remaining().take(run as int),
                                self.idx == pre.idx + run,
                                self.next == advance_position_seq(
                                    pre.next,
                                    pre.remaining().take(run as int),
                                ),
                            decreases self.length - self.idx,
                        {
                            let ghost m = value@.len() as int;
                            proof {
                                assert(pre.idx + m <= text0.len());
                            }
                            match self.peek() {
                                None => {
                                    proof {
                                        assert(m == pre.remaining().len());
                                        assert(m == run);
                                    }
                                    break ;
                                },
                                Some(c2) => {
                                    proof {
                                        assert(c2 == pre.remaining()[m]);
                                    }
                                    if Special::is_special(&c2) || is_whitespace(c2) {
                                        proof {
                                            assert(!is_value_char(pre.remaining()[m]));
                                            assert(m == run);
                                        }
                                        break ;
                                    }
                                    proof {
                                        assert(is_value_char(pre.remaining()[m]));
                                        assert(m < run) by {
                                            if m >= run {
                                                assert(run < pre.remaining().len());
                                                assert(m == run);
                                            }
                                        }
                                    }
                                    let copt2 = self.next();
                                    match copt2 {
                                        Some(c3) => {
                                            push_char(&mut value, c3);
                                            proof {
                                                assert(c3 == c2);
                                                assert(pre.remaining().take(m + 1)
                                                    =~= pre.remaining().take(m).push(c2));
                                                lemma_advance_position_seq_snoc(
                                                    pre.next,
                                                    pre.remaining().take(m),
                                                    c2,
                                                );
                                            }
                                        },
                                        None => {
                                            proof {
                                                assert(false);
                                            }
                                        },
                                    }
                                },
                            }
                        }
                        TokenInfo::new(Token::Value(value), position)
                    };
                    proof {
                        let r_pre = pre.remaining();
                        let views = token_info_views(tokens@);
                        let tv = token@;
                        assert(token_info_views(tokens@.push(token)) =~= views.push(tv));
                        let head = spec_tokenize(r_pre, pre.next)[0];
                        assert(spec_tokenize(r_pre, pre.next) == seq![head] + spec_tokenize(
                            self.remaining(),
                            self.next,
                        )) by {
                            if special_from_char(c) is Some || whitespace_from_char(c) is Some {
                                assert(self.remaining() =~= r_pre.skip(1));
                            } else {
                                let n = value_run_len(r_pre) as int;
                                lemma_value_run(r_pre);
                                assert(self.remaining() =~= r_pre.skip(n));
                            }
                        }
                        assert(tv == head);
                        assert(views.push(tv) + spec_tokenize(self.remaining(), self.next)
                            =~= views + spec_tokenize(r_pre, pre.next));
                    }
                    tokens.push(token);
                },
            }
        }
        tokens
    }
}

/// Writes a token sequence back to text: each token contributes exactly
/// its own literal text.
pub fn stringify(tokens: Vec<Token>) -> (r: String)
    ensures
        r@ == tokens_text(token_views(tokens@)),
{
    let mut string = String::new();
    let mut i: usize = 0;
    proof {
        assert(token_views(tokens@.take(0)) =~= Seq::<TokenV>::empty());
    }
    while i < tokens.len()
        invariant
            i <= tokens@.len(),
            string@ == tokens_text(token_views(tokens@.take(i as int))),
        decreases tokens@.len() - i,
    {
        match &tokens[i] {
            Token::Special(c) => {
                push_char(&mut string, c.as_char());
            },
            Token::Value(s) => {
                string.append(s.as_str());
            },
            Token::Whitespace(c) => {
                push_char(&mut string, c.as_char());
            },
        }
        proof {
            assert(token_views(tokens@.take(i + 1)) =~= token_views(tokens@.take(i as int)).push(
                tokens@[i as int]@,
            ));
            lemma_tokens_text_snoc(token_views(tokens@.take(i as int)), tokens@[i as int]@);
        }
        i = i + 1;
    }
    proof {
        assert(tokens@.take(tokens@.len() as int) =~= tokens@);
    }
    string
}

proof fn lemma_tokens_text_singleton(t: TokenV)
    ensures
        tokens_text(seq![t]) == token_text(t),
{
    assert(seq![t].skip(1) =~= Seq::<TokenV>::empty());
    assert(tokens_text(seq![t]) == token_text(t) + tokens_text(Seq::<TokenV>::empty()));
    assert(tokens_text(Seq::<TokenV>::empty()) == Seq::<char>::empty());
    assert(token_text(t) + Seq::<char>::empty() =~= token_text(t));
}

proof fn lemma_tokens_text_snoc(ts: Seq<TokenV>, t: TokenV)
    ensures
        tokens_text(ts.push(t)) == tokens_text(ts) + token_text(t),
    decreases ts.len(),
{
    if ts.len() == 0 {
        assert(ts.push(t) =~= seq![t]);
        lemma_tokens_text_singleton(t);
        assert(tokens_text(ts) == Seq::<char>::empty());
        assert(Seq::<char>::empty() + token_text(t) =~= token_text(t));
    } else {
        assert(ts.push(t)[0] == ts[0]);
        assert(ts.push(t).skip(1) =~= ts.skip(1).push(t));
        assert(tokens_text(ts.push(t)) == token_text(ts[0]) + tokens_text(ts.skip(1).push(t)));
        lemma_tokens_text_snoc(ts.skip(1), t);
        assert(tokens_text(ts) == token_text(ts[0]) + tokens_text(ts.skip(1)));
        assert(token_text(ts[0]) + (tokens_text(ts.skip(1)) + token_text(t)) =~= (token_text(ts[0])
            + tokens_text(ts.skip(1))) + token_text(t));
    }
}

/// `c` with a carriage return replaced by a line feed; every other
/// character is itself.
pub open spec fn normal_char(c: char) -> char {
    if c == '\r' {
        '\n'
    } else {
        c
    }
}

/// `s` with carriage returns replaced by line feeds.
pub open spec fn normal_seq(s: Seq<char>) -> Seq<char> {
    s.map_values(|c: char| normal_char(c))
}

/// Law: the texts of the tokens read from `s`, concatenated in order,
/// are `s` itself with each carriage return written as a line feed; no
/// character is dropped, duplicated or reordered.
pub proof fn lemma_tokenize_text(s: Seq<char>, p: Position)
    ensures
        tokens_text(token_values(spec_tokenize(s, p))) == normal_seq(s),
    decreases s.len(),
{
    if s.len() == 0 {
        assert(token_values(spec_tokenize(s, p)) =~= Seq::<TokenV>::empty());
        assert(normal_seq(s) =~= Seq::<char>::empty());
    } else {
        let c = s[0];
        if special_from_char(c) is Some || whitespace_from_char(c) is Some {
            let head = spec_tokenize(s, p)[0];
            let rest = spec_tokenize(s.skip(1), advance_position(p, c));
            assert(token_values(spec_tokenize(s, p)) =~= seq![head.value] + token_values(rest));
            lemma_tokens_text_concat(seq![head.value], token_values(rest));
            lemma_tokenize_text(s.skip(1), advance_position(p, c));
            lemma_tokens_text_singleton(head.value);
            assert(token_text(head.value) =~= seq![normal_char(c)]);
            assert(seq![normal_char(c)] + normal_seq(s.skip(1)) =~= normal_seq(s));
        } else {
            let n = value_run_len(s) as int;
            lemma_value_run(s);
            let head = spec_tokenize(s, p)[0];
            let rest = spec_tokenize(s.skip(n), advance_position_seq(p, s.take(n)));
            assert(token_values(spec_tokenize(s, p)) =~= seq![head.value] + token_values(rest));
            lemma_tokens_text_concat(seq![head.value], token_values(rest));
            lemma_tokenize_text(s.skip(n), advance_position_seq(p, s.take(n)));
            lemma_tokens_text_singleton(head.value);
            assert(token_text(head.value) =~= s.take(n));
            assert(s.take(n) + normal_seq(s.skip(n)) =~= normal_seq(s));
        }
    }
}

proof fn lemma_tokens_text_concat(a: Seq<TokenV>, b: Seq<TokenV>)
    ensures
        tokens_text(a + b) == tokens_text(a) + tokens_text(b),
    decreases a.len(),
{
    if a.len() == 0 {
        assert(a + b =~= b);
        assert(tokens_text(a) + tokens_text(b) =~= tokens_text(b));
    } else {
        assert((a + b)[0] == a[0]);
        assert((a + b).skip(1) =~= a.skip(1) + b);
        lemma_tokens_text_concat(a.skip(1), b);
        assert(token_text(a[0]) + (tokens_text(a.skip(1)) + tokens_text(b)) =~= (token_text(a[0])
            + tokens_text(a.skip(1))) + tokens_text(b));
    }
}

/// Law: reading a text into tokens and writing the tokens back yields
/// the original text, character for character, for every text without
/// a carriage return.
pub proof fn lemma_tokenize_round_trip(s: Seq<char>, p: Position)
    requires
        forall|i: int| 0 <= i < s.len() ==> s[i] != '\r',
    ensures
        tokens_text(token_values(spec_tokenize(s, p))) == s,
{
    lemma_tokenize_text(s, p);
    assert(normal_seq(s) =~= s);
}

} // verus!
