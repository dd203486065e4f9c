use vstd::prelude::*;

use crate::text::{
    chars_of, is_ws, lemma_trim_end_at, text_of, trim_end_at, trim_end_index, trimmed_span,
    trimmed_text,
};

verus! {

/// Scope of a conventional commit headline, the text between parentheses.
#[derive(Debug, Clone, PartialEq, Eq, Hash)]
pub struct CommitScope(String);

impl View for CommitScope {
    type V = Seq<char>;

    closed spec fn view(&self) -> Seq<char> {
        self.0@
    }
}

impl CommitScope {
    pub fn new(s: String) -> (r: CommitScope)
        ensures
            r@ == s@,
    {
        CommitScope(s)
    }

    pub fn as_str(&self) -> (r: &str)
        ensures
            r@ == self@,
    {
        self.0.as_str()
    }
}

impl std::str::FromStr for CommitScope {
    type Err = String;

    fn from_str(s: &str) -> Result<Self, Self::Err> {
        Ok(CommitScope(s.to_owned()))
    }
}

/// Kind of change a conventional commit announces.
#[derive(Debug, Clone, PartialEq, Eq, Hash)]
pub enum CommitType {
    ContinuousIntegration,
    Build,
    BugFix,
    Documentation,
    Feature,
    Performance,
    Refactoring,
    Style,
    Test,
    Other(String),
}

/// The nine type words with a variant of their own.
pub open spec fn is_known_word(w: Seq<char>) -> bool {
    w == seq!['b', 'u', 'i', 'l', 'd'] || w == seq!['c', 'i'] || w == seq!['d', 'o', 'c', 's']
        || w == seq!['f', 'e', 'a', 't'] || w == seq!['f', 'i', 'x'] || w == seq!['p', 'e', 'r', 'f']
        || w == seq!['r', 'e', 'f', 'a', 'c', 't', 'o', 'r'] || w == seq!['s', 't', 'y', 'l', 'e']
        || w == seq!['t', 'e', 's', 't']
}

proof fn lemma_type_words()
    ensures
        "ci"@ == seq!['c', 'i'],
        "build"@ == seq!['b', 'u', 'i', 'l', 'd'],
        "fix"@ == seq!['f', 'i', 'x'],
        "docs"@ == seq!['d', 'o', 'c', 's'],
        "feat"@ == seq!['f', 'e', 'a', 't'],
        "perf"@ == seq!['p', 'e', 'r', 'f'],
        "refactor"@ == seq!['r', 'e', 'f', 'a', 'c', 't', 'o', 'r'],
        "style"@ == seq!['s', 't', 'y', 'l', 'e'],
        "test"@ == seq!['t', 'e', 's', 't'],
{
    reveal_strlit("ci");
    reveal_strlit("build");
    reveal_strlit("fix");
    reveal_strlit("docs");
    reveal_strlit("feat");
    reveal_strlit("perf");
    reveal_strlit("refactor");
    reveal_strlit("style");
    reveal_strlit("test");
    assert("ci"@ =~= seq!['c', 'i']);
    assert("build"@ =~= seq!['b', 'u', 'i', 'l', 'd']);
    assert("fix"@ =~= seq!['f', 'i', 'x']);
    assert("docs"@ =~= seq!['d', 'o', 'c', 's']);
    assert("feat"@ =~= seq!['f', 'e', 'a', 't']);
    assert("perf"@ =~= seq!['p', 'e', 'r', 'f']);
    assert("refactor"@ =~= seq!['r', 'e', 'f', 'a', 'c', 't', 'o', 'r']);
    assert("style"@ =~= seq!['s', 't', 'y', 'l', 'e']);
    assert("test"@ =~= seq!['t', 'e', 's', 't']);
}

impl CommitType {
    /// The word that names this type in a headline.
    pub open spec fn word(&self) -> Seq<char> {
        match self {
            CommitType::ContinuousIntegration => seq!['c', 'i'],
            CommitType::Build => seq!['b', 'u', 'i', 'l', 'd'],
            CommitType::BugFix => seq!['f', 'i', 'x'],
            CommitType::Documentation => seq!['d', 'o', 'c', 's'],
            CommitType::Feature => seq!['f', 'e', 'a', 't'],
            CommitType::Performance => seq!['p', 'e', 'r', 'f'],
            CommitType::Refactoring => seq!['r', 'e', 'f', 'a', 'c', 't', 'o', 'r'],
            CommitType::Style => seq!['s', 't', 'y', 'l', 'e'],
            CommitType::Test => seq!['t', 'e', 's', 't'],
            CommitType::Other(s) => s@,
        }
    }

    /// `self` is the type that the word `w` stands for: a named variant for a
    /// known word, `Other` holding the word for any other.
    pub open spec fn denotes(&self, w: Seq<char>) -> bool {
        &&& self.word() == w
        &&& (self is Other <==> !is_known_word(w))
    }

    pub fn as_str(&self) -> (r: &str)
        ensures
            r@ == self.word(),
    {
        proof {
            lemma_type_words();
        }
        match self {
            CommitType::ContinuousIntegration => "ci",
            CommitType::Build => "build",
            CommitType::BugFix => "fix",
            CommitType::Documentation => "docs",
            CommitType::Feature => "feat",
            CommitType::Performance => "perf",
            CommitType::Refactoring => "refactor",
            CommitType::Style => "style",
            CommitType::Test => "test",
            CommitType::Other(s) => s.as_str(),
        }
    }

    /// The type a word stands for; every word stands for one.
    pub fn from_str(s: &str) -> (r: Result<CommitType, ()>)
        ensures
            r matches Ok(t) && t.denotes(s@),
    {
        proof {
            lemma_type_words();
        }
        let w = s.to_owned();
        let t = if w == "build".to_owned() {
            CommitType::Build
        } else if w == "ci".to_owned() {
            CommitType::ContinuousIntegration
        } else if w == "docs".to_owned() {
            CommitType::Documentation
        } else if w == "feat".to_owned() {
            CommitType::Feature
        } else if w == "fix".to_owned() {
            CommitType::BugFix
        } else if w == "perf".to_owned() {
            CommitType::Performance
        } else if w == "refactor".to_owned() {
            CommitType::Refactoring
        } else if w == "style".to_owned() {
            CommitType::Style
        } else if w == "test".to_owned() {
            CommitType::Test
        } else {
            CommitType::Other(w)
        };
        Ok(t)
    }
}


/// Parsed commit message following the conventional commits convention:
/// `type(scope)!: summary`, then optionally a blank line and a body, and a
/// last paragraph of `Key: value` trailer lines.
#[derive(Debug, Clone, PartialEq, Eq)]
pub struct ConventionalMessage {
    pub ctype: CommitType,
    pub scope: Option<CommitScope>,
    pub is_breaking: bool,
    pub summary: String,
    pub body: Option<String>,
    pub trailers: Vec<(String, String)>,
}

/// Why a text is not a conventional commit message.
#[derive(Debug, Clone, Copy, PartialEq, Eq)]
pub enum ParseError {
    /// The first line is not `type(scope)!: summary`.
    Headline,
    /// Text follows the headline without a blank line between.
    Layout,
}

/// Character classes of the headline and trailer grammar.
#[derive(Clone, Copy)]
pub enum CharClass {
    /// ASCII letters and digits: a commit type word.
    Word,
    /// ASCII letters, digits and `-`: a trailer key.
    Key,
    /// Anything but parentheses and line feeds: scope text.
    ScopeText,
    /// Anything but a line feed.
    Line,
}

pub open spec fn is_word_char(c: char) -> bool {
    let u = c as u32;
    (0x30 <= u && u <= 0x39) || (0x41 <= u && u <= 0x5A) || (0x61 <= u && u <= 0x7A)
}

pub open spec fn in_class(k: CharClass, c: char) -> bool {
    match k {
        CharClass::Word => is_word_char(c),
        CharClass::Key => is_word_char(c) || c == '-',
        CharClass::ScopeText => c != '(' && c != ')' && c != '\n',
        CharClass::Line => c != '\n',
    }
}

fn char_in_class(k: CharClass, c: char) -> (r: bool)
    ensures
        r == in_class(k, c),
{
    let u = c as u32;
    let word = (0x30 <= u && u <= 0x39) || (0x41 <= u && u <= 0x5A) || (0x61 <= u && u <= 0x7A);
    match k {
        CharClass::Word => word,
        CharClass::Key => word || c == '-',
        CharClass::ScopeText => c != '(' && c != ')' && c != '\n',
        CharClass::Line => c != '\n',
    }
}

/// End of the run of `k` characters of `m` that starts at `from`.
pub open spec fn run_end(m: Seq<char>, from: int, k: CharClass) -> int
    decreases m.len() - from,
{
    if from >= m.len() {
        m.len() as int
    } else if in_class(k, m[from]) {
        run_end(m, from + 1, k)
    } else {
        from
    }
}

fn run_end_index(m: &Vec<char>, from: usize, k: CharClass) -> (r: usize)
    requires
        from <= m.len(),
    ensures
        r == run_end(m@, from as int, k),
        from <= r <= m.len(),
        r < m.len() ==> !in_class(k, m@[r as int]),
{
    let mut i = from;
    while i < m.len() && char_in_class(k, m[i])
        invariant
            from <= i <= m.len(),
            run_end(m@, from as int, k) == run_end(m@, i as int, k),
        decreases m.len() - i,
    {
        i = i + 1;
    }
    i
}

/// What the headline holds, as character sequences.
pub struct HeadlineParts {
    pub ctype: Seq<char>,
    pub scope: Option<Seq<char>>,
    pub breaking: bool,
    pub summary: Seq<char>,
}

/// The headline of `m` (its first line), if it reads
/// `type(scope)!: summary` with a non-empty type word, an optional non-empty
/// scope, an optional `!` and a non-empty summary after `": "`.
pub open spec fn headline_of(m: Seq<char>) -> Option<HeadlineParts> {
    let e = run_end(m, 0, CharClass::Line);
    let k = run_end(m, 0, CharClass::Word);
    let has_scope = k < e && m[k] == '(';
    let c = run_end(m, k + 1, CharClass::ScopeText);
    let p = if has_scope { c + 1 } else { k };
    let breaking = p < e && m[p] == '!';
    let q = if breaking { p + 1 } else { p };
    if k == 0 {
        None
    } else if has_scope && !(k + 1 < c && c < e && m[c] == ')') {
        None
    } else if q + 2 < e && m[q] == ':' && m[q + 1] == ' ' {
        Some(
            HeadlineParts {
                ctype: m.subrange(0, k),
                scope: if has_scope {
                    Some(m.subrange(k + 1, c))
                } else {
                    None
                },
                breaking,
                summary: m.subrange(q + 2, e),
            },
        )
    } else {
        None
    }
}

/// Start of the last blank line separator (two line feeds) that begins in
/// `m[lo..=i]`, or `lo - 1` when there is none.
pub open spec fn last_blank_from(m: Seq<char>, lo: int, i: int) -> int
    decreases i - lo + 1,
{
    if i < lo {
        lo - 1
    } else if m[i] == '\n' && m[i + 1] == '\n' {
        i
    } else {
        last_blank_from(m, lo, i - 1)
    }
}

/// `m[lo..hi]` without surrounding whitespace, absent when nothing is left.
pub open spec fn trimmed_opt(m: Seq<char>, lo: int, hi: int) -> Option<Seq<char>> {
    let t = trimmed_span(m, lo, hi);
    if t.len() == 0 {
        None
    } else {
        Some(t)
    }
}

/// `m[lo..hi]` is one trailer line: a key, `": "`, then the value.
pub open spec fn trailer_line(m: Seq<char>, lo: int, hi: int) -> bool {
    let k = run_end(m, lo, CharClass::Key);
    k > lo && k + 1 < hi && m[k] == ':' && m[k + 1] == ' '
}

/// End of the line of `m[..hi]` that starts at `lo`.
pub open spec fn line_end_within(m: Seq<char>, lo: int, hi: int) -> int {
    let j = run_end(m, lo, CharClass::Line);
    if j < hi {
        j
    } else {
        hi
    }
}

/// Every line of the non-empty paragraph `m[lo..hi]` is a trailer line.
pub open spec fn trailer_block(m: Seq<char>, lo: int, hi: int) -> bool
    decreases hi - lo,
{
    let j = line_end_within(m, lo, hi);
    if lo >= hi {
        false
    } else {
        trailer_line(m, lo, j) && (j >= hi || trailer_block(m, j + 1, hi))
    }
}

/// The (key, value) pairs of the trailer lines of `m[lo..hi]`, the value
/// without surrounding whitespace.
pub open spec fn trailers_in(m: Seq<char>, lo: int, hi: int) -> Seq<(Seq<char>, Seq<char>)>
    decreases hi - lo,
{
    let j = line_end_within(m, lo, hi);
    let k = run_end(m, lo, CharClass::Key);
    let pair = (m.subrange(lo, k), trimmed_span(m, k + 1, j));
    if lo >= hi {
        seq![]
    } else if j < hi && trailer_line(m, lo, j) {
        seq![pair] + trailers_in(m, j + 1, hi)
    } else {
        seq![pair]
    }
}

/// What follows the headline.
pub struct TailParts {
    pub body: Option<Seq<char>>,
    pub trailers: Seq<(Seq<char>, Seq<char>)>,
}

/// The body and trailers of `m`, whose headline ends at `e`. Only whitespace
/// may follow the headline, or else a blank line and then the rest: its last
/// paragraph is the trailers if each of its lines is a trailer line, and what
/// comes before, trimmed, is the body.
pub open spec fn tail_of(m: Seq<char>, e: int) -> Option<TailParts> {
    let z = trim_end_at(m, e, m.len() as int);
    let c0 = e + 2;
    let b = last_blank_from(m, c0, z - 2);
    let t0 = if b >= c0 { b + 2 } else { c0 };
    if z == e {
        Some(TailParts { body: None, trailers: seq![] })
    } else if !(e + 1 < m.len() && m[e + 1] == '\n') {
        None
    } else if trailer_block(m, t0, z) {
        Some(
            TailParts {
                body: if b >= c0 {
                    trimmed_opt(m, c0, b)
                } else {
                    None
                },
                trailers: trailers_in(m, t0, z),
            },
        )
    } else {
        Some(TailParts { body: trimmed_opt(m, c0, z), trailers: seq![] })
    }
}

/// All that a conventional commit message holds.
pub struct MessageParts {
    pub headline: HeadlineParts,
    pub tail: TailParts,
}

/// The parts of `m` when it is a conventional commit message.
pub open spec fn conventional_parts(m: Seq<char>) -> Option<MessageParts> {
    match headline_of(m) {
        None => None,
        Some(h) => match tail_of(m, run_end(m, 0, CharClass::Line)) {
            None => None,
            Some(t) => Some(MessageParts { headline: h, tail: t }),
        },
    }
}

pub open spec fn opt_text(o: Option<String>) -> Option<Seq<char>> {
    match o {
        Some(s) => Some(s@),
        None => None,
    }
}

pub open spec fn opt_scope(o: Option<CommitScope>) -> Option<Seq<char>> {
    match o {
        Some(s) => Some(s@),
        None => None,
    }
}

pub open spec fn pairs_view(v: Seq<(String, String)>) -> Seq<(Seq<char>, Seq<char>)> {
    v.map_values(|p: (String, String)| (p.0@, p.1@))
}

impl ConventionalMessage {
    /// `self` holds exactly the parts `p`.
    pub open spec fn denotes(&self, p: MessageParts) -> bool {
        &&& self.ctype.denotes(p.headline.ctype)
        &&& opt_scope(self.scope) == p.headline.scope
        &&& self.is_breaking == p.headline.breaking
        &&& self.summary@ == p.headline.summary
        &&& opt_text(self.body) == p.tail.body
        &&& pairs_view(self.trailers@) == p.tail.trailers
    }

    /// Parses a commit message. It fails with `Headline` when the first line
    /// is not a conventional headline, with `Layout` when the rest does not
    /// follow it after a blank line.
    pub fn parse(s: &str) -> (r: Result<ConventionalMessage, ParseError>)
        ensures
            conventional_parts(s@) matches Some(p) ==> (r matches Ok(msg) && msg.denotes(p)),
            r == Err::<ConventionalMessage, ParseError>(ParseError::Headline) <==> headline_of(
                s@,
            ) is None,
            r == Err::<ConventionalMessage, ParseError>(ParseError::Layout) <==> (headline_of(
                s@,
            ) is Some && conventional_parts(s@) is None),
    {
        let m = chars_of(s);
        let len = m.len();
        let e = run_end_index(&m, 0, CharClass::Line);
        let k = run_end_index(&m, 0, CharClass::Word);
        if k == 0 {
            return Err(ParseError::Headline);
        }
        let has_scope = k < e && m[k] == '(';
        let mut p = k;
        let mut scope: Option<CommitScope> = None;
        if has_scope {
            let c = run_end_index(&m, k + 1, CharClass::ScopeText);
            if !(k + 1 < c && c < e && m[c] == ')') {
                return Err(ParseError::Headline);
            }
            scope = Some(CommitScope::new(text_of(s, k + 1, c)));
            p = c + 1;
        }
        let breaking = p < e && m[p] == '!';
        let q = if breaking {
            p + 1
        } else {
            p
        };
        if !(q < e && e - q > 2 && m[q] == ':' && m[q + 1] == ' ') {
            return Err(ParseError::Headline);
        }
        let word = text_of(s, 0, k);
        let ctype = match CommitType::from_str(word.as_str()) {
            Ok(t) => t,
            Err(()) => CommitType::Other(word),
        };
        let summary = text_of(s, q + 2, e);
        let z = trim_end_index(&m, e, len);
        let mut body: Option<String> = None;
        let mut trailers: Vec<(String, String)> = Vec::new();
        if z != e {
            if !(e + 1 < len && m[e + 1] == '\n') {
                return Err(ParseError::Layout);
            }
            proof {
                lemma_trim_end_at(m@, e as int, len as int);
                assert(is_ws(m@[e as int]) && is_ws(m@[e + 1]));
            }
            let c0 = e + 2;
            let b = last_blank_index(&m, c0, z);
            let t0 = match b {
                Some(i) => i + 2,
                None => c0,
            };
            match parse_trailers(s, &m, t0, z) {
                Some(t) => {
                    trailers = t;
                    if let Some(i) = b {
                        body = trimmed_nonempty(s, &m, c0, i);
                    }
                },
                None => {
                    body = trimmed_nonempty(s, &m, c0, z);
                },
            }
        }
        proof {
            assert(pairs_view(Seq::<(String, String)>::empty()) =~= seq![]);
        }
        Ok(
            ConventionalMessage {
                ctype,
                scope,
                is_breaking: breaking,
                summary,
                body,
                trailers,
            },
        )
    }
}

impl std::str::FromStr for ConventionalMessage {
    type Err = ParseError;

    fn from_str(s: &str) -> Result<Self, Self::Err> {
        ConventionalMessage::parse(s)
    }
}

fn trimmed_nonempty(s: &str, m: &Vec<char>, lo: usize, hi: usize) -> (r: Option<String>)
    requires
        m@ == s@,
        lo <= hi <= m.len(),
    ensures
        opt_text(r) == trimmed_opt(m@, lo as int, hi as int),
{
    let t = trimmed_text(s, m, lo, hi);
    if t.as_str().is_empty() {
        None
    } else {
        Some(t)
    }
}

/// Finds the last blank line separator that starts in `m[lo..hi - 1]`.
fn last_blank_index(m: &Vec<char>, lo: usize, hi: usize) -> (r: Option<usize>)
    requires
        1 <= lo <= hi <= m.len(),
    ensures
        match r {
            Some(i) => i as int == last_blank_from(m@, lo as int, hi - 2) && lo <= i && i + 2 <= hi,
            None => last_blank_from(m@, lo as int, hi - 2) < lo,
        },
{
    if hi == lo {
        return None;
    }
    let mut j: usize = hi - 1;
    while j > lo
        invariant
            1 <= lo <= j < hi <= m.len(),
            last_blank_from(m@, lo as int, hi - 2) == last_blank_from(m@, lo as int, j - 1),
        decreases j,
    {
        if m[j - 1] == '\n' && m[j] == '\n' {
            return Some(j - 1);
        }
        j = j - 1;
    }
    None
}

/// The trailers of the paragraph `m[lo..hi]`, when each of its lines is a
/// trailer line.
fn parse_trailers(s: &str, m: &Vec<char>, lo: usize, hi: usize) -> (r: Option<
    Vec<(String, String)>,
>)
    requires
        m@ == s@,
        lo <= hi <= m.len(),
    ensures
        r is Some <==> trailer_block(m@, lo as int, hi as int),
        r matches Some(v) ==> pairs_view(v@) == trailers_in(m@, lo as int, hi as int),
{
    if lo >= hi {
        return None;
    }
    let mut out: Vec<(String, String)> = Vec::new();
    let mut cur = lo;
    loop
        invariant
            m@ == s@,
            lo <= cur < hi <= m.len(),
            trailer_block(m@, lo as int, hi as int) == trailer_block(m@, cur as int, hi as int),
            trailers_in(m@, lo as int, hi as int) == pairs_view(out@) + trailers_in(
                m@,
                cur as int,
                hi as int,
            ),
        decreases hi - cur,
    {
        let j0 = run_end_index(m, cur, CharClass::Line);
        let j = if j0 < hi {
            j0
        } else {
            hi
        };
        let k = run_end_index(m, cur, CharClass::Key);
        if !(k > cur && k < j && j - k > 1 && m[k] == ':' && m[k + 1] == ' ') {
            return None;
        }
        let key = text_of(s, cur, k);
        let value = trimmed_text(s, m, k + 1, j);
        let ghost before = out@;
        out.push((key, value));
        proof {
            assert(pairs_view(out@) =~= pairs_view(before) + seq![(key@, value@)]);
        }
        if j >= hi {
            return Some(out);
        }
        if j + 1 >= hi {
            assert(!trailer_block(m@, j + 1, hi as int));
            return None;
        }
        cur = j + 1;
    }
}

} // verus!
