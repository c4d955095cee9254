//! The configuration format: `[group]` headers, each followed by one pattern
//! per line. Blank lines and lines starting with `#` or `;` are skipped;
//! every line is read without its surrounding whitespace.
use vstd::prelude::*;
use crate::text::{chars_of, string_of, split_lines, trim_chars, lines_of, trim, char_views};

verus! {

/// Why a configuration was refused.
#[derive(Debug, Clone, Copy, PartialEq, Eq)]
pub enum ParseErrorKind {
    /// A header with nothing between its brackets.
    HeaderTooShort,
    /// A header naming a group that was already defined.
    DuplicateSection,
    /// A pattern line before the first header.
    ItemBeforeSection,
}

/// A refused configuration: the 1-based line at fault and why.
#[derive(Debug, Clone)]
pub struct ParseError {
    pub line: usize,
    pub kind: ParseErrorKind,
    pub message: String,
}

/// One group: its name and its patterns, in the order written.
#[derive(Debug, Clone)]
pub struct Section {
    pub name: String,
    pub items: Vec<String>,
}

/// The groups of a configuration, in the order of their headers; no two
/// share a name.
#[derive(Debug, Clone)]
pub struct Config {
    pub sections: Vec<Section>,
}

impl Config {
    /// The number of groups.
    pub fn len(&self) -> (r: usize)
        ensures
            r == self@.len(),
    {
        self.sections.len()
    }

    /// Whether there is no group.
    pub fn is_empty(&self) -> (r: bool)
        ensures
            r == (self@.len() == 0),
    {
        self.sections.len() == 0
    }

    /// Whether a group of this name is defined.
    pub fn contains_key(&self, name: &str) -> (r: bool)
        ensures
            r == has_section(self@, name@),
    {
        find_section(&self.sections, &name.to_owned())
    }

    /// The patterns of the first group of this name, if there is one.
    pub fn get(&self, name: &str) -> (r: Option<&Vec<String>>)
        ensures
            r is None <==> !has_section(self@, name@),
            r is Some ==> exists|i: int|
                0 <= i < self@.len() && (#[trigger] self@[i]).0 == name@ && string_views(
                    r->Some_0@,
                ) == self@[i].1,
    {
        let key = name.to_owned();
        let ghost v = self@;
        let mut i: usize = 0;
        while i < self.sections.len()
            invariant
                v == self@,
                v.len() == self.sections@.len(),
                key@ == name@,
                i <= self.sections@.len(),
                forall|k: int| 0 <= k < i ==> (#[trigger] v[k]).0 != name@,
            decreases self.sections@.len() - i,
        {
            if self.sections[i].name == key {
                assert(v[i as int].0 == name@);
                return Some(&self.sections[i].items);
            }
            i += 1;
        }
        None
    }
}

/// A group as a name and its pattern strings.
pub type SectionView = (Seq<char>, Seq<Seq<char>>);

pub open spec fn string_views(v: Seq<String>) -> Seq<Seq<char>> {
    v.map_values(|s: String| s@)
}

pub open spec fn section_views(v: Seq<Section>) -> Seq<SectionView> {
    v.map_values(|s: Section| (s.name@, string_views(s.items@)))
}

impl View for Config {
    type V = Seq<SectionView>;

    open spec fn view(&self) -> Seq<SectionView> {
        section_views(self.sections@)
    }
}

/// Whether a group of this name is among `sections`.
pub open spec fn has_section(sections: Seq<SectionView>, name: Seq<char>) -> bool {
    exists|i: int| 0 <= i < sections.len() && (#[trigger] sections[i]).0 == name
}

/// No two groups share a name.
pub open spec fn names_unique(sections: Seq<SectionView>) -> bool {
    forall|i: int, j: int|
        0 <= i < sections.len() && 0 <= j < sections.len() && i != j ==> (#[trigger] sections[i]).0
            != (#[trigger] sections[j]).0
}

/// Where a reading of the lines stands: the groups closed so far, the name
/// of the open group (empty before the first header) and its patterns.
pub ghost struct ParseState {
    pub sections: Seq<SectionView>,
    pub current: Seq<char>,
    pub items: Seq<Seq<char>>,
}

/// A refusal: the line number, the kind and the message.
pub type ErrorView = (int, ParseErrorKind, Seq<char>);

pub open spec fn initial_state() -> ParseState {
    ParseState { sections: seq![], current: seq![], items: seq![] }
}

/// Closes the open group, if there is one.
pub open spec fn save_current(st: ParseState) -> ParseState {
    if st.current.len() > 0 {
        ParseState {
            sections: st.sections.push((st.current, st.items)),
            current: seq![],
            items: seq![],
        }
    } else {
        st
    }
}

pub open spec fn too_short_message() -> Seq<char> {
    "Invalid section header: too short"@
}

pub open spec fn duplicate_message(name: Seq<char>) -> Seq<char> {
    "Duplicate section: '"@ + name + "'"@
}

pub open spec fn item_before_message() -> Seq<char> {
    "Item found before any section is defined"@
}

/// Reads one line, numbered `number`.
pub open spec fn step(st: ParseState, line: Seq<char>, number: int) -> Result<
    ParseState,
    ErrorView,
> {
    let t = trim(line);
    if t.len() == 0 || t[0] == '#' || t[0] == ';' {
        Ok(st)
    } else if t[0] == '[' && t.last() == ']' {
        let saved = save_current(st);
        let name = t.subrange(1, t.len() - 1);
        if t.len() < 3 {
            Err((number, ParseErrorKind::HeaderTooShort, too_short_message()))
        } else if has_section(saved.sections, name) {
            Err((number, ParseErrorKind::DuplicateSection, duplicate_message(name)))
        } else {
            Ok(ParseState { sections: saved.sections, current: name, items: saved.items })
        }
    } else if st.current.len() == 0 {
        Err((number, ParseErrorKind::ItemBeforeSection, item_before_message()))
    } else {
        Ok(ParseState { sections: st.sections, current: st.current, items: st.items.push(t) })
    }
}

/// Reads the first `n` lines.
pub open spec fn parse_prefix(lines: Seq<Seq<char>>, n: nat) -> Result<ParseState, ErrorView>
    decreases n,
{
    if n == 0 {
        Ok(initial_state())
    } else {
        match parse_prefix(lines, (n - 1) as nat) {
            Ok(st) => step(st, lines[n - 1], n as int),
            Err(e) => Err(e),
        }
    }
}

/// What a configuration text denotes: its groups, or the first refusal.
pub open spec fn config_of(content: Seq<char>) -> Result<Seq<SectionView>, ErrorView> {
    let lines = lines_of(content);
    match parse_prefix(lines, lines.len()) {
        Ok(st) => Ok(save_current(st).sections),
        Err(e) => Err(e),
    }
}

/// The state that the variables of the parser stand for.
pub open spec fn state_of(sections: Seq<Section>, current: Seq<char>, items: Seq<String>) -> ParseState {
    ParseState { sections: section_views(sections), current, items: string_views(items) }
}

/// Once a line is refused, reading more lines gives the same refusal.
proof fn lemma_error_persists(lines: Seq<Seq<char>>, n: nat, m: nat)
    requires
        n <= m,
        parse_prefix(lines, n) is Err,
    ensures
        parse_prefix(lines, m) == parse_prefix(lines, n),
    decreases m - n,
{
    if n < m {
        lemma_error_persists(lines, n, (m - 1) as nat);
    }
}

proof fn lemma_push_keeps_unique(v: Seq<SectionView>, name: Seq<char>, items: Seq<Seq<char>>)
    requires
        names_unique(v),
        !has_section(v, name),
    ensures
        names_unique(v.push((name, items))),
{
    let w = v.push((name, items));
    assert forall|i: int, j: int|
        0 <= i < w.len() && 0 <= j < w.len() && i != j implies (#[trigger] w[i]).0 != (
        #[trigger] w[j]).0 by {
        if i < v.len() && j < v.len() {
            assert(w[i] == v[i] && w[j] == v[j]);
        } else if i < v.len() {
            assert(w[i] == v[i]);
        } else {
            assert(w[j] == v[j]);
        }
    }
}

/// Whether a group named `name` is among `sections`.
fn find_section(sections: &Vec<Section>, name: &String) -> (r: bool)
    ensures
        r == has_section(section_views(sections@), name@),
{
    let ghost v = section_views(sections@);
    let mut i: usize = 0;
    while i < sections.len()
        invariant
            v == section_views(sections@),
            i <= sections@.len(),
            forall|k: int| 0 <= k < i ==> (#[trigger] v[k]).0 != name@,
        decreases sections@.len() - i,
    {
        if sections[i].name == *name {
            assert(v[i as int].0 == name@);
            return true;
        }
        i += 1;
    }
    false
}

/// Builds a refusal.
fn error_at(line: usize, kind: ParseErrorKind, message: &[char]) -> (r: ParseError)
    ensures
        r.line == line,
        r.kind == kind,
        r.message@ == message@,
{
    ParseError { line, kind, message: string_of(message) }
}

/// Parses a configuration text into its groups.
pub fn parse_config(content: &str) -> (r: Result<Config, ParseError>)
    ensures
        match config_of(content@) {
            Ok(secs) => r is Ok && r->Ok_0@ == secs && names_unique(secs),
            Err(e) => r is Err && r->Err_0.line == e.0 && r->Err_0.kind == e.1
                && r->Err_0.message@ == e.2,
        },
{
    let chars = chars_of(content);
    let lines = split_lines(chars.as_slice());
    let ghost lv = lines_of(content@);
    let mut sections: Vec<Section> = Vec::new();
    let mut current: Vec<char> = Vec::new();
    let mut items: Vec<String> = Vec::new();
    let mut idx: usize = 0;
    proof {
        assert(section_views(sections@) =~= Seq::<SectionView>::empty());
        assert(string_views(items@) =~= Seq::<Seq<char>>::empty());
        assert(current@ =~= Seq::<char>::empty());
        assert(lv.len() == lines@.len());
    }
    while idx < lines.len()
        invariant
            char_views(lines@) == lv,
            lv == lines_of(content@),
            lv.len() == lines@.len(),
            idx <= lines@.len(),
            parse_prefix(lv, idx as nat) == Ok::<ParseState, ErrorView>(
                state_of(sections@, current@, items@),
            ),
            names_unique(section_views(sections@)),
            current@.len() > 0 ==> !has_section(section_views(sections@), current@),
        decreases lines@.len() - idx,
    {
        let number = idx + 1;
        let t = trim_chars(lines[idx].as_slice());
        assert(lv[idx as int] == lines@[idx as int]@);
        let ghost st = state_of(sections@, current@, items@);
        let ghost res = step(st, lines@[idx as int]@, number as int);
        assert(parse_prefix(lv, number as nat) == res);
        if t.len() == 0 || t[0] == '#' || t[0] == ';' {
        } else if t[0] == '[' && t[t.len() - 1] == ']' {
            if current.len() > 0 {
                let ghost before = sections@;
                let name = string_of(current.as_slice());
                sections.push(Section { name, items });
                items = Vec::new();
                current = Vec::new();
                proof {
                    assert(section_views(sections@) =~= section_views(before).push(
                        (st.current, st.items),
                    ));
                    assert(string_views(items@) =~= Seq::<Seq<char>>::empty());
                    lemma_push_keeps_unique(section_views(before), st.current, st.items);
                }
            }
            assert(state_of(sections@, current@, items@) == save_current(st));
            if t.len() < 3 {
                let msg = chars_of("Invalid section header: too short");
                proof {
                    lemma_error_persists(lv, number as nat, lv.len());
                }
                return Err(error_at(number, ParseErrorKind::HeaderTooShort, msg.as_slice()));
            }
            let mut name_chars: Vec<char> = Vec::new();
            let mut k: usize = 1;
            while k < t.len() - 1
                invariant
                    1 <= k <= t@.len() - 1,
                    t@.len() >= 3,
                    name_chars@ =~= t@.subrange(1, k as int),
                decreases t@.len() - k,
            {
                name_chars.push(t[k]);
                k += 1;
            }
            let name = string_of(name_chars.as_slice());
            if find_section(&sections, &name) {
                let mut msg = chars_of("Duplicate section: '");
                let mut rest = name_chars.clone();
                msg.append(&mut rest);
                msg.push('\'');
                proof {
                    let q = "'"@;
                    assert(q.len() == 1 && q[0] == '\'') by {
                        reveal_strlit("'");
                    }
                    assert(msg@ =~= duplicate_message(name_chars@));
                }
                proof {
                    lemma_error_persists(lv, number as nat, lv.len());
                }
                return Err(error_at(number, ParseErrorKind::DuplicateSection, msg.as_slice()));
            }
            current = name_chars;
        } else {
            if current.len() == 0 {
                let msg = chars_of("Item found before any section is defined");
                proof {
                    lemma_error_persists(lv, number as nat, lv.len());
                }
                return Err(error_at(number, ParseErrorKind::ItemBeforeSection, msg.as_slice()));
            }
            let ghost before = items@;
            items.push(string_of(t.as_slice()));
            proof {
                assert(string_views(items@) =~= string_views(before).push(t@));
            }
        }
        idx += 1;
    }
    assert(lv.len() == lines@.len());
    if current.len() > 0 {
        let ghost before = sections@;
        let ghost st = state_of(sections@, current@, items@);
        let name = string_of(current.as_slice());
        sections.push(Section { name, items });
        proof {
            assert(section_views(sections@) =~= section_views(before).push((st.current, st.items)));
            lemma_push_keeps_unique(section_views(before), st.current, st.items);
        }
    }
    Ok(Config { sections })
}

} // verus!
