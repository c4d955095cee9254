//! Matching of slash-separated paths against glob-style patterns.
//!
//! - The slash `/` separates path components.
//! - A component that is exactly `**` stands for any number of whole components.
//! - A pattern that does not start with a slash is relative: it matches as if
//!   it started with `**/`.
//! - A pattern that ends with a slash names a directory and matches anything
//!   beneath it, as if it ended with `**`.
//! - Inside one component, `*` matches any run of characters and `?` matches
//!   exactly one character.
use vstd::prelude::*;
use crate::text::chars_of;

verus! {

// ---------------------------------------------------------------------------
// Mathematical model
// ---------------------------------------------------------------------------

/// What a path is, once split: its components and its two flags.
pub ghost struct PathView {
    pub components: Seq<Seq<char>>,
    pub is_absolute: bool,
    pub is_directory: bool,
}

pub open spec fn is_separator(c: char) -> bool {
    c == '/'
}

/// Appends a run of characters to the components, unless it is empty.
pub open spec fn close_run(done: Seq<Seq<char>>, run: Seq<char>) -> Seq<Seq<char>> {
    if run.len() > 0 {
        done.push(run)
    } else {
        done
    }
}

/// Scanning `s` left to right: the components closed so far, and the run of
/// non-separator characters still open at the end of `s`.
pub open spec fn scan(s: Seq<char>) -> (Seq<Seq<char>>, Seq<char>)
    decreases s.len(),
{
    if s.len() == 0 {
        (seq![], seq![])
    } else {
        let prev = scan(s.drop_last());
        if is_separator(s.last()) {
            (close_run(prev.0, prev.1), seq![])
        } else {
            (prev.0, prev.1.push(s.last()))
        }
    }
}

/// The non-empty runs of characters between separators, left to right.
pub open spec fn split_components(s: Seq<char>) -> Seq<Seq<char>> {
    close_run(scan(s).0, scan(s).1)
}

/// The path that a string denotes.
pub open spec fn path_of(s: Seq<char>) -> PathView {
    PathView {
        components: split_components(s),
        is_absolute: s.len() > 0 && is_separator(s[0]),
        is_directory: s.len() > 0 && is_separator(s.last()),
    }
}

/// The recursive wildcard marker.
pub open spec fn is_recursive_marker(c: Seq<char>) -> bool {
    c == seq!['*', '*']
}

/// Character-level wildcard matching of one component: `*` matches any run
/// of characters, `?` exactly one, any other character itself.
pub open spec fn wildcard_match(p: Seq<char>, t: Seq<char>) -> bool
    decreases p.len() + t.len(),
{
    if p.len() == 0 {
        t.len() == 0
    } else if p[0] == '*' {
        wildcard_match(p.drop_first(), t) || (t.len() > 0 && wildcard_match(p, t.drop_first()))
    } else if t.len() == 0 {
        false
    } else if p[0] == '?' || p[0] == t[0] {
        wildcard_match(p.drop_first(), t.drop_first())
    } else {
        false
    }
}

/// The component walk from pattern index `pi` and candidate index `ti`,
/// `rec` telling whether a recursive wildcard is in force (so that a
/// candidate component that does not match may be skipped).
pub open spec fn walk(
    pat: Seq<Seq<char>>,
    dir: bool,
    text: Seq<Seq<char>>,
    pi: int,
    ti: int,
    rec: bool,
) -> bool
    decreases text.len() - ti,
{
    if 0 <= pi < pat.len() && 0 <= ti < text.len() {
        if is_recursive_marker(pat[pi]) {
            if pi + 1 == pat.len() {
                true
            } else {
                walk(pat, dir, text, pi + 1, ti + 1, true)
            }
        } else if wildcard_match(pat[pi], text[ti]) {
            walk(pat, dir, text, pi + 1, ti + 1, false)
        } else if rec {
            walk(pat, dir, text, pi, ti + 1, true)
        } else {
            false
        }
    } else if dir && pi == pat.len() {
        true
    } else {
        pi == pat.len() && ti == text.len()
    }
}

/// Whether the candidate path `text` satisfies the pattern path `pattern`.
pub open spec fn path_matches(pattern: PathView, text: PathView) -> bool {
    if pattern.components.len() == 0 {
        text.components.len() == 0
    } else {
        walk(pattern.components, pattern.is_directory, text.components, 0, 0, !pattern.is_absolute)
    }
}

// ---------------------------------------------------------------------------
// Types
// ---------------------------------------------------------------------------

/// One slash-free segment of a path, as characters.
#[derive(Debug, Clone)]
pub struct PathComponent {
    chars: Vec<char>,
}

impl View for PathComponent {
    type V = Seq<char>;

    closed spec fn view(&self) -> Seq<char> {
        self.chars@
    }
}

impl PathComponent {
    fn is_double_star(&self) -> (r: bool)
        ensures
            r == is_recursive_marker(self@),
    {
        let r = self.chars.len() == 2 && self.chars[0] == '*' && self.chars[1] == '*';
        proof {
            if r {
                assert(self@ =~= seq!['*', '*']);
            }
        }
        r
    }

    fn new(chars: Vec<char>) -> (r: Self)
        ensures
            r@ == chars@,
    {
        PathComponent { chars }
    }
}

/// The character sequences of a list of components.
pub open spec fn component_views(v: Seq<PathComponent>) -> Seq<Seq<char>> {
    v.map_values(|c: PathComponent| c@)
}

/// A path split into components, with its absolute and directory flags.
/// The same type serves as pattern and as candidate.
#[derive(Debug)]
pub struct MatchPath {
    components: Vec<PathComponent>,
    is_absolute: bool,
    is_directory: bool,
}

impl View for MatchPath {
    type V = PathView;

    closed spec fn view(&self) -> PathView {
        PathView {
            components: component_views(self.components@),
            is_absolute: self.is_absolute,
            is_directory: self.is_directory,
        }
    }
}


impl MatchPath {
    /// Splits a path given as characters.
    pub fn new(path: &[char]) -> (r: Self)
        ensures
            r@ == path_of(path@),
    {
        if path.len() == 0 {
            let r = MatchPath { components: Vec::new(), is_absolute: false, is_directory: false };
            proof {
                assert(component_views(r.components@) =~= split_components(path@));
            }
            return r;
        }
        let is_absolute = path[0] == '/';
        let is_directory = path[path.len() - 1] == '/';
        let components = split_path_components(path);
        MatchPath { components, is_absolute, is_directory }
    }

    /// Decides whether the candidate `text` satisfies this pattern.
    pub fn is_match(&self, text: &MatchPath) -> (r: bool)
        ensures
            r == path_matches(self@, text@),
    {
        let ghost pat = self@.components;
        let ghost txt = text@.components;
        let ghost dir = self@.is_directory;
        if self.components.len() == 0 {
            return text.components.len() == 0;
        }
        let mut pattern_idx: usize = 0;
        let mut text_idx: usize = 0;
        let mut recursive: bool = !self.is_absolute;
        while pattern_idx < self.components.len() && text_idx < text.components.len()
            invariant
                pat == self@.components,
                txt == text@.components,
                dir == self@.is_directory,
                pat.len() == self.components@.len(),
                txt.len() == text.components@.len(),
                pattern_idx <= pat.len(),
                text_idx <= txt.len(),
                path_matches(self@, text@) == walk(
                    pat,
                    dir,
                    txt,
                    pattern_idx as int,
                    text_idx as int,
                    recursive,
                ),
            decreases txt.len() - text_idx,
        {
            let pattern_comp = &self.components[pattern_idx];
            let text_comp = &text.components[text_idx];
            assert(pat[pattern_idx as int] == pattern_comp@);
            assert(txt[text_idx as int] == text_comp@);
            if pattern_comp.is_double_star() {
                recursive = true;
                if pattern_idx + 1 == self.components.len() {
                    return true;
                }
                pattern_idx += 1;
                text_idx += 1;
                continue;
            }
            if !match_pattern_component(pattern_comp.chars.as_slice(), text_comp.chars.as_slice()) {
                if recursive {
                    text_idx += 1;
                    continue;
                }
                return false;
            } else {
                recursive = false;
                pattern_idx += 1;
                text_idx += 1;
            }
        }
        if self.is_directory && pattern_idx == self.components.len() {
            return true;
        }
        pattern_idx == self.components.len() && text_idx == text.components.len()
    }

    /// Splits a path given as a string.
    pub fn from_str(path: &str) -> (r: Self)
        ensures
            r@ == path_of(path@),
    {
        let path_chars = chars_of(path);
        Self::new(path_chars.as_slice())
    }
}

/// Splits a path into its non-empty slash-free components.
pub fn split_path_components(path: &[char]) -> (r: Vec<PathComponent>)
    ensures
        component_views(r@) == split_components(path@),
{
    let mut components: Vec<PathComponent> = Vec::new();
    let mut run: Vec<char> = Vec::new();
    let n = path.len();
    let mut i: usize = 0;
    while i < n
        invariant
            n == path@.len(),
            i <= n,
            component_views(components@) == scan(path@.take(i as int)).0,
            run@ == scan(path@.take(i as int)).1,
        decreases n - i,
    {
        let c = path[i];
        proof {
            assert(path@.take(i + 1).drop_last() =~= path@.take(i as int));
            assert(path@.take(i + 1).last() == c);
        }
        if c == '/' {
            if run.len() > 0 {
                let ghost before = components@;
                components.push(PathComponent::new(run));
                proof {
                    assert(component_views(components@) =~= component_views(before).push(
                        scan(path@.take(i as int)).1,
                    ));
                }
            }
            run = Vec::new();
            proof {
                assert(run@ =~= scan(path@.take(i + 1)).1);
            }
        } else {
            run.push(c);
        }
        i += 1;
    }
    proof {
        assert(path@.take(n as int) =~= path@);
    }
    if run.len() > 0 {
        let ghost before = components@;
        let ghost last = run@;
        components.push(PathComponent::new(run));
        proof {
            assert(component_views(components@) =~= component_views(before).push(last));
        }
    }
    components
}

/// Decides whether one component `text` satisfies the wildcard pattern
/// `pattern`.
///
/// Works through the pattern from its end, keeping one row of the table of
/// answers for (pattern suffix, text suffix): time is the product of the two
/// lengths, space the text's length.
pub fn match_pattern_component(pattern: &[char], text: &[char]) -> (r: bool)
    ensures
        r == wildcard_match(pattern@, text@),
{
    let n = text.len();
    let m = pattern.len();
    let mut next: Vec<bool> = Vec::new();
    let mut j: usize = 0;
    proof {
        assert(pattern@.skip(m as int).len() == 0);
    }
    while j < n
        invariant
            n == text@.len(),
            m == pattern@.len(),
            j <= n,
            next@.len() == j,
            forall|k: int|
                0 <= k < j ==> next@[k] == wildcard_match(
                    pattern@.skip(m as int),
                    #[trigger] text@.skip(k),
                ),
        decreases n - j,
    {
        next.push(false);
        j += 1;
    }
    next.push(true);
    proof {
        assert(text@.skip(n as int).len() == 0);
    }
    let mut i: usize = m;
    while i > 0
        invariant
            n == text@.len(),
            m == pattern@.len(),
            i <= m,
            next@.len() == n + 1,
            forall|k: int|
                0 <= k <= n ==> next@[k] == wildcard_match(
                    pattern@.skip(i as int),
                    #[trigger] text@.skip(k),
                ),
        decreases i,
    {
        i -= 1;
        next = match_row(pattern, text, i, &next);
    }
    proof {
        assert(pattern@.skip(0) =~= pattern@);
        assert(text@.skip(0) =~= text@);
    }
    next[0]
}

/// Given the answers for pattern suffix `i + 1` against every text suffix,
/// computes those for pattern suffix `i`.
fn match_row(pattern: &[char], text: &[char], i: usize, next: &Vec<bool>) -> (cur: Vec<bool>)
    requires
        i < pattern@.len(),
        next@.len() == text@.len() + 1,
        forall|k: int|
            0 <= k <= text@.len() ==> next@[k] == wildcard_match(
                pattern@.skip(i + 1),
                #[trigger] text@.skip(k),
            ),
    ensures
        cur@.len() == text@.len() + 1,
        forall|k: int|
            0 <= k <= text@.len() ==> cur@[k] == wildcard_match(
                pattern@.skip(i as int),
                #[trigger] text@.skip(k),
            ),
{
    let n = text.len();
    let pc = pattern[i];
    let mut cur: Vec<bool> = Vec::new();
    let mut j: usize = 0;
    while j < n
        invariant
            j <= n,
            n == text@.len(),
            cur@.len() == j,
        decreases n - j,
    {
        cur.push(false);
        j += 1;
    }
    cur.push(false);
    let ghost p = pattern@.skip(i as int);
    proof {
        assert(p.len() > 0);
        assert(p[0] == pc);
        assert(p.drop_first() =~= pattern@.skip(i + 1));
    }
    proof {
        assert(text@.skip(n as int).len() == 0);
    }
    let last = if pc == '*' {
        next[n]
    } else {
        false
    };
    cur.set(n, last);
    let mut j: usize = n;
    while j > 0
        invariant
            n == text@.len(),
            j <= n,
            cur@.len() == n + 1,
            p == pattern@.skip(i as int),
            p.len() > 0,
            p[0] == pc,
            p.drop_first() == pattern@.skip(i + 1),
            next@.len() == n + 1,
            forall|k: int|
                0 <= k <= n ==> next@[k] == wildcard_match(
                    pattern@.skip(i + 1),
                    #[trigger] text@.skip(k),
                ),
            forall|k: int|
                j <= k <= n ==> cur@[k] == wildcard_match(p, #[trigger] text@.skip(k)),
        decreases j,
    {
        j -= 1;
        let ghost t = text@.skip(j as int);
        proof {
            assert(t[0] == text@[j as int]);
            assert(t.drop_first() =~= text@.skip(j + 1));
        }
        let v = if pc == '*' {
            next[j] || cur[j + 1]
        } else if pc == '?' || pc == text[j] {
            next[j + 1]
        } else {
            false
        };
        proof {
            assert(v == wildcard_match(p, t));
        }
        cur.set(j, v);
    }
    cur
}

// ---------------------------------------------------------------------------
// Laws
// ---------------------------------------------------------------------------

/// Construction is deterministic: two paths built from the same string have
/// equal components and equal flags.
pub proof fn lemma_construction_deterministic(s: Seq<char>, a: MatchPath, b: MatchPath)
    requires
        a@ == path_of(s),
        b@ == path_of(s),
    ensures
        a@.components == b@.components,
        a@.is_absolute == b@.is_absolute,
        a@.is_directory == b@.is_directory,
{
}

/// Every component that splitting produces is non-empty and holds no
/// separator.
pub proof fn lemma_components_well_formed(s: Seq<char>)
    ensures
        forall|i: int|
            0 <= i < split_components(s).len() ==> (#[trigger] split_components(s)[i]).len() > 0,
        forall|i: int, j: int|
            0 <= i < split_components(s).len() && 0 <= j < split_components(s)[i].len()
                ==> !is_separator(#[trigger] split_components(s)[i][j]),
{
    lemma_scan_well_formed(s);
}

proof fn lemma_scan_well_formed(s: Seq<char>)
    ensures
        forall|i: int| 0 <= i < scan(s).0.len() ==> (#[trigger] scan(s).0[i]).len() > 0,
        forall|i: int, j: int|
            0 <= i < scan(s).0.len() && 0 <= j < scan(s).0[i].len() ==> !is_separator(
                #[trigger] scan(s).0[i][j],
            ),
        forall|j: int| 0 <= j < scan(s).1.len() ==> !is_separator(#[trigger] scan(s).1[j]),
    decreases s.len(),
{
    if s.len() > 0 {
        lemma_scan_well_formed(s.drop_last());
        let prev = scan(s.drop_last());
        if !is_separator(s.last()) {
            assert forall|j: int| 0 <= j < scan(s).1.len() implies !is_separator(
                #[trigger] scan(s).1[j],
            ) by {
                if j < prev.1.len() {
                    assert(scan(s).1[j] == prev.1[j]);
                }
            }
        }
    }
}

/// Wildcard matching as naive backtracking: `*` tries every number of
/// characters to consume, from none to all that remain.
pub open spec fn backtrack_match(p: Seq<char>, t: Seq<char>) -> bool
    decreases p.len(),
{
    if p.len() == 0 {
        t.len() == 0
    } else if p[0] == '*' {
        exists|k: int| 0 <= k <= t.len() && backtrack_match(p.drop_first(), #[trigger] t.skip(k))
    } else if t.len() == 0 {
        false
    } else if p[0] == '?' || p[0] == t[0] {
        backtrack_match(p.drop_first(), t.drop_first())
    } else {
        false
    }
}

/// The matching that `match_pattern_component` computes agrees with naive
/// backtracking on every pattern and text.
pub proof fn lemma_wildcard_match_is_backtracking(p: Seq<char>, t: Seq<char>)
    ensures
        wildcard_match(p, t) == backtrack_match(p, t),
    decreases p.len() + t.len(),
{
    if p.len() > 0 {
        if p[0] == '*' {
            let p1 = p.drop_first();
            lemma_wildcard_match_is_backtracking(p1, t);
            assert(t.skip(0) =~= t);
            if t.len() > 0 {
                let t1 = t.drop_first();
                lemma_wildcard_match_is_backtracking(p, t1);
                if backtrack_match(p, t) {
                    let k = choose|k: int| 0 <= k <= t.len() && backtrack_match(p1, #[trigger] t.skip(k));
                    if k > 0 {
                        assert(t1.skip(k - 1) =~= t.skip(k));
                        assert(backtrack_match(p, t1));
                    }
                }
                if backtrack_match(p, t1) {
                    let k = choose|k: int| 0 <= k <= t1.len() && backtrack_match(p1, #[trigger] t1.skip(k));
                    assert(t1.skip(k) =~= t.skip(k + 1));
                }
            } else {
                if backtrack_match(p, t) {
                    let k = choose|k: int| 0 <= k <= t.len() && backtrack_match(p1, #[trigger] t.skip(k));
                    assert(k == 0);
                }
            }
        } else if t.len() > 0 {
            lemma_wildcard_match_is_backtracking(p.drop_first(), t.drop_first());
        }
    }
}

/// Every component matches itself.
pub proof fn lemma_component_matches_itself(c: Seq<char>)
    ensures
        wildcard_match(c, c),
    decreases c.len(),
{
    if c.len() > 0 {
        lemma_component_matches_itself(c.drop_first());
        if c[0] == '*' {
            assert(wildcard_match(c.drop_first(), c.drop_first()));
            assert(wildcard_match(c, c.drop_first()));
        }
    }
}

/// `*` alone matches every component, the empty one included.
pub proof fn lemma_star_matches_any(t: Seq<char>)
    ensures
        wildcard_match(seq!['*'], t),
    decreases t.len(),
{
    let star = seq!['*'];
    assert(star.len() == 1 && star[0] == '*');
    assert(star.drop_first() =~= Seq::<char>::empty());
    assert(wildcard_match(Seq::<char>::empty(), t) == (t.len() == 0));
    if t.len() > 0 {
        lemma_star_matches_any(t.drop_first());
    }
}

/// `?` alone matches exactly the components of one character.
pub proof fn lemma_question_matches_one(t: Seq<char>)
    ensures
        wildcard_match(seq!['?'], t) <==> t.len() == 1,
{
    let q = seq!['?'];
    assert(q.len() == 1 && q[0] == '?');
    assert(q.drop_first() =~= Seq::<char>::empty());
    if t.len() > 0 {
        assert(wildcard_match(Seq::<char>::empty(), t.drop_first()) == (t.len() == 1));
    }
}

/// A pattern that begins with `?` never matches the empty component.
pub proof fn lemma_question_never_matches_empty(p: Seq<char>)
    requires
        p.len() > 0,
        p[0] == '?',
    ensures
        !wildcard_match(p, Seq::<char>::empty()),
{
}

/// A directory pattern without recursive markers matches every candidate
/// whose leading components match its own one by one, whatever comes after
/// them.
pub proof fn lemma_directory_pattern_matches_contents(pattern: PathView, text: PathView)
    requires
        pattern.is_directory,
        pattern.components.len() > 0,
        pattern.components.len() <= text.components.len(),
        forall|i: int|
            0 <= i < pattern.components.len() ==> !is_recursive_marker(
                #[trigger] pattern.components[i],
            ) && wildcard_match(pattern.components[i], text.components[i]),
    ensures
        path_matches(pattern, text),
{
    lemma_walk_prefix(pattern.components, text.components, 0, !pattern.is_absolute);
}

proof fn lemma_walk_prefix(pat: Seq<Seq<char>>, text: Seq<Seq<char>>, k: int, rec: bool)
    requires
        0 <= k <= pat.len(),
        pat.len() <= text.len(),
        forall|i: int|
            0 <= i < pat.len() ==> !is_recursive_marker(#[trigger] pat[i]) && wildcard_match(
                pat[i],
                text[i],
            ),
    ensures
        walk(pat, true, text, k, k, rec),
    decreases pat.len() - k,
{
    if k < pat.len() {
        assert(!is_recursive_marker(pat[k]) && wildcard_match(pat[k], text[k]));
        lemma_walk_prefix(pat, text, k + 1, false);
    }
}

/// An absolute pattern without recursive markers is anchored at the
/// candidate's first component: when it matches, its components match the
/// candidate's leading components one by one, and, unless it names a
/// directory, the candidate has no further components.
pub proof fn lemma_absolute_pattern_is_anchored(pattern: PathView, text: PathView)
    requires
        pattern.is_absolute,
        pattern.components.len() > 0,
        forall|i: int|
            0 <= i < pattern.components.len() ==> !is_recursive_marker(
                #[trigger] pattern.components[i],
            ),
        path_matches(pattern, text),
    ensures
        pattern.components.len() <= text.components.len(),
        forall|i: int|
            0 <= i < pattern.components.len() ==> wildcard_match(
                #[trigger] pattern.components[i],
                text.components[i],
            ),
        !pattern.is_directory ==> pattern.components.len() == text.components.len(),
{
    lemma_walk_anchored(pattern.components, pattern.is_directory, text.components, 0);
}

proof fn lemma_walk_anchored(pat: Seq<Seq<char>>, dir: bool, text: Seq<Seq<char>>, k: int)
    requires
        0 <= k <= pat.len(),
        k <= text.len(),
        forall|i: int| 0 <= i < pat.len() ==> !is_recursive_marker(#[trigger] pat[i]),
        walk(pat, dir, text, k, k, false),
    ensures
        pat.len() <= text.len(),
        forall|i: int| k <= i < pat.len() ==> wildcard_match(#[trigger] pat[i], text[i]),
        !dir ==> pat.len() == text.len(),
    decreases pat.len() - k,
{
    if k < pat.len() {
        assert(!is_recursive_marker(pat[k]));
        if k < text.len() {
            lemma_walk_anchored(pat, dir, text, k + 1);
        }
    }
}

/// The directory pattern `ab/cd/` matches every candidate that starts with
/// the components `ab` and `cd` and goes on below them.
pub proof fn lemma_directory_pattern_example(text: PathView)
    requires
        text.components.len() >= 3,
        text.components[0] == seq!['a', 'b'],
        text.components[1] == seq!['c', 'd'],
    ensures
        path_matches(path_of(seq!['a', 'b', '/', 'c', 'd', '/']), text),
{
    let s0 = Seq::<char>::empty();
    let s1 = s0.push('a');
    let s2 = s1.push('b');
    let s3 = s2.push('/');
    let s4 = s3.push('c');
    let s5 = s4.push('d');
    let s = s5.push('/');
    assert(s =~= seq!['a', 'b', '/', 'c', 'd', '/']);
    assert(s1.drop_last() =~= s0);
    assert(s2.drop_last() =~= s1);
    assert(s3.drop_last() =~= s2);
    assert(s4.drop_last() =~= s3);
    assert(s5.drop_last() =~= s4);
    assert(s.drop_last() =~= s5);
    let ab = seq!['a', 'b'];
    let cd = seq!['c', 'd'];
    assert(scan(s0).0 =~= Seq::<Seq<char>>::empty());
    assert(scan(s0).1 =~= Seq::<char>::empty());
    assert(scan(s1).1 =~= seq!['a']);
    assert(scan(s2).1 =~= ab);
    assert(scan(s3).0 =~= seq![ab]);
    assert(scan(s3).1.len() == 0);
    assert(scan(s4).1 =~= seq!['c']);
    assert(scan(s5).1 =~= cd);
    assert(scan(s5).0 =~= seq![ab]);
    assert(scan(s).0 =~= seq![ab, cd]);
    let pattern = path_of(s);
    assert(pattern.components =~= seq![ab, cd]);
    assert(pattern.is_directory);
    lemma_component_matches_itself(seq!['a', 'b']);
    lemma_component_matches_itself(seq!['c', 'd']);
    assert(!is_recursive_marker(seq!['a', 'b']));
    assert(!is_recursive_marker(seq!['c', 'd']));
    lemma_directory_pattern_matches_contents(pattern, text);
}

} // verus!
