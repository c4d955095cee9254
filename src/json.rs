//! Rendering of group results as a JSON object, keys in ascending order.
use vstd::prelude::*;
use crate::text::{chars_of, string_of};
use crate::report::result_views;

verus! {

/// An entry of the output: a group name and its result.
pub type Entry = (Seq<char>, bool);

/// Lexicographic order of character sequences, by code point; a proper
/// prefix comes first. For strings this is the order of `String`'s `Ord`.
pub open spec fn key_less(a: Seq<char>, b: Seq<char>) -> bool
    decreases a.len(),
{
    if a.len() == 0 {
        b.len() > 0
    } else if b.len() == 0 {
        false
    } else if a[0] != b[0] {
        (a[0] as u32) < (b[0] as u32)
    } else {
        key_less(a.drop_first(), b.drop_first())
    }
}

/// Keys never decrease from one entry to the next.
pub open spec fn sorted_by_key(s: Seq<Entry>) -> bool {
    forall|i: int, j: int| 0 <= i < j < s.len() ==> !key_less(#[trigger] s[j].0, #[trigger] s[i].0)
}

/// One line of the object: `  "name": true`, a comma unless it is the last.
pub open spec fn entry_line(e: Entry, last: bool) -> Seq<char> {
    "  \""@ + e.0 + "\": "@ + (if e.1 {
        "true"@
    } else {
        "false"@
    }) + (if last {
        Seq::<char>::empty()
    } else {
        seq![',']
    }) + seq!['\n']
}

/// The lines of the first `n` entries of `s`.
pub open spec fn entry_lines(s: Seq<Entry>, n: nat) -> Seq<char>
    decreases n,
{
    if n == 0 || n > s.len() {
        Seq::<char>::empty()
    } else {
        entry_lines(s, (n - 1) as nat) + entry_line(s[n - 1], n == s.len())
    }
}

/// The JSON object of the entries, in the order given.
pub open spec fn json_text(s: Seq<Entry>) -> Seq<char> {
    "{\n"@ + entry_lines(s, s.len()) + "}"@
}

proof fn lemma_key_less_transitive(a: Seq<char>, b: Seq<char>, c: Seq<char>)
    requires
        key_less(a, b),
        key_less(b, c),
    ensures
        key_less(a, c),
    decreases a.len(),
{
    if a.len() > 0 && b.len() > 0 && c.len() > 0 && a[0] == b[0] && b[0] == c[0] {
        lemma_key_less_transitive(a.drop_first(), b.drop_first(), c.drop_first());
    }
}

proof fn lemma_key_less_irreflexive(a: Seq<char>)
    ensures
        !key_less(a, a),
    decreases a.len(),
{
    if a.len() > 0 {
        lemma_key_less_irreflexive(a.drop_first());
    }
}

/// Whether `a` comes strictly before `b`.
fn key_lt(a: &Vec<char>, b: &Vec<char>) -> (r: bool)
    ensures
        r == key_less(a@, b@),
{
    let mut i: usize = 0;
    proof {
        assert(a@.skip(0) =~= a@);
        assert(b@.skip(0) =~= b@);
    }
    while i < a.len() && i < b.len() && a[i] == b[i]
        invariant
            i <= a@.len(),
            i <= b@.len(),
            key_less(a@, b@) == key_less(a@.skip(i as int), b@.skip(i as int)),
        decreases a@.len() - i,
    {
        proof {
            assert(a@.skip(i as int).drop_first() =~= a@.skip(i + 1));
            assert(b@.skip(i as int).drop_first() =~= b@.skip(i + 1));
        }
        i += 1;
    }
    proof {
        if i < a.len() {
            assert(a@.skip(i as int)[0] == a@[i as int]);
        }
        if i < b.len() {
            assert(b@.skip(i as int)[0] == b@[i as int]);
        }
    }
    if i == a.len() {
        i < b.len()
    } else if i == b.len() {
        false
    } else {
        (a[i] as u32) < (b[i] as u32)
    }
}

/// The view of a list of entries.
pub open spec fn entry_views(v: Seq<(Vec<char>, bool)>) -> Seq<Entry> {
    v.map_values(|e: (Vec<char>, bool)| (e.0@, e.1))
}

/// Inserts `e` after every entry whose key is not greater than its own.
fn insert_sorted(out: &mut Vec<(Vec<char>, bool)>, e: (Vec<char>, bool))
    requires
        sorted_by_key(entry_views(old(out)@)),
    ensures
        sorted_by_key(entry_views(final(out)@)),
        entry_views(final(out)@).to_multiset() == entry_views(old(out)@).to_multiset().insert(
            (e.0@, e.1),
        ),
{
    let ghost s = entry_views(out@);
    let ghost ev = (e.0@, e.1);
    let mut p: usize = 0;
    while p < out.len()
        invariant
            s == entry_views(out@),
            p <= out@.len(),
            ev == (e.0@, e.1),
            forall|q: int| 0 <= q < p ==> !key_less(ev.0, #[trigger] s[q].0),
        ensures
            p <= out@.len(),
            forall|q: int| 0 <= q < p ==> !key_less(ev.0, #[trigger] s[q].0),
            p < out@.len() ==> key_less(ev.0, s[p as int].0),
        decreases out@.len() - p,
    {
        assert(s[p as int].0 == out@[p as int].0@);
        if key_lt(&e.0, &out[p].0) {
            break;
        }
        p += 1;
    }
    out.insert(p, e);
    proof {
        assert(entry_views(out@) =~= s.insert(p as int, ev));
        lemma_insert_keeps_sorted(s, p as int, ev);
        lemma_insert_multiset(s, p as int, ev);
    }
}

proof fn lemma_insert_multiset(s: Seq<Entry>, p: int, ev: Entry)
    requires
        0 <= p <= s.len(),
    ensures
        s.insert(p, ev).to_multiset() == s.to_multiset().insert(ev),
{
    broadcast use vstd::seq_lib::group_to_multiset_ensures;

    let a = s.subrange(0, p);
    let b = s.subrange(p, s.len() as int);
    assert(s =~= a + b);
    assert(s.insert(p, ev) =~= a.push(ev) + b);
    vstd::seq_lib::lemma_multiset_commutative(a.push(ev), b);
    vstd::seq_lib::lemma_multiset_commutative(a, b);
}

proof fn lemma_insert_keeps_sorted(s: Seq<Entry>, p: int, ev: Entry)
    requires
        0 <= p <= s.len(),
        sorted_by_key(s),
        forall|q: int| 0 <= q < p ==> !key_less(ev.0, #[trigger] s[q].0),
        p < s.len() ==> key_less(ev.0, s[p].0),
    ensures
        sorted_by_key(s.insert(p, ev)),
{
    let t = s.insert(p, ev);
    s.insert_ensures(p, ev);
    assert forall|i: int, j: int| 0 <= i < j < t.len() implies !key_less(
        #[trigger] t[j].0,
        #[trigger] t[i].0,
    ) by {
        if j < p {
            assert(t[i] == s[i] && t[j] == s[j]);
        } else if j == p {
            assert(t[i] == s[i]);
        } else if i < p {
            assert(t[i] == s[i] && t[j] == s[j - 1]);
        } else if i == p {
            assert(t[j] == s[j - 1]);
            if key_less(s[j - 1].0, ev.0) {
                lemma_key_less_transitive(s[j - 1].0, ev.0, s[p].0);
                lemma_key_less_irreflexive(s[p].0);
            }
        } else {
            assert(t[i] == s[i - 1] && t[j] == s[j - 1]);
        }
    }
}

/// Appends the characters of `s`.
fn push_all(out: &mut Vec<char>, s: &[char])
    ensures
        final(out)@ == old(out)@ + s@,
{
    let ghost start = out@;
    let mut i: usize = 0;
    while i < s.len()
        invariant
            i <= s@.len(),
            out@ =~= start + s@.subrange(0, i as int),
        decreases s@.len() - i,
    {
        out.push(s[i]);
        i += 1;
    }
    proof {
        assert(s@.subrange(0, s@.len() as int) =~= s@);
    }
}

/// Renders the results as a JSON object with one `"name": bool` pair per
/// line, keys in ascending order.
pub fn generate_json(results: &Vec<(String, bool)>) -> (r: String)
    ensures
        exists|s: Seq<Entry>|
            s.to_multiset() == result_views(results@).to_multiset() && sorted_by_key(s) && r@
                == json_text(s),
{
    let ghost rv = result_views(results@);
    let mut entries: Vec<(Vec<char>, bool)> = Vec::new();
    let mut i: usize = 0;
    proof {
        assert(entry_views(entries@) =~= Seq::<Entry>::empty());
        assert(rv.take(0) =~= Seq::<Entry>::empty());
    }
    while i < results.len()
        invariant
            rv == result_views(results@),
            i <= results@.len(),
            sorted_by_key(entry_views(entries@)),
            entry_views(entries@).to_multiset() == rv.take(i as int).to_multiset(),
        decreases results@.len() - i,
    {
        let key = chars_of(results[i].0.as_str());
        assert(rv[i as int] == (key@, results@[i as int].1));
        insert_sorted(&mut entries, (key, results[i].1));
        proof {
            broadcast use vstd::seq_lib::group_to_multiset_ensures;

            assert(rv.take(i + 1) =~= rv.take(i as int).push(rv[i as int]));
        }
        i += 1;
    }
    proof {
        assert(rv.take(i as int) =~= rv);
    }
    let ghost s = entry_views(entries@);
    let mut out = chars_of("{\n");
    let n = entries.len();
    let mut k: usize = 0;
    while k < n
        invariant
            s == entry_views(entries@),
            n == s.len(),
            k <= n,
            out@ == "{\n"@ + entry_lines(s, k as nat),
        decreases n - k,
    {
        let ghost before = out@;
        let open_quote = chars_of("  \"");
        push_all(&mut out, open_quote.as_slice());
        push_all(&mut out, entries[k].0.as_slice());
        let colon = chars_of("\": ");
        push_all(&mut out, colon.as_slice());
        let value = if entries[k].1 {
            chars_of("true")
        } else {
            chars_of("false")
        };
        push_all(&mut out, value.as_slice());
        if k + 1 < n {
            out.push(',');
        }
        out.push('\n');
        proof {
            let e = s[k as int];
            assert(e == (entries@[k as int].0@, entries@[k as int].1));
            assert(out@ =~= before + entry_line(e, k + 1 == n));
            assert(entry_lines(s, (k + 1) as nat) == entry_lines(s, k as nat) + entry_line(e, k + 1 == n));
        }
        k += 1;
    }
    let close = chars_of("}");
    push_all(&mut out, close.as_slice());
    string_of(out.as_slice())
}

} // verus!
