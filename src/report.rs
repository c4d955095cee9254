//! Per-group results: which groups have a changed file that matches one of
//! their patterns.
use vstd::prelude::*;
use crate::config::{Config, SectionView, string_views};
use crate::diff::{DiffFiles, path_views};
use crate::matching::{MatchPath, PathView, path_of, path_matches};

verus! {

/// Whether some file of `files` satisfies some pattern of `patterns`.
pub open spec fn group_matched(patterns: Seq<Seq<char>>, files: Seq<PathView>) -> bool {
    exists|j: int, k: int|
        0 <= j < files.len() && 0 <= k < patterns.len() && path_matches(
            path_of(#[trigger] patterns[k]),
            #[trigger] files[j],
        )
}

/// The result of each group, in the order of the groups.
pub open spec fn group_results(sections: Seq<SectionView>, files: Seq<PathView>) -> Seq<(Seq<char>, bool)> {
    sections.map_values(|s: SectionView| (s.0, group_matched(s.1, files)))
}

/// The views of a list of results.
pub open spec fn result_views(v: Seq<(String, bool)>) -> Seq<(Seq<char>, bool)> {
    v.map_values(|e: (String, bool)| (e.0@, e.1))
}

/// Whether some pattern of `patterns` is satisfied by `file`.
fn any_pattern_matches(patterns: &Vec<MatchPath>, file: &MatchPath) -> (r: bool)
    ensures
        r == exists|k: int| 0 <= k < patterns@.len() && path_matches(#[trigger] patterns@[k]@, file@),
{
    let mut k: usize = 0;
    while k < patterns.len()
        invariant
            k <= patterns@.len(),
            forall|q: int| 0 <= q < k ==> !path_matches(#[trigger] patterns@[q]@, file@),
        decreases patterns@.len() - k,
    {
        if patterns[k].is_match(file) {
            return true;
        }
        k += 1;
    }
    false
}

/// Whether some file of the list satisfies some pattern of the group.
fn group_matches(items: &Vec<String>, files: &Vec<MatchPath>) -> (r: bool)
    ensures
        r == group_matched(string_views(items@), path_views(files@)),
{
    let ghost pv = string_views(items@);
    let ghost fv = path_views(files@);
    let mut patterns: Vec<MatchPath> = Vec::new();
    let mut k: usize = 0;
    while k < items.len()
        invariant
            pv == string_views(items@),
            k <= items@.len(),
            patterns@.len() == k,
            forall|q: int| 0 <= q < k ==> (#[trigger] patterns@[q])@ == path_of(pv[q]),
        decreases items@.len() - k,
    {
        patterns.push(MatchPath::from_str(items[k].as_str()));
        k += 1;
    }
    let mut j: usize = 0;
    while j < files.len()
        invariant
            pv == string_views(items@),
            fv == path_views(files@),
            j <= files@.len(),
            patterns@.len() == pv.len(),
            forall|q: int| 0 <= q < pv.len() ==> (#[trigger] patterns@[q])@ == path_of(pv[q]),
            forall|f: int, q: int|
                0 <= f < j && 0 <= q < pv.len() ==> !path_matches(
                    path_of(#[trigger] pv[q]),
                    #[trigger] fv[f],
                ),
        decreases files@.len() - j,
    {
        if any_pattern_matches(&patterns, &files[j]) {
            proof {
                let q = choose|q: int|
                    0 <= q < patterns@.len() && path_matches(#[trigger] patterns@[q]@, files@[j as int]@);
                assert(path_matches(path_of(pv[q]), fv[j as int]));
            }
            return true;
        }
        proof {
            assert forall|f: int, q: int|
                0 <= f < j + 1 && 0 <= q < pv.len() implies !path_matches(
                path_of(#[trigger] pv[q]),
                #[trigger] fv[f],
            ) by {
                if f == j {
                    assert(!path_matches(patterns@[q]@, files@[j as int]@));
                }
            }
        }
        j += 1;
    }
    false
}

/// For each group of the configuration, in order, its name and whether some
/// changed file matches one of its patterns.
pub fn check_patterns(config: &Config, diff_files: &DiffFiles) -> (r: Vec<(String, bool)>)
    ensures
        result_views(r@) == group_results(config@, path_views(diff_files.files@)),
{
    let ghost fv = path_views(diff_files.files@);
    let mut results: Vec<(String, bool)> = Vec::new();
    let mut i: usize = 0;
    while i < config.sections.len()
        invariant
            fv == path_views(diff_files.files@),
            i <= config@.len(),
            config@.len() == config.sections@.len(),
            result_views(results@) == group_results(config@, fv).take(i as int),
        decreases config.sections@.len() - i,
    {
        let section = &config.sections[i];
        let matched = group_matches(&section.items, &diff_files.files);
        let ghost before = results@;
        let name = section.name.clone();
        results.push((name, matched));
        proof {
            assert(config@[i as int] == (section.name@, string_views(section.items@)));
            assert(result_views(results@) =~= result_views(before).push((name@, matched)));
            assert(result_views(results@) =~= group_results(config@, fv).take(i + 1));
        }
        i += 1;
    }
    proof {
        assert(group_results(config@, fv).take(i as int) =~= group_results(config@, fv));
    }
    results
}

} // verus!
