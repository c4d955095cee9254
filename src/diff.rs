//! The list of changed files, one path per line.
use vstd::prelude::*;
use crate::matching::{MatchPath, PathView, path_of};
use crate::text::{chars_of, split_lines, trim_chars, lines_of, trim, char_views};

verus! {

/// The changed files, as candidate paths in the order given.
pub struct DiffFiles {
    pub files: Vec<MatchPath>,
}

/// The candidate paths of some lines: each line without its surrounding
/// whitespace, blank lines skipped.
pub open spec fn changed_paths(lines: Seq<Seq<char>>) -> Seq<PathView>
    decreases lines.len(),
{
    if lines.len() == 0 {
        seq![]
    } else {
        let prev = changed_paths(lines.drop_last());
        let t = trim(lines.last());
        if t.len() == 0 {
            prev
        } else {
            prev.push(path_of(t))
        }
    }
}

/// The views of a list of paths.
pub open spec fn path_views(v: Seq<MatchPath>) -> Seq<PathView> {
    v.map_values(|p: MatchPath| p@)
}

impl DiffFiles {
    /// Reads the changed files from text with one path per line.
    pub fn from_text(text: &str) -> (r: DiffFiles)
        ensures
            path_views(r.files@) == changed_paths(lines_of(text@)),
    {
        let chars = chars_of(text);
        let lines = split_lines(chars.as_slice());
        let ghost lv = lines_of(text@);
        let mut files: Vec<MatchPath> = Vec::new();
        let mut i: usize = 0;
        while i < lines.len()
            invariant
                char_views(lines@) == lv,
                lv.len() == lines@.len(),
                i <= lines@.len(),
                path_views(files@) == changed_paths(lv.take(i as int)),
            decreases lines@.len() - i,
        {
            let t = trim_chars(lines[i].as_slice());
            proof {
                assert(lv.take(i + 1).drop_last() =~= lv.take(i as int));
                assert(lv.take(i + 1).last() == lines@[i as int]@);
            }
            if t.len() > 0 {
                let ghost before = files@;
                files.push(MatchPath::new(t.as_slice()));
                proof {
                    assert(path_views(files@) =~= path_views(before).push(path_of(t@)));
                }
            }
            i += 1;
        }
        proof {
            assert(lv.take(lines@.len() as int) =~= lv);
        }
        DiffFiles { files }
    }
}

} // verus!
