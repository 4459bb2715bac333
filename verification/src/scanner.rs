//! Discovery of git repositories under the scan roots: what to do with each
//! directory entry met on the walk, and the list of repository roots found,
//! without repeats and in the order they were found.
use vstd::prelude::*;

use crate::config::{opt_view, same_path, same_path_of, strings_view};
use crate::text::{chars_of, eq_str};

verus! {

broadcast use vstd::string::group_string_axioms;

/// What the walk does with one entry.
#[derive(Debug, Clone, Copy, PartialEq, Eq, Structural)]
pub enum ScanAction {
    /// A `.git` entry: its parent is a repository root; when it is a
    /// directory, the walk does not go into it.
    Repo { skip_dir: bool },
    /// A hidden or excluded directory below the root: the walk skips it whole.
    SkipDir,
    /// Anything else: the walk goes on.
    Continue,
}

/// Directories that are never searched for repositories.
pub open spec fn is_excluded_dir(name: Seq<char>) -> bool {
    name == "node_modules"@ || name == "vendor"@
}

/// A name that starts with a dot.
pub open spec fn is_hidden(name: Seq<char>) -> bool {
    name.len() > 0 && name[0] == '.'
}

/// The action for an entry called `name`, a directory or not, `depth` levels
/// below the scan root.
pub open spec fn scan_action_of(name: Seq<char>, is_dir: bool, depth: int) -> ScanAction {
    if name == ".git"@ {
        ScanAction::Repo { skip_dir: is_dir }
    } else if is_dir && depth > 0 && (is_hidden(name) || is_excluded_dir(name)) {
        ScanAction::SkipDir
    } else {
        ScanAction::Continue
    }
}

/// Only directories are ever skipped, and only below the root: an entry
/// that is not a directory and not called `.git` is passed over whatever
/// its name or depth; a `.git` entry always marks a repository, and the walk
/// stays out of it exactly when it is a directory; and a directory is
/// skipped only when it is hidden or excluded.
pub proof fn lemma_scan_action_law(name: Seq<char>, is_dir: bool, depth: int)
    ensures
        !is_dir && name != ".git"@ ==> scan_action_of(name, is_dir, depth) == ScanAction::Continue,
        name == ".git"@ ==> scan_action_of(name, is_dir, depth) == (ScanAction::Repo { skip_dir: is_dir }),
        scan_action_of(name, is_dir, depth) == ScanAction::SkipDir ==> is_dir && depth > 0 && (
        (name.len() > 0 && name[0] == '.') || name == "node_modules"@ || name == "vendor"@),
        is_dir && depth > 0 && name != ".git"@ && name.len() > 0 && name[0] == '.' ==> scan_action_of(
            name,
            is_dir,
            depth,
        ) == ScanAction::SkipDir,
        is_dir && depth > 0 && (name == "node_modules"@ || name == "vendor"@) ==> scan_action_of(
            name,
            is_dir,
            depth,
        ) == ScanAction::SkipDir,
{
    reveal_strlit(".git");
    reveal_strlit("node_modules");
    reveal_strlit("vendor");
}

/// What the walk does with the entry called `name`.
pub fn scan_action(name: &str, is_dir: bool, depth: usize) -> (r: ScanAction)
    ensures
        r == scan_action_of(name@, is_dir, depth as int),
{
    let v = chars_of(name);
    if eq_str(&v, ".git") {
        return ScanAction::Repo { skip_dir: is_dir };
    }
    let hidden = v.len() > 0 && v[0] == '.';
    let excluded = eq_str(&v, "node_modules") || eq_str(&v, "vendor");
    if is_dir && depth > 0 && (hidden || excluded) {
        ScanAction::SkipDir
    } else {
        ScanAction::Continue
    }
}

/// How deep the walk goes below a scan root for a repository depth of
/// `max_depth`: the repository root may stand `max_depth` levels down, and
/// its `.git` one level further.
pub fn walk_depth(max_depth: u32) -> (r: usize)
    ensures
        r == (if max_depth + 1 <= usize::MAX { max_depth + 1 } else { usize::MAX as int }),
{
    (max_depth as usize).saturating_add(1)
}

/// How many levels below a shallowly scanned root (the downloads folder)
/// a repository root may stand.
pub const SHALLOW_DEPTH: u32 = 1;

/// The repository depth for the scan root `root`: at most `SHALLOW_DEPTH`
/// for the shallow root `shallow` (the same path), `max_depth` otherwise.
pub open spec fn root_depth_of(root: Seq<char>, shallow: Option<Seq<char>>, max_depth: u32) -> u32 {
    match shallow {
        Some(d) if same_path_of(root, d) => if max_depth < SHALLOW_DEPTH {
            max_depth
        } else {
            SHALLOW_DEPTH
        },
        _ => max_depth,
    }
}

/// How deep the walk goes below the scan root `root`, when `shallow` is the
/// root scanned only shallowly (the downloads folder) and `max_depth` the
/// repository depth of the others.
pub fn root_walk_depth(root: &str, shallow: Option<&str>, max_depth: u32) -> (r: usize)
    ensures
        r == (if root_depth_of(root@, opt_str_view(shallow), max_depth) + 1 <= usize::MAX {
            root_depth_of(root@, opt_str_view(shallow), max_depth) + 1
        } else {
            usize::MAX as int
        }),
{
    let depth = match shallow {
        Some(d) => {
            if same_path(root, d) {
                if max_depth < SHALLOW_DEPTH {
                    max_depth
                } else {
                    SHALLOW_DEPTH
                }
            } else {
                max_depth
            }
        },
        None => max_depth,
    };
    walk_depth(depth)
}

/// The text of an optional `&str`.
pub open spec fn opt_str_view(o: Option<&str>) -> Option<Seq<char>> {
    match o {
        Some(s) => Some(s@),
        None => None,
    }
}

/// What `Path::parent` gives for a path, as text.
pub uninterp spec fn path_parent(p: Seq<char>) -> Option<Seq<char>>;

/// The directory that holds `path`, from `std::path::Path::parent` (`None`
/// for a root or an empty path), as text. The contract claims only that the
/// result is a function of the path, named `path_parent`; how components are
/// split is not restated.
#[verifier::external_body]
fn parent_dir(path: &str) -> (r: Option<String>)
    ensures
        opt_view(r) == path_parent(path@),
{
    match std::path::Path::new(path).parent() {
        Some(p) => Some(p.to_string_lossy().into_owned()),
        None => None,
    }
}

/// Some item of `s` is the same path as `p`.
pub open spec fn path_listed(s: Seq<Seq<char>>, p: Seq<char>) -> bool {
    exists|k: int| 0 <= k < s.len() && same_path_of(#[trigger] s[k], p)
}

/// `s` with `p` added at the end, unless the same path is already there.
pub open spec fn insert_new(s: Seq<Seq<char>>, p: Seq<char>) -> Seq<Seq<char>> {
    if path_listed(s, p) {
        s
    } else {
        s.push(p)
    }
}

/// No path occurs twice: no item is the same path as an earlier one.
pub open spec fn distinct(s: Seq<Seq<char>>) -> bool {
    forall|i: int, j: int| 0 <= i < j < s.len() ==> !same_path_of(#[trigger] s[i], #[trigger] s[j])
}

/// The repository roots found so far.
pub struct RepoList {
    roots: Vec<String>,
}

impl View for RepoList {
    type V = Seq<Seq<char>>;

    closed spec fn view(&self) -> Seq<Seq<char>> {
        strings_view(self.roots@)
    }
}

impl RepoList {
    /// An empty list.
    pub fn new() -> (r: RepoList)
        ensures
            r@ == Seq::<Seq<char>>::empty(),
    {
        RepoList { roots: Vec::new() }
    }

    /// Adds the repository root `root`, unless the same path is already
    /// listed.
    pub fn insert(&mut self, root: String)
        ensures
            final(self)@ == insert_new(old(self)@, root@),
    {
        let ghost s = self@;
        let mut found = false;
        let mut i: usize = 0;
        while i < self.roots.len()
            invariant
                i <= self.roots.len(),
                s == self@,
                s == strings_view(self.roots@),
                found ==> path_listed(s, root@),
                !found ==> forall|j: int| 0 <= j < i ==> !same_path_of(#[trigger] s[j], root@),
            decreases self.roots.len() - i,
        {
            if !found && same_path(self.roots[i].as_str(), root.as_str()) {
                assert(s[i as int] == self.roots@[i as int]@);
                found = true;
            }
            i = i + 1;
        }
        if !found {
            self.roots.push(root);
            proof {
                assert(strings_view(self.roots@) =~= s.push(root@));
            }
        }
    }

    /// Records a `.git` entry found at `git_path`: its parent directory is a
    /// repository root.
    pub fn insert_git_entry(&mut self, git_path: &str)
        ensures
            match path_parent(git_path@) {
                Some(p) => final(self)@ == insert_new(old(self)@, p),
                None => final(self)@ == old(self)@,
            },
    {
        match parent_dir(git_path) {
            Some(p) => self.insert(p),
            None => {},
        }
    }

    /// The roots, in the order they were found.
    pub fn into_roots(self) -> (r: Vec<String>)
        ensures
            strings_view(r@) == self@,
    {
        self.roots
    }
}

/// The roots found are listed once each: adding a root to a list without
/// repeats gives a list without repeats.
pub proof fn lemma_insert_keeps_distinct(s: Seq<Seq<char>>, p: Seq<char>)
    requires
        distinct(s),
    ensures
        distinct(insert_new(s, p)),
{
}

/// Adding a root keeps the earlier ones, in their order, at the front, and
/// the root is then listed.
pub proof fn lemma_insert_keeps_order(s: Seq<Seq<char>>, p: Seq<char>)
    ensures
        insert_new(s, p).len() >= s.len(),
        insert_new(s, p).take(s.len() as int) == s,
        path_listed(insert_new(s, p), p),
{
    if !path_listed(s, p) {
        assert(insert_new(s, p).take(s.len() as int) =~= s);
        assert(insert_new(s, p)[s.len() as int] == p);
    } else {
        assert(insert_new(s, p).take(s.len() as int) =~= s);
    }
}

} // verus!
