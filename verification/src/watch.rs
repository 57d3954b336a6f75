//! Which files matter: ignore rules, and the table of watched directories.

use ignore::gitignore::{Gitignore, GitignoreBuilder};

use vstd::prelude::*;

use crate::collections;
use crate::collections::{StrMap, StrSet};
use crate::paths;
use crate::text;

verus! {

// ── Ignore rules ────────────────────────────────────────────────

/// The ignore rules of one directory, being gathered.
#[verifier::external_type_specification]
#[verifier::external_body]
pub struct ExGitignoreBuilder(GitignoreBuilder);

/// The ignore rules of one directory.
#[verifier::external_type_specification]
#[verifier::external_body]
pub struct ExGitignore(Gitignore);

/// The lines that a builder was given.
pub uninterp spec fn builder_lines(b: GitignoreBuilder) -> Seq<Seq<char>>;

/// The directory that a builder was made for.
pub uninterp spec fn builder_root(b: GitignoreBuilder) -> Seq<char>;

/// The lines that rules were built from.
pub uninterp spec fn rule_lines(g: Gitignore) -> Seq<Seq<char>>;

/// The directory that rules were built for.
pub uninterp spec fn rule_root(g: Gitignore) -> Seq<char>;

/// Whether the lines of an ignore file in `root` have `path` ignored.
pub uninterp spec fn ignored_by(root: Seq<char>, lines: Seq<Seq<char>>, path: Seq<char>) -> bool;

/// `GitignoreBuilder::new`: a builder for a directory, without any lines.
#[verifier::external_body]
fn new_builder(root: &str) -> (r: GitignoreBuilder)
    ensures
        builder_root(r) == root@,
        builder_lines(r) == Seq::<Seq<char>>::empty(),
{
    GitignoreBuilder::new(root)
}

/// `GitignoreBuilder::add_line`: gives a builder one more line. A line that is no valid glob is
/// remembered here as given, and has no effect on what is ignored.
#[verifier::external_body]
fn add_line(builder: &mut GitignoreBuilder, line: &str)
    ensures
        builder_root(*final(builder)) == builder_root(*old(builder)),
        builder_lines(*final(builder)) == builder_lines(*old(builder)).push(line@),
{
    let _ = builder.add_line(None, line);
}

/// `GitignoreBuilder::build`: the rules of the lines that a builder was given. Where they cannot be
/// built together, `Gitignore::empty` stands in, which ignores nothing; whether that happens is
/// decided by the lines alone.
#[verifier::external_body]
fn build_rules(builder: &GitignoreBuilder) -> (r: Gitignore)
    ensures
        rule_root(r) == builder_root(*builder),
        rule_lines(r) == builder_lines(*builder),
{
    builder.build().unwrap_or_else(|_| Gitignore::empty())
}

/// `Gitignore::matched_path_or_any_parents`, for a path that is no directory: whether the rules
/// have the path, or a directory above it, ignored. The glob rules are not stated; the result is a
/// function of the directory, the lines and the path, and without lines nothing is ignored. The
/// path must lie in the directory of the rules: once a leading `./`, the directory and a slash are
/// taken off, what is left must not begin with a slash, or the call fails.
#[verifier::external_body]
fn rules_ignore(rules: &Gitignore, path: &str) -> (r: bool)
    requires
        within(path@, rule_root(*rules)),
    ensures
        r == ignored_by(rule_root(*rules), rule_lines(*rules), path@),
        rule_lines(*rules).len() == 0 ==> !r,
{
    rules.matched_path_or_any_parents(path, false).is_ignore()
}

/// Whether the text of a path begins with that of a directory, with no superfluous slash in front of
/// what is left of it. Every path begins with the empty directory; there a slash may stand in front,
/// and a `./` before that.
pub open spec fn within(path: Seq<char>, dir: Seq<char>) -> bool {
    match paths::cut(path, dir) {
        Some(rest) => if dir.len() == 0 {
            !text::has_prefix(rest, "//"@) && !text::has_prefix(rest, ".///"@)
        } else {
            !text::has_prefix(rest, "/"@)
        },
        None => false,
    }
}

/// Tests whether the rules of a directory can be asked about a path.
pub fn is_well_placed(path: &str, dir: &str) -> (r: bool)
    ensures
        r == within(path@, dir@),
{
    match paths::cut_dir(path, dir) {
        Some(rest) => if dir.is_empty() {
            !text::starts_with(rest, "//") && !text::starts_with(rest, ".///")
        } else {
            !text::starts_with(rest, "/")
        },
        None => false,
    }
}

/// The character that may mark the start of a Unicode text.
pub open spec fn without_mark(line: Seq<char>) -> Seq<char>
    decreases line.len(),
{
    if line.len() > 0 && line[0] == '\u{feff}' {
        without_mark(line.skip(1))
    } else {
        line
    }
}

fn skip_mark(line: &str) -> (r: &str)
    ensures
        r@ == without_mark(line@),
{
    let n: usize = line.unicode_len();
    let mut i: usize = 0;
    proof {
        assert(line@.skip(0) =~= line@);
    }
    while i < n && line.get_char(i) == '\u{feff}'
        invariant
            n == line@.len(),
            i <= n,
            without_mark(line@) == without_mark(line@.skip(i as int)),
        decreases n - i,
    {
        proof {
            assert(line@.skip(i as int).skip(1) =~= line@.skip(i + 1));
        }
        i += 1;
    }
    proof {
        assert(line@.subrange(i as int, n as int) =~= line@.skip(i as int));
    }
    line.substring_char(i, n)
}

/// The lines of an ignore file as they are read: the mark in front of the first is left out.
pub open spec fn read_lines(lines: Seq<Seq<char>>) -> Seq<Seq<char>> {
    Seq::new(
        lines.len(),
        |i: int|
            if i == 0 {
                without_mark(lines[i])
            } else {
                lines[i]
            },
    )
}

/// Builds the ignore rules of a worktree from the lines of its ignore file.
pub fn build_gitignore(worktree: &str, lines: &Vec<String>) -> (r: Gitignore)
    ensures
        rule_root(r) == worktree@,
        rule_lines(r) == read_lines(text::texts(lines@)),
{
    let ghost ts = read_lines(text::texts(lines@));
    let mut builder = new_builder(worktree);
    let mut i: usize = 0;
    proof {
        assert(ts.take(0) =~= Seq::<Seq<char>>::empty());
    }
    while i < lines.len()
        invariant
            ts == read_lines(text::texts(lines@)),
            i <= lines@.len(),
            builder_root(builder) == worktree@,
            builder_lines(builder) == ts.take(i as int),
        decreases lines.len() - i,
    {
        let line = if i == 0 {
            skip_mark(lines[i].as_str())
        } else {
            lines[i].as_str()
        };
        add_line(&mut builder, line);
        proof {
            assert(ts[i as int] == line@);
            assert(ts.take(i + 1) =~= ts.take(i as int).push(line@));
        }
        i += 1;
    }
    proof {
        assert(ts.take(i as int) =~= ts);
    }
    build_rules(&builder)
}

/// The files that git lists, each ended by a zero character, as paths of a worktree in normal form.
pub open spec fn listed_paths(worktree: Seq<char>, output: Seq<char>) -> Set<Seq<char>> {
    Set::new(
        |p: Seq<char>|
            exists|i: int|
                0 <= i < text::pieces(output, '\0').len() && (#[trigger] text::pieces(output, '\0')[i]).len() > 0 && p
                    == paths::normal(
                    paths::joined(worktree, text::pieces(output, '\0')[i]),
                ),
    )
}

/// Reads which tracked files match the ignore rules, from git's listing of them.
pub fn ignored_tracked_paths(worktree: &str, output: &str) -> (r: StrSet)
    ensures
        r@ == listed_paths(worktree@, output@),
{
    let pieces = text::split(output, '\0');
    let ghost ps = text::pieces(output@, '\0');
    let mut r = StrSet::new();
    let mut i: usize = 0;
    while i < pieces.len()
        invariant
            text::texts(pieces@) == ps,
            i <= pieces@.len(),
            forall|p: Seq<char>| #[trigger]
                r@.contains(p) <==> exists|j: int|
                    0 <= j < i && (#[trigger] ps[j]).len() > 0 && p == paths::normal(paths::joined(worktree@, ps[j])),
        decreases pieces.len() - i,
    {
        let ghost before = r@;
        let piece = pieces[i].as_str();
        proof {
            assert(ps[i as int] == piece@);
        }
        if !piece.is_empty() {
            let whole = paths::join(worktree, piece);
            r.insert(paths::normal_form(whole.as_str()));
        }
        proof {
            assert forall|p: Seq<char>| #[trigger]
                r@.contains(p) <==> exists|j: int|
                    0 <= j < i + 1 && (#[trigger] ps[j]).len() > 0 && p == paths::normal(paths::joined(worktree@, ps[j])) by {
                if before.contains(p) {
                    let j = choose|j: int|
                        0 <= j < i && (#[trigger] ps[j]).len() > 0 && p == paths::normal(paths::joined(worktree@, ps[j]));
                    assert(ps[j].len() > 0);
                }
                if ps[i as int].len() > 0 && p == paths::normal(paths::joined(worktree@, ps[i as int])) {
                    assert(r@.contains(p));
                }
            }
        }
        i += 1;
    }
    proof {
        assert(ps.len() == pieces@.len());
        assert(r@ =~= listed_paths(worktree@, output@));
    }
    r
}

// ── Events ──────────────────────────────────────────────────────

/// Whether a path below a worktree belongs to git itself.
pub open spec fn is_metadata(rel: Seq<char>) -> bool {
    text::has_prefix(rel, ".git/"@) || rel == ".git"@
}

/// Whether git metadata says nothing of the status: objects and logs, which change much.
pub open spec fn is_bulk(rel: Seq<char>) -> bool {
    text::has_prefix(rel, ".git/objects/"@) || text::has_prefix(rel, ".git/logs/"@)
}

/// Whether a change of a file is passed over. Files outside the worktree are git's own and never
/// are; of git's metadata, only the bulk is; a tracked file never is, whatever the rules say.
pub open spec fn passed_over(path: Seq<char>, worktree: Seq<char>, in_index: bool, ruled_out: bool) -> bool {
    match paths::relative(path, worktree) {
        None => false,
        Some(rel) => if is_metadata(rel) {
            is_bulk(rel)
        } else {
            !in_index && ruled_out
        },
    }
}

/// Decides on a change, given whether the file is tracked and whether the rules have it ignored.
pub fn event_passed_over(path: &str, worktree: &str, in_index: bool, ruled_out: bool) -> (r: bool)
    ensures
        r == passed_over(path@, worktree@, in_index, ruled_out),
{
    match paths::strip_dir(path, worktree) {
        None => false,
        Some(rel) => if text::starts_with(rel.as_str(), ".git/") || text::same(rel.as_str(), ".git") {
            text::starts_with(rel.as_str(), ".git/objects/") || text::starts_with(rel.as_str(), ".git/logs/")
        } else {
            !in_index && ruled_out
        },
    }
}

/// Whether each worktree's rules are its own.
pub open spec fn rules_fit(rules: Map<Seq<char>, Gitignore>) -> bool {
    forall|w: Seq<char>| #[trigger] rules.dom().contains(w) ==> rule_root(rules[w]) == w
}

/// Whether the rules of a worktree have a path ignored.
pub open spec fn ruled_out(rules: Map<Seq<char>, Gitignore>, worktree: Seq<char>, path: Seq<char>) -> bool {
    rules.dom().contains(worktree) && ignored_by(worktree, rule_lines(rules[worktree]), path)
}

/// Whether a path is known to be tracked although the rules match it.
pub open spec fn known_tracked(in_index: Map<Seq<char>, StrSet>, worktree: Seq<char>, path: Seq<char>) -> bool {
    in_index.dom().contains(worktree) && in_index[worktree]@.contains(paths::normal(path))
}

/// Whether the rules of a worktree are asked about a path: where it lies in the worktree, belongs
/// neither to git itself nor to the known files, and there are rules.
pub open spec fn rules_asked(
    path: Seq<char>,
    worktree: Seq<char>,
    rules: Map<Seq<char>, Gitignore>,
    in_index: Map<Seq<char>, StrSet>,
) -> bool {
    &&& paths::relative(path, worktree) matches Some(rel)
    &&& !is_metadata(rel)
    &&& !known_tracked(in_index, worktree, path)
    &&& rules.dom().contains(worktree)
}

fn is_known_tracked(in_index: &StrMap<StrSet>, worktree: &str, path: &str) -> (r: bool)
    ensures
        r == known_tracked(in_index@, worktree@, path@),
{
    match in_index.get(worktree) {
        Some(known) => {
            let form = paths::normal_form(path);
            known.contains(form.as_str())
        },
        None => false,
    }
}

/// Tests whether a change of a file can be judged: whether the rules can be asked where they are.
pub fn can_judge(
    event_path: &str,
    worktree: &str,
    gitignores: &StrMap<Gitignore>,
    ignored_tracked_paths: &StrMap<StrSet>,
) -> (r: bool)
    ensures
        r == (rules_asked(event_path@, worktree@, gitignores@, ignored_tracked_paths@) ==> within(
            event_path@,
            worktree@,
        )),
{
    let rel = match paths::strip_dir(event_path, worktree) {
        Some(rel) => rel,
        None => return true,
    };
    if text::starts_with(rel.as_str(), ".git/") || text::same(rel.as_str(), ".git") {
        return true;
    }
    gitignores.get(worktree).is_none() || is_known_tracked(ignored_tracked_paths, worktree, event_path)
        || is_well_placed(event_path, worktree)
}

/// Whether a change of a file is passed over.
pub fn is_event_ignored(
    event_path: &str,
    worktree: &str,
    gitignores: &StrMap<Gitignore>,
    ignored_tracked_paths: &StrMap<StrSet>,
) -> (r: bool)
    requires
        rules_fit(gitignores@),
        rules_asked(event_path@, worktree@, gitignores@, ignored_tracked_paths@) ==> within(event_path@, worktree@),
    ensures
        r == passed_over(
            event_path@,
            worktree@,
            known_tracked(ignored_tracked_paths@, worktree@, event_path@),
            ruled_out(gitignores@, worktree@, event_path@),
        ),
{
    let rel = match paths::strip_dir(event_path, worktree) {
        Some(rel) => rel,
        None => return false,
    };
    if text::starts_with(rel.as_str(), ".git/") || text::same(rel.as_str(), ".git") {
        return event_passed_over(event_path, worktree, false, false);
    }
    if is_known_tracked(ignored_tracked_paths, worktree, event_path) {
        return false;
    }
    match gitignores.get(worktree) {
        Some(rules) => rules_ignore(rules, event_path),
        None => false,
    }
}

/// A change of git metadata that tells of a commit, staging or a branch is never passed over, nor
/// is a tracked file, nor anything outside the worktree.
pub proof fn law_telling_changes_are_seen(path: Seq<char>, worktree: Seq<char>, in_index: bool, ruled_out: bool)
    ensures
        match paths::relative(path, worktree) {
            None => !passed_over(path, worktree, in_index, ruled_out),
            Some(rel) => !is_bulk(rel) && (is_metadata(rel) || in_index) ==> !passed_over(
                path,
                worktree,
                in_index,
                ruled_out,
            ),
        },
{
}

/// A change reported by the system.
#[derive(Debug)]
pub struct WatchEvent {
    /// Whether changes were lost, so that everything is to be looked at again.
    pub rescan: bool,
    /// Whether files were only read.
    pub access: bool,
    pub paths: Vec<String>,
}

pub fn git_event_requires_recovery(event: &WatchEvent) -> (r: bool)
    ensures
        r == event.rescan,
{
    event.rescan
}

/// Whether `part` occurs in `s`, from `i` on.
pub open spec fn occurs(s: Seq<char>, part: Seq<char>, i: int) -> bool
    decreases s.len() + 1 - i,
{
    if i < 0 || i + part.len() > s.len() {
        false
    } else {
        s.subrange(i, i + part.len()) == part || occurs(s, part, i + 1)
    }
}

fn contains(s: &str, part: &str) -> (r: bool)
    ensures
        r == occurs(s@, part@, 0),
{
    let n: usize = s.unicode_len();
    let m: usize = part.unicode_len();
    if m > n {
        return false;
    }
    let last: usize = n - m;
    let mut i: usize = 0;
    while i < last
        invariant
            n == s@.len(),
            m == part@.len(),
            last + m == n,
            i <= last,
            occurs(s@, part@, 0) == occurs(s@, part@, i as int),
        decreases last - i,
    {
        if text::same(s.substring_char(i, i + m), part) {
            return true;
        }
        i += 1;
    }
    proof {
        assert(!occurs(s@, part@, i + 1));
    }
    text::same(s.substring_char(i, i + m), part)
}

/// Whether a path lies in git's objects or logs.
pub open spec fn in_bulk(path: Seq<char>) -> bool {
    occurs(path, "/.git/objects/"@, 0) || occurs(path, "/.git/logs/"@, 0)
}

/// Whether an event tells of nothing but git's objects and logs. One that says that changes were
/// lost tells of more, whatever paths it names.
pub fn is_noise(event: &WatchEvent) -> (r: bool)
    ensures
        r == (!event.rescan && forall|i: int|
            0 <= i < event.paths@.len() ==> in_bulk((#[trigger] event.paths@[i])@)),
{
    if event.rescan {
        return false;
    }
    let mut i: usize = 0;
    while i < event.paths.len()
        invariant
            !event.rescan,
            i <= event.paths@.len(),
            forall|j: int| 0 <= j < i ==> in_bulk((#[trigger] event.paths@[j])@),
        decreases event.paths.len() - i,
    {
        let p = event.paths[i].as_str();
        if !contains(p, "/.git/objects/") && !contains(p, "/.git/logs/") {
            return false;
        }
        i += 1;
    }
    true
}

// ── Watched directories ─────────────────────────────────────────

/// A directory to watch for a worktree.
#[derive(Debug)]
pub struct WorktreeWatchSpec {
    pub path: String,
    pub recursive: bool,
}

/// A watch, by its contents.
pub open spec fn spec_model(s: WorktreeWatchSpec) -> (Seq<char>, bool) {
    (s.path@, s.recursive)
}

pub open spec fn spec_models(specs: Seq<WorktreeWatchSpec>) -> Seq<(Seq<char>, bool)> {
    Seq::new(specs.len(), |i: int| spec_model(specs[i]))
}

/// What `.git` in a worktree is.
#[derive(Debug)]
pub enum DotGit {
    Missing,
    Directory { refs: bool },
    /// A file that points to the directory of a linked worktree, and the directory that it shares
    /// with others. `refs` tells whether that holds references.
    Link { git_dir: Option<String>, common_dir: Option<String>, refs: bool },
}

/// What is watched of git's metadata. For a linked worktree, its own directory and the shared one.
pub open spec fn metadata_specs(worktree: Seq<char>, dot_git: DotGit) -> Seq<(Seq<char>, bool)> {
    match dot_git {
        DotGit::Missing => seq![],
        DotGit::Directory { refs } => {
            let dir = paths::joined(worktree, ".git"@);
            if refs {
                seq![(dir, false), (paths::joined(dir, "refs"@), true)]
            } else {
                seq![(dir, false)]
            }
        },
        DotGit::Link { git_dir, common_dir, refs } => match (git_dir, common_dir) {
            (None, _) => seq![],
            (Some(own), None) => seq![(own@, false)],
            (Some(own), Some(shared)) => if refs {
                seq![(own@, false), (paths::joined(shared@, "refs"@), true), (shared@, false)]
            } else {
                seq![(own@, false), (shared@, false)]
            },
        },
    }
}

/// Everything that is watched for a worktree; its files too, where the platform bears that.
pub open spec fn watch_specs(worktree: Seq<char>, dot_git: DotGit, files: bool) -> Seq<(Seq<char>, bool)> {
    metadata_specs(worktree, dot_git) + (if files {
        seq![(worktree, true)]
    } else {
        seq![]
    })
}

/// Lists the watches that a worktree needs.
pub fn worktree_watch_specs(worktree: &str, dot_git: &DotGit, watch_worktree_files: bool) -> (r: Vec<WorktreeWatchSpec>)
    ensures
        spec_models(r@) == watch_specs(worktree@, *dot_git, watch_worktree_files),
{
    let mut r: Vec<WorktreeWatchSpec> = Vec::new();
    match dot_git {
        DotGit::Missing => {},
        DotGit::Directory { refs } => {
            let dir = paths::join(worktree, ".git");
            let below = paths::join(dir.as_str(), "refs");
            r.push(WorktreeWatchSpec { path: dir, recursive: false });
            if *refs {
                r.push(WorktreeWatchSpec { path: below, recursive: true });
            }
        },
        DotGit::Link { git_dir, common_dir, refs } => {
            match git_dir {
                Some(own) => {
                    r.push(WorktreeWatchSpec { path: own.clone(), recursive: false });
                    match common_dir {
                        Some(shared) => {
                            if *refs {
                                r.push(
                                    WorktreeWatchSpec { path: paths::join(shared.as_str(), "refs"), recursive: true },
                                );
                            }
                            r.push(WorktreeWatchSpec { path: shared.clone(), recursive: false });
                        },
                        None => {},
                    }
                },
                None => {},
            }
        },
    }
    if watch_worktree_files {
        r.push(WorktreeWatchSpec { path: worktree.to_owned(), recursive: true });
    }
    proof {
        assert(spec_models(r@) =~= watch_specs(worktree@, *dot_git, watch_worktree_files));
    }
    r
}

/// The directory that a `.git` file points to.
pub open spec fn linked_dir(worktree: Seq<char>, content: Seq<char>) -> Option<Seq<char>> {
    match text::without_prefix(content, "gitdir: "@) {
        Some(rest) => Some(paths::joined(worktree, text::trimmed(rest))),
        None => None,
    }
}

/// Reads the `.git` file of a linked worktree. A relative path starts from the worktree.
pub fn read_git_file(worktree: &str, content: &str) -> (r: Option<String>)
    ensures
        text::optional(r) == linked_dir(worktree@, content@),
{
    match text::strip_prefix(content, "gitdir: ") {
        Some(rest) => Some(paths::join(worktree, text::trim(rest))),
        None => None,
    }
}

/// Reads which directory a linked worktree shares with others.
pub fn read_common_dir(git_dir: &str, content: &str) -> (r: String)
    ensures
        r@ == paths::joined(git_dir@, text::trimmed(content@)),
{
    paths::join(git_dir, text::trim(content))
}

/// Which directories are watched, and for which worktrees.
pub struct WatchTable {
    /// The worktrees that need a watched directory.
    pub watch_to_worktrees: StrMap<StrSet>,
    /// The directories that are watched for a worktree.
    pub worktree_watches: StrMap<Vec<String>>,
    /// Whether everything that a worktree needs is watched.
    pub watch_complete: StrMap<bool>,
}

impl WatchTable {
    /// The worktrees that need a directory.
    pub open spec fn users(&self, path: Seq<char>) -> Set<Seq<char>> {
        if self.watch_to_worktrees@.dom().contains(path) {
            self.watch_to_worktrees@[path]@
        } else {
            Set::empty()
        }
    }

    /// The directories that are watched for a worktree.
    pub open spec fn watched(&self, worktree: Seq<char>) -> Seq<Seq<char>> {
        if self.worktree_watches@.dom().contains(worktree) {
            text::texts(self.worktree_watches@[worktree]@)
        } else {
            seq![]
        }
    }

    /// Whether both sides of the table agree, and no directory is watched for nobody.
    pub open spec fn consistent(&self) -> bool {
        &&& forall|p: Seq<char>, w: Seq<char>| #[trigger] self.users(p).contains(w) <==> self.watched(w).contains(p)
        &&& forall|p: Seq<char>| #[trigger]
            self.watch_to_worktrees@.dom().contains(p) ==> self.users(p) != Set::<Seq<char>>::empty()
    }

    pub fn new() -> (r: Self)
        ensures
            r.consistent(),
            r.worktree_watches@ == Map::<Seq<char>, Vec<String>>::empty(),
            r.watch_complete@ == Map::<Seq<char>, bool>::empty(),
    {
        WatchTable { watch_to_worktrees: StrMap::new(), worktree_watches: StrMap::new(), watch_complete: StrMap::new() }
    }

    /// Whether a directory is watched already.
    pub fn is_watched(&self, path: &str) -> (r: bool)
        ensures
            r == (self.users(path@) != Set::<Seq<char>>::empty()),
    {
        match self.watch_to_worktrees.get(path) {
            Some(users) => !users.is_empty(),
            None => false,
        }
    }

    /// Notes that a worktree needs a directory, where it is watched already or `watching` tells that
    /// it is now. Returns whether it is.
    pub fn add_watch(&mut self, path: &str, worktree: &str, watching: bool) -> (r: bool)
        ensures
            r == (watching || old(self).users(path@) != Set::<Seq<char>>::empty()),
            forall|p: Seq<char>| #[trigger]
                final(self).users(p) == (if r && p == path@ {
                    old(self).users(p).insert(worktree@)
                } else {
                    old(self).users(p)
                }),
            forall|p: Seq<char>| #[trigger]
                final(self).watch_to_worktrees@.dom().contains(p) <==> old(self).watch_to_worktrees@.dom().contains(p)
                    || (r && p == path@),
            final(self).worktree_watches == old(self).worktree_watches,
            final(self).watch_complete == old(self).watch_complete,
    {
        if !watching && !self.is_watched(path) {
            return false;
        }
        let mut users = match self.watch_to_worktrees.remove(path) {
            Some(users) => users,
            None => StrSet::new(),
        };
        users.insert(worktree.to_owned());
        self.watch_to_worktrees.insert(path.to_owned(), users);
        true
    }

    /// Notes that a worktree no longer needs a directory. Returns whether nobody does, so that it
    /// need not be watched.
    pub fn remove_worktree_watch(&mut self, path: &str, worktree: &str) -> (r: bool)
        ensures
            r == (old(self).watch_to_worktrees@.dom().contains(path@) && old(self).users(path@).remove(worktree@)
                == Set::<Seq<char>>::empty()),
            forall|p: Seq<char>| #[trigger]
                final(self).users(p) == (if p == path@ {
                    old(self).users(p).remove(worktree@)
                } else {
                    old(self).users(p)
                }),
            forall|p: Seq<char>| #[trigger]
                final(self).watch_to_worktrees@.dom().contains(p) <==> old(self).watch_to_worktrees@.dom().contains(p)
                    && !(r && p == path@),
            final(self).worktree_watches == old(self).worktree_watches,
            final(self).watch_complete == old(self).watch_complete,
    {
        match self.watch_to_worktrees.remove(path) {
            Some(mut users) => {
                users.remove(worktree);
                if users.is_empty() {
                    return true;
                }
                self.watch_to_worktrees.insert(path.to_owned(), users);
                false
            },
            None => {
                proof {
                    assert(old(self).users(path@).remove(worktree@) =~= old(self).users(path@));
                    assert(old(self).watch_to_worktrees@.remove(path@) =~= old(self).watch_to_worktrees@);
                }
                false
            },
        }
    }
}

/// The directories that end up watched for a worktree, after its first `k` needs: those that were
/// watched already, and those that watching succeeded for.
pub open spec fn attached(table: WatchTable, specs: Seq<(Seq<char>, bool)>, outcomes: Seq<bool>, k: int) -> Seq<Seq<char>>
    decreases k,
{
    if k <= 0 {
        seq![]
    } else {
        let before = attached(table, specs, outcomes, k - 1);
        let path = specs[k - 1].0;
        if outcomes[k - 1] || table.users(path) != Set::<Seq<char>>::empty() || before.contains(path) {
            before.push(path)
        } else {
            before
        }
    }
}

impl WatchTable {
    /// Notes that a worktree needs nothing any more. Returns the directories that nobody needs,
    /// which are to be left alone.
    pub fn detach_worktree_watches(&mut self, worktree: &str) -> (gone: Vec<String>)
        requires
            old(self).consistent(),
        ensures
            final(self).consistent(),
            forall|p: Seq<char>| #[trigger] final(self).users(p) == old(self).users(p).remove(worktree@),
            final(self).worktree_watches@ == old(self).worktree_watches@.remove(worktree@),
            final(self).watch_complete == old(self).watch_complete,
            forall|p: Seq<char>| #[trigger]
                text::texts(gone@).contains(p) <==> old(self).users(p) == set![worktree@],
            text::texts(gone@).no_duplicates(),
    {
        let mut gone: Vec<String> = Vec::new();
        let ghost was = *self;
        let held = match self.worktree_watches.remove(worktree) {
            Some(held) => held,
            None => {
                proof {
                    assert(was.watched(worktree@) =~= Seq::<Seq<char>>::empty());
                    assert forall|p: Seq<char>| #[trigger] self.users(p) == was.users(p).remove(worktree@) by {
                        assert(!was.users(p).contains(worktree@)) by {
                            assert(!was.watched(worktree@).contains(p));
                        }
                        assert(was.users(p).remove(worktree@) =~= was.users(p));
                    }
                    assert(was.worktree_watches@.remove(worktree@) =~= was.worktree_watches@);
                    assert(text::texts(gone@) =~= Seq::<Seq<char>>::empty());
                    assert forall|p: Seq<char>| was.users(p) != set![worktree@] by {
                        if was.users(p) == set![worktree@] {
                            assert(was.users(p).contains(worktree@));
                            assert(was.watched(worktree@).contains(p));
                        }
                    }
                    self.lemma_still_consistent(was, worktree@);
                }
                return gone;
            },
        };
        let ghost ts = text::texts(held@);
        let ghost mid = *self;
        let mut i: usize = 0;
        proof {
            assert(ts == was.watched(worktree@));
            assert(text::texts(gone@) =~= Seq::<Seq<char>>::empty());
            collections::lemma_met(ts, 0);
        }
        while i < held.len()
            invariant
                ts == text::texts(held@),
                ts == was.watched(worktree@),
                was.consistent(),
                i <= held@.len(),
                forall|p: Seq<char>| #[trigger]
                    self.users(p) == (if collections::met(ts, i as int, p) {
                        was.users(p).remove(worktree@)
                    } else {
                        was.users(p)
                    }),
                forall|p: Seq<char>| #[trigger]
                    self.watch_to_worktrees@.dom().contains(p) ==> self.users(p) != Set::<Seq<char>>::empty(),
                forall|p: Seq<char>| #[trigger]
                    text::texts(gone@).contains(p) <==> collections::met(ts, i as int, p) && was.users(p).remove(
                        worktree@,
                    ) == Set::<Seq<char>>::empty(),
                text::texts(gone@).no_duplicates(),
                self.worktree_watches == mid.worktree_watches,
                self.watch_complete == mid.watch_complete,
            decreases held.len() - i,
        {
            let path = held[i].as_str();
            let ghost before = *self;
            let ghost listed = text::texts(gone@);
            proof {
                assert(ts[i as int] == path@);
                assert(ts.contains(path@));
                assert(was.users(path@).contains(worktree@));
                collections::lemma_met(ts, i as int);
            }
            let free = self.remove_worktree_watch(path, worktree);
            if free {
                gone.push(path.to_owned());
                proof {
                    assert(text::texts(gone@) =~= listed.push(path@));
                    assert(!collections::met(ts, i as int, path@)) by {
                        if collections::met(ts, i as int, path@) {
                            assert(before.users(path@) != Set::<Seq<char>>::empty());
                            assert(was.users(path@).remove(worktree@).remove(worktree@) =~= was.users(path@).remove(
                                worktree@,
                            ));
                        }
                    }
                    assert(!listed.contains(path@));
                    assert forall|p: Seq<char>| #[trigger]
                        text::texts(gone@).contains(p) <==> listed.contains(p) || p == path@ by {
                        if listed.contains(p) {
                            let j = choose|j: int| 0 <= j < listed.len() && listed[j] == p;
                            assert(text::texts(gone@)[j] == p);
                        }
                        if p == path@ {
                            assert(text::texts(gone@)[listed.len() as int] == p);
                        }
                    }
                }
            }
            proof {
                assert forall|p: Seq<char>| #[trigger]
                    self.users(p) == (if collections::met(ts, i + 1, p) {
                        was.users(p).remove(worktree@)
                    } else {
                        was.users(p)
                    }) by {
                    assert(self.users(p) == (if p == path@ {
                        before.users(p).remove(worktree@)
                    } else {
                        before.users(p)
                    }));
                    assert(was.users(p).remove(worktree@).remove(worktree@) =~= was.users(p).remove(worktree@));
                }
                assert forall|p: Seq<char>| #[trigger]
                    self.watch_to_worktrees@.dom().contains(p) implies self.users(p) != Set::<Seq<char>>::empty() by {
                    assert(before.watch_to_worktrees@.dom().contains(p));
                    assert(self.users(p) == (if p == path@ {
                        before.users(p).remove(worktree@)
                    } else {
                        before.users(p)
                    }));
                }
                if !free && was.users(path@).remove(worktree@) == Set::<Seq<char>>::empty() {
                    assert(self.users(path@) == Set::<Seq<char>>::empty());
                    assert(before.users(path@).remove(worktree@) == Set::<Seq<char>>::empty());
                    assert(!before.watch_to_worktrees@.dom().contains(path@));
                    assert(before.users(path@) == Set::<Seq<char>>::empty());
                    assert(collections::met(ts, i as int, path@)) by {
                        if !collections::met(ts, i as int, path@) {
                            assert(before.users(path@) == was.users(path@));
                        }
                    }
                }
            }
            i += 1;
        }
        proof {
            collections::lemma_met(ts, ts.len() as int);
            assert forall|p: Seq<char>| #[trigger] self.users(p) == was.users(p).remove(worktree@) by {
                if !ts.contains(p) {
                    assert(!was.users(p).contains(worktree@)) by {
                        if was.users(p).contains(worktree@) {
                            assert(was.watched(worktree@).contains(p));
                        }
                    }
                    assert(was.users(p).remove(worktree@) =~= was.users(p));
                }
            }
            assert forall|p: Seq<char>| #[trigger]
                text::texts(gone@).contains(p) <==> was.users(p) == set![worktree@] by {
                if was.users(p) == set![worktree@] {
                    assert(was.users(p).contains(worktree@));
                    assert(was.watched(worktree@).contains(p));
                    assert(was.users(p).remove(worktree@) =~= Set::<Seq<char>>::empty());
                }
                if text::texts(gone@).contains(p) {
                    assert(was.watched(worktree@).contains(p));
                    assert(was.users(p).contains(worktree@));
                    assert(was.users(p) =~= set![worktree@]) by {
                        assert forall|w: Seq<char>| was.users(p).contains(w) implies w == worktree@ by {
                            if w != worktree@ {
                                assert(was.users(p).remove(worktree@).contains(w));
                            }
                        }
                    }
                }
            }
            self.lemma_still_consistent(was, worktree@);
        }
        gone
    }

    proof fn lemma_still_consistent(self, was: WatchTable, worktree: Seq<char>)
        requires
            was.consistent(),
            forall|p: Seq<char>| #[trigger] self.users(p) == was.users(p).remove(worktree),
            self.worktree_watches@ == was.worktree_watches@.remove(worktree),
            forall|p: Seq<char>| #[trigger]
                self.watch_to_worktrees@.dom().contains(p) ==> self.users(p) != Set::<Seq<char>>::empty(),
        ensures
            self.consistent(),
    {
        assert forall|p: Seq<char>, w: Seq<char>| #[trigger]
            self.users(p).contains(w) <==> self.watched(w).contains(p) by {
            if w == worktree {
                assert(self.watched(w) =~= Seq::<Seq<char>>::empty());
            } else {
                assert(self.watched(w) == was.watched(w));
                assert(was.users(p).contains(w) <==> was.watched(w).contains(p));
            }
        }
    }

    /// Notes what is watched for a worktree, given what it needs and whether each of these
    /// directories is watched by now.
    pub fn setup_worktree_watches(&mut self, worktree: &str, specs: &Vec<WorktreeWatchSpec>, outcomes: &Vec<bool>)
        requires
            old(self).consistent(),
            !old(self).worktree_watches@.dom().contains(worktree@),
            specs@.len() == outcomes@.len(),
        ensures
            final(self).consistent(),
            ({
                let now = attached(*old(self), spec_models(specs@), outcomes@, specs@.len() as int);
                &&& forall|p: Seq<char>| #[trigger]
                    final(self).users(p) == (if now.contains(p) {
                        old(self).users(p).insert(worktree@)
                    } else {
                        old(self).users(p)
                    })
                &&& final(self).watched(worktree@) == now
                &&& forall|w: Seq<char>|
                    w != worktree@ ==> #[trigger] final(self).watched(w) == old(self).watched(w)
                &&& final(self).watch_complete@ == old(self).watch_complete@.insert(
                    worktree@,
                    specs@.len() > 0 && now.len() == specs@.len(),
                )
            }),
            final(self).worktree_watches@.dom() == old(self).worktree_watches@.dom().insert(worktree@),
    {
        let ghost was = *self;
        let ghost ms = spec_models(specs@);
        let mut watched: Vec<String> = Vec::new();
        let mut i: usize = 0;
        proof {
            assert(text::texts(watched@) =~= Seq::<Seq<char>>::empty());
        }
        while i < specs.len()
            invariant
                was.consistent(),
                !was.worktree_watches@.dom().contains(worktree@),
                specs@.len() == outcomes@.len(),
                ms == spec_models(specs@),
                i <= specs@.len(),
                text::texts(watched@) == attached(was, ms, outcomes@, i as int),
                watched@.len() <= i,
                forall|p: Seq<char>| #[trigger]
                    self.users(p) == (if attached(was, ms, outcomes@, i as int).contains(p) {
                        was.users(p).insert(worktree@)
                    } else {
                        was.users(p)
                    }),
                forall|p: Seq<char>| #[trigger]
                    self.watch_to_worktrees@.dom().contains(p) ==> self.users(p) != Set::<Seq<char>>::empty(),
                self.worktree_watches == was.worktree_watches,
                self.watch_complete == was.watch_complete,
            decreases specs.len() - i,
        {
            let path = specs[i].path.as_str();
            let ghost before = *self;
            let ghost listed = attached(was, ms, outcomes@, i as int);
            proof {
                assert(ms[i as int].0 == path@);
                assert(was.users(path@).insert(worktree@).contains(worktree@));
            }
            if self.add_watch(path, worktree, outcomes[i]) {
                watched.push(path.to_owned());
                proof {
                    assert(text::texts(watched@) =~= listed.push(path@));
                    assert(attached(was, ms, outcomes@, i + 1) == listed.push(path@)) by {
                        if !outcomes@[i as int] && !listed.contains(path@) {
                            assert(before.users(path@) == was.users(path@));
                        }
                    }
                    assert forall|p: Seq<char>| #[trigger]
                        listed.push(path@).contains(p) <==> listed.contains(p) || p == path@ by {
                        if listed.contains(p) {
                            let j = choose|j: int| 0 <= j < listed.len() && listed[j] == p;
                            assert(listed.push(path@)[j] == p);
                        }
                        if p == path@ {
                            assert(listed.push(path@)[listed.len() as int] == p);
                        }
                    }
                    assert forall|p: Seq<char>| #[trigger]
                        self.users(p) == (if listed.push(path@).contains(p) {
                            was.users(p).insert(worktree@)
                        } else {
                            was.users(p)
                        }) by {
                        assert(self.users(p) == (if p == path@ {
                            before.users(p).insert(worktree@)
                        } else {
                            before.users(p)
                        }));
                        assert(was.users(p).insert(worktree@).insert(worktree@) =~= was.users(p).insert(worktree@));
                    }
                    assert forall|p: Seq<char>| #[trigger]
                        self.watch_to_worktrees@.dom().contains(p) implies self.users(p)
                        != Set::<Seq<char>>::empty() by {
                        if p == path@ {
                            assert(self.users(p).contains(worktree@));
                        }
                    }
                }
            } else {
                proof {
                    assert(attached(was, ms, outcomes@, i + 1) == listed) by {
                        if listed.contains(path@) {
                            assert(before.users(path@).contains(worktree@));
                        }
                    }
                    assert forall|p: Seq<char>| #[trigger] self.users(p) == before.users(p) by {}
                }
            }
            i += 1;
        }
        let ghost now = attached(was, ms, outcomes@, specs@.len() as int);
        let complete = specs.len() > 0 && watched.len() == specs.len();
        proof {
            assert(watched@.len() == now.len()) by {
                assert(text::texts(watched@).len() == watched@.len());
            }
        }
        let ghost mid = *self;
        self.worktree_watches.insert(worktree.to_owned(), watched);
        self.watch_complete.insert(worktree.to_owned(), complete);
        proof {
            assert(self.watched(worktree@) == now);
            assert forall|w: Seq<char>| w != worktree@ implies #[trigger] self.watched(w) == was.watched(w) by {}
            assert forall|p: Seq<char>, w: Seq<char>| #[trigger]
                self.users(p).contains(w) <==> self.watched(w).contains(p) by {
                assert(self.users(p) == mid.users(p));
                assert(was.users(p).contains(w) <==> was.watched(w).contains(p));
                if w == worktree@ {
                    assert(was.watched(w) =~= Seq::<Seq<char>>::empty());
                }
            }
            assert forall|p: Seq<char>| #[trigger]
                self.watch_to_worktrees@.dom().contains(p) implies self.users(p) != Set::<Seq<char>>::empty() by {
                assert(self.users(p) == mid.users(p));
            }
            assert forall|p: Seq<char>| #[trigger] self.users(p) == mid.users(p) by {}
            assert(self.worktree_watches@.dom() =~= was.worktree_watches@.dom().insert(worktree@));
        }
    }

    /// The worktrees that a change at `path` may concern: those that need a directory above it.
    pub open spec fn concerned(&self, path: Seq<char>) -> Set<Seq<char>> {
        Set::new(
            |w: Seq<char>|
                exists|p: Seq<char>| #[trigger] self.users(p).contains(w) && paths::relative(path, p) is Some,
        )
    }

    /// Finds the worktrees that a change at a path may concern.
    pub fn find_worktrees_for_path(&self, event_path: &str) -> (r: StrSet)
        ensures
            r@ == self.concerned(event_path@),
    {
        let mut r = StrSet::new();
        let n: usize = self.watch_to_worktrees.len();
        let ghost keys = self.watch_to_worktrees.keys();
        let mut i: usize = 0;
        proof {
            collections::lemma_met(keys, 0);
        }
        while i < n
            invariant
                n == keys.len(),
                keys == self.watch_to_worktrees.keys(),
                i <= n,
                forall|w: Seq<char>| #[trigger]
                    r@.contains(w) <==> exists|p: Seq<char>| #[trigger]
                        self.users(p).contains(w) && collections::met(keys, i as int, p) && paths::relative(
                            event_path@,
                            p,
                        ) is Some,
            decreases n - i,
        {
            let dir = self.watch_to_worktrees.key_at(i);
            let ghost before = r@;
            proof {
                collections::lemma_met(keys, i as int);
            }
            if paths::strip_dir(event_path, dir.as_str()).is_some() {
                r.add_all(self.watch_to_worktrees.value_at(i));
            }
            proof {
                assert forall|w: Seq<char>| #[trigger]
                    r@.contains(w) <==> exists|p: Seq<char>| #[trigger]
                        self.users(p).contains(w) && collections::met(keys, i + 1, p) && paths::relative(
                            event_path@,
                            p,
                        ) is Some by {
                    if before.contains(w) {
                        let p = choose|p: Seq<char>| #[trigger]
                            self.users(p).contains(w) && collections::met(keys, i as int, p) && paths::relative(
                                event_path@,
                                p,
                            ) is Some;
                        assert(self.users(p).contains(w) && collections::met(keys, i + 1, p));
                    }
                    if paths::relative(event_path@, dir@) is Some && self.users(dir@).contains(w) {
                        assert(collections::met(keys, i + 1, dir@));
                        assert(r@.contains(w));
                    }
                }
            }
            i += 1;
        }
        proof {
            self.watch_to_worktrees.lemma_keys();
            collections::lemma_met(keys, n as int);
            assert forall|w: Seq<char>| r@.contains(w) <==> self.concerned(event_path@).contains(w) by {
                if self.concerned(event_path@).contains(w) {
                    let p = choose|p: Seq<char>| #[trigger]
                        self.users(p).contains(w) && paths::relative(event_path@, p) is Some;
                    assert(self.watch_to_worktrees@.dom().contains(p));
                    assert(collections::met(keys, n as int, p));
                }
            }
            assert(r@ =~= self.concerned(event_path@));
        }
        r
    }

    /// Forgets whether the watches of a worktree are complete.
    pub fn forget(&mut self, worktree: &str)
        requires
            old(self).consistent(),
        ensures
            final(self).consistent(),
            *final(self) == (WatchTable { watch_complete: final(self).watch_complete, ..*old(self) }),
            final(self).watch_complete@ == old(self).watch_complete@.remove(worktree@),
    {
        self.watch_complete.remove(worktree);
        proof {
            assert forall|p: Seq<char>, w: Seq<char>| #[trigger]
                self.users(p).contains(w) <==> self.watched(w).contains(p) by {
                assert(old(self).users(p).contains(w) <==> old(self).watched(w).contains(p));
            }
            assert forall|p: Seq<char>| #[trigger]
                self.watch_to_worktrees@.dom().contains(p) implies self.users(p) != Set::<Seq<char>>::empty() by {
                assert(old(self).users(p) == self.users(p));
            }
        }
    }

    /// The worktrees that are watched without being active any more.
    pub fn inactive_roots(&self, active: &StrSet) -> (r: StrSet)
        ensures
            r@ == self.worktree_watches@.dom().difference(active@),
    {
        let mut r = self.worktree_watches.key_set();
        let n: usize = active.len();
        let mut i: usize = 0;
        proof {
            collections::lemma_met(active.items(), 0);
        }
        while i < n
            invariant
                n == active.items().len(),
                i <= n,
                forall|w: Seq<char>| #[trigger]
                    r@.contains(w) <==> self.worktree_watches@.dom().contains(w) && !collections::met(
                        active.items(),
                        i as int,
                        w,
                    ),
            decreases n - i,
        {
            r.remove(active.get(i).as_str());
            proof {
                collections::lemma_met(active.items(), i as int);
            }
            i += 1;
        }
        proof {
            active.lemma_items();
            collections::lemma_met(active.items(), n as int);
            assert(r@ =~= self.worktree_watches@.dom().difference(active@));
        }
        r
    }

    /// Whether a worktree is watched.
    pub fn has_root(&self, worktree: &str) -> (r: bool)
        ensures
            r == self.worktree_watches@.dom().contains(worktree@),
    {
        self.worktree_watches.contains_key(worktree)
    }

    /// Whether everything that a worktree needs is watched.
    pub fn is_complete(&self, worktree: &str) -> (r: bool)
        ensures
            r == (collections::lookup(self.watch_complete@, worktree@) == Some(true)),
    {
        match self.watch_complete.get(worktree) {
            Some(complete) => *complete,
            None => false,
        }
    }
}

// ── What is watched for ─────────────────────────────────────────

/// Changes of git's objects and logs are passed over, its other metadata never is; a file of the worktree
/// is passed over exactly where the rules have it ignored and git does not follow it; what lies outside
/// never is.
pub proof fn law_ignored_files_are_passed_over(path: Seq<char>, worktree: Seq<char>, in_index: bool, ruled: bool)
    ensures
        match paths::relative(path, worktree) {
            None => !passed_over(path, worktree, in_index, ruled),
            Some(rel) => {
                let git = rel == ".git"@ || text::has_prefix(rel, ".git/"@);
                let bulk = text::has_prefix(rel, ".git/objects/"@) || text::has_prefix(rel, ".git/logs/"@);
                &&& git && bulk ==> passed_over(path, worktree, in_index, ruled)
                &&& git && !bulk ==> !passed_over(path, worktree, in_index, ruled)
                &&& !git && in_index ==> !passed_over(path, worktree, in_index, ruled)
                &&& !git && !in_index ==> passed_over(path, worktree, in_index, ruled) == ruled
            },
        },
{
}

/// The mark of a Unicode text is left out of the first line of an ignore file, and of that alone.
pub proof fn law_marks_are_left_out(lines: Seq<Seq<char>>, line: Seq<char>, i: int)
    requires
        0 <= i < lines.len(),
    ensures
        read_lines(lines).len() == lines.len(),
        i > 0 ==> read_lines(lines)[i] == lines[i],
        lines[0].len() == 0 || lines[0][0] != '\u{feff}' ==> read_lines(lines)[0] == lines[0],
        without_mark(seq!['\u{feff}'] + line) == without_mark(line),
        without_mark(line).len() > 0 ==> without_mark(line)[0] != '\u{feff}',
    decreases line.len(),
{
    let s = seq!['\u{feff}'] + line;
    assert(s.skip(1) =~= line);
    if line.len() > 0 && line[0] == '\u{feff}' {
        law_marks_are_left_out(lines, line.skip(1), i);
    }
}

proof fn lemma_occurs(s: Seq<char>, part: Seq<char>, i: int)
    requires
        0 <= i,
    ensures
        occurs(s, part, i) <==> exists|k: int|
            i <= k && k + part.len() <= s.len() && #[trigger] s.subrange(k, k + part.len()) == part,
    decreases s.len() + 1 - i,
{
    if i + part.len() <= s.len() {
        lemma_occurs(s, part, i + 1);
        if s.subrange(i, i + part.len()) == part {
            assert(s.subrange(i, i + part.len()) == part);
        } else if exists|k: int|
            i <= k && k + part.len() <= s.len() && #[trigger] s.subrange(k, k + part.len()) == part {
            let k = choose|k: int|
                i <= k && k + part.len() <= s.len() && #[trigger] s.subrange(k, k + part.len()) == part;
            assert(k >= i + 1);
            assert(s.subrange(k, k + part.len()) == part);
        }
    }
}

/// A path lies in git's objects or logs exactly where the name of their directory occurs in it.
pub proof fn law_bulk_is_found_in_paths(front: Seq<char>, rest: Seq<char>, path: Seq<char>)
    ensures
        in_bulk(front + "/.git/objects/"@ + rest),
        in_bulk(front + "/.git/logs/"@ + rest),
        in_bulk(path) ==> exists|k: int|
            0 <= k && ((k + "/.git/objects/"@.len() <= path.len() && #[trigger] path.subrange(
                k,
                k + "/.git/objects/"@.len(),
            ) == "/.git/objects/"@) || (k + "/.git/logs/"@.len() <= path.len() && path.subrange(
                k,
                k + "/.git/logs/"@.len(),
            ) == "/.git/logs/"@)),
{
    let a = front + "/.git/objects/"@ + rest;
    let b = front + "/.git/logs/"@ + rest;
    lemma_occurs(a, "/.git/objects/"@, 0);
    lemma_occurs(b, "/.git/logs/"@, 0);
    assert(a.subrange(front.len() as int, front.len() as int + "/.git/objects/"@.len()) =~= "/.git/objects/"@);
    assert(b.subrange(front.len() as int, front.len() as int + "/.git/logs/"@.len()) =~= "/.git/logs/"@);
    lemma_occurs(path, "/.git/objects/"@, 0);
    lemma_occurs(path, "/.git/logs/"@, 0);
    if in_bulk(path) {
        if occurs(path, "/.git/objects/"@, 0) {
            let k = choose|k: int|
                0 <= k && k + "/.git/objects/"@.len() <= path.len() && #[trigger] path.subrange(
                    k,
                    k + "/.git/objects/"@.len(),
                ) == "/.git/objects/"@;
            assert(path.subrange(k, k + "/.git/objects/"@.len()) == "/.git/objects/"@);
        } else {
            let k = choose|k: int|
                0 <= k && k + "/.git/logs/"@.len() <= path.len() && #[trigger] path.subrange(
                    k,
                    k + "/.git/logs/"@.len(),
                ) == "/.git/logs/"@;
            let x = path.subrange(k, k + "/.git/objects/"@.len());
            assert(path.subrange(k, k + "/.git/logs/"@.len()) == "/.git/logs/"@);
        }
    }
}

/// For a worktree, git's own directory is watched, and its references with all that lies below; for a
/// linked one, its own directory, and the one that it shares with others, with that one's references. Its
/// files are watched, with all that lies below, exactly where that is asked for. Without a `.git` nothing
/// else is.
pub proof fn law_worktrees_are_watched(worktree: Seq<char>, dot_git: DotGit, files: bool)
    ensures
        ({
            let specs = watch_specs(worktree, dot_git, files);
            let meta = watch_specs(worktree, dot_git, false);
            &&& files ==> specs == meta.push((worktree, true))
            &&& !files ==> specs == meta
            &&& dot_git is Missing ==> meta.len() == 0
            &&& dot_git matches DotGit::Directory { refs } ==> {
                let dir = paths::joined(worktree, ".git"@);
                &&& meta.len() >= 1 && meta[0] == (dir, false)
                &&& refs ==> meta == seq![(dir, false), (paths::joined(dir, "refs"@), true)]
                &&& !refs ==> meta == seq![(dir, false)]
            }
            &&& dot_git matches DotGit::Link { git_dir, common_dir, refs } ==> {
                &&& git_dir is None ==> meta.len() == 0
                &&& git_dir is Some && common_dir is None ==> meta == seq![(git_dir->0@, false)]
                &&& git_dir is Some && common_dir is Some ==> meta.contains((git_dir->0@, false)) && meta.contains(
                    (common_dir->0@, false),
                ) && (refs ==> meta.contains((paths::joined(common_dir->0@, "refs"@), true)))
            }
        }),
{
    let meta = watch_specs(worktree, dot_git, false);
    assert(meta =~= metadata_specs(worktree, dot_git));
    assert(watch_specs(worktree, dot_git, true) =~= meta.push((worktree, true)));
    if let DotGit::Link { git_dir, common_dir, refs } = dot_git {
        if git_dir is Some && common_dir is Some {
            assert(meta[0] == (git_dir->0@, false));
            if refs {
                assert(meta[1] == (paths::joined(common_dir->0@, "refs"@), true));
                assert(meta[2] == (common_dir->0@, false));
            } else {
                assert(meta[1] == (common_dir->0@, false));
            }
        }
    }
}

/// A `.git` file points to the directory behind its key, from the worktree on; a file without the key
/// points nowhere.
pub proof fn law_links_are_read(worktree: Seq<char>, dir: Seq<char>, other: Seq<char>)
    requires
        !text::has_prefix(other, "gitdir: "@),
    ensures
        linked_dir(worktree, "gitdir: "@ + dir) == Some(paths::joined(worktree, text::trimmed(dir))),
        linked_dir(worktree, other) is None,
{
    let s = "gitdir: "@ + dir;
    let n = "gitdir: "@.len() as int;
    assert(s.take(n) =~= "gitdir: "@);
    assert(s.skip(n) =~= dir);
}

proof fn lemma_attached(table: WatchTable, specs: Seq<(Seq<char>, bool)>, outcomes: Seq<bool>, k: int)
    requires
        0 <= k <= specs.len() == outcomes.len(),
    ensures
        attached(table, specs, outcomes, k).len() <= k,
        forall|i: int|
            0 <= i < k && (outcomes[i] || table.users((#[trigger] specs[i]).0) != Set::<Seq<char>>::empty()) ==> attached(
                table,
                specs,
                outcomes,
                k,
            ).contains(specs[i].0),
        attached(table, specs, outcomes, k).len() == k ==> forall|i: int|
            0 <= i < k ==> attached(table, specs, outcomes, k).contains((#[trigger] specs[i]).0),
    decreases k,
{
    if k > 0 {
        lemma_attached(table, specs, outcomes, k - 1);
        let before = attached(table, specs, outcomes, k - 1);
        let after = attached(table, specs, outcomes, k);
        assert forall|p: Seq<char>| before.contains(p) implies #[trigger] after.contains(p) by {
            let j = choose|j: int| 0 <= j < before.len() && before[j] == p;
            assert(after[j] == p);
        }
        if after.len() > before.len() {
            assert(after[after.len() - 1] == specs[k - 1].0);
        }
    }
}

/// What a worktree needs is watched for it wherever watching succeeded or others have it watched already.
/// Its watches are complete only where all that it needs is.
pub proof fn law_watches_are_shared(table: WatchTable, specs: Seq<(Seq<char>, bool)>, outcomes: Seq<bool>, i: int)
    requires
        0 <= i < specs.len() == outcomes.len(),
    ensures
        ({
            let now = attached(table, specs, outcomes, specs.len() as int);
            &&& outcomes[i] ==> now.contains(specs[i].0)
            &&& table.users(specs[i].0) != Set::<Seq<char>>::empty() ==> now.contains(specs[i].0)
            &&& now.len() == specs.len() ==> now.contains(specs[i].0)
        }),
{
    lemma_attached(table, specs, outcomes, specs.len() as int);
    assert(specs[i] == specs[i]);
}

/// A change concerns the worktrees that have a directory above it watched, and no other.
pub proof fn law_changes_concern_those_who_watch(table: WatchTable, path: Seq<char>, dir: Seq<char>, w: Seq<char>)
    ensures
        table.watch_to_worktrees@.dom().contains(dir) && table.watch_to_worktrees@[dir]@.contains(w) && paths::relative(
            path,
            dir,
        ) is Some ==> table.concerned(path).contains(w),
        (forall|d: Seq<char>| table.watch_to_worktrees@.dom().contains(d) ==> !(#[trigger] table.watch_to_worktrees@[d])@.contains(w))
            ==> !table.concerned(path).contains(w),
{
    if table.watch_to_worktrees@.dom().contains(dir) && table.watch_to_worktrees@[dir]@.contains(w) {
        assert(table.users(dir).contains(w));
    }
    if table.concerned(path).contains(w) {
        let d = choose|d: Seq<char>| #[trigger] table.users(d).contains(w) && paths::relative(path, d) is Some;
        assert(table.watch_to_worktrees@[d]@.contains(w));
    }
}

/// Git's list of files tells the paths of a worktree: each name that ends in a zero character is one,
/// below the worktree, and an empty name is none.
pub proof fn law_listed_files_are_in_the_index(worktree: Seq<char>, name: Seq<char>, rest: Seq<char>, p: Seq<char>)
    requires
        forall|i: int| 0 <= i < name.len() ==> #[trigger] name[i] != '\0',
    ensures
        name.len() > 0 ==> listed_paths(worktree, name + seq!['\0'] + rest).contains(
            paths::normal(paths::joined(worktree, name)),
        ),
        listed_paths(worktree, rest).contains(p) ==> listed_paths(worktree, name + seq!['\0'] + rest).contains(p),
        listed_paths(worktree, name + seq!['\0'] + rest).contains(p) ==> listed_paths(worktree, rest).contains(p) || (
        name.len() > 0 && p == paths::normal(paths::joined(worktree, name))),
        !listed_paths(worktree, seq![]).contains(p),
{
    let all = name + seq!['\0'] + rest;
    text::lemma_pieces_add(name, '\0', rest);
    text::lemma_first_at_is(name, '\0', name.len() as int);
    let (ps, qs) = (text::pieces(all, '\0'), text::pieces(rest, '\0'));
    assert(text::pieces(name, '\0') =~= seq![name]);
    assert(ps =~= seq![name] + qs);
    assert(ps[0] == name);
    if listed_paths(worktree, rest).contains(p) {
        let i = choose|i: int|
            0 <= i < qs.len() && (#[trigger] qs[i]).len() > 0 && p == paths::normal(paths::joined(worktree, qs[i]));
        assert(ps[i + 1] == qs[i]);
    }
    if listed_paths(worktree, all).contains(p) {
        let i = choose|i: int|
            0 <= i < ps.len() && (#[trigger] ps[i]).len() > 0 && p == paths::normal(paths::joined(worktree, ps[i]));
        if i > 0 {
            assert(qs[i - 1] == ps[i]);
        }
    }
    text::lemma_first_at_is(Seq::<char>::empty(), '\0', 0);
    assert(text::pieces(Seq::<char>::empty(), '\0') =~= seq![Seq::<char>::empty()]);
}

/// The rules of a worktree decide about its own files only, and a file that git tracks is known by its
/// normal form.
pub proof fn law_rules_belong_to_their_worktree(
    rules: Map<Seq<char>, Gitignore>,
    in_index: Map<Seq<char>, StrSet>,
    worktree: Seq<char>,
    path: Seq<char>,
)
    ensures
        !rules.dom().contains(worktree) ==> !ruled_out(rules, worktree, path),
        rules.dom().contains(worktree) ==> ruled_out(rules, worktree, path) == ignored_by(
            worktree,
            rule_lines(rules[worktree]),
            path,
        ),
        !in_index.dom().contains(worktree) ==> !known_tracked(in_index, worktree, path),
        in_index.dom().contains(worktree) ==> known_tracked(in_index, worktree, path) == in_index[worktree]@.contains(
            paths::normal(path),
        ),
{
}

} // verus!
