//! Finding the directory of the project that a path belongs to.
//!
//! The search walks from a directory up to the root of the file system and looks for marker files
//! on the way. It asks no file system: it is told which of the files it may look for exist.

use crate::text::same_text;
use vstd::prelude::*;

verus! {

/// No directory on the way up from `path` can be taken for a project.
#[derive(Debug, PartialEq, Eq)]
pub struct RootNotFound {
    pub path: String,
}

/// A path that names its place from the root of the file system on.
pub open spec fn is_absolute(path: Seq<char>) -> bool {
    path.len() > 0 && path[0] == '/'
}

/// `path` without the trailing separators and `.` components, which name no further directory.
pub open spec fn trimmed(path: Seq<char>) -> Seq<char>
    decreases path.len(),
{
    if path.len() > 1 && path.last() == '/' {
        trimmed(path.drop_last())
    } else if path.len() > 1 && path.last() == '.' && path[path.len() - 2] == '/' {
        trimmed(path.drop_last())
    } else {
        path
    }
}

/// How many characters of `path` there are before its last component: up to and including the
/// last separator.
pub open spec fn stem(path: Seq<char>) -> nat
    decreases path.len(),
{
    if path.len() == 0 || path.last() == '/' {
        path.len()
    } else {
        stem(path.drop_last())
    }
}

/// The directory that holds `path`; the root directory has none.
pub open spec fn parent(path: Seq<char>) -> Option<Seq<char>> {
    let here = trimmed(path);
    if here.len() <= 1 || stem(here) == 0 {
        None
    } else {
        Some(trimmed(here.take(stem(here) as int)))
    }
}

/// The directories from `path` up to the root directory, innermost first.
pub open spec fn levels(path: Seq<char>) -> Seq<Seq<char>>
    decreases path.len(),
{
    match parent(path) {
        None => seq![trimmed(path)],
        Some(above) => {
            proof {
                lemma_parent_is_shorter(path);
            }
            seq![trimmed(path)] + levels(above)
        },
    }
}

/// The path of the file `name` in `dir`.
pub open spec fn in_dir(dir: Seq<char>, name: Seq<char>) -> Seq<char> {
    if dir.len() > 0 && dir.last() == '/' {
        dir + name
    } else {
        dir + seq!['/'] + name
    }
}

/// The lock file of a crate or a workspace: the project is exactly here.
pub open spec fn has_lock(dir: Seq<char>, files: Set<Seq<char>>) -> bool {
    files.contains(in_dir(dir, "Cargo.lock"@))
}

/// The manifest of a crate, which may still be a member of a workspace further up.
pub open spec fn has_manifest(dir: Seq<char>, files: Set<Seq<char>>) -> bool {
    files.contains(in_dir(dir, "Cargo.toml"@))
}

/// The file that tells the search to go no further up.
pub open spec fn has_pin(dir: Seq<char>, files: Set<Seq<char>>) -> bool {
    files.contains(in_dir(dir, ".rad_root"@))
}

/// Where a walk that has come to level `from` ends: at the first level with a lock file or a pin,
/// at the outermost one at the latest.
pub open spec fn last_level(dirs: Seq<Seq<char>>, files: Set<Seq<char>>, from: int) -> int
    decreases dirs.len() - from,
{
    if from >= dirs.len() - 1 || has_lock(dirs[from], files) || has_pin(dirs[from], files) {
        from
    } else {
        last_level(dirs, files, from + 1)
    }
}

/// The outermost directory with a manifest among the levels up to `to`.
pub open spec fn outermost_manifest(dirs: Seq<Seq<char>>, files: Set<Seq<char>>, to: int) -> Option<
    Seq<char>,
>
    decreases to + 1,
{
    if to < 0 {
        None
    } else if has_manifest(dirs[to], files) {
        Some(dirs[to])
    } else {
        outermost_manifest(dirs, files, to - 1)
    }
}

/// The project directory of `path`, where `files` are the files that exist: the level with the
/// lock file that ends the walk, else the outermost level of the walk with a manifest.
pub open spec fn project_root(path: Seq<char>, files: Set<Seq<char>>) -> Option<Seq<char>> {
    let dirs = levels(path);
    let end = last_level(dirs, files, 0);
    if has_lock(dirs[end], files) {
        Some(dirs[end])
    } else {
        outermost_manifest(dirs, files, end)
    }
}

/// The files that the search from `path` can depend on.
pub open spec fn is_marker(path: Seq<char>, file: Seq<char>) -> bool {
    exists|i: int|
        0 <= i < levels(path).len() && (file == in_dir(#[trigger] levels(path)[i], "Cargo.lock"@)
            || file == in_dir(levels(path)[i], "Cargo.toml"@) || file == in_dir(
            levels(path)[i],
            ".rad_root"@,
        ))
}

/// The set of the texts of a list.
pub open spec fn text_set(list: Seq<String>) -> Set<Seq<char>> {
    Set::new(|t: Seq<char>| exists|i: int| 0 <= i < list.len() && #[trigger] list[i]@ == t)
}

proof fn lemma_trimmed(path: Seq<char>)
    ensures
        trimmed(path).len() <= path.len(),
        trimmed(path).len() > 1 ==> trimmed(path).last() != '/',
        is_absolute(path) ==> is_absolute(trimmed(path)),
        path.len() > 0 ==> trimmed(path).len() > 0,
        trimmed(trimmed(path)) == trimmed(path),
        trimmed(path) == path.take(trimmed(path).len() as int),
    decreases path.len(),
{
    if path.len() > 1 && (path.last() == '/' || (path.last() == '.' && path[path.len() - 2]
        == '/')) {
        lemma_trimmed(path.drop_last());
        let n = trimmed(path).len() as int;
        assert(path.drop_last().take(n) =~= path.take(n));
    } else {
        assert(path.take(path.len() as int) =~= path);
    }
}

/// What stands before the last component of a path ends with the last separator.
pub proof fn lemma_stem(path: Seq<char>)
    ensures
        stem(path) <= path.len(),
        stem(path) > 0 ==> path[stem(path) - 1] == '/',
        forall|i: int| stem(path) <= i < path.len() ==> #[trigger] path[i] != '/',
        is_absolute(path) ==> stem(path) > 0,
    decreases path.len(),
{
    if path.len() > 0 && path.last() != '/' {
        lemma_stem(path.drop_last());
        assert forall|i: int| stem(path) <= i < path.len() implies #[trigger] path[i] != '/' by {
            if i < path.len() - 1 {
                assert(path.drop_last()[i] == path[i]);
            }
        }
    }
}

/// The directory that holds a path has a shorter name.
pub proof fn lemma_parent_is_shorter(path: Seq<char>)
    ensures
        parent(path) is Some ==> parent(path)->0.len() < path.len(),
        parent(path) is Some ==> trimmed(parent(path)->0) == parent(path)->0,
        parent(path) is Some && is_absolute(path) ==> is_absolute(parent(path)->0),
{
    let here = trimmed(path);
    lemma_trimmed(path);
    lemma_stem(here);
    if here.len() > 1 && stem(here) != 0 {
        assert(here.last() != '/');
        assert(stem(here) < here.len());
        lemma_trimmed(here.take(stem(here) as int));
    }
}

proof fn lemma_levels(path: Seq<char>)
    ensures
        levels(path).len() > 0,
        levels(path)[0] == trimmed(path),
        match parent(path) {
            None => levels(path).len() == 1,
            Some(above) => levels(path).len() == levels(above).len() + 1 && forall|i: int|
                0 <= i < levels(above).len() ==> #[trigger] levels(above)[i] == levels(path)[i + 1],
        },
{
}

/// `path` without its trailing separators and `.` components.
fn trim(path: &str) -> (r: String)
    ensures
        r@ == trimmed(path@),
{
    let mut n: usize = path.unicode_len();
    proof {
        assert(path@.take(n as int) =~= path@);
    }
    while n > 1 && (path.get_char(n - 1) == '/' || (path.get_char(n - 1) == '.' && path.get_char(
        n - 2,
    ) == '/'))
        invariant
            n <= path@.len(),
            trimmed(path@.take(n as int)) == trimmed(path@),
        decreases n,
    {
        proof {
            assert(path@.take(n as int).drop_last() =~= path@.take(n - 1));
        }
        n = n - 1;
    }
    proof {
        assert(path@.subrange(0, n as int) =~= path@.take(n as int));
    }
    path.substring_char(0, n).to_owned()
}

/// The directory that holds `path`, `None` where there is none.
pub fn parent_dir(path: &str) -> (r: Option<String>)
    ensures
        match r {
            Some(dir) => parent(path@) == Some(dir@),
            None => parent(path@) is None,
        },
{
    let here: String = trim(path);
    let size: usize = here.as_str().unicode_len();
    let mut n: usize = size;
    proof {
        assert(here@.take(n as int) =~= here@);
    }
    while n > 0 && here.as_str().get_char(n - 1) != '/'
        invariant
            n <= here@.len(),
            stem(here@.take(n as int)) == stem(here@),
        decreases n,
    {
        proof {
            assert(here@.take(n as int).drop_last() =~= here@.take(n - 1));
        }
        n = n - 1;
    }
    if size <= 1 || n == 0 {
        return None;
    }
    proof {
        assert(here@.subrange(0, n as int) =~= here@.take(n as int));
    }
    Some(trim(here.as_str().substring_char(0, n)))
}

/// The path of the file `name` in `dir`.
fn join(dir: &str, name: &str) -> (r: String)
    ensures
        r@ == in_dir(dir@, name@),
{
    let n: usize = dir.unicode_len();
    let mut r: String = dir.to_owned();
    if n == 0 || dir.get_char(n - 1) != '/' {
        proof {
            reveal_strlit("/");
            assert("/"@ =~= seq!['/']);
        }
        r.append("/");
    }
    r.append(name);
    r
}

/// Whether `file` is one of `files`.
fn listed(files: &Vec<String>, file: &str) -> (r: bool)
    ensures
        r == text_set(files@).contains(file@),
{
    let mut i: usize = 0;
    while i < files.len()
        invariant
            i <= files.len(),
            forall|j: int| 0 <= j < i ==> #[trigger] files@[j]@ != file@,
        decreases files.len() - i,
    {
        if same_text(files[i].as_str(), file) {
            return true;
        }
        i += 1;
    }
    false
}

/// Whether `path` is absolute.
pub fn absolute(path: &str) -> (r: bool)
    ensures
        r == is_absolute(path@),
{
    path.unicode_len() > 0 && path.get_char(0) == '/'
}

/// Walks the directories from `path` up to the root and returns the one that can be treated as
/// the root of a project, where `files` lists the marker files that exist.
///
/// A `Cargo.lock` ends the walk and is the answer. Without one, the outermost `Cargo.toml` that
/// the walk met decides, and a `.rad_root` file pins where the walk ends.
pub fn find_project_root(path: &str, files: &Vec<String>) -> (r: Result<String, RootNotFound>)
    requires
        is_absolute(path@),
    ensures
        match r {
            Ok(dir) => project_root(path@, text_set(files@)) == Some(dir@),
            Err(e) => project_root(path@, text_set(files@)) is None && e.path@ == path@,
        },
{
    let ghost dirs = levels(path@);
    let ghost known = text_set(files@);
    let ghost mut at: int = 0;
    let mut result: Option<String> = None;
    let mut current: String = trim(path);
    proof {
        lemma_trimmed(path@);
        lemma_levels(path@);
        lemma_levels(current@);
        lemma_levels_of_trimmed(path@);
    }
    loop
        invariant_except_break
            known == text_set(files@),
            dirs == levels(path@),
            0 <= at < dirs.len(),
            trimmed(current@) == current@,
            current@ == dirs[at],
            levels(current@).len() == dirs.len() - at,
            forall|i: int|
                0 <= i < dirs.len() - at ==> #[trigger] levels(current@)[i] == dirs[at + i],
            last_level(dirs, known, 0) == last_level(dirs, known, at),
            outermost_manifest(dirs, known, at - 1) == match result {
                Some(dir) => Some(dir@),
                None => None,
            },
        ensures
            known == text_set(files@),
            dirs == levels(path@),
            last_level(dirs, known, 0) == at,
            !has_lock(dirs[at], known),
            outermost_manifest(dirs, known, at) == match result {
                Some(dir) => Some(dir@),
                None => None,
            },
        decreases dirs.len() - at,
    {
        if listed(files, join(current.as_str(), "Cargo.lock").as_str()) {
            return Ok(current);
        }
        if listed(files, join(current.as_str(), "Cargo.toml").as_str()) {
            result = Some(current.clone());
        }
        if listed(files, join(current.as_str(), ".rad_root").as_str()) {
            break ;
        }
        proof {
            lemma_levels(current@);
            lemma_parent_is_shorter(current@);
        }
        match parent_dir(current.as_str()) {
            Some(above) => {
                proof {
                    lemma_levels(above@);
                    assert forall|i: int| 0 <= i < dirs.len() - at - 1 implies #[trigger] levels(
                        above@,
                    )[i] == dirs[at + 1 + i] by {
                        assert(levels(current@)[i + 1] == dirs[at + (i + 1)]);
                    }
                    at = at + 1;
                }
                current = above;
            },
            None => {
                break ;
            },
        }
    }
    match result {
        Some(dir) => Ok(dir),
        None => Err(RootNotFound { path: path.to_owned() }),
    }
}

/// The files that the search from `path` looks for. Nothing else on disk bears on its result.
pub fn marker_files(path: &str) -> (r: Vec<String>)
    requires
        is_absolute(path@),
    ensures
        forall|file: Seq<char>| text_set(r@).contains(file) <==> #[trigger] is_marker(path@, file),
{
    let ghost dirs = levels(path@);
    let ghost mut at: int = 0;
    let mut r: Vec<String> = Vec::new();
    let mut current: String = trim(path);
    proof {
        lemma_trimmed(path@);
        lemma_levels(path@);
        lemma_levels_of_trimmed(path@);
    }
    loop
        invariant_except_break
            dirs == levels(path@),
            0 <= at < dirs.len(),
            trimmed(current@) == current@,
            current@ == dirs[at],
            levels(current@).len() == dirs.len() - at,
            forall|i: int|
                0 <= i < dirs.len() - at ==> #[trigger] levels(current@)[i] == dirs[at + i],
            r.len() == 3 * at,
            forall|i: int| 0 <= i < at ==> markers_at(r@, i, #[trigger] dirs[i]),
        ensures
            dirs == levels(path@),
            r.len() == 3 * dirs.len(),
            forall|i: int| 0 <= i < dirs.len() ==> markers_at(r@, i, #[trigger] dirs[i]),
        decreases dirs.len() - at,
    {
        let ghost before = r@;
        r.push(join(current.as_str(), "Cargo.lock"));
        r.push(join(current.as_str(), "Cargo.toml"));
        r.push(join(current.as_str(), ".rad_root"));
        proof {
            assert forall|i: int| 0 <= i < at + 1 implies markers_at(r@, i, #[trigger] dirs[i]) by {
                if i < at {
                    assert(markers_at(before, i, dirs[i]));
                }
            }
            lemma_levels(current@);
            lemma_parent_is_shorter(current@);
        }
        match parent_dir(current.as_str()) {
            Some(above) => {
                proof {
                    lemma_levels(above@);
                    assert forall|i: int| 0 <= i < dirs.len() - at - 1 implies #[trigger] levels(
                        above@,
                    )[i] == dirs[at + 1 + i] by {
                        assert(levels(current@)[i + 1] == dirs[at + (i + 1)]);
                    }
                    at = at + 1;
                }
                current = above;
            },
            None => {
                break ;
            },
        }
    }
    proof {
        assert forall|file: Seq<char>| text_set(r@).contains(file) <==> #[trigger] is_marker(
            path@,
            file,
        ) by {
            if text_set(r@).contains(file) {
                let k = choose|k: int| 0 <= k < r@.len() && #[trigger] r@[k]@ == file;
                let i = k / 3;
                assert(markers_at(r@, i, dirs[i]));
                assert(k == 3 * i || k == 3 * i + 1 || k == 3 * i + 2);
                assert(is_marker(path@, file));
            }
            if is_marker(path@, file) {
                let i = choose|i: int|
                    0 <= i < levels(path@).len() && (file == in_dir(
                        #[trigger] levels(path@)[i],
                        "Cargo.lock"@,
                    ) || file == in_dir(levels(path@)[i], "Cargo.toml"@) || file == in_dir(
                        levels(path@)[i],
                        ".rad_root"@,
                    ));
                assert(markers_at(r@, i, dirs[i]));
                assert(r@[3 * i]@ == file || r@[3 * i + 1]@ == file || r@[3 * i + 2]@ == file);
            }
        }
    }
    r
}

/// The three marker files of the level `dir` stand from `3 * i` on in a list.
spec fn markers_at(list: Seq<String>, i: int, dir: Seq<char>) -> bool {
    &&& 3 * i + 2 < list.len()
    &&& list[3 * i]@ == in_dir(dir, "Cargo.lock"@)
    &&& list[3 * i + 1]@ == in_dir(dir, "Cargo.toml"@)
    &&& list[3 * i + 2]@ == in_dir(dir, ".rad_root"@)
}

/// Only the marker files decide: two file systems that agree on them give the same project
/// directory.
pub proof fn law_only_markers_matter(path: Seq<char>, a: Set<Seq<char>>, b: Set<Seq<char>>)
    requires
        forall|file: Seq<char>|
            #[trigger] is_marker(path, file) ==> (a.contains(file) <==> b.contains(file)),
    ensures
        project_root(path, a) == project_root(path, b),
{
    let dirs = levels(path);
    lemma_levels(path);
    assert forall|i: int| 0 <= i < dirs.len() implies has_lock(#[trigger] dirs[i], a) == has_lock(
        dirs[i],
        b,
    ) && has_manifest(dirs[i], a) == has_manifest(dirs[i], b) && has_pin(dirs[i], a) == has_pin(
        dirs[i],
        b,
    ) by {
        assert(is_marker(path, in_dir(dirs[i], "Cargo.lock"@)));
        assert(is_marker(path, in_dir(dirs[i], "Cargo.toml"@)));
        assert(is_marker(path, in_dir(dirs[i], ".rad_root"@)));
    }
    lemma_same_walk(dirs, a, b, 0);
    lemma_last_level(dirs, a, 0);
    lemma_same_manifest(dirs, a, b, last_level(dirs, a, 0));
}

/// The project directory is the directory itself or one above it.
pub proof fn law_root_is_above(path: Seq<char>, files: Set<Seq<char>>)
    ensures
        project_root(path, files) matches Some(dir) ==> levels(path).contains(dir),
{
    let dirs = levels(path);
    lemma_levels(path);
    lemma_last_level(dirs, files, 0);
    lemma_manifest_is_level(dirs, files, last_level(dirs, files, 0));
}

/// A lock file is a hard stop: the innermost directory that has one is the project, unless a pin
/// further in ends the walk before it.
pub proof fn law_innermost_lock_wins(path: Seq<char>, files: Set<Seq<char>>, at: int)
    requires
        0 <= at < levels(path).len(),
        has_lock(levels(path)[at], files),
        forall|i: int|
            0 <= i < at ==> !has_lock(#[trigger] levels(path)[i], files) && !has_pin(
                levels(path)[i],
                files,
            ),
    ensures
        project_root(path, files) == Some(levels(path)[at]),
{
    lemma_walk_reaches(levels(path), files, 0, at);
}

/// Without lock files and pins on the way, the outermost manifest names the project: a workspace
/// wins over its members.
pub proof fn law_outermost_manifest_wins(path: Seq<char>, files: Set<Seq<char>>, at: int)
    requires
        0 <= at < levels(path).len(),
        has_manifest(levels(path)[at], files),
        forall|i: int|
            0 <= i < levels(path).len() ==> !has_lock(#[trigger] levels(path)[i], files)
                && !has_pin(levels(path)[i], files),
        forall|i: int|
            at < i < levels(path).len() ==> !has_manifest(#[trigger] levels(path)[i], files),
    ensures
        project_root(path, files) == Some(levels(path)[at]),
{
    let dirs = levels(path);
    lemma_levels(path);
    lemma_last_level(dirs, files, 0);
    lemma_walk_reaches(dirs, files, 0, dirs.len() - 1);
    lemma_manifest_reaches(dirs, files, dirs.len() - 1, at);
}

/// A pin ends the walk: nothing above the innermost pinned level has a say.
pub proof fn law_pin_ends_the_walk(path: Seq<char>, files: Set<Seq<char>>, at: int)
    requires
        0 <= at < levels(path).len(),
        has_pin(levels(path)[at], files),
        forall|i: int|
            0 <= i < at ==> !has_lock(#[trigger] levels(path)[i], files) && !has_pin(
                levels(path)[i],
                files,
            ),
    ensures
        project_root(path, files) matches Some(dir) ==> exists|i: int|
            0 <= i <= at && dir == #[trigger] levels(path)[i],
{
    let dirs = levels(path);
    lemma_walk_reaches(dirs, files, 0, at);
    lemma_manifest_is_level(dirs, files, at);
}

/// Where the marker files of a directory are looked for: right in the directory, under their names.
pub proof fn law_markers_stand_in_the_directory(dir: Seq<char>, files: Set<Seq<char>>)
    requires
        dir.len() > 0,
    ensures
        dir.last() != '/' ==> {
            &&& has_lock(dir, files) <==> files.contains(dir + seq!['/'] + "Cargo.lock"@)
            &&& has_manifest(dir, files) <==> files.contains(dir + seq!['/'] + "Cargo.toml"@)
            &&& has_pin(dir, files) <==> files.contains(dir + seq!['/'] + ".rad_root"@)
        },
        dir.last() == '/' ==> {
            &&& has_lock(dir, files) <==> files.contains(dir + "Cargo.lock"@)
            &&& has_manifest(dir, files) <==> files.contains(dir + "Cargo.toml"@)
            &&& has_pin(dir, files) <==> files.contains(dir + ".rad_root"@)
        },
{
}

/// The levels of a path are the path itself and then one directory above the other, up to one that
/// has none above it.
pub proof fn law_levels_go_up(path: Seq<char>)
    ensures
        levels(path).len() > 0,
        levels(path)[0] == trimmed(path),
        forall|i: int|
            #![trigger levels(path)[i]]
            0 <= i < levels(path).len() - 1 ==> parent(levels(path)[i]) == Some(
                levels(path)[i + 1],
            ),
        parent(levels(path)[levels(path).len() - 1]) is None,
    decreases path.len(),
{
    lemma_levels(path);
    lemma_parent_is_shorter(path);
    lemma_levels_of_trimmed(path);
    lemma_trimmed(path);
    assert(parent(trimmed(path)) == parent(path));
    match parent(path) {
        None => {},
        Some(above) => {
            law_levels_go_up(above);
            let dirs = levels(path);
            let rest = levels(above);
            assert forall|i: int| #![trigger dirs[i]] 0 <= i < dirs.len() - 1 implies parent(
                dirs[i],
            ) == Some(dirs[i + 1]) by {
                if i > 0 {
                    assert(rest[i - 1] == dirs[i]);
                    assert(rest[i] == dirs[i + 1]);
                } else {
                    assert(rest[0] == dirs[1]);
                }
            }
            assert(rest[rest.len() - 1] == dirs[dirs.len() - 1]);
        },
    }
}

/// The directory above an entry of a directory is that directory, and the root directory has none
/// above it. Separators and `.` behind a path make no other.
pub proof fn law_directory_above(dir: Seq<char>, name: Seq<char>)
    requires
        trimmed(dir) == dir,
        dir.len() > 0,
        name.len() > 0,
        name != seq!['.'],
        forall|i: int| 0 <= i < name.len() ==> #[trigger] name[i] != '/',
    ensures
        dir != seq!['/'] ==> parent(dir + seq!['/'] + name) == Some(dir),
        parent(seq!['/'] + name) == Some(seq!['/']),
        parent(seq!['/']) is None,
        trimmed(dir + seq!['/']) == dir,
        trimmed(dir + seq!['/', '.']) == dir,
{
    lemma_entry(dir, name);
    let root = seq!['/'];
    let at = root + name;
    assert(trimmed(at) == at) by {
        if at.last() == '.' && at[at.len() - 2] == '/' {
            if name.len() > 1 {
                assert(name[name.len() - 2] != '/');
            }
            assert(name =~= seq!['.']);
        }
        assert(at.last() == name[name.len() - 1]);
    }
    lemma_stem_of_entry(root, name);
    assert(at.take(1) =~= root);
    assert((dir + seq!['/']).drop_last() =~= dir);
    assert((dir + seq!['/', '.']).drop_last() =~= dir + seq!['/']);
}

/// A path that ends in the name of a file or a directory is as it should be.
pub proof fn law_plain_path_stays(path: Seq<char>)
    requires
        path.len() <= 1 || (path.last() != '/' && !(path.last() == '.' && path[path.len() - 2]
            == '/')),
    ensures
        trimmed(path) == path,
{
}

proof fn lemma_stem_of_entry(front: Seq<char>, name: Seq<char>)
    requires
        front.len() > 0,
        front.last() == '/',
        forall|i: int| 0 <= i < name.len() ==> #[trigger] name[i] != '/',
    ensures
        stem(front + name) == front.len(),
    decreases name.len(),
{
    let path = front + name;
    if name.len() > 0 {
        assert(path.last() == name[name.len() - 1]);
        assert(path.drop_last() =~= front + name.drop_last());
        assert forall|i: int| 0 <= i < name.drop_last().len() implies #[trigger] name.drop_last()[i]
            != '/' by {
            assert(name.drop_last()[i] == name[i]);
        }
        lemma_stem_of_entry(front, name.drop_last());
    } else {
        assert(path =~= front);
    }
}

proof fn lemma_entry(dir: Seq<char>, name: Seq<char>)
    requires
        trimmed(dir) == dir,
        dir.len() > 0,
        name.len() > 0,
        name != seq!['.'],
        forall|i: int| 0 <= i < name.len() ==> #[trigger] name[i] != '/',
    ensures
        parent(dir + seq!['/'] + name) == Some(dir),
{
    let front = dir + seq!['/'];
    let path = front + name;
    assert(trimmed(path) == path) by {
        assert(path.last() == name[name.len() - 1]);
        if path.last() == '.' && path[path.len() - 2] == '/' {
            if name.len() > 1 {
                assert(path[path.len() - 2] == name[name.len() - 2]);
            }
            assert(name =~= seq!['.']);
        }
    }
    lemma_stem_of_entry(front, name);
    assert(path.take(front.len() as int) =~= front);
    assert(front.drop_last() =~= dir);
}

/// Which level is the project: the walk goes up to the first level with a lock file or a pin, or to
/// the outermost one. If that has a lock file, it is the project. If not, the project is the
/// outermost level up to there that has a manifest, and there is none if no such level has one.
pub proof fn law_project_of_a_path(path: Seq<char>, files: Set<Seq<char>>, end: int, at: int)
    requires
        0 <= end < levels(path).len(),
        end == levels(path).len() - 1 || has_lock(levels(path)[end], files) || has_pin(
            levels(path)[end],
            files,
        ),
        forall|i: int|
            0 <= i < end ==> !has_lock(#[trigger] levels(path)[i], files) && !has_pin(
                levels(path)[i],
                files,
            ),
    ensures
        has_lock(levels(path)[end], files) ==> project_root(path, files) == Some(
            levels(path)[end],
        ),
        !has_lock(levels(path)[end], files) && 0 <= at <= end && has_manifest(
            levels(path)[at],
            files,
        ) && (forall|i: int| at < i <= end ==> !has_manifest(#[trigger] levels(path)[i], files))
            ==> project_root(path, files) == Some(levels(path)[at]),
        !has_lock(levels(path)[end], files) && (forall|i: int|
            0 <= i <= end ==> !has_manifest(#[trigger] levels(path)[i], files)) ==> project_root(
            path,
            files,
        ) is None,
{
    let dirs = levels(path);
    lemma_walk_reaches(dirs, files, 0, end);
    if 0 <= at <= end && has_manifest(dirs[at], files) && (forall|i: int|
        at < i <= end ==> !has_manifest(#[trigger] dirs[i], files)) {
        lemma_manifest_reaches(dirs, files, end, at);
    }
    if forall|i: int| 0 <= i <= end ==> !has_manifest(#[trigger] dirs[i], files) {
        lemma_no_manifest(dirs, files, end);
    }
}

/// What is found from a path: the level at which the walk ends if that has a lock file, else the
/// outermost level up to there with a manifest, and nothing if there is none.
pub proof fn law_project_is_found(
    path: &str,
    files: &Vec<String>,
    r: Result<String, RootNotFound>,
    end: int,
    at: int,
)
    requires
        call_ensures(find_project_root, (path, files), r),
        0 <= end < levels(path@).len(),
        end == levels(path@).len() - 1 || has_lock(levels(path@)[end], text_set(files@)) || has_pin(
            levels(path@)[end],
            text_set(files@),
        ),
        forall|i: int|
            0 <= i < end ==> !has_lock(#[trigger] levels(path@)[i], text_set(files@)) && !has_pin(
                levels(path@)[i],
                text_set(files@),
            ),
    ensures
        ({
            let dirs = levels(path@);
            let known = text_set(files@);
            &&& has_lock(dirs[end], known) ==> (r matches Ok(dir) && dir@ == dirs[end])
            &&& !has_lock(dirs[end], known) && 0 <= at <= end && has_manifest(dirs[at], known) && (
            forall|i: int| at < i <= end ==> !has_manifest(#[trigger] dirs[i], known)) ==> (
            r matches Ok(dir) && dir@ == dirs[at])
            &&& !has_lock(dirs[end], known) && (forall|i: int|
                0 <= i <= end ==> !has_manifest(#[trigger] dirs[i], known)) ==> (r matches Err(e)
                && e.path@ == path@)
        }),
{
    law_project_of_a_path(path@, text_set(files@), end, at);
}

proof fn lemma_no_manifest(dirs: Seq<Seq<char>>, files: Set<Seq<char>>, to: int)
    requires
        to < dirs.len(),
        forall|i: int| 0 <= i <= to ==> !has_manifest(#[trigger] dirs[i], files),
    ensures
        outermost_manifest(dirs, files, to) is None,
    decreases to + 1,
{
    if to >= 0 {
        assert(!has_manifest(dirs[to], files));
        lemma_no_manifest(dirs, files, to - 1);
    }
}

/// A path is absolute if and only if it begins with a separator.
pub proof fn law_absolute_paths_begin_at_the_root(path: Seq<char>)
    ensures
        is_absolute(path) <==> exists|rest: Seq<char>| path == #[trigger] (seq!['/'] + rest),
{
    if is_absolute(path) {
        assert(path =~= seq!['/'] + path.skip(1));
    }
}

proof fn lemma_last_level(dirs: Seq<Seq<char>>, files: Set<Seq<char>>, from: int)
    requires
        0 <= from < dirs.len(),
    ensures
        from <= last_level(dirs, files, from) < dirs.len(),
    decreases dirs.len() - from,
{
    if from >= dirs.len() - 1 || has_lock(dirs[from], files) || has_pin(dirs[from], files) {
    } else {
        lemma_last_level(dirs, files, from + 1);
    }
}

proof fn lemma_walk_reaches(dirs: Seq<Seq<char>>, files: Set<Seq<char>>, from: int, at: int)
    requires
        0 <= from <= at < dirs.len(),
        at == dirs.len() - 1 || has_lock(dirs[at], files) || has_pin(dirs[at], files),
        forall|i: int|
            from <= i < at ==> !has_lock(#[trigger] dirs[i], files) && !has_pin(dirs[i], files),
    ensures
        last_level(dirs, files, from) == at,
    decreases at - from,
{
    if from < at {
        assert(!has_lock(dirs[from], files));
        lemma_walk_reaches(dirs, files, from + 1, at);
    }
}

proof fn lemma_manifest_reaches(dirs: Seq<Seq<char>>, files: Set<Seq<char>>, to: int, at: int)
    requires
        0 <= at <= to < dirs.len(),
        has_manifest(dirs[at], files),
        forall|i: int| at < i <= to ==> !has_manifest(#[trigger] dirs[i], files),
    ensures
        outermost_manifest(dirs, files, to) == Some(dirs[at]),
    decreases to - at,
{
    if at < to {
        assert(!has_manifest(dirs[to], files));
        lemma_manifest_reaches(dirs, files, to - 1, at);
    }
}

proof fn lemma_manifest_is_level(dirs: Seq<Seq<char>>, files: Set<Seq<char>>, to: int)
    requires
        to < dirs.len(),
    ensures
        outermost_manifest(dirs, files, to) matches Some(dir) ==> exists|i: int|
            0 <= i <= to && dir == #[trigger] dirs[i],
    decreases to + 1,
{
    if to >= 0 && !has_manifest(dirs[to], files) {
        lemma_manifest_is_level(dirs, files, to - 1);
    }
}

proof fn lemma_same_walk(dirs: Seq<Seq<char>>, a: Set<Seq<char>>, b: Set<Seq<char>>, from: int)
    requires
        0 <= from < dirs.len(),
        forall|i: int|
            0 <= i < dirs.len() ==> has_lock(#[trigger] dirs[i], a) == has_lock(dirs[i], b)
                && has_pin(dirs[i], a) == has_pin(dirs[i], b),
    ensures
        last_level(dirs, a, from) == last_level(dirs, b, from),
    decreases dirs.len() - from,
{
    assert(has_lock(dirs[from], a) == has_lock(dirs[from], b));
    if from >= dirs.len() - 1 || has_lock(dirs[from], a) || has_pin(dirs[from], a) {
    } else {
        lemma_same_walk(dirs, a, b, from + 1);
    }
}

proof fn lemma_same_manifest(dirs: Seq<Seq<char>>, a: Set<Seq<char>>, b: Set<Seq<char>>, to: int)
    requires
        to < dirs.len(),
        forall|i: int|
            0 <= i < dirs.len() ==> has_manifest(#[trigger] dirs[i], a) == has_manifest(
                dirs[i],
                b,
            ),
    ensures
        outermost_manifest(dirs, a, to) == outermost_manifest(dirs, b, to),
    decreases to + 1,
{
    if to >= 0 {
        assert(has_manifest(dirs[to], a) == has_manifest(dirs[to], b));
        if !has_manifest(dirs[to], a) {
            lemma_same_manifest(dirs, a, b, to - 1);
        }
    }
}

proof fn lemma_levels_of_trimmed(path: Seq<char>)
    ensures
        levels(trimmed(path)) == levels(path),
{
    lemma_trimmed(path);
    assert(parent(trimmed(path)) == parent(path));
}

} // verus!
