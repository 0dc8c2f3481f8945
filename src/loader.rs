//! Bookkeeping for loading included sources from a list of directories.
//!
//! Reading files is left to the caller: [`IncludeLoader::find`] says which
//! file to read next, [`IncludeLoader::record_read`] takes the result, and
//! the loader remembers every file it was told about for the depfile.

use std::path::PathBuf;
use vstd::prelude::*;
use vstd::string::StringExecFns;

verus! {

/// A file the loader was told about, with its contents or `None` when it
/// could not be read.
#[derive(Debug)]
pub struct CacheEntry {
    pub path: String,
    pub contents: Option<Vec<u8>>,
}

/// The state of include loading: the directories to search, the files read
/// so far, and the existing parent directories of files found missing.
#[derive(Debug)]
pub struct IncludeLoader {
    pub search_path: Vec<String>,
    pub file_contents: Vec<CacheEntry>,
    pub parents_of_missing: Vec<String>,
}

/// What [`IncludeLoader::find`] decides.
#[derive(Debug)]
pub enum Lookup {
    /// The first candidate that exists: its path and contents.
    Found(String, Vec<u8>),
    /// No candidate exists.
    Missing,
    /// This candidate has not been read yet: read it, pass the result to
    /// [`IncludeLoader::record_read`], and ask again.
    Read(String),
}

/// `p` joined onto directory `dir`, as `Path::join` does: an absolute `p`
/// stands alone, else a `/` goes between unless `dir` is empty or ends in one.
pub open spec fn join_spec(dir: Seq<char>, p: Seq<char>) -> Seq<char> {
    if p.len() > 0 && p[0] == '/' {
        p
    } else if dir.len() == 0 {
        p
    } else if dir.last() == '/' {
        dir + p
    } else {
        dir + seq!['/'] + p
    }
}

/// The directories to look in: `relative_to` first, then the search path.
pub open spec fn search_dirs(relative_to: Option<Seq<char>>, search: Seq<Seq<char>>) -> Seq<
    Seq<char>,
> {
    match relative_to {
        Some(d) => seq![d] + search,
        None => search,
    }
}

/// The first entry for `path` at or after `i`: `Some(contents)` if the loader
/// was told about it.
pub open spec fn cache_from(entries: Seq<CacheEntry>, path: Seq<char>, i: int) -> Option<
    Option<Seq<u8>>,
>
    decreases entries.len() - i,
{
    if i < 0 || i >= entries.len() {
        None
    } else if entries[i].path@ == path {
        Some(
            match entries[i].contents {
                Some(c) => Some(c@),
                None => None,
            },
        )
    } else {
        cache_from(entries, path, i + 1)
    }
}

/// The decision of `find` from the `i`-th directory on: the first candidate
/// known to exist, the first one not read yet, or none.
pub open spec fn find_from(
    entries: Seq<CacheEntry>,
    dirs: Seq<Seq<char>>,
    p: Seq<char>,
    i: int,
) -> (Option<Seq<char>>, Option<Seq<u8>>)
    decreases dirs.len() - i,
{
    if i < 0 || i >= dirs.len() {
        (None, None)
    } else {
        let c = join_spec(dirs[i], p);
        match cache_from(entries, c, 0) {
            None => (Some(c), None),
            Some(None) => find_from(entries, dirs, p, i + 1),
            Some(Some(b)) => (Some(c), Some(b)),
        }
    }
}

/// `s` with each space preceded by a backslash.
pub open spec fn escape_spaces_spec(s: Seq<char>) -> Seq<char>
    decreases s.len(),
{
    if s.len() == 0 {
        s
    } else if s.last() == ' ' {
        escape_spaces_spec(s.drop_last()) + seq!['\\', ' ']
    } else {
        escape_spaces_spec(s.drop_last()).push(s.last())
    }
}

/// Paths in the order of `PathBuf`'s `Ord`, which compares them component by
/// component.
pub uninterp spec fn path_sort(v: Seq<Seq<char>>) -> Seq<Seq<char>>;

/// Relies on `str::replace`: every match of the pattern, here a space, is
/// replaced by the replacement, here a backslash and a space.
#[verifier::external_body]
fn escape_spaces(s: &str) -> (r: String)
    ensures
        r@ == escape_spaces_spec(s@),
{
    s.replace(' ', "\\ ")
}

/// Relies on `slice::sort` over `PathBuf`: the same paths, as many of them,
/// in `PathBuf` order.
#[verifier::external_body]
fn sort_paths(v: Vec<String>) -> (r: Vec<String>)
    ensures
        r.deep_view() == path_sort(v.deep_view()),
        r@.len() == v@.len(),
{
    let mut p: Vec<PathBuf> = v.into_iter().map(PathBuf::from).collect();
    p.sort();
    p.into_iter().map(|x| x.to_string_lossy().into_owned()).collect()
}

/// Each path, escaped and preceded by a space.
pub open spec fn depfile_list(v: Seq<Seq<char>>) -> Seq<char>
    decreases v.len(),
{
    if v.len() == 0 {
        Seq::empty()
    } else {
        depfile_list(v.drop_last()) + seq![' '] + escape_spaces_spec(v.last())
    }
}

/// A depfile line: `goal: files dirs`, escaped, with a final newline.
pub open spec fn depfile_spec(goal: Seq<char>, files: Seq<Seq<char>>, dirs: Seq<Seq<char>>) -> Seq<
    char,
> {
    escape_spaces_spec(goal) + seq![':'] + depfile_list(files) + depfile_list(dirs) + seq!['\n']
}

pub open spec fn entry_paths(entries: Seq<CacheEntry>) -> Seq<Seq<char>> {
    entries.map_values(|e: CacheEntry| e.path@)
}

/// Relies on `Path::join`: an absolute `p` replaces `dir`; otherwise a
/// separator is added between them unless `dir` is empty or ends in one.
#[verifier::external_body]
fn join_path(dir: &String, p: &String) -> (r: String)
    ensures
        r@ == join_spec(dir@, p@),
{
    std::path::Path::new(dir).join(p).to_string_lossy().into_owned()
}

impl IncludeLoader {
    /// A loader that searches `search_path`, having read nothing yet.
    pub fn new(search_path: Vec<String>) -> (r: Self)
        ensures
            r.search_path == search_path,
            r.file_contents@.len() == 0,
            r.parents_of_missing@.len() == 0,
    {
        IncludeLoader { search_path, file_contents: Vec::new(), parents_of_missing: Vec::new() }
    }

    /// The contents recorded for `path`, if the loader was told about it.
    fn cached(&self, path: &String) -> (r: Option<Option<&Vec<u8>>>)
        ensures
            match r {
                None => cache_from(self.file_contents@, path@, 0) is None,
                Some(None) => cache_from(self.file_contents@, path@, 0) == Some(
                    None::<Seq<u8>>,
                ),
                Some(Some(b)) => cache_from(self.file_contents@, path@, 0) == Some(Some(b@)),
            },
    {
        let mut i: usize = 0;
        while i < self.file_contents.len()
            invariant
                i <= self.file_contents@.len(),
                cache_from(self.file_contents@, path@, 0) == cache_from(
                    self.file_contents@,
                    path@,
                    i as int,
                ),
            decreases self.file_contents@.len() - i,
        {
            if self.file_contents[i].path == *path {
                return match &self.file_contents[i].contents {
                    Some(c) => Some(Some(c)),
                    None => Some(None),
                };
            }
            i += 1;
        }
        None
    }

    /// Searches for an include: in `relative_to` first, if given, then in
    /// each directory of the search path. Decides from what the loader has
    /// been told: the first candidate known to exist, or the first candidate
    /// still to be read, or that none exists.
    pub fn find(&self, relative_to: Option<&String>, included_path: &String) -> (r: Lookup)
        ensures
            ({
                let dirs = search_dirs(
                    match relative_to {
                        Some(d) => Some(d@),
                        None => None,
                    },
                    self.search_path.deep_view(),
                );
                let d = find_from(self.file_contents@, dirs, included_path@, 0);
                match r {
                    Lookup::Found(p, b) => d == (Some(p@), Some(b@)),
                    Lookup::Read(p) => d == (Some(p@), None::<Seq<u8>>),
                    Lookup::Missing => d == (None::<Seq<char>>, None::<Seq<u8>>),
                }
            }),
    {
        let ghost dirs = search_dirs(
            match relative_to {
                Some(d) => Some(d@),
                None => None,
            },
            self.search_path.deep_view(),
        );
        let mut all: Vec<String> = Vec::new();
        if let Some(d) = relative_to {
            all.push(d.clone());
        }
        let mut rest = crate::tree::clone_path(&self.search_path);
        let ghost a0 = all@;
        let ghost r0 = rest@;
        all.append(&mut rest);
        proof {
            assert forall|j: int| 0 <= j < all@.len() implies (#[trigger] all.deep_view()[j]) == dirs[j] by {
                if j < a0.len() {
                    assert(all@[j] == a0[j]);
                } else {
                    assert(all@[j] == r0[j - a0.len()]);
                }
            }
            assert(all.deep_view() =~= dirs);
        }
        let mut i: usize = 0;
        while i < all.len()
            invariant
                i <= all@.len(),
                all.deep_view() == dirs,
                dirs == search_dirs(
                    match relative_to {
                        Some(d) => Some(d@),
                        None => None,
                    },
                    self.search_path.deep_view(),
                ),
                find_from(self.file_contents@, dirs, included_path@, 0) == find_from(
                    self.file_contents@,
                    dirs,
                    included_path@,
                    i as int,
                ),
            decreases all@.len() - i,
        {
            let c = join_path(&all[i], included_path);
            proof {
                assert(dirs[i as int] == all@[i as int]@);
            }
            match self.cached(&c) {
                None => {
                    return Lookup::Read(c);
                },
                Some(None) => {},
                Some(Some(b)) => {
                    let mut v: Vec<u8> = Vec::new();
                    crate::tree::push_all(&mut v, b.as_slice());
                    assert(v@ =~= b@);
                    return Lookup::Found(c, v);
                },
            }
            i += 1;
        }
        Lookup::Missing
    }

    /// Records the result of reading `path`; a path already recorded keeps
    /// its first result.
    pub fn record_read(&mut self, path: String, contents: Option<Vec<u8>>)
        ensures
            cache_from(old(self).file_contents@, path@, 0) is Some ==> final(self).file_contents@
                == old(self).file_contents@,
            cache_from(old(self).file_contents@, path@, 0) is None ==> final(self).file_contents@
                == old(self).file_contents@.push(CacheEntry { path, contents }),
            final(self).search_path == old(self).search_path,
            final(self).parents_of_missing == old(self).parents_of_missing,
    {
        if self.cached(&path).is_some() {
            return;
        }
        self.file_contents.push(CacheEntry { path, contents });
    }

    /// Records an existing directory above a file that was found missing.
    pub fn record_missing_parent(&mut self, dir: String)
        ensures
            final(self).file_contents == old(self).file_contents,
            final(self).search_path == old(self).search_path,
            old(self).parents_of_missing.deep_view().contains(dir@) ==> final(self).parents_of_missing == old(self).parents_of_missing,
            !old(self).parents_of_missing.deep_view().contains(dir@) ==> final(self).parents_of_missing.deep_view() == old(self).parents_of_missing.deep_view().push(
                dir@,
            ),
    {
        let mut i: usize = 0;
        while i < self.parents_of_missing.len()
            invariant
                i <= self.parents_of_missing@.len(),
                forall|j: int|
                    0 <= j < i ==> (#[trigger] self.parents_of_missing@[j])@ != dir@,
            decreases self.parents_of_missing@.len() - i,
        {
            if self.parents_of_missing[i] == dir {
                assert(self.parents_of_missing.deep_view()[i as int] == dir@);
                return;
            }
            i += 1;
        }
        proof {
            assert forall|j: int| 0 <= j < self.parents_of_missing.deep_view().len() implies self.parents_of_missing.deep_view()[j] != dir@ by {
                assert(self.parents_of_missing.deep_view()[j] == self.parents_of_missing@[j]@);
            }
        }
        let ghost before = self.parents_of_missing.deep_view();
        self.parents_of_missing.push(dir);
        assert(self.parents_of_missing.deep_view() =~= before.push(dir@));
    }

    /// One step up from a file found missing: `dir` is its next ancestor
    /// (empty for the working directory of a relative path) and `exists`
    /// whether that directory exists. Records `.` for the empty ancestor, and
    /// the first ancestor that exists. Returns whether to stop walking up: at
    /// an ancestor already recorded, or one that exists.
    pub fn track_parent_of_missing(&mut self, dir: &String, exists: bool) -> (stop: bool)
        ensures
            final(self).file_contents == old(self).file_contents,
            final(self).search_path == old(self).search_path,
            ({
                let before = if dir@.len() == 0 {
                    if old(self).parents_of_missing.deep_view().contains(seq!['.']) {
                        old(self).parents_of_missing.deep_view()
                    } else {
                        old(self).parents_of_missing.deep_view().push(seq!['.'])
                    }
                } else {
                    old(self).parents_of_missing.deep_view()
                };
                if before.contains(dir@) {
                    stop && final(self).parents_of_missing.deep_view() == before
                } else if exists {
                    stop && final(self).parents_of_missing.deep_view() == before.push(dir@)
                } else {
                    !stop && final(self).parents_of_missing.deep_view() == before
                }
            }),
    {
        if dir.as_str().is_empty() {
            let dot = ".".to_owned();
            proof {
                reveal_strlit(".");
                assert(dot@ =~= seq!['.']);
            }
            self.record_missing_parent(dot);
        }
        if self.has_missing_parent(dir) {
            return true;
        }
        if exists {
            self.record_missing_parent(dir.clone());
            return true;
        }
        false
    }

    /// Whether `dir` is already recorded as a parent of a missing file.
    pub fn has_missing_parent(&self, dir: &String) -> (r: bool)
        ensures
            r == self.parents_of_missing.deep_view().contains(dir@),
    {
        let mut i: usize = 0;
        while i < self.parents_of_missing.len()
            invariant
                i <= self.parents_of_missing@.len(),
                forall|j: int|
                    0 <= j < i ==> (#[trigger] self.parents_of_missing@[j])@ != dir@,
            decreases self.parents_of_missing@.len() - i,
        {
            if self.parents_of_missing[i] == *dir {
                assert(self.parents_of_missing.deep_view()[i as int] == dir@);
                return true;
            }
            i += 1;
        }
        proof {
            assert forall|j: int| 0 <= j < self.parents_of_missing.deep_view().len() implies self.parents_of_missing.deep_view()[j] != dir@ by {
                assert(self.parents_of_missing.deep_view()[j] == self.parents_of_missing@[j]@);
            }
        }
        false
    }

    /// The files accessed, in the format of a ninja depfile or of `cpp -MD`:
    /// `goal:`, then every recorded file and every parent of a missing file,
    /// each in path order, spaces escaped.
    pub fn write_depfile(&self, goal: &str) -> (r: String)
        ensures
            r@ == depfile_spec(
                goal@,
                path_sort(entry_paths(self.file_contents@)),
                path_sort(self.parents_of_missing.deep_view()),
            ),
            path_sort(entry_paths(self.file_contents@)).len() == self.file_contents@.len(),
            path_sort(self.parents_of_missing.deep_view()).len() == self.parents_of_missing@.len(),
    {
        let mut files: Vec<String> = Vec::new();
        let mut i: usize = 0;
        while i < self.file_contents.len()
            invariant
                i <= self.file_contents@.len(),
                files@.len() == i,
                forall|j: int| 0 <= j < i ==> (#[trigger] files@[j])@ == self.file_contents@[j].path@,
            decreases self.file_contents@.len() - i,
        {
            files.push(self.file_contents[i].path.clone());
            i += 1;
        }
        assert(files.deep_view() =~= entry_paths(self.file_contents@));
        let files = sort_paths(files);
        let missing = crate::tree::clone_path(&self.parents_of_missing);
        assert(missing@.len() == missing.deep_view().len());
        assert(self.parents_of_missing@.len() == self.parents_of_missing.deep_view().len());
        let dirs = sort_paths(missing);
        assert(dirs@.len() == dirs.deep_view().len());
        let mut out = escape_spaces(goal);
        out.append(":");
        proof {
            reveal_strlit(":");
        }
        append_list(&mut out, &files);
        append_list(&mut out, &dirs);
        out.append("\n");
        proof {
            reveal_strlit("\n");
            assert(out@ =~= depfile_spec(goal@, files.deep_view(), dirs.deep_view()));
        }
        out
    }
}

/// Appends each path, escaped and preceded by a space.
fn append_list(out: &mut String, v: &Vec<String>)
    ensures
        final(out)@ == old(out)@ + depfile_list(v.deep_view()),
{
    let ghost o = old(out)@;
    let mut i: usize = 0;
    assert(v.deep_view().subrange(0, 0) =~= Seq::<Seq<char>>::empty());
    assert(out@ =~= o + depfile_list(v.deep_view().subrange(0, 0)));
    while i < v.len()
        invariant
            i <= v@.len(),
            out@ == o + depfile_list(v.deep_view().subrange(0, i as int)),
        decreases v@.len() - i,
    {
        proof {
            let q = v.deep_view().subrange(0, i + 1);
            assert(q.drop_last() =~= v.deep_view().subrange(0, i as int));
            assert(q.last() == v@[i as int]@);
            reveal_strlit(" ");
        }
        out.append(" ");
        let e = escape_spaces(v[i].as_str());
        out.append(e.as_str());
        i += 1;
        assert(out@ =~= o + depfile_list(v.deep_view().subrange(0, i as int)));
    }
    assert(v.deep_view().subrange(0, i as int) =~= v.deep_view());
}

} // verus!
