//! A file system rebuilt from a terminal session, and the sizes of its directories.

use crate::text::{copy_range, decimal_i32, lines, parse_i32, rows_of, split_lines};
use crate::valve::{
    alpha_end, alpha_run, digit_end, digit_run, has_at, same_bytes, sign_end, starts_at,
};
use vstd::prelude::*;
use vstd::string::StringSliceAdditionalSpecFns;

verus! {

/// A file, of which only the size matters.
#[derive(Clone, Copy, Debug, PartialEq, Eq)]
pub struct File {
    pub size: i32,
}

/// A directory as one listing showed it: the names on the way to it, its own name,
/// the names of the directories in it and the files in it.
#[derive(Debug)]
pub struct Directory {
    pub path: Vec<Vec<u8>>,
    pub name: Vec<u8>,
    pub dir_names: Vec<Vec<u8>>,
    pub files: Vec<File>,
}

/// A directory as plain values.
pub ghost struct DirModel {
    pub path: Seq<Seq<u8>>,
    pub name: Seq<u8>,
    pub dir_names: Seq<Seq<u8>>,
    pub sizes: Seq<int>,
}

/// The sizes of a list of files.
pub open spec fn sizes_of(files: Seq<File>) -> Seq<int> {
    Seq::new(files.len(), |i: int| files[i].size as int)
}

impl View for Directory {
    type V = DirModel;

    open spec fn view(&self) -> DirModel {
        DirModel {
            path: rows_of(self.path@),
            name: self.name@,
            dir_names: rows_of(self.dir_names@),
            sizes: sizes_of(self.files@),
        }
    }
}

/// The models of a list of directories.
pub open spec fn models(ds: Seq<Directory>) -> Seq<DirModel> {
    Seq::new(ds.len(), |i: int| ds[i]@)
}

/// The first `k` sizes added up.
pub open spec fn files_total(sizes: Seq<int>, k: int) -> int
    decreases k,
{
    if k <= 0 {
        0
    } else {
        files_total(sizes, k - 1) + sizes[k - 1]
    }
}

/// Whether directory `c` lies directly in directory `of`: its path is the path of
/// `of` with the name of `of` at its end.
pub open spec fn is_child(c: DirModel, of: DirModel) -> bool {
    c.path.len() > 0 && c.path.last() == of.name && c.path.drop_last() == of.path
}

/// The length of the longest path among the first `k` directories.
pub open spec fn longest(dirs: Seq<DirModel>, k: int) -> int
    decreases k,
{
    if k <= 0 {
        0
    } else if dirs[k - 1].path.len() > longest(dirs, k - 1) {
        dirs[k - 1].path.len() as int
    } else {
        longest(dirs, k - 1)
    }
}

/// How many levels of directories can lie below `d` at most.
pub open spec fn depth_left(dirs: Seq<DirModel>, d: DirModel) -> nat {
    if longest(dirs, dirs.len() as int) + 1 > d.path.len() {
        (longest(dirs, dirs.len() as int) + 1 - d.path.len()) as nat
    } else {
        0
    }
}

/// No path among the first `k` directories is longer than the longest of them.
pub proof fn lemma_longest(dirs: Seq<DirModel>, k: int, i: int)
    requires
        0 <= i < k <= dirs.len(),
    ensures
        dirs[i].path.len() <= longest(dirs, k),
    decreases k,
{
    if i < k - 1 {
        lemma_longest(dirs, k - 1, i);
    }
}

/// A directory of the list that lies directly in `d` has fewer levels below it.
pub proof fn lemma_child_depth(dirs: Seq<DirModel>, d: DirModel, i: int)
    requires
        0 <= i < dirs.len(),
        is_child(dirs[i], d),
    ensures
        depth_left(dirs, dirs[i]) < depth_left(dirs, d),
{
    lemma_longest(dirs, dirs.len() as int, i);
}

/// The size of directory `d`: its files and the directories of the list that lie
/// directly in it, each with its own size.
pub open spec fn tree_size(dirs: Seq<DirModel>, d: DirModel) -> int
    decreases depth_left(dirs, d), 1int, 0int,
{
    files_total(d.sizes, d.sizes.len() as int) + children_size(dirs, d, dirs.len() as int)
}

/// The sizes of those of the first `k` directories that lie directly in `d`, added up.
pub open spec fn children_size(dirs: Seq<DirModel>, d: DirModel, k: int) -> int
    decreases depth_left(dirs, d), 0int, k,
{
    if k <= 0 || k > dirs.len() {
        0
    } else if is_child(dirs[k - 1], d) && depth_left(dirs, dirs[k - 1]) < depth_left(dirs, d) {
        children_size(dirs, d, k - 1) + tree_size(dirs, dirs[k - 1])
    } else {
        children_size(dirs, d, k - 1)
    }
}

/// Whether a number fits in `i32`.
pub open spec fn fits(x: int) -> bool {
    i32::MIN <= x <= i32::MAX
}

/// Whether the size of `d` can be added up in `i32`, in the order files, then
/// directories.
pub open spec fn dir_fits(dirs: Seq<DirModel>, d: DirModel) -> bool {
    &&& forall|k: int| 0 <= k <= d.sizes.len() ==> fits(#[trigger] files_total(d.sizes, k))
    &&& forall|k: int| 0 <= k <= dirs.len() ==> fits(#[trigger] children_size(dirs, d, k))
    &&& fits(tree_size(dirs, d))
}

/// Whether the sizes of all directories of the list can be added up in `i32`.
pub open spec fn all_fit(dirs: Seq<DirModel>) -> bool {
    forall|i: int| 0 <= i < dirs.len() ==> dir_fits(dirs, #[trigger] dirs[i])
}

/// Copies a list of names.
pub fn copy_names(names: &Vec<Vec<u8>>, upto: usize) -> (r: Vec<Vec<u8>>)
    requires
        upto <= names@.len(),
    ensures
        rows_of(r@) == rows_of(names@).take(upto as int),
{
    let mut out: Vec<Vec<u8>> = Vec::new();
    let mut i: usize = 0;
    while i < upto
        invariant
            i <= upto <= names@.len(),
            rows_of(out@) == rows_of(names@).take(i as int),
        decreases upto - i,
    {
        let ghost before = rows_of(out@);
        let name = copy_range(names[i].as_slice(), 0, names[i].len());
        assert(name@ =~= names@[i as int]@);
        out.push(name);
        assert(rows_of(out@) =~= before.push(names@[i as int]@));
        assert(rows_of(names@).take(i + 1) =~= rows_of(names@).take(i as int).push(
            rows_of(names@)[i as int],
        ));
        i += 1;
    }
    out
}

/// Tests whether two lists of names are the same.
pub fn same_names(a: &Vec<Vec<u8>>, upto: usize, b: &Vec<Vec<u8>>) -> (r: bool)
    requires
        upto <= a@.len(),
    ensures
        r == (rows_of(a@).take(upto as int) == rows_of(b@)),
{
    if upto != b.len() {
        assert(rows_of(a@).take(upto as int).len() != rows_of(b@).len());
        return false;
    }
    let mut i: usize = 0;
    while i < upto
        invariant
            upto == b@.len(),
            i <= upto <= a@.len(),
            forall|k: int| 0 <= k < i ==> a@[k]@ == b@[k]@,
        decreases upto - i,
    {
        if !same_bytes(&a[i], &b[i]) {
            assert(rows_of(a@).take(upto as int)[i as int] != rows_of(b@)[i as int]);
            return false;
        }
        i += 1;
    }
    assert(rows_of(a@).take(upto as int) =~= rows_of(b@));
    true
}

impl Directory {
    /// Notes a directory that the listing shows.
    pub fn add_directory(&mut self, dir: Vec<u8>)
        ensures
            final(self)@ == (DirModel { dir_names: old(self)@.dir_names.push(dir@), ..old(self)@ }),
    {
        let ghost before = rows_of(self.dir_names@);
        self.dir_names.push(dir);
        assert(rows_of(self.dir_names@) =~= before.push(dir@));
    }

    /// Notes a file that the listing shows.
    pub fn add_file(&mut self, file: File)
        ensures
            final(self)@ == (DirModel { sizes: old(self)@.sizes.push(file.size as int), ..old(self)@ }),
    {
        let ghost before = sizes_of(self.files@);
        self.files.push(file);
        assert(sizes_of(self.files@) =~= before.push(file.size as int));
    }

    /// Adds up the sizes of the files of this directory.
    pub fn file_size(&self) -> (r: i32)
        requires
            forall|k: int| 0 <= k <= self@.sizes.len() ==> fits(#[trigger] files_total(self@.sizes, k)),
        ensures
            r == files_total(self@.sizes, self@.sizes.len() as int),
    {
        let mut sum: i32 = 0;
        let mut i: usize = 0;
        while i < self.files.len()
            invariant
                forall|k: int|
                    0 <= k <= self@.sizes.len() ==> fits(#[trigger] files_total(self@.sizes, k)),
                i <= self.files@.len(),
                sum == files_total(self@.sizes, i as int),
            decreases self.files@.len() - i,
        {
            assert(fits(files_total(self@.sizes, i + 1)));
            sum += self.files[i].size;
            i += 1;
        }
        sum
    }

    /// Tests whether this directory lies directly in `of`.
    pub fn is_in(&self, of: &Directory) -> (r: bool)
        ensures
            r == is_child(self@, of@),
    {
        let n: usize = self.path.len();
        if n == 0 {
            return false;
        }
        assert(rows_of(self.path@).last() == self.path@[n - 1]@);
        assert(rows_of(self.path@).drop_last() =~= rows_of(self.path@).take(n - 1));
        same_bytes(&self.path[n - 1], &of.name) && same_names(&self.path, n - 1, &of.path)
    }

    /// Computes the size of this directory with all that lies in it.
    pub fn size(&self, directories: &Vec<Directory>) -> (r: i32)
        requires
            dir_fits(models(directories@), self@),
            all_fit(models(directories@)),
        ensures
            r == tree_size(models(directories@), self@),
        decreases depth_left(models(directories@), self@),
    {
        let ghost dirs = models(directories@);
        let mut subdir_size: i32 = 0;
        let mut i: usize = 0;
        while i < directories.len()
            invariant
                dirs == models(directories@),
                dir_fits(dirs, self@),
                all_fit(dirs),
                i <= directories@.len(),
                subdir_size == children_size(dirs, self@, i as int),
            decreases directories@.len() - i,
        {
            assert(dirs[i as int] == directories@[i as int]@);
            assert(fits(children_size(dirs, self@, i + 1)));
            if directories[i].is_in(self) {
                proof {
                    lemma_child_depth(dirs, self@, i as int);
                    assert(dir_fits(dirs, dirs[i as int]));
                }
                subdir_size += directories[i].size(directories);
            }
            i += 1;
        }
        self.file_size() + subdir_size
    }
}

/// The text "$ cd ".
pub open spec fn tag_cd() -> Seq<u8> {
    seq![36u8, 32u8, 99u8, 100u8, 32u8]
}

/// The text "$ ls".
pub open spec fn tag_ls() -> Seq<u8> {
    seq![36u8, 32u8, 108u8, 115u8]
}

/// The text "dir ".
pub open spec fn tag_dir() -> Seq<u8> {
    seq![100u8, 105u8, 114u8, 32u8]
}

/// The name "/".
pub open spec fn name_root() -> Seq<u8> {
    seq![47u8]
}

/// The name "..".
pub open spec fn name_up() -> Seq<u8> {
    seq![46u8, 46u8]
}

/// The directory that a line changes to, where it starts with such a command: "/",
/// "..", or a name of letters.
pub open spec fn cd_of(line: Seq<u8>) -> Option<Seq<u8>> {
    if !has_at(line, 0, tag_cd()) {
        None
    } else if has_at(line, 5, name_root()) {
        Some(name_root())
    } else if has_at(line, 5, name_up()) {
        Some(name_up())
    } else if alpha_end(line, 5) > 5 {
        Some(line.subrange(5, alpha_end(line, 5)))
    } else {
        None
    }
}

/// Whether a line starts with the command that lists a directory.
pub open spec fn is_ls(line: Seq<u8>) -> bool {
    has_at(line, 0, tag_ls())
}

/// The directory that a line of a listing shows: "dir " and a name of letters.
pub open spec fn dir_of(line: Seq<u8>) -> Option<Seq<u8>> {
    if has_at(line, 0, tag_dir()) && alpha_end(line, 4) > 4 {
        Some(line.subrange(4, alpha_end(line, 4)))
    } else {
        None
    }
}

/// The size of the file that a line of a listing shows: a number that fits in `i32`
/// with at least one more byte behind it.
pub open spec fn file_of(line: Seq<u8>) -> Option<i32> {
    let e = digit_end(line, sign_end(line, 0));
    if e < line.len() {
        decimal_i32(line.subrange(0, e))
    } else {
        None
    }
}

/// Where a session stands: the names on the way to the current directory, the
/// directories listed so far, and the directory whose listing is being read.
pub ghost struct Walk {
    pub path: Seq<Seq<u8>>,
    pub done: Seq<DirModel>,
    pub open: Option<DirModel>,
}

/// The path after a change to `name`: one name shorter for "..", unchanged for "/",
/// and longer by `name` otherwise.
pub open spec fn change_dir(path: Seq<Seq<u8>>, name: Seq<u8>) -> Seq<Seq<u8>> {
    if name == name_up() {
        if path.len() > 0 {
            path.drop_last()
        } else {
            path
        }
    } else if name == name_root() {
        path
    } else {
        path.push(name)
    }
}

/// Where the session stands after one more line, if the line is one that may follow.
pub open spec fn step(w: Walk, line: Seq<u8>) -> Option<Walk> {
    match w.open {
        None => if cd_of(line) is Some {
            Some(Walk { path: change_dir(w.path, cd_of(line).unwrap()), ..w })
        } else if is_ls(line) && w.path.len() > 0 {
            Some(
                Walk {
                    open: Some(
                        DirModel {
                            path: w.path.drop_last(),
                            name: w.path.last(),
                            dir_names: Seq::empty(),
                            sizes: Seq::empty(),
                        },
                    ),
                    ..w
                },
            )
        } else {
            None
        },
        Some(cwd) => if file_of(line) is Some {
            Some(
                Walk {
                    open: Some(
                        DirModel { sizes: cwd.sizes.push(file_of(line).unwrap() as int), ..cwd },
                    ),
                    ..w
                },
            )
        } else if dir_of(line) is Some {
            Some(
                Walk {
                    open: Some(
                        DirModel { dir_names: cwd.dir_names.push(dir_of(line).unwrap()), ..cwd },
                    ),
                    ..w
                },
            )
        } else if cd_of(line) is Some {
            Some(
                Walk {
                    path: change_dir(w.path, cd_of(line).unwrap()),
                    done: w.done.push(cwd),
                    open: None,
                },
            )
        } else {
            None
        },
    }
}

/// Where the session stands after its first `k` lines. It starts in the root.
pub open spec fn walk(ls: Seq<Seq<u8>>, k: int) -> Option<Walk>
    decreases k,
{
    if k <= 0 {
        Some(Walk { path: seq![name_root()], done: Seq::empty(), open: None })
    } else {
        match walk(ls, k - 1) {
            Some(w) => step(w, ls[k - 1]),
            None => None,
        }
    }
}

/// The directories that a session lists, in the order of their listings. The session
/// must end within a listing.
pub open spec fn listing(ls: Seq<Seq<u8>>) -> Option<Seq<DirModel>> {
    match walk(ls, ls.len() as int) {
        Some(w) => match w.open {
            Some(cwd) => Some(w.done.push(cwd)),
            None => None,
        },
        None => None,
    }
}

/// Reads the command that changes the directory.
pub fn cd(line: &[u8]) -> (r: Option<Vec<u8>>)
    ensures
        match cd_of(line@) {
            Some(name) => r is Some && r.unwrap()@ == name,
            None => r is None,
        },
{
    let n: usize = line.len();
    let lead: Vec<u8> = vec![36u8, 32u8, 99u8, 100u8, 32u8];
    let root: Vec<u8> = vec![47u8];
    let up: Vec<u8> = vec![46u8, 46u8];
    assert(lead@ =~= tag_cd());
    assert(root@ =~= name_root());
    assert(up@ =~= name_up());
    assert(tag_cd().len() == 5);
    if !starts_at(line, 0, &lead) {
        return None;
    }
    if starts_at(line, 5, &root) {
        return Some(root);
    }
    if starts_at(line, 5, &up) {
        return Some(up);
    }
    let e: usize = alpha_run(line, 5);
    if e > 5 {
        Some(copy_range(line, 5, e))
    } else {
        None
    }
}

/// Tests whether a line starts with the command that lists a directory.
pub fn ls(line: &[u8]) -> (r: bool)
    ensures
        r == is_ls(line@),
{
    let lead: Vec<u8> = vec![36u8, 32u8, 108u8, 115u8];
    assert(lead@ =~= tag_ls());
    starts_at(line, 0, &lead)
}

/// Reads a line of a listing that shows a directory.
pub fn dir(line: &[u8]) -> (r: Option<Vec<u8>>)
    ensures
        match dir_of(line@) {
            Some(name) => r is Some && r.unwrap()@ == name,
            None => r is None,
        },
{
    let n: usize = line.len();
    let lead: Vec<u8> = vec![100u8, 105u8, 114u8, 32u8];
    assert(lead@ =~= tag_dir());
    assert(tag_dir().len() == 4);
    if !starts_at(line, 0, &lead) {
        return None;
    }
    let e: usize = alpha_run(line, 4);
    if e > 4 {
        Some(copy_range(line, 4, e))
    } else {
        None
    }
}

/// Reads a line of a listing that shows a file.
pub fn file(line: &[u8]) -> (r: Option<File>)
    ensures
        match file_of(line@) {
            Some(size) => r == Some(File { size }),
            None => r is None,
        },
{
    let n: usize = line.len();
    let c1: usize = if 0 < n && (line[0] == 45 || line[0] == 43) {
        1
    } else {
        0
    };
    let e: usize = digit_run(line, c1);
    if e >= n {
        return None;
    }
    let token = copy_range(line, 0, e);
    match parse_i32(token.as_slice()) {
        Some(size) => Some(File { size }),
        None => None,
    }
}

/// Rebuilds the directories that a terminal session lists.
pub fn build_directories(input: &str) -> (r: Vec<Directory>)
    requires
        listing(lines(input.spec_bytes())) is Some,
    ensures
        Some(models(r@)) == listing(lines(input.spec_bytes())),
{
    let ls_lines = split_lines(input.as_bytes());
    let ghost rows = rows_of(ls_lines@);
    let mut path: Vec<Vec<u8>> = Vec::new();
    path.push(vec![47u8]);
    let mut directories: Vec<Directory> = Vec::new();
    let mut listing_now: bool = false;
    let mut cwd = Directory { path: Vec::new(), name: Vec::new(), dir_names: Vec::new(), files: Vec::new() };
    let mut i: usize = 0;
    proof {
        assert(path@[0]@ =~= name_root());
        assert(rows_of(path@) =~= seq![name_root()]);
        assert(models(directories@) =~= Seq::<DirModel>::empty());
    }
    while i < ls_lines.len()
        invariant
            rows == rows_of(ls_lines@),
            listing(rows) is Some,
            i <= ls_lines@.len(),
            walk(rows, i as int) == Some(
                Walk {
                    path: rows_of(path@),
                    done: models(directories@),
                    open: if listing_now {
                        Some(cwd@)
                    } else {
                        None
                    },
                },
            ),
        decreases ls_lines@.len() - i,
    {
        let line: &[u8] = ls_lines[i].as_slice();
        proof {
            assert(rows[i as int] == ls_lines@[i as int]@);
            lemma_walk_on(rows, i + 1);
        }
        let ghost before_path = rows_of(path@);
        let ghost before_done = models(directories@);
        let mut change: Option<Vec<u8>> = None;
        if listing_now {
            match file(line) {
                Some(f) => {
                    cwd.add_file(f);
                },
                None => match dir(line) {
                    Some(name) => {
                        cwd.add_directory(name);
                    },
                    None => {
                        change = cd(line);
                        directories.push(cwd);
                        assert(models(directories@) =~= before_done.push(cwd@));
                        cwd =
                        Directory {
                            path: Vec::new(),
                            name: Vec::new(),
                            dir_names: Vec::new(),
                            files: Vec::new(),
                        };
                        listing_now = false;
                    },
                },
            }
        } else {
            change = cd(line);
            if change.is_none() {
                let depth: usize = path.len();
                let dir_path = copy_names(&path, depth - 1);
                let dir_name = copy_range(path[depth - 1].as_slice(), 0, path[depth - 1].len());
                proof {
                    assert(dir_name@ =~= path@[depth - 1]@);
                    assert(rows_of(path@).take(depth - 1) =~= rows_of(path@).drop_last());
                    assert(rows_of(path@).last() == path@[depth - 1]@);
                }
                cwd = Directory { path: dir_path, name: dir_name, dir_names: Vec::new(), files: Vec::new() };
                proof {
                    assert(cwd@.dir_names =~= Seq::<Seq<u8>>::empty());
                    assert(cwd@.sizes =~= Seq::<int>::empty());
                }
                listing_now = true;
            }
        }
        match change {
            Some(name) => {
                let up: Vec<u8> = vec![46u8, 46u8];
                let root: Vec<u8> = vec![47u8];
                assert(up@ =~= name_up());
                assert(root@ =~= name_root());
                if same_bytes(&name, &up) {
                    if path.len() > 0 {
                        path.pop();
                        assert(rows_of(path@) =~= before_path.drop_last());
                    }
                } else if !same_bytes(&name, &root) {
                    path.push(name);
                    assert(rows_of(path@) =~= before_path.push(name@));
                }
            },
            None => {},
        }
        i += 1;
    }
    directories.push(cwd);
    assert(models(directories@) =~= models(directories@.drop_last()).push(cwd@));
    directories
}

/// A session whose first `k` lines lead somewhere does so after fewer lines too.
pub proof fn lemma_walk_on(ls: Seq<Seq<u8>>, k: int)
    requires
        0 <= k <= ls.len(),
        walk(ls, ls.len() as int) is Some,
    ensures
        walk(ls, k) is Some,
    decreases ls.len() - k,
{
    if k < ls.len() {
        lemma_walk_on(ls, k + 1);
    }
}

/// The sizes of those of the first `k` directories that are no larger than `limit`,
/// added up.
pub open spec fn small_total(dirs: Seq<DirModel>, k: int, limit: int) -> int
    decreases k,
{
    if k <= 0 {
        0
    } else if tree_size(dirs, dirs[k - 1]) <= limit {
        small_total(dirs, k - 1, limit) + tree_size(dirs, dirs[k - 1])
    } else {
        small_total(dirs, k - 1, limit)
    }
}

/// Whether the sizes of the small directories can be added up in `i32`.
pub open spec fn small_fit(dirs: Seq<DirModel>) -> bool {
    forall|k: int| 0 <= k <= dirs.len() ==> fits(#[trigger] small_total(dirs, k, 100000))
}

/// The index of the first directory named "/", or the number of directories where
/// none is.
pub open spec fn root_index(dirs: Seq<DirModel>, from: int) -> int
    decreases dirs.len() - from,
{
    if from < 0 || from >= dirs.len() {
        dirs.len() as int
    } else if dirs[from].name == name_root() {
        from
    } else {
        root_index(dirs, from + 1)
    }
}

/// The space that must be freed for 30000000 to be free of 70000000, given the size
/// of the first directory named "/".
pub open spec fn needed_space(dirs: Seq<DirModel>) -> int {
    30000000 - (70000000 - tree_size(dirs, dirs[root_index(dirs, 0)]))
}

/// Whether `r` is the size of the smallest directory that is at least as large as
/// `needed`.
pub open spec fn is_smallest_enough(dirs: Seq<DirModel>, needed: int, r: int) -> bool {
    &&& r >= needed
    &&& exists|i: int| 0 <= i < dirs.len() && #[trigger] tree_size(dirs, dirs[i]) == r
    &&& forall|i: int|
        0 <= i < dirs.len() && #[trigger] tree_size(dirs, dirs[i]) >= needed ==> r <= tree_size(
            dirs,
            dirs[i],
        )
}

/// Whether a session can be answered: it lists directories whose sizes can be added
/// up in `i32`.
pub open spec fn is_session(s: Seq<u8>) -> bool {
    &&& listing(lines(s)) is Some
    &&& all_fit(listing(lines(s)).unwrap())
}

/// The sizes of all directories of at most 100000, added up.
pub fn part1(input: &str) -> (r: i32)
    requires
        is_session(input.spec_bytes()),
        small_fit(listing(lines(input.spec_bytes())).unwrap()),
    ensures
        r == small_total(
            listing(lines(input.spec_bytes())).unwrap(),
            listing(lines(input.spec_bytes())).unwrap().len() as int,
            100000,
        ),
{
    let directories = build_directories(input);
    let ghost dirs = models(directories@);
    let mut sum: i32 = 0;
    let mut i: usize = 0;
    while i < directories.len()
        invariant
            dirs == models(directories@),
            all_fit(dirs),
            small_fit(dirs),
            i <= directories@.len(),
            sum == small_total(dirs, i as int, 100000),
        decreases directories@.len() - i,
    {
        assert(dirs[i as int] == directories@[i as int]@);
        assert(dir_fits(dirs, dirs[i as int]));
        assert(fits(small_total(dirs, i + 1, 100000)));
        let size: i32 = directories[i].size(&directories);
        if size <= 100000 {
            sum += size;
        }
        i += 1;
    }
    sum
}

/// The size of the smallest directory whose removal frees enough space.
pub fn part2(input: &str) -> (r: i32)
    requires
        is_session(input.spec_bytes()),
        root_index(listing(lines(input.spec_bytes())).unwrap(), 0) < listing(
            lines(input.spec_bytes()),
        ).unwrap().len(),
        fits(needed_space(listing(lines(input.spec_bytes())).unwrap())),
        fits(30000000 - needed_space(listing(lines(input.spec_bytes())).unwrap())),
        exists|i: int|
            0 <= i < listing(lines(input.spec_bytes())).unwrap().len() && #[trigger] tree_size(
                listing(lines(input.spec_bytes())).unwrap(),
                listing(lines(input.spec_bytes())).unwrap()[i],
            ) >= needed_space(listing(lines(input.spec_bytes())).unwrap()),
    ensures
        is_smallest_enough(
            listing(lines(input.spec_bytes())).unwrap(),
            needed_space(listing(lines(input.spec_bytes())).unwrap()),
            r as int,
        ),
{
    let directories = build_directories(input);
    let ghost dirs = models(directories@);
    let root_name: Vec<u8> = vec![47u8];
    assert(root_name@ =~= name_root());
    let mut at: usize = 0;
    while at < directories.len() && !same_bytes(&directories[at].name, &root_name)
        invariant
            dirs == models(directories@),
            root_name@ == name_root(),
            at <= directories@.len(),
            root_index(dirs, 0) == root_index(dirs, at as int),
        decreases directories@.len() - at,
    {
        assert(dirs[at as int] == directories@[at as int]@);
        at += 1;
    }
    assert(dirs[at as int] == directories@[at as int]@);
    assert(dir_fits(dirs, dirs[at as int]));
    let free_space: i32 = 70000000 - directories[at].size(&directories);
    let needed: i32 = 30000000 - free_space;
    let mut best: Option<i32> = None;
    let mut i: usize = 0;
    while i < directories.len()
        invariant
            dirs == models(directories@),
            all_fit(dirs),
            i <= directories@.len(),
            match best {
                Some(b) => b >= needed && (exists|k: int|
                    0 <= k < i && #[trigger] tree_size(dirs, dirs[k]) == b),
                None => true,
            },
            forall|k: int|
                0 <= k < i && #[trigger] tree_size(dirs, dirs[k]) >= needed ==> best is Some
                    && best.unwrap() <= tree_size(dirs, dirs[k]),
        decreases directories@.len() - i,
    {
        assert(dirs[i as int] == directories@[i as int]@);
        assert(dir_fits(dirs, dirs[i as int]));
        let size: i32 = directories[i].size(&directories);
        if size >= needed {
            let better: bool = match best {
                Some(b) => size < b,
                None => true,
            };
            if better {
                best = Some(size);
            }
        }
        i += 1;
    }
    match best {
        Some(b) => b,
        None => 0,
    }
}

} // verus!
