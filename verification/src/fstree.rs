//! A directory tree as plain data.
//!
//! The tree is held as a flat list of files, each with a relative path
//! (a non-empty list of byte-string segments) and its contents. Directories
//! are implicit in the paths. The view of a tree is the map from paths to
//! contents, and every operation's contract is stated on that map. The
//! runtime side mirrors each operation onto the real disk; the merge and
//! flatten rules themselves are decided, and proved, here.

use vstd::prelude::*;
use crate::paths::bytes_eq;

verus! {

/// One file: where it stands relative to the tree's root, and what it holds.
pub struct FsFile {
    pub path: Vec<Vec<u8>>,
    pub data: Vec<u8>,
}

/// A directory tree: a flat list of files.
pub struct DirTree {
    pub files: Vec<FsFile>,
}

impl DirTree {
    /// Well-formed: every path is non-empty and no two files share a path.
    pub open spec fn wf(self) -> bool {
        &&& forall|i: int| 0 <= i < self.files@.len() ==> #[trigger] self.files@[i].path@.len()
            > 0
        &&& forall|i: int, j: int|
            0 <= i < self.files@.len() && 0 <= j < self.files@.len() && i != j
                ==> #[trigger] self.files@[i].path.deep_view() != #[trigger] self.files@[j].path.deep_view()
    }

    /// The map from file paths to file contents that the list denotes.
    pub open spec fn as_map(files: Seq<FsFile>) -> Map<Seq<Seq<u8>>, Seq<u8>>
        decreases files.len(),
    {
        if files.len() == 0 {
            Map::empty()
        } else {
            Self::as_map(files.drop_last()).insert(
                files.last().path.deep_view(),
                files.last().data@,
            )
        }
    }
}

impl View for DirTree {
    type V = Map<Seq<Seq<u8>>, Seq<u8>>;

    open spec fn view(&self) -> Map<Seq<Seq<u8>>, Seq<u8>> {
        DirTree::as_map(self.files@)
    }
}

/// The tree that results from merging `src` into `dest`: every path of
/// either side is present; a path of `src` carries `src`'s contents when it
/// is new to `dest` or `overwrite` is set, and `dest`'s contents otherwise.
pub open spec fn merged(
    dest: Map<Seq<Seq<u8>>, Seq<u8>>,
    src: Map<Seq<Seq<u8>>, Seq<u8>>,
    overwrite: bool,
) -> Map<Seq<Seq<u8>>, Seq<u8>> {
    Map::new(
        |p: Seq<Seq<u8>>| dest.dom().contains(p) || src.dom().contains(p),
        |p: Seq<Seq<u8>>|
            if src.dom().contains(p) && (overwrite || !dest.dom().contains(p)) {
                src[p]
            } else {
                dest[p]
            },
    )
}

/// The entries of `m` whose first path segment is not `d`.
pub open spec fn without_dir(m: Map<Seq<Seq<u8>>, Seq<u8>>, d: Seq<u8>) -> Map<
    Seq<Seq<u8>>,
    Seq<u8>,
> {
    Map::new(|p: Seq<Seq<u8>>| m.dom().contains(p) && (p.len() == 0 || p[0] != d), |p: Seq<Seq<u8>>| m[p])
}

/// The entries of `m` under the directory `d`, with that leading segment
/// stripped.
pub open spec fn lifted(m: Map<Seq<Seq<u8>>, Seq<u8>>, d: Seq<u8>) -> Map<
    Seq<Seq<u8>>,
    Seq<u8>,
> {
    Map::new(
        |p: Seq<Seq<u8>>| m.dom().contains(p.insert(0, d)),
        |p: Seq<Seq<u8>>| m[p.insert(0, d)],
    )
}

/// In a well-formed list, membership in the denoted map is membership in
/// the list, and each file's contents are the map's.
pub proof fn lemma_as_map_index(files: Seq<FsFile>)
    requires
        forall|i: int, j: int|
            0 <= i < files.len() && 0 <= j < files.len() && i != j ==> #[trigger] files[i].path.deep_view()
                != #[trigger] files[j].path.deep_view(),
    ensures
        forall|p: Seq<Seq<u8>>| #[trigger] DirTree::as_map(files).dom().contains(p) <==> exists|
            i: int,
        | 0 <= i < files.len() && #[trigger] files[i].path.deep_view() == p,
        forall|i: int| 0 <= i < files.len() ==> #[trigger] DirTree::as_map(files)[files[
            i
        ].path.deep_view()] == files[i].data@,
        forall|i: int|
            0 <= i < files.len() ==> DirTree::as_map(files).dom().contains(
                #[trigger] files[i].path.deep_view(),
            ),
    decreases files.len(),
{
    if files.len() > 0 {
        let pre = files.drop_last();
        lemma_as_map_index(pre);
        assert forall|i: int| 0 <= i < files.len() implies #[trigger] DirTree::as_map(
            files,
        )[files[i].path.deep_view()] == files[i].data@ by {
            if i < files.len() - 1 {
                assert(files[i].path.deep_view() != files[files.len() - 1].path.deep_view());
                assert(pre[i] == files[i]);
                assert(DirTree::as_map(pre)[pre[i].path.deep_view()] == pre[i].data@);
            }
        }
        assert forall|p: Seq<Seq<u8>>| #[trigger] DirTree::as_map(files).dom().contains(p) implies
            exists|i: int| 0 <= i < files.len() && files[i].path.deep_view() == p by {
            if p == files[files.len() - 1].path.deep_view() {
                assert(files[files.len() - 1].path.deep_view() == p);
            } else {
                assert(DirTree::as_map(pre).dom().contains(p));
                let i = choose|i: int| 0 <= i < pre.len() && #[trigger] pre[i].path.deep_view() == p;
                assert(files[i] == pre[i]);
                assert(files[i].path.deep_view() == p);
            }
        }
        assert forall|p: Seq<Seq<u8>>| (exists|i: int|
            0 <= i < files.len() && #[trigger] files[i].path.deep_view() == p) implies
            #[trigger] DirTree::as_map(files).dom().contains(p) by {
            let i = choose|i: int| 0 <= i < files.len() && #[trigger] files[i].path.deep_view()
                == p;
            if i < files.len() - 1 {
                assert(pre[i].path.deep_view() == p);
                assert(DirTree::as_map(pre).dom().contains(p));
            }
        }
        assert forall|i: int| 0 <= i < files.len() implies DirTree::as_map(files).dom().contains(
            #[trigger] files[i].path.deep_view(),
        ) by {
            let p = files[i].path.deep_view();
            assert(exists|j: int|
                0 <= j < files.len() && #[trigger] files[j].path.deep_view() == p);
            assert(DirTree::as_map(files).dom().contains(p));
        }
    } else {
        assert(files.len() == 0);
    }
}

/// Finds the file with the given path, if the list holds one.
fn find_path(files: &Vec<FsFile>, p: &Vec<Vec<u8>>) -> (r: Option<usize>)
    ensures
        match r {
            Some(i) => i < files@.len() && files@[i as int].path.deep_view() == p.deep_view(),
            None => forall|i: int|
                0 <= i < files@.len() ==> #[trigger] files@[i].path.deep_view() != p.deep_view(),
        },
{
    let mut i: usize = 0;
    while i < files.len()
        invariant
            0 <= i <= files@.len(),
            forall|j: int|
                0 <= j < i ==> #[trigger] files@[j].path.deep_view() != p.deep_view(),
        decreases files@.len() - i,
    {
        if segs_eq(&files[i].path, p) {
            return Some(i);
        }
        i += 1;
    }
    None
}

/// True exactly when the two segment lists hold the same segments.
pub fn segs_eq(a: &Vec<Vec<u8>>, b: &Vec<Vec<u8>>) -> (r: bool)
    ensures
        r == (a.deep_view() == b.deep_view()),
{
    if a.len() != b.len() {
        assert(a.deep_view().len() == a@.len());
        assert(b.deep_view().len() == b@.len());
        return false;
    }
    let mut i: usize = 0;
    while i < a.len()
        invariant
            0 <= i <= a@.len(),
            a@.len() == b@.len(),
            forall|j: int| 0 <= j < i ==> a.deep_view()[j] == b.deep_view()[j],
        decreases a@.len() - i,
    {
        proof {
            assert(a.deep_view()[i as int] =~= a@[i as int]@);
            assert(b.deep_view()[i as int] =~= b@[i as int]@);
        }
        if !bytes_eq(a[i].as_slice(), b[i].as_slice()) {
            assert(a.deep_view()[i as int] != b.deep_view()[i as int]);
            return false;
        }
        assert(a.deep_view()[i as int] == b.deep_view()[i as int]);
        i += 1;
    }
    assert(a.deep_view() =~= b.deep_view());
    true
}

/// Copies the bytes of a vector.
pub fn clone_bytes(v: &Vec<u8>) -> (r: Vec<u8>)
    ensures
        r@ == v@,
{
    let mut r: Vec<u8> = Vec::new();
    let mut i: usize = 0;
    while i < v.len()
        invariant
            0 <= i <= v@.len(),
            r@ =~= v@.subrange(0, i as int),
        decreases v@.len() - i,
    {
        r.push(v[i]);
        i += 1;
    }
    assert(r@ =~= v@);
    r
}

/// Copies a segment list.
pub fn clone_segs(v: &Vec<Vec<u8>>) -> (r: Vec<Vec<u8>>)
    ensures
        r.deep_view() == v.deep_view(),
        r@.len() == v@.len(),
{
    let mut r: Vec<Vec<u8>> = Vec::new();
    let mut i: usize = 0;
    while i < v.len()
        invariant
            0 <= i <= v@.len(),
            r@.len() == i,
            forall|j: int| 0 <= j < i ==> r.deep_view()[j] == v.deep_view()[j],
        decreases v@.len() - i,
    {
        r.push(clone_bytes(&v[i]));
        proof {
            assert(r.deep_view()[i as int] =~= r@[i as int]@);
            assert(v.deep_view()[i as int] =~= v@[i as int]@);
        }
        assert(r.deep_view()[i as int] == v.deep_view()[i as int]);
        i += 1;
    }
    assert(r.deep_view() =~= v.deep_view());
    r
}

impl DirTree {
    /// The empty tree.
    pub fn new() -> (r: DirTree)
        ensures
            r@ == Map::<Seq<Seq<u8>>, Seq<u8>>::empty(),
            r.wf(),
    {
        DirTree { files: Vec::new() }
    }

    /// Adds a file, replacing any file already at that path.
    pub fn put(&mut self, path: Vec<Vec<u8>>, data: Vec<u8>)
        requires
            old(self).wf(),
            path@.len() > 0,
        ensures
            final(self).wf(),
            final(self)@ == old(self)@.insert(path.deep_view(), data@),
    {
        proof {
            lemma_as_map_index(self.files@);
        }
        match find_path(&self.files, &path) {
            Some(i) => {
                proof {
                    lemma_as_map_update(self.files@, i as int, path.deep_view(), data@);
                }
                self.files.set(i, FsFile { path, data });
            },
            None => {
                self.files.push(FsFile { path, data });
                proof {
                    assert(self.files@.drop_last() =~= old(self).files@);
                }
            },
        }
    }

    /// The contents at a path, if a file stands there.
    pub fn get(&self, path: &Vec<Vec<u8>>) -> (r: Option<&Vec<u8>>)
        requires
            self.wf(),
        ensures
            match r {
                Some(d) => self@.dom().contains(path.deep_view()) && d@ == self@[path.deep_view()],
                None => !self@.dom().contains(path.deep_view()),
            },
    {
        proof {
            lemma_as_map_index(self.files@);
        }
        match find_path(&self.files, path) {
            Some(i) => Some(&self.files[i].data),
            None => None,
        }
    }

    /// How many files the tree holds.
    pub fn file_count(&self) -> (r: usize)
        requires
            self.wf(),
        ensures
            r == self.files@.len(),
    {
        self.files.len()
    }
}

/// Updating the file at `i` to the same path denotes inserting over it.
proof fn lemma_as_map_update(files: Seq<FsFile>, i: int, p: Seq<Seq<u8>>, d: Seq<u8>)
    requires
        0 <= i < files.len(),
        files[i].path.deep_view() == p,
        forall|k: int, j: int|
            0 <= k < files.len() && 0 <= j < files.len() && k != j ==> #[trigger] files[k].path.deep_view()
                != #[trigger] files[j].path.deep_view(),
    ensures
        forall|f: FsFile|
            f.path.deep_view() == p && f.data@ == d ==> DirTree::as_map(
                #[trigger] files.update(i, f),
            ) == DirTree::as_map(files).insert(p, d),
    decreases files.len(),
{
    assert forall|f: FsFile| f.path.deep_view() == p && f.data@ == d implies DirTree::as_map(
        files.update(i, f),
    ) == DirTree::as_map(files).insert(p, d) by {
        let upd = files.update(i, f);
        if i == files.len() - 1 {
            assert(upd.drop_last() =~= files.drop_last());
            assert(DirTree::as_map(upd) =~~= DirTree::as_map(files).insert(p, d));
        } else {
            assert(upd.drop_last() =~= files.drop_last().update(i, f));
            lemma_as_map_update(files.drop_last(), i, p, d);
            assert(files.last().path.deep_view() != p);
            assert(upd.last() == files.last());
            assert(DirTree::as_map(upd) =~~= DirTree::as_map(files).insert(p, d));
        }
    }
}

/// Merges `src` into `dest`: directories are implicit, files of `src` land
/// at their own paths, and an existing destination file is replaced only
/// when `overwrite` is set.
pub fn copy_contents(src: &DirTree, dest: &mut DirTree, overwrite: bool)
    requires
        src.wf(),
        old(dest).wf(),
    ensures
        final(dest).wf(),
        final(dest)@ == merged(old(dest)@, src@, overwrite),
{
    let ghost d0 = old(dest)@;
    let mut i: usize = 0;
    proof {
        assert(DirTree::as_map(src.files@.subrange(0, 0)) =~~= Map::<Seq<Seq<u8>>, Seq<u8>>::empty());
        assert(dest@ =~~= merged(d0, DirTree::as_map(src.files@.subrange(0, 0)), overwrite));
    }
    while i < src.files.len()
        invariant
            0 <= i <= src.files@.len(),
            src.wf(),
            dest.wf(),
            dest@ == merged(d0, DirTree::as_map(src.files@.subrange(0, i as int)), overwrite),
        decreases src.files@.len() - i,
    {
        let ghost pre = src.files@.subrange(0, i as int);
        let ghost p = src.files@[i as int].path.deep_view();
        let ghost v = src.files@[i as int].data@;
        proof {
            assert(src.files@.subrange(0, i + 1).drop_last() =~= pre);
            assert(DirTree::as_map(src.files@.subrange(0, i + 1)) == DirTree::as_map(pre).insert(
                p,
                v,
            ));
            // the current path is new to the prefix, by well-formedness
            lemma_as_map_index(pre);
            assert forall|j: int| 0 <= j < pre.len() implies #[trigger] pre[j].path.deep_view()
                != p by {
                assert(src.files@[j].path.deep_view() != src.files@[i as int].path.deep_view());
            }
            assert(!DirTree::as_map(pre).dom().contains(p));
        }
        let f = &src.files[i];
        let path = clone_segs(&f.path);
        let data = clone_bytes(&f.data);
        let ghost before = dest.files@;
        match find_path(&dest.files, &path) {
            Some(idx) => {
                if overwrite {
                    proof {
                        assert(path.deep_view() == p);
                        assert(data@ == v);
                    }
                    set_file(dest, idx, path, data);
                    proof {
                        assert(dest@ == DirTree::as_map(before).insert(p, v));
                        assert(DirTree::as_map(before) == merged(
                            d0,
                            DirTree::as_map(pre),
                            overwrite,
                        ));
                        assert(dest@ =~~= merged(
                            d0,
                            DirTree::as_map(pre).insert(p, v),
                            overwrite,
                        ));
                        assert(src.files@.subrange(0, i + 1).drop_last() =~= pre);
                        assert(DirTree::as_map(src.files@.subrange(0, i + 1))
                            == DirTree::as_map(pre).insert(p, v));
                        assert(dest@ == merged(
                            d0,
                            DirTree::as_map(src.files@.subrange(0, i + 1)),
                            overwrite,
                        ));
                    }
                } else {
                    proof {
                        // the destination file stays; the source path was
                        // already present, so the merge keeps the old value
                        lemma_as_map_index(before);
                        assert(dest@.dom().contains(p));
                        assert(d0.dom().contains(p));
                        let target = merged(
                            d0,
                            DirTree::as_map(src.files@.subrange(0, i + 1)),
                            overwrite,
                        );
                        assert(DirTree::as_map(src.files@.subrange(0, i + 1))
                            == DirTree::as_map(pre).insert(p, v));
                        assert forall|q: Seq<Seq<u8>>| #[trigger] target.dom().contains(q)
                            implies dest@.dom().contains(q) && dest@[q] == target[q] by {
                            if q != p {
                                assert(DirTree::as_map(pre).insert(p, v).dom().contains(q)
                                    == DirTree::as_map(pre).dom().contains(q));
                            }
                        }
                        assert forall|q: Seq<Seq<u8>>| #[trigger] dest@.dom().contains(q)
                            implies target.dom().contains(q) by {}
                        assert(dest@ =~~= target);
                    }
                }
            },
            None => {
                dest.files.push(FsFile { path, data });
                proof {
                    assert(dest.files@.drop_last() =~= before);
                    assert(DirTree::as_map(dest.files@) == DirTree::as_map(before).insert(p, v));
                    lemma_as_map_index(before);
                    assert(!DirTree::as_map(before).dom().contains(p));
                    assert(!d0.dom().contains(p));
                    assert(dest@ =~~= merged(
                        d0,
                        DirTree::as_map(src.files@.subrange(0, i + 1)),
                        overwrite,
                    ));
                    assert forall|k: int, j: int|
                        0 <= k < dest.files@.len() && 0 <= j < dest.files@.len() && k != j implies
                        #[trigger] dest.files@[k].path.deep_view() != #[trigger] dest.files@[
                        j
                    ].path.deep_view() by {
                        if j == dest.files@.len() - 1 || k == dest.files@.len() - 1 {
                            assert(forall|t: int|
                                0 <= t < before.len() ==> #[trigger] before[t].path.deep_view()
                                    != p);
                        }
                    }
                }
            },
        }
        i += 1;
    }
    proof {
        assert(src.files@.subrange(0, src.files@.len() as int) =~= src.files@);
    }
}

/// Replaces the file at `idx` with one at the same path holding `data`.
fn set_file(dest: &mut DirTree, idx: usize, path: Vec<Vec<u8>>, data: Vec<u8>)
    requires
        old(dest).wf(),
        idx < old(dest).files@.len(),
        path.deep_view() == old(dest).files@[idx as int].path.deep_view(),
        path@.len() > 0,
    ensures
        final(dest).wf(),
        final(dest)@ == old(dest)@.insert(path.deep_view(), data@),
{
    proof {
        lemma_as_map_update(old(dest).files@, idx as int, path.deep_view(), data@);
    }
    let ghost f_ghost: FsFile;
    let f = FsFile { path, data };
    proof {
        f_ghost = f;
    }
    dest.files.set(idx, f);
    proof {
        assert(dest.files@ == old(dest).files@.update(idx as int, f_ghost));
        assert(DirTree::as_map(dest.files@) == DirTree::as_map(old(dest).files@).insert(
            f_ghost.path.deep_view(),
            f_ghost.data@,
        ));
        assert forall|k: int, j: int|
            0 <= k < dest.files@.len() && 0 <= j < dest.files@.len() && k != j implies #[trigger]
        dest.files@[k].path.deep_view() != #[trigger] dest.files@[j].path.deep_view() by {
            assert(old(dest).files@[k].path.deep_view() != old(dest).files@[j].path.deep_view());
            if k != idx as int && j != idx as int {
                assert(dest.files@[k] == old(dest).files@[k]);
                assert(dest.files@[j] == old(dest).files@[j]);
            }
        }
    }
}

/// Law: with overwriting off, merging the same source a second time changes
/// nothing — after the first merge every source path is already present, so
/// the second pass skips every file.
pub proof fn lemma_copy_idempotent(
    dest: Map<Seq<Seq<u8>>, Seq<u8>>,
    src: Map<Seq<Seq<u8>>, Seq<u8>>,
)
    requires
        dest.dom().disjoint(src.dom()),
    ensures
        merged(merged(dest, src, false), src, false) == merged(dest, src, false),
{
    let once = merged(dest, src, false);
    assert(merged(once, src, false) =~~= once);
}

/// Merges `src` into a directory `dest` that the runtime side creates
/// first; on the tree itself, creating the directory changes nothing, so
/// this is the merge alone.
pub fn copy_dir(src: &DirTree, dest: &mut DirTree, overwrite: bool)
    requires
        src.wf(),
        old(dest).wf(),
    ensures
        final(dest).wf(),
        final(dest)@ == merged(old(dest)@, src@, overwrite),
{
    copy_contents(src, dest, overwrite);
}

/// True exactly when some file lies at or under the directory `dir`.
fn scan_dir(fs: &DirTree, dir: &Vec<u8>) -> (r: bool)
    requires
        fs.wf(),
    ensures
        r == exists|p: Seq<Seq<u8>>|
            #[trigger] fs@.dom().contains(p) && p.len() > 0 && p[0] == dir@,
{
    let mut i: usize = 0;
    while i < fs.files.len()
        invariant
            0 <= i <= fs.files@.len(),
            fs.wf(),
            forall|j: int| 0 <= j < i ==> #[trigger] fs.files@[j].path.deep_view()[0] != dir@,
        decreases fs.files@.len() - i,
    {
        proof {
            assert(fs.files@[i as int].path.deep_view()[0] =~= fs.files@[i as int].path@[0]@);
        }
        if bytes_eq(fs.files[i].path[0].as_slice(), dir.as_slice()) {
            proof {
                lemma_as_map_index(fs.files@);
                let p = fs.files@[i as int].path.deep_view();
                assert(fs@.dom().contains(p) && p.len() > 0 && p[0] == dir@);
            }
            return true;
        }
        i += 1;
    }
    proof {
        lemma_as_map_index(fs.files@);
        assert forall|p: Seq<Seq<u8>>|
            #[trigger] fs@.dom().contains(p) && p.len() > 0 implies p[0] != dir@ by {
            let j = choose|j: int|
                0 <= j < fs.files@.len() && #[trigger] fs.files@[j].path.deep_view() == p;
            assert(fs.files@[j].path.deep_view()[0] != dir@);
        }
    }
    false
}

/// Removes every file at or under the directory `dir`.
pub fn remove_dir(fs: &mut DirTree, dir: &Vec<u8>)
    requires
        old(fs).wf(),
    ensures
        final(fs).wf(),
        final(fs)@ == without_dir(old(fs)@, dir@),
{
    let mut rest = DirTree::new();
    let mut i: usize = 0;
    proof {
        assert(DirTree::as_map(fs.files@.subrange(0, 0)) =~~= Map::<Seq<Seq<u8>>, Seq<u8>>::empty());
        assert(rest@ =~~= without_dir(DirTree::as_map(fs.files@.subrange(0, 0)), dir@));
    }
    while i < fs.files.len()
        invariant
            0 <= i <= fs.files@.len(),
            fs.wf(),
            rest.wf(),
            rest@ == without_dir(DirTree::as_map(fs.files@.subrange(0, i as int)), dir@),
        decreases fs.files@.len() - i,
    {
        let ghost pre = fs.files@.subrange(0, i as int);
        let ghost p = fs.files@[i as int].path.deep_view();
        let ghost v = fs.files@[i as int].data@;
        proof {
            assert(fs.files@.subrange(0, i + 1).drop_last() =~= pre);
            assert(DirTree::as_map(fs.files@.subrange(0, i + 1)) == DirTree::as_map(pre).insert(
                p,
                v,
            ));
            assert(fs.files@[i as int].path.deep_view()[0] =~= fs.files@[i as int].path@[0]@);
        }
        let keep = !bytes_eq(fs.files[i].path[0].as_slice(), dir.as_slice());
        if keep {
            let path = clone_segs(&fs.files[i].path);
            let data = clone_bytes(&fs.files[i].data);
            rest.put(path, data);
            proof {
                assert(rest@ =~~= without_dir(
                    DirTree::as_map(fs.files@.subrange(0, i + 1)),
                    dir@,
                ));
            }
        } else {
            proof {
                assert(rest@ =~~= without_dir(
                    DirTree::as_map(fs.files@.subrange(0, i + 1)),
                    dir@,
                ));
            }
        }
        i += 1;
    }
    proof {
        assert(fs.files@.subrange(0, fs.files@.len() as int) =~= fs.files@);
    }
    *fs = rest;
}

/// The files at or under `dir`, with the leading `dir` segment stripped.
fn lift_dir(fs: &DirTree, dir: &Vec<u8>) -> (sub: DirTree)
    requires
        fs.wf(),
        forall|p: Seq<Seq<u8>>|
            #[trigger] fs@.dom().contains(p) && p.len() > 0 && p[0] == dir@ ==> p.len() >= 2,
    ensures
        sub.wf(),
        sub@ == lifted(fs@, dir@),
{
    let mut sub = DirTree::new();
    let mut i: usize = 0;
    proof {
        assert(DirTree::as_map(fs.files@.subrange(0, 0)) =~~= Map::<Seq<Seq<u8>>, Seq<u8>>::empty());
        assert(sub@ =~~= lifted(DirTree::as_map(fs.files@.subrange(0, 0)), dir@));
    }
    while i < fs.files.len()
        invariant
            0 <= i <= fs.files@.len(),
            fs.wf(),
            sub.wf(),
            forall|p: Seq<Seq<u8>>|
                #[trigger] fs@.dom().contains(p) && p.len() > 0 && p[0] == dir@ ==> p.len() >= 2,
            sub@ == lifted(DirTree::as_map(fs.files@.subrange(0, i as int)), dir@),
        decreases fs.files@.len() - i,
    {
        let ghost pre = fs.files@.subrange(0, i as int);
        let ghost p = fs.files@[i as int].path.deep_view();
        let ghost v = fs.files@[i as int].data@;
        proof {
            assert(fs.files@.subrange(0, i + 1).drop_last() =~= pre);
            assert(DirTree::as_map(fs.files@.subrange(0, i + 1)) == DirTree::as_map(pre).insert(
                p,
                v,
            ));
            assert(fs.files@[i as int].path.deep_view()[0] =~= fs.files@[i as int].path@[0]@);
            // stripping then restoring the leading segment is the identity
            assert forall|q: Seq<Seq<u8>>| true implies #[trigger] q.insert(0, dir@).drop_first()
                =~= q by {}
        }
        if bytes_eq(fs.files[i].path[0].as_slice(), dir.as_slice()) {
            proof {
                lemma_as_map_index(fs.files@);
                assert(fs@.dom().contains(p));
                assert(p.len() >= 2);
            }
            let mut path = clone_segs(&fs.files[i].path);
            let data = clone_bytes(&fs.files[i].data);
            path.remove(0);
            proof {
                assert(path.deep_view() =~= p.drop_first());
                assert(p.drop_first().insert(0, dir@) =~= p);
            }
            sub.put(path, data);
            proof {
                assert forall|q: Seq<Seq<u8>>| q != p.drop_first() implies #[trigger] q.insert(
                    0,
                    dir@,
                ) != p by {
                    if q.insert(0, dir@) == p {
                        assert(q.insert(0, dir@).drop_first() =~= q);
                    }
                }
                assert(sub@ =~~= lifted(DirTree::as_map(fs.files@.subrange(0, i + 1)), dir@));
            }
        } else {
            proof {
                assert forall|q: Seq<Seq<u8>>| true implies #[trigger] q.insert(0, dir@)
                    != p by {
                    assert(q.insert(0, dir@)[0] == dir@);
                }
                assert(sub@ =~~= lifted(DirTree::as_map(fs.files@.subrange(0, i + 1)), dir@));
            }
        }
        i += 1;
    }
    proof {
        assert(fs.files@.subrange(0, fs.files@.len() as int) =~= fs.files@);
    }
    sub
}

/// Merges the contents of the directory `dir` up into the tree's root with
/// the given overwrite rule, then removes `dir` and everything under it.
/// When nothing lies under `dir` the tree is left untouched and the result
/// is `false`; otherwise the result is `true`.
pub fn flatten(fs: &mut DirTree, dir: &Vec<u8>, overwrite: bool) -> (r: bool)
    requires
        old(fs).wf(),
        // the directory holds no file directly at its own path, and no
        // entry of its own name right beneath it
        forall|p: Seq<Seq<u8>>|
            #[trigger] old(fs)@.dom().contains(p) && p.len() > 0 && p[0] == dir@ ==> p.len() >= 2
                && p[1] != dir@,
    ensures
        final(fs).wf(),
        r == exists|p: Seq<Seq<u8>>|
            #[trigger] old(fs)@.dom().contains(p) && p.len() > 0 && p[0] == dir@,
        !r ==> final(fs)@ == old(fs)@,
        r ==> final(fs)@ == merged(
            without_dir(old(fs)@, dir@),
            lifted(old(fs)@, dir@),
            overwrite,
        ),
{
    if !scan_dir(fs, dir) {
        return false;
    }
    let sub = lift_dir(fs, dir);
    remove_dir(fs, dir);
    copy_contents(&sub, fs, overwrite);
    true
}

/// In a well-formed tree no file has an empty path.
pub proof fn lemma_wf_dom_nonempty(t: DirTree)
    requires
        t.wf(),
    ensures
        forall|p: Seq<Seq<u8>>| #[trigger] t@.dom().contains(p) ==> p.len() > 0,
{
    lemma_as_map_index(t.files@);
    assert forall|p: Seq<Seq<u8>>| #[trigger] t@.dom().contains(p) implies p.len() > 0 by {
        let i = choose|i: int|
            0 <= i < t.files@.len() && #[trigger] t.files@[i].path.deep_view() == p;
        assert(t.files@[i].path@.len() > 0);
    }
}

} // verus!
