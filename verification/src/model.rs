//! The abstract directory tree and the effect of every operation on it.
//!
//! A filesystem is modelled as a map from canonical file paths to byte
//! contents together with a set of canonical directory paths. Each
//! operation is given by two spec functions: `*_res`, the boolean or
//! string outcome reported to the caller, and `*_post`, the tree after
//! the call. The executable state in [`crate::fs`] carries this model
//! as its view, and the laws in [`crate::laws`] are proved over it.

use vstd::prelude::*;
use crate::paths::{valid_path, under, rekey, lemma_under_trans, lemma_ancestor_valid, lemma_rekey, lemma_rekey_under, lemma_rekey_roundtrip};
use vstd::utf8::{valid_utf8, decode_utf8};

verus! {

/// `q` is the path `p` itself or lies strictly below it.
pub open spec fn within(q: Seq<char>, p: Seq<char>) -> bool {
    q == p || under(q, p)
}

/// Abstract directory tree: file paths with their byte contents, and
/// the set of directory paths.
pub struct FsView {
    pub files: Map<Seq<char>, Seq<u8>>,
    pub dirs: Set<Seq<char>>,
}

impl FsView {
    /// The tree with no files and no directories.
    pub open spec fn empty() -> FsView {
        FsView { files: Map::empty(), dirs: Set::empty() }
    }

    /// Some node — file or directory — is recorded at `p`.
    pub open spec fn exists_at(self, p: Seq<char>) -> bool {
        self.files.dom().contains(p) || self.dirs.contains(p)
    }

    pub open spec fn is_file_at(self, p: Seq<char>) -> bool {
        self.files.dom().contains(p)
    }

    pub open spec fn is_dir_at(self, p: Seq<char>) -> bool {
        self.dirs.contains(p)
    }

    /// Some recorded node lies strictly below `d`.
    pub open spec fn has_entry_under(self, d: Seq<char>) -> bool {
        exists|q: Seq<char>| #[trigger] self.exists_at(q) && under(q, d)
    }

    /// Every ancestor directory spelled out in `p` is recorded as a directory.
    pub open spec fn ancestors_present(self, p: Seq<char>) -> bool {
        forall|d: Seq<char>| #[trigger] under(p, d) ==> self.dirs.contains(d)
    }

    /// No ancestor spelled out in `p` is recorded as a file.
    pub open spec fn no_file_ancestor(self, p: Seq<char>) -> bool {
        forall|d: Seq<char>| #[trigger] under(p, d) ==> !self.files.dom().contains(d)
    }

    /// Well-formed tree: every recorded path is canonical, no path is
    /// both a file and a directory, and every ancestor of a recorded
    /// path is a recorded directory.
    pub open spec fn wf(self) -> bool {
        &&& forall|p: Seq<char>| #[trigger] self.files.dom().contains(p) ==> valid_path(p)
        &&& forall|p: Seq<char>| #[trigger] self.dirs.contains(p) ==> valid_path(p)
        &&& forall|p: Seq<char>| #[trigger] self.files.dom().contains(p) ==> !self.dirs.contains(p)
        &&& forall|q: Seq<char>, d: Seq<char>|
            #![trigger self.exists_at(q), under(q, d)]
            self.exists_at(q) && under(q, d) ==> self.dirs.contains(d)
    }

    // ----- mkdir -----

    /// Recursive creation can go ahead: nothing sits at `p` yet and no
    /// ancestor of `p` is a file.
    pub open spec fn mkdir_ok(self, p: Seq<char>) -> bool {
        !self.exists_at(p) && self.no_file_ancestor(p)
    }

    /// Outcome of `mkdir`: `true` exactly when the directory was newly created.
    pub open spec fn mkdir_res(self, p: Seq<char>) -> bool {
        valid_path(p) && self.mkdir_ok(p)
    }

    /// Tree after `mkdir`: `p` and all its missing ancestors become directories.
    pub open spec fn mkdir_post(self, p: Seq<char>) -> FsView {
        if self.mkdir_res(p) {
            FsView {
                files: self.files,
                dirs: self.dirs.union(Set::new(|q: Seq<char>| q == p || under(p, q))),
            }
        } else {
            self
        }
    }

    // ----- create_file / write_file / create_file_bytes -----

    /// A file can be created or rewritten at `p`: all ancestors are
    /// recorded directories and `p` itself is not a directory.
    pub open spec fn create_ok(self, p: Seq<char>) -> bool {
        self.ancestors_present(p) && !self.is_dir_at(p)
    }

    /// Outcome of creating or rewriting the file at `p`.
    pub open spec fn create_res(self, p: Seq<char>) -> bool {
        valid_path(p) && self.create_ok(p)
    }

    /// Tree after storing `data` at `p`, truncating any previous content.
    pub open spec fn put_post(self, p: Seq<char>, data: Seq<u8>) -> FsView {
        if self.create_res(p) {
            FsView { files: self.files.insert(p, data), dirs: self.dirs }
        } else {
            self
        }
    }

    // ----- write_file_append -----

    /// The bytes currently stored at `p`, empty when `p` is not a file.
    pub open spec fn existing_data(self, p: Seq<char>) -> Seq<u8> {
        if self.is_file_at(p) {
            self.files[p]
        } else {
            Seq::empty()
        }
    }

    /// Tree after appending `data` to the file at `p`, creating it if absent.
    pub open spec fn append_post(self, p: Seq<char>, data: Seq<u8>) -> FsView {
        if self.create_res(p) {
            FsView { files: self.files.insert(p, self.existing_data(p) + data), dirs: self.dirs }
        } else {
            self
        }
    }

    // ----- rm -----

    /// Outcome of `rm`: `true` exactly when `p` was a file (directories
    /// and absent paths are refused).
    pub open spec fn rm_res(self, p: Seq<char>) -> bool {
        self.is_file_at(p)
    }

    /// Tree after `rm`: the file at `p` is gone.
    pub open spec fn rm_post(self, p: Seq<char>) -> FsView {
        if self.rm_res(p) {
            FsView { files: self.files.remove(p), dirs: self.dirs }
        } else {
            self
        }
    }

    // ----- rmdir -----

    /// `rmdir` actually deletes something: `p` is a directory with no
    /// entry below it.
    pub open spec fn rmdir_removes(self, p: Seq<char>) -> bool {
        self.is_dir_at(p) && !self.has_entry_under(p)
    }

    /// Outcome of `rmdir`: an absent path counts as already satisfied;
    /// a nonempty directory or a file at `p` is refused.
    pub open spec fn rmdir_res(self, p: Seq<char>) -> bool {
        !self.exists_at(p) || self.rmdir_removes(p)
    }

    /// Tree after `rmdir`.
    pub open spec fn rmdir_post(self, p: Seq<char>) -> FsView {
        if self.rmdir_removes(p) {
            FsView { files: self.files, dirs: self.dirs.remove(p) }
        } else {
            self
        }
    }

    // ----- rm_r -----

    /// Tree after recursive removal: `p` and everything below it is gone.
    /// The outcome is always `true`: an absent path is already satisfied.
    pub open spec fn rm_r_post(self, p: Seq<char>) -> FsView {
        FsView {
            files: Map::new(
                |k: Seq<char>| self.files.dom().contains(k) && !within(k, p),
                |k: Seq<char>| self.files[k],
            ),
            dirs: Set::new(|d: Seq<char>| self.dirs.contains(d) && !within(d, p)),
        }
    }

    // ----- directory_is_empty -----

    /// Outcome of `directory_is_empty`: `p` is a directory with zero entries.
    pub open spec fn dir_empty_res(self, p: Seq<char>) -> bool {
        self.is_dir_at(p) && !self.has_entry_under(p)
    }

    // ----- mv -----

    /// A move of the node at `a` to `b` can go ahead: the source
    /// exists, every ancestor of `b` is a directory, `b` is not a
    /// directory, a file at `b` is only overwritten by a file, and `b`
    /// does not sit at or below `a`.
    pub open spec fn mv_ok(self, a: Seq<char>, b: Seq<char>) -> bool {
        &&& self.exists_at(a)
        &&& self.ancestors_present(b)
        &&& !self.is_dir_at(b)
        &&& (self.is_file_at(b) ==> self.is_file_at(a))
        &&& a != b
        &&& !under(b, a)
    }

    /// Outcome of `mv`.
    pub open spec fn mv_res(self, a: Seq<char>, b: Seq<char>) -> bool {
        valid_path(a) && valid_path(b) && self.mv_ok(a, b)
    }

    /// The files after the subtree at `a` is transplanted onto `b`:
    /// a path at or below `b` now carries what its counterpart at or
    /// below `a` carried; everything else is untouched.
    pub open spec fn moved_files(self, a: Seq<char>, b: Seq<char>) -> Map<Seq<char>, Seq<u8>> {
        Map::new(
            |k: Seq<char>| if within(k, b) {
                self.files.dom().contains(rekey(k, b, a)) && within(rekey(k, b, a), a)
            } else {
                self.files.dom().contains(k) && !within(k, a)
            },
            |k: Seq<char>| if within(k, b) {
                self.files[rekey(k, b, a)]
            } else {
                self.files[k]
            },
        )
    }

    /// The directories after the subtree at `a` is transplanted onto `b`.
    pub open spec fn moved_dirs(self, a: Seq<char>, b: Seq<char>) -> Set<Seq<char>> {
        Set::new(
            |k: Seq<char>| if within(k, b) {
                self.dirs.contains(rekey(k, b, a)) && within(rekey(k, b, a), a)
            } else {
                self.dirs.contains(k) && !within(k, a)
            },
        )
    }

    /// Tree after `mv`: the node at `a` — with everything below it,
    /// when it is a directory — now sits at `b`.
    pub open spec fn mv_post(self, a: Seq<char>, b: Seq<char>) -> FsView {
        if self.mv_res(a, b) {
            FsView { files: self.moved_files(a, b), dirs: self.moved_dirs(a, b) }
        } else {
            self
        }
    }

    // ----- read_file -----

    /// Outcome of `read_file`: the decoded content of the file at `p`,
    /// or the empty string when `p` is not a file or its bytes are not
    /// well-formed text. The two cases are indistinguishable here, as
    /// an empty file reads the same as a missing one.
    pub open spec fn read_text(self, p: Seq<char>) -> Seq<char> {
        if self.is_file_at(p) && valid_utf8(self.files[p]) {
            decode_utf8(self.files[p])
        } else {
            Seq::empty()
        }
    }
}

/// `mkdir` preserves well-formedness.
pub proof fn lemma_mkdir_wf(fs: FsView, p: Seq<char>)
    requires
        fs.wf(),
    ensures
        fs.mkdir_post(p).wf(),
{
    if fs.mkdir_res(p) {
        let post = fs.mkdir_post(p);
        assert forall|q: Seq<char>| #[trigger] post.dirs.contains(q) implies valid_path(q) by {
            if !fs.dirs.contains(q) {
                if q != p {
                    lemma_ancestor_valid(p, q);
                }
            }
        }
        assert forall|q: Seq<char>, d: Seq<char>|
            #![trigger post.exists_at(q), under(q, d)]
            post.exists_at(q) && under(q, d) implies post.dirs.contains(d) by {
            if fs.exists_at(q) {
                assert(fs.dirs.contains(d));
            } else {
                // q is p or one of its newly created ancestors
                if q == p {
                    assert(under(p, d));
                } else {
                    assert(under(p, q));
                    lemma_under_trans(p, q, d);
                }
            }
        }
    }
}

/// Storing `data` at a creatable path preserves well-formedness.
pub proof fn lemma_insert_file_wf(fs: FsView, p: Seq<char>, data: Seq<u8>)
    requires
        fs.wf(),
        valid_path(p),
        fs.create_ok(p),
    ensures
        (FsView { files: fs.files.insert(p, data), dirs: fs.dirs }).wf(),
{
    let post = FsView { files: fs.files.insert(p, data), dirs: fs.dirs };
    assert forall|q: Seq<char>, d: Seq<char>|
        #![trigger post.exists_at(q), under(q, d)]
        post.exists_at(q) && under(q, d) implies post.dirs.contains(d) by {
        if q == p {
            assert(fs.dirs.contains(d));
        } else {
            assert(fs.exists_at(q));
        }
    }
}

/// `rm` preserves well-formedness.
pub proof fn lemma_rm_wf(fs: FsView, p: Seq<char>)
    requires
        fs.wf(),
    ensures
        fs.rm_post(p).wf(),
{
    let post = fs.rm_post(p);
    assert forall|q: Seq<char>, d: Seq<char>|
        #![trigger post.exists_at(q), under(q, d)]
        post.exists_at(q) && under(q, d) implies post.dirs.contains(d) by {
        assert(fs.exists_at(q));
    }
}

/// `rmdir` preserves well-formedness.
pub proof fn lemma_rmdir_wf(fs: FsView, p: Seq<char>)
    requires
        fs.wf(),
    ensures
        fs.rmdir_post(p).wf(),
{
    if fs.rmdir_removes(p) {
        let post = fs.rmdir_post(p);
        assert forall|q: Seq<char>, d: Seq<char>|
            #![trigger post.exists_at(q), under(q, d)]
            post.exists_at(q) && under(q, d) implies post.dirs.contains(d) by {
            assert(fs.exists_at(q));
            if d == p {
                assert(fs.has_entry_under(p));
            }
        }
    }
}

/// `rm_r` preserves well-formedness.
pub proof fn lemma_rm_r_wf(fs: FsView, p: Seq<char>)
    requires
        fs.wf(),
    ensures
        fs.rm_r_post(p).wf(),
{
    let post = fs.rm_r_post(p);
    assert forall|q: Seq<char>, d: Seq<char>|
        #![trigger post.exists_at(q), under(q, d)]
        post.exists_at(q) && under(q, d) implies post.dirs.contains(d) by {
        assert(fs.exists_at(q));
        assert(!within(q, p));
        if under(d, p) {
            lemma_under_trans(q, d, p);
        }
        assert(!within(d, p));
    }
}

/// `mv` preserves well-formedness.
pub proof fn lemma_mv_wf(fs: FsView, a: Seq<char>, b: Seq<char>)
    requires
        fs.wf(),
    ensures
        fs.mv_post(a, b).wf(),
{
    if fs.mv_res(a, b) {
        let post = fs.mv_post(a, b);
        assert(rekey(b, b, a) =~= a);
        assert forall|k: Seq<char>| #[trigger] post.files.dom().contains(k) implies
            valid_path(k) by {
            if within(k, b) {
                let q = rekey(k, b, a);
                lemma_rekey_roundtrip(k, b, a);
                lemma_rekey(q, a, b);
            }
        }
        assert forall|k: Seq<char>| #[trigger] post.dirs.contains(k) implies valid_path(k) by {
            if within(k, b) {
                let q = rekey(k, b, a);
                lemma_rekey_roundtrip(k, b, a);
                lemma_rekey(q, a, b);
            }
        }
        assert forall|k: Seq<char>| #[trigger] post.files.dom().contains(k) implies
            !post.dirs.contains(k) by {
            if post.dirs.contains(k) {
                if within(k, b) {
                    assert(fs.files.dom().contains(rekey(k, b, a)));
                    assert(fs.dirs.contains(rekey(k, b, a)));
                }
            }
        }
        assert forall|k: Seq<char>, d: Seq<char>|
            #![trigger post.exists_at(k), under(k, d)]
            post.exists_at(k) && under(k, d) implies post.dirs.contains(d) by {
            if !within(k, b) {
                assert(fs.exists_at(k));
                assert(fs.dirs.contains(d));
                if within(d, b) {
                    if d == b {
                        assert(fs.is_dir_at(b));
                    } else {
                        assert(fs.exists_at(d) && under(d, b));
                        assert(fs.dirs.contains(b));
                    }
                    assert(false);
                }
                if within(d, a) {
                    if d == a {
                        assert(within(k, a));
                    } else {
                        lemma_under_trans(k, d, a);
                    }
                    assert(false);
                }
            } else {
                let q = rekey(k, b, a);
                assert(fs.exists_at(q));
                assert(valid_path(q));
                lemma_rekey_roundtrip(k, b, a);
                lemma_rekey(q, a, b);
                assert(k == rekey(q, a, b));
                assert(valid_path(k));
                assert(b.subrange(0, b.len() as int) =~= b);
                assert(k.subrange(0, b.len() as int) == b);
                if d.len() < b.len() {
                    // d is an ancestor of b, hence a recorded directory
                    assert(d == k.subrange(0, d.len() as int));
                    assert forall|i: int| 0 <= i < d.len() implies
                        b.subrange(0, d.len() as int)[i] == d[i] by {
                        assert(b[i] == k.subrange(0, b.len() as int)[i]);
                        assert(k.subrange(0, d.len() as int)[i] == k[i]);
                    }
                    assert(b.subrange(0, d.len() as int) =~= d);
                    assert(b[d.len() as int] == k.subrange(0, b.len() as int)[d.len() as int]);
                    assert(b[d.len() as int] == '/');
                    if d.len() + 1 == b.len() {
                        assert(b[b.len() - 1] == '/');
                        assert(false);
                    }
                    assert(under(b, d));
                    assert(fs.dirs.contains(d));
                    if within(d, a) {
                        if d == a {
                            assert(under(b, a));
                        } else {
                            lemma_under_trans(b, d, a);
                        }
                        assert(false);
                    }
                    assert(post.dirs.contains(d));
                } else if d.len() == b.len() {
                    // d is b itself; the moved root makes it a directory
                    assert(k != b);
                    assert(under(k, b));
                    assert forall|i: int| 0 <= i < b.len() implies d[i] == b[i] by {
                        assert(k.subrange(0, d.len() as int)[i] == k[i]);
                        assert(k.subrange(0, b.len() as int)[i] == k[i]);
                    }
                    assert(d =~= b);
                    // the source of k lies strictly below a, so a is recorded
                    assert(q.subrange(0, a.len() as int) =~= a);
                    assert(q[a.len() as int] == k[b.len() as int]);
                    assert(k[b.len() as int] == '/');
                    assert(under(q, a));
                    assert(fs.dirs.contains(a));
                    assert(within(a, a));
                    assert(post.dirs.contains(b));
                } else {
                    // d lies strictly below b: its source ancestor is recorded
                    assert(d == k.subrange(0, d.len() as int));
                    assert(k != b);
                    assert(under(k, b));
                    lemma_ancestor_valid(k, d);
                    assert forall|i: int| 0 <= i < b.len() implies
                        d.subrange(0, b.len() as int)[i] == b[i] by {
                        assert(k.subrange(0, d.len() as int)[i] == k[i]);
                        assert(k.subrange(0, b.len() as int)[i] == k[i]);
                    }
                    assert(d.subrange(0, b.len() as int) =~= b);
                    assert(d[b.len() as int] == k.subrange(0, d.len() as int)[b.len() as int]);
                    assert(d[b.len() as int] == '/');
                    if d.len() == b.len() + 1 {
                        assert(d[d.len() - 1] == '/');
                        assert(false);
                    }
                    assert(under(d, b));
                    lemma_rekey_under(k, d, b, a);
                    let dd = rekey(d, b, a);
                    assert(under(q, dd));
                    assert(fs.dirs.contains(dd));
                    lemma_rekey(d, b, a);
                    assert(post.dirs.contains(d));
                }
            }
        }
    }
}

} // verus!
