//! The executable filesystem state and its Bash-flavoured operations.
//!
//! `Fs` carries the directory tree of [`crate::model::FsView`] as plain
//! vectors and implements every operation of the library against it,
//! with the outcome and the new tree pinned down by the model's spec
//! functions. A host that targets the live filesystem instead performs
//! the operating-system calls itself (see the `host` module for the
//! existence probe) and keeps to the same outcomes.

use vstd::prelude::*;
use vstd::string::StrSliceExecFns;
use vstd::utf8::{valid_utf8, decode_utf8};
use crate::model::{FsView, within};
use crate::model::{
    lemma_mkdir_wf, lemma_insert_file_wf, lemma_rm_wf, lemma_rmdir_wf, lemma_rm_r_wf,
    lemma_mv_wf,
};
use crate::paths::{
    check_path, check_under, str_eq, ancestors, under, valid_path, rekey, rekey_exec, lemma_rekey,
    lemma_rekey_roundtrip,
};
use crate::store::{
    file_map, dir_set, uniq_files, uniq_dirs, find_file_idx, find_dir_idx,
    lemma_file_map_mem, lemma_file_map_absent, lemma_file_map_push,
    lemma_file_map_swap_remove, lemma_dir_set_push, lemma_dir_set_swap_remove,
};

verus! {

/// Decodes bytes as text.
///
/// Relies on `core::str::from_utf8`: it accepts exactly the UTF-8 byte
/// strings and yields the string they encode.
#[verifier::external_body]
fn decode_text(v: &Vec<u8>) -> (r: Option<String>)
    ensures
        r is Some <==> valid_utf8(v@),
        r matches Some(s) ==> s@ == decode_utf8(v@),
{
    match core::str::from_utf8(v.as_slice()) {
        Ok(s) => Some(s.to_owned()),
        Err(_) => None,
    }
}

/// An in-memory filesystem: the files with their bytes, and the
/// directories, all under canonical paths.
pub struct Fs {
    files: Vec<(String, Vec<u8>)>,
    dirs: Vec<String>,
}

impl View for Fs {
    type V = FsView;

    closed spec fn view(&self) -> FsView {
        FsView { files: file_map(self.files@), dirs: dir_set(self.dirs@) }
    }
}

impl Fs {
    /// Internal consistency: pairwise distinct keys and a well-formed tree.
    pub closed spec fn inv(&self) -> bool {
        &&& uniq_files(self.files@)
        &&& uniq_dirs(self.dirs@)
        &&& self@.wf()
    }

    /// A filesystem with no files and no directories.
    pub fn new() -> (r: Fs)
        ensures
            r.inv(),
            r@ == FsView::empty(),
    {
        let r = Fs { files: Vec::new(), dirs: Vec::new() };
        proof {
            assert(file_map(r.files@) =~= Map::<Seq<char>, Seq<u8>>::empty());
            assert(dir_set(r.dirs@) =~= Set::<Seq<char>>::empty());
            assert(r@ =~= FsView::empty());
        }
        r
    }

    /// Reports whether anything — file or directory — sits at `path`.
    pub fn path_exists(&self, path: &str) -> (r: bool)
        requires
            self.inv(),
        ensures
            r == self@.exists_at(path@),
    {
        match find_file_idx(&self.files, path) {
            Some(i) => {
                proof {
                    lemma_file_map_mem(self.files@, i as int);
                }
                true
            }
            None => {
                match find_dir_idx(&self.dirs, path) {
                    Some(i) => {
                        proof {
                            assert(self.dirs@[i as int]@ == path@);
                            assert(dir_set(self.dirs@).contains(path@));
                        }
                        true
                    }
                    None => {
                        proof {
                            lemma_file_map_absent(self.files@, path@);
                            assert(!dir_set(self.dirs@).contains(path@));
                        }
                        false
                    }
                }
            }
        }
    }

    /// Reports whether some recorded node lies strictly below `d`.
    #[verifier::loop_isolation(false)]
    fn has_entry_below(&self, d: &str) -> (r: bool)
        requires
            self.inv(),
        ensures
            r == self@.has_entry_under(d@),
    {
        let mut j: usize = 0;
        while j < self.files.len()
            invariant
                0 <= j <= self.files@.len(),
                forall|m: int| 0 <= m < j ==> !under((#[trigger] self.files@[m]).0@, d@),
            decreases self.files@.len() - j,
        {
            if check_under(self.files[j].0.as_str(), d) {
                proof {
                    lemma_file_map_mem(self.files@, j as int);
                    let q = self.files@[j as int].0@;
                    assert(self@.exists_at(q) && under(q, d@));
                }
                return true;
            }
            j += 1;
        }
        let mut m: usize = 0;
        while m < self.dirs.len()
            invariant
                0 <= m <= self.dirs@.len(),
                forall|n: int| 0 <= n < m ==> !under((#[trigger] self.dirs@[n])@, d@),
            decreases self.dirs@.len() - m,
        {
            if check_under(self.dirs[m].as_str(), d) {
                proof {
                    let q = self.dirs@[m as int]@;
                    assert(dir_set(self.dirs@).contains(q));
                    assert(self@.exists_at(q) && under(q, d@));
                }
                return true;
            }
            m += 1;
        }
        proof {
            assert forall|q: Seq<char>| !(#[trigger] self@.exists_at(q) && under(q, d@)) by {
                if self@.exists_at(q) && under(q, d@) {
                    if self@.files.dom().contains(q) {
                        let i = choose|i: int|
                            0 <= i < self.files@.len() && (#[trigger] self.files@[i]).0@ == q;
                        assert(!under(self.files@[i].0@, d@));
                    } else {
                        let i = choose|i: int|
                            0 <= i < self.dirs@.len() && (#[trigger] self.dirs@[i])@ == q;
                        assert(!under(self.dirs@[i]@, d@));
                    }
                }
            }
        }
        false
    }

    /// Reports whether `path` is a recorded directory with no entry in it.
    pub fn directory_is_empty(&self, path: &str) -> (r: bool)
        requires
            self.inv(),
        ensures
            r == self@.dir_empty_res(path@),
    {
        match find_dir_idx(&self.dirs, path) {
            Some(i) => {
                proof {
                    assert(self.dirs@[i as int]@ == path@);
                    assert(dir_set(self.dirs@).contains(path@));
                }
                !self.has_entry_below(path)
            }
            None => {
                proof {
                    assert(!dir_set(self.dirs@).contains(path@));
                }
                false
            }
        }
    }

    /// The text content of the file at `path`; the empty string when
    /// `path` is not a file or its bytes are not well-formed text.
    pub fn read_file(&self, path: &str) -> (r: String)
        requires
            self.inv(),
        ensures
            r@ == self@.read_text(path@),
    {
        match find_file_idx(&self.files, path) {
            Some(i) => {
                proof {
                    lemma_file_map_mem(self.files@, i as int);
                }
                match decode_text(&self.files[i].1) {
                    Some(s) => s,
                    None => String::new(),
                }
            }
            None => {
                proof {
                    lemma_file_map_absent(self.files@, path@);
                }
                String::new()
            }
        }
    }

    /// Creates the directory at `path` together with every missing
    /// ancestor, as `mkdir -p` would; `true` exactly when it was newly
    /// created. A path that already carries a node, or one of whose
    /// ancestors is a file, is refused.
    #[verifier::loop_isolation(false)]
    pub fn mkdir(&mut self, path: &str) -> (r: bool)
        requires
            old(self).inv(),
        ensures
            final(self).inv(),
            final(self)@ == old(self)@.mkdir_post(path@),
            r == old(self)@.mkdir_res(path@),
    {
        if !check_path(path) {
            return false;
        }
        if self.path_exists(path) {
            return false;
        }
        let ancs = ancestors(path);
        let mut i: usize = 0;
        while i < ancs.len()
            invariant
                0 <= i <= ancs@.len(),
                forall|m: int| 0 <= m < i ==> !self@.files.dom().contains((#[trigger] ancs@[m])@),
            decreases ancs@.len() - i,
        {
            match find_file_idx(&self.files, ancs[i].as_str()) {
                Some(j) => {
                    proof {
                        lemma_file_map_mem(self.files@, j as int);
                        assert(under(path@, ancs@[i as int]@));
                        assert(!old(self)@.no_file_ancestor(path@));
                    }
                    return false;
                }
                None => {
                    proof {
                        lemma_file_map_absent(self.files@, ancs@[i as int]@);
                    }
                }
            }
            i += 1;
        }
        proof {
            assert forall|d: Seq<char>| #[trigger] under(path@, d) implies
                !old(self)@.files.dom().contains(d) by {
                let m = choose|m: int| 0 <= m < ancs@.len() && ancs@[m]@ == d;
                assert(!old(self)@.files.dom().contains(ancs@[m]@));
            }
            assert(old(self)@.mkdir_res(path@));
        }
        let ghost dirs0 = dir_set(self.dirs@);
        let mut i2: usize = 0;
        while i2 < ancs.len()
            invariant
                0 <= i2 <= ancs@.len(),
                self.files == old(self).files,
                uniq_dirs(self.dirs@),
                dir_set(self.dirs@) == dirs0.union(
                    Set::new(|q: Seq<char>| exists|m: int| 0 <= m < i2 && (#[trigger] ancs@[m])@ == q),
                ),
            decreases ancs@.len() - i2,
        {
            let ghost before = dir_set(self.dirs@);
            let ghost target = dirs0.union(
                Set::new(|q: Seq<char>| exists|m: int| 0 <= m < i2 + 1 && (#[trigger] ancs@[m])@ == q),
            );
            match find_dir_idx(&self.dirs, ancs[i2].as_str()) {
                Some(j) => {
                    proof {
                        assert(self.dirs@[j as int]@ == ancs@[i2 as int]@);
                        assert(before.contains(ancs@[i2 as int]@));
                        assert forall|q: Seq<char>| #[trigger] target.contains(q) implies
                            before.contains(q) by {
                            if !dirs0.contains(q) {
                                let m = choose|m: int| 0 <= m < i2 + 1 && (#[trigger] ancs@[m])@ == q;
                                if m < i2 {
                                    assert(Set::new(
                                        |q2: Seq<char>| exists|m2: int| 0 <= m2 < i2 && (#[trigger] ancs@[m2])@ == q2,
                                    ).contains(q));
                                }
                            }
                        }
                        assert forall|q: Seq<char>| #[trigger] before.contains(q) implies
                            target.contains(q) by {
                            if !dirs0.contains(q) {
                                let m = choose|m: int| 0 <= m < i2 && (#[trigger] ancs@[m])@ == q;
                                assert(0 <= m < i2 + 1 && ancs@[m]@ == q);
                            }
                        }
                        assert(dir_set(self.dirs@) =~= target);
                    }
                }
                None => {
                    let ghost before_seq = self.dirs@;
                    let a = ancs[i2].clone();
                    self.dirs.push(a);
                    proof {
                        lemma_dir_set_push(before_seq, self.dirs@.last());
                        assert(dir_set(self.dirs@) == before.insert(ancs@[i2 as int]@));
                        assert forall|q: Seq<char>| #[trigger] target.contains(q) implies
                            before.insert(ancs@[i2 as int]@).contains(q) by {
                            if !dirs0.contains(q) {
                                let m = choose|m: int| 0 <= m < i2 + 1 && (#[trigger] ancs@[m])@ == q;
                                if m < i2 {
                                    assert(Set::new(
                                        |q2: Seq<char>| exists|m2: int| 0 <= m2 < i2 && (#[trigger] ancs@[m2])@ == q2,
                                    ).contains(q));
                                }
                            }
                        }
                        assert forall|q: Seq<char>| #[trigger] before.insert(ancs@[i2 as int]@).contains(q) implies
                            target.contains(q) by {
                            if q == ancs@[i2 as int]@ {
                                assert(0 <= i2 < i2 + 1 && ancs@[i2 as int]@ == q);
                            } else if !dirs0.contains(q) {
                                let m = choose|m: int| 0 <= m < i2 && (#[trigger] ancs@[m])@ == q;
                                assert(0 <= m < i2 + 1 && ancs@[m]@ == q);
                            }
                        }
                        assert(dir_set(self.dirs@) =~= target);
                    }
                }
            }
            i2 += 1;
        }
        proof {
            assert(!dir_set(self.dirs@).contains(path@)) by {
                if dir_set(self.dirs@).contains(path@) {
                    if !dirs0.contains(path@) {
                        let m = choose|m: int| 0 <= m < ancs@.len() && (#[trigger] ancs@[m])@ == path@;
                        assert(under(path@, ancs@[m]@));
                    }
                }
            }
            assert forall|j: int| 0 <= j < self.dirs@.len() implies
                (#[trigger] self.dirs@[j])@ != path@ by {
                if self.dirs@[j]@ == path@ {
                    assert(dir_set(self.dirs@).contains(path@));
                }
            }
        }
        let ghost mid = self.dirs@;
        self.dirs.push(path.to_owned());
        proof {
            lemma_dir_set_push(mid, self.dirs@.last());
            let post = old(self)@.mkdir_post(path@);
            assert forall|q: Seq<char>| dir_set(self.dirs@).contains(q) implies
                #[trigger] post.dirs.contains(q) by {
                if q != path@ && !dirs0.contains(q) {
                    let m = choose|m: int| 0 <= m < ancs@.len() && (#[trigger] ancs@[m])@ == q;
                    assert(under(path@, ancs@[m]@));
                }
            }
            assert forall|q: Seq<char>| #[trigger] post.dirs.contains(q) implies
                dir_set(self.dirs@).contains(q) by {
                if !dirs0.contains(q) && q != path@ {
                    assert(under(path@, q));
                    let m = choose|m: int| 0 <= m < ancs@.len() && (#[trigger] ancs@[m])@ == q;
                    assert(dir_set(mid).contains(ancs@[m]@));
                }
            }
            assert(dir_set(self.dirs@) =~= post.dirs);
            assert(final(self)@ =~= post);
            lemma_mkdir_wf(old(self)@, path@);
        }
        true
    }

    /// Reports whether a file could be created or rewritten at `path`:
    /// the path is canonical, every ancestor is a recorded directory,
    /// and the path itself is not a directory.
    #[verifier::loop_isolation(false)]
    pub fn can_put(&self, path: &str) -> (r: bool)
        requires
            self.inv(),
        ensures
            r == self@.create_res(path@),
    {
        if !check_path(path) {
            return false;
        }
        let ancs = ancestors(path);
        let mut i: usize = 0;
        while i < ancs.len()
            invariant
                0 <= i <= ancs@.len(),
                forall|m: int| 0 <= m < i ==> self@.dirs.contains((#[trigger] ancs@[m])@),
            decreases ancs@.len() - i,
        {
            match find_dir_idx(&self.dirs, ancs[i].as_str()) {
                Some(j) => {
                    proof {
                        assert(self.dirs@[j as int]@ == ancs@[i as int]@);
                        assert(dir_set(self.dirs@).contains(ancs@[i as int]@));
                    }
                }
                None => {
                    proof {
                        assert(under(path@, ancs@[i as int]@));
                        assert(!dir_set(self.dirs@).contains(ancs@[i as int]@));
                        assert(!self@.ancestors_present(path@));
                    }
                    return false;
                }
            }
            i += 1;
        }
        match find_dir_idx(&self.dirs, path) {
            Some(j) => {
                proof {
                    assert(self.dirs@[j as int]@ == path@);
                    assert(dir_set(self.dirs@).contains(path@));
                }
                false
            }
            None => {
                proof {
                    assert(!dir_set(self.dirs@).contains(path@));
                    assert forall|d: Seq<char>| #[trigger] under(path@, d) implies
                        self@.dirs.contains(d) by {
                        let m = choose|m: int| 0 <= m < ancs@.len() && ancs@[m]@ == d;
                        assert(self@.dirs.contains(ancs@[m]@));
                    }
                }
                true
            }
        }
    }

    /// Stores `data` at `path`, truncating any previous file there.
    fn put(&mut self, path: &str, data: Vec<u8>) -> (r: bool)
        requires
            old(self).inv(),
        ensures
            final(self).inv(),
            final(self)@ == old(self)@.put_post(path@, data@),
            r == old(self)@.create_res(path@),
    {
        if !self.can_put(path) {
            return false;
        }
        let ghost f0 = self.files@;
        match find_file_idx(&self.files, path) {
            Some(i0) => {
                let pair = self.files.swap_remove(i0);
                proof {
                    lemma_file_map_swap_remove(f0, i0 as int);
                    assert forall|j: int| 0 <= j < self.files@.len() implies
                        (#[trigger] self.files@[j]).0@ != path@ by {
                        if self.files@[j].0@ == path@ {
                            lemma_file_map_mem(self.files@, j);
                        }
                    }
                }
                let ghost mid = self.files@;
                self.files.push((pair.0, data));
                proof {
                    lemma_file_map_push(mid, (pair.0, data));
                    assert(file_map(self.files@) =~= file_map(f0).insert(path@, data@));
                }
            }
            None => {
                proof {
                    lemma_file_map_absent(f0, path@);
                }
                self.files.push((path.to_owned(), data));
                proof {
                    lemma_file_map_push(f0, self.files@.last());
                }
            }
        }
        proof {
            lemma_insert_file_wf(old(self)@, path@, data@);
            assert(final(self)@ =~= old(self)@.put_post(path@, data@));
        }
        true
    }

    /// Creates an empty file at `path`, truncating any file already
    /// there; `true` exactly when the parent directories exist and
    /// `path` is not a directory.
    pub fn create_file(&mut self, path: &str) -> (r: bool)
        requires
            old(self).inv(),
        ensures
            final(self).inv(),
            final(self)@ == old(self)@.put_post(path@, Seq::empty()),
            r == old(self)@.create_res(path@),
    {
        let data: Vec<u8> = Vec::new();
        self.put(path, data)
    }

    /// Creates (or truncates) the file at `path` and stores the given
    /// bytes in it.
    pub fn create_file_bytes(&mut self, path: &str, bytes_to_write: &[u8]) -> (r: bool)
        requires
            old(self).inv(),
        ensures
            final(self).inv(),
            final(self)@ == old(self)@.put_post(path@, bytes_to_write@),
            r == old(self)@.create_res(path@),
    {
        let data = vstd::slice::slice_to_vec(bytes_to_write);
        self.put(path, data)
    }

    /// Creates (or truncates) the file at `path` and stores `contents`
    /// in it as its raw bytes.
    pub fn write_file(&mut self, path: &str, contents: &str) -> (r: bool)
        requires
            old(self).inv(),
        ensures
            final(self).inv(),
            final(self)@ == old(self)@.put_post(path@, vstd::utf8::encode_utf8(contents@)),
            r == old(self)@.create_res(path@),
    {
        let data = contents.as_bytes_vec();
        self.put(path, data)
    }

    /// Appends `contents` to the file at `path`, creating the file
    /// first if it is absent.
    pub fn write_file_append(&mut self, path: &str, contents: &str) -> (r: bool)
        requires
            old(self).inv(),
        ensures
            final(self).inv(),
            final(self)@ == old(self)@.append_post(path@, vstd::utf8::encode_utf8(contents@)),
            r == old(self)@.create_res(path@),
    {
        if !self.can_put(path) {
            return false;
        }
        let ghost f0 = self.files@;
        let ghost stored = old(self)@.existing_data(path@) + vstd::utf8::encode_utf8(contents@);
        match find_file_idx(&self.files, path) {
            Some(i0) => {
                proof {
                    lemma_file_map_mem(f0, i0 as int);
                }
                let pair = self.files.swap_remove(i0);
                let mut content = pair.1;
                let mut extra = contents.as_bytes_vec();
                content.append(&mut extra);
                proof {
                    lemma_file_map_swap_remove(f0, i0 as int);
                    assert forall|j: int| 0 <= j < self.files@.len() implies
                        (#[trigger] self.files@[j]).0@ != path@ by {
                        if self.files@[j].0@ == path@ {
                            lemma_file_map_mem(self.files@, j);
                        }
                    }
                }
                let ghost mid = self.files@;
                self.files.push((pair.0, content));
                proof {
                    lemma_file_map_push(mid, self.files@.last());
                    assert(file_map(self.files@) =~= file_map(f0).insert(path@, stored));
                }
            }
            None => {
                proof {
                    lemma_file_map_absent(f0, path@);
                    assert(stored =~= vstd::utf8::encode_utf8(contents@));
                }
                let data = contents.as_bytes_vec();
                self.files.push((path.to_owned(), data));
                proof {
                    lemma_file_map_push(f0, self.files@.last());
                }
            }
        }
        proof {
            lemma_insert_file_wf(old(self)@, path@, stored);
            assert(final(self)@ =~= old(self)@.append_post(path@, vstd::utf8::encode_utf8(contents@)));
        }
        true
    }

    /// Removes the file at `path`; `true` exactly when a file sat
    /// there. Directories and absent paths are refused.
    pub fn rm(&mut self, path: &str) -> (r: bool)
        requires
            old(self).inv(),
        ensures
            final(self).inv(),
            final(self)@ == old(self)@.rm_post(path@),
            r == old(self)@.rm_res(path@),
    {
        match find_file_idx(&self.files, path) {
            Some(i) => {
                proof {
                    lemma_file_map_mem(self.files@, i as int);
                    lemma_file_map_swap_remove(self.files@, i as int);
                }
                self.files.swap_remove(i);
                proof {
                    lemma_rm_wf(old(self)@, path@);
                    assert(final(self)@ =~= old(self)@.rm_post(path@));
                }
                true
            }
            None => {
                proof {
                    lemma_file_map_absent(self.files@, path@);
                }
                false
            }
        }
    }

    /// Removes the directory at `path` if it is empty; an absent path
    /// counts as already satisfied. A nonempty directory, or a file at
    /// `path`, is refused.
    pub fn rmdir(&mut self, path: &str) -> (r: bool)
        requires
            old(self).inv(),
        ensures
            final(self).inv(),
            final(self)@ == old(self)@.rmdir_post(path@),
            r == old(self)@.rmdir_res(path@),
    {
        if !self.path_exists(path) {
            return true;
        }
        match find_dir_idx(&self.dirs, path) {
            Some(i) => {
                proof {
                    assert(self.dirs@[i as int]@ == path@);
                    assert(dir_set(self.dirs@).contains(path@));
                }
                if self.has_entry_below(path) {
                    false
                } else {
                    proof {
                        lemma_dir_set_swap_remove(self.dirs@, i as int);
                    }
                    self.dirs.swap_remove(i);
                    proof {
                        lemma_rmdir_wf(old(self)@, path@);
                        assert(final(self)@ =~= old(self)@.rmdir_post(path@));
                    }
                    true
                }
            }
            None => {
                proof {
                    assert(!dir_set(self.dirs@).contains(path@));
                }
                false
            }
        }
    }

    /// Removes `path` and everything below it, files and directories
    /// alike; always `true`, an absent path being already satisfied.
    #[verifier::loop_isolation(false)]
    pub fn rm_r(&mut self, path: &str) -> (r: bool)
        requires
            old(self).inv(),
        ensures
            final(self).inv(),
            final(self)@ == old(self)@.rm_r_post(path@),
            r == true,
    {
        let ghost f0 = self.files@;
        let mut kept_files: Vec<(String, Vec<u8>)> = Vec::new();
        proof {
            assert(f0.subrange(0, f0.len() as int) =~= f0);
            assert(file_map(kept_files@) =~= kept_file_map(f0, f0.len() as int, path@));
        }
        while self.files.len() > 0
            invariant
                self.files@.len() <= f0.len(),
                self.files@ == f0.subrange(0, self.files@.len() as int),
                self.dirs@ == old(self).dirs@,
                uniq_files(kept_files@),
                file_map(kept_files@) == kept_file_map(f0, self.files@.len() as int, path@),
            decreases self.files@.len(),
        {
            let ghost j = self.files@.len() as int;
            let ghost before = file_map(kept_files@);
            let e_opt = self.files.pop();
            let e = match e_opt {
                Some(e) => e,
                None => unreached(),
            };
            proof {
                assert(self.files@ =~= f0.subrange(0, j - 1));
                assert(e == f0[j - 1]);
            }
            if !(str_eq(e.0.as_str(), path) || check_under(e.0.as_str(), path)) {
                proof {
                    assert(!within(e.0@, path@));
                    assert forall|m: int| 0 <= m < kept_files@.len() implies
                        (#[trigger] kept_files@[m]).0@ != e.0@ by {
                        if kept_files@[m].0@ == e.0@ {
                            lemma_file_map_mem(kept_files@, m);
                            let m2 = choose|m2: int|
                                j <= m2 < f0.len() && (#[trigger] f0[m2]).0@ == e.0@ && !within(e.0@, path@);
                            assert(f0[j - 1].0@ == f0[m2].0@);
                        }
                    }
                    lemma_file_map_push(kept_files@, e);
                }
                kept_files.push(e);
                proof {
                    lemma_kept_file_map_step(f0, j, path@, before, file_map(kept_files@));
                }
            } else {
                proof {
                    assert(within(e.0@, path@));
                    lemma_kept_file_map_step_dropped(f0, j, path@, before);
                }
            }
        }
        self.files = kept_files;
        let ghost d0 = self.dirs@;
        let mut kept_dirs: Vec<String> = Vec::new();
        proof {
            assert(d0.subrange(0, d0.len() as int) =~= d0);
            assert(dir_set(kept_dirs@) =~= kept_dir_set(d0, d0.len() as int, path@));
        }
        while self.dirs.len() > 0
            invariant
                self.dirs@.len() <= d0.len(),
                self.dirs@ == d0.subrange(0, self.dirs@.len() as int),
                uniq_files(self.files@),
                file_map(self.files@) == kept_file_map(f0, 0, path@),
                uniq_dirs(kept_dirs@),
                dir_set(kept_dirs@) == kept_dir_set(d0, self.dirs@.len() as int, path@),
            decreases self.dirs@.len(),
        {
            let ghost j = self.dirs@.len() as int;
            let ghost before = dir_set(kept_dirs@);
            let e_opt = self.dirs.pop();
            let e = match e_opt {
                Some(e) => e,
                None => unreached(),
            };
            proof {
                assert(self.dirs@ =~= d0.subrange(0, j - 1));
                assert(e == d0[j - 1]);
            }
            if !(str_eq(e.as_str(), path) || check_under(e.as_str(), path)) {
                proof {
                    assert(!within(e@, path@));
                    assert forall|m: int| 0 <= m < kept_dirs@.len() implies
                        (#[trigger] kept_dirs@[m])@ != e@ by {
                        if kept_dirs@[m]@ == e@ {
                            assert(dir_set(kept_dirs@).contains(e@));
                            let m2 = choose|m2: int|
                                j <= m2 < d0.len() && (#[trigger] d0[m2])@ == e@ && !within(e@, path@);
                            assert(d0[j - 1]@ == d0[m2]@);
                        }
                    }
                    lemma_dir_set_push(kept_dirs@, e);
                }
                kept_dirs.push(e);
                proof {
                    assert forall|k: Seq<char>| #[trigger] before.insert(d0[j - 1]@).contains(k) <==>
                        kept_dir_set(d0, j - 1, path@).contains(k) by {
                        if before.insert(d0[j - 1]@).contains(k) {
                            if k == d0[j - 1]@ {
                                assert(j - 1 <= j - 1 < d0.len() && d0[j - 1]@ == k && !within(k, path@));
                            } else {
                                let m = choose|m: int|
                                    j <= m < d0.len() && (#[trigger] d0[m])@ == k && !within(k, path@);
                                assert(j - 1 <= m < d0.len() && d0[m]@ == k && !within(k, path@));
                            }
                        }
                        if kept_dir_set(d0, j - 1, path@).contains(k) {
                            let m = choose|m: int|
                                j - 1 <= m < d0.len() && (#[trigger] d0[m])@ == k && !within(k, path@);
                            if m > j - 1 {
                                assert(before.contains(k));
                            }
                        }
                    }
                    assert(dir_set(kept_dirs@) =~= kept_dir_set(d0, j - 1, path@));
                }
            } else {
                proof {
                    assert(within(e@, path@));
                    assert forall|k: Seq<char>| #[trigger] before.contains(k) <==>
                        kept_dir_set(d0, j - 1, path@).contains(k) by {
                        if before.contains(k) {
                            let m = choose|m: int|
                                j <= m < d0.len() && (#[trigger] d0[m])@ == k && !within(k, path@);
                            assert(j - 1 <= m < d0.len() && d0[m]@ == k && !within(k, path@));
                        }
                        if kept_dir_set(d0, j - 1, path@).contains(k) {
                            let m = choose|m: int|
                                j - 1 <= m < d0.len() && (#[trigger] d0[m])@ == k && !within(k, path@);
                            if m == j - 1 {
                                assert(within(k, path@));
                            } else {
                                assert(before.contains(k));
                            }
                        }
                    }
                    assert(before =~= kept_dir_set(d0, j - 1, path@));
                }
            }
        }
        self.dirs = kept_dirs;
        proof {
            let post = old(self)@.rm_r_post(path@);
            assert forall|k: Seq<char>| #[trigger] file_map(self.files@).dom().contains(k) <==>
                post.files.dom().contains(k) by {
                if file_map(self.files@).dom().contains(k) {
                    let m = choose|m: int|
                        0 <= m < f0.len() && (#[trigger] f0[m]).0@ == k && !within(k, path@);
                    assert(file_map(f0).dom().contains(k));
                }
                if post.files.dom().contains(k) {
                    let m = choose|m: int| 0 <= m < f0.len() && (#[trigger] f0[m]).0@ == k;
                    assert(kept_file_map(f0, 0, path@).dom().contains(k));
                }
            }
            assert forall|k: Seq<char>| #[trigger] file_map(self.files@).dom().contains(k) implies
                file_map(self.files@)[k] == post.files[k] by {
                let m = choose|m: int|
                    0 <= m < f0.len() && (#[trigger] f0[m]).0@ == k && !within(k, path@);
                lemma_file_map_mem(f0, m);
                assert(kept_file_map(f0, 0, path@)[k] == f0[
                    choose|m2: int| 0 <= m2 < f0.len() && (#[trigger] f0[m2]).0@ == k && !within(k, path@)
                ].1@);
                let m2 = choose|m2: int|
                    0 <= m2 < f0.len() && (#[trigger] f0[m2]).0@ == k && !within(k, path@);
                if m2 != m {
                    if m2 < m {
                        assert(f0[m2].0@ != f0[m].0@);
                    } else {
                        assert(f0[m].0@ != f0[m2].0@);
                    }
                }
            }
            assert(file_map(self.files@) =~= post.files);
            assert forall|k: Seq<char>| #[trigger] dir_set(self.dirs@).contains(k) <==>
                post.dirs.contains(k) by {
                if dir_set(self.dirs@).contains(k) {
                    let m = choose|m: int|
                        0 <= m < d0.len() && (#[trigger] d0[m])@ == k && !within(k, path@);
                    assert(dir_set(d0).contains(k));
                }
                if post.dirs.contains(k) {
                    let m = choose|m: int| 0 <= m < d0.len() && (#[trigger] d0[m])@ == k;
                    assert(kept_dir_set(d0, 0, path@).contains(k));
                }
            }
            assert(dir_set(self.dirs@) =~= post.dirs);
            assert(final(self)@ =~= post);
            lemma_rm_r_wf(old(self)@, path@);
        }
        true
    }

    /// Moves the node at `path_one` to `path_two` — a directory moves
    /// with everything below it, and a file already at the destination
    /// is overwritten. `true` exactly when the source exists, every
    /// ancestor of the destination is a directory, and the destination
    /// is not a directory, not below the source, and not the source
    /// itself.
    #[verifier::loop_isolation(false)]
    pub fn mv(&mut self, path_one: &str, path_two: &str) -> (r: bool)
        requires
            old(self).inv(),
        ensures
            final(self).inv(),
            final(self)@ == old(self)@.mv_post(path_one@, path_two@),
            r == old(self)@.mv_res(path_one@, path_two@),
    {
        if !check_path(path_one) {
            return false;
        }
        if !self.path_exists(path_one) {
            return false;
        }
        if !self.can_put(path_two) {
            return false;
        }
        if str_eq(path_one, path_two) {
            return false;
        }
        if check_under(path_two, path_one) {
            return false;
        }
        match find_file_idx(&self.files, path_two) {
            Some(ib) => {
                proof {
                    lemma_file_map_mem(self.files@, ib as int);
                }
                match find_file_idx(&self.files, path_one) {
                    Some(ia) => {
                        proof {
                            lemma_file_map_mem(self.files@, ia as int);
                        }
                    }
                    None => {
                        proof {
                            lemma_file_map_absent(self.files@, path_one@);
                        }
                        return false;
                    }
                }
            }
            None => {
                proof {
                    lemma_file_map_absent(self.files@, path_two@);
                }
            }
        }
        proof {
            assert(old(self)@.mv_res(path_one@, path_two@));
        }
        let a_len = path_one.unicode_len();
        let ghost f0 = self.files@;
        let mut moved_f: Vec<(String, Vec<u8>)> = Vec::new();
        proof {
            assert(f0.subrange(0, f0.len() as int) =~= f0);
            assert(file_map(moved_f@) =~= moved_file_map(f0, f0.len() as int, path_one@, path_two@));
        }
        while self.files.len() > 0
            invariant
                self.files@.len() <= f0.len(),
                self.files@ == f0.subrange(0, self.files@.len() as int),
                self.dirs@ == old(self).dirs@,
                uniq_files(moved_f@),
                file_map(moved_f@) == moved_file_map(f0, self.files@.len() as int, path_one@, path_two@),
            decreases self.files@.len(),
        {
            let ghost j = self.files@.len() as int;
            let ghost before = file_map(moved_f@);
            let e_opt = self.files.pop();
            let e = match e_opt {
                Some(e) => e,
                None => unreached(),
            };
            proof {
                assert(self.files@ =~= f0.subrange(0, j - 1));
                assert(e == f0[j - 1]);
                lemma_file_map_mem(f0, j - 1);
            }
            if str_eq(e.0.as_str(), path_one) || check_under(e.0.as_str(), path_one) {
                proof {
                    assert(within(e.0@, path_one@));
                }
                let nk = rekey_exec(e.0.as_str(), a_len, path_two);
                proof {
                    lemma_rekey(e.0@, path_one@, path_two@);
                    assert(nk@ == rekey(e.0@, path_one@, path_two@));
                    assert forall|m: int| 0 <= m < moved_f@.len() implies
                        (#[trigger] moved_f@[m]).0@ != nk@ by {
                        if moved_f@[m].0@ == nk@ {
                            lemma_file_map_mem(moved_f@, m);
                            assert(within(nk@, path_two@));
                            let m2 = choose|m2: int|
                                j <= m2 < f0.len() && (#[trigger] f0[m2]).0@ == rekey(
                                    nk@,
                                    path_two@,
                                    path_one@,
                                ) && within(rekey(nk@, path_two@, path_one@), path_one@);
                            assert(f0[m2].0@ == e.0@);
                            assert(f0[j - 1].0@ == f0[m2].0@);
                        }
                    }
                }
                let ghost mid = moved_f@;
                moved_f.push((nk, e.1));
                proof {
                    lemma_file_map_push(mid, moved_f@.last());
                    lemma_moved_file_step_moved(f0, j, path_one@, path_two@, before);
                }
            } else if str_eq(e.0.as_str(), path_two) || check_under(e.0.as_str(), path_two) {
                proof {
                    assert(within(e.0@, path_two@));
                    lemma_moved_file_step_dropped(f0, j, path_one@, path_two@, before);
                }
            } else {
                proof {
                    assert forall|m: int| 0 <= m < moved_f@.len() implies
                        (#[trigger] moved_f@[m]).0@ != e.0@ by {
                        if moved_f@[m].0@ == e.0@ {
                            lemma_file_map_mem(moved_f@, m);
                            let m2 = choose|m2: int|
                                j <= m2 < f0.len() && (#[trigger] f0[m2]).0@ == e.0@;
                            assert(f0[j - 1].0@ == f0[m2].0@);
                        }
                    }
                }
                let ghost mid = moved_f@;
                moved_f.push(e);
                proof {
                    lemma_file_map_push(mid, moved_f@.last());
                    lemma_moved_file_step_kept(f0, j, path_one@, path_two@, before);
                }
            }
        }
        self.files = moved_f;
        let ghost d0 = self.dirs@;
        let mut moved_d: Vec<String> = Vec::new();
        proof {
            assert(d0.subrange(0, d0.len() as int) =~= d0);
            assert(dir_set(moved_d@) =~= moved_dir_set(d0, d0.len() as int, path_one@, path_two@));
        }
        while self.dirs.len() > 0
            invariant
                self.dirs@.len() <= d0.len(),
                self.dirs@ == d0.subrange(0, self.dirs@.len() as int),
                uniq_files(self.files@),
                file_map(self.files@) == moved_file_map(f0, 0, path_one@, path_two@),
                uniq_dirs(moved_d@),
                dir_set(moved_d@) == moved_dir_set(d0, self.dirs@.len() as int, path_one@, path_two@),
            decreases self.dirs@.len(),
        {
            let ghost j = self.dirs@.len() as int;
            let ghost before = dir_set(moved_d@);
            let e_opt = self.dirs.pop();
            let e = match e_opt {
                Some(e) => e,
                None => unreached(),
            };
            proof {
                assert(self.dirs@ =~= d0.subrange(0, j - 1));
                assert(e == d0[j - 1]);
                assert(dir_set(d0).contains(d0[j - 1]@));
                lemma_moved_dir_step(d0, j, path_one@, path_two@, before);
            }
            if str_eq(e.as_str(), path_one) || check_under(e.as_str(), path_one) {
                proof {
                    assert(within(e@, path_one@));
                }
                let nk = rekey_exec(e.as_str(), a_len, path_two);
                proof {
                    lemma_rekey(e@, path_one@, path_two@);
                    assert(nk@ == rekey(e@, path_one@, path_two@));
                    assert forall|m: int| 0 <= m < moved_d@.len() implies
                        (#[trigger] moved_d@[m])@ != nk@ by {
                        if moved_d@[m]@ == nk@ {
                            assert(dir_set(moved_d@).contains(nk@));
                            assert(within(nk@, path_two@));
                            let m2 = choose|m2: int|
                                j <= m2 < d0.len() && (#[trigger] d0[m2])@ == rekey(
                                    nk@,
                                    path_two@,
                                    path_one@,
                                ) && within(rekey(nk@, path_two@, path_one@), path_one@);
                            assert(d0[m2]@ == e@);
                            assert(d0[j - 1]@ == d0[m2]@);
                        }
                    }
                }
                let ghost mid = moved_d@;
                moved_d.push(nk);
                proof {
                    lemma_dir_set_push(mid, moved_d@.last());
                }
            } else if str_eq(e.as_str(), path_two) || check_under(e.as_str(), path_two) {
                proof {
                    assert(within(e@, path_two@));
                }
            } else {
                proof {
                    assert forall|m: int| 0 <= m < moved_d@.len() implies
                        (#[trigger] moved_d@[m])@ != e@ by {
                        if moved_d@[m]@ == e@ {
                            assert(dir_set(moved_d@).contains(e@));
                            let m2 = choose|m2: int|
                                j <= m2 < d0.len() && (#[trigger] d0[m2])@ == e@;
                            assert(d0[j - 1]@ == d0[m2]@);
                        }
                    }
                }
                let ghost mid = moved_d@;
                moved_d.push(e);
                proof {
                    lemma_dir_set_push(mid, moved_d@.last());
                }
            }
        }
        self.dirs = moved_d;
        proof {
            let post = old(self)@.mv_post(path_one@, path_two@);
            assert forall|k: Seq<char>| #[trigger] file_map(self.files@).dom().contains(k) <==>
                post.files.dom().contains(k) by {
                if within(k, path_two@) {
                    let src = rekey(k, path_two@, path_one@);
                    if file_map(self.files@).dom().contains(k) {
                        let m = choose|m: int|
                            0 <= m < f0.len() && (#[trigger] f0[m]).0@ == src && within(src, path_one@);
                        lemma_file_map_mem(f0, m);
                    }
                    if post.files.dom().contains(k) {
                        let m = choose|m: int| 0 <= m < f0.len() && (#[trigger] f0[m]).0@ == src;
                        assert(moved_file_map(f0, 0, path_one@, path_two@).dom().contains(k));
                    }
                } else {
                    if file_map(self.files@).dom().contains(k) {
                        let m = choose|m: int| 0 <= m < f0.len() && (#[trigger] f0[m]).0@ == k;
                        lemma_file_map_mem(f0, m);
                    }
                    if post.files.dom().contains(k) {
                        let m = choose|m: int| 0 <= m < f0.len() && (#[trigger] f0[m]).0@ == k;
                        assert(moved_file_map(f0, 0, path_one@, path_two@).dom().contains(k));
                    }
                }
            }
            assert forall|k: Seq<char>| #[trigger] file_map(self.files@).dom().contains(k) implies
                file_map(self.files@)[k] == post.files[k] by {
                if within(k, path_two@) {
                    let src = rekey(k, path_two@, path_one@);
                    let m = choose|m: int|
                        0 <= m < f0.len() && (#[trigger] f0[m]).0@ == src && within(src, path_one@);
                    lemma_file_map_mem(f0, m);
                } else {
                    let m = choose|m: int| 0 <= m < f0.len() && (#[trigger] f0[m]).0@ == k;
                    lemma_file_map_mem(f0, m);
                }
            }
            assert(file_map(self.files@) =~= post.files);
            assert forall|k: Seq<char>| #[trigger] dir_set(self.dirs@).contains(k) <==>
                post.dirs.contains(k) by {
                if within(k, path_two@) {
                    let src = rekey(k, path_two@, path_one@);
                    if dir_set(self.dirs@).contains(k) {
                        let m = choose|m: int|
                            0 <= m < d0.len() && (#[trigger] d0[m])@ == src && within(src, path_one@);
                        assert(dir_set(d0).contains(src));
                    }
                    if post.dirs.contains(k) {
                        let m = choose|m: int| 0 <= m < d0.len() && (#[trigger] d0[m])@ == src;
                        assert(moved_dir_set(d0, 0, path_one@, path_two@).contains(k));
                    }
                } else {
                    if dir_set(self.dirs@).contains(k) {
                        let m = choose|m: int| 0 <= m < d0.len() && (#[trigger] d0[m])@ == k;
                        assert(dir_set(d0).contains(k));
                    }
                    if post.dirs.contains(k) {
                        let m = choose|m: int| 0 <= m < d0.len() && (#[trigger] d0[m])@ == k;
                        assert(moved_dir_set(d0, 0, path_one@, path_two@).contains(k));
                    }
                }
            }
            assert(dir_set(self.dirs@) =~= post.dirs);
            assert(final(self)@ =~= post);
            lemma_mv_wf(old(self)@, path_one@, path_two@);
        }
        true
    }
}

/// The map read off the entries of `v` from position `from` on whose
/// keys do not lie within `p`.
spec fn kept_file_map(v: Seq<(String, Vec<u8>)>, from: int, p: Seq<char>) -> Map<Seq<char>, Seq<u8>> {
    Map::new(
        |k: Seq<char>| exists|m: int| from <= m < v.len() && (#[trigger] v[m]).0@ == k && !within(k, p),
        |k: Seq<char>| v[
            choose|m: int| from <= m < v.len() && (#[trigger] v[m]).0@ == k && !within(k, p)
        ].1@,
    )
}

/// The set read off the entries of `v` from position `from` on that do
/// not lie within `p`.
spec fn kept_dir_set(v: Seq<String>, from: int, p: Seq<char>) -> Set<Seq<char>> {
    Set::new(
        |k: Seq<char>| exists|m: int| from <= m < v.len() && (#[trigger] v[m])@ == k && !within(k, p),
    )
}

/// Keeping the entry at `j - 1` extends the kept map by exactly its key.
proof fn lemma_kept_file_map_step(
    v: Seq<(String, Vec<u8>)>,
    j: int,
    p: Seq<char>,
    before: Map<Seq<char>, Seq<u8>>,
    after: Map<Seq<char>, Seq<u8>>,
)
    requires
        uniq_files(v),
        0 < j <= v.len(),
        !within(v[j - 1].0@, p),
        before == kept_file_map(v, j, p),
        after == before.insert(v[j - 1].0@, v[j - 1].1@),
    ensures
        after == kept_file_map(v, j - 1, p),
{
    let goal = kept_file_map(v, j - 1, p);
    assert forall|k: Seq<char>| #[trigger] after.dom().contains(k) <==> goal.dom().contains(k) by {
        if after.dom().contains(k) {
            if k == v[j - 1].0@ {
                assert(j - 1 <= j - 1 < v.len() && v[j - 1].0@ == k && !within(k, p));
            } else {
                let m = choose|m: int| j <= m < v.len() && (#[trigger] v[m]).0@ == k && !within(k, p);
                assert(j - 1 <= m < v.len() && v[m].0@ == k && !within(k, p));
            }
        }
        if goal.dom().contains(k) {
            let m = choose|m: int| j - 1 <= m < v.len() && (#[trigger] v[m]).0@ == k && !within(k, p);
            if m > j - 1 {
                assert(before.dom().contains(k));
            }
        }
    }
    assert forall|k: Seq<char>| #[trigger] after.dom().contains(k) implies after[k] == goal[k] by {
        let m = choose|m: int| j - 1 <= m < v.len() && (#[trigger] v[m]).0@ == k && !within(k, p);
        if k == v[j - 1].0@ {
            if m != j - 1 {
                assert(v[j - 1].0@ != v[m].0@);
            }
            assert(goal[k] == v[j - 1].1@);
        } else {
            let m2 = choose|m2: int| j <= m2 < v.len() && (#[trigger] v[m2]).0@ == k && !within(k, p);
            if m != m2 {
                if m < m2 {
                    assert(v[m].0@ != v[m2].0@);
                } else {
                    assert(v[m2].0@ != v[m].0@);
                }
            }
            assert(before[k] == v[m2].1@);
        }
    }
    assert(after =~= goal);
}

/// The map read off the entries of `v` from position `from` on, with
/// the subtree at `a` transplanted onto `b` and any stale node at or
/// below `b` dropped.
spec fn moved_file_map(v: Seq<(String, Vec<u8>)>, from: int, a: Seq<char>, b: Seq<char>) -> Map<
    Seq<char>,
    Seq<u8>,
> {
    Map::new(
        |k: Seq<char>| if within(k, b) {
            exists|m: int|
                from <= m < v.len() && (#[trigger] v[m]).0@ == rekey(k, b, a) && within(
                    rekey(k, b, a),
                    a,
                )
        } else {
            (exists|m: int| from <= m < v.len() && (#[trigger] v[m]).0@ == k) && !within(k, a)
        },
        |k: Seq<char>| if within(k, b) {
            v[
                choose|m: int|
                    from <= m < v.len() && (#[trigger] v[m]).0@ == rekey(k, b, a) && within(
                        rekey(k, b, a),
                        a,
                    )
            ].1@
        } else {
            v[choose|m: int| from <= m < v.len() && (#[trigger] v[m]).0@ == k].1@
        },
    )
}

/// The set read off the entries of `v` from position `from` on, with
/// the subtree at `a` transplanted onto `b`.
spec fn moved_dir_set(v: Seq<String>, from: int, a: Seq<char>, b: Seq<char>) -> Set<Seq<char>> {
    Set::new(
        |k: Seq<char>| if within(k, b) {
            exists|m: int|
                from <= m < v.len() && (#[trigger] v[m])@ == rekey(k, b, a) && within(
                    rekey(k, b, a),
                    a,
                )
        } else {
            (exists|m: int| from <= m < v.len() && (#[trigger] v[m])@ == k) && !within(k, a)
        },
    )
}

/// Transplanting the entry at `j - 1` extends the moved map by
/// exactly its new key.
proof fn lemma_moved_file_step_moved(
    v: Seq<(String, Vec<u8>)>,
    j: int,
    a: Seq<char>,
    b: Seq<char>,
    before: Map<Seq<char>, Seq<u8>>,
)
    requires
        uniq_files(v),
        0 < j <= v.len(),
        valid_path(a),
        valid_path(b),
        valid_path(v[j - 1].0@),
        within(v[j - 1].0@, a),
        before == moved_file_map(v, j, a, b),
    ensures
        before.insert(rekey(v[j - 1].0@, a, b), v[j - 1].1@) == moved_file_map(v, j - 1, a, b),
{
    let e0 = v[j - 1].0@;
    let nk = rekey(e0, a, b);
    lemma_rekey(e0, a, b);
    let after = before.insert(nk, v[j - 1].1@);
    let goal = moved_file_map(v, j - 1, a, b);
    assert forall|k: Seq<char>| #[trigger] after.dom().contains(k) implies goal.dom().contains(
        k,
    ) by {
        if k == nk {
            assert(j - 1 <= j - 1 < v.len() && v[j - 1].0@ == rekey(nk, b, a) && within(
                rekey(nk, b, a),
                a,
            ));
        } else if within(k, b) {
            let m = choose|m: int|
                j <= m < v.len() && (#[trigger] v[m]).0@ == rekey(k, b, a) && within(
                    rekey(k, b, a),
                    a,
                );
            assert(j - 1 <= m < v.len() && v[m].0@ == rekey(k, b, a));
        } else {
            let m = choose|m: int| j <= m < v.len() && (#[trigger] v[m]).0@ == k;
            assert(j - 1 <= m < v.len() && v[m].0@ == k);
        }
    }
    assert forall|k: Seq<char>| #[trigger] goal.dom().contains(k) implies after.dom().contains(
        k,
    ) by {
        if within(k, b) {
            let m = choose|m: int|
                j - 1 <= m < v.len() && (#[trigger] v[m]).0@ == rekey(k, b, a) && within(
                    rekey(k, b, a),
                    a,
                );
            if m == j - 1 {
                lemma_rekey_roundtrip(k, b, a);
                assert(rekey(rekey(k, b, a), a, b) == k);
                assert(k == nk);
            } else {
                assert(before.dom().contains(k));
            }
        } else {
            let m = choose|m: int| j - 1 <= m < v.len() && (#[trigger] v[m]).0@ == k;
            if m == j - 1 {
                assert(within(k, a));
                assert(false);
            } else {
                assert(before.dom().contains(k));
            }
        }
    }
    assert forall|k: Seq<char>| #[trigger] after.dom().contains(k) implies after[k] == goal[k] by {
        if within(k, b) {
            let mg = choose|m: int|
                j - 1 <= m < v.len() && (#[trigger] v[m]).0@ == rekey(k, b, a) && within(
                    rekey(k, b, a),
                    a,
                );
            if k == nk {
                if mg != j - 1 {
                    if mg < j - 1 {
                        assert(v[mg].0@ != v[j - 1].0@);
                    } else {
                        assert(v[j - 1].0@ != v[mg].0@);
                    }
                }
                assert(goal[k] == v[j - 1].1@);
            } else {
                lemma_rekey_roundtrip(k, b, a);
                assert(rekey(k, b, a) != e0);
                assert(mg != j - 1);
                let mb = choose|m: int|
                    j <= m < v.len() && (#[trigger] v[m]).0@ == rekey(k, b, a) && within(
                        rekey(k, b, a),
                        a,
                    );
                if mg != mb {
                    if mg < mb {
                        assert(v[mg].0@ != v[mb].0@);
                    } else {
                        assert(v[mb].0@ != v[mg].0@);
                    }
                }
                assert(before[k] == v[mb].1@);
            }
        } else {
            let mg = choose|m: int| j - 1 <= m < v.len() && (#[trigger] v[m]).0@ == k;
            assert(mg != j - 1);
            let mb = choose|m: int| j <= m < v.len() && (#[trigger] v[m]).0@ == k;
            if mg != mb {
                if mg < mb {
                    assert(v[mg].0@ != v[mb].0@);
                } else {
                    assert(v[mb].0@ != v[mg].0@);
                }
            }
            assert(before[k] == v[mb].1@);
        }
    }
    assert(after =~= goal);
}

/// Dropping the entry at `j - 1` — a stale node at or below the
/// destination — leaves the moved map unchanged.
proof fn lemma_moved_file_step_dropped(
    v: Seq<(String, Vec<u8>)>,
    j: int,
    a: Seq<char>,
    b: Seq<char>,
    before: Map<Seq<char>, Seq<u8>>,
)
    requires
        uniq_files(v),
        0 < j <= v.len(),
        !within(v[j - 1].0@, a),
        within(v[j - 1].0@, b),
        before == moved_file_map(v, j, a, b),
    ensures
        before == moved_file_map(v, j - 1, a, b),
{
    let e0 = v[j - 1].0@;
    let goal = moved_file_map(v, j - 1, a, b);
    assert forall|k: Seq<char>| #[trigger] before.dom().contains(k) <==> goal.dom().contains(
        k,
    ) by {
        if before.dom().contains(k) {
            if within(k, b) {
                let m = choose|m: int|
                    j <= m < v.len() && (#[trigger] v[m]).0@ == rekey(k, b, a) && within(
                        rekey(k, b, a),
                        a,
                    );
                assert(j - 1 <= m < v.len() && v[m].0@ == rekey(k, b, a));
            } else {
                let m = choose|m: int| j <= m < v.len() && (#[trigger] v[m]).0@ == k;
                assert(j - 1 <= m < v.len() && v[m].0@ == k);
            }
        }
        if goal.dom().contains(k) {
            if within(k, b) {
                let m = choose|m: int|
                    j - 1 <= m < v.len() && (#[trigger] v[m]).0@ == rekey(k, b, a) && within(
                        rekey(k, b, a),
                        a,
                    );
                if m == j - 1 {
                    assert(within(e0, a));
                    assert(false);
                } else {
                    assert(before.dom().contains(k));
                }
            } else {
                let m = choose|m: int| j - 1 <= m < v.len() && (#[trigger] v[m]).0@ == k;
                if m == j - 1 {
                    assert(within(k, b));
                    assert(false);
                } else {
                    assert(before.dom().contains(k));
                }
            }
        }
    }
    assert forall|k: Seq<char>| #[trigger] before.dom().contains(k) implies before[k] == goal[k] by {
        if within(k, b) {
            let mg = choose|m: int|
                j - 1 <= m < v.len() && (#[trigger] v[m]).0@ == rekey(k, b, a) && within(
                    rekey(k, b, a),
                    a,
                );
            let mb = choose|m: int|
                j <= m < v.len() && (#[trigger] v[m]).0@ == rekey(k, b, a) && within(
                    rekey(k, b, a),
                    a,
                );
            if mg == j - 1 {
                assert(within(e0, a));
                assert(false);
            }
            if mg != mb {
                if mg < mb {
                    assert(v[mg].0@ != v[mb].0@);
                } else {
                    assert(v[mb].0@ != v[mg].0@);
                }
            }
        } else {
            let mg = choose|m: int| j - 1 <= m < v.len() && (#[trigger] v[m]).0@ == k;
            let mb = choose|m: int| j <= m < v.len() && (#[trigger] v[m]).0@ == k;
            if mg == j - 1 {
                assert(within(k, b));
                assert(false);
            }
            if mg != mb {
                if mg < mb {
                    assert(v[mg].0@ != v[mb].0@);
                } else {
                    assert(v[mb].0@ != v[mg].0@);
                }
            }
        }
    }
    assert(before =~= goal);
}

/// Keeping the entry at `j - 1` untouched extends the moved map by
/// exactly its key.
proof fn lemma_moved_file_step_kept(
    v: Seq<(String, Vec<u8>)>,
    j: int,
    a: Seq<char>,
    b: Seq<char>,
    before: Map<Seq<char>, Seq<u8>>,
)
    requires
        uniq_files(v),
        0 < j <= v.len(),
        !within(v[j - 1].0@, a),
        !within(v[j - 1].0@, b),
        before == moved_file_map(v, j, a, b),
    ensures
        before.insert(v[j - 1].0@, v[j - 1].1@) == moved_file_map(v, j - 1, a, b),
{
    let e0 = v[j - 1].0@;
    let after = before.insert(e0, v[j - 1].1@);
    let goal = moved_file_map(v, j - 1, a, b);
    assert forall|k: Seq<char>| #[trigger] after.dom().contains(k) <==> goal.dom().contains(
        k,
    ) by {
        if after.dom().contains(k) {
            if k == e0 {
                assert(j - 1 <= j - 1 < v.len() && v[j - 1].0@ == k);
            } else if within(k, b) {
                let m = choose|m: int|
                    j <= m < v.len() && (#[trigger] v[m]).0@ == rekey(k, b, a) && within(
                        rekey(k, b, a),
                        a,
                    );
                assert(j - 1 <= m < v.len() && v[m].0@ == rekey(k, b, a));
            } else {
                let m = choose|m: int| j <= m < v.len() && (#[trigger] v[m]).0@ == k;
                assert(j - 1 <= m < v.len() && v[m].0@ == k);
            }
        }
        if goal.dom().contains(k) {
            if within(k, b) {
                let m = choose|m: int|
                    j - 1 <= m < v.len() && (#[trigger] v[m]).0@ == rekey(k, b, a) && within(
                        rekey(k, b, a),
                        a,
                    );
                if m == j - 1 {
                    assert(within(e0, a));
                    assert(false);
                } else {
                    assert(before.dom().contains(k));
                }
            } else {
                let m = choose|m: int| j - 1 <= m < v.len() && (#[trigger] v[m]).0@ == k;
                if m == j - 1 {
                    assert(k == e0);
                } else {
                    assert(before.dom().contains(k));
                }
            }
        }
    }
    assert forall|k: Seq<char>| #[trigger] after.dom().contains(k) implies after[k] == goal[k] by {
        if within(k, b) {
            assert(k != e0);
            let mg = choose|m: int|
                j - 1 <= m < v.len() && (#[trigger] v[m]).0@ == rekey(k, b, a) && within(
                    rekey(k, b, a),
                    a,
                );
            let mb = choose|m: int|
                j <= m < v.len() && (#[trigger] v[m]).0@ == rekey(k, b, a) && within(
                    rekey(k, b, a),
                    a,
                );
            if mg == j - 1 {
                assert(within(e0, a));
                assert(false);
            }
            if mg != mb {
                if mg < mb {
                    assert(v[mg].0@ != v[mb].0@);
                } else {
                    assert(v[mb].0@ != v[mg].0@);
                }
            }
        } else {
            let mg = choose|m: int| j - 1 <= m < v.len() && (#[trigger] v[m]).0@ == k;
            if k == e0 {
                if mg != j - 1 {
                    if mg < j - 1 {
                        assert(v[mg].0@ != v[j - 1].0@);
                    } else {
                        assert(v[j - 1].0@ != v[mg].0@);
                    }
                }
                assert(goal[k] == v[j - 1].1@);
            } else {
                assert(mg != j - 1);
                let mb = choose|m: int| j <= m < v.len() && (#[trigger] v[m]).0@ == k;
                if mg != mb {
                    if mg < mb {
                        assert(v[mg].0@ != v[mb].0@);
                    } else {
                        assert(v[mb].0@ != v[mg].0@);
                    }
                }
                assert(before[k] == v[mb].1@);
            }
        }
    }
    assert(after =~= goal);
}

/// The three step facts above, for the directory vector.
proof fn lemma_moved_dir_step(
    v: Seq<String>,
    j: int,
    a: Seq<char>,
    b: Seq<char>,
    before: Set<Seq<char>>,
)
    requires
        uniq_dirs(v),
        0 < j <= v.len(),
        valid_path(a),
        valid_path(b),
        valid_path(v[j - 1]@),
        before == moved_dir_set(v, j, a, b),
    ensures
        within(v[j - 1]@, a) ==> before.insert(rekey(v[j - 1]@, a, b)) == moved_dir_set(
            v,
            j - 1,
            a,
            b,
        ),
        !within(v[j - 1]@, a) && within(v[j - 1]@, b) ==> before == moved_dir_set(v, j - 1, a, b),
        !within(v[j - 1]@, a) && !within(v[j - 1]@, b) ==> before.insert(v[j - 1]@)
            == moved_dir_set(v, j - 1, a, b),
{
    let e0 = v[j - 1]@;
    let goal = moved_dir_set(v, j - 1, a, b);
    if within(e0, a) {
        let nk = rekey(e0, a, b);
        lemma_rekey(e0, a, b);
        let after = before.insert(nk);
        assert forall|k: Seq<char>| #[trigger] after.contains(k) <==> goal.contains(k) by {
            if after.contains(k) {
                if k == nk {
                    assert(j - 1 <= j - 1 < v.len() && v[j - 1]@ == rekey(nk, b, a) && within(
                        rekey(nk, b, a),
                        a,
                    ));
                } else if within(k, b) {
                    let m = choose|m: int|
                        j <= m < v.len() && (#[trigger] v[m])@ == rekey(k, b, a) && within(
                            rekey(k, b, a),
                            a,
                        );
                    assert(j - 1 <= m < v.len() && v[m]@ == rekey(k, b, a));
                } else {
                    let m = choose|m: int| j <= m < v.len() && (#[trigger] v[m])@ == k;
                    assert(j - 1 <= m < v.len() && v[m]@ == k);
                }
            }
            if goal.contains(k) {
                if within(k, b) {
                    let m = choose|m: int|
                        j - 1 <= m < v.len() && (#[trigger] v[m])@ == rekey(k, b, a) && within(
                            rekey(k, b, a),
                            a,
                        );
                    if m == j - 1 {
                        lemma_rekey_roundtrip(k, b, a);
                        assert(k == nk);
                    } else {
                        assert(before.contains(k));
                    }
                } else {
                    let m = choose|m: int| j - 1 <= m < v.len() && (#[trigger] v[m])@ == k;
                    if m == j - 1 {
                        assert(within(k, a));
                        assert(false);
                    } else {
                        assert(before.contains(k));
                    }
                }
            }
        }
        assert(after =~= goal);
    } else if within(e0, b) {
        assert forall|k: Seq<char>| #[trigger] before.contains(k) <==> goal.contains(k) by {
            if before.contains(k) {
                if within(k, b) {
                    let m = choose|m: int|
                        j <= m < v.len() && (#[trigger] v[m])@ == rekey(k, b, a) && within(
                            rekey(k, b, a),
                            a,
                        );
                    assert(j - 1 <= m < v.len() && v[m]@ == rekey(k, b, a));
                } else {
                    let m = choose|m: int| j <= m < v.len() && (#[trigger] v[m])@ == k;
                    assert(j - 1 <= m < v.len() && v[m]@ == k);
                }
            }
            if goal.contains(k) {
                if within(k, b) {
                    let m = choose|m: int|
                        j - 1 <= m < v.len() && (#[trigger] v[m])@ == rekey(k, b, a) && within(
                            rekey(k, b, a),
                            a,
                        );
                    if m == j - 1 {
                        assert(within(e0, a));
                        assert(false);
                    } else {
                        assert(before.contains(k));
                    }
                } else {
                    let m = choose|m: int| j - 1 <= m < v.len() && (#[trigger] v[m])@ == k;
                    if m == j - 1 {
                        assert(within(k, b));
                        assert(false);
                    } else {
                        assert(before.contains(k));
                    }
                }
            }
        }
        assert(before =~= goal);
    } else {
        let after = before.insert(e0);
        assert forall|k: Seq<char>| #[trigger] after.contains(k) <==> goal.contains(k) by {
            if after.contains(k) {
                if k == e0 {
                    assert(j - 1 <= j - 1 < v.len() && v[j - 1]@ == k);
                } else if within(k, b) {
                    let m = choose|m: int|
                        j <= m < v.len() && (#[trigger] v[m])@ == rekey(k, b, a) && within(
                            rekey(k, b, a),
                            a,
                        );
                    assert(j - 1 <= m < v.len() && v[m]@ == rekey(k, b, a));
                } else {
                    let m = choose|m: int| j <= m < v.len() && (#[trigger] v[m])@ == k;
                    assert(j - 1 <= m < v.len() && v[m]@ == k);
                }
            }
            if goal.contains(k) {
                if within(k, b) {
                    let m = choose|m: int|
                        j - 1 <= m < v.len() && (#[trigger] v[m])@ == rekey(k, b, a) && within(
                            rekey(k, b, a),
                            a,
                        );
                    if m == j - 1 {
                        assert(within(e0, a));
                        assert(false);
                    } else {
                        assert(before.contains(k));
                    }
                } else {
                    let m = choose|m: int| j - 1 <= m < v.len() && (#[trigger] v[m])@ == k;
                    if m == j - 1 {
                        assert(k == e0);
                    } else {
                        assert(before.contains(k));
                    }
                }
            }
        }
        assert(after =~= goal);
    }
}

/// Dropping the entry at `j - 1` — its key lies within `p` — leaves the
/// kept map unchanged.
proof fn lemma_kept_file_map_step_dropped(
    v: Seq<(String, Vec<u8>)>,
    j: int,
    p: Seq<char>,
    before: Map<Seq<char>, Seq<u8>>,
)
    requires
        uniq_files(v),
        0 < j <= v.len(),
        within(v[j - 1].0@, p),
        before == kept_file_map(v, j, p),
    ensures
        before == kept_file_map(v, j - 1, p),
{
    let goal = kept_file_map(v, j - 1, p);
    assert forall|k: Seq<char>| #[trigger] before.dom().contains(k) <==> goal.dom().contains(k) by {
        if before.dom().contains(k) {
            let m = choose|m: int| j <= m < v.len() && (#[trigger] v[m]).0@ == k && !within(k, p);
            assert(j - 1 <= m < v.len() && v[m].0@ == k && !within(k, p));
        }
        if goal.dom().contains(k) {
            let m = choose|m: int| j - 1 <= m < v.len() && (#[trigger] v[m]).0@ == k && !within(k, p);
            if m == j - 1 {
                assert(within(k, p));
            }
        }
    }
    assert forall|k: Seq<char>| #[trigger] before.dom().contains(k) implies before[k] == goal[k] by {
        let m = choose|m: int| j - 1 <= m < v.len() && (#[trigger] v[m]).0@ == k && !within(k, p);
        let m2 = choose|m2: int| j <= m2 < v.len() && (#[trigger] v[m2]).0@ == k && !within(k, p);
        if m != m2 {
            if m < m2 {
                assert(v[m].0@ != v[m2].0@);
            } else {
                assert(v[m2].0@ != v[m].0@);
            }
        }
    }
    assert(before =~= goal);
}

} // verus!
