//! The laws of the library, proved over the directory-tree model.
//!
//! Each proof function states a guarantee that spans more than one
//! operation — a round trip, an effect visible to a later query — in
//! terms of the same spec functions that the operations' own contracts
//! use.

use vstd::prelude::*;
use vstd::utf8::{encode_utf8, encode_utf8_valid_utf8, encode_utf8_decode_utf8};
use crate::host::exit_code_spec;
use crate::model::{FsView, within};
use crate::paths::{valid_path, under, rekey};

verus! {

/// Concatenating texts concatenates their encodings.
proof fn lemma_encode_utf8_concat(s1: Seq<char>, s2: Seq<char>)
    ensures
        encode_utf8(s1 + s2) == encode_utf8(s1) + encode_utf8(s2),
    decreases s1.len(),
{
    if s1.len() == 0 {
        assert(s1 + s2 =~= s2);
        assert(encode_utf8(s1) + encode_utf8(s2) =~= encode_utf8(s2));
    } else {
        assert((s1 + s2).drop_first() =~= s1.drop_first() + s2);
        lemma_encode_utf8_concat(s1.drop_first(), s2);
        assert((s1 + s2)[0] == s1[0]);
        assert(encode_utf8(s1 + s2) =~= encode_utf8(s1) + encode_utf8(s2));
    }
}

/// A directory just created exists, and creating it a second time is
/// refused: after `mkdir(p)` on a tree where `p` is fresh and its
/// parents creatable, `path_exists(p)` holds and another `mkdir(p)`
/// returns `false`.
pub proof fn lemma_mkdir_then_exists(fs: FsView, p: Seq<char>)
    requires
        fs.wf(),
        valid_path(p),
        fs.mkdir_ok(p),
    ensures
        fs.mkdir_post(p).exists_at(p),
        !fs.mkdir_post(p).mkdir_res(p),
{
    assert(fs.mkdir_post(p).dirs.contains(p));
}

/// A file just created reads back as the empty string.
pub proof fn lemma_create_then_read_empty(fs: FsView, p: Seq<char>)
    requires
        fs.wf(),
        valid_path(p),
        fs.create_ok(p),
    ensures
        fs.put_post(p, Seq::empty()).read_text(p) == Seq::<char>::empty(),
{
    let post = fs.put_post(p, Seq::empty());
    assert(post.is_file_at(p));
    assert(post.files[p] =~= encode_utf8(Seq::<char>::empty()));
    encode_utf8_valid_utf8(Seq::<char>::empty());
    encode_utf8_decode_utf8(Seq::<char>::empty());
}

/// Writing a text and reading it back yields exactly that text.
pub proof fn lemma_write_then_read(fs: FsView, p: Seq<char>, s: Seq<char>)
    requires
        fs.wf(),
        valid_path(p),
        fs.create_ok(p),
    ensures
        fs.put_post(p, encode_utf8(s)).read_text(p) == s,
{
    encode_utf8_valid_utf8(s);
    encode_utf8_decode_utf8(s);
}

/// Writing one text and then appending another stores their
/// concatenation: the file reads back as the two texts joined.
pub proof fn lemma_write_then_append(fs: FsView, p: Seq<char>, s1: Seq<char>, s2: Seq<char>)
    requires
        fs.wf(),
        valid_path(p),
        fs.create_ok(p),
    ensures
        ({
            let mid = fs.put_post(p, encode_utf8(s1));
            mid.append_post(p, encode_utf8(s2)).read_text(p) == s1 + s2
        }),
{
    let mid = fs.put_post(p, encode_utf8(s1));
    assert(mid.create_ok(p));
    let post = mid.append_post(p, encode_utf8(s2));
    assert(mid.existing_data(p) == encode_utf8(s1));
    lemma_encode_utf8_concat(s1, s2);
    assert(post.files[p] == encode_utf8(s1 + s2));
    encode_utf8_valid_utf8(s1 + s2);
    encode_utf8_decode_utf8(s1 + s2);
}

/// `rm` refuses an absent path; on a file it succeeds, and afterward
/// nothing exists at that path.
pub proof fn lemma_rm_exists(fs: FsView, p: Seq<char>)
    requires
        fs.wf(),
    ensures
        !fs.exists_at(p) ==> !fs.rm_res(p),
        fs.is_file_at(p) ==> fs.rm_res(p) && !fs.rm_post(p).exists_at(p),
{
}

/// A directory just created is empty; creating a file directly inside
/// it makes it nonempty. `p` is the file's path: it sits below `d`
/// with no further directory spelled out between the two.
pub proof fn lemma_fresh_dir_empty(fs: FsView, d: Seq<char>, p: Seq<char>)
    requires
        fs.wf(),
        valid_path(d),
        fs.mkdir_ok(d),
        valid_path(p),
        under(p, d),
        forall|i: int| d.len() < i < p.len() ==> p[i] != '/',
    ensures
        fs.mkdir_post(d).dir_empty_res(d),
        !fs.mkdir_post(d).put_post(p, Seq::empty()).dir_empty_res(d),
{
    let mid = fs.mkdir_post(d);
    assert(mid.dirs.contains(d));
    assert forall|q: Seq<char>| !(#[trigger] mid.exists_at(q) && under(q, d)) by {
        if mid.exists_at(q) && under(q, d) {
            if fs.exists_at(q) {
                assert(fs.dirs.contains(d));
                assert(fs.exists_at(d));
            } else {
                // q was added by mkdir, so q is d or an ancestor of d:
                // both are too short to lie below d
                assert(q == d || under(d, q));
            }
        }
    }
    assert(mid.dir_empty_res(d));
    // the file can indeed be created: every ancestor of p is a
    // directory of `mid`
    assert forall|q: Seq<char>| #[trigger] under(p, q) implies mid.dirs.contains(q) by {
        if q.len() == d.len() {
            assert(q =~= d);
        } else if q.len() > d.len() {
            assert(p[q.len() as int] == '/');
        } else {
            // q is a boundary prefix of d as well
            assert forall|i: int| 0 <= i < q.len() implies d.subrange(0, q.len() as int)[i] == q[i] by {
                assert(p[i] == d[i]);
                assert(p.subrange(0, q.len() as int)[i] == q[i]);
            }
            assert(d.subrange(0, q.len() as int) =~= q);
            assert(p[q.len() as int] == '/');
            assert(d[q.len() as int] == p[q.len() as int]);
            assert(under(d, q));
        }
    }
    if mid.is_dir_at(p) {
        if fs.dirs.contains(p) {
            assert(fs.exists_at(p) && under(p, d));
            assert(fs.dirs.contains(d));
        } else {
            assert(p == d || under(d, p));
        }
    }
    assert(mid.create_ok(p));
    let post = mid.put_post(p, Seq::empty());
    assert(post.exists_at(p) && under(p, d));
    assert(post.has_entry_under(d));
}

/// After a successful move the source is gone, the destination
/// exists, and it reads back exactly as the source did before.
pub proof fn lemma_mv_moves(fs: FsView, a: Seq<char>, b: Seq<char>)
    requires
        fs.wf(),
        fs.mv_res(a, b),
    ensures
        !fs.mv_post(a, b).exists_at(a),
        fs.mv_post(a, b).exists_at(b),
        fs.mv_post(a, b).read_text(b) == fs.read_text(a),
{
    let post = fs.mv_post(a, b);
    assert(rekey(b, b, a) =~= a);
    if under(a, b) {
        assert(fs.dirs.contains(b));
        assert(false);
    }
    assert(!post.files.dom().contains(a));
    assert(!post.dirs.contains(a));
    assert(post.files.dom().contains(b) || post.dirs.contains(b));
    if fs.is_file_at(a) {
        assert(post.files[b] == fs.files[a]);
    } else {
        assert(!post.files.dom().contains(b));
    }
}

/// After recursive removal of `p`, neither `p` nor anything below it
/// exists.
pub proof fn lemma_rm_r_removes_all(fs: FsView, p: Seq<char>, q: Seq<char>)
    requires
        within(q, p),
    ensures
        !fs.rm_r_post(p).exists_at(q),
{
}

/// A command that was spawned and exited with a code is reported with
/// exactly that code; one that could not be spawned is reported as
/// absent.
pub proof fn lemma_run_command_code(c: i32)
    ensures
        exit_code_spec(Option::Some(Option::Some(c))) == Option::Some(c),
        exit_code_spec(Option::None) == Option::None::<i32>,
{
}

} // verus!
