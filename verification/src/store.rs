//! Association-list storage for the executable filesystem state.
//!
//! Files are held as a vector of `(path, bytes)` pairs and directories
//! as a vector of paths, each with pairwise distinct keys. The lemmas
//! here relate pushing, replacing and removing entries to `insert` and
//! `remove` on the abstract `Map` and `Set` read off the vectors.

use vstd::prelude::*;
use crate::paths::str_eq;

verus! {

/// The keys recorded in a file vector.
pub open spec fn file_keys(v: Seq<(String, Vec<u8>)>) -> Set<Seq<char>> {
    Set::new(|k: Seq<char>| exists|j: int| 0 <= j < v.len() && (#[trigger] v[j]).0@ == k)
}

/// The map read off a file vector; meaningful when keys are distinct.
pub open spec fn file_map(v: Seq<(String, Vec<u8>)>) -> Map<Seq<char>, Seq<u8>> {
    Map::new(
        |k: Seq<char>| file_keys(v).contains(k),
        |k: Seq<char>| v[choose|j: int| 0 <= j < v.len() && (#[trigger] v[j]).0@ == k].1@,
    )
}

/// The set read off a directory vector.
pub open spec fn dir_set(v: Seq<String>) -> Set<Seq<char>> {
    Set::new(|k: Seq<char>| exists|j: int| 0 <= j < v.len() && (#[trigger] v[j])@ == k)
}

/// Pairwise distinct file keys.
pub open spec fn uniq_files(v: Seq<(String, Vec<u8>)>) -> bool {
    forall|i: int, j: int| 0 <= i < j < v.len() ==> (#[trigger] v[i]).0@ != (#[trigger] v[j]).0@
}

/// Pairwise distinct directory paths.
pub open spec fn uniq_dirs(v: Seq<String>) -> bool {
    forall|i: int, j: int| 0 <= i < j < v.len() ==> (#[trigger] v[i])@ != (#[trigger] v[j])@
}

/// A recorded entry is found in the map, with its own bytes.
pub proof fn lemma_file_map_mem(v: Seq<(String, Vec<u8>)>, j: int)
    requires
        uniq_files(v),
        0 <= j < v.len(),
    ensures
        file_map(v).dom().contains(v[j].0@),
        file_map(v)[v[j].0@] == v[j].1@,
{
    let k = v[j].0@;
    assert(file_keys(v).contains(k));
    let j2 = choose|j2: int| 0 <= j2 < v.len() && (#[trigger] v[j2]).0@ == k;
    if j2 != j {
        if j2 < j {
            assert(v[j2].0@ != v[j].0@);
        } else {
            assert(v[j].0@ != v[j2].0@);
        }
    }
}

/// A key recorded nowhere in the vector is not in the map.
pub proof fn lemma_file_map_absent(v: Seq<(String, Vec<u8>)>, k: Seq<char>)
    requires
        forall|j: int| 0 <= j < v.len() ==> (#[trigger] v[j]).0@ != k,
    ensures
        !file_map(v).dom().contains(k),
{
}

/// Appending an entry with a fresh key inserts it into the map.
pub proof fn lemma_file_map_push(v: Seq<(String, Vec<u8>)>, e: (String, Vec<u8>))
    requires
        uniq_files(v),
        forall|j: int| 0 <= j < v.len() ==> (#[trigger] v[j]).0@ != e.0@,
    ensures
        uniq_files(v.push(e)),
        file_map(v.push(e)) == file_map(v).insert(e.0@, e.1@),
{
    let w = v.push(e);
    let m = file_map(v).insert(e.0@, e.1@);
    assert forall|k: Seq<char>| #[trigger] file_map(w).dom().contains(k) implies m.dom().contains(k) by {
        let j = choose|j: int| 0 <= j < w.len() && (#[trigger] w[j]).0@ == k;
        if j < v.len() {
            assert(v[j].0@ == k);
        }
    }
    assert forall|k: Seq<char>| #[trigger] m.dom().contains(k) implies file_map(w).dom().contains(k) by {
        if k == e.0@ {
            assert(w[v.len() as int].0@ == k);
        } else {
            let j = choose|j: int| 0 <= j < v.len() && (#[trigger] v[j]).0@ == k;
            assert(w[j].0@ == k);
        }
    }
    assert forall|k: Seq<char>| file_map(w).dom().contains(k) implies #[trigger] file_map(w)[k] == m[k] by {
        let j = choose|j: int| 0 <= j < w.len() && (#[trigger] w[j]).0@ == k;
        if k == e.0@ {
            if j < v.len() {
                assert(v[j].0@ != e.0@);
            }
            assert(file_map(w)[k] == e.1@);
        } else {
            assert(j < v.len());
            lemma_file_map_mem(v, j);
            let j2 = choose|j2: int| 0 <= j2 < v.len() && (#[trigger] v[j2]).0@ == k;
            if j2 != j {
                if j2 < j {
                    assert(v[j2].0@ != v[j].0@);
                } else {
                    assert(v[j].0@ != v[j2].0@);
                }
            }
        }
    }
    assert(file_map(w) =~= m);
}

/// Swap-removing an entry deletes exactly its key from the map.
pub proof fn lemma_file_map_swap_remove(v: Seq<(String, Vec<u8>)>, i: int)
    requires
        uniq_files(v),
        0 <= i < v.len(),
    ensures
        uniq_files(v.update(i, v.last()).drop_last()),
        file_map(v.update(i, v.last()).drop_last()) == file_map(v).remove(v[i].0@),
{
    let w = v.update(i, v.last()).drop_last();
    let m = file_map(v).remove(v[i].0@);
    // each position of `w` carries an entry of `v` away from position `i`
    assert forall|j: int| 0 <= j < w.len() implies (#[trigger] w[j]) == v[if j == i { v.len() - 1 } else { j }] by {}
    assert forall|j1: int, j2: int| 0 <= j1 < j2 < w.len() implies (#[trigger] w[j1]).0@ != (#[trigger] w[j2]).0@ by {
        let i1 = if j1 == i { v.len() - 1 } else { j1 };
        let i2 = if j2 == i { v.len() - 1 } else { j2 };
        if i1 < i2 {
            assert(v[i1].0@ != v[i2].0@);
        } else {
            assert(v[i2].0@ != v[i1].0@);
        }
    }
    assert forall|k: Seq<char>| #[trigger] file_map(w).dom().contains(k) implies m.dom().contains(k) by {
        let j = choose|j: int| 0 <= j < w.len() && (#[trigger] w[j]).0@ == k;
        let oj = if j == i { v.len() - 1 } else { j };
        assert(v[oj].0@ == k);
        if oj != i {
            if i < oj {
                assert(v[i].0@ != v[oj].0@);
            } else {
                assert(v[oj].0@ != v[i].0@);
            }
        }
    }
    assert forall|k: Seq<char>| #[trigger] m.dom().contains(k) implies file_map(w).dom().contains(k) by {
        let j = choose|j: int| 0 <= j < v.len() && (#[trigger] v[j]).0@ == k;
        assert(j != i);
        if j == v.len() - 1 {
            assert(i < v.len() - 1);
            assert(w[i].0@ == k);
        } else {
            assert(w[j].0@ == k);
        }
    }
    assert forall|k: Seq<char>| file_map(w).dom().contains(k) implies #[trigger] file_map(w)[k] == m[k] by {
        let j = choose|j: int| 0 <= j < w.len() && (#[trigger] w[j]).0@ == k;
        let oj = if j == i { v.len() - 1 } else { j };
        assert(v[oj].0@ == k);
        assert(w[j].1@ == v[oj].1@);
        lemma_file_map_mem(v, oj);
        lemma_file_map_mem(w, j);
    }
    assert(file_map(w) =~= m);
}

/// Appending a fresh directory path inserts it into the set.
pub proof fn lemma_dir_set_push(v: Seq<String>, e: String)
    requires
        uniq_dirs(v),
        forall|j: int| 0 <= j < v.len() ==> (#[trigger] v[j])@ != e@,
    ensures
        uniq_dirs(v.push(e)),
        dir_set(v.push(e)) == dir_set(v).insert(e@),
{
    let w = v.push(e);
    assert forall|k: Seq<char>| #[trigger] dir_set(w).contains(k) implies dir_set(v).insert(e@).contains(k) by {
        let j = choose|j: int| 0 <= j < w.len() && (#[trigger] w[j])@ == k;
        if j < v.len() {
            assert(v[j]@ == k);
        }
    }
    assert forall|k: Seq<char>| #[trigger] dir_set(v).insert(e@).contains(k) implies dir_set(w).contains(k) by {
        if k == e@ {
            assert(w[v.len() as int]@ == k);
        } else {
            let j = choose|j: int| 0 <= j < v.len() && (#[trigger] v[j])@ == k;
            assert(w[j]@ == k);
        }
    }
    assert(dir_set(w) =~= dir_set(v).insert(e@));
}

/// Swap-removing a directory path deletes exactly it from the set.
pub proof fn lemma_dir_set_swap_remove(v: Seq<String>, i: int)
    requires
        uniq_dirs(v),
        0 <= i < v.len(),
    ensures
        uniq_dirs(v.update(i, v.last()).drop_last()),
        dir_set(v.update(i, v.last()).drop_last()) == dir_set(v).remove(v[i]@),
{
    let w = v.update(i, v.last()).drop_last();
    assert forall|j: int| 0 <= j < w.len() implies (#[trigger] w[j]) == v[if j == i { v.len() - 1 } else { j }] by {}
    assert forall|j1: int, j2: int| 0 <= j1 < j2 < w.len() implies (#[trigger] w[j1])@ != (#[trigger] w[j2])@ by {
        let i1 = if j1 == i { v.len() - 1 } else { j1 };
        let i2 = if j2 == i { v.len() - 1 } else { j2 };
        if i1 < i2 {
            assert(v[i1]@ != v[i2]@);
        } else {
            assert(v[i2]@ != v[i1]@);
        }
    }
    assert forall|k: Seq<char>| #[trigger] dir_set(w).contains(k) implies dir_set(v).remove(v[i]@).contains(k) by {
        let j = choose|j: int| 0 <= j < w.len() && (#[trigger] w[j])@ == k;
        let oj = if j == i { v.len() - 1 } else { j };
        assert(v[oj]@ == k);
        if oj != i {
            if i < oj {
                assert(v[i]@ != v[oj]@);
            } else {
                assert(v[oj]@ != v[i]@);
            }
        }
    }
    assert forall|k: Seq<char>| #[trigger] dir_set(v).remove(v[i]@).contains(k) implies dir_set(w).contains(k) by {
        let j = choose|j: int| 0 <= j < v.len() && (#[trigger] v[j])@ == k;
        assert(j != i);
        if j == v.len() - 1 {
            assert(i < v.len() - 1);
            assert(w[i]@ == k);
        } else {
            assert(w[j]@ == k);
        }
    }
    assert(dir_set(w) =~= dir_set(v).remove(v[i]@));
}

/// Linear search for a file entry by key.
pub fn find_file_idx(v: &Vec<(String, Vec<u8>)>, p: &str) -> (r: Option<usize>)
    ensures
        r matches Some(i) ==> i < v@.len() && v@[i as int].0@ == p@,
        r is None ==> forall|j: int| 0 <= j < v@.len() ==> (#[trigger] v@[j]).0@ != p@,
{
    let mut j: usize = 0;
    while j < v.len()
        invariant
            0 <= j <= v@.len(),
            forall|m: int| 0 <= m < j ==> (#[trigger] v@[m]).0@ != p@,
        decreases v@.len() - j,
    {
        if str_eq(v[j].0.as_str(), p) {
            return Some(j);
        }
        j += 1;
    }
    None
}

/// Linear search for a directory entry.
pub fn find_dir_idx(v: &Vec<String>, p: &str) -> (r: Option<usize>)
    ensures
        r matches Some(i) ==> i < v@.len() && v@[i as int]@ == p@,
        r is None ==> forall|j: int| 0 <= j < v@.len() ==> (#[trigger] v@[j])@ != p@,
{
    let mut j: usize = 0;
    while j < v.len()
        invariant
            0 <= j <= v@.len(),
            forall|m: int| 0 <= m < j ==> (#[trigger] v@[m])@ != p@,
        decreases v@.len() - j,
    {
        if str_eq(v[j].as_str(), p) {
            return Some(j);
        }
        j += 1;
    }
    None
}

} // verus!
