//! The fields of a version as named constants.

use vstd::prelude::*;
use vstd::string::*;

use crate::repository::{map_keys, FixVersion};

verus! {

/// A name with every dot made an underscore.
pub open spec fn undotted(name: Seq<char>) -> Seq<char> {
    name.map_values(
        |c: char|
            if c == '.' {
                '_'
            } else {
                c
            },
    )
}

/// The module that the constants of a version stand in: its name with every dot
/// made an underscore.
pub fn module_name(version: &str) -> (r: String)
    ensures
        r@ == undotted(version@),
{
    let mut out = String::new();
    let n: usize = version.unicode_len();
    let mut i: usize = 0;
    assert(out@ =~= undotted(version@).take(0));
    while i < n
        invariant
            n == version@.len(),
            i <= n,
            out@ == undotted(version@).take(i as int),
        decreases n - i,
    {
        let c = version.get_char(i);
        if c == '.' {
            out.push('_');
        } else {
            out.push(c);
        }
        i += 1;
        assert(out@ =~= undotted(version@).take(i as int));
    }
    assert(out@ =~= undotted(version@));
    out
}

/// The position of the smallest of `keys` from `from` on.
fn smallest(keys: &Vec<u32>, from: usize) -> (r: usize)
    requires
        from < keys@.len(),
    ensures
        from <= r < keys@.len(),
        forall|k: int| from <= k < keys@.len() ==> keys@[r as int] <= #[trigger] keys@[k],
{
    let mut best: usize = from;
    let mut i: usize = from;
    while i < keys.len()
        invariant
            from <= best < keys@.len(),
            from <= i <= keys@.len(),
            forall|k: int| from <= k < i ==> keys@[best as int] <= #[trigger] keys@[k],
        decreases keys@.len() - i,
    {
        if keys[i] < keys[best] {
            best = i;
        }
        i += 1;
    }
    best
}

/// The fields of a version as name and tag, in the order of the tags.
pub fn constants(version: &FixVersion) -> (r: Vec<(String, u32)>)
    ensures
        forall|i: int, j: int|
            0 <= i < j < r@.len() ==> (#[trigger] r@[i]).1 < (#[trigger] r@[j]).1,
        forall|i: int|
            0 <= i < r@.len() ==> version.fields@.dom().contains((#[trigger] r@[i]).1) && r@[i].0@
                == version.fields@[r@[i].1].name@,
        forall|tag: u32| #[trigger]
            version.fields@.dom().contains(tag) ==> exists|i: int|
                0 <= i < r@.len() && (#[trigger] r@[i]).1 == tag,
{
    let mut keys = map_keys(&version.fields);
    let ghost all = keys@;
    let mut r: Vec<(String, u32)> = Vec::new();
    let mut i: usize = 0;
    while i < keys.len()
        invariant
            i <= keys@.len(),
            r@.len() == i,
            keys@.no_duplicates(),
            forall|k: u32| all.contains(k) <==> version.fields@.dom().contains(k),
            keys@.to_multiset() == all.to_multiset(),
            forall|a: int, b: int| 0 <= a < i <= b < keys@.len() ==> keys@[a] < keys@[b],
            forall|a: int, b: int| 0 <= a < b < i ==> keys@[a] < keys@[b],
            forall|a: int|
                0 <= a < i ==> (#[trigger] r@[a]).1 == keys@[a] && version.fields@.dom().contains(
                    keys@[a],
                ) && r@[a].0@ == version.fields@[keys@[a]].name@,
        decreases keys@.len() - i,
    {
        let at: usize = smallest(&keys, i);
        let ghost before = keys@;
        let small: u32 = keys[at];
        let here: u32 = keys[i];
        keys.set(at, here);
        keys.set(i, small);
        proof {
            lemma_swap(before, i as int, at as int, keys@);
            lemma_same_elements(keys@, all, small);
            assert(keys@.contains(small)) by {
                assert(keys@[i as int] == small);
            }
        }
        if let Some(f) = version.fields.get(&small) {
            r.push((f.name.clone(), small));
        }
        i += 1;
    }
    proof {
        assert forall|tag: u32| #[trigger] version.fields@.dom().contains(tag) implies exists|
            i: int,
        |
            0 <= i < r@.len() && (#[trigger] r@[i]).1 == tag by {
            lemma_same_elements(keys@, all, tag);
            let k = choose|k: int| 0 <= k < keys@.len() && keys@[k] == tag;
            assert(r@[k].1 == tag);
        }
    }
    r
}

proof fn lemma_same_elements(a: Seq<u32>, b: Seq<u32>, x: u32)
    requires
        a.to_multiset() == b.to_multiset(),
    ensures
        a.contains(x) <==> b.contains(x),
{
    broadcast use vstd::seq_lib::group_to_multiset_ensures;

    assert(a.contains(x) <==> a.to_multiset().count(x) > 0);
    assert(b.contains(x) <==> b.to_multiset().count(x) > 0);
}

proof fn lemma_swap(before: Seq<u32>, i: int, j: int, after: Seq<u32>)
    requires
        0 <= i <= j < before.len(),
        before.no_duplicates(),
        after == before.update(j, before[i]).update(i, before[j]),
    ensures
        after.no_duplicates(),
        after.to_multiset() == before.to_multiset(),
{
    broadcast use vstd::seq_lib::group_to_multiset_ensures;

    let mid = before.update(j, before[i]);
    assert(after.to_multiset() =~= before.to_multiset());
    assert forall|a: int, b: int| 0 <= a < after.len() && 0 <= b < after.len() && a != b implies after[a]
        != after[b] by {
        let x = if a == i {
            j
        } else if a == j {
            i
        } else {
            a
        };
        let y = if b == i {
            j
        } else if b == j {
            i
        } else {
            b
        };
        assert(after[a] == before[x] && after[b] == before[y]);
    }
}

/// A module has the name of its version, with an underscore for every dot.
pub proof fn law_what_a_module_is_called(name: Seq<char>, i: int)
    ensures
        undotted(name).len() == name.len(),
        0 <= i < name.len() && name[i] == '.' ==> undotted(name)[i] == '_',
        0 <= i < name.len() && name[i] != '.' ==> undotted(name)[i] == name[i],
{
}

} // verus!
