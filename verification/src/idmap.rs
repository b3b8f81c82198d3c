//! An in-memory, bidirectional mapping between integer ids and byte-string
//! vertex names, with hex-prefix name lookup.
//!
//! Ids carry their group in the high byte; vertexes in the virtual group
//! are only found by a full-length hex prefix.

use vstd::prelude::*;

use crate::bytepath::bytes_eq;
use crate::bytepath::bytes_prefix;
use crate::bytepath::bytes_starts_with;
use crate::bytepath::clone_bytes;

verus! {

/// Divisor isolating the group byte of an id.
pub const GROUP_DIVISOR: u64 = 0x0100_0000_0000_0000;

/// Group number of the virtual (uncommitted) vertexes.
pub const VIRTUAL_GROUP: u64 = 2;

/// The group an id belongs to: its high byte.
pub open spec fn group_of(id: u64) -> u64 {
    id / GROUP_DIVISOR
}

/// Whether an id lies in the virtual group.
pub open spec fn spec_is_virtual(id: u64) -> bool {
    group_of(id) == VIRTUAL_GROUP
}

/// Reports whether `id` lies in the virtual group.
pub fn is_virtual(id: u64) -> (r: bool)
    ensures
        r == spec_is_virtual(id),
{
    id / GROUP_DIVISOR == VIRTUAL_GROUP
}

/// The ASCII character for one nibble, lower case.
pub open spec fn hex_digit(n: u8) -> u8 {
    if n < 10 {
        (48 + n) as u8
    } else {
        (87 + n) as u8
    }
}

/// The lower-case hex encoding of a byte string: two characters per byte.
pub open spec fn hex_of(s: Seq<u8>) -> Seq<u8> {
    Seq::new(
        s.len() * 2,
        |i: int|
            if i % 2 == 0 {
                hex_digit(s[i / 2] / 16)
            } else {
                hex_digit(s[i / 2] % 16)
            },
    )
}

/// Hex-encodes a byte string, two lower-case digits per byte.
pub fn to_hex(b: &Vec<u8>) -> (r: Vec<u8>)
    ensures
        r@ == hex_of(b@),
{
    let mut r: Vec<u8> = Vec::new();
    let mut i: usize = 0;
    while i < b.len()
        invariant
            i <= b.len(),
            r@.len() == 2 * i,
            forall|j: int| 0 <= j < 2 * i ==> r@[j] == hex_of(b@)[j],
        decreases b.len() - i,
    {
        let x = b[i];
        let hi = x / 16;
        let lo = x % 16;
        r.push(if hi < 10 {
            48 + hi
        } else {
            87 + hi
        });
        r.push(if lo < 10 {
            48 + lo
        } else {
            87 + lo
        });
        i = i + 1;
    }
    proof {
        assert(r@ =~= hex_of(b@));
    }
    r
}

/// An ASCII lower-case hex digit.
pub open spec fn is_hex_digit(c: u8) -> bool {
    (48 <= c <= 57) || (97 <= c <= 102)
}

/// `name` (mapped to `id`) is found by hex prefix `prefix`: its hex
/// encoding starts with the prefix, and a virtual-group vertex requires a
/// full-length match.
pub open spec fn hex_matches(name: Seq<u8>, id: u64, prefix: Seq<u8>) -> bool {
    &&& bytes_prefix(prefix, hex_of(name))
    &&& (spec_is_virtual(id) ==> prefix.len() == 2 * name.len())
}

/// `names` are exactly the names of the ids of `m` lying in `low..=high`,
/// one per such id in strictly ascending id order; `ids` witnesses the
/// pairing.
pub open spec fn removed_range_names(
    m: Map<u64, Seq<u8>>,
    low: u64,
    high: u64,
    ids: Seq<u64>,
    names: Seq<Seq<u8>>,
) -> bool {
    &&& ids.len() == names.len()
    &&& forall|x: int, y: int| 0 <= x < y < ids.len() ==> ids[x] < ids[y]
    &&& forall|x: int|
        0 <= x < ids.len() ==> low <= #[trigger] ids[x] <= high && m.dom().contains(ids[x])
            && m[ids[x]] == names[x]
    &&& forall|id: u64| low <= id <= high && #[trigger] m.dom().contains(id) ==> ids.contains(id)
}

/// Errors of the id map.
#[derive(Clone, Copy, PartialEq, Eq, Structural, Debug)]
pub enum IdMapError {
    InvalidHexPrefix,
}

/// The core bidirectional map, free of any versioning concerns.
pub struct CoreMemIdMap {
    id2name: Vec<(u64, Vec<u8>)>,
    name2id: Vec<(Vec<u8>, u64)>,
}

impl CoreMemIdMap {
    /// The id-to-name direction.
    pub closed spec fn id_map(&self) -> Map<u64, Seq<u8>> {
        Map::new(
            |id: u64| exists|i: int| 0 <= i < self.id2name@.len() && self.id2name@[i].0 == id,
            |id: u64|
                self.id2name@[choose|i: int|
                    0 <= i < self.id2name@.len() && self.id2name@[i].0 == id].1@,
        )
    }

    /// The name-to-id direction.
    pub closed spec fn name_map(&self) -> Map<Seq<u8>, u64> {
        Map::new(
            |n: Seq<u8>| exists|i: int| 0 <= i < self.name2id@.len() && self.name2id@[i].0@ == n,
            |n: Seq<u8>|
                self.name2id@[choose|i: int|
                    0 <= i < self.name2id@.len() && self.name2id@[i].0@ == n].1,
        )
    }

    /// Keys are stored at most once in either direction.
    pub closed spec fn inv(&self) -> bool {
        &&& forall|i: int, j: int|
            0 <= i < j < self.id2name@.len() ==> (#[trigger] self.id2name@[i]).0 != (
            #[trigger] self.id2name@[j]).0
        &&& forall|i: int, j: int|
            0 <= i < j < self.name2id@.len() ==> (#[trigger] self.name2id@[i]).0@ != (
            #[trigger] self.name2id@[j]).0@
    }

    proof fn lemma_id_entry(&self, i: int)
        requires
            self.inv(),
            0 <= i < self.id2name@.len(),
        ensures
            self.id_map().dom().contains(self.id2name@[i].0),
            self.id_map()[self.id2name@[i].0] == self.id2name@[i].1@,
    {
        let id = self.id2name@[i].0;
        assert(self.id_map().dom().contains(id));
        let j = choose|j: int| 0 <= j < self.id2name@.len() && self.id2name@[j].0 == id;
        if i != j {
            if i < j {
                assert(self.id2name@[i].0 != self.id2name@[j].0);
            } else {
                assert(self.id2name@[j].0 != self.id2name@[i].0);
            }
        }
    }

    proof fn lemma_name_entry(&self, i: int)
        requires
            self.inv(),
            0 <= i < self.name2id@.len(),
        ensures
            self.name_map().dom().contains(self.name2id@[i].0@),
            self.name_map()[self.name2id@[i].0@] == self.name2id@[i].1,
    {
        let n = self.name2id@[i].0@;
        assert(self.name_map().dom().contains(n));
        let j = choose|j: int| 0 <= j < self.name2id@.len() && self.name2id@[j].0@ == n;
        if i != j {
            if i < j {
                assert(self.name2id@[i].0@ != self.name2id@[j].0@);
            } else {
                assert(self.name2id@[j].0@ != self.name2id@[i].0@);
            }
        }
    }

    /// An empty map in both directions.
    pub fn new() -> (r: CoreMemIdMap)
        ensures
            r.inv(),
            r.id_map() == Map::<u64, Seq<u8>>::empty(),
            r.name_map() == Map::<Seq<u8>, u64>::empty(),
    {
        let r = CoreMemIdMap { id2name: Vec::new(), name2id: Vec::new() };
        proof {
            assert(r.id_map() =~= Map::<u64, Seq<u8>>::empty());
            assert(r.name_map() =~= Map::<Seq<u8>, u64>::empty());
        }
        r
    }

    /// The id a name maps to, if any.
    pub fn lookup_vertex_id(&self, name: &Vec<u8>) -> (r: Option<u64>)
        requires
            self.inv(),
        ensures
            r == (if self.name_map().dom().contains(name@) {
                Some(self.name_map()[name@])
            } else {
                None::<u64>
            }),
    {
        let mut i: usize = 0;
        while i < self.name2id.len()
            invariant
                self.inv(),
                i <= self.name2id@.len(),
                forall|j: int| 0 <= j < i ==> (#[trigger] self.name2id@[j]).0@ != name@,
            decreases self.name2id@.len() - i,
        {
            if bytes_eq(&self.name2id[i].0, name) {
                proof {
                    self.lemma_name_entry(i as int);
                }
                return Some(self.name2id[i].1);
            }
            i = i + 1;
        }
        proof {
            if self.name_map().dom().contains(name@) {
                let j = choose|j: int|
                    0 <= j < self.name2id@.len() && self.name2id@[j].0@ == name@;
                assert(self.name2id@[j].0@ == name@);
            }
        }
        None
    }

    /// The name an id maps to, if any.
    pub fn lookup_vertex_name(&self, id: u64) -> (r: Option<Vec<u8>>)
        requires
            self.inv(),
        ensures
            match r {
                Some(v) => self.id_map().dom().contains(id) && v@ == self.id_map()[id],
                None => !self.id_map().dom().contains(id),
            },
    {
        let mut i: usize = 0;
        while i < self.id2name.len()
            invariant
                self.inv(),
                i <= self.id2name@.len(),
                forall|j: int| 0 <= j < i ==> (#[trigger] self.id2name@[j]).0 != id,
            decreases self.id2name@.len() - i,
        {
            if self.id2name[i].0 == id {
                proof {
                    self.lemma_id_entry(i as int);
                }
                return Some(clone_bytes(&self.id2name[i].1));
            }
            i = i + 1;
        }
        proof {
            if self.id_map().dom().contains(id) {
                let j = choose|j: int| 0 <= j < self.id2name@.len() && self.id2name@[j].0 == id;
                assert(self.id2name@[j].0 == id);
            }
        }
        None
    }

    /// Whether a name is present.
    pub fn has_vertex_name(&self, name: &Vec<u8>) -> (r: bool)
        requires
            self.inv(),
        ensures
            r == self.name_map().dom().contains(name@),
    {
        match self.lookup_vertex_id(name) {
            Some(_) => true,
            None => false,
        }
    }

    /// Whether an id is present.
    pub fn has_vertex_id(&self, id: u64) -> (r: bool)
        requires
            self.inv(),
        ensures
            r == self.id_map().dom().contains(id),
    {
        match self.lookup_vertex_name(id) {
            Some(_) => true,
            None => false,
        }
    }

    /// The index holding `id`, if any.
    fn find_id_index(&self, id: u64) -> (r: Option<usize>)
        ensures
            match r {
                Some(i) => (i as int) < self.id2name@.len() && self.id2name@[i as int].0 == id,
                None => forall|j: int|
                    0 <= j < self.id2name@.len() ==> (#[trigger] self.id2name@[j]).0 != id,
            },
    {
        let mut i: usize = 0;
        while i < self.id2name.len()
            invariant
                i <= self.id2name@.len(),
                forall|j: int| 0 <= j < i ==> (#[trigger] self.id2name@[j]).0 != id,
            decreases self.id2name@.len() - i,
        {
            if self.id2name[i].0 == id {
                return Some(i);
            }
            i = i + 1;
        }
        None
    }

    /// The index holding `name`, if any.
    fn find_name_index(&self, name: &Vec<u8>) -> (r: Option<usize>)
        ensures
            match r {
                Some(i) => (i as int) < self.name2id@.len() && self.name2id@[i as int].0@ == name@,
                None => forall|j: int|
                    0 <= j < self.name2id@.len() ==> (#[trigger] self.name2id@[j]).0@ != name@,
            },
    {
        let mut i: usize = 0;
        while i < self.name2id.len()
            invariant
                i <= self.name2id@.len(),
                forall|j: int| 0 <= j < i ==> (#[trigger] self.name2id@[j]).0@ != name@,
            decreases self.name2id@.len() - i,
        {
            if bytes_eq(&self.name2id[i].0, name) {
                return Some(i);
            }
            i = i + 1;
        }
        None
    }

    /// Maps `id` to `vertex_name` and `vertex_name` to `id`, replacing
    /// either direction's previous entry for those keys.
    pub fn insert_vertex_id_name(&mut self, id: u64, vertex_name: Vec<u8>)
        requires
            old(self).inv(),
        ensures
            final(self).inv(),
            final(self).id_map() == old(self).id_map().insert(id, vertex_name@),
            final(self).name_map() == old(self).name_map().insert(vertex_name@, id),
    {
        let name_copy = clone_bytes(&vertex_name);
        let ghost t0 = *self;
        match self.find_id_index(id) {
            Some(i) => {
                self.id2name.set(i, (id, name_copy));
                proof {
                    Self::lemma_id_column_update(t0, *self, i as int, id, vertex_name@);
                }
            },
            None => {
                self.id2name.push((id, name_copy));
                proof {
                    Self::lemma_id_column_append(t0, *self, id, vertex_name@);
                }
            },
        }
        let ghost t1 = *self;
        match self.find_name_index(&vertex_name) {
            Some(i) => {
                self.name2id.set(i, (vertex_name, id));
                proof {
                    Self::lemma_name_column_update(t1, *self, i as int, vertex_name@, id);
                    assert(self.id_map() == t1.id_map());
                }
            },
            None => {
                self.name2id.push((vertex_name, id));
                proof {
                    Self::lemma_name_column_append(t1, *self, vertex_name@, id);
                    assert(self.id_map() == t1.id_map());
                }
            },
        }
    }

    /// Replacing the entry at `i`, whose key is `id`, updates the id map
    /// at `id`.
    proof fn lemma_id_column_update(t0: CoreMemIdMap, t1: CoreMemIdMap, i: int, id: u64, nm: Seq<u8>)
        requires
            t0.inv(),
            0 <= i < t0.id2name@.len(),
            t0.id2name@[i].0 == id,
            t1.id2name@ == t0.id2name@.update(i, t1.id2name@[i]),
            t1.id2name@[i].0 == id,
            t1.id2name@[i].1@ == nm,
            t1.name2id@ == t0.name2id@,
        ensures
            t1.inv(),
            t1.id_map() == t0.id_map().insert(id, nm),
            t1.name_map() == t0.name_map(),
    {
        assert(t1.inv()) by {
            assert forall|a: int, b: int|
                0 <= a < b < t1.id2name@.len() implies (#[trigger] t1.id2name@[a]).0 != (
            #[trigger] t1.id2name@[b]).0 by {
                assert(t1.id2name@[a].0 == t0.id2name@[a].0);
                assert(t1.id2name@[b].0 == t0.id2name@[b].0);
            }
        }
        assert(t1.id_map() =~= t0.id_map().insert(id, nm)) by {
            assert forall|k: u64| t1.id_map().dom().contains(k) implies t0.id_map().insert(
                id,
                nm,
            ).dom().contains(k) by {
                if k != id {
                    let j = choose|j: int| 0 <= j < t1.id2name@.len() && t1.id2name@[j].0 == k;
                    assert(t0.id2name@[j].0 == k);
                }
            }
            assert forall|k: u64| t0.id_map().insert(id, nm).dom().contains(
                k,
            ) implies t1.id_map().dom().contains(k) by {
                if k == id {
                    assert(t1.id2name@[i].0 == id);
                } else {
                    let j = choose|j: int| 0 <= j < t0.id2name@.len() && t0.id2name@[j].0 == k;
                    assert(t1.id2name@[j].0 == k);
                }
            }
            assert forall|k: u64| t1.id_map().dom().contains(k) implies t1.id_map()[k]
                == t0.id_map().insert(id, nm)[k] by {
                let j = choose|j: int| 0 <= j < t1.id2name@.len() && t1.id2name@[j].0 == k;
                t1.lemma_id_entry(j);
                if k == id {
                    assert(j == i) by {
                        if j != i {
                            assert(t0.id2name@[j].0 == id);
                            assert(t0.id2name@[i].0 == id);
                            if j < i {
                                assert(t0.id2name@[j].0 != t0.id2name@[i].0);
                            } else {
                                assert(t0.id2name@[i].0 != t0.id2name@[j].0);
                            }
                        }
                    }
                } else {
                    assert(j != i);
                    assert(t1.id2name@[j] == t0.id2name@[j]);
                    t0.lemma_id_entry(j);
                }
            }
        }
        assert(t1.name_map() =~= t0.name_map());
    }

    /// Appending an entry for a fresh `id` inserts it into the id map.
    proof fn lemma_id_column_append(t0: CoreMemIdMap, t1: CoreMemIdMap, id: u64, nm: Seq<u8>)
        requires
            t0.inv(),
            forall|j: int| 0 <= j < t0.id2name@.len() ==> (#[trigger] t0.id2name@[j]).0 != id,
            t1.id2name@ == t0.id2name@.push(t1.id2name@[t0.id2name@.len() as int]),
            t1.id2name@[t0.id2name@.len() as int].0 == id,
            t1.id2name@[t0.id2name@.len() as int].1@ == nm,
            t1.name2id@ == t0.name2id@,
        ensures
            t1.inv(),
            t1.id_map() == t0.id_map().insert(id, nm),
            t1.name_map() == t0.name_map(),
    {
        let c = t0.id2name@.len() as int;
        assert(t1.inv()) by {
            assert forall|a: int, b: int|
                0 <= a < b < t1.id2name@.len() implies (#[trigger] t1.id2name@[a]).0 != (
            #[trigger] t1.id2name@[b]).0 by {
                if b == c {
                    assert(t1.id2name@[a].0 == t0.id2name@[a].0);
                } else {
                    assert(t1.id2name@[a].0 == t0.id2name@[a].0);
                    assert(t1.id2name@[b].0 == t0.id2name@[b].0);
                }
            }
        }
        assert(t1.id_map() =~= t0.id_map().insert(id, nm)) by {
            assert forall|k: u64| t1.id_map().dom().contains(k) implies t0.id_map().insert(
                id,
                nm,
            ).dom().contains(k) by {
                let j = choose|j: int| 0 <= j < t1.id2name@.len() && t1.id2name@[j].0 == k;
                if j < c {
                    assert(t0.id2name@[j].0 == k);
                }
            }
            assert forall|k: u64| t0.id_map().insert(id, nm).dom().contains(
                k,
            ) implies t1.id_map().dom().contains(k) by {
                if k == id {
                    assert(t1.id2name@[c].0 == id);
                } else {
                    let j = choose|j: int| 0 <= j < t0.id2name@.len() && t0.id2name@[j].0 == k;
                    assert(t1.id2name@[j].0 == k);
                }
            }
            assert forall|k: u64| t1.id_map().dom().contains(k) implies t1.id_map()[k]
                == t0.id_map().insert(id, nm)[k] by {
                let j = choose|j: int| 0 <= j < t1.id2name@.len() && t1.id2name@[j].0 == k;
                t1.lemma_id_entry(j);
                if k == id {
                    if j < c {
                        assert(t0.id2name@[j].0 == id);
                        assert(false);
                    }
                } else {
                    assert(j < c);
                    assert(t1.id2name@[j] == t0.id2name@[j]);
                    t0.lemma_id_entry(j);
                }
            }
        }
        assert(t1.name_map() =~= t0.name_map());
    }

    /// Replacing the entry at `i`, whose key is `nm`, updates the name map
    /// at `nm`.
    proof fn lemma_name_column_update(t0: CoreMemIdMap, t1: CoreMemIdMap, i: int, nm: Seq<u8>, id: u64)
        requires
            t0.inv(),
            0 <= i < t0.name2id@.len(),
            t0.name2id@[i].0@ == nm,
            t1.name2id@ == t0.name2id@.update(i, t1.name2id@[i]),
            t1.name2id@[i].0@ == nm,
            t1.name2id@[i].1 == id,
            t1.id2name@ == t0.id2name@,
        ensures
            t1.inv(),
            t1.name_map() == t0.name_map().insert(nm, id),
            t1.id_map() == t0.id_map(),
    {
        assert(t1.inv()) by {
            assert forall|a: int, b: int|
                0 <= a < b < t1.name2id@.len() implies (#[trigger] t1.name2id@[a]).0@ != (
            #[trigger] t1.name2id@[b]).0@ by {
                assert(t1.name2id@[a].0@ == t0.name2id@[a].0@);
                assert(t1.name2id@[b].0@ == t0.name2id@[b].0@);
            }
        }
        assert(t1.name_map() =~= t0.name_map().insert(nm, id)) by {
            assert forall|k: Seq<u8>| t1.name_map().dom().contains(k) implies t0.name_map().insert(
                nm,
                id,
            ).dom().contains(k) by {
                if k != nm {
                    let j = choose|j: int| 0 <= j < t1.name2id@.len() && t1.name2id@[j].0@ == k;
                    assert(t0.name2id@[j].0@ == k);
                }
            }
            assert forall|k: Seq<u8>| t0.name_map().insert(nm, id).dom().contains(
                k,
            ) implies t1.name_map().dom().contains(k) by {
                if k == nm {
                    assert(t1.name2id@[i].0@ == nm);
                } else {
                    let j = choose|j: int| 0 <= j < t0.name2id@.len() && t0.name2id@[j].0@ == k;
                    assert(t1.name2id@[j].0@ == k);
                }
            }
            assert forall|k: Seq<u8>| t1.name_map().dom().contains(k) implies t1.name_map()[k]
                == t0.name_map().insert(nm, id)[k] by {
                let j = choose|j: int| 0 <= j < t1.name2id@.len() && t1.name2id@[j].0@ == k;
                t1.lemma_name_entry(j);
                if k == nm {
                    assert(j == i) by {
                        if j != i {
                            assert(t0.name2id@[j].0@ == nm);
                            assert(t0.name2id@[i].0@ == nm);
                            if j < i {
                                assert(t0.name2id@[j].0@ != t0.name2id@[i].0@);
                            } else {
                                assert(t0.name2id@[i].0@ != t0.name2id@[j].0@);
                            }
                        }
                    }
                } else {
                    assert(j != i);
                    assert(t1.name2id@[j] == t0.name2id@[j]);
                    t0.lemma_name_entry(j);
                }
            }
        }
        assert(t1.id_map() =~= t0.id_map());
    }

    /// Appending an entry for a fresh name inserts it into the name map.
    proof fn lemma_name_column_append(t0: CoreMemIdMap, t1: CoreMemIdMap, nm: Seq<u8>, id: u64)
        requires
            t0.inv(),
            forall|j: int| 0 <= j < t0.name2id@.len() ==> (#[trigger] t0.name2id@[j]).0@ != nm,
            t1.name2id@ == t0.name2id@.push(t1.name2id@[t0.name2id@.len() as int]),
            t1.name2id@[t0.name2id@.len() as int].0@ == nm,
            t1.name2id@[t0.name2id@.len() as int].1 == id,
            t1.id2name@ == t0.id2name@,
        ensures
            t1.inv(),
            t1.name_map() == t0.name_map().insert(nm, id),
            t1.id_map() == t0.id_map(),
    {
        let c = t0.name2id@.len() as int;
        assert(t1.inv()) by {
            assert forall|a: int, b: int|
                0 <= a < b < t1.name2id@.len() implies (#[trigger] t1.name2id@[a]).0@ != (
            #[trigger] t1.name2id@[b]).0@ by {
                if b == c {
                    assert(t1.name2id@[a].0@ == t0.name2id@[a].0@);
                } else {
                    assert(t1.name2id@[a].0@ == t0.name2id@[a].0@);
                    assert(t1.name2id@[b].0@ == t0.name2id@[b].0@);
                }
            }
        }
        assert(t1.name_map() =~= t0.name_map().insert(nm, id)) by {
            assert forall|k: Seq<u8>| t1.name_map().dom().contains(k) implies t0.name_map().insert(
                nm,
                id,
            ).dom().contains(k) by {
                let j = choose|j: int| 0 <= j < t1.name2id@.len() && t1.name2id@[j].0@ == k;
                if j < c {
                    assert(t0.name2id@[j].0@ == k);
                }
            }
            assert forall|k: Seq<u8>| t0.name_map().insert(nm, id).dom().contains(
                k,
            ) implies t1.name_map().dom().contains(k) by {
                if k == nm {
                    assert(t1.name2id@[c].0@ == nm);
                } else {
                    let j = choose|j: int| 0 <= j < t0.name2id@.len() && t0.name2id@[j].0@ == k;
                    assert(t1.name2id@[j].0@ == k);
                }
            }
            assert forall|k: Seq<u8>| t1.name_map().dom().contains(k) implies t1.name_map()[k]
                == t0.name_map().insert(nm, id)[k] by {
                let j = choose|j: int| 0 <= j < t1.name2id@.len() && t1.name2id@[j].0@ == k;
                t1.lemma_name_entry(j);
                if k == nm {
                    if j < c {
                        assert(t0.name2id@[j].0@ == nm);
                        assert(false);
                    }
                } else {
                    assert(j < c);
                    assert(t1.name2id@[j] == t0.name2id@[j]);
                    t0.lemma_name_entry(j);
                }
            }
        }
        assert(t1.id_map() =~= t0.id_map());
    }

    /// All (id, name) pairs with `low <= id <= high`, complete and in
    /// strictly ascending id order.
    pub fn lookup_range(&self, low: u64, high: u64) -> (r: Vec<(u64, Vec<u8>)>)
        requires
            self.inv(),
        ensures
            forall|i: int|
                0 <= i < r@.len() ==> low <= (#[trigger] r@[i]).0 <= high && self.id_map().dom().contains(
                    r@[i].0,
                ) && r@[i].1@ == self.id_map()[r@[i].0],
            forall|id: u64|
                low <= id <= high && #[trigger] self.id_map().dom().contains(id) ==> exists|i: int|
                    0 <= i < r@.len() && (#[trigger] r@[i]).0 == id,
            forall|i: int, j: int| 0 <= i < j < r@.len() ==> (#[trigger] r@[i]).0 < (#[trigger] r@[j]).0,
    {
        let mut r: Vec<(u64, Vec<u8>)> = Vec::new();
        let mut lo = low;
        let mut cont = true;
        while cont
            invariant
                self.inv(),
                lo >= low,
                forall|x: int|
                    0 <= x < r@.len() ==> low <= (#[trigger] r@[x]).0 <= high
                        && self.id_map().dom().contains(r@[x].0) && r@[x].1@ == self.id_map()[r@[x].0],
                forall|x: int, y: int|
                    0 <= x < y < r@.len() ==> (#[trigger] r@[x]).0 < (#[trigger] r@[y]).0,
                cont ==> forall|x: int| 0 <= x < r@.len() ==> (#[trigger] r@[x]).0 < lo,
                forall|id: u64|
                    low <= id <= high && #[trigger] self.id_map().dom().contains(id) && (!cont || id
                        < lo) ==> exists|x: int| 0 <= x < r@.len() && (#[trigger] r@[x]).0 == id,
            decreases (if cont && lo <= high {
                high - lo + 1
            } else {
                0int
            }) + (if cont {
                1int
            } else {
                0int
            }),
        {
            let ghost r_old = r@;
            let ghost lo_old = lo;
            match self.find_id_in_range(lo, high) {
                Some(i) => {
                    let id = self.id2name[i].0;
                    proof {
                        self.lemma_id_entry(i as int);
                    }
                    let name = clone_bytes(&self.id2name[i].1);
                    r.push((id, name));
                    proof {
                        assert forall|id2: u64|
                            low <= id2 <= high && #[trigger] self.id_map().dom().contains(id2)
                                && id2 < id + 1 implies exists|x: int|
                            0 <= x < r@.len() && (#[trigger] r@[x]).0 == id2 by {
                            if id2 < lo_old {
                                let x = choose|x: int|
                                    0 <= x < r_old.len() && (#[trigger] r_old[x]).0 == id2;
                                assert(r@[x].0 == id2);
                            } else if id2 == id {
                                assert(r@[r@.len() - 1].0 == id2);
                            } else {
                                // No in-range id lies strictly between lo and the minimum.
                                let j = choose|j: int|
                                    0 <= j < self.id2name@.len() && self.id2name@[j].0 == id2;
                                assert(lo_old <= self.id2name@[j].0 <= high);
                                assert(false);
                            }
                        }
                    }
                    if id >= high {
                        cont = false;
                        proof {
                            assert forall|id2: u64|
                                low <= id2 <= high && #[trigger] self.id_map().dom().contains(
                                id2,
                            ) implies exists|x: int|
                                0 <= x < r@.len() && (#[trigger] r@[x]).0 == id2 by {
                                assert(id2 < id + 1);
                            }
                        }
                    } else {
                        lo = id + 1;
                    }
                },
                None => {
                    cont = false;
                    proof {
                        assert forall|id2: u64|
                            low <= id2 <= high && #[trigger] self.id_map().dom().contains(
                            id2,
                        ) implies exists|x: int|
                            0 <= x < r@.len() && (#[trigger] r@[x]).0 == id2 by {
                            if id2 >= lo_old {
                                let j = choose|j: int|
                                    0 <= j < self.id2name@.len() && self.id2name@[j].0 == id2;
                                assert(!(lo_old <= self.id2name@[j].0 <= high));
                                assert(false);
                            }
                            let x = choose|x: int|
                                0 <= x < r_old.len() && (#[trigger] r_old[x]).0 == id2;
                            assert(r@[x].0 == id2);
                        }
                    }
                },
            }
        }
        r
    }

    /// The index holding the smallest id in `low..=high`, if any.
    fn find_id_in_range(&self, low: u64, high: u64) -> (r: Option<usize>)
        ensures
            match r {
                Some(i) => (i as int) < self.id2name@.len() && low <= self.id2name@[i as int].0
                    <= high && forall|j: int|
                    0 <= j < self.id2name@.len() && low <= (#[trigger] self.id2name@[j]).0 <= high
                        ==> self.id2name@[i as int].0 <= self.id2name@[j].0,
                None => forall|j: int|
                    0 <= j < self.id2name@.len() ==> !(low <= (#[trigger] self.id2name@[j]).0
                        <= high),
            },
    {
        let mut best: Option<usize> = None;
        let mut i: usize = 0;
        while i < self.id2name.len()
            invariant
                i <= self.id2name@.len(),
                match best {
                    Some(b) => (b as int) < i && low <= self.id2name@[b as int].0 <= high
                        && forall|j: int|
                        0 <= j < i && low <= (#[trigger] self.id2name@[j]).0 <= high
                            ==> self.id2name@[b as int].0 <= self.id2name@[j].0,
                    None => forall|j: int|
                        0 <= j < i ==> !(low <= (#[trigger] self.id2name@[j]).0 <= high),
                },
            decreases self.id2name@.len() - i,
        {
            let id = self.id2name[i].0;
            if low <= id && id <= high {
                match best {
                    None => {
                        best = Some(i);
                    },
                    Some(b) => {
                        if id < self.id2name[b].0 {
                            best = Some(i);
                        }
                    },
                }
            }
            i = i + 1;
        }
        best
    }

    /// Dropping the id entry at `i` removes its key from the id map.
    proof fn lemma_id_column_remove(t0: CoreMemIdMap, t1: CoreMemIdMap, i: int)
        requires
            t0.inv(),
            0 <= i < t0.id2name@.len(),
            t1.id2name@ == t0.id2name@.remove(i),
            t1.name2id@ == t0.name2id@,
        ensures
            t1.inv(),
            t1.id_map() == t0.id_map().remove(t0.id2name@[i].0),
            t1.name_map() == t0.name_map(),
    {
        let key = t0.id2name@[i].0;
        assert(t1.inv()) by {
            assert forall|a: int, b: int|
                0 <= a < b < t1.id2name@.len() implies (#[trigger] t1.id2name@[a]).0 != (
            #[trigger] t1.id2name@[b]).0 by {
                let a0 = if a < i { a } else { a + 1 };
                let b0 = if b < i { b } else { b + 1 };
                assert(t1.id2name@[a] == t0.id2name@[a0]);
                assert(t1.id2name@[b] == t0.id2name@[b0]);
            }
        }
        assert(t1.id_map() =~= t0.id_map().remove(key)) by {
            assert forall|k: u64| t1.id_map().dom().contains(k) implies t0.id_map().remove(
                key,
            ).dom().contains(k) by {
                let a = choose|a: int| 0 <= a < t1.id2name@.len() && t1.id2name@[a].0 == k;
                let a0 = if a < i { a } else { a + 1 };
                assert(t1.id2name@[a] == t0.id2name@[a0]);
                assert(k != key) by {
                    if a0 < i {
                        assert(t0.id2name@[a0].0 != t0.id2name@[i].0);
                    } else {
                        assert(t0.id2name@[i].0 != t0.id2name@[a0].0);
                    }
                }
            }
            assert forall|k: u64| t0.id_map().remove(key).dom().contains(
                k,
            ) implies t1.id_map().dom().contains(k) by {
                let a0 = choose|a0: int| 0 <= a0 < t0.id2name@.len() && t0.id2name@[a0].0 == k;
                assert(a0 != i);
                let a = if a0 < i { a0 } else { a0 - 1 };
                assert(t1.id2name@[a] == t0.id2name@[a0]);
            }
            assert forall|k: u64| t1.id_map().dom().contains(k) implies t1.id_map()[k]
                == t0.id_map().remove(key)[k] by {
                let a = choose|a: int| 0 <= a < t1.id2name@.len() && t1.id2name@[a].0 == k;
                t1.lemma_id_entry(a);
                let a0 = if a < i { a } else { a + 1 };
                assert(t1.id2name@[a] == t0.id2name@[a0]);
                t0.lemma_id_entry(a0);
            }
        }
        assert(t1.name_map() =~= t0.name_map());
    }

    /// Dropping the name entry at `i` removes its key from the name map.
    proof fn lemma_name_column_remove(t0: CoreMemIdMap, t1: CoreMemIdMap, i: int)
        requires
            t0.inv(),
            0 <= i < t0.name2id@.len(),
            t1.name2id@ == t0.name2id@.remove(i),
            t1.id2name@ == t0.id2name@,
        ensures
            t1.inv(),
            t1.name_map() == t0.name_map().remove(t0.name2id@[i].0@),
            t1.id_map() == t0.id_map(),
    {
        let key = t0.name2id@[i].0@;
        assert(t1.inv()) by {
            assert forall|a: int, b: int|
                0 <= a < b < t1.name2id@.len() implies (#[trigger] t1.name2id@[a]).0@ != (
            #[trigger] t1.name2id@[b]).0@ by {
                let a0 = if a < i { a } else { a + 1 };
                let b0 = if b < i { b } else { b + 1 };
                assert(t1.name2id@[a] == t0.name2id@[a0]);
                assert(t1.name2id@[b] == t0.name2id@[b0]);
            }
        }
        assert(t1.name_map() =~= t0.name_map().remove(key)) by {
            assert forall|k: Seq<u8>| t1.name_map().dom().contains(k) implies t0.name_map().remove(
                key,
            ).dom().contains(k) by {
                let a = choose|a: int| 0 <= a < t1.name2id@.len() && t1.name2id@[a].0@ == k;
                let a0 = if a < i { a } else { a + 1 };
                assert(t1.name2id@[a] == t0.name2id@[a0]);
                assert(k != key) by {
                    if a0 < i {
                        assert(t0.name2id@[a0].0@ != t0.name2id@[i].0@);
                    } else {
                        assert(t0.name2id@[i].0@ != t0.name2id@[a0].0@);
                    }
                }
            }
            assert forall|k: Seq<u8>| t0.name_map().remove(key).dom().contains(
                k,
            ) implies t1.name_map().dom().contains(k) by {
                let a0 = choose|a0: int| 0 <= a0 < t0.name2id@.len() && t0.name2id@[a0].0@ == k;
                assert(a0 != i);
                let a = if a0 < i { a0 } else { a0 - 1 };
                assert(t1.name2id@[a] == t0.name2id@[a0]);
            }
            assert forall|k: Seq<u8>| t1.name_map().dom().contains(k) implies t1.name_map()[k]
                == t0.name_map().remove(key)[k] by {
                let a = choose|a: int| 0 <= a < t1.name2id@.len() && t1.name2id@[a].0@ == k;
                t1.lemma_name_entry(a);
                let a0 = if a < i { a } else { a + 1 };
                assert(t1.name2id@[a] == t0.name2id@[a0]);
                t0.lemma_name_entry(a0);
            }
        }
        assert(t1.id_map() =~= t0.id_map());
    }

    /// Removes every id in `low..=high` together with the names they map
    /// to, and returns those names in ascending order of their former ids.
    pub fn remove_range(&mut self, low: u64, high: u64) -> (r: Result<Vec<Vec<u8>>, IdMapError>)
        requires
            old(self).inv(),
        ensures
            final(self).inv(),
            match r {
                Ok(names) => exists|ids: Seq<u64>|
                    removed_range_names(old(self).id_map(), low, high, ids, names.deep_view()),
                Err(_) => false,
            },
            final(self).id_map().dom() == old(self).id_map().dom().difference(
                Set::new(|id: u64| low <= id <= high),
            ),
            forall|id: u64|
                #[trigger] final(self).id_map().dom().contains(id) ==> final(self).id_map()[id]
                    == old(self).id_map()[id],
            forall|id: u64|
                low <= id <= high && #[trigger] old(self).id_map().dom().contains(id)
                    ==> !final(self).name_map().dom().contains(old(self).id_map()[id]),
            final(self).name_map().dom().subset_of(old(self).name_map().dom()),
            forall|n: Seq<u8>|
                #[trigger] final(self).name_map().dom().contains(n) ==> final(self).name_map()[n]
                    == old(self).name_map()[n],
    {
        let ghost t0 = *self;
        let mut names: Vec<Vec<u8>> = Vec::new();
        let ghost mut ids: Seq<u64> = Seq::empty();
        let mut cont = true;
        while cont
            invariant
                self.inv(),
                self.id_map().dom().subset_of(t0.id_map().dom()),
                forall|id: u64|
                    #[trigger] self.id_map().dom().contains(id) ==> self.id_map()[id]
                        == t0.id_map()[id],
                forall|id: u64|
                    #[trigger] t0.id_map().dom().contains(id) && !(low <= id <= high)
                        ==> self.id_map().dom().contains(id),
                self.name_map().dom().subset_of(t0.name_map().dom()),
                forall|n: Seq<u8>|
                    #[trigger] self.name_map().dom().contains(n) ==> self.name_map()[n]
                        == t0.name_map()[n],
                ids.len() == names@.len(),
                forall|x: int, y: int| 0 <= x < y < ids.len() ==> ids[x] < ids[y],
                forall|x: int|
                    0 <= x < ids.len() ==> low <= #[trigger] ids[x] <= high
                        && t0.id_map().dom().contains(ids[x]) && t0.id_map()[ids[x]]
                        == names@[x]@,
                forall|x: int| 0 <= x < ids.len() ==> !self.id_map().dom().contains(#[trigger] ids[x]),
                forall|x: int|
                    0 <= x < names@.len() ==> !self.name_map().dom().contains(
                        (#[trigger] names@[x])@,
                    ),
                forall|id: u64|
                    low <= id <= high && #[trigger] t0.id_map().dom().contains(id) ==> ids.contains(
                        id,
                    ) || self.id_map().dom().contains(id),
                forall|id: u64, x: int|
                    #[trigger] self.id_map().dom().contains(id) && low <= id <= high && 0 <= x
                        < ids.len() ==> #[trigger] ids[x] < id,
                !cont ==> forall|j: int|
                    0 <= j < self.id2name@.len() ==> !(low <= (#[trigger] self.id2name@[j]).0
                        <= high),
                !cont ==> forall|id: u64|
                    #[trigger] self.id_map().dom().contains(id) ==> !(low <= id <= high),
            decreases self.id2name@.len() + (if cont {
                1int
            } else {
                0int
            }),
        {
            match self.find_id_in_range(low, high) {
                Some(i) => {
                    let ghost tc = *self;
                    let id = self.id2name[i].0;
                    let name = clone_bytes(&self.id2name[i].1);
                    self.id2name.remove(i);
                    proof {
                        Self::lemma_id_column_remove(tc, *self, i as int);
                        tc.lemma_id_entry(i as int);
                        assert(t0.id_map().dom().contains(id) && t0.id_map()[id] == name@);
                    }
                    let ghost tm = *self;
                    let mut name_present = false;
                    match self.find_name_index(&name) {
                        Some(k) => {
                            proof {
                                assert(tm.name2id@[k as int].0@ == name@);
                            }
                            self.name2id.remove(k);
                            name_present = true;
                            proof {
                                Self::lemma_name_column_remove(tm, *self, k as int);
                            }
                        },
                        None => {},
                    }
                    proof {
                        assert(!self.name_map().dom().contains(name@)) by {
                            if !name_present {
                                if self.name_map().dom().contains(name@) {
                                    let j = choose|j: int|
                                        0 <= j < self.name2id@.len() && self.name2id@[j].0@
                                            == name@;
                                }
                            }
                        }
                    }
                    let ghost ids_old = ids;
                    proof {
                        ids = ids.push(id);
                    }
                    names.push(name);
                    proof {
                        assert forall|id2: u64|
                            low <= id2 <= high && #[trigger] t0.id_map().dom().contains(
                            id2,
                        ) implies ids.contains(id2) || self.id_map().dom().contains(id2) by {
                            if id2 == id {
                                assert(ids[ids.len() - 1] == id2);
                            } else {
                                if tc.id_map().dom().contains(id2) {
                                    assert(self.id_map() == tc.id_map().remove(id));
                                } else {
                                    assert(ids_old.contains(id2) || tc.id_map().dom().contains(
                                        id2,
                                    ));
                                    let x = choose|x: int|
                                        0 <= x < ids_old.len() && ids_old[x] == id2;
                                    assert(ids[x] == id2);
                                }
                            }
                        }
                        assert forall|id2: u64, x: int|
                            #[trigger] self.id_map().dom().contains(id2) && low <= id2 <= high && 0
                                <= x < ids.len() implies #[trigger] ids[x] < id2 by {
                            assert(tc.id_map().dom().contains(id2));
                            assert(id2 != id);
                            let j = choose|j: int|
                                0 <= j < tc.id2name@.len() && tc.id2name@[j].0 == id2;
                            assert(tc.id2name@[i as int].0 <= tc.id2name@[j].0);
                            if x < ids.len() - 1 {
                                assert(ids[x] < id);
                            } else {
                                assert(ids[x] == id);
                            }
                        }
                    }
                },
                None => {
                    proof {
                        assert forall|id: u64| #[trigger] self.id_map().dom().contains(
                            id,
                        ) implies !(low <= id <= high) by {
                            let j = choose|j: int|
                                0 <= j < self.id2name@.len() && self.id2name@[j].0 == id;
                        }
                    }
                    cont = false;
                },
            }
        }
        proof {
            assert(self.id_map().dom() =~= t0.id_map().dom().difference(
                Set::new(|id: u64| low <= id <= high),
            ));
            assert(removed_range_names(t0.id_map(), low, high, ids, names.deep_view())) by {
                assert forall|x: int| 0 <= x < names@.len() implies names.deep_view()[x] == (
                #[trigger] names@[x])@ by {
                    crate::bytepath::lemma_path_deep_view(names, x);
                }
                assert forall|id: u64|
                    low <= id <= high && #[trigger] t0.id_map().dom().contains(
                    id,
                ) implies ids.contains(id) by {
                    if self.id_map().dom().contains(id) {
                        assert(false);
                    }
                }
            }
            assert forall|id: u64|
                low <= id <= high && #[trigger] t0.id_map().dom().contains(
                id,
            ) implies !self.name_map().dom().contains(t0.id_map()[id]) by {
                assert(ids.contains(id));
                let x = choose|x: int| 0 <= x < ids.len() && ids[x] == id;
                assert(t0.id_map()[ids[x]] == names@[x]@);
                assert(!self.name_map().dom().contains(names@[x]@));
            }
            assert(removed_range_names(old(self).id_map(), low, high, ids, names.deep_view()));
        }
        let result: Result<Vec<Vec<u8>>, IdMapError> = Ok(names);
        proof {
            match &result {
                Ok(ns) => {
                    assert(exists|s: Seq<u64>|
                        removed_range_names(old(self).id_map(), low, high, s, ns.deep_view())) by {
                        assert(removed_range_names(
                            old(self).id_map(),
                            low,
                            high,
                            ids,
                            ns.deep_view(),
                        ));
                    }
                },
                Err(_) => {},
            }
        }
        result
    }

    /// Up to `limit` vertexes whose hex-encoded name starts with
    /// `hex_prefix`; a vertex in the virtual group is only returned on a
    /// full-length match. A prefix holding anything but lower-case hex
    /// digits is rejected.
    pub fn lookup_vertexes_by_hex_prefix(&self, hex_prefix: &Vec<u8>, limit: usize) -> (r: Result<
        Vec<Vec<u8>>,
        IdMapError,
    >)
        requires
            self.inv(),
        ensures
            match r {
                Ok(res) => {
                    &&& forall|c: int| 0 <= c < hex_prefix@.len() ==> is_hex_digit(#[trigger] hex_prefix@[c])
                    &&& res@.len() <= limit
                    &&& forall|x: int|
                        0 <= x < res@.len() ==> #[trigger] self.name_map().dom().contains(res@[x]@)
                            && hex_matches(res@[x]@, self.name_map()[res@[x]@], hex_prefix@)
                    &&& res@.len() < limit ==> forall|n: Seq<u8>|
                        #[trigger] self.name_map().dom().contains(n) && hex_matches(
                            n,
                            self.name_map()[n],
                            hex_prefix@,
                        ) ==> exists|x: int| 0 <= x < res@.len() && res@[x]@ == n
                    &&& forall|x: int, y: int|
                        0 <= x < y < res@.len() ==> (#[trigger] res@[x])@ != (#[trigger] res@[y])@
                },
                Err(e) => e == IdMapError::InvalidHexPrefix && exists|c: int|
                    0 <= c < hex_prefix@.len() && !is_hex_digit(#[trigger] hex_prefix@[c]),
            },
    {
        let mut c: usize = 0;
        while c < hex_prefix.len()
            invariant
                c <= hex_prefix@.len(),
                forall|j: int| 0 <= j < c ==> is_hex_digit(#[trigger] hex_prefix@[j]),
            decreases hex_prefix@.len() - c,
        {
            let ch = hex_prefix[c];
            if !((48 <= ch && ch <= 57) || (97 <= ch && ch <= 102)) {
                return Err(IdMapError::InvalidHexPrefix);
            }
            c = c + 1;
        }
        let mut res: Vec<Vec<u8>> = Vec::new();
        let mut i: usize = 0;
        while i < self.name2id.len()
            invariant
                self.inv(),
                i <= self.name2id@.len(),
                res@.len() <= limit,
                forall|x: int|
                    0 <= x < res@.len() ==> #[trigger] self.name_map().dom().contains(res@[x]@)
                        && hex_matches(res@[x]@, self.name_map()[res@[x]@], hex_prefix@),
                forall|j: int|
                    0 <= j < i && #[trigger] hex_matches(
                        self.name2id@[j].0@,
                        self.name2id@[j].1,
                        hex_prefix@,
                    ) ==> exists|x: int| 0 <= x < res@.len() && (#[trigger] res@[x])@
                        == self.name2id@[j].0@,
                forall|x: int|
                    0 <= x < res@.len() ==> exists|j: int|
                        0 <= j < i && (#[trigger] self.name2id@[j]).0@ == (#[trigger] res@[x])@,
                forall|x: int, y: int|
                    0 <= x < y < res@.len() ==> (#[trigger] res@[x])@ != (#[trigger] res@[y])@,
            decreases self.name2id@.len() - i,
        {
            let hex = to_hex(&self.name2id[i].0);
            let mut matched = bytes_starts_with(&hex, hex_prefix);
            if matched && is_virtual(self.name2id[i].1) {
                if hex_prefix.len() != hex.len() {
                    matched = false;
                    proof {
                        assert(hex@.len() == 2 * self.name2id@[i as int].0@.len());
                        assert(!hex_matches(
                            self.name2id@[i as int].0@,
                            self.name2id@[i as int].1,
                            hex_prefix@,
                        ));
                    }
                }
            }
            if matched {
                proof {
                    self.lemma_name_entry(i as int);
                    assert(hex@.len() == 2 * self.name2id@[i as int].0@.len());
                    assert(hex_matches(
                        self.name2id@[i as int].0@,
                        self.name2id@[i as int].1,
                        hex_prefix@,
                    ));
                }
                if res.len() >= limit {
                    return Ok(res);
                }
                let ghost res_old = res@;
                res.push(clone_bytes(&self.name2id[i].0));
                proof {
                    assert((res@[res@.len() - 1])@ == self.name2id@[i as int].0@);
                    assert forall|x: int| 0 <= x < res@.len() implies exists|j: int|
                        0 <= j < i + 1 && (#[trigger] self.name2id@[j]).0@ == (
                        #[trigger] res@[x])@ by {
                        if x < res_old.len() {
                            let j = choose|j: int|
                                0 <= j < i && (#[trigger] self.name2id@[j]).0@ == (res_old[x])@;
                            assert(res@[x] == res_old[x]);
                            assert(self.name2id@[j].0@ == res@[x]@);
                        } else {
                            assert(self.name2id@[i as int].0@ == res@[x]@);
                        }
                    }
                    assert forall|x: int, y: int|
                        0 <= x < y < res@.len() implies (#[trigger] res@[x])@ != (
                    #[trigger] res@[y])@ by {
                        if y == res_old.len() {
                            let j = choose|j: int|
                                0 <= j < i && (#[trigger] self.name2id@[j]).0@ == (res_old[x])@;
                            assert(res@[x] == res_old[x]);
                            if res@[x]@ == res@[y]@ {
                                assert(self.name2id@[j].0@ == self.name2id@[i as int].0@);
                            }
                        } else {
                            assert(res@[x] == res_old[x]);
                            assert(res@[y] == res_old[y]);
                        }
                    }
                    assert forall|j: int|
                        0 <= j < i + 1 && #[trigger] hex_matches(
                            self.name2id@[j].0@,
                            self.name2id@[j].1,
                            hex_prefix@,
                        ) implies exists|x: int|
                        0 <= x < res@.len() && (#[trigger] res@[x])@ == self.name2id@[j].0@ by {
                        if j < i {
                            let x = choose|x: int|
                                0 <= x < res_old.len() && (#[trigger] res_old[x])@
                                    == self.name2id@[j].0@;
                            assert((res@[x])@ == self.name2id@[j].0@);
                        }
                    }
                }
            } else {
                proof {
                    assert(!hex_matches(
                        self.name2id@[i as int].0@,
                        self.name2id@[i as int].1,
                        hex_prefix@,
                    ));
                }
            }
            proof {
                assert forall|x: int| 0 <= x < res@.len() implies exists|j: int|
                    0 <= j < i + 1 && (#[trigger] self.name2id@[j]).0@ == (#[trigger] res@[x])@ by {
                    let j = choose|j: int|
                        0 <= j < i + 1 && (#[trigger] self.name2id@[j]).0@ == (res@[x])@;
                    assert(self.name2id@[j].0@ == res@[x]@);
                }
            }
            i = i + 1;
        }
        proof {
            if res@.len() < limit {
                assert forall|n: Seq<u8>|
                    #[trigger] self.name_map().dom().contains(n) && hex_matches(
                        n,
                        self.name_map()[n],
                        hex_prefix@,
                    ) implies exists|x: int| 0 <= x < res@.len() && res@[x]@ == n by {
                    let j = choose|j: int|
                        0 <= j < self.name2id@.len() && self.name2id@[j].0@ == n;
                    self.lemma_name_entry(j);
                    assert(hex_matches(self.name2id@[j].0@, self.name2id@[j].1, hex_prefix@));
                }
            }
        }
        Ok(res)
    }
}

/// The in-memory id map: the core map, ready to be wrapped with whatever
/// versioning a caller keeps.
pub struct MemIdMap {
    inner: CoreMemIdMap,
}

impl MemIdMap {
    /// Creates an empty map.
    pub fn new() -> (r: MemIdMap)
        ensures
            r.core_view().inv(),
            r.core_view().id_map() == Map::<u64, Seq<u8>>::empty(),
            r.core_view().name_map() == Map::<Seq<u8>, u64>::empty(),
    {
        MemIdMap { inner: CoreMemIdMap::new() }
    }

    /// The core as a spec-level value.
    pub closed spec fn core_view(&self) -> CoreMemIdMap {
        self.inner
    }

    /// The core bidirectional map.
    pub fn core_map(&self) -> (r: &CoreMemIdMap)
        ensures
            *r == self.core_view(),
    {
        &self.inner
    }

    /// Maps `id` to `name` in both directions.
    pub fn insert(&mut self, id: u64, name: Vec<u8>)
        requires
            old(self).core_view().inv(),
        ensures
            final(self).core_view().inv(),
            final(self).core_view().id_map() == old(self).core_view().id_map().insert(id, name@),
            final(self).core_view().name_map() == old(self).core_view().name_map().insert(
                name@,
                id,
            ),
    {
        self.inner.insert_vertex_id_name(id, name);
    }

    /// Removes every id in `low..=high` with the names they map to, and
    /// returns those names in ascending order of their former ids.
    pub fn remove_range(&mut self, low: u64, high: u64) -> (r: Result<Vec<Vec<u8>>, IdMapError>)
        requires
            old(self).core_view().inv(),
        ensures
            final(self).core_view().inv(),
            match r {
                Ok(names) => exists|ids: Seq<u64>|
                    removed_range_names(
                        old(self).core_view().id_map(),
                        low,
                        high,
                        ids,
                        names.deep_view(),
                    ),
                Err(_) => false,
            },
            final(self).core_view().id_map().dom() == old(self).core_view().id_map().dom().difference(
                Set::new(|id: u64| low <= id <= high),
            ),
    {
        self.inner.remove_range(low, high)
    }
}

} // verus!
