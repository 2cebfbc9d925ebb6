//! A fixed-capacity hash map with open addressing and linear probing.
//!
//! A key's hash names the cell where probing starts; probing then walks the
//! table cell by cell, wrapping round at its end.  What the map holds is
//! described by its cells: every cell is either free or holds a key, the
//! key's value and the hash the key was stored under.

use std::fmt::Debug;
use std::hash::{BuildHasher, Hash, Hasher};
use vstd::laws_eq::obeys_concrete_eq;
use vstd::prelude::*;
use vstd::std_specs::cmp::PartialEqSpec;
use vstd::string::StringExecFns;

verus! {

/// The capacity that a map without capacity takes on at its first insertion.
pub const MIN_DEFAULT_CAPACITY: usize = 32;

/// What a cell of the table holds: a key, its value, the hash it was stored
/// under, and whether the entry was deleted since.
struct HashItem<K, V> {
    key: K,
    value: V,
    hash: u64,
    del: bool,
}

/// A hash map of fixed capacity.
pub struct SimpleHashMap<K, V> {
    table: Vec<Option<HashItem<K, V>>>,
    capacity: usize,
    len: usize,
}

/// A walk over the entries of a map, in the order of its cells.
pub struct Iter<'a, K, V> {
    table: &'a Vec<Option<HashItem<K, V>>>,
    pos: usize,
    consumed: usize,
    current_len: usize,
}

/// A walk over the keys of a map.
pub struct Keys<'a, K, V> {
    inner: Iter<'a, K, V>,
}

/// A walk over the values of a map.
pub struct Values<'a, K, V> {
    inner: Iter<'a, K, V>,
}

/// The RS hash function: the state is the hash of the bytes written last.
pub struct SimpleRSHasher(u64);

/// The pair (hash, multiplier) of the RS hash after the first `n` bytes.
pub open spec fn rs_state(bytes: Seq<u8>, n: nat) -> (u64, u64)
    decreases n,
{
    if n == 0 || n > bytes.len() {
        (0u64, 63689u64)
    } else {
        let before = rs_state(bytes, (n - 1) as nat);
        (
            before.0.wrapping_mul(before.1).wrapping_add(bytes[n - 1] as u64),
            before.1.wrapping_mul(378551u64),
        )
    }
}

/// The RS hash of a sequence of bytes.
pub open spec fn rs_hash(bytes: Seq<u8>) -> u64 {
    rs_state(bytes, bytes.len()).0
}

impl SimpleRSHasher {
    /// The hash held.
    pub closed spec fn state(&self) -> u64 {
        self.0
    }
}

impl Hasher for SimpleRSHasher {
    /// The hash of the bytes written last.
    fn finish(&self) -> (hash: u64)
        ensures
            hash == self.state(),
    {
        self.0
    }

    /// Replaces the state by the RS hash of `bytes`.
    fn write(&mut self, bytes: &[u8])
        ensures
            final(self).state() == rs_hash(bytes@),
    {
        let b: u64 = 378551;
        let mut a: u64 = 63689;
        let mut hash: u64 = 0;
        let mut i: usize = 0;
        while i < bytes.len()
            invariant
                0 <= i <= bytes@.len(),
                b == 378551,
                (hash, a) == rs_state(bytes@, i as nat),
            decreases bytes@.len() - i,
        {
            hash = hash.wrapping_mul(a).wrapping_add(bytes[i] as u64);
            a = a.wrapping_mul(b);
            i += 1;
        }
        self.0 = hash;
    }
}

/// Lets the key write itself into the hasher, through `Hash::hash` of the
/// standard library.  Which bytes a key writes is up to the key's type, so
/// nothing is claimed about the hasher afterwards.
#[verifier::external_body]
fn feed<K: Hash>(k: &K, state: &mut SimpleRSHasher) {
    k.hash(state);
}

/// The text of a value as `{:?}` lays it out.  Nothing is claimed about
/// the text.
#[verifier::external_body]
fn debug_text<T: Debug>(value: &T) -> String {
    format!("{:?}", value)
}

/// The number of cells from `from` on that are not free.
pub open spec fn taken_from<T>(cells: Seq<Option<T>>, from: int) -> nat
    decreases cells.len() - from,
{
    if from < 0 || from >= cells.len() {
        0
    } else {
        (if cells[from] is Some {
            1nat
        } else {
            0nat
        }) + taken_from(cells, from + 1)
    }
}

/// The cell reached from `origin` after `step` steps of probing.
pub open spec fn probe(capacity: int, origin: int, step: int) -> int {
    if origin + step < capacity {
        origin + step
    } else {
        origin + step - capacity
    }
}

/// The number of steps that probing from `origin` takes to reach cell `i`.
pub open spec fn steps_to(capacity: int, origin: int, i: int) -> int {
    if i >= origin {
        i - origin
    } else {
        i - origin + capacity
    }
}

/// The cell where probing for a key with hash `hash` starts.
pub open spec fn origin_of(hash: u64, capacity: usize) -> int {
    ((hash as usize) % capacity) as int
}

/// Cell `i` holds `k`, stored under `hash`.
pub open spec fn holds<K, V>(cells: Seq<Option<(K, V, u64)>>, i: int, k: K, hash: u64) -> bool {
    cells[i] matches Some(entry) && entry.0 == k && entry.2 == hash
}

/// Cell `i` is the first one on the way from `origin` that holds `k` stored
/// under `hash`.
pub open spec fn found_at<K, V>(
    cells: Seq<Option<(K, V, u64)>>,
    origin: int,
    k: K,
    hash: u64,
    i: int,
) -> bool {
    &&& 0 <= i < cells.len()
    &&& holds(cells, i, k, hash)
    &&& forall|j: int|
        0 <= j < cells.len() && #[trigger] holds(cells, j, k, hash) ==> steps_to(
            cells.len() as int,
            origin,
            i,
        ) <= steps_to(cells.len() as int, origin, j)
}

/// A new entry for `k` may go into cell `i`: the cell is free or holds `k`.
pub open spec fn takes<K, V>(cells: Seq<Option<(K, V, u64)>>, i: int, k: K) -> bool {
    match cells[i] {
        Some(entry) => entry.0 == k,
        None => true,
    }
}

/// Cell `i` is the first one on the way from `origin` that may take `k`.
pub open spec fn placed_at<K, V>(cells: Seq<Option<(K, V, u64)>>, origin: int, k: K, i: int) -> bool {
    &&& 0 <= i < cells.len()
    &&& takes(cells, i, k)
    &&& forall|j: int|
        0 <= j < cells.len() && #[trigger] takes(cells, j, k) ==> steps_to(
            cells.len() as int,
            origin,
            i,
        ) <= steps_to(cells.len() as int, origin, j)
}

/// Fewer cells taken than there are cells from `from` on: one of them is free.
pub proof fn lemma_free_cell<T>(cells: Seq<Option<T>>, from: int)
    requires
        0 <= from <= cells.len(),
        taken_from(cells, from) < cells.len() - from,
    ensures
        exists|i: int| from <= i < cells.len() && (#[trigger] cells[i]) is None,
    decreases cells.len() - from,
{
    if from < cells.len() {
        if cells[from] is Some {
            lemma_free_cell(cells, from + 1);
        }
    }
}

/// Overwriting one cell changes the count of taken cells by at most that cell.
pub proof fn lemma_taken_update<T>(cells: Seq<Option<T>>, from: int, i: int, cell: Option<T>)
    requires
        0 <= from <= cells.len(),
        0 <= i < cells.len(),
    ensures
        taken_from(cells.update(i, cell), from) == if i < from {
            taken_from(cells, from) as int
        } else {
            taken_from(cells, from) - (if cells[i] is Some {
                1int
            } else {
                0int
            }) + (if cell is Some {
                1int
            } else {
                0int
            })
        },
    decreases cells.len() - from,
{
    if from < cells.len() {
        lemma_taken_update(cells, from + 1, i, cell);
    }
}

/// A table whose taken cells are all taken in another holds no more of them.
pub proof fn lemma_taken_le<A, B>(a: Seq<Option<A>>, b: Seq<Option<B>>, from: int)
    requires
        a.len() == b.len(),
        0 <= from <= a.len(),
        forall|i: int| 0 <= i < a.len() && (#[trigger] a[i]) is Some ==> b[i] is Some,
    ensures
        taken_from(a, from) <= taken_from(b, from),
    decreases a.len() - from,
{
    if from < a.len() {
        lemma_taken_le(a, b, from + 1);
    }
}

/// A table of free cells holds nothing.
pub proof fn lemma_taken_none<T>(cells: Seq<Option<T>>, from: int)
    requires
        0 <= from <= cells.len(),
        forall|i: int| 0 <= i < cells.len() ==> (#[trigger] cells[i]) is None,
    ensures
        taken_from(cells, from) == 0,
    decreases cells.len() - from,
{
    if from < cells.len() {
        lemma_taken_none(cells, from + 1);
    }
}

impl<K, V> HashItem<K, V> {
    /// The entry as a cell: free if it was deleted.
    spec fn cell(slot: Option<HashItem<K, V>>) -> Option<(K, V, u64)> {
        match slot {
            Some(item) => if item.del {
                None
            } else {
                Some((item.key, item.value, item.hash))
            },
            None => None,
        }
    }

    /// The cells of a table.
    spec fn cells_of(table: Seq<Option<HashItem<K, V>>>) -> Seq<Option<(K, V, u64)>> {
        Seq::new(table.len(), |i: int| Self::cell(table[i]))
    }
}

impl<'a, K, V> Iter<'a, K, V> {
    /// The cells of the map that is walked.
    pub closed spec fn cells(&self) -> Seq<Option<(K, V, u64)>> {
        HashItem::cells_of(self.table@)
    }

    /// The cell that the walk looks at next.
    pub closed spec fn position(&self) -> int {
        self.pos as int
    }

    /// The number of entries that `len` still announces.
    pub closed spec fn remaining(&self) -> int {
        self.current_len - self.consumed
    }

    /// The walk is inside the table and announces at least the entries
    /// that are still ahead.
    pub closed spec fn wf(&self) -> bool {
        &&& self.pos <= self.table@.len()
        &&& self.consumed + taken_from(self.cells(), self.pos as int) <= self.current_len
    }

    /// The next entry: the first cell at or after the position that is not
    /// free.  The walk goes on behind it.
    pub fn next(&mut self) -> (item: Option<(&'a K, &'a V)>)
        requires
            old(self).wf(),
        ensures
            final(self).wf(),
            final(self).cells() == old(self).cells(),
            match item {
                Some((k, v)) => {
                    &&& old(self).position() < final(self).position() <= old(self).cells().len()
                    &&& old(self).cells()[final(self).position() - 1] matches Some(entry)
                    &&& entry.0 == *k
                    &&& entry.1 == *v
                    &&& forall|j: int|
                        old(self).position() <= j < final(self).position() - 1 ==> (
                        #[trigger] old(self).cells()[j]) is None
                    &&& final(self).remaining() == old(self).remaining() - 1
                },
                None => {
                    &&& final(self).position() == old(self).cells().len()
                    &&& forall|j: int|
                        old(self).position() <= j < old(self).cells().len() ==> (
                        #[trigger] old(self).cells()[j]) is None
                    &&& final(self).remaining() == old(self).remaining()
                },
            },
    {
        let table: &'a Vec<Option<HashItem<K, V>>> = self.table;
        let ghost start = self.pos as int;
        let ghost cells = self.cells();
        while self.pos < table.len()
            invariant
                table == self.table,
                cells == self.cells(),
                cells == old(self).cells(),
                cells.len() == table@.len(),
                start == old(self).pos,
                start <= self.pos <= table@.len(),
                self.consumed == old(self).consumed,
                self.current_len == old(self).current_len,
                self.consumed + taken_from(cells, self.pos as int) <= self.current_len,
                forall|j: int| start <= j < self.pos ==> (#[trigger] cells[j]) is None,
            decreases table@.len() - self.pos,
        {
            let at = self.pos;
            proof {
                assert(cells[at as int] == HashItem::cell(table@[at as int]));
            }
            self.pos = self.pos + 1;
            match &table[at] {
                Some(item) => {
                    if !item.del {
                        self.consumed = self.consumed + 1;
                        return Some((&item.key, &item.value));
                    }
                },
                None => {},
            }
        }
        None
    }

    /// The number of entries that the walk still announces: the map's
    /// count of insertions less the entries handed out.
    pub fn len(&self) -> (left: usize)
        requires
            self.wf(),
        ensures
            left == self.remaining(),
    {
        self.current_len - self.consumed
    }
}

impl<'a, K, V> Keys<'a, K, V> {
    /// The walk over entries that this walk over keys runs on.
    pub closed spec fn entries(&self) -> Iter<'a, K, V> {
        self.inner
    }

    /// The key of the next entry.
    pub fn next(&mut self) -> (key: Option<&'a K>)
        requires
            old(self).entries().wf(),
        ensures
            final(self).entries().wf(),
            final(self).entries().cells() == old(self).entries().cells(),
            match key {
                Some(k) => {
                    &&& old(self).entries().position() < final(self).entries().position() <= old(
                        self,
                    ).entries().cells().len()
                    &&& old(self).entries().cells()[final(self).entries().position()
                        - 1] matches Some(entry)
                    &&& entry.0 == *k
                    &&& forall|j: int|
                        old(self).entries().position() <= j < final(self).entries().position() - 1
                            ==> (#[trigger] old(self).entries().cells()[j]) is None
                },
                None => forall|j: int|
                    old(self).entries().position() <= j < old(self).entries().cells().len() ==> (
                    #[trigger] old(self).entries().cells()[j]) is None,
            },
    {
        match self.inner.next() {
            Some((k, _)) => Some(k),
            None => None,
        }
    }
}

impl<'a, K, V> Values<'a, K, V> {
    /// The walk over entries that this walk over values runs on.
    pub closed spec fn entries(&self) -> Iter<'a, K, V> {
        self.inner
    }

    /// The value of the next entry.
    pub fn next(&mut self) -> (value: Option<&'a V>)
        requires
            old(self).entries().wf(),
        ensures
            final(self).entries().wf(),
            final(self).entries().cells() == old(self).entries().cells(),
            match value {
                Some(v) => {
                    &&& old(self).entries().position() < final(self).entries().position() <= old(
                        self,
                    ).entries().cells().len()
                    &&& old(self).entries().cells()[final(self).entries().position()
                        - 1] matches Some(entry)
                    &&& entry.1 == *v
                    &&& forall|j: int|
                        old(self).entries().position() <= j < final(self).entries().position() - 1
                            ==> (#[trigger] old(self).entries().cells()[j]) is None
                },
                None => forall|j: int|
                    old(self).entries().position() <= j < old(self).entries().cells().len() ==> (
                    #[trigger] old(self).entries().cells()[j]) is None,
            },
    {
        match self.inner.next() {
            Some((_, v)) => Some(v),
            None => None,
        }
    }
}


/// A lookup of `k` under `hash` gives `found`: the value in the first cell
/// on the way from the hash's origin that holds `k` stored under `hash`, or
/// nothing if no cell does.
pub open spec fn finds<K, V>(
    cells: Seq<Option<(K, V, u64)>>,
    capacity: usize,
    k: K,
    hash: u64,
    found: Option<&V>,
) -> bool {
    match found {
        Some(v) => exists|i: int| #[trigger]
            found_at(cells, origin_of(hash, capacity), k, hash, i) && cells[i].unwrap().1 == *v,
        None => forall|j: int| 0 <= j < cells.len() ==> !#[trigger] holds(cells, j, k, hash),
    }
}

/// Some cell holds `k` stored under `hash`.
pub open spec fn held<K, V>(cells: Seq<Option<(K, V, u64)>>, k: K, hash: u64) -> bool {
    exists|j: int| 0 <= j < cells.len() && #[trigger] holds(cells, j, k, hash)
}

/// A search for `k` under `hash` gives `index`: the first cell on the way
/// from the hash's origin that holds `k` stored under `hash`, or nothing if
/// no cell does.
pub open spec fn located<K, V>(
    cells: Seq<Option<(K, V, u64)>>,
    capacity: usize,
    k: K,
    hash: u64,
    index: Option<usize>,
) -> bool {
    match index {
        Some(i) => found_at(cells, origin_of(hash, capacity), k, hash, i as int),
        None => forall|j: int| 0 <= j < cells.len() ==> !#[trigger] holds(cells, j, k, hash),
    }
}

/// An insertion of `k` with `v` under `hash` into `base` gives `after` and
/// hands back `replaced`: the entry goes into the first cell on the way from
/// `origin` that is free or holds `k`, and the value that this cell held
/// comes back.
pub open spec fn inserted<K, V>(
    base: Seq<Option<(K, V, u64)>>,
    origin: int,
    k: K,
    v: V,
    hash: u64,
    after: Seq<Option<(K, V, u64)>>,
    replaced: Option<V>,
) -> bool {
    exists|i: int| #[trigger]
        placed_at(base, origin, k, i) && after == base.update(i, Some((k, v, hash))) && replaced == (
        match base[i] {
            Some(entry) => Some(entry.1),
            None => None,
        })
}

/// The cells that an insertion works on: those of the map, or, where the
/// map has no capacity yet, the free cells of the default capacity.
pub open spec fn base_cells<K, V>(cells: Seq<Option<(K, V, u64)>>, capacity: usize) -> Seq<
    Option<(K, V, u64)>,
> {
    if capacity == 0 {
        Seq::new(MIN_DEFAULT_CAPACITY as nat, |i: int| None)
    } else {
        cells
    }
}

/// `cells` are what inserting the `n`-th of `pairs` under `hash` makes of
/// `before`, the cells after the first `n - 1` insertions into a map without
/// capacity; `replaced` is the value that comes back.
pub open spec fn collected_next<K, V>(
    pairs: Seq<(K, V)>,
    n: nat,
    before: Seq<Option<(K, V, u64)>>,
    hash: u64,
    cells: Seq<Option<(K, V, u64)>>,
    replaced: Option<V>,
) -> bool {
    inserted(
        base_cells(
            before,
            if n == 1 {
                0usize
            } else {
                MIN_DEFAULT_CAPACITY
            },
        ),
        origin_of(hash, MIN_DEFAULT_CAPACITY),
        pairs[n - 1].0,
        pairs[n - 1].1,
        hash,
        cells,
        replaced,
    )
}

/// `cells` are what inserting the first `n` of `pairs`, one after the
/// other and each under some hash, leaves of a map without capacity.
pub open spec fn collected<K, V>(pairs: Seq<(K, V)>, n: nat, cells: Seq<Option<(K, V, u64)>>) -> bool
    decreases n,
{
    if n == 0 {
        cells.len() == 0
    } else {
        &&& n <= pairs.len()
        &&& exists|before: Seq<Option<(K, V, u64)>>, hash: u64, replaced: Option<V>|
            {
                &&& collected(pairs, (n - 1) as nat, before)
                &&& #[trigger] collected_next(pairs, n, before, hash, cells, replaced)
            }
    }
}

/// No cell between `from` and `to` is taken: counting from either gives
/// the same.
pub proof fn lemma_taken_skip<T>(cells: Seq<Option<T>>, from: int, to: int)
    requires
        0 <= from <= to <= cells.len(),
        forall|j: int| from <= j < to ==> (#[trigger] cells[j]) is None,
    ensures
        taken_from(cells, from) == taken_from(cells, to),
    decreases to - from,
{
    if from < to {
        lemma_taken_skip(cells, from + 1, to);
    }
}

/// The texts of entries, each as `key: value`, with `, ` between them.
pub open spec fn joined(parts: Seq<(Seq<char>, Seq<char>)>, n: nat) -> Seq<char>
    decreases n,
{
    if n == 0 || n > parts.len() {
        Seq::empty()
    } else {
        joined(parts, (n - 1) as nat) + (if n > 1 {
            seq![',', ' ']
        } else {
            Seq::empty()
        }) + parts[n - 1].0 + seq![':', ' '] + parts[n - 1].1
    }
}

/// The first `n` entries are joined alike in two sequences that agree on
/// them.
pub proof fn lemma_joined_prefix(
    a: Seq<(Seq<char>, Seq<char>)>,
    b: Seq<(Seq<char>, Seq<char>)>,
    n: nat,
)
    requires
        n <= a.len(),
        n <= b.len(),
        forall|i: int| 0 <= i < n ==> a[i] == b[i],
    ensures
        joined(a, n) == joined(b, n),
    decreases n,
{
    if n > 0 {
        lemma_joined_prefix(a, b, (n - 1) as nat);
    }
}

/// The text of a map: the texts of its entries between braces.
pub open spec fn framed(parts: Seq<(Seq<char>, Seq<char>)>) -> Seq<char> {
    seq!['{'] + joined(parts, parts.len()) + seq!['}']
}

/// The capacity after an insertion.
pub open spec fn grown_capacity(capacity: usize) -> usize {
    if capacity == 0 {
        MIN_DEFAULT_CAPACITY
    } else {
        capacity
    }
}

/// Probing reaches every cell, each after the number of steps that
/// `steps_to` gives.
pub proof fn lemma_probe_steps(capacity: int, origin: int, i: int)
    requires
        0 <= origin < capacity,
        0 <= i < capacity,
    ensures
        0 <= steps_to(capacity, origin, i) < capacity,
        probe(capacity, origin, steps_to(capacity, origin, i)) == i,
{
}

impl<K, V> BuildHasher for SimpleHashMap<K, V> {
    type Hasher = SimpleRSHasher;

    /// A hasher in its initial state.
    fn build_hasher(&self) -> (hasher: SimpleRSHasher)
        ensures
            hasher.state() == 0,
    {
        SimpleRSHasher(0)
    }
}

impl<K: Hash + Eq, V> SimpleHashMap<K, V> {
    /// The cells of the table, in their order: each is free or holds a key,
    /// its value and the hash it was stored under.
    pub closed spec fn cells(&self) -> Seq<Option<(K, V, u64)>> {
        HashItem::cells_of(self.table@)
    }

    /// The capacity the map was made with or has taken on.
    pub closed spec fn spec_capacity(&self) -> usize {
        self.capacity
    }

    /// The number of insertions since the map was made or cleared.
    pub closed spec fn spec_len(&self) -> usize {
        self.len
    }

    /// The invariant of the map: the table has as many cells as the
    /// capacity says, or none; no more cells are taken than insertions were
    /// counted; and a map without capacity has counted none.
    pub closed spec fn wf(&self) -> bool {
        &&& self.table@.len() == 0 || self.table@.len() == self.capacity
        &&& taken_from(self.table@, 0) <= self.len
        &&& self.capacity == 0 ==> self.len == 0
    }

    /// The table is there in full: it has as many cells as the capacity
    /// says.  A map that was cleared is not ready any more.
    pub closed spec fn ready(&self) -> bool {
        self.table@.len() == self.capacity
    }

    /// A map without capacity; the first insertion gives it the default.
    pub fn new() -> (map: SimpleHashMap<K, V>)
        ensures
            map.wf(),
            map.ready(),
            map.cells().len() == 0,
            map.spec_capacity() == 0,
            map.spec_len() == 0,
    {
        SimpleHashMap { table: Vec::new(), capacity: 0, len: 0 }
    }

    /// A map with `capacity` free cells.
    pub fn with_capacity(capacity: usize) -> (map: SimpleHashMap<K, V>)
        ensures
            map.wf(),
            map.ready(),
            map.cells() == Seq::new(capacity as nat, |i: int| None::<(K, V, u64)>),
            map.spec_capacity() == capacity,
            map.spec_len() == 0,
    {
        let mut tab: Vec<Option<HashItem<K, V>>> = Vec::with_capacity(capacity);
        let mut i: usize = 0;
        while i < capacity
            invariant
                0 <= i <= capacity,
                tab@.len() == i,
                forall|j: int| 0 <= j < i ==> (#[trigger] tab@[j]) is None,
            decreases capacity - i,
        {
            tab.push(None);
            i += 1;
        }
        let map = SimpleHashMap { table: tab, capacity: capacity, len: 0 };
        proof {
            lemma_taken_none(map.table@, 0);
            assert(map.cells() =~= Seq::new(capacity as nat, |i: int| None::<(K, V, u64)>));
        }
        map
    }

    /// The capacity of the map.
    pub fn capacity(&self) -> (capacity: usize)
        ensures
            capacity == self.spec_capacity(),
    {
        self.capacity
    }

    /// A walk over the keys, in the order of the cells.
    pub fn keys(&self) -> (keys: Keys<'_, K, V>)
        requires
            self.wf(),
        ensures
            keys.entries().wf(),
            keys.entries().cells() == self.cells(),
            keys.entries().position() == 0,
    {
        Keys { inner: self.iter() }
    }

    /// A walk over the values, in the order of the cells.
    pub fn values(&self) -> (values: Values<'_, K, V>)
        requires
            self.wf(),
        ensures
            values.entries().wf(),
            values.entries().cells() == self.cells(),
            values.entries().position() == 0,
    {
        Values { inner: self.iter() }
    }

    /// A walk over the entries, in the order of the cells.
    pub fn iter(&self) -> (iter: Iter<'_, K, V>)
        requires
            self.wf(),
        ensures
            iter.wf(),
            iter.cells() == self.cells(),
            iter.position() == 0,
            iter.remaining() == self.spec_len(),
    {
        proof {
            lemma_taken_le(self.cells(), self.table@, 0);
        }
        Iter { table: &self.table, pos: 0, consumed: 0, current_len: self.len }
    }

    /// The number of insertions since the map was made or cleared.
    pub fn len(&self) -> (len: usize)
        ensures
            len == self.spec_len(),
    {
        self.len
    }

    /// Whether nothing was inserted since the map was made or cleared.
    pub fn is_empty(&self) -> (empty: bool)
        ensures
            empty == (self.spec_len() == 0),
    {
        self.len() == 0
    }

    /// Drops all cells and sets the count of insertions to 0.  The capacity
    /// stays, so a map with capacity is not `ready` afterwards.
    pub fn clear(&mut self)
        ensures
            final(self).wf(),
            final(self).cells().len() == 0,
            final(self).spec_len() == 0,
            final(self).spec_capacity() == old(self).spec_capacity(),
            final(self).ready() <==> old(self).spec_capacity() == 0,
    {
        self.len = 0;
        self.table.clear();
    }

    /// Whether the table is there in full, so that lookups and insertions
    /// can be made.
    pub fn is_ready(&self) -> (ready: bool)
        ensures
            ready == self.ready(),
    {
        self.table.len() == self.capacity
    }

    /// What the invariant says of the cells and the counts: the map has as
    /// many cells as its capacity says, or none, and is ready exactly in the
    /// first case; no more cells are taken than insertions were counted; and
    /// a map without capacity has counted none.
    pub proof fn lemma_wf(&self)
        requires
            self.wf(),
        ensures
            self.cells().len() == 0 || self.cells().len() == self.spec_capacity(),
            self.ready() <==> self.cells().len() == self.spec_capacity(),
            taken_from(self.cells(), 0) <= self.spec_len(),
            self.spec_capacity() == 0 ==> self.spec_len() == 0,
    {
        lemma_taken_le(self.cells(), self.table@, 0);
    }

    /// The hash of `k`: what the hasher holds after the key wrote itself
    /// into it.
    fn hash_of(&self, k: &K) -> u64 {
        let mut state = self.build_hasher();
        feed(k, &mut state);
        state.finish()
    }

    /// Whether cell `index` holds `k`, stored under `hash`.
    fn exists_at(&self, index: usize, k: &K, hash: u64) -> (yes: bool)
        requires
            index < self.cells().len(),
            obeys_concrete_eq::<K>(),
        ensures
            yes == holds(self.cells(), index as int, *k, hash),
    {
        proof {
            reveal(obeys_concrete_eq);
            assert(self.cells()[index as int] == HashItem::cell(self.table@[index as int]));
        }
        match &self.table[index] {
            Some(item) => {
                if &item.key == k && item.hash == hash && !item.del {
                    true
                } else {
                    false
                }
            },
            None => false,
        }
    }

    /// `Some(index)` if a new entry for `k` may go into cell `index`.
    fn try_to_insert_at(&self, index: usize, k: &K) -> (place: Option<usize>)
        requires
            index < self.cells().len(),
            obeys_concrete_eq::<K>(),
        ensures
            place is Some <==> takes(self.cells(), index as int, *k),
            place matches Some(i) ==> i == index,
    {
        proof {
            reveal(obeys_concrete_eq);
            assert(self.cells()[index as int] == HashItem::cell(self.table@[index as int]));
        }
        match &self.table[index] {
            None => Some(index),
            Some(item) => {
                if item.del {
                    Some(index)
                } else if &item.key == k {
                    Some(index)
                } else {
                    None
                }
            },
        }
    }

    /// The first cell on the way from the origin of `hash` that holds `k`
    /// stored under `hash`.
    pub fn find_index_hashed(&self, k: &K, hash: u64) -> (index: Option<usize>)
        requires
            self.wf(),
            self.ready(),
            self.spec_capacity() > 0,
            obeys_concrete_eq::<K>(),
        ensures
            located(self.cells(), self.spec_capacity(), *k, hash, index),
    {
        let cap = self.capacity;
        let origin = (#[verifier::truncate] (hash as usize)) % cap;
        let ghost cells = self.cells();
        let mut idx = origin;
        let ghost mut step: int = 0;
        loop
            invariant_except_break
                self.wf(),
                self.ready(),
                obeys_concrete_eq::<K>(),
                cells == self.cells(),
                cells.len() == cap,
                cap == self.capacity,
                cap > 0,
                origin == origin_of(hash, cap),
                0 <= origin < cap,
                0 <= step < cap,
                idx == probe(cap as int, origin as int, step),
                forall|m: int|
                    0 <= m < step ==> !holds(
                        cells,
                        #[trigger] probe(cap as int, origin as int, m),
                        *k,
                        hash,
                    ),
            ensures
                forall|j: int| 0 <= j < cells.len() ==> !#[trigger] holds(cells, j, *k, hash),
            decreases cap - step,
        {
            if self.exists_at(idx, k, hash) {
                proof {
                    assert forall|j: int|
                        0 <= j < cells.len() && #[trigger] holds(cells, j, *k, hash) implies steps_to(
                        cap as int,
                        origin as int,
                        idx as int,
                    ) <= steps_to(cap as int, origin as int, j) by {
                        lemma_probe_steps(cap as int, origin as int, j);
                        let m = steps_to(cap as int, origin as int, j);
                        if m < step {
                            assert(!holds(cells, probe(cap as int, origin as int, m), *k, hash));
                        }
                    }
                }
                return Some(idx);
            }
            proof {
                if idx + 1 < cap {
                    vstd::arithmetic::div_mod::lemma_small_mod((idx + 1) as nat, cap as nat);
                } else {
                    vstd::arithmetic::div_mod::lemma_mod_self_0(cap as int);
                }
                step = step + 1;
            }
            idx = (idx + 1) % cap;
            if idx == origin {
                proof {
                    assert(step == cap);
                    assert forall|j: int| 0 <= j < cells.len() implies !#[trigger] holds(
                        cells,
                        j,
                        *k,
                        hash,
                    ) by {
                        lemma_probe_steps(cap as int, origin as int, j);
                        let m = steps_to(cap as int, origin as int, j);
                        assert(!holds(cells, probe(cap as int, origin as int, m), *k, hash));
                    }
                }
                break ;
            }
        }
        None
    }

    /// The cell that a lookup of `k` finds, the hash being what `k` writes
    /// into the hasher at this call.
    pub fn find_index(&self, k: &K) -> (index: Option<usize>)
        requires
            self.wf(),
            self.ready(),
            self.spec_capacity() > 0,
            obeys_concrete_eq::<K>(),
        ensures
            exists|hash: u64| #[trigger] located(self.cells(), self.spec_capacity(), *k, hash, index),
    {
        let hash = self.hash_of(k);
        self.find_index_hashed(k, hash)
    }

    /// The value stored for `k` under `hash`.
    pub fn get_hashed(&self, k: &K, hash: u64) -> (found: Option<&V>)
        requires
            self.wf(),
            self.ready(),
            obeys_concrete_eq::<K>(),
        ensures
            finds(self.cells(), self.spec_capacity(), *k, hash, found),
    {
        if self.capacity == 0 {
            return None;
        }
        match self.find_index_hashed(k, hash) {
            Some(index) => {
                proof {
                    assert(self.cells()[index as int] == HashItem::cell(self.table@[index as int]));
                }
                match &self.table[index] {
                    Some(item) => Some(&item.value),
                    None => None,
                }
            },
            None => None,
        }
    }

    /// The value stored for `k`, the hash being what `k` writes into the
    /// hasher at this call.
    pub fn get(&self, k: &K) -> (found: Option<&V>)
        requires
            self.wf(),
            self.ready(),
            obeys_concrete_eq::<K>(),
        ensures
            exists|hash: u64| #[trigger] finds(self.cells(), self.spec_capacity(), *k, hash, found),
    {
        let hash = self.hash_of(k);
        self.get_hashed(k, hash)
    }

    /// Whether some cell holds `k` stored under `hash`.
    pub fn contains_key_hashed(&self, k: &K, hash: u64) -> (yes: bool)
        requires
            self.wf(),
            self.ready(),
            obeys_concrete_eq::<K>(),
        ensures
            yes == held(self.cells(), *k, hash),
    {
        if self.capacity == 0 {
            return false;
        }
        match self.find_index_hashed(k, hash) {
            Some(_) => true,
            None => false,
        }
    }

    /// Whether the map holds `k`, the hash being what `k` writes into the
    /// hasher at this call.
    pub fn contains_key(&self, k: &K) -> (yes: bool)
        requires
            self.wf(),
            self.ready(),
            obeys_concrete_eq::<K>(),
        ensures
            exists|hash: u64| #[trigger] held(self.cells(), *k, hash) == yes,
    {
        let hash = self.hash_of(k);
        self.contains_key_hashed(k, hash)
    }

    /// Stores `v` for `k` under `hash` and hands back the value that the
    /// cell taken held for `k`.  Counts as one insertion in any case.
    pub fn insert_hashed(&mut self, k: K, v: V, hash: u64) -> (replaced: Option<V>)
        requires
            old(self).wf(),
            old(self).ready(),
            obeys_concrete_eq::<K>(),
            old(self).spec_capacity() == 0 || old(self).spec_len() < old(self).spec_capacity(),
        ensures
            final(self).wf(),
            final(self).ready(),
            final(self).spec_capacity() == grown_capacity(old(self).spec_capacity()),
            final(self).spec_len() == old(self).spec_len() + 1,
            inserted(
                base_cells(old(self).cells(), old(self).spec_capacity()),
                origin_of(hash, final(self).spec_capacity()),
                k,
                v,
                hash,
                final(self).cells(),
                replaced,
            ),
    {
        if self.capacity == 0 {
            self.capacity = MIN_DEFAULT_CAPACITY;
            self.table = Vec::with_capacity(MIN_DEFAULT_CAPACITY);
            let mut n: usize = 0;
            while n < MIN_DEFAULT_CAPACITY
                invariant
                    0 <= n <= MIN_DEFAULT_CAPACITY,
                    self.capacity == MIN_DEFAULT_CAPACITY,
                    self.len == old(self).len,
                    self.table@.len() == n,
                    forall|j: int| 0 <= j < n ==> (#[trigger] self.table@[j]) is None,
                decreases MIN_DEFAULT_CAPACITY - n,
            {
                self.table.push(None);
                n += 1;
            }
            self.len = 0;
            proof {
                lemma_taken_none(self.table@, 0);
                assert(self.cells() =~= base_cells(old(self).cells(), old(self).spec_capacity()));
            }
        }
        let cap = self.capacity;
        let origin = (#[verifier::truncate] (hash as usize)) % cap;
        let ghost cells = self.cells();
        let ghost table = self.table@;
        proof {
            lemma_free_cell(table, 0);
            let free = choose|i: int| 0 <= i < table.len() && (#[trigger] table[i]) is None;
            assert(cells[free] == HashItem::cell(table[free]));
            assert(takes(cells, free, k));
        }
        let mut idx = origin;
        let ghost mut step: int = 0;
        while self.try_to_insert_at(idx, &k).is_none()
            invariant
                self.wf(),
                self.ready(),
                obeys_concrete_eq::<K>(),
                cells == self.cells(),
                table == self.table@,
                cells.len() == cap,
                cap == self.capacity,
                cap > 0,
                self.len < cap,
                self.len == old(self).len,
                origin == origin_of(hash, cap),
                0 <= origin < cap,
                0 <= step < cap,
                idx == probe(cap as int, origin as int, step),
                exists|i: int| 0 <= i < cells.len() && #[trigger] takes(cells, i, k),
                forall|m: int|
                    0 <= m < step ==> !takes(
                        cells,
                        #[trigger] probe(cap as int, origin as int, m),
                        k,
                    ),
            decreases cap - step,
        {
            proof {
                if idx + 1 < cap {
                    vstd::arithmetic::div_mod::lemma_small_mod((idx + 1) as nat, cap as nat);
                } else {
                    vstd::arithmetic::div_mod::lemma_mod_self_0(cap as int);
                }
                let free = choose|i: int| 0 <= i < cells.len() && #[trigger] takes(cells, i, k);
                lemma_probe_steps(cap as int, origin as int, free);
                let m = steps_to(cap as int, origin as int, free);
                if m <= step {
                    assert(!takes(cells, probe(cap as int, origin as int, m), k));
                }
                step = step + 1;
            }
            idx = (idx + 1) % cap;
        }
        proof {
            assert forall|j: int| 0 <= j < cells.len() && #[trigger] takes(cells, j, k) implies steps_to(
                cap as int,
                origin as int,
                idx as int,
            ) <= steps_to(cap as int, origin as int, j) by {
                lemma_probe_steps(cap as int, origin as int, j);
                let m = steps_to(cap as int, origin as int, j);
                if m < step {
                    assert(!takes(cells, probe(cap as int, origin as int, m), k));
                }
            }
            assert(placed_at(cells, origin as int, k, idx as int));
        }
        let new_item = HashItem { key: k, value: v, hash: hash, del: false };
        let old_value = self.table.remove(idx);
        self.table.insert(idx, Some(new_item));
        self.len += 1;
        proof {
            assert(self.table@ =~= table.update(idx as int, Some(new_item)));
            lemma_taken_update(table, 0, idx as int, Some(new_item));
            assert(self.cells() =~= cells.update(idx as int, Some((k, v, hash))));
            assert(cells[idx as int] == HashItem::cell(table[idx as int]));
        }
        match old_value {
            Some(item) => {
                if item.del {
                    None
                } else {
                    Some(item.value)
                }
            },
            None => None,
        }
    }

    /// Stores `v` for `k`, the hash being what `k` writes into the hasher
    /// at this call, and hands back the value that the cell taken held for
    /// `k`.  Counts as one insertion in any case.
    pub fn insert(&mut self, k: K, v: V) -> (replaced: Option<V>)
        requires
            old(self).wf(),
            old(self).ready(),
            obeys_concrete_eq::<K>(),
            old(self).spec_capacity() == 0 || old(self).spec_len() < old(self).spec_capacity(),
        ensures
            final(self).wf(),
            final(self).ready(),
            final(self).spec_capacity() == grown_capacity(old(self).spec_capacity()),
            final(self).spec_len() == old(self).spec_len() + 1,
            exists|hash: u64| #[trigger]
                inserted(
                    base_cells(old(self).cells(), old(self).spec_capacity()),
                    origin_of(hash, final(self).spec_capacity()),
                    k,
                    v,
                    hash,
                    final(self).cells(),
                    replaced,
                ),
    {
        let hash = self.hash_of(&k);
        self.insert_hashed(k, v, hash)
    }

    /// A map of default capacity with the pairs inserted in their order.
    pub fn from_iter(pairs: Vec<(K, V)>) -> (map: SimpleHashMap<K, V>)
        requires
            obeys_concrete_eq::<K>(),
            pairs@.len() <= MIN_DEFAULT_CAPACITY,
        ensures
            map.wf(),
            map.ready(),
            map.spec_len() == pairs@.len(),
            map.spec_capacity() == (if pairs@.len() == 0 {
                0usize
            } else {
                MIN_DEFAULT_CAPACITY
            }),
            collected(pairs@, pairs@.len(), map.cells()),
    {
        let mut map = SimpleHashMap::new();
        let mut pairs = pairs;
        let ghost all = pairs@;
        let ghost total = pairs@.len();
        while pairs.len() > 0
            invariant
                obeys_concrete_eq::<K>(),
                total <= MIN_DEFAULT_CAPACITY,
                total == all.len(),
                map.wf(),
                map.ready(),
                map.spec_len() + pairs@.len() == total,
                pairs@ == all.skip(map.spec_len() as int),
                map.spec_capacity() == (if map.spec_len() == 0 {
                    0usize
                } else {
                    MIN_DEFAULT_CAPACITY
                }),
                collected(all, map.spec_len() as nat, map.cells()),
            decreases pairs@.len(),
        {
            let ghost done = map.spec_len() as nat;
            let ghost before = map.cells();
            let ghost capacity = map.spec_capacity();
            let (key, value) = pairs.remove(0);
            let replaced = map.insert(key, value);
            proof {
                assert(all[done as int] == (key, value));
                assert(pairs@ =~= all.skip((done + 1) as int));
                let hash = choose|hash: u64| #[trigger]
                    inserted(
                        base_cells(before, capacity),
                        origin_of(hash, map.spec_capacity()),
                        key,
                        value,
                        hash,
                        map.cells(),
                        replaced,
                    );
                assert(collected(all, done, before));
                let n = (done + 1) as nat;
                assert(collected(all, (n - 1) as nat, before));
                assert(collected_next(all, n, before, hash, map.cells(), replaced));
                assert(collected(all, n, map.cells()));
            }
        }
        map
    }
}

/// A lookup of `k` under `hash` in `cells` finds a value that `==` takes
/// for equal to `v` (as far as `==` on values has a meaning in contracts).
pub open spec fn matched<K, V: PartialEq>(
    cells: Seq<Option<(K, V, u64)>>,
    capacity: usize,
    k: K,
    v: V,
    hash: u64,
) -> bool {
    exists|w: V| #[trigger]
        finds(cells, capacity, k, hash, Some(&w)) && (V::obeys_eq_spec() ==> w.eq_spec(&v))
}

/// A lookup of `k` under `hash` in `cells` finds nothing, or finds a value
/// that `==` does not take for equal to `v`.
pub open spec fn unmatched<K, V: PartialEq>(
    cells: Seq<Option<(K, V, u64)>>,
    capacity: usize,
    k: K,
    v: V,
    hash: u64,
) -> bool {
    finds(cells, capacity, k, hash, None::<&V>) || exists|w: V| #[trigger]
        finds(cells, capacity, k, hash, Some(&w)) && (V::obeys_eq_spec() ==> !w.eq_spec(&v))
}

/// Every entry of `mine` before cell `upto` is `matched` in `theirs`, each
/// under some hash.
pub open spec fn all_matched<K, V: PartialEq>(
    mine: Seq<Option<(K, V, u64)>>,
    upto: int,
    theirs: Seq<Option<(K, V, u64)>>,
    capacity: usize,
) -> bool {
    forall|i: int|
        0 <= i < upto && i < mine.len() && (#[trigger] mine[i]) is Some ==> exists|hash: u64| #[trigger]
            matched(theirs, capacity, mine[i].unwrap().0, mine[i].unwrap().1, hash)
}

/// Some entry of `mine` is `unmatched` in `theirs` under some hash.
pub open spec fn some_unmatched<K, V: PartialEq>(
    mine: Seq<Option<(K, V, u64)>>,
    theirs: Seq<Option<(K, V, u64)>>,
    capacity: usize,
) -> bool {
    exists|i: int, hash: u64|
        0 <= i < mine.len() && mine[i] is Some && #[trigger] unmatched(
            theirs,
            capacity,
            mine[i].unwrap().0,
            mine[i].unwrap().1,
            hash,
        )
}

impl<K: Hash + Eq, V: PartialEq> SimpleHashMap<K, V> {
    /// Whether both maps count the same number of insertions and every
    /// entry of this map is found in the other with an equal value.
    ///
    /// Every entry is looked up in the other map under the hash that its key
    /// writes at that lookup, and the value found is compared with `==`.
    /// The answer is `true` if every entry was matched, and `false` as soon
    /// as the counts differ or one entry was not.
    pub fn eq(&self, other: &SimpleHashMap<K, V>) -> (equal: bool)
        requires
            self.wf(),
            other.wf(),
            other.ready(),
            obeys_concrete_eq::<K>(),
        ensures
            equal ==> self.spec_len() == other.spec_len() && all_matched(
                self.cells(),
                self.cells().len() as int,
                other.cells(),
                other.spec_capacity(),
            ),
            !equal ==> self.spec_len() != other.spec_len() || some_unmatched(
                self.cells(),
                other.cells(),
                other.spec_capacity(),
            ),
    {
        if self.len() != other.len() {
            return false;
        }
        let mut entries = self.iter();
        let ghost mine = self.cells();
        let ghost theirs = other.cells();
        let ghost capacity = other.spec_capacity();
        loop
            invariant
                entries.wf(),
                entries.cells() == mine,
                mine == self.cells(),
                theirs == other.cells(),
                capacity == other.spec_capacity(),
                0 <= entries.position() <= mine.len(),
                other.wf(),
                other.ready(),
                obeys_concrete_eq::<K>(),
                self.spec_len() == other.spec_len(),
                all_matched(mine, entries.position(), theirs, capacity),
            decreases entries.cells().len() - entries.position(),
        {
            let ghost start = entries.position();
            match entries.next() {
                Some((key, value)) => {
                    let ghost at = entries.position() - 1;
                    let found = other.get(key);
                    let ghost hash = choose|hash: u64| #[trigger]
                        finds(theirs, capacity, *key, hash, found);
                    match found {
                        Some(v) => {
                            if !(*v == *value) {
                                proof {
                                    assert(finds(theirs, capacity, *key, hash, Some(&*v)));
                                    assert(unmatched(theirs, capacity, *key, *value, hash));
                                    assert(mine[at].unwrap().0 == *key);
                                    assert(mine[at].unwrap().1 == *value);
                                }
                                return false;
                            }
                            proof {
                                assert(finds(theirs, capacity, *key, hash, Some(&*v)));
                                assert(matched(theirs, capacity, *key, *value, hash));
                                assert forall|i: int|
                                    0 <= i < entries.position() && i < mine.len() && (
                                    #[trigger] mine[i]) is Some implies exists|hash: u64| #[trigger]
                                    matched(
                                        theirs,
                                        capacity,
                                        mine[i].unwrap().0,
                                        mine[i].unwrap().1,
                                        hash,
                                    ) by {
                                    if i >= start {
                                        assert(i == at);
                                        assert(matched(
                                            theirs,
                                            capacity,
                                            mine[i].unwrap().0,
                                            mine[i].unwrap().1,
                                            hash,
                                        ));
                                    }
                                }
                            }
                        },
                        None => {
                            proof {
                                assert(unmatched(theirs, capacity, *key, *value, hash));
                                assert(mine[at].unwrap().0 == *key);
                                assert(mine[at].unwrap().1 == *value);
                            }
                            return false;
                        },
                    }
                },
                None => {
                    return true;
                },
            }
        }
    }
}

impl<K: Hash + Eq + Debug, V: Debug> SimpleHashMap<K, V> {
    /// The map as text: `{key: value, ...}` with every key and value laid
    /// out by `{:?}`, in the order of the cells.
    pub fn show(&self) -> (text: String)
        requires
            self.wf(),
        ensures
            exists|parts: Seq<(Seq<char>, Seq<char>)>|
                parts.len() == taken_from(self.cells(), 0) && text@ == #[trigger] framed(parts),
            (forall|i: int| 0 <= i < self.cells().len() ==> (#[trigger] self.cells()[i]) is None)
                ==> text@ == "{}"@,
    {
        let mut text = String::new();
        text.append("{");
        let mut entries = self.iter();
        let mut first = true;
        let ghost cells = self.cells();
        let ghost mut parts: Seq<(Seq<char>, Seq<char>)> = Seq::empty();
        proof {
            reveal_strlit("{");
            assert(text@ =~= seq!['{'] + joined(parts, parts.len()));
        }
        loop
            invariant
                entries.wf(),
                entries.cells() == cells,
                cells == self.cells(),
                0 <= entries.position() <= cells.len(),
                first == (parts.len() == 0),
                text@ == seq!['{'] + joined(parts, parts.len()),
                parts.len() + taken_from(cells, entries.position()) == taken_from(cells, 0),
            ensures
                text@ == seq!['{'] + joined(parts, parts.len()),
                parts.len() == taken_from(cells, 0),
            decreases entries.cells().len() - entries.position(),
        {
            let ghost start = entries.position();
            let ghost shown = text@;
            match entries.next() {
                Some((key, value)) => {
                    if !first {
                        text.append(", ");
                    }
                    first = false;
                    let key_text = debug_text(key);
                    let value_text = debug_text(value);
                    text.append(key_text.as_str());
                    text.append(": ");
                    text.append(value_text.as_str());
                    proof {
                        reveal_strlit(", ");
                        reveal_strlit(": ");
                        let at = entries.position() - 1;
                        lemma_taken_skip(cells, start, at);
                        assert(cells[at] is Some);
                        assert(taken_from(cells, at) == 1 + taken_from(cells, at + 1));
                        let more = parts.push((key_text@, value_text@));
                        assert(more.drop_last() =~= parts);
                        assert(joined(more, parts.len()) == joined(parts, parts.len())) by {
                            lemma_joined_prefix(parts, more, parts.len());
                        }
                        assert(text@ =~= seq!['{'] + joined(more, more.len()));
                        parts = more;
                    }
                },
                None => {
                    proof {
                        lemma_taken_skip(cells, start, cells.len() as int);
                    }
                    break ;
                },
            }
        }
        text.append("}");
        proof {
            reveal_strlit("}");
            reveal_strlit("{}");
            assert(text@ =~= framed(parts));
            if forall|i: int| 0 <= i < self.cells().len() ==> (#[trigger] self.cells()[i]) is None {
                lemma_taken_none(cells, 0);
                assert(text@ =~= "{}"@);
            }
        }
        text
    }

}


/// What was inserted is found: after `k` went in with `v` under `hash`, a
/// lookup of `k` under the same hash gives `v`.
pub proof fn law_inserted_is_found<K, V>(
    base: Seq<Option<(K, V, u64)>>,
    capacity: usize,
    k: K,
    v: V,
    hash: u64,
    after: Seq<Option<(K, V, u64)>>,
    replaced: Option<V>,
)
    requires
        base.len() == capacity,
        capacity > 0,
        inserted(base, origin_of(hash, capacity), k, v, hash, after, replaced),
    ensures
        finds(after, capacity, k, hash, Some(&v)),
{
    let origin = origin_of(hash, capacity);
    let i = choose|i: int| #[trigger]
        placed_at(base, origin, k, i) && after == base.update(i, Some((k, v, hash))) && replaced == (
        match base[i] {
            Some(entry) => Some(entry.1),
            None => None,
        });
    assert(holds(after, i, k, hash));
    assert forall|j: int| 0 <= j < after.len() && #[trigger] holds(after, j, k, hash) implies steps_to(
        after.len() as int,
        origin,
        i,
    ) <= steps_to(after.len() as int, origin, j) by {
        if j != i {
            assert(takes(base, j, k));
        }
    }
    assert(found_at(after, origin, k, hash, i) && after[i].unwrap().1 == v);
}

} // verus!
