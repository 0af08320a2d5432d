//! Finding a row by its id: the rows of a table bucketed by a hash of their
//! ids, so that a lookup compares only the ids that share the hash.

use crate::gtfs::models::{GtfsArea, GtfsRoute, GtfsShape, GtfsStop, GtfsTrip};
use crate::repository::last_index_of;
use crate::repository::models::{Area, Route, Stop, Trip};
use crate::text::{chars_of, str_eq};
use std::collections::HashMap;
use vstd::prelude::*;

verus! {

broadcast use vstd::std_specs::hash::group_hash_axioms;

/// The modulus of the id hash: the largest prime below 2^32.
pub const HASH_MODULUS: u64 = 4294967291;

/// The hash of an id: its characters read as the digits of a number in base
/// 31, modulo `HASH_MODULUS`.
pub open spec fn id_hash(s: Seq<char>) -> u64
    decreases s.len(),
{
    if s.len() == 0 {
        0
    } else {
        ((id_hash(s.drop_last()) * 31 + (s.last() as u32)) % (HASH_MODULUS as int)) as u64
    }
}

pub proof fn lemma_id_hash_below(s: Seq<char>)
    ensures
        id_hash(s) < HASH_MODULUS,
    decreases s.len(),
{
    if s.len() > 0 {
        lemma_id_hash_below(s.drop_last());
    }
}

/// The hash of an id.
pub fn hash_id(s: &str) -> (h: u64)
    ensures
        h == id_hash(s@),
{
    let chars = chars_of(s);
    let mut h: u64 = 0;
    let mut i: usize = 0;
    assert(chars@.subrange(0, 0) =~= Seq::<char>::empty());
    while i < chars.len()
        invariant
            i <= chars@.len(),
            chars@ == s@,
            h == id_hash(chars@.subrange(0, i as int)),
            h < HASH_MODULUS,
        decreases chars@.len() - i,
    {
        let c = chars[i] as u32;
        assert(chars@.subrange(0, i + 1).drop_last() =~= chars@.subrange(0, i as int));
        h = (h * 31 + c as u64) % HASH_MODULUS;
        i = i + 1;
    }
    assert(chars@.subrange(0, chars@.len() as int) =~= chars@);
    h
}

/// The rows among the first `n` whose id has hash `h`, in row order.
pub open spec fn hash_rows(ids: Seq<Seq<char>>, n: nat, h: u64) -> Seq<u32>
    decreases n,
{
    if n == 0 {
        Seq::empty()
    } else {
        let init = hash_rows(ids, (n - 1) as nat, h);
        if id_hash(ids[n - 1]) == h {
            init.push((n - 1) as u32)
        } else {
            init
        }
    }
}

pub proof fn lemma_hash_rows_prefix(a: Seq<Seq<char>>, b: Seq<Seq<char>>, n: nat, h: u64)
    requires
        n <= a.len(),
        n <= b.len(),
        forall|i: int| 0 <= i < n ==> a[i] == b[i],
    ensures
        hash_rows(a, n, h) == hash_rows(b, n, h),
    decreases n,
{
    if n > 0 {
        lemma_hash_rows_prefix(a, b, (n - 1) as nat, h);
        assert(a[n - 1] == b[n - 1]);
    }
}

/// The last of `rows` whose id is `id`, or -1.
pub open spec fn last_match_in(ids: Seq<Seq<char>>, rows: Seq<u32>, id: Seq<char>) -> int
    decreases rows.len(),
{
    if rows.len() == 0 {
        -1
    } else if ids[rows.last() as int] == id {
        rows.last() as int
    } else {
        last_match_in(ids, rows.drop_last(), id)
    }
}

pub proof fn lemma_hash_rows_below(ids: Seq<Seq<char>>, n: nat, h: u64)
    ensures
        forall|k: int| 0 <= k < hash_rows(ids, n, h).len() ==> #[trigger] hash_rows(ids, n, h)[k] < n,
    decreases n,
{
    if n > 0 {
        lemma_hash_rows_below(ids, (n - 1) as nat, h);
        let init = hash_rows(ids, (n - 1) as nat, h);
        assert forall|k: int| 0 <= k < hash_rows(ids, n, h).len() implies #[trigger] hash_rows(ids, n, h)[k] < n by {
            if k < init.len() {
                assert(init[k] < n - 1);
            }
        }
    }
}

/// Every row with id `id` shares its hash, so the last row with that id is
/// the last of its hash's rows with that id.
pub proof fn lemma_hash_rows_find(ids: Seq<Seq<char>>, n: nat, id: Seq<char>)
    requires
        n <= ids.len(),
        n <= u32::MAX + 1,
    ensures
        last_match_in(ids, hash_rows(ids, n, id_hash(id)), id) == last_index_of(ids.subrange(0, n as int), id),
    decreases n,
{
    let rows = hash_rows(ids, n, id_hash(id));
    if n == 0 {
        assert(ids.subrange(0, 0).len() == 0);
    } else {
        let m = (n - 1) as nat;
        lemma_hash_rows_find(ids, m, id);
        assert(ids.subrange(0, n as int).drop_last() =~= ids.subrange(0, m as int));
        assert(ids.subrange(0, n as int).last() == ids[m as int]);
        if id_hash(ids[m as int]) == id_hash(id) {
            assert(rows.drop_last() =~= hash_rows(ids, m, id_hash(id)));
            assert(rows.last() == m as u32);
        }
    }
}

/// The rows of a table bucketed by the hash of their id.
#[derive(Debug, Clone, Default)]
pub struct IdIndex {
    buckets: HashMap<u64, Vec<u32>>,
    count: u32,
}

impl IdIndex {
    /// The number of rows indexed.
    pub closed spec fn len(&self) -> nat {
        self.count as nat
    }

    /// The index holds the rows whose ids are `ids`: each hash's bucket
    /// holds exactly the rows whose id has that hash.
    pub closed spec fn indexes(&self, ids: Seq<Seq<char>>) -> bool {
        &&& self.count == ids.len()
        &&& forall|h: u64| #[trigger] self.buckets@.contains_key(h) ==> self.buckets@[h]@ == hash_rows(
            ids,
            ids.len(),
            h,
        )
        &&& forall|h: u64| #[trigger] hash_rows(ids, ids.len(), h).len() > 0 ==> self.buckets@.contains_key(h)
    }

    /// An index of no rows.
    pub fn new() -> (r: IdIndex)
        ensures
            r.indexes(Seq::<Seq<char>>::empty()),
            r.len() == 0,
    {
        IdIndex { buckets: HashMap::new(), count: 0 }
    }

    /// Adds the next row, with id `id`.
    pub fn push(&mut self, id: &str)
        requires
            old(self).len() < u32::MAX,
        ensures
            final(self).len() == old(self).len() + 1,
            forall|ids: Seq<Seq<char>>| #[trigger] old(self).indexes(ids) ==> final(self).indexes(ids.push(id@)),
    {
        let row = self.count;
        let h = hash_id(id);
        let ghost before = *self;
        let mut bucket = match self.buckets.remove(&h) {
            Some(v) => v,
            None => Vec::new(),
        };
        bucket.push(row);
        self.buckets.insert(h, bucket);
        self.count = self.count + 1;
        proof {
            assert forall|ids: Seq<Seq<char>>| #[trigger] before.indexes(ids) implies self.indexes(ids.push(id@)) by {
                let new_ids = ids.push(id@);
                let n = ids.len();
                assert forall|g: u64| #[trigger] hash_rows(new_ids, n, g) == hash_rows(ids, n, g) by {
                    lemma_hash_rows_prefix(ids, new_ids, n, g);
                }
                assert forall|g: u64| #[trigger] self.buckets@.contains_key(g) implies self.buckets@[g]@ == hash_rows(
                    new_ids,
                    new_ids.len(),
                    g,
                ) by {
                    assert(hash_rows(new_ids, n, g) == hash_rows(ids, n, g));
                    if g != h {
                        assert(before.buckets@.contains_key(g));
                    } else if !before.buckets@.contains_key(g) {
                        assert(hash_rows(ids, n, g).len() == 0);
                    }
                }
                assert forall|g: u64| #[trigger] hash_rows(new_ids, new_ids.len(), g).len() > 0 implies self.buckets@.contains_key(g) by {
                    assert(hash_rows(new_ids, n, g) == hash_rows(ids, n, g));
                    if g != h {
                        assert(hash_rows(ids, n, g).len() > 0);
                    }
                }
            }
        }
    }

    /// The rows whose id has the hash of `id`, in row order (none where
    /// there are no such rows).
    pub fn rows(&self, id: &str) -> (r: Option<&Vec<u32>>)
        ensures
            forall|ids: Seq<Seq<char>>|
                #[trigger] self.indexes(ids) ==> match r {
                    Some(v) => v@ == hash_rows(ids, ids.len(), id_hash(id@)),
                    None => hash_rows(ids, ids.len(), id_hash(id@)).len() == 0,
                },
    {
        let h = hash_id(id);
        self.buckets.get(&h)
    }
}

/// A row that is looked up by an id.
pub trait Keyed {
    spec fn key(&self) -> Seq<char>;

    fn key_str(&self) -> (r: &str)
        ensures
            r@ == self.key(),
    ;
}

impl Keyed for Stop {
    open spec fn key(&self) -> Seq<char> {
        self.id@
    }

    fn key_str(&self) -> (r: &str) {
        self.id.as_str()
    }
}

impl Keyed for Area {
    open spec fn key(&self) -> Seq<char> {
        self.id@
    }

    fn key_str(&self) -> (r: &str) {
        self.id.as_str()
    }
}

impl Keyed for Trip {
    open spec fn key(&self) -> Seq<char> {
        self.id@
    }

    fn key_str(&self) -> (r: &str) {
        self.id.as_str()
    }
}

impl Keyed for Route {
    open spec fn key(&self) -> Seq<char> {
        self.id@
    }

    fn key_str(&self) -> (r: &str) {
        self.id.as_str()
    }
}

impl Keyed for GtfsStop {
    open spec fn key(&self) -> Seq<char> {
        self.stop_id@
    }

    fn key_str(&self) -> (r: &str) {
        self.stop_id.as_str()
    }
}

impl Keyed for GtfsArea {
    open spec fn key(&self) -> Seq<char> {
        self.area_id@
    }

    fn key_str(&self) -> (r: &str) {
        self.area_id.as_str()
    }
}

impl Keyed for GtfsRoute {
    open spec fn key(&self) -> Seq<char> {
        self.route_id@
    }

    fn key_str(&self) -> (r: &str) {
        self.route_id.as_str()
    }
}

impl Keyed for GtfsTrip {
    open spec fn key(&self) -> Seq<char> {
        self.trip_id@
    }

    fn key_str(&self) -> (r: &str) {
        self.trip_id.as_str()
    }
}

impl Keyed for GtfsShape {
    open spec fn key(&self) -> Seq<char> {
        self.shape_id@
    }

    fn key_str(&self) -> (r: &str) {
        self.shape_id.as_str()
    }
}

/// The ids of the rows, in order.
pub open spec fn keys_of<T: Keyed>(items: Seq<T>) -> Seq<Seq<char>> {
    items.map_values(|x: T| x.key())
}

/// An index of the ids of `items`.
pub fn index_keys<T: Keyed>(items: &Vec<T>) -> (r: IdIndex)
    requires
        items@.len() < u32::MAX,
    ensures
        r.indexes(keys_of(items@)),
{
    let mut index = IdIndex::new();
    let mut i: usize = 0;
    assert(keys_of(items@.subrange(0, 0)) =~= Seq::<Seq<char>>::empty());
    while i < items.len()
        invariant
            items@.len() < u32::MAX,
            i <= items@.len(),
            index.len() == i,
            index.indexes(keys_of(items@.subrange(0, i as int))),
        decreases items@.len() - i,
    {
        let ghost before = index;
        index.push(items[i].key_str());
        proof {
            assert(keys_of(items@.subrange(0, i + 1)) =~= keys_of(items@.subrange(0, i as int)).push(items@[i as int].key()));
        }
        i = i + 1;
    }
    assert(items@.subrange(0, items@.len() as int) =~= items@);
    index
}

/// The position of the last of `items` with id `id`, if any, found through
/// `index`.
pub fn find_last<T: Keyed>(items: &Vec<T>, index: &IdIndex, id: &str) -> (r: Option<u32>)
    requires
        index.indexes(keys_of(items@)),
        items@.len() <= u32::MAX,
    ensures
        r is None <==> last_index_of(keys_of(items@), id@) < 0,
        r matches Some(i) ==> i as int == last_index_of(keys_of(items@), id@) && i < items@.len(),
{
    let ghost ids = keys_of(items@);
    let ghost n = items@.len();
    proof {
        lemma_hash_rows_find(ids, n, id@);
        assert(ids.subrange(0, n as int) =~= ids);
        lemma_hash_rows_below(ids, n, id_hash(id@));
    }
    match index.rows(id) {
        None => {
            assert(hash_rows(ids, n, id_hash(id@)) =~= Seq::<u32>::empty());
            None
        },
        Some(rows) => {
            let ghost all = rows@;
            let mut k: usize = rows.len();
            assert(all.subrange(0, k as int) =~= all);
            while k > 0
                invariant
                    rows@ == all,
                    all == hash_rows(ids, n, id_hash(id@)),
                    ids == keys_of(items@),
                    n == items@.len(),
                    forall|j: int| 0 <= j < all.len() ==> #[trigger] all[j] < n,
                    k <= all.len(),
                    last_match_in(ids, all, id@) == last_index_of(ids, id@),
                    last_match_in(ids, all, id@) == last_match_in(ids, all.subrange(0, k as int), id@),
                decreases k,
            {
                let row = rows[k - 1];
                assert(all.subrange(0, k as int).drop_last() =~= all.subrange(0, k - 1));
                assert(all.subrange(0, k as int).last() == row);
                assert(row < n);
                assert(ids[row as int] == items@[row as int].key());
                if str_eq(items[row as usize].key_str(), id) {
                    assert(last_match_in(ids, all.subrange(0, k as int), id@) == row as int);
                    return Some(row);
                }
                k = k - 1;
            }
            assert(all.subrange(0, 0) =~= Seq::<u32>::empty());
            None
        },
    }
}

} // verus!
