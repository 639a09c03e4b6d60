use vstd::prelude::*;

use crate::error::{PublishOutcome, StoreError};
use crate::identity::Identity;
use crate::object::{bytes_eq, digest_of, Object, ObjectView};

verus! {

/// A staging handle: an exclusively owned scratch slot, private to its
/// caller, where object content is built up before it is published.  A
/// handle that is dropped without being published leaves no trace in the
/// object table; its registry entry is reclaimed by `sweep`.
pub struct TempDir {
    token: u64,
    created_at: u64,
    content: Option<Object>,
}

/// The mathematical shape of a `TempDir`.
pub struct TempDirView {
    pub token: u64,
    pub created_at: u64,
    pub content: Option<ObjectView>,
}

impl View for TempDir {
    type V = TempDirView;

    closed spec fn view(&self) -> TempDirView {
        TempDirView {
            token: self.token,
            created_at: self.created_at,
            content: match self.content {
                Some(o) => Some(o@),
                None => None,
            },
        }
    }
}

impl TempDir {
    /// A fresh, empty handle at the given unique token, stamped with its
    /// creation time.
    pub fn create_at(token: u64, created_at: u64) -> (r: TempDir)
        ensures
            r@ == (TempDirView { token, created_at, content: None }),
    {
        TempDir { token, created_at, content: None }
    }

    /// Stages content under the handle, replacing anything staged before.
    /// The handle is private to its owner, so no other caller is affected.
    pub fn write(&mut self, obj: Object)
        ensures
            final(self)@ == (TempDirView { content: Some(obj@), ..old(self)@ }),
    {
        self.content = Some(obj);
    }

    /// The unique token of this handle.
    pub fn token(&self) -> (r: u64)
        ensures
            r == self@.token,
    {
        self.token
    }

    /// When this handle was created.
    pub fn created_at(&self) -> (r: u64)
        ensures
            r == self@.created_at,
    {
        self.created_at
    }
}

/// The mathematical state of a store: the object table keyed by identity,
/// the ref table keyed by name, the registry of outstanding staging tokens
/// with their creation times, and the next staging token.
pub struct StoreView {
    pub objects: Map<Identity, ObjectView>,
    pub refs: Map<Seq<u8>, Identity>,
    pub temp: Map<u64, u64>,
    pub next_token: u64,
}

struct ObjEntry {
    id: Identity,
    obj: Object,
}

/// One row of a ref listing: a name bound to an identity.
pub struct RefEntry {
    pub name: Vec<u8>,
    pub id: Identity,
}

struct TempEntry {
    token: u64,
    created_at: u64,
}

spec fn obj_pairs(s: Seq<ObjEntry>) -> Seq<(Identity, ObjectView)> {
    s.map_values(|e: ObjEntry| (e.id, e.obj@))
}

spec fn ref_pairs(s: Seq<RefEntry>) -> Seq<(Seq<u8>, Identity)> {
    s.map_values(|e: RefEntry| (e.name@, e.id))
}

spec fn temp_pairs(s: Seq<TempEntry>) -> Seq<(u64, u64)> {
    s.map_values(|e: TempEntry| (e.token, e.created_at))
}

/// The map held by an association list, later rows shadowing earlier ones.
spec fn pairs_to_map<K, V>(s: Seq<(K, V)>) -> Map<K, V>
    decreases s.len(),
{
    if s.len() == 0 {
        Map::empty()
    } else {
        pairs_to_map(s.drop_last()).insert(s.last().0, s.last().1)
    }
}

/// Whether the keys of an association list are pairwise distinct.
spec fn keys_distinct<K, V>(s: Seq<(K, V)>) -> bool {
    forall|p: int, q: int| 0 <= p < q < s.len() ==> (#[trigger] s[p]).0 != (#[trigger] s[q]).0
}

proof fn lemma_distinct_drop_last<K, V>(s: Seq<(K, V)>)
    requires
        keys_distinct(s),
        s.len() > 0,
    ensures
        keys_distinct(s.drop_last()),
{
    assert forall|p: int, q: int| 0 <= p < q < s.drop_last().len() implies (#[trigger] s.drop_last()[p]).0
        != (#[trigger] s.drop_last()[q]).0 by {
        assert(s.drop_last()[p] == s[p]);
        assert(s.drop_last()[q] == s[q]);
    }
}

/// A row of an association list with distinct keys is in its map.
proof fn lemma_map_contains_index<K, V>(s: Seq<(K, V)>, p: int)
    requires
        keys_distinct(s),
        0 <= p < s.len(),
    ensures
        pairs_to_map(s).contains_key(s[p].0),
        pairs_to_map(s)[s[p].0] == s[p].1,
    decreases s.len(),
{
    if p == s.len() - 1 {
        assert(s.last() == s[p]);
    } else {
        lemma_distinct_drop_last(s);
        lemma_map_contains_index(s.drop_last(), p);
        assert(s.drop_last()[p] == s[p]);
        assert(s[p].0 != s.last().0);
    }
}

/// A key of the map of an association list stands in some row.
proof fn lemma_map_contains_only<K, V>(s: Seq<(K, V)>, k: K)
    requires
        pairs_to_map(s).contains_key(k),
    ensures
        exists|p: int| 0 <= p < s.len() && (#[trigger] s[p]).0 == k,
    decreases s.len(),
{
    if s.len() == 0 {
        assert(!Map::<K, V>::empty().contains_key(k));
    } else if s.last().0 == k {
        assert(s[s.len() - 1].0 == k);
    } else {
        lemma_map_contains_only(s.drop_last(), k);
        let p = choose|p: int| 0 <= p < s.drop_last().len() && (#[trigger] s.drop_last()[p]).0 == k;
        assert(s[p].0 == k);
    }
}

/// Appending a row inserts its pair.
proof fn lemma_map_push<K, V>(s: Seq<(K, V)>, x: (K, V))
    ensures
        pairs_to_map(s.push(x)) == pairs_to_map(s).insert(x.0, x.1),
{
    assert(s.push(x).drop_last() =~= s);
    assert(s.push(x).last() == x);
}

proof fn lemma_distinct_push<K, V>(s: Seq<(K, V)>, x: (K, V))
    requires
        keys_distinct(s),
        forall|q: int| 0 <= q < s.len() ==> (#[trigger] s[q]).0 != x.0,
    ensures
        keys_distinct(s.push(x)),
{
    assert forall|p: int, q: int| 0 <= p < q < s.push(x).len() implies (#[trigger] s.push(x)[p]).0
        != (#[trigger] s.push(x)[q]).0 by {
        assert(s.push(x)[p] == s[p]);
        if q < s.len() {
            assert(s.push(x)[q] == s[q]);
        } else {
            assert(s.push(x)[q] == x);
        }
    }
}

proof fn lemma_distinct_remove<K, V>(s: Seq<(K, V)>, p: int)
    requires
        keys_distinct(s),
        0 <= p < s.len(),
    ensures
        keys_distinct(s.remove(p)),
        forall|q: int| 0 <= q < s.remove(p).len() ==> (#[trigger] s.remove(p)[q]).0 != s[p].0,
{
    s.remove_ensures(p);
    assert forall|a: int, b: int| 0 <= a < b < s.remove(p).len() implies (#[trigger] s.remove(
        p,
    )[a]).0 != (#[trigger] s.remove(p)[b]).0 by {
        let ra = if a < p { a } else { a + 1 };
        let rb = if b < p { b } else { b + 1 };
        assert(s.remove(p)[a] == s[ra]);
        assert(s.remove(p)[b] == s[rb]);
    }
    assert forall|q: int| 0 <= q < s.remove(p).len() implies (#[trigger] s.remove(p)[q]).0
        != s[p].0 by {
        let rq = if q < p { q } else { q + 1 };
        assert(s.remove(p)[q] == s[rq]);
    }
}

/// Removing a row removes its key from the map.
proof fn lemma_map_remove<K, V>(s: Seq<(K, V)>, p: int)
    requires
        keys_distinct(s),
        0 <= p < s.len(),
    ensures
        pairs_to_map(s.remove(p)) == pairs_to_map(s).remove(s[p].0),
    decreases s.len(),
{
    if p == s.len() - 1 {
        assert(s.remove(p) =~= s.drop_last());
        if pairs_to_map(s.drop_last()).contains_key(s[p].0) {
            lemma_map_contains_only(s.drop_last(), s[p].0);
            let q = choose|q: int|
                0 <= q < s.drop_last().len() && (#[trigger] s.drop_last()[q]).0 == s[p].0;
            assert(s[q].0 == s[p].0);
            assert(false);
        }
        assert(pairs_to_map(s).remove(s[p].0) =~= pairs_to_map(s.drop_last()));
    } else {
        lemma_distinct_drop_last(s);
        lemma_map_remove(s.drop_last(), p);
        assert(s.remove(p).drop_last() =~= s.drop_last().remove(p));
        assert(s.remove(p).last() == s.last());
        assert(s.drop_last()[p] == s[p]);
        assert(s[p].0 != s.last().0);
        assert(pairs_to_map(s.remove(p)) =~= pairs_to_map(s).remove(s[p].0));
    }
}

/// Whether a staging entry created at `created_at` is past the grace
/// threshold at time `now`: strictly older than `grace`, never merely as
/// old, so an in-flight writer is never raced.
pub open spec fn expired(created_at: u64, now: u64, grace: u64) -> bool {
    created_at + grace < now
}

/// Whether an identity is stored.
pub open spec fn has_spec(v: StoreView, id: Identity) -> bool {
    v.objects.contains_key(id)
}

/// What a name resolves to, if anything.
pub open spec fn resolve_spec(v: StoreView, name: Seq<u8>) -> Option<Identity> {
    if v.refs.contains_key(name) {
        Some(v.refs[name])
    } else {
        None
    }
}

/// Taking a staging handle: registers a fresh token, touches nothing else.
pub open spec fn begin_spec(v: StoreView, now: u64) -> StoreView
    recommends
        v.next_token < u64::MAX,
{
    StoreView {
        temp: v.temp.insert(v.next_token, now),
        next_token: (v.next_token + 1) as u64,
        ..v
    }
}

/// Publishing staged content: the object becomes visible at its identity
/// unless one is already stored there (the dedup path, where the staged copy
/// is discarded); the handle's registry entry is gone either way.
pub open spec fn publish_spec(v: StoreView, o: ObjectView, token: u64) -> StoreView {
    StoreView {
        objects: if v.objects.contains_key(digest_of(o)) {
            v.objects
        } else {
            v.objects.insert(digest_of(o), o)
        },
        temp: v.temp.remove(token),
        ..v
    }
}

/// Discarding a handle: only its registry entry goes away.
pub open spec fn discard_spec(v: StoreView, token: u64) -> StoreView {
    StoreView { temp: v.temp.remove(token), ..v }
}

/// The whole put: stage, publish, clean up.  One staging token is spent;
/// the registry is left as it was.
pub open spec fn put_spec(v: StoreView, o: ObjectView, now: u64) -> StoreView
    recommends
        v.next_token < u64::MAX,
{
    StoreView {
        objects: if v.objects.contains_key(digest_of(o)) {
            v.objects
        } else {
            v.objects.insert(digest_of(o), o)
        },
        next_token: (v.next_token + 1) as u64,
        ..v
    }
}

/// Binding a name: create-or-update, atomic to every reader.
pub open spec fn set_spec(v: StoreView, name: Seq<u8>, id: Identity) -> StoreView {
    StoreView { refs: v.refs.insert(name, id), ..v }
}

/// Unbinding a name: the objects are not touched.
pub open spec fn delete_spec(v: StoreView, name: Seq<u8>) -> StoreView {
    StoreView { refs: v.refs.remove(name), ..v }
}

/// The staging registry rows that a sweep at time `now` keeps: exactly the
/// ones not yet past the grace threshold.
spec fn young_entries(s: Seq<(u64, u64)>, now: u64, grace: u64) -> Seq<(u64, u64)>
    decreases s.len(),
{
    if s.len() == 0 {
        s
    } else {
        let rest = young_entries(s.drop_last(), now, grace);
        if !expired(s.last().1, now, grace) {
            rest.push(s.last())
        } else {
            rest
        }
    }
}

/// The map of the kept rows holds exactly the young tokens, unchanged.
proof fn lemma_young_map(s: Seq<(u64, u64)>, now: u64, grace: u64)
    requires
        keys_distinct(s),
    ensures
        keys_distinct(young_entries(s, now, grace)),
        forall|t: u64|
            #[trigger] pairs_to_map(young_entries(s, now, grace)).contains_key(t) <==> (
            pairs_to_map(s).contains_key(t) && !expired(pairs_to_map(s)[t], now, grace)),
        forall|t: u64|
            pairs_to_map(young_entries(s, now, grace)).contains_key(t) ==> pairs_to_map(
                young_entries(s, now, grace),
            )[t] == pairs_to_map(s)[t],
    decreases s.len(),
{
    if s.len() > 0 {
        let s0 = s.drop_last();
        let last = s.last();
        lemma_distinct_drop_last(s);
        lemma_young_map(s0, now, grace);
        let y0 = young_entries(s0, now, grace);
        if pairs_to_map(s0).contains_key(last.0) {
            lemma_map_contains_only(s0, last.0);
            let q = choose|q: int| 0 <= q < s0.len() && (#[trigger] s0[q]).0 == last.0;
            assert(s[q].0 == s[s.len() - 1].0);
            assert(false);
        }
        if !expired(last.1, now, grace) {
            lemma_map_push(y0, last);
            assert forall|q: int| 0 <= q < y0.len() implies (#[trigger] y0[q]).0 != last.0 by {
                lemma_map_contains_index(y0, q);
            }
            lemma_distinct_push(y0, last);
        }
    }
}

/// The store engine: the object table, the ref table, and the staging
/// registry, with the invariants that make content addressing sound — each
/// stored object sits at the identity of its own content, every key is
/// bound once, and staging tokens are never reused.
pub struct ObjectStore {
    objects: Vec<ObjEntry>,
    refs: Vec<RefEntry>,
    temp: Vec<TempEntry>,
    next_token: u64,
}

impl View for ObjectStore {
    type V = StoreView;

    closed spec fn view(&self) -> StoreView {
        StoreView {
            objects: pairs_to_map(obj_pairs(self.objects@)),
            refs: pairs_to_map(ref_pairs(self.refs@)),
            temp: pairs_to_map(temp_pairs(self.temp@)),
            next_token: self.next_token,
        }
    }
}

impl ObjectStore {
    /// The store's internal well-formedness, established by `new` and kept
    /// by every operation.
    pub closed spec fn inv(&self) -> bool {
        &&& keys_distinct(obj_pairs(self.objects@))
        &&& keys_distinct(ref_pairs(self.refs@))
        &&& keys_distinct(temp_pairs(self.temp@))
        &&& forall|p: int|
            0 <= p < self.objects@.len() ==> (#[trigger] obj_pairs(self.objects@)[p]).0
                == digest_of(obj_pairs(self.objects@)[p].1)
        &&& forall|p: int|
            0 <= p < self.temp@.len() ==> (#[trigger] temp_pairs(self.temp@)[p]).0
                < self.next_token
    }

    /// An empty store: no objects, no refs, no staging entries.
    pub fn new() -> (r: ObjectStore)
        ensures
            r.inv(),
            r@.objects == Map::<Identity, ObjectView>::empty(),
            r@.refs == Map::<Seq<u8>, Identity>::empty(),
            r@.temp == Map::<u64, u64>::empty(),
            r@.next_token == 0,
    {
        let s = ObjectStore { objects: Vec::new(), refs: Vec::new(), temp: Vec::new(), next_token: 0 };
        proof {
            assert(obj_pairs(s.objects@) =~= Seq::<(Identity, ObjectView)>::empty());
            assert(ref_pairs(s.refs@) =~= Seq::<(Seq<u8>, Identity)>::empty());
            assert(temp_pairs(s.temp@) =~= Seq::<(u64, u64)>::empty());
        }
        s
    }

    fn find_object(&self, id: &Identity) -> (r: Option<usize>)
        ensures
            match r {
                Some(p) => p < self.objects@.len() && obj_pairs(self.objects@)[p as int].0 == *id,
                None => forall|q: int|
                    0 <= q < self.objects@.len() ==> (#[trigger] obj_pairs(self.objects@)[q]).0
                        != *id,
            },
    {
        let mut p: usize = 0;
        while p < self.objects.len()
            invariant
                0 <= p <= self.objects@.len(),
                forall|q: int|
                    0 <= q < p ==> (#[trigger] obj_pairs(self.objects@)[q]).0 != *id,
            decreases self.objects@.len() - p,
        {
            proof {
                assert(obj_pairs(self.objects@)[p as int] == (
                    self.objects@[p as int].id,
                    self.objects@[p as int].obj@,
                ));
            }
            if self.objects[p].id == *id {
                return Some(p);
            }
            p = p + 1;
        }
        None
    }

    fn find_ref(&self, name: &Vec<u8>) -> (r: Option<usize>)
        ensures
            match r {
                Some(p) => p < self.refs@.len() && ref_pairs(self.refs@)[p as int].0 == name@,
                None => forall|q: int|
                    0 <= q < self.refs@.len() ==> (#[trigger] ref_pairs(self.refs@)[q]).0 != name@,
            },
    {
        let mut p: usize = 0;
        while p < self.refs.len()
            invariant
                0 <= p <= self.refs@.len(),
                forall|q: int| 0 <= q < p ==> (#[trigger] ref_pairs(self.refs@)[q]).0 != name@,
            decreases self.refs@.len() - p,
        {
            proof {
                assert(ref_pairs(self.refs@)[p as int] == (
                    self.refs@[p as int].name@,
                    self.refs@[p as int].id,
                ));
            }
            if bytes_eq(&self.refs[p].name, name) {
                return Some(p);
            }
            p = p + 1;
        }
        None
    }

    fn find_temp(&self, token: u64) -> (r: Option<usize>)
        ensures
            match r {
                Some(p) => p < self.temp@.len() && temp_pairs(self.temp@)[p as int].0 == token,
                None => forall|q: int|
                    0 <= q < self.temp@.len() ==> (#[trigger] temp_pairs(self.temp@)[q]).0
                        != token,
            },
    {
        let mut p: usize = 0;
        while p < self.temp.len()
            invariant
                0 <= p <= self.temp@.len(),
                forall|q: int| 0 <= q < p ==> (#[trigger] temp_pairs(self.temp@)[q]).0 != token,
            decreases self.temp@.len() - p,
        {
            proof {
                assert(temp_pairs(self.temp@)[p as int] == (
                    self.temp@[p as int].token,
                    self.temp@[p as int].created_at,
                ));
            }
            if self.temp[p].token == token {
                return Some(p);
            }
            p = p + 1;
        }
        None
    }

    /// Whether an object with this identity is stored.  Never partial: an
    /// object either is in the table or is not.
    pub fn has(&self, id: &Identity) -> (r: bool)
        requires
            self.inv(),
        ensures
            r == has_spec(self@, *id),
    {
        match self.find_object(id) {
            Some(p) => {
                proof {
                    lemma_map_contains_index(obj_pairs(self.objects@), p as int);
                }
                true
            },
            None => {
                proof {
                    if self@.objects.contains_key(*id) {
                        lemma_map_contains_only(obj_pairs(self.objects@), *id);
                    }
                }
                false
            },
        }
    }

    /// The stored object with this identity, or `NotFound`.
    pub fn get(&self, id: &Identity) -> (r: Result<&Object, StoreError>)
        requires
            self.inv(),
        ensures
            match r {
                Ok(o) => has_spec(self@, *id) && o@ == self@.objects[*id],
                Err(e) => e == StoreError::NotFound && !has_spec(self@, *id),
            },
    {
        match self.find_object(id) {
            Some(p) => {
                proof {
                    lemma_map_contains_index(obj_pairs(self.objects@), p as int);
                    assert(obj_pairs(self.objects@)[p as int] == (
                        self.objects@[p as int].id,
                        self.objects@[p as int].obj@,
                    ));
                }
                Ok(&self.objects[p].obj)
            },
            None => {
                proof {
                    if self@.objects.contains_key(*id) {
                        lemma_map_contains_only(obj_pairs(self.objects@), *id);
                    }
                }
                Err(StoreError::NotFound)
            },
        }
    }

    /// Every stored identity, once each, for reclamation tooling.
    #[verifier::rlimit(50)]
    pub fn enumerate(&self) -> (r: Vec<Identity>)
        requires
            self.inv(),
        ensures
            forall|k: int| 0 <= k < r@.len() ==> has_spec(self@, #[trigger] r@[k]),
            forall|id: Identity| has_spec(self@, id) ==> r@.contains(id),
            forall|p: int, q: int| 0 <= p < q < r@.len() ==> r@[p] != r@[q],
    {
        let mut out: Vec<Identity> = Vec::new();
        let mut p: usize = 0;
        while p < self.objects.len()
            invariant
                0 <= p <= self.objects@.len(),
                out@.len() == p,
                forall|k: int| 0 <= k < p ==> out@[k] == (#[trigger] obj_pairs(self.objects@)[k]).0,
            decreases self.objects@.len() - p,
        {
            proof {
                assert(obj_pairs(self.objects@)[p as int] == (
                    self.objects@[p as int].id,
                    self.objects@[p as int].obj@,
                ));
            }
            out.push(self.objects[p].id);
            p = p + 1;
        }
        proof {
            assert forall|k: int| 0 <= k < out@.len() implies has_spec(self@, #[trigger] out@[k]) by {
                lemma_map_contains_index(obj_pairs(self.objects@), k);
            }
            assert forall|id: Identity| has_spec(self@, id) implies out@.contains(id) by {
                lemma_map_contains_only(obj_pairs(self.objects@), id);
                let q = choose|q: int|
                    0 <= q < obj_pairs(self.objects@).len() && (#[trigger] obj_pairs(
                        self.objects@,
                    )[q]).0 == id;
                assert(out@[q] == id);
            }
            assert forall|p: int, q: int| 0 <= p < q < out@.len() implies out@[p] != out@[q] by {
                assert(out@[p] == (#[trigger] obj_pairs(self.objects@)[p]).0);
                assert(out@[q] == (#[trigger] obj_pairs(self.objects@)[q]).0);
            }
        }
        out
    }

    /// Every outstanding staging token, once each, for reclamation tooling.
    #[verifier::rlimit(50)]
    pub fn staging_tokens(&self) -> (r: Vec<u64>)
        requires
            self.inv(),
        ensures
            forall|k: int| 0 <= k < r@.len() ==> self@.temp.contains_key(#[trigger] r@[k]),
            forall|t: u64| self@.temp.contains_key(t) ==> r@.contains(t),
            forall|p: int, q: int| 0 <= p < q < r@.len() ==> r@[p] != r@[q],
    {
        let mut out: Vec<u64> = Vec::new();
        let mut p: usize = 0;
        while p < self.temp.len()
            invariant
                0 <= p <= self.temp@.len(),
                out@.len() == p,
                forall|k: int| 0 <= k < p ==> out@[k] == (#[trigger] temp_pairs(self.temp@)[k]).0,
            decreases self.temp@.len() - p,
        {
            proof {
                assert(temp_pairs(self.temp@)[p as int] == (
                    self.temp@[p as int].token,
                    self.temp@[p as int].created_at,
                ));
            }
            out.push(self.temp[p].token);
            p = p + 1;
        }
        proof {
            assert forall|k: int| 0 <= k < out@.len() implies self@.temp.contains_key(
                #[trigger] out@[k],
            ) by {
                lemma_map_contains_index(temp_pairs(self.temp@), k);
            }
            assert forall|t: u64| self@.temp.contains_key(t) implies out@.contains(t) by {
                lemma_map_contains_only(temp_pairs(self.temp@), t);
                let q = choose|q: int|
                    0 <= q < temp_pairs(self.temp@).len() && (#[trigger] temp_pairs(
                        self.temp@,
                    )[q]).0 == t;
                assert(out@[q] == t);
            }
            assert forall|p: int, q: int| 0 <= p < q < out@.len() implies out@[p] != out@[q] by {
                assert(out@[p] == (#[trigger] temp_pairs(self.temp@)[p]).0);
                assert(out@[q] == (#[trigger] temp_pairs(self.temp@)[q]).0);
            }
        }
        out
    }

    /// Takes a staging handle: a fresh, never-reused token is registered and
    /// handed back.  Fails with `ResourceError` only when the token space is
    /// exhausted; nothing else in the store changes on either outcome.
    pub fn begin(&mut self, now: u64) -> (r: Result<TempDir, StoreError>)
        requires
            old(self).inv(),
        ensures
            final(self).inv(),
            match r {
                Ok(h) => old(self)@.next_token < u64::MAX && h@ == (TempDirView {
                    token: old(self)@.next_token,
                    created_at: now,
                    content: None,
                }) && !old(self)@.temp.contains_key(h@.token) && final(self)@ == begin_spec(
                    old(self)@,
                    now,
                ),
                Err(e) => e == StoreError::ResourceError && old(self)@.next_token == u64::MAX
                    && final(self)@ == old(self)@,
            },
    {
        if self.next_token == u64::MAX {
            return Err(StoreError::ResourceError);
        }
        let token = self.next_token;
        proof {
            if pairs_to_map(temp_pairs(self.temp@)).contains_key(token) {
                lemma_map_contains_only(temp_pairs(self.temp@), token);
                assert(false);
            }
            assert forall|q: int| 0 <= q < self.temp@.len() implies (#[trigger] temp_pairs(
                self.temp@,
            )[q]).0 != token by {}
            lemma_distinct_push(temp_pairs(self.temp@), (token, now));
            lemma_map_push(temp_pairs(self.temp@), (token, now));
        }
        let ghost old_pairs = temp_pairs(self.temp@);
        self.next_token = self.next_token + 1;
        self.temp.push(TempEntry { token, created_at: now });
        proof {
            assert(temp_pairs(self.temp@) =~= old_pairs.push((token, now)));
            assert forall|q: int| 0 <= q < self.temp@.len() implies (#[trigger] temp_pairs(
                self.temp@,
            )[q]).0 < self.next_token by {
                if q < old_pairs.len() {
                    assert(temp_pairs(self.temp@)[q] == old_pairs[q]);
                } else {
                    assert(temp_pairs(self.temp@)[q] == (token, now));
                }
            }
        }
        Ok(TempDir::create_at(token, now))
    }

    /// Drops a handle's registry entry, if it is there.
    fn remove_temp(&mut self, token: u64)
        requires
            old(self).inv(),
        ensures
            final(self).inv(),
            final(self)@ == (StoreView { temp: old(self)@.temp.remove(token), ..old(self)@ }),
    {
        match self.find_temp(token) {
            Some(p) => {
                let ghost old_pairs = temp_pairs(self.temp@);
                let _ = self.temp.remove(p);
                proof {
                    assert(temp_pairs(self.temp@) =~= old_pairs.remove(p as int));
                    lemma_distinct_remove(old_pairs, p as int);
                    lemma_map_remove(old_pairs, p as int);
                    assert forall|q: int| 0 <= q < self.temp@.len() implies (#[trigger] temp_pairs(
                        self.temp@,
                    )[q]).0 < self.next_token by {
                        old_pairs.remove_ensures(p as int);
                        let rq = if q < p { q } else { q + 1 };
                        assert(temp_pairs(self.temp@)[q] == old_pairs[rq]);
                    }
                }
            },
            None => {
                proof {
                    if pairs_to_map(temp_pairs(self.temp@)).contains_key(token) {
                        lemma_map_contains_only(temp_pairs(self.temp@), token);
                        assert(false);
                    }
                    assert(pairs_to_map(temp_pairs(self.temp@)).remove(token) =~= pairs_to_map(
                        temp_pairs(self.temp@),
                    ));
                }
            },
        }
    }

    /// Publishes the content staged under a handle at the given identity —
    /// the commit step that alone makes an object visible.  If an object
    /// with that identity is already stored, the staged copy is redundant:
    /// it is discarded and `AlreadyExists` reports the dedup.  Either way
    /// the handle is consumed and its registry entry is gone; no other
    /// caller's state is touched.
    pub fn publish(&mut self, h: TempDir, id: Identity) -> (r: PublishOutcome)
        requires
            old(self).inv(),
            h@.content matches Some(o) && digest_of(o) == id,
        ensures
            final(self).inv(),
            h@.content matches Some(o) ==> final(self)@ == publish_spec(old(self)@, o, h@.token),
            r == PublishOutcome::AlreadyExists <==> has_spec(old(self)@, id),
    {
        let TempDir { token, created_at: _, content } = h;
        match self.find_object(&id) {
            Some(p) => {
                proof {
                    lemma_map_contains_index(obj_pairs(self.objects@), p as int);
                }
                self.remove_temp(token);
                PublishOutcome::AlreadyExists
            },
            None => {
                proof {
                    if self@.objects.contains_key(id) {
                        lemma_map_contains_only(obj_pairs(self.objects@), id);
                    }
                }
                let obj = match content {
                    Some(o) => o,
                    None => vstd::pervasive::unreached(),
                };
                let ghost old_pairs = obj_pairs(self.objects@);
                proof {
                    lemma_distinct_push(old_pairs, (id, obj@));
                    lemma_map_push(old_pairs, (id, obj@));
                }
                self.objects.push(ObjEntry { id, obj });
                proof {
                    assert(obj_pairs(self.objects@) =~= old_pairs.push((id, obj@)));
                    assert forall|q: int| 0 <= q < self.objects@.len() implies (
                    #[trigger] obj_pairs(self.objects@)[q]).0 == digest_of(
                        obj_pairs(self.objects@)[q].1,
                    ) by {
                        if q < old_pairs.len() {
                            assert(obj_pairs(self.objects@)[q] == old_pairs[q]);
                        } else {
                            assert(obj_pairs(self.objects@)[q] == (id, obj@));
                        }
                    }
                }
                self.remove_temp(token);
                PublishOutcome::Stored
            },
        }
    }

    /// Discards a handle without publishing: its content is dropped and was
    /// never visible under any identity.
    pub fn discard(&mut self, h: TempDir)
        requires
            old(self).inv(),
        ensures
            final(self).inv(),
            final(self)@ == discard_spec(old(self)@, h@.token),
    {
        let TempDir { token, created_at: _, content: _ } = h;
        self.remove_temp(token);
    }

    /// Stores content and returns its identity: stage, publish, clean up.
    /// Idempotent for the caller — if an object with this content's identity
    /// is already stored, nothing changes and the same identity comes back.
    pub fn put(&mut self, obj: Object, now: u64) -> (r: Result<Identity, StoreError>)
        requires
            old(self).inv(),
        ensures
            final(self).inv(),
            match r {
                Ok(id) => old(self)@.next_token < u64::MAX && id == digest_of(obj@)
                    && final(self)@ == put_spec(old(self)@, obj@, now),
                Err(e) => e == StoreError::ResourceError && old(self)@.next_token == u64::MAX
                    && final(self)@ == old(self)@,
            },
    {
        let id = crate::object::digest_object(&obj);
        let mut h = match self.begin(now) {
            Ok(h) => h,
            Err(e) => {
                return Err(e);
            },
        };
        h.write(obj);
        let _ = self.publish(h, id);
        proof {
            let v0 = old(self)@;
            assert(v0.temp.insert(v0.next_token, now).remove(v0.next_token) =~= v0.temp);
        }
        Ok(id)
    }

    /// Binds a name to an identity, creating or replacing the binding in one
    /// atomic step: a reader resolves either the old identity or the new,
    /// never anything in between.
    pub fn ref_set(&mut self, name: Vec<u8>, id: Identity)
        requires
            old(self).inv(),
        ensures
            final(self).inv(),
            final(self)@ == set_spec(old(self)@, name@, id),
    {
        let ghost nm = name@;
        match self.find_ref(&name) {
            Some(p) => {
                let ghost old_pairs = ref_pairs(self.refs@);
                let _ = self.refs.remove(p);
                proof {
                    assert(ref_pairs(self.refs@) =~= old_pairs.remove(p as int));
                    lemma_distinct_remove(old_pairs, p as int);
                    lemma_map_remove(old_pairs, p as int);
                }
                let ghost mid_pairs = ref_pairs(self.refs@);
                proof {
                    assert forall|q: int| 0 <= q < mid_pairs.len() implies (#[trigger] mid_pairs[q]).0
                        != nm by {}
                    lemma_distinct_push(mid_pairs, (nm, id));
                    lemma_map_push(mid_pairs, (nm, id));
                }
                self.refs.push(RefEntry { name, id });
                proof {
                    assert(ref_pairs(self.refs@) =~= mid_pairs.push((nm, id)));
                    assert(pairs_to_map(ref_pairs(self.refs@)) =~= old(self)@.refs.insert(nm, id));
                }
            },
            None => {
                let ghost old_pairs = ref_pairs(self.refs@);
                proof {
                    assert forall|q: int| 0 <= q < old_pairs.len() implies (#[trigger] old_pairs[q]).0
                        != nm by {}
                    lemma_distinct_push(old_pairs, (nm, id));
                    lemma_map_push(old_pairs, (nm, id));
                }
                self.refs.push(RefEntry { name, id });
                proof {
                    assert(ref_pairs(self.refs@) =~= old_pairs.push((nm, id)));
                }
            },
        }
    }

    /// What a name resolves to, or `NotFound`.
    pub fn ref_get(&self, name: &Vec<u8>) -> (r: Result<Identity, StoreError>)
        requires
            self.inv(),
        ensures
            match r {
                Ok(id) => resolve_spec(self@, name@) == Some(id),
                Err(e) => e == StoreError::NotFound && resolve_spec(self@, name@) is None,
            },
    {
        match self.find_ref(name) {
            Some(p) => {
                proof {
                    lemma_map_contains_index(ref_pairs(self.refs@), p as int);
                    assert(ref_pairs(self.refs@)[p as int] == (
                        self.refs@[p as int].name@,
                        self.refs@[p as int].id,
                    ));
                }
                Ok(self.refs[p].id)
            },
            None => {
                proof {
                    if self@.refs.contains_key(name@) {
                        lemma_map_contains_only(ref_pairs(self.refs@), name@);
                    }
                }
                Err(StoreError::NotFound)
            },
        }
    }

    /// Unbinds a name.  The object it pointed at is not touched: deleting a
    /// ref never deletes content.
    pub fn ref_delete(&mut self, name: &Vec<u8>) -> (r: Result<(), StoreError>)
        requires
            old(self).inv(),
        ensures
            final(self).inv(),
            match r {
                Ok(_) => resolve_spec(old(self)@, name@) is Some && final(self)@ == delete_spec(
                    old(self)@,
                    name@,
                ),
                Err(e) => e == StoreError::NotFound && resolve_spec(old(self)@, name@) is None
                    && final(self)@ == old(self)@,
            },
    {
        match self.find_ref(name) {
            Some(p) => {
                let ghost old_pairs = ref_pairs(self.refs@);
                proof {
                    lemma_map_contains_index(old_pairs, p as int);
                }
                let _ = self.refs.remove(p);
                proof {
                    assert(ref_pairs(self.refs@) =~= old_pairs.remove(p as int));
                    lemma_distinct_remove(old_pairs, p as int);
                    lemma_map_remove(old_pairs, p as int);
                }
                Ok(())
            },
            None => {
                proof {
                    if self@.refs.contains_key(name@) {
                        lemma_map_contains_only(ref_pairs(self.refs@), name@);
                    }
                }
                Err(StoreError::NotFound)
            },
        }
    }

    /// A best-effort listing of the ref table: every row resolves, and every
    /// bound name has a row.
    pub fn ref_list(&self) -> (r: Vec<RefEntry>)
        requires
            self.inv(),
        ensures
            forall|k: int|
                0 <= k < r@.len() ==> resolve_spec(self@, (#[trigger] r@[k]).name@) == Some(
                    r@[k].id,
                ),
            forall|n: Seq<u8>|
                self@.refs.contains_key(n) ==> exists|k: int|
                    0 <= k < r@.len() && (#[trigger] r@[k]).name@ == n,
    {
        let mut out: Vec<RefEntry> = Vec::new();
        let mut p: usize = 0;
        while p < self.refs.len()
            invariant
                0 <= p <= self.refs@.len(),
                out@.len() == p,
                forall|k: int|
                    0 <= k < p ==> ((#[trigger] out@[k]).name@, out@[k].id) == ref_pairs(
                        self.refs@,
                    )[k],
            decreases self.refs@.len() - p,
        {
            proof {
                assert(ref_pairs(self.refs@)[p as int] == (
                    self.refs@[p as int].name@,
                    self.refs@[p as int].id,
                ));
            }
            let name = copy_bytes(&self.refs[p].name);
            out.push(RefEntry { name, id: self.refs[p].id });
            p = p + 1;
        }
        proof {
            assert forall|k: int| 0 <= k < out@.len() implies resolve_spec(
                self@,
                (#[trigger] out@[k]).name@,
            ) == Some(out@[k].id) by {
                lemma_map_contains_index(ref_pairs(self.refs@), k);
            }
            assert forall|n: Seq<u8>| self@.refs.contains_key(n) implies exists|k: int|
                0 <= k < out@.len() && (#[trigger] out@[k]).name@ == n by {
                lemma_map_contains_only(ref_pairs(self.refs@), n);
                let q = choose|q: int|
                    0 <= q < ref_pairs(self.refs@).len() && (#[trigger] ref_pairs(self.refs@)[q]).0
                        == n;
                assert(out@[q].name@ == n);
            }
        }
        out
    }

    /// Reclaims staging registry entries older than the grace threshold.
    /// Entries at or under the threshold are never removed, so a young,
    /// in-flight handle is never raced; nothing outside the registry is
    /// touched.
    pub fn sweep(&mut self, now: u64, grace: u64)
        requires
            old(self).inv(),
        ensures
            final(self).inv(),
            final(self)@.objects == old(self)@.objects,
            final(self)@.refs == old(self)@.refs,
            final(self)@.next_token == old(self)@.next_token,
            forall|t: u64|
                #[trigger] final(self)@.temp.contains_key(t) <==> (old(self)@.temp.contains_key(t)
                    && !expired(old(self)@.temp[t], now, grace)),
            forall|t: u64|
                final(self)@.temp.contains_key(t) ==> final(self)@.temp[t] == old(self)@.temp[t],
    {
        let ghost orig = temp_pairs(self.temp@);
        let mut kept: Vec<TempEntry> = Vec::new();
        let mut p: usize = 0;
        proof {
            assert(temp_pairs(kept@) =~= young_entries(orig.take(0), now, grace)) by {
                assert(orig.take(0) =~= Seq::<(u64, u64)>::empty());
                assert(temp_pairs(kept@) =~= Seq::<(u64, u64)>::empty());
            }
        }
        while p < self.temp.len()
            invariant
                0 <= p <= self.temp@.len(),
                orig == temp_pairs(self.temp@),
                temp_pairs(kept@) == young_entries(orig.take(p as int), now, grace),
            decreases self.temp@.len() - p,
        {
            let ghost kept_pairs = temp_pairs(kept@);
            proof {
                assert(orig[p as int] == (self.temp@[p as int].token, self.temp@[p as int].created_at));
                assert(orig.take(p + 1).drop_last() =~= orig.take(p as int));
                assert(orig.take(p + 1).last() == orig[p as int]);
            }
            let e_created: u64 = self.temp[p].created_at;
            let expired_now: bool = (e_created as u128) + (grace as u128) < (now as u128);
            if expired_now {
            } else {
                kept.push(TempEntry { token: self.temp[p].token, created_at: e_created });
                proof {
                    assert(temp_pairs(kept@) =~= kept_pairs.push(orig[p as int]));
                }
            }
            p = p + 1;
        }
        proof {
            assert(orig.take(orig.len() as int) =~= orig);
        }
        self.temp = kept;
        proof {
            lemma_young_map(orig, now, grace);
            let young = young_entries(orig, now, grace);
            assert forall|q: int| 0 <= q < self.temp@.len() implies (#[trigger] temp_pairs(
                self.temp@,
            )[q]).0 < self.next_token by {
                lemma_map_contains_index(young, q);
                lemma_map_contains_only(orig, young[q].0);
                let w = choose|w: int| 0 <= w < orig.len() && (#[trigger] orig[w]).0 == young[q].0;
            }
        }
    }
}

/// What counts as a usable ref name: non-empty, free of the path separator
/// and the NUL byte, and not one of the two directory self-references — so
/// a name can only ever denote one file directly under the refs area.
pub open spec fn ref_name_ok(name: Seq<u8>) -> bool {
    &&& name.len() > 0
    &&& forall|i: int| 0 <= i < name.len() ==> name[i] != 47 && name[i] != 0
    &&& name != seq![46u8]
    &&& name != seq![46u8, 46u8]
}

/// Whether a name may be used as a ref name.
pub fn valid_ref_name(name: &Vec<u8>) -> (r: bool)
    ensures
        r == ref_name_ok(name@),
{
    if name.len() == 0 {
        return false;
    }
    if name.len() == 1 && name[0] == 46 {
        proof {
            assert(name@ =~= seq![46u8]);
        }
        return false;
    }
    if name.len() == 2 && name[0] == 46 && name[1] == 46 {
        proof {
            assert(name@ =~= seq![46u8, 46u8]);
        }
        return false;
    }
    let mut i: usize = 0;
    while i < name.len()
        invariant
            0 <= i <= name@.len(),
            forall|k: int| 0 <= k < i ==> name@[k] != 47 && name@[k] != 0,
        decreases name@.len() - i,
    {
        if name[i] == 47 || name[i] == 0 {
            return false;
        }
        i = i + 1;
    }
    proof {
        if name@ == seq![46u8] {
            assert(name@.len() == 1 && name@[0] == 46);
        }
        if name@ == seq![46u8, 46u8] {
            assert(name@.len() == 2 && name@[0] == 46 && name@[1] == 46);
        }
    }
    true
}

/// Copies a byte string.
fn copy_bytes(b: &Vec<u8>) -> (r: Vec<u8>)
    ensures
        r@ == b@,
{
    let mut out: Vec<u8> = Vec::new();
    let mut i: usize = 0;
    while i < b.len()
        invariant
            0 <= i <= b@.len(),
            out@ == b@.take(i as int),
        decreases b@.len() - i,
    {
        out.push(b[i]);
        proof {
            assert(out@ =~= b@.take(i + 1));
        }
        i = i + 1;
    }
    proof {
        assert(b@.take(b@.len() as int) =~= b@);
    }
    out
}

/// Law: what was put is visible.  After a put, the store holds an object at
/// the content's identity; where that identity was unbound before, the
/// stored object is the content itself, and where it was already bound the
/// table is unchanged (the dedup path).
pub proof fn lemma_put_then_get(v: StoreView, o: ObjectView, now: u64)
    ensures
        has_spec(put_spec(v, o, now), digest_of(o)),
        !has_spec(v, digest_of(o)) ==> put_spec(v, o, now).objects[digest_of(o)] == o,
        has_spec(v, digest_of(o)) ==> put_spec(v, o, now).objects == v.objects,
        put_spec(v, o, now).refs == v.refs,
{
}

/// Law: writers of one content converge.  Putting content whose identity is
/// already stored changes no object, and putting twice is putting once: all
/// callers come away with the same identity and one stored copy.
pub proof fn lemma_put_converges(v: StoreView, o: ObjectView, now1: u64, now2: u64)
    ensures
        put_spec(put_spec(v, o, now1), o, now2).objects == put_spec(v, o, now1).objects,
        has_spec(v, digest_of(o)) ==> put_spec(v, o, now1).objects == v.objects,
{
}

/// Law: the last ref writer wins.  Two sets of one name leave the second
/// identity bound, and no other name is disturbed.
pub proof fn lemma_ref_set_last_wins(v: StoreView, name: Seq<u8>, id1: Identity, id2: Identity)
    ensures
        resolve_spec(set_spec(set_spec(v, name, id1), name, id2), name) == Some(id2),
        forall|other: Seq<u8>|
            other != name ==> resolve_spec(set_spec(set_spec(v, name, id1), name, id2), other)
                == resolve_spec(v, other),
{
}

/// Law: deleting a ref removes only the name.  The name no longer resolves,
/// and every object — the previously referenced one included — is exactly as
/// retrievable as before.
pub proof fn lemma_delete_keeps_objects(v: StoreView, name: Seq<u8>)
    ensures
        resolve_spec(delete_spec(v, name), name) is None,
        delete_spec(v, name).objects == v.objects,
        forall|id: Identity| has_spec(delete_spec(v, name), id) == has_spec(v, id),
{
}

/// Law: staging publishes nothing.  Taking a handle, and abandoning it,
/// leaves every identity exactly as visible as before; only a later publish
/// makes an object appear.
pub proof fn lemma_abandoned_staging_invisible(v: StoreView, now: u64)
    ensures
        begin_spec(v, now).objects == v.objects,
        forall|id: Identity| has_spec(begin_spec(v, now), id) == has_spec(v, id),
        begin_spec(v, now).refs == v.refs,
        forall|id: Identity, token: u64|
            has_spec(discard_spec(begin_spec(v, now), token), id) == has_spec(v, id),
{
}

} // verus!

