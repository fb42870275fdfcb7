//! The engine: the object cache, endpoint rotation, the streaming
//! ingestor, the dependency resolver and the geometry builder.
//!
//! The engine computes; the HTTP transport is driven by the host
//! program, which sends the queries this module builds and feeds the
//! response bodies back in.

use vstd::prelude::*;
use crate::cache::{cache_map, conn_close, conn_open, from_sql_error, pragma_synchronous_off, store_get, store_has, store_iter, store_put, txn_begin, txn_commit_and_reopen, EngineError};
use crate::codec::{decode_object_str, encode_object, spec_decode, spec_encode, wf_object};
use crate::json::{e_first_bracket_end, e_parse_stream, first_bracket_end, stream_result};
use crate::object::{spec_unique_reference, unique_reference_of, OSMObject, OSMObjectType, OSMObjectV, OSMObjectSpecifics, SpecificsV, MemberV};
use crate::strutil::{lemma_starts_with_concat, spec_starts_with, starts_with_str, str_to_chars, str_eq};
use crate::utils::{connect_polygon_segments, coords_text, coords_to_text, ensure_closed, fully_stitched, object_should_have_closed_geometry, segment_points, spec_should_have_closed_geometry, stitch_spec, views_of, Coord};

verus! {

/// What a query response's status code asks of the client.
#[derive(Clone, Copy, Debug, PartialEq, Eq, Structural)]
pub enum QueryAction {
    /// Status 200: the body is the result.
    UseBody,
    /// Status 429: the endpoint throttled us; ask that same endpoint to
    /// kill our queries, then retry against the next endpoint.
    KillQueriesAndRetry,
    /// Any other status: retry against the next endpoint.
    Retry,
}

/// The action a response status code calls for: 200 uses the body, 429
/// kills the throttling endpoint's queries and retries, anything else
/// retries.
pub fn classify_status(status: u16) -> (r: QueryAction)
    ensures
        status == 200 ==> r is UseBody,
        status == 429 ==> r is KillQueriesAndRetry,
        status != 200 && status != 429 ==> r is Retry,
{
    if status == 200 {
        QueryAction::UseBody
    } else if status == 429 {
        QueryAction::KillQueriesAndRetry
    } else {
        QueryAction::Retry
    }
}

/// The endpoint index after one rotation step.
pub open spec fn rot_next(i: nat, n: nat) -> nat {
    if i + 1 >= n {
        0
    } else {
        i + 1
    }
}

/// The endpoint index `k` steps after `start`.
pub open spec fn idx_after(start: nat, k: nat, n: nat) -> nat
    decreases k,
{
    if k == 0 {
        start
    } else {
        rot_next(idx_after(start, (k - 1) as nat, n), n)
    }
}

/// How many of the `k` calls after `start` touch endpoint `e`.
pub open spec fn touch_count(start: nat, k: nat, n: nat, e: nat) -> nat
    decreases k,
{
    if k == 0 {
        0
    } else {
        touch_count(start, (k - 1) as nat, n, e) + if idx_after(start, k, n) == e {
            1nat
        } else {
            0nat
        }
    }
}

proof fn lemma_idx_after_formula(start: nat, k: nat, n: nat)
    requires
        start < n,
        k <= n,
    ensures
        idx_after(start, k, n) == if start + k < n {
            (start + k) as int
        } else {
            start + k - n
        },
    decreases k,
{
    if k > 0 {
        lemma_idx_after_formula(start, (k - 1) as nat, n);
    }
}

proof fn lemma_idx_after_compose(start: nat, a: nat, b: nat, n: nat)
    ensures
        idx_after(start, a + b, n) == idx_after(idx_after(start, a, n), b, n),
    decreases b,
{
    if b > 0 {
        lemma_idx_after_compose(start, a, (b - 1) as nat, n);
        assert(a + b - 1 == a + (b - 1));
    }
}

/// The distance, in rotation steps, from `start` to the first touch of
/// `e`.
pub open spec fn rot_dist(start: nat, e: nat, n: nat) -> nat {
    if e > start {
        (e - start) as nat
    } else {
        (e + n - start) as nat
    }
}

proof fn lemma_touch_count_window(start: nat, k: nat, n: nat, e: nat)
    requires
        start < n,
        e < n,
        k <= n,
    ensures
        touch_count(start, k, n, e) == if rot_dist(start, e, n) <= k {
            1nat
        } else {
            0nat
        },
    decreases k,
{
    if k == 0 {
        assert(rot_dist(start, e, n) >= 1);
    } else {
        lemma_touch_count_window(start, (k - 1) as nat, n, e);
        lemma_idx_after_formula(start, k, n);
        let d = rot_dist(start, e, n);
        if idx_after(start, k, n) == e {
            assert(k == d);
        } else {
            assert(k != d);
        }
    }
}

/// One full cycle of `n` calls touches every endpoint exactly once.
proof fn lemma_touch_count_cycle(start: nat, n: nat, e: nat)
    requires
        start < n,
        e < n,
    ensures
        touch_count(start, n, n, e) == 1,
{
    lemma_touch_count_window(start, n, n, e);
    assert(rot_dist(start, e, n) <= n);
}

proof fn lemma_touch_count_split(start: nat, a: nat, b: nat, n: nat, e: nat)
    ensures
        touch_count(start, a + b, n, e) == touch_count(start, a, n, e) + touch_count(
            idx_after(start, a, n),
            b,
            n,
            e,
        ),
    decreases b,
{
    if b == 0 {
    } else {
        lemma_touch_count_split(start, a, (b - 1) as nat, n, e);
        assert(a + b - 1 == a + (b - 1));
        lemma_idx_after_compose(start, a, b, n);
    }
}

/// Endpoint rotation is fair: `2n` successive calls starting anywhere
/// touch each of the `n` endpoints exactly twice — so any two endpoints
/// are touched the same number of times.
pub proof fn lemma_rotation_fair(start: nat, n: nat, e: nat)
    requires
        start < n,
        e < n,
    ensures
        touch_count(start, 2 * n, n, e) == 2,
{
    lemma_touch_count_split(start, n, n, n, e);
    lemma_touch_count_cycle(start, n, e);
    let mid = idx_after(start, n, n);
    lemma_idx_after_formula(start, n, n);
    assert(mid < n);
    lemma_touch_count_cycle(mid, n, e);
    assert(2 * n == n + n);
}

/// The canonical ids an object depends on: a way's nodes, a relation's
/// members; a node has none.
pub open spec fn deps_of(o: OSMObjectV) -> Seq<Seq<char>> {
    match o.specifics {
        SpecificsV::Node { .. } => Seq::empty(),
        SpecificsV::Way { nodes } => nodes.map_values(
            |n: nat| spec_unique_reference(OSMObjectType::Node, n),
        ),
        SpecificsV::Relation { members } => members.map_values(|m: MemberV| m.unique_reference()),
    }
}

/// The dependencies of the given objects that the cache does not hold,
/// in order, duplicates kept.
pub open spec fn missing_of(objs: Seq<OSMObjectV>, m: Map<Seq<char>, Seq<char>>) -> Seq<Seq<char>>
    decreases objs.len(),
{
    if objs.len() == 0 {
        Seq::empty()
    } else {
        missing_deps_of(deps_of(objs[0]), m) + missing_of(objs.drop_first(), m)
    }
}

pub open spec fn missing_deps_of(deps: Seq<Seq<char>>, m: Map<Seq<char>, Seq<char>>) -> Seq<
    Seq<char>,
>
    decreases deps.len(),
{
    if deps.len() == 0 {
        Seq::empty()
    } else {
        (if m.contains_key(deps[0]) {
            Seq::empty()
        } else {
            seq![deps[0]]
        }) + missing_deps_of(deps.drop_first(), m)
    }
}

/// When nothing is missing, every dependency of every object is cached.
pub proof fn lemma_no_missing_means_closed(objs: Seq<OSMObjectV>, m: Map<Seq<char>, Seq<char>>)
    requires
        missing_of(objs, m).len() == 0,
    ensures
        forall|i: int, j: int|
            0 <= i < objs.len() && 0 <= j < deps_of(objs[i]).len() ==> m.contains_key(
                #[trigger] deps_of(#[trigger] objs[i])[j],
            ),
    decreases objs.len(),
{
    if objs.len() > 0 {
        lemma_no_missing_deps(deps_of(objs[0]), m);
        lemma_no_missing_means_closed(objs.drop_first(), m);
        assert forall|i: int, j: int|
            0 <= i < objs.len() && 0 <= j < deps_of(objs[i]).len() implies m.contains_key(
            #[trigger] deps_of(#[trigger] objs[i])[j],
        ) by {
            if i > 0 {
                assert(objs.drop_first()[i - 1] == objs[i]);
            }
        }
    }
}

proof fn lemma_no_missing_deps(deps: Seq<Seq<char>>, m: Map<Seq<char>, Seq<char>>)
    requires
        missing_deps_of(deps, m).len() == 0,
    ensures
        forall|j: int| 0 <= j < deps.len() ==> m.contains_key(#[trigger] deps[j]),
    decreases deps.len(),
{
    if deps.len() > 0 {
        assert(m.contains_key(deps[0]));
        lemma_no_missing_deps(deps.drop_first(), m);
        assert forall|j: int| 0 <= j < deps.len() implies m.contains_key(#[trigger] deps[j]) by {
            if j > 0 {
                assert(deps.drop_first()[j - 1] == deps[j]);
            }
        }
    }
}

/// The cache contents after the given objects are stored, in order.
pub open spec fn cache_after(m: Map<Seq<char>, Seq<char>>, objs: Seq<OSMObjectV>) -> Map<
    Seq<char>,
    Seq<char>,
>
    decreases objs.len(),
{
    if objs.len() == 0 {
        m
    } else {
        cache_after(m.insert(objs[0].unique_id(), spec_encode(objs[0])), objs.drop_first())
    }
}

/// After ingestion every ingested object is present under its id, and
/// the id of the last object of any given id holds that object's
/// encoding: re-ingestion overwrites.
pub proof fn lemma_cache_after_complete(m: Map<Seq<char>, Seq<char>>, objs: Seq<OSMObjectV>, i: int)
    requires
        0 <= i < objs.len(),
    ensures
        cache_after(m, objs).contains_key(objs[i].unique_id()),
        (forall|j: int| i < j < objs.len() ==> (#[trigger] objs[j]).unique_id() != objs[i].unique_id())
            ==> cache_after(m, objs)[objs[i].unique_id()] == spec_encode(objs[i]),
    decreases objs.len(),
{
    let m2 = m.insert(objs[0].unique_id(), spec_encode(objs[0]));
    if i == 0 {
        if objs.len() == 1 {
            assert(objs.drop_first() =~= Seq::<OSMObjectV>::empty());
            assert(cache_after(m2, objs.drop_first()) == m2);
        } else {
            lemma_cache_after_untouched(m2, objs.drop_first(), objs[0].unique_id());
            if forall|j: int|
                0 < j < objs.len() ==> (#[trigger] objs[j]).unique_id() != objs[0].unique_id() {
                assert forall|j2: int|
                    0 <= j2 < objs.drop_first().len() implies (#[trigger] objs.drop_first()[j2]).unique_id()
                    != objs[0].unique_id() by {
                    assert(objs.drop_first()[j2] == objs[j2 + 1]);
                }
            }
        }
    } else {
        lemma_cache_after_complete(m2, objs.drop_first(), i - 1);
        assert(objs.drop_first()[i - 1] == objs[i]);
        if forall|j: int|
            i < j < objs.len() ==> (#[trigger] objs[j]).unique_id() != objs[i].unique_id() {
            assert forall|j2: int|
                i - 1 < j2 < objs.drop_first().len() implies (#[trigger] objs.drop_first()[j2]).unique_id()
                != objs.drop_first()[i - 1].unique_id() by {
                assert(objs.drop_first()[j2] == objs[j2 + 1]);
                assert(objs[j2 + 1].unique_id() != objs[i].unique_id());
            }
        }
    }
}

/// A key bound in the cache stays bound (though possibly overwritten)
/// through further stores; if no later object carries that id, its
/// value is untouched.
proof fn lemma_cache_after_untouched(
    m: Map<Seq<char>, Seq<char>>,
    objs: Seq<OSMObjectV>,
    key: Seq<char>,
)
    requires
        m.contains_key(key),
    ensures
        cache_after(m, objs).contains_key(key),
        (forall|j: int| 0 <= j < objs.len() ==> (#[trigger] objs[j]).unique_id() != key)
            ==> cache_after(m, objs)[key] == m[key],
    decreases objs.len(),
{
    if objs.len() > 0 {
        let m2 = m.insert(objs[0].unique_id(), spec_encode(objs[0]));
        lemma_cache_after_untouched(m2, objs.drop_first(), key);
        assert(forall|j: int|
            0 <= j < objs.drop_first().len() ==> #[trigger] objs.drop_first()[j] == objs[j + 1]);
    }
}


/// One more object stored: the cache after a longer prefix.
proof fn lemma_cache_after_snoc(m: Map<Seq<char>, Seq<char>>, objs: Seq<OSMObjectV>, x: OSMObjectV)
    ensures
        cache_after(m, objs + seq![x]) == cache_after(m, objs).insert(
            x.unique_id(),
            spec_encode(x),
        ),
    decreases objs.len(),
{
    if objs.len() == 0 {
        assert(objs + seq![x] =~= seq![x]);
        assert((seq![x])[0] == x);
        assert((seq![x]).drop_first() =~= Seq::<OSMObjectV>::empty());
        let mx = m.insert(x.unique_id(), spec_encode(x));
        assert(cache_after(mx, (seq![x]).drop_first()) == mx);
        assert(cache_after(m, objs) == m);
    } else {
        let m2 = m.insert(objs[0].unique_id(), spec_encode(objs[0]));
        assert((objs + seq![x])[0] == objs[0]);
        assert((objs + seq![x]).drop_first() =~= objs.drop_first() + seq![x]);
        lemma_cache_after_snoc(m2, objs.drop_first(), x);
    }
}

/// The object a cache id denotes: the decoded payload, when the id is
/// bound and its payload decodes.
pub open spec fn cached_object_of(m: Map<Seq<char>, Seq<char>>, id: Seq<char>) -> Option<
    OSMObjectV,
> {
    if m.contains_key(id) {
        spec_decode(m[id])
    } else {
        None
    }
}

/// The engine: the cache connection and the rotation state over the
/// configured Overpass endpoints.
pub struct OSMObjectManager {
    pub conn: rusqlite::Connection,
    pub api_urls: Vec<String>,
    pub current_api_url_idx: usize,
}

impl OSMObjectManager {
    /// The contents of the object cache.
    pub open spec fn cache(&self) -> Map<Seq<char>, Seq<char>> {
        cache_map(self.conn)
    }

    pub open spec fn wf(&self) -> bool {
        self.current_api_url_idx < self.api_urls@.len()
    }

    /// Open the engine over the cache file at `path`, with the default
    /// pair of Overpass endpoints.  The cache connection starts inside
    /// a transaction; `commit_cache` closes it and opens the next.
    pub fn new(path: &str) -> (r: Result<OSMObjectManager, EngineError>)
        ensures
            match r {
                Ok(m) => m.wf() && m.api_urls@.len() == 2 && m.current_api_url_idx == 0,
                Err(e) => e is Cache,
            },
    {
        let conn = match conn_open(path) {
            Ok(c) => c,
            Err(e) => {
                return Err(from_sql_error(e));
            },
        };
        match pragma_synchronous_off(&conn) {
            Ok(_) => (),
            Err(e) => {
                return Err(from_sql_error(e));
            },
        }
        match txn_begin(&conn) {
            Ok(_) => (),
            Err(e) => {
                return Err(from_sql_error(e));
            },
        }
        let mut api_urls: Vec<String> = Vec::new();
        api_urls.push(("https://z.overpass-api.de/api").to_owned());
        api_urls.push(("https://lz4.overpass-api.de/api").to_owned());
        Ok(OSMObjectManager { conn, api_urls, current_api_url_idx: 0 })
    }

    /// Advance the endpoint cursor and return the endpoint to use: two
    /// successive calls never use the same endpoint when more than one
    /// is configured.
    pub fn next_api_url(&mut self) -> (r: String)
        requires
            old(self).wf(),
        ensures
            final(self).wf(),
            final(self).api_urls == old(self).api_urls,
            final(self).conn == old(self).conn,
            final(self).current_api_url_idx as nat == rot_next(
                old(self).current_api_url_idx as nat,
                old(self).api_urls@.len(),
            ),
            r@ == final(self).api_urls@[final(self).current_api_url_idx as int]@,
    {
        if self.current_api_url_idx == self.api_urls.len() - 1 {
            self.current_api_url_idx = 0;
        } else {
            self.current_api_url_idx = self.current_api_url_idx + 1;
        }
        self.api_urls[self.current_api_url_idx].clone()
    }

    /// Whether the cache holds an object under this canonical id.
    pub fn has_object(&self, id: &str) -> (r: Result<bool, EngineError>)
        ensures
            match r {
                Ok(b) => b == self.cache().contains_key(id@),
                Err(e) => e is Cache,
            },
    {
        match store_has(&self.conn, id) {
            Ok(b) => Ok(b),
            Err(e) => Err(from_sql_error(e)),
        }
    }

    /// The cached object under this canonical id, decoded.
    pub fn get_cached_object(&self, id: &str) -> (r: Result<Option<OSMObject>, EngineError>)
        ensures
            match r {
                Ok(opt) => match opt {
                    Some(o) => cached_object_of(self.cache(), id@) == Some(o@),
                    None => !self.cache().contains_key(id@),
                },
                Err(e) => e is Cache || (e is Corrupt && self.cache().contains_key(id@)
                    && cached_object_of(self.cache(), id@) is None),
            },
            well_keyed(self.cache()) && r is Ok && r->Ok_0 is Some ==> (r->Ok_0->0)@.unique_id()
                == id@,
    {
        let payload = match store_get(&self.conn, id) {
            Ok(p) => p,
            Err(e) => {
                return Err(from_sql_error(e));
            },
        };
        match payload {
            None => Ok(None),
            Some(text) => match decode_object_str(text.as_str()) {
                Some(o) => Ok(Some(o)),
                None => Err(EngineError::Corrupt),
            },
        }
    }

    /// The cached object under this canonical id.  The resolver is
    /// expected to have fetched it already; the host program looks up
    /// missing ids before calling this.
    pub fn get_object(&self, id: &str) -> (r: Result<Option<OSMObject>, EngineError>)
        ensures
            match r {
                Ok(opt) => match opt {
                    Some(o) => cached_object_of(self.cache(), id@) == Some(o@),
                    None => !self.cache().contains_key(id@),
                },
                Err(e) => e is Cache || (e is Corrupt && self.cache().contains_key(id@)
                    && cached_object_of(self.cache(), id@) is None),
            },
            well_keyed(self.cache()) && r is Ok && r->Ok_0 is Some ==> (r->Ok_0->0)@.unique_id()
                == id@,
    {
        self.get_cached_object(id)
    }

    /// Store one object under its canonical id, overwriting an earlier
    /// version.
    pub fn cache_object_into(&mut self, object: &OSMObject) -> (r: Result<(), EngineError>)
        ensures
            final(self).api_urls == old(self).api_urls,
            final(self).current_api_url_idx == old(self).current_api_url_idx,
            match r {
                Ok(()) => final(self).cache() == old(self).cache().insert(
                    object@.unique_id(),
                    spec_encode(object@),
                ),
                Err(e) => e is Cache && final(self).cache() == old(self).cache(),
            },
    {
        let id = object.unique_id();
        let payload = encode_object(object);
        match store_put(&mut self.conn, id.as_str(), payload.as_str()) {
            Ok(()) => Ok(()),
            Err(e) => Err(from_sql_error(e)),
        }
    }

    /// Close the write batch and open the next one.
    pub fn commit_cache(&self) -> (r: Result<(), EngineError>)
        ensures
            r is Ok || r->Err_0 is Cache,
    {
        match txn_commit_and_reopen(&self.conn) {
            Ok(_) => Ok(()),
            Err(e) => Err(from_sql_error(e)),
        }
    }

    /// Close the engine; the cache file itself is left for the host to
    /// remove.
    pub fn close(self) -> (r: Result<(), EngineError>)
        ensures
            r is Ok || r->Err_0 is Cache,
    {
        let OSMObjectManager { conn, api_urls: _, current_api_url_idx: _ } = self;
        match conn_close(conn) {
            Ok(()) => Ok(()),
            Err(e) => Err(from_sql_error(e)),
        }
    }

    /// Ingest a query response: find the opening bracket of the element
    /// array, parse object after object, store each in the cache, and
    /// commit once at the end.  The first element that fails to parse
    /// ends the stream.
    pub fn cache_objects_from(&mut self, data: &str, return_objects: bool) -> (r: Result<
        Vec<OSMObject>,
        EngineError,
    >)
        ensures
            final(self).api_urls == old(self).api_urls,
            final(self).current_api_url_idx == old(self).current_api_url_idx,
            match r {
                Ok(objs) => {
                    &&& first_bracket_end(data@, 0) is Some
                    &&& stream_result(data@, first_bracket_end(data@, 0)->0) is Some
                    &&& final(self).cache() == cache_after(
                        old(self).cache(),
                        stream_result(data@, first_bracket_end(data@, 0)->0)->0,
                    )
                    &&& (return_objects ==> objs@.map_values(|o: OSMObject| o@) == stream_result(
                        data@,
                        first_bracket_end(data@, 0)->0,
                    )->0)
                    &&& (!return_objects ==> objs@.len() == 0)
                },
                Err(e) => e is Cache || first_bracket_end(data@, 0) is None || stream_result(
                    data@,
                    first_bracket_end(data@, 0)->0,
                ) is None,
            },
    {
        let chars = str_to_chars(data);
        let start = match e_first_bracket_end(&chars) {
            Some(j) => j,
            None => {
                return Err(EngineError::Corrupt);
            },
        };
        let objects = match e_parse_stream(&chars, start) {
            Some(v) => v,
            None => {
                return Err(EngineError::Corrupt);
            },
        };
        let ghost objs_v = objects@.map_values(|o: OSMObject| o@);
        let ghost m0 = self.cache();
        let mut i: usize = 0;
        proof {
            assert(objs_v.take(0) =~= Seq::<OSMObjectV>::empty());
        }
        while i < objects.len()
            invariant
                0 <= i <= objects@.len(),
                objs_v == objects@.map_values(|o: OSMObject| o@),
                objs_v.len() == objects@.len(),
                self.cache() == cache_after(m0, objs_v.take(i as int)),
                self.api_urls == old(self).api_urls,
                self.current_api_url_idx == old(self).current_api_url_idx,
            decreases objects@.len() - i,
        {
            let ghost pre = objs_v.take(i as int);
            match self.cache_object_into(&objects[i]) {
                Ok(()) => (),
                Err(e) => {
                    return Err(e);
                },
            }
            proof {
                assert(objects@[i as int]@ == objs_v[i as int]);
                lemma_cache_after_snoc(m0, pre, objs_v[i as int]);
                assert(pre + seq![objs_v[i as int]] =~= objs_v.take(i + 1));
            }
            i += 1;
        }
        proof {
            assert(objs_v.take(i as int) =~= objs_v);
        }
        match self.commit_cache() {
            Ok(()) => (),
            Err(e) => {
                return Err(e);
            },
        }
        if return_objects {
            Ok(objects)
        } else {
            let empty: Vec<OSMObject> = Vec::new();
            Ok(empty)
        }
    }

    /// Every object the cache holds, decoded, one per cache key, in the
    /// order the store yields them.
    #[verifier::rlimit(100)]
    #[verifier::spinoff_prover]
    pub fn cached_objects(&self) -> (r: Result<Vec<OSMObject>, EngineError>)
        ensures
            r is Ok ==> forall|k: int|
                0 <= k < r->Ok_0@.len() ==> object_is_cached(
                    self.cache(),
                    (#[trigger] r->Ok_0@[k])@,
                ),
            r is Ok ==> forall|key: Seq<char>|
                self.cache().contains_key(key) ==> #[trigger] cache_key_listed(
                    self.cache(),
                    key,
                    r->Ok_0@,
                ),
            r is Ok ==> self.cache().dom().finite() && r->Ok_0@.len()
                == self.cache().dom().len(),
            r is Err ==> r->Err_0 is Cache || (r->Err_0 is Corrupt && some_payload_undecodable(
                self.cache(),
            )),
    {
        let pairs = match store_iter(&self.conn) {
            Ok(ps) => ps,
            Err(e) => {
                return Err(from_sql_error(e));
            },
        };
        let ghost ps_v = pairs@;
        let mut out: Vec<OSMObject> = Vec::new();
        let mut i: usize = 0;
        while i < pairs.len()
            invariant
                0 <= i <= pairs@.len(),
                pairs@ == ps_v,
                out@.len() == i,
                forall|k: int|
                    0 <= k < ps_v.len() ==> self.cache().contains_key((#[trigger] ps_v[k]).0@)
                        && ps_v[k].1@ == self.cache()[ps_v[k].0@],
                forall|key: Seq<char>|
                    self.cache().contains_key(key) ==> exists|k: int|
                        0 <= k < ps_v.len() && (#[trigger] ps_v[k]).0@ == key,
                forall|k: int|
                    0 <= k < i ==> spec_decode((#[trigger] ps_v[k]).1@) == Some(out@[k]@),
            decreases pairs@.len() - i,
        {
            let o = match decode_object_str(pairs[i].1.as_str()) {
                Some(o) => o,
                None => {
                    proof {
                        let key = ps_v[i as int].0@;
                        assert(self.cache().contains_key(key) && spec_decode(self.cache()[key])
                            is None);
                        assert(some_payload_undecodable(self.cache()));
                    }
                    return Err(EngineError::Corrupt);
                },
            };
            out.push(o);
            i += 1;
        }
        proof {
            assert forall|k: int|
                0 <= k < out@.len() implies object_is_cached(
                self.cache(),
                (#[trigger] out@[k])@,
            ) by {
                let key = ps_v[k].0@;
                assert(self.cache().contains_key(key) && cached_object_of(self.cache(), key)
                    == Some(out@[k]@));
            }
            assert forall|key: Seq<char>|
                self.cache().contains_key(key) implies #[trigger] cache_key_listed(
                self.cache(),
                key,
                out@,
            ) by {
                let k0 = choose|k0: int| 0 <= k0 < ps_v.len() && (#[trigger] ps_v[k0]).0@ == key;
                assert(0 <= k0 < out@.len() && cached_object_of(self.cache(), key) == Some(
                    out@[k0]@,
                ));
            }
            // One entry per cache key: the key column is unique, so the
            // key sequence's set is the cache's domain, element for
            // element.
            let keys = Seq::new(ps_v.len(), |k: int| ps_v[k].0@);
            assert(keys.no_duplicates());
            assert forall|key: Seq<char>| keys.to_set().contains(key) implies self.cache().dom().contains(
                key,
            ) by {
                let k0 = choose|k0: int| 0 <= k0 < keys.len() && keys[k0] == key;
                assert(ps_v[k0].0@ == key);
            }
            assert forall|key: Seq<char>| self.cache().dom().contains(key) implies keys.to_set().contains(
                key,
            ) by {
                let k0 = choose|k0: int| 0 <= k0 < ps_v.len() && (#[trigger] ps_v[k0]).0@ == key;
                assert(keys[k0] == key);
                assert(keys.contains(key));
            }
            assert(keys.to_set() =~= self.cache().dom());
            vstd::seq_lib::seq_to_set_is_finite(keys);
            keys.unique_seq_to_set();
            assert(out@.len() == self.cache().dom().len());
        }
        Ok(out)
    }

    /// The dependencies of the given objects that the cache does not
    /// hold yet, in order, as canonical ids.
    pub fn missing_dependencies_for(&self, objects: &Vec<OSMObject>) -> (r: Result<
        Vec<String>,
        EngineError,
    >)
        ensures
            match r {
                Ok(v) => v@.map_values(|s: String| s@) == missing_of(
                    objects@.map_values(|o: OSMObject| o@),
                    self.cache(),
                ),
                Err(e) => e is Cache,
            },
            (forall|k: int|
                0 <= k < objects@.len() ==> (#[trigger] objects@[k])@.specifics is Node) ==> r
                is Ok,
    {
        let ghost objs_v = objects@.map_values(|o: OSMObject| o@);
        let mut out: Vec<String> = Vec::new();
        let mut i: usize = 0;
        proof {
            assert(objs_v.skip(0) =~= objs_v);
        }
        while i < objects.len()
            invariant
                0 <= i <= objects@.len(),
                objs_v == objects@.map_values(|o: OSMObject| o@),
                objs_v.len() == objects@.len(),
                out@.map_values(|s: String| s@) + missing_of(objs_v.skip(i as int), self.cache())
                    =~= missing_of(objs_v, self.cache()),
            decreases objects@.len() - i,
        {
            proof {
                assert(objs_v.skip(i as int)[0] == objs_v[i as int]);
                assert(objs_v.skip(i as int).drop_first() =~= objs_v.skip(i + 1));
                assert(objects@[i as int]@ == objs_v[i as int]);
            }
            let deps = deps_of_object(&objects[i]);
            let ghost deps_v = deps@.map_values(|s: String| s@);
            let mut j: usize = 0;
            proof {
                assert(deps_v.skip(0) =~= deps_v);
            }
            while j < deps.len()
                invariant
                    0 <= j <= deps@.len(),
                    0 <= i < objects@.len(),
                    objs_v == objects@.map_values(|o: OSMObject| o@),
                    deps_v == deps@.map_values(|s: String| s@),
                    deps_v.len() == deps@.len(),
                    deps_v == deps_of(objs_v[i as int]),
                    out@.map_values(|s: String| s@) + missing_deps_of(
                        deps_v.skip(j as int),
                        self.cache(),
                    ) + missing_of(objs_v.skip(i + 1), self.cache()) =~= missing_of(
                        objs_v,
                        self.cache(),
                    ),
                decreases deps@.len() - j,
            {
                proof {
                    assert(deps_v.skip(j as int)[0] == deps_v[j as int]);
                    assert(deps_v.skip(j as int).drop_first() =~= deps_v.skip(j + 1));
                    assert(deps@[j as int]@ == deps_v[j as int]);
                }
                let present = match self.has_object(deps[j].as_str()) {
                    Ok(b) => b,
                    Err(e) => {
                        proof {
                            if forall|k: int|
                                0 <= k < objects@.len() ==> (#[trigger] objects@[k])@.specifics
                                    is Node {
                                assert(objects@[i as int]@.specifics is Node);
                                assert(objs_v[i as int] == objects@[i as int]@);
                                assert(deps_of(objs_v[i as int]).len() == 0);
                                assert(false);
                            }
                        }
                        return Err(e);
                    },
                };
                if !present {
                    out.push(deps[j].clone());
                }
                j += 1;
                proof {
                    assert(out@.map_values(|s: String| s@) + missing_deps_of(
                        deps_v.skip(j as int),
                        self.cache(),
                    ) + missing_of(objs_v.skip(i + 1), self.cache()) =~= missing_of(
                        objs_v,
                        self.cache(),
                    ));
                }
            }
            proof {
                assert(missing_deps_of(deps_v.skip(j as int), self.cache())
                    =~= Seq::<Seq<char>>::empty());
            }
            i += 1;
            proof {
                assert(out@.map_values(|s: String| s@) + missing_of(
                    objs_v.skip(i as int),
                    self.cache(),
                ) =~= missing_of(objs_v, self.cache()));
            }
        }
        proof {
            assert(missing_of(objs_v.skip(i as int), self.cache()) =~= Seq::<Seq<char>>::empty());
            assert(out@.map_values(|s: String| s@) =~= missing_of(objs_v, self.cache()));
        }
        Ok(out)
    }
}

/// The canonical ids an object references, as strings.
pub fn deps_of_object(object: &OSMObject) -> (r: Vec<String>)
    ensures
        r@.map_values(|s: String| s@) == deps_of(object@),
{
    let mut out: Vec<String> = Vec::new();
    match &object.specifics {
        OSMObjectSpecifics::Node { .. } => {
            proof {
                assert(out@.map_values(|s: String| s@) =~= deps_of(object@));
            }
            out
        },
        OSMObjectSpecifics::Way { nodes } => {
            let ghost nodes_v = object@.specifics->Way_nodes;
            let mut i: usize = 0;
            proof {
                assert(nodes@.map_values(|n: u64| n as nat) == nodes_v);
            }
            while i < nodes.len()
                invariant
                    0 <= i <= nodes@.len(),
                    nodes@.map_values(|n: u64| n as nat) == nodes_v,
                    nodes@.len() == nodes_v.len(),
                    out@.map_values(|s: String| s@) =~= deps_of(object@).take(i as int),
                    object@.specifics is Way && object@.specifics->Way_nodes == nodes_v,
                decreases nodes@.len() - i,
            {
                let id = unique_reference_of(OSMObjectType::Node, nodes[i]);
                let ghost id_v = id@;
                let ghost prev = out@;
                out.push(id);
                proof {
                    assert(out@.map_values(|s: String| s@) =~= prev.map_values(|s: String| s@)
                        + seq![id_v]);
                    assert(nodes_v[i as int] == nodes@[i as int] as nat);
                    assert(deps_of(object@)[i as int] == spec_unique_reference(
                        OSMObjectType::Node,
                        nodes_v[i as int],
                    ));
                    assert(out@.map_values(|s: String| s@) =~= deps_of(object@).take(i + 1));
                }
                i += 1;
            }
            proof {
                assert(deps_of(object@).take(i as int) =~= deps_of(object@));
            }
            out
        },
        OSMObjectSpecifics::Relation { members } => {
            let ghost mem_v = object@.specifics->Relation_members;
            let mut i: usize = 0;
            proof {
                assert(members@.map_values(|m: crate::object::OSMRelationMember| m@) == mem_v);
            }
            while i < members.len()
                invariant
                    0 <= i <= members@.len(),
                    members@.map_values(|m: crate::object::OSMRelationMember| m@) == mem_v,
                    members@.len() == mem_v.len(),
                    out@.map_values(|s: String| s@) =~= deps_of(object@).take(i as int),
                    object@.specifics is Relation && object@.specifics->Relation_members == mem_v,
                decreases members@.len() - i,
            {
                let id = unique_reference_of(members[i].m_type, members[i].ref_id);
                let ghost id_v = id@;
                let ghost prev = out@;
                out.push(id);
                proof {
                    assert(out@.map_values(|s: String| s@) =~= prev.map_values(|s: String| s@)
                        + seq![id_v]);
                    assert(mem_v[i as int] == members@[i as int]@);
                    assert(deps_of(object@)[i as int] == mem_v[i as int].unique_reference());
                    assert(out@.map_values(|s: String| s@) =~= deps_of(object@).take(i + 1));
                }
                i += 1;
            }
            proof {
                assert(deps_of(object@).take(i as int) =~= deps_of(object@));
            }
            out
        },
    }
}


/// The WKT of a single point.
pub open spec fn point_wkt(lon7: int, lat7: int) -> Seq<char> {
    "POINT("@ + crate::utils::coord_text(lon7) + seq![' '] + crate::utils::coord_text(lat7) + ")"@
}

/// The coordinates of a way's nodes, read from the cache; `None` when a
/// node is absent, undecodable, or not a node.
pub open spec fn way_coords_of(m: Map<Seq<char>, Seq<char>>, nodes: Seq<nat>) -> Option<
    Seq<Coord>,
>
    decreases nodes.len(),
{
    if nodes.len() == 0 {
        Some(Seq::empty())
    } else {
        match cached_object_of(m, spec_unique_reference(OSMObjectType::Node, nodes[0])) {
            Some(o) => match o.specifics {
                SpecificsV::Node { lon7, lat7 } => match way_coords_of(m, nodes.drop_first()) {
                    Some(rest) => Some(seq![(lon7 as i64, lat7 as i64)] + rest),
                    None => None,
                },
                _ => None,
            },
            None => None,
        }
    }
}

/// A ring closed by repeating its first coordinate when needed.
pub open spec fn closed_ring(cs: Seq<Coord>) -> Seq<Coord> {
    if cs.first() == cs.last() {
        cs
    } else {
        cs + seq![cs.first()]
    }
}

/// The geometry of a way over the given cache: `None` when the node
/// coordinates cannot be read, `Some(None)` when the way is degenerate,
/// else the WKT text.
pub open spec fn way_geometry(m: Map<Seq<char>, Seq<char>>, o: OSMObjectV) -> Option<
    Option<Seq<char>>,
> {
    match way_coords_of(m, o.specifics->Way_nodes) {
        None => None,
        Some(cs) => if cs.len() <= 1 {
            Some(None)
        } else if spec_should_have_closed_geometry(o) && cs.len() > 2 {
            Some(Some("POLYGON(("@ + coords_text(closed_ring(cs)) + "))"@))
        } else {
            Some(Some("LINESTRING("@ + coords_text(cs) + ")"@))
        },
    }
}

impl OSMObjectManager {
    /// The coordinate sequence of a way's nodes, from the cache.
    #[verifier::rlimit(100)]
    #[verifier::spinoff_prover]
    pub fn get_way_coords(&self, way: &OSMObject) -> (r: Result<Vec<Coord>, EngineError>)
        requires
            way@.specifics is Way,
        ensures
            match r {
                Ok(cs) => way_coords_of(self.cache(), way@.specifics->Way_nodes) == Some(cs@),
                Err(e) => e is Cache || way_coords_of(self.cache(), way@.specifics->Way_nodes)
                    is None,
            },
    {
        let nodes = match &way.specifics {
            OSMObjectSpecifics::Way { nodes } => nodes,
            _ => {
                proof {
                    assert(false);
                }
                return Err(EngineError::Corrupt);
            },
        };
        let ghost nodes_v = way@.specifics->Way_nodes;
        let mut coords: Vec<Coord> = Vec::new();
        let mut i: usize = 0;
        proof {
            assert(nodes@.map_values(|n: u64| n as nat) == nodes_v);
            assert(nodes_v.skip(0) =~= nodes_v);
            if way_coords_of(self.cache(), nodes_v) is Some {
                assert(coords@ + way_coords_of(self.cache(), nodes_v)->0 =~= way_coords_of(
                    self.cache(),
                    nodes_v,
                )->0);
            }
        }
        while i < nodes.len()
            invariant
                0 <= i <= nodes@.len(),
                way@.specifics is Way,
                nodes_v == way@.specifics->Way_nodes,
                nodes@.map_values(|n: u64| n as nat) == nodes_v,
                nodes@.len() == nodes_v.len(),
                way_coords_of(self.cache(), nodes_v) == match way_coords_of(
                    self.cache(),
                    nodes_v.skip(i as int),
                ) {
                    Some(rest) => Some(coords@ + rest),
                    None => None::<Seq<Coord>>,
                },
            decreases nodes@.len() - i,
        {
            proof {
                assert(nodes_v.skip(i as int)[0] == nodes_v[i as int]);
                assert(nodes_v[i as int] == nodes@[i as int] as nat);
                assert(nodes_v.skip(i as int).drop_first() =~= nodes_v.skip(i + 1));
            }
            let id = unique_reference_of(OSMObjectType::Node, nodes[i]);
            let ghost ref_v = spec_unique_reference(OSMObjectType::Node, nodes_v[i as int]);
            let child = match self.get_cached_object(id.as_str()) {
                Ok(Some(o)) => o,
                Ok(None) => {
                    proof {
                        assert(cached_object_of(self.cache(), ref_v) is None);
                        assert(way_coords_of(self.cache(), nodes_v.skip(i as int)) is None);
                        assert(way_coords_of(self.cache(), nodes_v) is None);
                    }
                    return Err(EngineError::MissingDependency);
                },
                Err(e) => {
                    proof {
                        if !(e is Cache) {
                            assert(cached_object_of(self.cache(), ref_v) is None);
                            assert(way_coords_of(self.cache(), nodes_v.skip(i as int)) is None);
                        }
                    }
                    return Err(if matches!(e, EngineError::Cache) {
                        e
                    } else {
                        EngineError::Corrupt
                    });
                },
            };
            proof {
                assert(cached_object_of(self.cache(), ref_v) == Some(child@));
            }
            match &child.specifics {
                OSMObjectSpecifics::Node { lon7, lat7 } => {
                    let ghost pre = coords@;
                    coords.push((*lon7, *lat7));
                    proof {
                        assert(child@.specifics->Node_lon7 as i64 == *lon7);
                        assert(child@.specifics->Node_lat7 as i64 == *lat7);
                        assert(coords@ =~= pre + seq![(*lon7, *lat7)]);
                        if way_coords_of(self.cache(), nodes_v.skip(i + 1)) is Some {
                            assert(pre + (seq![(*lon7, *lat7)] + way_coords_of(
                                self.cache(),
                                nodes_v.skip(i + 1),
                            )->0) =~= coords@ + way_coords_of(self.cache(), nodes_v.skip(i + 1))->0);
                        }
                    }
                },
                _ => {
                    proof {
                        assert(way_coords_of(self.cache(), nodes_v.skip(i as int)) is None);
                    }
                    return Err(EngineError::Corrupt);
                },
            }
            i += 1;
        }
        proof {
            assert(nodes_v.skip(i as int) =~= Seq::<nat>::empty());
            assert(way_coords_of(self.cache(), nodes_v.skip(i as int)) == Some(
                Seq::<Coord>::empty(),
            ));
            assert(coords@ + Seq::<Coord>::empty() =~= coords@);
        }
        Ok(coords)
    }

    /// The objects this object's dependencies denote, each a transient
    /// copy enriched with a `parent_id` tag, and, for relation members,
    /// a `role` tag.
    #[verifier::rlimit(100)]
    #[verifier::spinoff_prover]
    pub fn related_objects_of(&self, object: &OSMObject) -> (r: Result<Vec<OSMObject>, EngineError>)
        ensures
            r is Ok ==> r->Ok_0@.len() == deps_of(object@).len(),
            r is Ok ==> forall|k: int|
                0 <= k < r->Ok_0@.len() ==> cached_object_of(
                    self.cache(),
                    deps_of(object@)[k],
                ) is Some,
            r is Ok ==> forall|k: int|
                0 <= k < r->Ok_0@.len() ==> enriched_from(
                    cached_object_of(self.cache(), deps_of(object@)[k])->0,
                    (#[trigger] r->Ok_0@[k])@,
                    object@.unique_id(),
                    member_role_of(object@, k),
                ),
            r is Err ==> r->Err_0 is Cache || r->Err_0 is Corrupt || r->Err_0
                is MissingDependency,
            r is Err && !(r->Err_0 is Cache) ==> some_dep_unavailable(self.cache(), object@),
    {
        let parent_id = object.unique_id();
        let deps = deps_of_object(object);
        let roles: Option<&Vec<crate::object::OSMRelationMember>> = match &object.specifics {
            OSMObjectSpecifics::Relation { members } => Some(members),
            _ => None,
        };
        let ghost deps_v = deps_of(object@);
        let mut out: Vec<OSMObject> = Vec::new();
        let mut i: usize = 0;
        proof {
            assert(deps@.map_values(|s: String| s@) == deps_v);
        }
        while i < deps.len()
            invariant
                0 <= i <= deps@.len(),
                deps@.map_values(|s: String| s@) == deps_v,
                deps@.len() == deps_v.len(),
                out@.len() == i,
                deps_v == deps_of(object@),
                parent_id@ == object@.unique_id(),
                match roles {
                    Some(ms) => object@.specifics is Relation && ms@.map_values(
                        |m: crate::object::OSMRelationMember| m@,
                    ) == object@.specifics->Relation_members && ms@.len() == deps_v.len(),
                    None => !(object@.specifics is Relation) || deps_v.len() == 0,
                },
                forall|k: int|
                    0 <= k < i ==> cached_object_of(self.cache(), #[trigger] deps_v[k]) is Some,
                forall|k: int|
                    0 <= k < i ==> enriched_from(
                        cached_object_of(self.cache(), deps_v[k])->0,
                        (#[trigger] out@[k])@,
                        object@.unique_id(),
                        member_role_of(object@, k),
                    ),
            decreases deps@.len() - i,
        {
            proof {
                assert(deps@[i as int]@ == deps_v[i as int]);
                reveal_strlit("parent_id");
                reveal_strlit("role");
            }
            let child = match self.get_cached_object(deps[i].as_str()) {
                Ok(Some(o)) => o,
                Ok(None) => {
                    proof {
                        assert(cached_object_of(self.cache(), deps_v[i as int]) is None);
                        assert(some_dep_unavailable(self.cache(), object@));
                    }
                    return Err(EngineError::MissingDependency);
                },
                Err(e) => {
                    proof {
                        if !(e is Cache) {
                            assert(cached_object_of(self.cache(), deps_v[i as int]) is None);
                            assert(some_dep_unavailable(self.cache(), object@));
                        }
                    }
                    return Err(e);
                },
            };
            let ghost child_v = child@;
            proof {
                assert(cached_object_of(self.cache(), deps_v[i as int]) == Some(child_v));
            }
            let mut enriched = child;
            enriched.set_tag("parent_id", parent_id.clone());
            match roles {
                Some(ms) => {
                    enriched.set_tag("role", ms[i].role.clone());
                    proof {
                        reveal_strlit("parent_id");
                        reveal_strlit("role");
                        assert("parent_id"@.len() == 9);
                        assert("role"@.len() == 4);
                        assert("parent_id"@ != "role"@);
                        assert(enriched@.tag("parent_id"@) == Some(object@.unique_id()));
                        assert(member_role_of(object@, i as int) == Some(
                            object@.specifics->Relation_members[i as int].role,
                        ));
                        assert(ms@[i as int]@.role
                            == object@.specifics->Relation_members[i as int].role);
                        assert(enriched_from(
                            child_v,
                            enriched@,
                            object@.unique_id(),
                            member_role_of(object@, i as int),
                        ));
                    }
                },
                None => {
                    proof {
                        reveal_strlit("parent_id");
                        assert(member_role_of(object@, i as int) is None);
                        assert(enriched_from(
                            child_v,
                            enriched@,
                            object@.unique_id(),
                            member_role_of(object@, i as int),
                        ));
                    }
                },
            }
            let ghost enr_v = enriched@;
            let ghost prev_out = out@;
            out.push(enriched);
            proof {
                assert forall|k: int|
                    0 <= k < i + 1 implies cached_object_of(
                    self.cache(),
                    #[trigger] deps_v[k],
                ) is Some by {
                    if k == i {
                        assert(cached_object_of(self.cache(), deps_v[k]) == Some(child_v));
                    }
                }
                assert forall|k: int|
                    0 <= k < i + 1 implies enriched_from(
                    cached_object_of(self.cache(), deps_v[k])->0,
                    (#[trigger] out@[k])@,
                    object@.unique_id(),
                    member_role_of(object@, k),
                ) by {
                    if k < i {
                        assert(out@[k] == prev_out[k]);
                    } else {
                        assert(out@[k]@ == enr_v);
                        assert(cached_object_of(self.cache(), deps_v[k]) == Some(child_v));
                    }
                }
            }
            i += 1;
        }
        Ok(out)
    }

    /// The WKT geometry of an object, when one can be built.
    ///
    /// Nodes render exactly as `POINT(lon lat)`.  Ways render by
    /// `way_geometry`: absent with fewer than two coordinates, a
    /// `POLYGON` ring when the closed-geometry heuristic applies, else a
    /// `LINESTRING`.  A relation renders as a `POLYGON`/`MULTIPOLYGON`
    /// only when its `type` tag is `multipolygon`; anything else renders
    /// as a `GEOMETRYCOLLECTION` of its members' geometries, or absent.
    /// The recursion through a relation's members is budgeted at
    /// sixteen levels: a relation met deeper than that renders as
    /// absent, where unbounded recursion could not end on a cyclic
    /// relation graph.
    pub fn get_geometry_as_wkt(&self, object: &OSMObject) -> (r: Result<
        Option<String>,
        EngineError,
    >)
        ensures
            match r {
                Ok(g) => geometry_shape_ok(self.cache(), object@, g),
                Err(e) => e is Cache || e is Corrupt || e is MissingDependency,
            },
            object@.specifics is Node ==> r is Ok,
            object@.specifics is Way && r is Err && !(r->Err_0 is Cache) ==> way_coords_of(
                self.cache(),
                object@.specifics->Way_nodes,
            ) is None,
            (object@.specifics is Relation && object@.tag("type"@) == Some("multipolygon"@)
                && deps_of(object@).len() > 0 && !some_dep_unavailable(self.cache(), object@)
                && complex_ready(self.cache(), object@)) ==> match complex_result(
                stitch_spec(
                    rings_with_role(
                        self.cache(),
                        object@,
                        deps_of(object@).len() as int,
                        "inner"@,
                    ),
                ),
                stitch_spec(
                    rings_with_role(
                        self.cache(),
                        object@,
                        deps_of(object@).len() as int,
                        "outer"@,
                    ),
                ),
            ) {
                Some(text) => (r is Ok && r->Ok_0 is Some && (r->Ok_0->0)@ == text) || (r is Err
                    && r->Err_0 is Cache),
                None => (r is Ok && r->Ok_0 is Some && spec_starts_with(
                    (r->Ok_0->0)@,
                    "GEOMETRYCOLLECTION("@,
                )) || (r is Err && r->Err_0 is Cache),
            },
            (object@.specifics is Relation && object@.tag("type"@) == Some("multipolygon"@)
                && deps_of(object@).len() > 0 && !some_dep_unavailable(self.cache(), object@)
                && !(member_role_of(object@, 0) == Some("inner"@) || member_role_of(object@, 0)
                == Some("outer"@)) && simple_ready(self.cache(), object@)) ==> ((r is Ok
                && r->Ok_0 is Some && (r->Ok_0->0)@ == simple_result(self.cache(), object@)) || (
            r is Err && r->Err_0 is Cache)),
    {
        self.geometry_with_depth(object, 16)
    }

    /// The geometry builder proper: `depth` bounds recursion through
    /// nested relations; a relation met with no budget left renders as
    /// absent.
    fn geometry_with_depth(&self, object: &OSMObject, depth: u64) -> (r: Result<
        Option<String>,
        EngineError,
    >)
        ensures
            match r {
                Ok(g) => geometry_shape_ok(self.cache(), object@, g),
                Err(e) => e is Cache || e is Corrupt || e is MissingDependency,
            },
            object@.specifics is Node ==> r is Ok,
            object@.specifics is Way && r is Err && !(r->Err_0 is Cache) ==> way_coords_of(
                self.cache(),
                object@.specifics->Way_nodes,
            ) is None,
            (depth > 0 && object@.specifics is Relation && object@.tag("type"@) == Some("multipolygon"@)
                && deps_of(object@).len() > 0 && !some_dep_unavailable(self.cache(), object@)
                && complex_ready(self.cache(), object@)) ==> match complex_result(
                stitch_spec(
                    rings_with_role(
                        self.cache(),
                        object@,
                        deps_of(object@).len() as int,
                        "inner"@,
                    ),
                ),
                stitch_spec(
                    rings_with_role(
                        self.cache(),
                        object@,
                        deps_of(object@).len() as int,
                        "outer"@,
                    ),
                ),
            ) {
                Some(text) => (r is Ok && r->Ok_0 is Some && (r->Ok_0->0)@ == text) || (r is Err
                    && r->Err_0 is Cache),
                None => (r is Ok && r->Ok_0 is Some && spec_starts_with(
                    (r->Ok_0->0)@,
                    "GEOMETRYCOLLECTION("@,
                )) || (r is Err && r->Err_0 is Cache),
            },
            (depth > 0 && object@.specifics is Relation && object@.tag("type"@) == Some("multipolygon"@)
                && deps_of(object@).len() > 0 && !some_dep_unavailable(self.cache(), object@)
                && !(member_role_of(object@, 0) == Some("inner"@) || member_role_of(object@, 0)
                == Some("outer"@)) && simple_ready(self.cache(), object@)) ==> ((r is Ok
                && r->Ok_0 is Some && (r->Ok_0->0)@ == simple_result(self.cache(), object@)) || (
            r is Err && r->Err_0 is Cache)),
        decreases depth, 1int,
    {
        proof {
            reveal_strlit("POINT(");
            reveal_strlit(" ");
            reveal_strlit(")");
            reveal_strlit("POLYGON((");
            reveal_strlit("))");
            reveal_strlit("LINESTRING(");
            reveal_strlit("type");
            reveal_strlit("multipolygon");
            reveal_strlit("role");
            reveal_strlit("inner");
            reveal_strlit("outer");
        }
        match &object.specifics {
            OSMObjectSpecifics::Node { lon7, lat7 } => {
                let mut s = ("POINT(").to_owned();
                s.append(crate::utils::coord_to_string(*lon7).as_str());
                s.append(" ");
                s.append(crate::utils::coord_to_string(*lat7).as_str());
                s.append(")");
                proof {
                    assert(s@ =~= point_wkt(
                        object@.specifics->Node_lon7,
                        object@.specifics->Node_lat7,
                    ));
                }
                Ok(Some(s))
            },
            OSMObjectSpecifics::Way { .. } => {
                let mut coords = match self.get_way_coords(object) {
                    Ok(cs) => cs,
                    Err(e) => {
                        return Err(e);
                    },
                };
                if coords.len() <= 1 {
                    return Ok(None);
                }
                if object_should_have_closed_geometry(object) && coords.len() > 2 {
                    let ghost pre = coords@;
                    ensure_closed(&mut coords);
                    proof {
                        assert(coords@ == closed_ring(pre));
                    }
                    let mut s = ("POLYGON((").to_owned();
                    s.append(coords_to_text(&coords).as_str());
                    s.append("))");
                    proof {
                        assert(s@ =~= "POLYGON(("@ + coords_text(closed_ring(pre)) + "))"@);
                    }
                    Ok(Some(s))
                } else {
                    let mut s = ("LINESTRING(").to_owned();
                    s.append(coords_to_text(&coords).as_str());
                    s.append(")");
                    proof {
                        assert(s@ =~= "LINESTRING("@ + coords_text(coords@) + ")"@);
                    }
                    Ok(Some(s))
                }
            },
            OSMObjectSpecifics::Relation { .. } => {
                if depth == 0 {
                    return Ok(None);
                }
                let ghost m = self.cache();
                let ghost ov = object@;
                let ghost d1 = ov.specifics is Relation && ov.tag("type"@) == Some(
                    "multipolygon"@,
                ) && deps_of(ov).len() > 0 && !some_dep_unavailable(m, ov);
                let ghost ring0 = member_role_of(ov, 0) == Some("inner"@) || member_role_of(ov, 0)
                    == Some("outer"@);
                let geom_type_is_mp = match object.tag("type") {
                    Some(v) => str_eq(v.as_str(), "multipolygon"),
                    None => false,
                };
                proof {
                    if d1 {
                        assert(geom_type_is_mp);
                    }
                }
                if geom_type_is_mp {
                    let related = match self.related_objects_of(object) {
                        Ok(v) => v,
                        Err(e) => {
                            proof {
                                if d1 {
                                    assert(e is Cache);
                                }
                            }
                            return Err(e);
                        },
                    };
                    let multi: Option<String>;
                    if related.len() > 0 {
                        let first_is_ring = match related[0].tag("role") {
                            Some(ro) => str_eq(ro.as_str(), "inner") || str_eq(
                                ro.as_str(),
                                "outer",
                            ),
                            None => false,
                        };
                        proof {
                            if d1 {
                                assert(cached_object_of(m, deps_of(ov)[0]) is Some);
                                assert(related@[0]@.tag("role"@) == Some(
                                    (member_role_of(ov, 0))->0,
                                ));
                                assert(first_is_ring == ring0);
                            }
                        }
                        if first_is_ring {
                            multi = match self.construct_multipolygon_from_complex_polygons(
                                object,
                            ) {
                                Ok(g) => g,
                                Err(e) => {
                                    return Err(e);
                                },
                            };
                        } else {
                            multi = match self.construct_multipolygon_from_polygons(
                                object,
                                depth - 1,
                            ) {
                                Ok(g) => g,
                                Err(e) => {
                                    return Err(e);
                                },
                            };
                        }
                    } else {
                        proof {
                            if d1 {
                                assert(false);
                            }
                        }
                        multi = None;
                    }
                    match multi {
                        Some(g) => Ok(Some(g)),
                        None => {
                            let fallback = self.create_geometry_collection(object, depth - 1);
                            proof {
                                if d1 {
                                    match fallback {
                                        Ok(_) => {},
                                        Err(e) => {
                                            assert(e is Cache);
                                        },
                                    }
                                }
                            }
                            fallback
                        },
                    }
                } else {
                    self.create_geometry_collection(object, depth - 1)
                }
            },
        }
    }

    /// A `GEOMETRYCOLLECTION` of the members' geometries; members whose
    /// geometry is absent or fails are left out.
    fn create_geometry_collection(&self, object: &OSMObject, depth: u64) -> (r: Result<
        Option<String>,
        EngineError,
    >)
        ensures
            match r {
                Ok(g) => g is Some && spec_starts_with(g->0@, "GEOMETRYCOLLECTION("@),
                Err(e) => e is Cache || e is Corrupt || e is MissingDependency,
            },
            r is Err && !(r->Err_0 is Cache) ==> some_dep_unavailable(self.cache(), object@),
        decreases depth, 2int,
    {
        proof {
            reveal_strlit("GEOMETRYCOLLECTION(");
            reveal_strlit(", ");
            reveal_strlit(")");
        }
        let related = match self.related_objects_of(object) {
            Ok(v) => v,
            Err(e) => {
                return Err(e);
            },
        };
        let mut parts = String::new();
        let mut wrote: bool = false;
        let mut i: usize = 0;
        while i < related.len()
            decreases related@.len() - i,
        {
            match self.geometry_with_depth(&related[i], depth) {
                Ok(Some(g)) => {
                    if wrote {
                        parts.append(", ");
                    }
                    parts.append(g.as_str());
                    wrote = true;
                },
                Ok(None) => (),
                Err(_) => (),
            }
            i += 1;
        }
        let mut s = ("GEOMETRYCOLLECTION(").to_owned();
        let ghost rest = parts@;
        s.append(parts.as_str());
        s.append(")");
        proof {
            lemma_starts_with_concat("GEOMETRYCOLLECTION("@, rest + ")"@);
            assert(s@ =~= "GEOMETRYCOLLECTION("@ + (rest + ")"@));
        }
        Ok(Some(s))
    }

    /// The simple multipolygon path: every member must itself render as
    /// a `POLYGON`, and when every member is a cached way whose own
    /// geometry is one, the outcome is exactly those polygon bodies
    /// joined in member order; a member whose geometry is absent or not
    /// a `POLYGON` makes the result absent.
    #[verifier::loop_isolation(false)]
    #[verifier::rlimit(100)]
    #[verifier::spinoff_prover]
    fn construct_multipolygon_from_polygons(&self, object: &OSMObject, depth: u64) -> (r: Result<
        Option<String>,
        EngineError,
    >)
        ensures
            match r {
                Ok(g) => g is Some ==> spec_starts_with(g->0@, "MULTIPOLYGON("@),
                Err(e) => e is Cache || e is Corrupt || e is MissingDependency,
            },
            simple_ready(self.cache(), object@) ==> match r {
                Ok(g) => g is Some && g->0@ == simple_result(self.cache(), object@),
                Err(e) => e is Cache,
            },
            (object@.specifics is Relation && member_way_geoms_readable(self.cache(), object@)
                && !(forall|k: int|
                0 <= k < deps_of(object@).len() ==> way_poly_ok(self.cache(), object@, k)))
                ==> ((r is Ok && r->Ok_0 is None) || (r is Err && r->Err_0 is Cache)),
        decreases depth, 2int,
    {
        let ghost m = self.cache();
        let ghost ov = object@;
        let ghost n_deps = deps_of(ov).len() as int;
        let ghost bodies = Seq::new(deps_of(ov).len(), |k: int| member_poly_body(m, ov, k));
        let ghost ready = simple_ready(m, ov);
        let ghost bad_poly = ov.specifics is Relation && member_way_geoms_readable(m, ov) && !(
        forall|k: int| 0 <= k < deps_of(ov).len() ==> way_poly_ok(m, ov, k));
        proof {
            reveal_strlit("parent_id");
            reveal_strlit("role");
            reveal_strlit("area");
            reveal_strlit("building");
            assert("area"@.len() == 4 && "building"@.len() == 8 && "parent_id"@.len() == 9
                && "role"@.len() == 4);
            assert("area"@[0] == 'a' && "role"@[0] == 'r');
            assert("area"@ != "parent_id"@ && "area"@ != "role"@);
            assert("building"@ != "parent_id"@ && "building"@ != "role"@);
        }
        let related = match self.related_objects_of(object) {
            Ok(v) => v,
            Err(e) => {
                proof {
                    if ready {
                        assert(!(some_dep_unavailable(m, ov)));
                        assert(e is Cache);
                    }
                    if bad_poly {
                        assert(!(some_dep_unavailable(m, ov)));
                        assert(e is Cache);
                    }
                }
                return Err(e);
            },
        };
        let mut parts = String::new();
        let mut wrote: bool = false;
        let mut i: usize = 0;
        while i < related.len()
            invariant
                0 <= i <= related@.len(),
                ready ==> wrote == (i > 0),
                ready ==> parts@ == join_upto(bodies, i as int),
                bad_poly ==> forall|j: int| 0 <= j < i ==> way_poly_ok(m, ov, j),
            decreases related@.len() - i,
        {
            let ghost child = cached_object_of(m, deps_of(ov)[i as int])->0;
            proof {
                if ready || bad_poly {
                    assert(cached_object_of(m, deps_of(ov)[i as int]) is Some);
                    assert(enriched_from(
                        child,
                        related@[i as int]@,
                        ov.unique_id(),
                        member_role_of(ov, i as int),
                    ));
                    assert(related@[i as int]@.tag("area"@) == child.tag("area"@));
                    assert(related@[i as int]@.tag("building"@) == child.tag("building"@));
                    lemma_way_geometry_same_tags(m, related@[i as int]@, child);
                    assert(related@[i as int]@.specifics is Way);
                }
            }
            let rel_geom = match self.geometry_with_depth(&related[i], depth) {
                Ok(Some(g)) => g,
                Ok(None) => {
                    proof {
                        if ready {
                            assert(way_geometry(m, related@[i as int]@) == way_geometry(m, child));
                            assert(false);
                        }
                    }
                    return Ok(None);
                },
                Err(e) => {
                    proof {
                        if ready || bad_poly {
                            assert(way_geometry(m, child) is Some);
                            assert(way_coords_of(
                                m,
                                related@[i as int]@.specifics->Way_nodes,
                            ) is Some);
                            assert(e is Cache);
                        }
                    }
                    return Err(e);
                },
            };
            proof {
                if ready || bad_poly {
                    assert(way_geometry(m, related@[i as int]@) == way_geometry(m, child));
                    assert(rel_geom@ == (way_geometry(m, child)->0)->0);
                }
            }
            if !starts_with_str(rel_geom.as_str(), "POLYGON") {
                proof {
                    if ready {
                        assert(false);
                    }
                }
                return Ok(None);
            }
            let n = rel_geom.as_str().unicode_len();
            proof {
                reveal_strlit("POLYGON");
                assert(rel_geom@.len() >= "POLYGON"@.len());
                assert("POLYGON"@.len() == 7);
            }
            let body = rel_geom.as_str().substring_char(7, n);
            if wrote {
                proof {
                    reveal_strlit(", ");
                    assert(", "@ =~= seq![',', ' ']);
                }
                parts.append(", ");
            }
            parts.append(body);
            wrote = true;
            proof {
                if ready {
                    assert(body@ == member_poly_body(m, ov, i as int));
                    assert(bodies[i as int] == member_poly_body(m, ov, i as int));
                    assert(parts@ =~= join_upto(bodies, i + 1));
                }
                if bad_poly {
                    assert(way_geometry(m, child) == Some(Some(rel_geom@)));
                    assert(way_poly_ok(m, ov, i as int));
                }
            }
            i += 1;
        }
        proof {
            if bad_poly {
                assert(related@.len() == deps_of(ov).len());
                assert(forall|k: int| 0 <= k < deps_of(ov).len() ==> way_poly_ok(m, ov, k));
                assert(false);
            }
        }
        let mut s = ("MULTIPOLYGON(").to_owned();
        let ghost rest = parts@;
        proof {
            reveal_strlit("MULTIPOLYGON(");
            reveal_strlit(")");
        }
        s.append(parts.as_str());
        s.append(")");
        proof {
            lemma_starts_with_concat("MULTIPOLYGON("@, rest + ")"@);
            assert(s@ =~= "MULTIPOLYGON("@ + (rest + ")"@));
            if ready {
                assert(related@.len() == deps_of(ov).len());
                assert(rest == join_upto(bodies, n_deps));
                assert(s@ =~= simple_result(m, ov));
            }
        }
        Ok(Some(s))
    }

    /// The complex multipolygon path: members carry `inner` and `outer`
    /// roles; their coordinate fragments are stitched into rings, and
    /// each ring becomes a polygon body.
    /// The complex multipolygon path.  When every member is an
    /// `inner`/`outer` ring backed by a cached way, the outcome is
    /// exactly `complex_result` of the stitched ring buckets — a
    /// function of the member rings alone, unchanged by re-stitching
    /// (`lemma_stitch_idempotent`).
    #[verifier::loop_isolation(false)]
    #[verifier::rlimit(100)]
    #[verifier::spinoff_prover]
    fn construct_multipolygon_from_complex_polygons(&self, object: &OSMObject) -> (r: Result<
        Option<String>,
        EngineError,
    >)
        ensures
            match r {
                Ok(g) => g is Some ==> spec_starts_with(g->0@, "POLYGON"@) || spec_starts_with(
                    g->0@,
                    "MULTIPOLYGON("@,
                ),
                Err(e) => e is Cache || e is Corrupt || e is MissingDependency,
            },
            (object@.specifics is Relation && !some_dep_unavailable(self.cache(), object@)
                && way_members_readable(self.cache(), object@) && !(forall|k: int|
                0 <= k < deps_of(object@).len() ==> ring_member_ok(self.cache(), object@, k)))
                ==> ((r is Ok && r->Ok_0 is None) || (r is Err && r->Err_0 is Cache)),
            complex_ready(self.cache(), object@) ==> match r {
                Ok(g) => (match g {
                    Some(s) => Some(s@),
                    None => None::<Seq<char>>,
                }) == complex_result(
                    stitch_spec(
                        rings_with_role(
                            self.cache(),
                            object@,
                            deps_of(object@).len() as int,
                            "inner"@,
                        ),
                    ),
                    stitch_spec(
                        rings_with_role(
                            self.cache(),
                            object@,
                            deps_of(object@).len() as int,
                            "outer"@,
                        ),
                    ),
                ),
                Err(e) => e is Cache,
            },
    {
        let ghost m = self.cache();
        let ghost ov = object@;
        let ghost n = deps_of(ov).len() as int;
        let ghost sp_in = rings_with_role(m, ov, n, "inner"@);
        let ghost sp_out = rings_with_role(m, ov, n, "outer"@);
        let ghost st_in = stitch_spec(sp_in);
        let ghost st_out = stitch_spec(sp_out);
        let ghost ready = complex_ready(m, ov);
        let ghost bad_rings = ov.specifics is Relation && !some_dep_unavailable(m, ov)
            && way_members_readable(m, ov) && !(forall|k: int|
            0 <= k < deps_of(ov).len() ==> ring_member_ok(m, ov, k));
        proof {
            reveal_strlit("inner");
            reveal_strlit("outer");
            assert("inner"@[0] == 'i' && "outer"@[0] == 'o');
            assert("inner"@ != "outer"@);
        }
        let related = match self.related_objects_of(object) {
            Ok(v) => v,
            Err(e) => {
                proof {
                    if ready {
                        assert(!(some_dep_unavailable(m, ov)));
                        assert(e is Cache);
                    }
                    if bad_rings {
                        assert(e is Cache);
                    }
                }
                return Err(e);
            },
        };
        let mut inners: Vec<Vec<Coord>> = Vec::new();
        let mut outers: Vec<Vec<Coord>> = Vec::new();
        let mut i: usize = 0;
        while i < related.len()
            invariant
                0 <= i <= related@.len(),
                ready ==> views_of(inners@) == rings_with_role(m, ov, i as int, "inner"@),
                ready ==> views_of(outers@) == rings_with_role(m, ov, i as int, "outer"@),
                bad_rings ==> forall|j: int| 0 <= j < i ==> ring_member_ok(m, ov, j),
            decreases related@.len() - i,
        {
            let related_obj = &related[i];
            let is_inner: bool;
            match related_obj.tag("role") {
                None => {
                    proof {
                        if ready {
                            assert(member_role_of(ov, i as int) is Some);
                            assert(related@[i as int]@.tag("role"@) is Some);
                            assert(false);
                        }
                    }
                    return Ok(None);
                },
                Some(ro) => {
                    if str_eq(ro.as_str(), "inner") {
                        is_inner = true;
                    } else if str_eq(ro.as_str(), "outer") {
                        is_inner = false;
                    } else {
                        proof {
                            if ready {
                                assert(related@[i as int]@.tag("role"@) == Some(ro@));
                                assert(member_role_of(ov, i as int) == Some(ro@));
                                assert(false);
                            }
                        }
                        return Ok(None);
                    }
                    proof {
                        if ready {
                            assert(related@[i as int]@.tag("role"@) == Some(ro@));
                            assert(member_role_of(ov, i as int) == Some(ro@));
                            assert(is_inner <==> member_role_of(ov, i as int) == Some("inner"@));
                        }
                        if bad_rings {
                            assert(cached_object_of(m, deps_of(ov)[i as int]) is Some);
                            assert(related@[i as int]@.tag("role"@) == Some(ro@));
                            assert(member_role_of(ov, i as int) == Some(ro@));
                            assert(member_role_of(ov, i as int) == Some("inner"@)
                                || member_role_of(ov, i as int) == Some("outer"@));
                        }
                    }
                },
            }
            match &related_obj.specifics {
                OSMObjectSpecifics::Way { .. } => (),
                _ => {
                    proof {
                        if ready {
                            assert((cached_object_of(m, deps_of(ov)[i as int])->0).specifics
                                is Way);
                            assert(related@[i as int]@.specifics is Way);
                            assert(false);
                        }
                    }
                    return Ok(None);
                },
            }
            proof {
                if bad_rings {
                    assert(cached_object_of(m, deps_of(ov)[i as int]) is Some);
                    assert(related@[i as int]@.specifics == (cached_object_of(
                        m,
                        deps_of(ov)[i as int],
                    )->0).specifics);
                    assert(ring_member_ok(m, ov, i as int));
                }
            }
            let points = match self.get_way_coords(related_obj) {
                Ok(cs) => cs,
                Err(e) => {
                    proof {
                        if ready {
                            assert(related@[i as int]@.specifics == (cached_object_of(
                                m,
                                deps_of(ov)[i as int],
                            )->0).specifics);
                            assert(way_coords_of(
                                m,
                                related@[i as int]@.specifics->Way_nodes,
                            ) is Some);
                            assert(e is Cache);
                        }
                        if bad_rings {
                            assert(way_coords_of(
                                m,
                                related@[i as int]@.specifics->Way_nodes,
                            ) is Some);
                            assert(e is Cache);
                        }
                    }
                    return Err(e);
                },
            };
            proof {
                if ready {
                    assert(related@[i as int]@.specifics == (cached_object_of(
                        m,
                        deps_of(ov)[i as int],
                    )->0).specifics);
                    assert(points@ == ring_of(m, ov, i as int));
                }
            }
            if is_inner {
                let ghost prev = inners@;
                inners.push(points);
                proof {
                    if ready {
                        assert(views_of(inners@) =~= views_of(prev) + seq![
                            ring_of(m, ov, i as int),
                        ]);
                        assert(views_of(inners@) =~= rings_with_role(m, ov, i + 1, "inner"@));
                        assert(rings_with_role(m, ov, i + 1, "outer"@) =~= rings_with_role(
                            m,
                            ov,
                            i as int,
                            "outer"@,
                        ));
                    }
                }
            } else {
                let ghost prev = outers@;
                outers.push(points);
                proof {
                    if ready {
                        assert(views_of(outers@) =~= views_of(prev) + seq![
                            ring_of(m, ov, i as int),
                        ]);
                        assert(views_of(outers@) =~= rings_with_role(m, ov, i + 1, "outer"@));
                        assert(rings_with_role(m, ov, i + 1, "inner"@) =~= rings_with_role(
                            m,
                            ov,
                            i as int,
                            "inner"@,
                        ));
                    }
                }
            }
            i += 1;
        }
        proof {
            if ready {
                assert(related@.len() == deps_of(ov).len());
                assert(views_of(inners@) == sp_in);
                assert(views_of(outers@) == sp_out);
            }
            if bad_rings {
                assert(related@.len() == deps_of(ov).len());
                assert(forall|k: int|
                    0 <= k < deps_of(ov).len() ==> ring_member_ok(m, ov, k));
                assert(false);
            }
        }
        connect_polygon_segments(&mut inners);
        connect_polygon_segments(&mut outers);
        proof {
            if ready {
                assert(views_of(inners@) == st_in);
                assert(views_of(outers@) == st_out);
                assert(inners@.len() == st_in.len() && outers@.len() == st_out.len());
            }
        }
        if outers.len() != 1 && inners.len() > 0 {
            proof {
                if ready {
                    assert(complex_result(st_in, st_out) is None);
                }
            }
            return Ok(None);
        }
        let mut polys: Vec<String> = Vec::new();
        let inners_is_empty = inners.len() == 0;
        let mut k: usize = 0;
        while k < inners.len()
            invariant
                0 <= k <= inners@.len(),
                outers@.len() >= 1 || inners@.len() == 0,
                polys@.len() == k,
                forall|j: int|
                    0 <= j < k ==> (#[trigger] polys@[j])@ == hole_poly_text(
                        outers@[0]@,
                        inners@[j]@,
                    ),
                forall|j: int| 0 <= j < k ==> (#[trigger] inners@[j])@.len() >= 4,
            decreases inners@.len() - k,
        {
            if inners[k].len() < 4 {
                proof {
                    if ready {
                        assert(st_in[k as int].len() < 4);
                        assert(has_short_ring(st_in));
                        assert(complex_result(st_in, st_out) is None);
                    }
                }
                return Ok(None);
            }
            let mut body = ("((").to_owned();
            body.append(coords_to_text(&outers[0]).as_str());
            body.append("),(");
            body.append(coords_to_text(&inners[k]).as_str());
            body.append("))");
            proof {
                reveal_strlit("((");
                reveal_strlit("),(");
                reveal_strlit("))");
                assert(body@ =~= hole_poly_text(outers@[0]@, inners@[k as int]@));
            }
            polys.push(body);
            k += 1;
        }
        if inners_is_empty {
            let mut k2: usize = 0;
            while k2 < outers.len()
                invariant
                    0 <= k2 <= outers@.len(),
                    inners@.len() == 0,
                    polys@.len() == k2,
                    forall|j: int|
                        0 <= j < k2 ==> (#[trigger] polys@[j])@ == solid_poly_text(outers@[j]@),
                    forall|j: int| 0 <= j < k2 ==> (#[trigger] outers@[j])@.len() >= 4,
                decreases outers@.len() - k2,
            {
                if outers[k2].len() < 4 {
                    proof {
                        if ready {
                            assert(st_out[k2 as int].len() < 4);
                            assert(has_short_ring(st_out));
                            assert(complex_result(st_in, st_out) is None);
                        }
                    }
                    return Ok(None);
                }
                let mut body = ("((").to_owned();
                body.append(coords_to_text(&outers[k2]).as_str());
                body.append("))");
                proof {
                    reveal_strlit("((");
                    reveal_strlit("))");
                    assert(body@ =~= solid_poly_text(outers@[k2 as int]@));
                }
                polys.push(body);
                k2 += 1;
            }
        }
        let ghost gpolys = Seq::new(polys@.len() as nat, |j: int| polys@[j]@);
        proof {
            if ready {
                if st_in.len() > 0 {
                    assert(!inners_is_empty);
                    assert(gpolys =~= Seq::new(
                        st_in.len(),
                        |j: int| hole_poly_text(st_out[0], st_in[j]),
                    ));
                    assert(!has_short_ring(st_in));
                    assert(complex_result(st_in, st_out) == Some(polys_text(gpolys)));
                } else {
                    assert(inners_is_empty);
                    assert(gpolys =~= Seq::new(st_out.len(), |j: int| solid_poly_text(st_out[j])));
                    assert(!has_short_ring(st_out));
                    assert(complex_result(st_in, st_out) == Some(polys_text(gpolys)));
                }
            }
        }
        if polys.len() == 1 {
            let mut s = ("POLYGON").to_owned();
            let ghost rest = polys@[0]@;
            s.append(polys[0].as_str());
            proof {
                lemma_starts_with_concat("POLYGON"@, rest);
                assert(s@ =~= "POLYGON"@ + rest);
                assert(gpolys[0] == rest);
                assert(s@ =~= polys_text(gpolys));
            }
            Ok(Some(s))
        } else {
            let mut s = ("MULTIPOLYGON(").to_owned();
            let mut k3: usize = 0;
            proof {
                assert(s@ =~= "MULTIPOLYGON("@ + join_upto(gpolys, 0));
            }
            while k3 < polys.len()
                invariant
                    0 <= k3 <= polys@.len(),
                    s@ == "MULTIPOLYGON("@ + join_upto(gpolys, k3 as int),
                decreases polys@.len() - k3,
            {
                proof {
                    reveal_strlit(", ");
                }
                if k3 > 0 {
                    s.append(", ");
                    proof {
                        assert(", "@ =~= seq![',', ' ']);
                    }
                }
                s.append(polys[k3].as_str());
                proof {
                    assert(gpolys[k3 as int] == polys@[k3 as int]@);
                    assert(s@ =~= "MULTIPOLYGON("@ + join_upto(gpolys, k3 + 1));
                }
                k3 += 1;
            }
            s.append(")");
            proof {
                assert(s@ =~= "MULTIPOLYGON("@ + (join_upto(gpolys, gpolys.len() as int) + ")"@));
                lemma_starts_with_concat("MULTIPOLYGON("@, join_upto(gpolys, gpolys.len() as int) + ")"@);
                assert(polys@.len() != 1);
                assert(s@ =~= polys_text(gpolys));
            }
            Ok(Some(s))
        }
    }
}

/// The geometry contract, by kind: nodes exact, ways by `way_geometry`,
/// relations by the shape their `type` tag allows.
pub open spec fn geometry_shape_ok(
    m: Map<Seq<char>, Seq<char>>,
    o: OSMObjectV,
    g: Option<String>,
) -> bool {
    match o.specifics {
        SpecificsV::Node { lon7, lat7 } => g is Some && g->0@ == point_wkt(lon7, lat7),
        SpecificsV::Way { .. } => way_geometry(m, o) == Some(
            match g {
                Some(s) => Some(s@),
                None => None::<Seq<char>>,
            },
        ),
        SpecificsV::Relation { .. } => match g {
            None => true,
            Some(s) => if o.tag("type"@) == Some("multipolygon"@) {
                spec_starts_with(s@, "POLYGON"@) || spec_starts_with(s@, "MULTIPOLYGON("@)
                    || spec_starts_with(s@, "GEOMETRYCOLLECTION("@)
            } else {
                spec_starts_with(s@, "GEOMETRYCOLLECTION("@)
            },
        },
    }
}


/// Whenever a way's coordinate sequence can be built, every node the
/// way references is present in the cache: rendered ring coordinates
/// come only from cached nodes.
pub proof fn lemma_way_coords_all_cached(m: Map<Seq<char>, Seq<char>>, nodes: Seq<nat>)
    requires
        way_coords_of(m, nodes) is Some,
    ensures
        forall|k: int|
            0 <= k < nodes.len() ==> m.contains_key(
                spec_unique_reference(OSMObjectType::Node, #[trigger] nodes[k]),
            ),
    decreases nodes.len(),
{
    if nodes.len() > 0 {
        lemma_way_coords_all_cached(m, nodes.drop_first());
        assert forall|k: int|
            0 <= k < nodes.len() implies m.contains_key(
            spec_unique_reference(OSMObjectType::Node, #[trigger] nodes[k]),
        ) by {
            if k > 0 {
                assert(nodes.drop_first()[k - 1] == nodes[k]);
            }
        }
    }
}


/// The object is what some cache key decodes to.
pub open spec fn object_is_cached(m: Map<Seq<char>, Seq<char>>, ov: OSMObjectV) -> bool {
    exists|key: Seq<char>|
        m.contains_key(key) && cached_object_of(m, key) == Some(ov)
}

/// Some position of `v` holds what this cache key decodes to.
pub open spec fn cache_key_listed(
    m: Map<Seq<char>, Seq<char>>,
    key: Seq<char>,
    v: Seq<OSMObject>,
) -> bool {
    exists|k: int| 0 <= k < v.len() && cached_object_of(m, key) == Some((#[trigger] v[k])@)
}


/// Some key of the cache holds a payload that does not decode.
pub open spec fn some_payload_undecodable(m: Map<Seq<char>, Seq<char>>) -> bool {
    exists|key: Seq<char>| m.contains_key(key) && spec_decode(m[key]) is None
}


/// The role a parent hands to its `k`-th dependency: the member's role
/// for a relation, nothing otherwise.
pub open spec fn member_role_of(parent: OSMObjectV, k: int) -> Option<Seq<char>> {
    match parent.specifics {
        SpecificsV::Relation { members } => if 0 <= k < members.len() {
            Some(members[k].role)
        } else {
            None
        },
        _ => None,
    }
}

/// `out` is `child` enriched for its parent: the same object, with a
/// `parent_id` tag naming the parent, a `role` tag when a member role
/// was handed down, and every other tag unchanged.
pub open spec fn enriched_from(
    child: OSMObjectV,
    out: OSMObjectV,
    parent_id: Seq<char>,
    role: Option<Seq<char>>,
) -> bool {
    &&& out.id == child.id
    &&& out.timestamp == child.timestamp
    &&& out.version == child.version
    &&& out.changeset == child.changeset
    &&& out.specifics == child.specifics
    &&& out.tag("parent_id"@) == Some(parent_id)
    &&& match role {
        Some(ro) => out.tag("role"@) == Some(ro) && (forall|k: Seq<char>|
            k != "parent_id"@ && k != "role"@ ==> #[trigger] out.tag(k) == child.tag(k)),
        None => forall|k: Seq<char>|
            k != "parent_id"@ ==> #[trigger] out.tag(k) == child.tag(k),
    }
}


/// Some dependency of the object is absent from the cache or its
/// payload does not decode.
pub open spec fn some_dep_unavailable(m: Map<Seq<char>, Seq<char>>, o: OSMObjectV) -> bool {
    exists|k: int|
        0 <= k < deps_of(o).len() && cached_object_of(m, #[trigger] deps_of(o)[k]) is None
}

/// The ring the `k`-th member contributes: its way's coordinates read
/// from the cache.
pub open spec fn ring_of(m: Map<Seq<char>, Seq<char>>, o: OSMObjectV, k: int) -> Seq<Coord> {
    way_coords_of(m, (cached_object_of(m, deps_of(o)[k])->0).specifics->Way_nodes)->0
}

/// The rings of the members carrying the given role among the first
/// `j`, in member order.
pub open spec fn rings_with_role(
    m: Map<Seq<char>, Seq<char>>,
    o: OSMObjectV,
    j: int,
    role: Seq<char>,
) -> Seq<Seq<Coord>>
    decreases j,
{
    if j <= 0 {
        Seq::empty()
    } else {
        rings_with_role(m, o, j - 1, role) + if member_role_of(o, j - 1) == Some(role) {
            seq![ring_of(m, o, j - 1)]
        } else {
            Seq::empty()
        }
    }
}

/// Every member is an `inner` or `outer` ring backed by a cached way
/// whose coordinates are readable: the inputs on which the complex
/// multipolygon path's outcome is decided by the rings alone.
pub open spec fn complex_ready(m: Map<Seq<char>, Seq<char>>, o: OSMObjectV) -> bool {
    &&& o.specifics is Relation
    &&& forall|k: int|
        0 <= k < deps_of(o).len() ==> {
            &&& (member_role_of(o, k) == Some("inner"@) || member_role_of(o, k) == Some(
                "outer"@,
            ))
            &&& cached_object_of(m, #[trigger] deps_of(o)[k]) is Some
            &&& (cached_object_of(m, deps_of(o)[k])->0).specifics is Way
            &&& way_coords_of(
                m,
                (cached_object_of(m, deps_of(o)[k])->0).specifics->Way_nodes,
            ) is Some
        }
}

pub open spec fn has_short_ring(rs: Seq<Seq<Coord>>) -> bool {
    exists|k: int| 0 <= k < rs.len() && (#[trigger] rs[k]).len() < 4
}

/// One polygon body holding the shared outer ring and one hole.
pub open spec fn hole_poly_text(outer: Seq<Coord>, inner: Seq<Coord>) -> Seq<char> {
    "(("@ + coords_text(outer) + "),("@ + coords_text(inner) + "))"@
}

/// One polygon body holding a single outer ring.
pub open spec fn solid_poly_text(outer: Seq<Coord>) -> Seq<char> {
    "(("@ + coords_text(outer) + "))"@
}

/// The first `k` polygon bodies joined by a comma and a space.
pub open spec fn join_upto(parts: Seq<Seq<char>>, k: int) -> Seq<char>
    decreases k,
{
    if k <= 0 {
        Seq::empty()
    } else {
        join_upto(parts, k - 1) + (if k - 1 > 0 {
            seq![',', ' ']
        } else {
            Seq::empty()
        }) + parts[k - 1]
    }
}

/// The final text for the given polygon bodies: a lone body renders as
/// a `POLYGON`, any other number as a `MULTIPOLYGON`.
pub open spec fn polys_text(polys: Seq<Seq<char>>) -> Seq<char> {
    if polys.len() == 1 {
        "POLYGON"@ + polys[0]
    } else {
        "MULTIPOLYGON("@ + join_upto(polys, polys.len() as int) + ")"@
    }
}

/// The complex multipolygon outcome for already-stitched ring buckets:
/// absent on an ambiguous attribution or a short ring, else one polygon
/// body per hole (sharing the one outer ring) or per outer ring.
pub open spec fn complex_result(inners: Seq<Seq<Coord>>, outers: Seq<Seq<Coord>>) -> Option<
    Seq<char>,
> {
    if outers.len() != 1 && inners.len() > 0 {
        None
    } else if inners.len() > 0 {
        if has_short_ring(inners) {
            None
        } else {
            Some(
                polys_text(
                    Seq::new(inners.len(), |j: int| hole_poly_text(outers[0], inners[j])),
                ),
            )
        }
    } else {
        if has_short_ring(outers) {
            None
        } else {
            Some(polys_text(Seq::new(outers.len(), |j: int| solid_poly_text(outers[j]))))
        }
    }
}


/// A way's geometry depends only on its node list and the closed-way
/// heuristic's tags, so the transient enrichment tags do not change it.
pub proof fn lemma_way_geometry_same_tags(
    m: Map<Seq<char>, Seq<char>>,
    a: OSMObjectV,
    b: OSMObjectV,
)
    requires
        a.specifics == b.specifics,
        a.tag("area"@) == b.tag("area"@),
        a.tag("building"@) == b.tag("building"@),
    ensures
        way_geometry(m, a) == way_geometry(m, b),
{
}

/// Every member is a cached way whose own geometry is a `POLYGON`: the
/// inputs on which the simple multipolygon path must succeed.
pub open spec fn simple_ready(m: Map<Seq<char>, Seq<char>>, o: OSMObjectV) -> bool {
    &&& o.specifics is Relation
    &&& forall|k: int|
        0 <= k < deps_of(o).len() ==> {
            &&& cached_object_of(m, #[trigger] deps_of(o)[k]) is Some
            &&& (cached_object_of(m, deps_of(o)[k])->0).specifics is Way
            &&& match way_geometry(m, cached_object_of(m, deps_of(o)[k])->0) {
                Some(g) => match g {
                    Some(text) => spec_starts_with(text, "POLYGON"@),
                    None => false,
                },
                None => false,
            }
        }
}

/// The `k`-th member's polygon body: its way geometry with the
/// `POLYGON` keyword stripped.
pub open spec fn member_poly_body(m: Map<Seq<char>, Seq<char>>, o: OSMObjectV, k: int) -> Seq<
    char,
> {
    let text = (way_geometry(m, cached_object_of(m, deps_of(o)[k])->0)->0)->0;
    text.subrange(7, text.len() as int)
}

/// The simple multipolygon outcome when every member renders as a
/// `POLYGON`: their bodies joined in member order.
pub open spec fn simple_result(m: Map<Seq<char>, Seq<char>>, o: OSMObjectV) -> Seq<char> {
    "MULTIPOLYGON("@ + join_upto(
        Seq::new(deps_of(o).len(), |k: int| member_poly_body(m, o, k)),
        deps_of(o).len() as int,
    ) + ")"@
}


/// Every member that is a cached way has readable coordinates.
pub open spec fn way_members_readable(m: Map<Seq<char>, Seq<char>>, o: OSMObjectV) -> bool {
    forall|k: int|
        0 <= k < deps_of(o).len() && cached_object_of(m, #[trigger] deps_of(o)[k]) is Some && (
        cached_object_of(m, deps_of(o)[k])->0).specifics is Way ==> way_coords_of(
            m,
            (cached_object_of(m, deps_of(o)[k])->0).specifics->Way_nodes,
        ) is Some
}

/// The `k`-th member is a ring fragment: an `inner` or `outer` role on
/// a cached way.
pub open spec fn ring_member_ok(m: Map<Seq<char>, Seq<char>>, o: OSMObjectV, k: int) -> bool {
    &&& (member_role_of(o, k) == Some("inner"@) || member_role_of(o, k) == Some("outer"@))
    &&& (cached_object_of(m, deps_of(o)[k])->0).specifics is Way
}

/// Every member is a cached way with a defined way geometry.
pub open spec fn member_way_geoms_readable(m: Map<Seq<char>, Seq<char>>, o: OSMObjectV) -> bool {
    forall|k: int|
        0 <= k < deps_of(o).len() ==> cached_object_of(m, #[trigger] deps_of(o)[k]) is Some && (
        cached_object_of(m, deps_of(o)[k])->0).specifics is Way && way_geometry(
            m,
            cached_object_of(m, deps_of(o)[k])->0,
        ) is Some
}

/// The `k`-th member's own geometry is a `POLYGON`.
pub open spec fn way_poly_ok(m: Map<Seq<char>, Seq<char>>, o: OSMObjectV, k: int) -> bool {
    match way_geometry(m, cached_object_of(m, deps_of(o)[k])->0) {
        Some(g) => match g {
            Some(text) => spec_starts_with(text, "POLYGON"@),
            None => false,
        },
        None => false,
    }
}


/// Every decodable payload of the cache sits under its own canonical
/// id.  `cache_object_into` and ingestion store objects only this way;
/// the lemmas below let a caller carry the property across stores.
pub open spec fn well_keyed(m: Map<Seq<char>, Seq<char>>) -> bool {
    forall|key: Seq<char>|
        m.contains_key(key) && spec_decode(#[trigger] m[key]) is Some ==> (spec_decode(
            m[key],
        )->0).unique_id() == key
}

/// Storing a well-formed object under its canonical id keeps the cache
/// well keyed.
pub proof fn lemma_well_keyed_insert(m: Map<Seq<char>, Seq<char>>, o: OSMObjectV)
    requires
        well_keyed(m),
        wf_object(o),
    ensures
        well_keyed(m.insert(o.unique_id(), spec_encode(o))),
{
    crate::codec::lemma_decode_encode(o);
    let m2 = m.insert(o.unique_id(), spec_encode(o));
    assert forall|key: Seq<char>|
        m2.contains_key(key) && spec_decode(#[trigger] m2[key]) is Some implies (spec_decode(
        m2[key],
    )->0).unique_id() == key by {
        if key == o.unique_id() {
            assert(m2[key] == spec_encode(o));
        } else {
            assert(m2[key] == m[key]);
        }
    }
}

/// Ingesting well-formed objects keeps the cache well keyed.
pub proof fn lemma_well_keyed_cache_after(m: Map<Seq<char>, Seq<char>>, objs: Seq<OSMObjectV>)
    requires
        well_keyed(m),
        forall|k: int| 0 <= k < objs.len() ==> wf_object(#[trigger] objs[k]),
    ensures
        well_keyed(cache_after(m, objs)),
    decreases objs.len(),
{
    if objs.len() > 0 {
        lemma_well_keyed_insert(m, objs[0]);
        let m2 = m.insert(objs[0].unique_id(), spec_encode(objs[0]));
        assert(forall|k: int|
            0 <= k < objs.drop_first().len() ==> wf_object(#[trigger] objs.drop_first()[k]));
        lemma_well_keyed_cache_after(m2, objs.drop_first());
    }
}


/// The point is the coordinate pair of some cached node.
pub open spec fn point_from_cached_node(m: Map<Seq<char>, Seq<char>>, pt: Coord) -> bool {
    exists|key: Seq<char>|
        #[trigger] m.contains_key(key) && match cached_object_of(m, key) {
            Some(o) => match o.specifics {
                SpecificsV::Node { lon7, lat7 } => pt == (lon7 as i64, lat7 as i64),
                _ => false,
            },
            None => false,
        }
}

/// Readable way coordinates are coordinates of cached nodes.
proof fn lemma_way_coords_points_cached(m: Map<Seq<char>, Seq<char>>, nodes: Seq<nat>)
    requires
        way_coords_of(m, nodes) is Some,
    ensures
        forall|i: int|
            0 <= i < (way_coords_of(m, nodes)->0).len() ==> point_from_cached_node(
                m,
                #[trigger] (way_coords_of(m, nodes)->0)[i],
            ),
    decreases nodes.len(),
{
    if nodes.len() > 0 {
        let key = spec_unique_reference(OSMObjectType::Node, nodes[0]);
        let cs = way_coords_of(m, nodes)->0;
        let rest = way_coords_of(m, nodes.drop_first())->0;
        lemma_way_coords_points_cached(m, nodes.drop_first());
        assert forall|i: int|
            0 <= i < cs.len() implies point_from_cached_node(m, #[trigger] cs[i]) by {
            if i == 0 {
                assert(m.contains_key(key) && match cached_object_of(m, key) {
                    Some(o) => match o.specifics {
                        SpecificsV::Node { lon7, lat7 } => cs[0] == (lon7 as i64, lat7 as i64),
                        _ => false,
                    },
                    None => false,
                });
            } else {
                assert(cs[i] == rest[i - 1]);
            }
        }
    }
}

/// Each ring of a role bucket is some member's way coordinates.
proof fn lemma_rings_points_cached(
    m: Map<Seq<char>, Seq<char>>,
    o: OSMObjectV,
    j: int,
    role: Seq<char>,
)
    requires
        complex_ready(m, o),
        0 <= j <= deps_of(o).len(),
    ensures
        forall|idx: int, i: int|
            0 <= idx < rings_with_role(m, o, j, role).len() && 0 <= i < rings_with_role(
                m,
                o,
                j,
                role,
            )[idx].len() ==> point_from_cached_node(
                m,
                #[trigger] rings_with_role(m, o, j, role)[idx][i],
            ),
    decreases j,
{
    if j > 0 {
        lemma_rings_points_cached(m, o, j - 1, role);
        let prev = rings_with_role(m, o, j - 1, role);
        let cur = rings_with_role(m, o, j, role);
        if member_role_of(o, j - 1) == Some(role) {
            assert(cached_object_of(m, deps_of(o)[j - 1]) is Some);
            let nodes = (cached_object_of(m, deps_of(o)[j - 1])->0).specifics->Way_nodes;
            lemma_way_coords_points_cached(m, nodes);
            assert forall|idx: int, i: int|
                0 <= idx < cur.len() && 0 <= i < cur[idx].len() implies point_from_cached_node(
                m,
                #[trigger] cur[idx][i],
            ) by {
                if idx < prev.len() {
                    assert(cur[idx] == prev[idx]);
                } else {
                    assert(cur[idx] == ring_of(m, o, j - 1));
                    assert(cur[idx] == way_coords_of(m, nodes)->0);
                }
            }
        } else {
            assert(cur =~= prev);
        }
    }
}

/// Every coordinate of the stitched ring buckets of a ready
/// multipolygon relation is the coordinate pair of a cached node: the
/// rendered rings reference only cached nodes.
pub proof fn lemma_multipolygon_points_cached(
    m: Map<Seq<char>, Seq<char>>,
    o: OSMObjectV,
    role: Seq<char>,
)
    requires
        complex_ready(m, o),
    ensures
        forall|pt: Coord|
            segment_points(
                stitch_spec(rings_with_role(m, o, deps_of(o).len() as int, role)),
            ).contains(pt) ==> point_from_cached_node(m, pt),
{
    let rings = rings_with_role(m, o, deps_of(o).len() as int, role);
    crate::utils::lemma_stitch_spec_points(rings);
    lemma_rings_points_cached(m, o, deps_of(o).len() as int, role);
    assert forall|pt: Coord|
        segment_points(stitch_spec(rings)).contains(pt) implies point_from_cached_node(
        m,
        pt,
    ) by {
        crate::utils::lemma_segment_points_contains(rings, pt);
        let idx = choose|idx: int| 0 <= idx < rings.len() && #[trigger] rings[idx].contains(pt);
        let i = choose|i: int| 0 <= i < rings[idx].len() && rings[idx][i] == pt;
        assert(point_from_cached_node(m, rings[idx][i]));
    }
}

} // verus!
