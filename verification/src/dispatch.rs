//! Stateless query handlers over the shared index: authentication,
//! filtering, pagination, and the owner / secondary-key fast paths.

use vstd::prelude::*;
use crate::account::{AccountKey, AccountRecord, KEY_LEN};
use crate::filter::{Filter, spec_all_match, all_match, memcmp_matches};
use crate::index::{ShardedIndex, owner_query_post, top_query_post};

verus! {

/// Why a query was refused.
#[derive(Clone, Copy, Debug, PartialEq, Eq)]
pub enum QueryError {
    /// The configured shared secret was missing or wrong.
    Unauthorized,
}

/// The optional shared-secret check: when a secret is configured, the caller
/// must present exactly it.
pub open spec fn spec_auth_ok(required: Option<Vec<u8>>, provided: Option<Vec<u8>>) -> bool {
    match required {
        None => true,
        Some(req) => match provided {
            Some(prov) => prov@ == req@,
            None => false,
        },
    }
}

/// Byte-sequence equality.
fn bytes_eq(a: &Vec<u8>, b: &Vec<u8>) -> (r: bool)
    ensures
        r == (a@ == b@),
{
    if a.len() != b.len() {
        return false;
    }
    let mut i: usize = 0;
    while i < a.len()
        invariant
            a@.len() == b@.len(),
            i <= a@.len(),
            forall|j: int| 0 <= j < i ==> a@[j] == b@[j],
        decreases a@.len() - i,
    {
        if a[i] != b[i] {
            return false;
        }
        i += 1;
    }
    proof {
        assert(a@ =~= b@);
    }
    true
}

/// Validate the optional shared secret.
pub fn check_api_key(required: &Option<Vec<u8>>, provided: &Option<Vec<u8>>) -> (r: bool)
    ensures
        r == spec_auth_ok(*required, *provided),
{
    match required {
        None => true,
        Some(req) => match provided {
            Some(prov) => bytes_eq(prov, req),
            None => false,
        },
    }
}

/// Pagination: drop the first `offset` entries, keep at most `limit`. An
/// offset at or past the end yields the empty sequence, never an error.
pub open spec fn paginate_spec(
    s: Seq<(AccountKey, AccountRecord)>,
    offset: int,
    limit: int,
) -> Seq<(AccountKey, AccountRecord)> {
    if offset >= s.len() || offset < 0 || limit < 0 {
        Seq::empty()
    } else if offset + limit <= s.len() {
        s.subrange(offset, offset + limit)
    } else {
        s.subrange(offset, s.len() as int)
    }
}

/// Apply pagination to an owned result list.
pub fn paginate(v: Vec<(AccountKey, AccountRecord)>, offset: usize, limit: usize) -> (r: Vec<
    (AccountKey, AccountRecord),
>)
    ensures
        r@ == paginate_spec(v@, offset as int, limit as int),
        r@.len() <= limit,
{
    let ghost origv = v@;
    let mut r = v;
    if offset >= r.len() {
        r.clear();
        return r;
    }
    let end: usize = if limit <= r.len() - offset {
        offset + limit
    } else {
        r.len()
    };
    r.truncate(end);
    let mut k: usize = 0;
    while k < offset
        invariant
            offset < origv.len(),
            end <= origv.len(),
            offset <= end,
            k <= offset,
            r@ == origv.subrange(k as int, end as int),
        decreases offset - k,
    {
        r.remove(0);
        proof {
            assert(r@ =~= origv.subrange(k + 1, end as int));
        }
        k += 1;
    }
    proof {
        assert(r@ == paginate_spec(origv, offset as int, limit as int));
    }
    r
}

/// Keep the entries whose data satisfies every filter, in order.
#[verifier::loop_isolation(false)]
pub fn apply_filters(v: Vec<(AccountKey, AccountRecord)>, filters: &Vec<Filter>) -> (r: Vec<
    (AccountKey, AccountRecord),
>)
    ensures
        r@ == v@.filter(
            |e: (AccountKey, AccountRecord)| spec_all_match(filters@, e.1@.data),
        ),
{
    let ghost origv = v@;
    let ghost pred = |e: (AccountKey, AccountRecord)| spec_all_match(filters@, e.1@.data);
    let mut rest = v;
    let mut out: Vec<(AccountKey, AccountRecord)> = Vec::new();
    proof {
        reveal(Seq::filter);
        assert(origv.subrange(0, 0).filter(pred) =~= Seq::<(AccountKey, AccountRecord)>::empty());
    }
    while rest.len() > 0
        invariant
            rest@.len() <= origv.len(),
            rest@ == origv.subrange(
                origv.len() - rest@.len(),
                origv.len() as int,
            ),
            out@ == origv.subrange(0, origv.len() - rest@.len()).filter(pred),
        decreases rest@.len(),
    {
        let ghost k = origv.len() - rest@.len();
        let e = rest.remove(0);
        proof {
            assert(e == origv[k as int]);
            assert(rest@ =~= origv.subrange(k + 1, origv.len() as int));
        }
        if all_match(filters, &e.1.data) {
            out.push(e);
        }
        proof {
            reveal(Seq::filter);
            let upto = origv.subrange(0, k + 1);
            assert(upto.drop_last() =~= origv.subrange(0, k as int));
            assert(upto.last() == e);
            assert(out@ == upto.filter(pred));
        }
    }
    proof {
        assert(origv.subrange(0, origv.len() as int) =~= origv);
    }
    out
}

/// Look one key up.
pub fn lookup_one(
    index: &ShardedIndex,
    required: &Option<Vec<u8>>,
    provided: &Option<Vec<u8>>,
    key: &AccountKey,
) -> (r: Result<Option<AccountRecord>, QueryError>)
    requires
        index.wf(),
    ensures
        r is Err <==> !spec_auth_ok(*required, *provided),
        r matches Err(e) ==> e == QueryError::Unauthorized,
        r matches Ok(o) ==> (match o {
            Some(rec) => index.spec_get(key@) == Some(rec@),
            None => index.spec_get(key@) is None,
        }),
{
    if !check_api_key(required, provided) {
        return Err(QueryError::Unauthorized);
    }
    Ok(index.get(key))
}

/// Look a batch of keys up. The result has exactly the length and order of
/// the request; an absent key yields `None` at its position, never an
/// omission.
pub fn lookup_many(
    index: &ShardedIndex,
    required: &Option<Vec<u8>>,
    provided: &Option<Vec<u8>>,
    keys: &Vec<AccountKey>,
) -> (r: Result<Vec<Option<AccountRecord>>, QueryError>)
    requires
        index.wf(),
    ensures
        r is Err <==> !spec_auth_ok(*required, *provided),
        r matches Err(e) ==> e == QueryError::Unauthorized,
        r matches Ok(v) ==> v@.len() == keys@.len() && forall|i: int|
            0 <= i < v@.len() ==> (match #[trigger] v@[i] {
                Some(rec) => index.spec_get(keys@[i]@) == Some(rec@),
                None => index.spec_get(keys@[i]@) is None,
            }),
{
    if !check_api_key(required, provided) {
        return Err(QueryError::Unauthorized);
    }
    let mut out: Vec<Option<AccountRecord>> = Vec::new();
    let mut i: usize = 0;
    while i < keys.len()
        invariant
            index.wf(),
            i <= keys@.len(),
            out@.len() == i,
            forall|j: int|
                0 <= j < i ==> (match #[trigger] out@[j] {
                    Some(rec) => index.spec_get(keys@[j]@) == Some(rec@),
                    None => index.spec_get(keys@[j]@) is None,
                }),
        decreases keys@.len() - i,
    {
        out.push(index.get(&keys[i]));
        i += 1;
    }
    Ok(out)
}

/// General owner-scoped query: all live records of `program`, filtered
/// conjunctively, then paginated.
pub fn get_program_accounts(
    index: &ShardedIndex,
    required: &Option<Vec<u8>>,
    provided: &Option<Vec<u8>>,
    program: &AccountKey,
    filters: &Vec<Filter>,
    offset: Option<usize>,
    limit: Option<usize>,
) -> (r: Result<Vec<(AccountKey, AccountRecord)>, QueryError>)
    requires
        index.wf(),
    ensures
        r is Err <==> !spec_auth_ok(*required, *provided),
        r matches Err(e) ==> e == QueryError::Unauthorized,
        r matches Ok(v) ==> exists|base: Seq<(AccountKey, AccountRecord)>|
            {
                let filtered = base.filter(
                    |e: (AccountKey, AccountRecord)| spec_all_match(filters@, e.1@.data),
                );
                &&& #[trigger] owner_query_post(*index, program@, base)
                &&& v@ == paginate_spec(
                    filtered,
                    (match offset {
                        Some(o) => o as int,
                        None => 0,
                    }),
                    (match limit {
                        Some(l) => l as int,
                        None => filtered.len() as int,
                    }),
                )
            },
        r matches Ok(v) ==> (limit matches Some(l) ==> v@.len() <= l),
{
    if !check_api_key(required, provided) {
        return Err(QueryError::Unauthorized);
    }
    let base = index.get_program_accounts(program);
    let ghost basev = base@;
    let filtered = apply_filters(base, filters);
    let off: usize = match offset {
        Some(o) => o,
        None => 0,
    };
    let lim: usize = match limit {
        Some(l) => l,
        None => filtered.len(),
    };
    let ghost filteredv = filtered@;
    let v = paginate(filtered, off, lim);
    proof {
        assert(owner_query_post(*index, program@, basev) && v@ == paginate_spec(
            basev.filter(
                |e: (AccountKey, AccountRecord)| spec_all_match(filters@, e.1@.data),
            ),
            off as int,
            (match limit {
                Some(l) => l as int,
                None => filteredv.len() as int,
            }),
        ));
    }
    Ok(v)
}

/// Owner fast path with an optional embedded secondary identifier: the
/// secondary key occupies the data blob's leading bytes.
pub fn get_by_owner_and_secondary(
    index: &ShardedIndex,
    required: &Option<Vec<u8>>,
    provided: &Option<Vec<u8>>,
    owner: &AccountKey,
    secondary: &Option<AccountKey>,
    offset: Option<usize>,
    limit: Option<usize>,
) -> (r: Result<Vec<(AccountKey, AccountRecord)>, QueryError>)
    requires
        index.wf(),
    ensures
        r is Err <==> !spec_auth_ok(*required, *provided),
        r matches Err(e) ==> e == QueryError::Unauthorized,
        r matches Ok(v) ==> exists|base: Seq<(AccountKey, AccountRecord)>|
            {
                let filtered = (match *secondary {
                    Some(m) => base.filter(
                        |e: (AccountKey, AccountRecord)| memcmp_matches(e.1@.data, 0, m@),
                    ),
                    None => base,
                });
                &&& #[trigger] owner_query_post(*index, owner@, base)
                &&& v@ == paginate_spec(
                    filtered,
                    (match offset {
                        Some(o) => o as int,
                        None => 0,
                    }),
                    (match limit {
                        Some(l) => l as int,
                        None => filtered.len() as int,
                    }),
                )
            },
        r matches Ok(v) ==> (limit matches Some(l) ==> v@.len() <= l),
{
    if !check_api_key(required, provided) {
        return Err(QueryError::Unauthorized);
    }
    let base = index.get_program_accounts(owner);
    let ghost basev = base@;
    let filtered = match secondary {
        Some(m) => filter_by_prefix(base, m),
        None => base,
    };
    let off: usize = match offset {
        Some(o) => o,
        None => 0,
    };
    let lim: usize = match limit {
        Some(l) => l,
        None => filtered.len(),
    };
    let ghost filteredv = filtered@;
    let v = paginate(filtered, off, lim);
    Ok(v)
}

/// Keep the entries whose data begins with the secondary key's bytes.
#[verifier::loop_isolation(false)]
fn filter_by_prefix(v: Vec<(AccountKey, AccountRecord)>, m: &AccountKey) -> (r: Vec<
    (AccountKey, AccountRecord),
>)
    ensures
        r@ == v@.filter(|e: (AccountKey, AccountRecord)| memcmp_matches(e.1@.data, 0, m@)),
{
    let ghost origv = v@;
    let ghost pred = |e: (AccountKey, AccountRecord)| memcmp_matches(e.1@.data, 0, m@);
    let expected = key_bytes(m);
    let mut rest = v;
    let mut out: Vec<(AccountKey, AccountRecord)> = Vec::new();
    proof {
        reveal(Seq::filter);
        assert(origv.subrange(0, 0).filter(pred) =~= Seq::<(AccountKey, AccountRecord)>::empty());
    }
    while rest.len() > 0
        invariant
            expected@ == m@,
            rest@.len() <= origv.len(),
            rest@ == origv.subrange(origv.len() - rest@.len(), origv.len() as int),
            out@ == origv.subrange(0, origv.len() - rest@.len()).filter(pred),
        decreases rest@.len(),
    {
        let ghost k = origv.len() - rest@.len();
        let e = rest.remove(0);
        proof {
            assert(e == origv[k as int]);
            assert(rest@ =~= origv.subrange(k + 1, origv.len() as int));
        }
        if crate::filter::byte_range_matches(0, &expected, &e.1.data) {
            out.push(e);
        }
        proof {
            reveal(Seq::filter);
            let upto = origv.subrange(0, k + 1);
            assert(upto.drop_last() =~= origv.subrange(0, k as int));
            assert(upto.last() == e);
            assert(out@ == upto.filter(pred));
        }
    }
    proof {
        assert(origv.subrange(0, origv.len() as int) =~= origv);
    }
    out
}

/// The raw bytes of a key.
pub fn key_bytes(k: &AccountKey) -> (r: Vec<u8>)
    ensures
        r@ == k@,
{
    let mut out: Vec<u8> = Vec::new();
    let mut i: usize = 0;
    while i < KEY_LEN
        invariant
            i <= KEY_LEN,
            out@ == k@.subrange(0, i as int),
        decreases KEY_LEN - i,
    {
        out.push(k.byte_at(i));
        proof {
            assert(out@ =~= k@.subrange(0, i + 1));
        }
        i += 1;
    }
    proof {
        assert(out@ =~= k@);
    }
    out
}

/// Largest accounts carrying `secondary` in their data's leading bytes,
/// under the well-known owner fixed at configuration time.
pub fn top_by_secondary(
    index: &ShardedIndex,
    required: &Option<Vec<u8>>,
    provided: &Option<Vec<u8>>,
    well_known_owner: &AccountKey,
    secondary: &AccountKey,
    limit: Option<usize>,
) -> (r: Result<Vec<(AccountKey, AccountRecord)>, QueryError>)
    requires
        index.wf(),
    ensures
        r is Err <==> !spec_auth_ok(*required, *provided),
        r matches Err(e) ==> e == QueryError::Unauthorized,
        r matches Ok(v) ==> top_query_post(
            *index,
            well_known_owner@,
            0,
            secondary@,
            (match limit {
                Some(l) => l as int,
                None => 10,
            }),
            v@,
        ),
{
    if !check_api_key(required, provided) {
        return Err(QueryError::Unauthorized);
    }
    let lim: usize = match limit {
        Some(l) => l,
        None => 10,
    };
    let expected = key_bytes(secondary);
    Ok(index.top_by_predicate(well_known_owner, 0, &expected, lim))
}

/// The cache is healthy when it holds at least one record.
pub fn health(index: &ShardedIndex) -> (r: bool)
    ensures
        r == (index.spec_len() > 0),
{
    index.len() > 0
}

/// The injected metrics sink: outcome-tagged request counters and the
/// current-size gauge. Latency observation lives with the host clock, at
/// the boundary.
pub struct QueryMetrics {
    /// Requests answered.
    pub served: u64,
    /// Requests refused for a bad or missing secret.
    pub unauthorized: u64,
    /// Last observed record count.
    pub cache_size: u64,
}

impl QueryMetrics {
    /// A sink with all counters at zero.
    pub fn new() -> (r: QueryMetrics)
        ensures
            r.served == 0,
            r.unauthorized == 0,
            r.cache_size == 0,
    {
        QueryMetrics { served: 0, unauthorized: 0, cache_size: 0 }
    }

    /// Count one request outcome and refresh the size gauge.
    pub fn note(&mut self, ok: bool, cache_size: usize)
        ensures
            ok ==> final(self).served as int == (if old(self).served < u64::MAX {
                old(self).served as int + 1
            } else {
                u64::MAX as int
            }) && final(self).unauthorized == old(self).unauthorized,
            !ok ==> final(self).unauthorized as int == (if old(self).unauthorized < u64::MAX {
                old(self).unauthorized as int + 1
            } else {
                u64::MAX as int
            }) && final(self).served == old(self).served,
            final(self).cache_size == cache_size as u64,
    {
        if ok {
            if self.served < u64::MAX {
                self.served = self.served + 1;
            }
        } else {
            if self.unauthorized < u64::MAX {
                self.unauthorized = self.unauthorized + 1;
            }
        }
        self.cache_size = cache_size as u64;
    }
}

} // verus!
