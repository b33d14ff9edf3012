//! General laws of the catalog, stated over its mathematical model and
//! proved once and for all: what repeated upserts leave behind, that keys
//! are isolated exactly, what removal does to lookups and to match counts,
//! and that a freshly stored matching document comes back from a search.

use vstd::prelude::*;

use crate::catalog::{
    distinct_urls, lemma_find_absent, lemma_find_contains, lemma_find_push, lemma_find_sans_other,
    lemma_sans_distinct, lemma_sans_no_url, sans_url, spec_find, spec_freshness, spec_upsert, DocV,
    HitV,
};
use crate::search::{doc_matches, matched, search_hits_ok};

verus! {

/// The record an upsert of these values stores.
pub open spec fn make_doc(
    url: Seq<char>,
    title: Seq<char>,
    body: Seq<char>,
    visited: i64,
    last_modified: i64,
) -> DocV {
    DocV { url, title, body, visited, last_modified }
}

/// How many records of the catalog are keyed by `url`.
pub open spec fn count_url(s: Seq<DocV>, url: Seq<char>) -> int
    decreases s.len(),
{
    if s.len() == 0 {
        0
    } else {
        (if s[0].url == url {
            1int
        } else {
            0int
        }) + count_url(s.drop_first(), url)
    }
}

proof fn lemma_sans_push(s: Seq<DocV>, d: DocV, url: Seq<char>)
    ensures
        sans_url(s.push(d), url) == if d.url == url {
            sans_url(s, url)
        } else {
            sans_url(s, url).push(d)
        },
    decreases s.len(),
{
    if s.len() == 0 {
        assert(s.push(d)[0] == d);
        assert(s.push(d).drop_first() =~= s);
        if d.url == url {
            assert(sans_url(s.push(d), url) == sans_url(s.push(d).drop_first(), url));
        } else {
            assert(sans_url(s.push(d), url) == seq![s.push(d)[0]] + sans_url(
                s.push(d).drop_first(),
                url,
            ));
            assert(seq![d] + sans_url(s, url) =~= sans_url(s, url).push(d));
        }
    } else {
        assert(s.push(d)[0] == s[0]);
        assert(s.push(d).drop_first() =~= s.drop_first().push(d));
        lemma_sans_push(s.drop_first(), d, url);
        if s[0].url == url {
            assert(sans_url(s.push(d), url) == sans_url(s.push(d).drop_first(), url));
        } else {
            assert(sans_url(s.push(d), url) == seq![s[0]] + sans_url(
                s.push(d).drop_first(),
                url,
            ));
            if d.url != url {
                assert(seq![s[0]] + sans_url(s.drop_first(), url).push(d) =~= (seq![s[0]]
                    + sans_url(s.drop_first(), url)).push(d));
            }
        }
    }
}

proof fn lemma_sans_absent(s: Seq<DocV>, url: Seq<char>)
    requires
        forall|k: int| 0 <= k < s.len() ==> s[k].url != url,
    ensures
        sans_url(s, url) == s,
    decreases s.len(),
{
    if s.len() > 0 {
        assert forall|k: int| 0 <= k < s.drop_first().len() implies s.drop_first()[k].url
            != url by {
            assert(s[k + 1].url != url);
        }
        lemma_sans_absent(s.drop_first(), url);
        assert(seq![s[0]] + s.drop_first() =~= s);
    }
}

proof fn lemma_sans_idem(s: Seq<DocV>, url: Seq<char>)
    ensures
        sans_url(sans_url(s, url), url) == sans_url(s, url),
{
    lemma_sans_no_url(s, url);
    lemma_sans_absent(sans_url(s, url), url);
}

proof fn lemma_count_push(s: Seq<DocV>, d: DocV, url: Seq<char>)
    ensures
        count_url(s.push(d), url) == count_url(s, url) + (if d.url == url {
            1int
        } else {
            0int
        }),
    decreases s.len(),
{
    if s.len() == 0 {
        assert(s.push(d)[0] == d);
        assert(s.push(d).drop_first() =~= s);
        assert(count_url(s.push(d), url) == (if d.url == url {
            1int
        } else {
            0int
        }) + count_url(s.push(d).drop_first(), url));
    } else {
        assert(s.push(d)[0] == s[0]);
        assert(s.push(d).drop_first() =~= s.drop_first().push(d));
        lemma_count_push(s.drop_first(), d, url);
        assert(count_url(s.push(d), url) == (if s[0].url == url {
            1int
        } else {
            0int
        }) + count_url(s.push(d).drop_first(), url));
    }
}

proof fn lemma_count_absent(s: Seq<DocV>, url: Seq<char>)
    requires
        forall|k: int| 0 <= k < s.len() ==> s[k].url != url,
    ensures
        count_url(s, url) == 0,
    decreases s.len(),
{
    if s.len() > 0 {
        assert forall|k: int| 0 <= k < s.drop_first().len() implies s.drop_first()[k].url
            != url by {
            assert(s[k + 1].url != url);
        }
        lemma_count_absent(s.drop_first(), url);
    }
}

/// Upsert idempotence by key: storing twice under one `url` leaves the
/// catalog exactly as if only the second store had happened.
pub proof fn lemma_upsert_twice(
    s: Seq<DocV>,
    url: Seq<char>,
    t1: Seq<char>,
    b1: Seq<char>,
    v1: i64,
    m1: i64,
    t2: Seq<char>,
    b2: Seq<char>,
    v2: i64,
    m2: i64,
)
    ensures
        spec_upsert(spec_upsert(s, url, t1, b1, v1, m1), url, t2, b2, v2, m2) == spec_upsert(
            s,
            url,
            t2,
            b2,
            v2,
            m2,
        ),
{
    let d1 = make_doc(url, t1, b1, v1, m1);
    lemma_sans_push(sans_url(s, url), d1, url);
    lemma_sans_idem(s, url);
}

/// After an upsert there is exactly one live record for the key, and it
/// holds the stored fields.
pub proof fn lemma_upsert_single(
    s: Seq<DocV>,
    url: Seq<char>,
    title: Seq<char>,
    body: Seq<char>,
    visited: i64,
    last_modified: i64,
)
    ensures
        count_url(spec_upsert(s, url, title, body, visited, last_modified), url) == 1,
        spec_find(spec_upsert(s, url, title, body, visited, last_modified), url) == Some(
            make_doc(url, title, body, visited, last_modified),
        ),
        spec_freshness(spec_upsert(s, url, title, body, visited, last_modified), url) == (
            visited,
            last_modified,
        ),
{
    let d = make_doc(url, title, body, visited, last_modified);
    lemma_sans_no_url(s, url);
    lemma_count_absent(sans_url(s, url), url);
    lemma_count_push(sans_url(s, url), d, url);
    lemma_find_absent(sans_url(s, url), url);
    lemma_find_push(sans_url(s, url), d, url);
}

/// Exact-key isolation: an upsert under one key never changes what a
/// freshness lookup under any other key returns, however similar the keys.
pub proof fn lemma_upsert_other_key(
    s: Seq<DocV>,
    url: Seq<char>,
    title: Seq<char>,
    body: Seq<char>,
    visited: i64,
    last_modified: i64,
    other: Seq<char>,
)
    requires
        other != url,
    ensures
        spec_find(spec_upsert(s, url, title, body, visited, last_modified), other) == spec_find(
            s,
            other,
        ),
        spec_freshness(spec_upsert(s, url, title, body, visited, last_modified), other)
            == spec_freshness(s, other),
{
    let d = make_doc(url, title, body, visited, last_modified);
    lemma_find_sans_other(s, url, other);
    lemma_find_push(sans_url(s, url), d, other);
}

/// Freshness sentinel: a key that no record holds answers with the
/// zero-epoch pair.
pub proof fn lemma_freshness_sentinel(s: Seq<DocV>, url: Seq<char>)
    requires
        forall|k: int| 0 <= k < s.len() ==> s[k].url != url,
    ensures
        spec_freshness(s, url) == (0i64, 0i64),
{
    lemma_find_absent(s, url);
}

/// After a removal the key is gone: lookups answer the sentinel.
pub proof fn lemma_remove_unfindable(s: Seq<DocV>, url: Seq<char>)
    ensures
        spec_find(sans_url(s, url), url) is None,
        spec_freshness(sans_url(s, url), url) == (0i64, 0i64),
{
    lemma_sans_no_url(s, url);
    lemma_find_absent(sans_url(s, url), url);
}

/// Remove then search: removal takes exactly the removed document out of
/// every match list — the total drops by one for queries it matched, and
/// stays put for all others.
pub proof fn lemma_remove_matches(s: Seq<DocV>, url: Seq<char>, terms: Seq<Seq<char>>)
    requires
        distinct_urls(s),
    ensures
        matched(sans_url(s, url), terms).len() == matched(s, terms).len() - (match spec_find(
            s,
            url,
        ) {
            Some(d) => if doc_matches(d, terms) {
                1int
            } else {
                0int
            },
            None => 0int,
        }),
    decreases s.len(),
{
    if s.len() > 0 {
        let rest = s.drop_first();
        assert(distinct_urls(rest)) by {
            assert forall|i: int, j: int|
                0 <= i < rest.len() && 0 <= j < rest.len() && i != j implies rest[i].url
                != rest[j].url by {
                assert(s[i + 1].url != s[j + 1].url);
            }
        }
        if s[0].url == url {
            assert forall|k: int| 0 <= k < rest.len() implies rest[k].url != url by {
                assert(s[k + 1].url != s[0].url);
            }
            lemma_sans_absent(rest, url);
            if doc_matches(s[0], terms) {
                assert(matched(s, terms) == seq![s[0]] + matched(rest, terms));
            }
        } else {
            lemma_remove_matches(rest, url, terms);
            let t = sans_url(rest, url);
            assert(sans_url(s, url) == seq![s[0]] + t);
            assert((seq![s[0]] + t)[0] == s[0]);
            assert((seq![s[0]] + t).drop_first() =~= t);
            if doc_matches(s[0], terms) {
                assert(matched(seq![s[0]] + t, terms) == seq![s[0]] + matched(t, terms));
                assert(matched(s, terms) == seq![s[0]] + matched(rest, terms));
            }
        }
    }
}

/// Round trip: a document stored under `url` whose text matches the query
/// comes back from a search whose page size covers the whole match list,
/// with its stored title and timestamps.
pub proof fn lemma_round_trip(
    s: Seq<DocV>,
    url: Seq<char>,
    title: Seq<char>,
    body: Seq<char>,
    visited: i64,
    last_modified: i64,
    terms: Seq<Seq<char>>,
    hv: Seq<HitV>,
    k: int,
)
    requires
        distinct_urls(s),
        doc_matches(make_doc(url, title, body, visited, last_modified), terms),
        matched(spec_upsert(s, url, title, body, visited, last_modified), terms).len() <= k,
        search_hits_ok(
            spec_upsert(s, url, title, body, visited, last_modified),
            hv,
            terms,
            k,
            matched(spec_upsert(s, url, title, body, visited, last_modified), terms).len() as int,
        ),
    ensures
        exists|h: int|
            0 <= h < hv.len() && hv[h].url == url && hv[h].title == title && hv[h].visited
                == visited && hv[h].last_modified == last_modified,
{
    let s2 = spec_upsert(s, url, title, body, visited, last_modified);
    let d = make_doc(url, title, body, visited, last_modified);
    let j = s2.len() - 1;
    assert(s2[j] == d);
    assert(distinct_urls(s2)) by {
        lemma_sans_distinct(s, url);
        lemma_sans_no_url(s, url);
        let cut = sans_url(s, url);
        assert forall|p: int, q: int|
            0 <= p < s2.len() && 0 <= q < s2.len() && p != q implies s2[p].url != s2[q].url by {
            if p < cut.len() && q < cut.len() {
                assert(cut[p].url != cut[q].url);
            }
        }
    }
    assert(doc_matches(s2[j], terms));
    if !crate::search::in_hits(hv, s2[j].url) {
        assert(false);
    }
    let h = choose|h: int| 0 <= h < hv.len() && hv[h].url == url;
    assert(hit_found_is_new(s2, hv, terms, h, d)) by {
        lemma_find_contains(s2, j);
        assert(crate::search::hit_corresponds(s2, hv[h], terms));
    }
}

/// The hit at `h` carries exactly the fields of record `d` when `d` is the
/// live record for the hit's key.
spec fn hit_found_is_new(s2: Seq<DocV>, hv: Seq<HitV>, terms: Seq<Seq<char>>, h: int, d: DocV) -> bool {
    0 <= h < hv.len() && hv[h].url == d.url && hv[h].title == d.title && hv[h].visited == d.visited
        && hv[h].last_modified == d.last_modified
}

} // verus!
