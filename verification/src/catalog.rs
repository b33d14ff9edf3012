//! The document catalog: one live document per `url` key, with freshness
//! timestamps, keyed upsert and removal, and an exact-term freshness lookup.
//!
//! The catalog is modelled as a sequence of document records whose `url`
//! values are pairwise distinct; an upsert deletes every record with the
//! given key and appends the new one at the end.

use vstd::prelude::*;

verus! {

/// An error of a catalog operation.
#[derive(Debug, Clone, Copy, PartialEq, Eq, Structural)]
pub enum CatalogError {
    /// The query text holds no usable search term.
    QueryParse,
}

/// What `CatalogError::message` returns for each variant.
pub open spec fn spec_message(e: CatalogError) -> Seq<char> {
    match e {
        CatalogError::QueryParse => "query parse error"@,
    }
}

impl CatalogError {
    /// A human-readable description of the error.
    pub fn message(&self) -> (r: String)
        ensures
            r@ == spec_message(*self),
    {
        match self {
            CatalogError::QueryParse => String::from_str("query parse error"),
        }
    }
}

/// The mathematical model of one stored document.
pub ghost struct DocV {
    pub url: Seq<char>,
    pub title: Seq<char>,
    pub body: Seq<char>,
    /// Epoch seconds of the visit that stored this record.
    pub visited: i64,
    /// Caller-supplied last-modification time, epoch seconds.
    pub last_modified: i64,
}

/// One stored document: the fixed schema of the catalog.
#[derive(Debug)]
pub struct Document {
    pub url: String,
    pub title: String,
    pub body: String,
    pub visited: i64,
    pub last_modified: i64,
}

impl View for Document {
    type V = DocV;

    open spec fn view(&self) -> DocV {
        DocV {
            url: self.url@,
            title: self.title@,
            body: self.body@,
            visited: self.visited,
            last_modified: self.last_modified,
        }
    }
}

impl DeepView for Document {
    type V = DocV;

    open spec fn deep_view(&self) -> DocV {
        self.view()
    }
}

/// A matched document as returned by a search: a read-only projection
/// without the body text.
#[derive(Debug)]
pub struct DocumentHit {
    pub url: String,
    pub title: String,
    pub visited: i64,
    pub last_modified: i64,
}

/// The model of a search hit.
pub ghost struct HitV {
    pub url: Seq<char>,
    pub title: Seq<char>,
    pub visited: i64,
    pub last_modified: i64,
}

impl View for DocumentHit {
    type V = HitV;

    open spec fn view(&self) -> HitV {
        HitV {
            url: self.url@,
            title: self.title@,
            visited: self.visited,
            last_modified: self.last_modified,
        }
    }
}

impl DeepView for DocumentHit {
    type V = HitV;

    open spec fn deep_view(&self) -> HitV {
        self.view()
    }
}

/// No two records share a `url`.
pub open spec fn distinct_urls(s: Seq<DocV>) -> bool {
    forall|i: int, j: int|
        0 <= i < s.len() && 0 <= j < s.len() && i != j ==> s[i].url != s[j].url
}

/// The catalog without any record keyed by `url`; order of the rest is kept.
pub open spec fn sans_url(s: Seq<DocV>, url: Seq<char>) -> Seq<DocV>
    decreases s.len(),
{
    if s.len() == 0 {
        s
    } else if s[0].url == url {
        sans_url(s.drop_first(), url)
    } else {
        seq![s[0]] + sans_url(s.drop_first(), url)
    }
}

/// The catalog after an upsert: the old record for `url` (if any) is gone
/// and the new record stands at the end.
pub open spec fn spec_upsert(
    s: Seq<DocV>,
    url: Seq<char>,
    title: Seq<char>,
    body: Seq<char>,
    visited: i64,
    last_modified: i64,
) -> Seq<DocV> {
    sans_url(s, url).push(DocV { url, title, body, visited, last_modified })
}

/// The first record keyed by `url`, if any. Under `distinct_urls` it is the
/// only one.
pub open spec fn spec_find(s: Seq<DocV>, url: Seq<char>) -> Option<DocV>
    decreases s.len(),
{
    if s.len() == 0 {
        None
    } else if s[0].url == url {
        Some(s[0])
    } else {
        spec_find(s.drop_first(), url)
    }
}

/// The freshness answer for `url`: the stored timestamps, or the zero-epoch
/// sentinel when no record exists.
pub open spec fn spec_freshness(s: Seq<DocV>, url: Seq<char>) -> (i64, i64) {
    match spec_find(s, url) {
        Some(d) => (d.visited, d.last_modified),
        None => (0i64, 0i64),
    }
}

pub proof fn lemma_sans_no_url(s: Seq<DocV>, url: Seq<char>)
    ensures
        forall|k: int| 0 <= k < sans_url(s, url).len() ==> sans_url(s, url)[k].url != url,
    decreases s.len(),
{
    if s.len() > 0 {
        lemma_sans_no_url(s.drop_first(), url);
        assert forall|k: int| 0 <= k < sans_url(s, url).len() implies sans_url(s, url)[k].url
            != url by {
            let t = sans_url(s.drop_first(), url);
            if s[0].url == url {
                assert(sans_url(s, url)[k] == t[k]);
                assert(t[k].url != url);
            } else if k == 0 {
                assert(sans_url(s, url)[0] == s[0]);
            } else {
                assert(sans_url(s, url)[k] == t[k - 1]);
                assert(t[k - 1].url != url);
            }
        }
    }
}

pub proof fn lemma_sans_sub(s: Seq<DocV>, url: Seq<char>)
    ensures
        forall|x: DocV| #[trigger] sans_url(s, url).contains(x) ==> s.contains(x),
    decreases s.len(),
{
    if s.len() > 0 {
        lemma_sans_sub(s.drop_first(), url);
        assert forall|x: DocV| #[trigger] sans_url(s, url).contains(x) implies s.contains(x) by {
            if s[0].url != url {
                let t = sans_url(s, url);
                let k = choose|k: int| 0 <= k < t.len() && t[k] == x;
                if k == 0 {
                    assert(s[0] == x);
                } else {
                    assert(sans_url(s.drop_first(), url).contains(x));
                    let m = choose|m: int|
                        0 <= m < s.drop_first().len() && s.drop_first()[m] == x;
                    assert(s[m + 1] == x);
                }
            } else {
                assert(sans_url(s.drop_first(), url).contains(x));
                assert(s.drop_first().contains(x));
                let m = choose|m: int|
                    0 <= m < s.drop_first().len() && s.drop_first()[m] == x;
                assert(s[m + 1] == x);
            }
        }
    }
}

pub proof fn lemma_sans_distinct(s: Seq<DocV>, url: Seq<char>)
    requires
        distinct_urls(s),
    ensures
        distinct_urls(sans_url(s, url)),
    decreases s.len(),
{
    if s.len() > 0 {
        assert(distinct_urls(s.drop_first())) by {
            assert forall|i: int, j: int|
                0 <= i < s.drop_first().len() && 0 <= j < s.drop_first().len() && i != j implies s.drop_first()[i].url
                != s.drop_first()[j].url by {
                assert(s[i + 1].url != s[j + 1].url);
            }
        }
        lemma_sans_distinct(s.drop_first(), url);
        if s[0].url != url {
            let t = sans_url(s.drop_first(), url);
            lemma_sans_sub(s.drop_first(), url);
            assert forall|i: int, j: int|
                0 <= i < sans_url(s, url).len() && 0 <= j < sans_url(s, url).len() && i != j implies sans_url(
                s,
                url,
            )[i].url != sans_url(s, url)[j].url by {
                if i == 0 || j == 0 {
                    let k = if i == 0 { j } else { i };
                    assert(sans_url(s, url)[k] == t[k - 1]);
                    assert(t.contains(t[k - 1]));
                    assert(s.drop_first().contains(t[k - 1]));
                    let m = choose|m: int|
                        0 <= m < s.drop_first().len() && s.drop_first()[m] == t[k - 1];
                    assert(s[m + 1] == t[k - 1]);
                    assert(s[0].url != s[m + 1].url);
                } else {
                    assert(sans_url(s, url)[i] == t[i - 1]);
                    assert(sans_url(s, url)[j] == t[j - 1]);
                }
            }
        }
    }
}

pub proof fn lemma_find_absent(s: Seq<DocV>, url: Seq<char>)
    requires
        forall|k: int| 0 <= k < s.len() ==> s[k].url != url,
    ensures
        spec_find(s, url) is None,
    decreases s.len(),
{
    if s.len() > 0 {
        assert forall|k: int| 0 <= k < s.drop_first().len() implies s.drop_first()[k].url
            != url by {
            assert(s[k + 1].url != url);
        }
        lemma_find_absent(s.drop_first(), url);
    }
}

pub proof fn lemma_find_push(s: Seq<DocV>, d: DocV, url: Seq<char>)
    ensures
        spec_find(s.push(d), url) == if spec_find(s, url) is Some {
            spec_find(s, url)
        } else if d.url == url {
            Some(d)
        } else {
            None
        },
    decreases s.len(),
{
    if s.len() == 0 {
        assert(s.push(d)[0] == d);
        assert(s.push(d).drop_first() =~= Seq::<DocV>::empty());
    } else {
        assert(s.push(d)[0] == s[0]);
        assert(s.push(d).drop_first() =~= s.drop_first().push(d));
        lemma_find_push(s.drop_first(), d, url);
    }
}

pub proof fn lemma_find_sans_other(s: Seq<DocV>, cut: Seq<char>, url: Seq<char>)
    requires
        cut != url,
    ensures
        spec_find(sans_url(s, cut), url) == spec_find(s, url),
    decreases s.len(),
{
    if s.len() > 0 {
        lemma_find_sans_other(s.drop_first(), cut, url);
        if s[0].url != cut {
            let t = seq![s[0]] + sans_url(s.drop_first(), cut);
            assert(t[0] == s[0]);
            assert(t.drop_first() =~= sans_url(s.drop_first(), cut));
        }
    }
}

pub proof fn lemma_find_contains(s: Seq<DocV>, i: int)
    requires
        distinct_urls(s),
        0 <= i < s.len(),
    ensures
        spec_find(s, s[i].url) == Some(s[i]),
    decreases s.len(),
{
    if i == 0 {
    } else {
        assert(s[0].url != s[i].url);
        assert(distinct_urls(s.drop_first())) by {
            assert forall|p: int, q: int|
                0 <= p < s.drop_first().len() && 0 <= q < s.drop_first().len() && p != q implies s.drop_first()[p].url
                != s.drop_first()[q].url by {
                assert(s[p + 1].url != s[q + 1].url);
            }
        }
        assert(s.drop_first()[i - 1] == s[i]);
        lemma_find_contains(s.drop_first(), i - 1);
    }
}

/// The catalog handle: the set of live documents.
#[derive(Debug)]
pub struct Catalog {
    pub docs: Vec<Document>,
}

impl View for Catalog {
    type V = Seq<DocV>;

    open spec fn view(&self) -> Seq<DocV> {
        self.docs.deep_view()
    }
}

/// Relies on chrono::Utc::now for the wall-clock time of a visit, read as
/// epoch seconds; nothing is promised of the value.
#[verifier::external_body]
fn now_epoch_seconds() -> i64 {
    chrono::Utc::now().timestamp()
}

impl Catalog {
    /// The catalog's invariant: at most one live document per `url`.
    pub open spec fn wf(&self) -> bool {
        distinct_urls(self@)
    }

    /// A fresh, empty catalog.
    pub fn new() -> (r: Catalog)
        ensures
            r@ == Seq::<DocV>::empty(),
            r.wf(),
    {
        let r = Catalog { docs: Vec::new() };
        proof {
            assert(r@ =~= Seq::<DocV>::empty());
        }
        r
    }

    /// Delete every record keyed by `url`; the order of the rest is kept.
    fn delete_url(&mut self, url: &str)
        ensures
            final(self)@ == sans_url(old(self)@, url@),
    {
        let key: String = url.to_owned();
        let mut out: Vec<Document> = Vec::new();
        let mut i: usize = 0;
        proof {
            assert(out.deep_view() =~= Seq::<DocV>::empty());
            assert(self@.subrange(0, self@.len() as int) =~= self@);
            assert(Seq::<DocV>::empty() + sans_url(self@, url@) =~= sans_url(self@, url@));
        }
        while i < self.docs.len()
            invariant
                *self == *old(self),
                key@ == url@,
                i <= self.docs@.len(),
                sans_url(self@, url@) == out.deep_view() + sans_url(
                    self@.subrange(i as int, self@.len() as int),
                    url@,
                ),
            decreases self.docs@.len() - i,
        {
            let ghost suf = self@.subrange(i as int, self@.len() as int);
            proof {
                assert(suf[0] == self@[i as int]);
                assert(self@[i as int] == self.docs@[i as int]@);
                assert(suf.drop_first() =~= self@.subrange(i + 1, self@.len() as int));
            }
            let d = &self.docs[i];
            if !(d.url == key) {
                let ghost prev_out = out.deep_view();
                out.push(
                    Document {
                        url: d.url.clone(),
                        title: d.title.clone(),
                        body: d.body.clone(),
                        visited: d.visited,
                        last_modified: d.last_modified,
                    },
                );
                proof {
                    assert(out.deep_view() =~= prev_out.push(self@[i as int]));
                    assert(sans_url(suf, url@) == seq![suf[0]] + sans_url(suf.drop_first(), url@));
                    assert(prev_out + (seq![suf[0]] + sans_url(suf.drop_first(), url@))
                        =~= out.deep_view() + sans_url(suf.drop_first(), url@));
                }
            } else {
                proof {
                    assert(sans_url(suf, url@) == sans_url(suf.drop_first(), url@));
                }
            }
            i += 1;
        }
        proof {
            let suf = self@.subrange(i as int, self@.len() as int);
            assert(suf =~= Seq::<DocV>::empty());
            assert(out.deep_view() + sans_url(suf, url@) =~= out.deep_view());
        }
        self.docs = out;
    }

    /// Store a document for `url` with an explicit `visited` timestamp,
    /// replacing whatever record held that key before.
    pub fn add_at(&mut self, url: &str, title: &str, contents: &str, visited: i64, modified: i64)
        ensures
            final(self)@ == spec_upsert(old(self)@, url@, title@, contents@, visited, modified),
            old(self).wf() ==> final(self).wf(),
    {
        self.delete_url(url);
        let ghost cut = self@;
        self.docs.push(
            Document {
                url: url.to_owned(),
                title: title.to_owned(),
                body: contents.to_owned(),
                visited,
                last_modified: modified,
            },
        );
        proof {
            let d = DocV {
                url: url@,
                title: title@,
                body: contents@,
                visited,
                last_modified: modified,
            };
            assert(self@ =~= cut.push(d));
            if old(self).wf() {
                lemma_sans_distinct(old(self)@, url@);
                lemma_sans_no_url(old(self)@, url@);
                assert(distinct_urls(cut.push(d))) by {
                    assert forall|i: int, j: int|
                        0 <= i < cut.push(d).len() && 0 <= j < cut.push(d).len() && i != j implies cut.push(
                        d,
                    )[i].url != cut.push(d)[j].url by {
                        if i < cut.len() && j < cut.len() {
                            assert(cut[i].url != cut[j].url);
                        }
                    }
                }
            }
        }
    }

    /// Store a document for `url`, stamping it with the current wall-clock
    /// time as its `visited` timestamp. Always succeeds.
    pub fn add(&mut self, url: &str, title: &str, contents: &str, modified: i64) -> (r: Result<
        (),
        CatalogError,
    >)
        ensures
            r is Ok,
            exists|v: i64|
                final(self)@ == spec_upsert(old(self)@, url@, title@, contents@, v, modified),
            old(self).wf() ==> final(self).wf(),
    {
        let v = now_epoch_seconds();
        self.add_at(url, title, contents, v, modified);
        proof {
            assert(self@ == spec_upsert(old(self)@, url@, title@, contents@, v, modified));
        }
        Ok(())
    }

    /// Delete the record keyed by `url`; succeeds as a no-op when there is
    /// none.
    pub fn remove(&mut self, url: &str) -> (r: Result<(), CatalogError>)
        ensures
            r is Ok,
            final(self)@ == sans_url(old(self)@, url@),
            old(self).wf() ==> final(self).wf(),
    {
        self.delete_url(url);
        proof {
            if old(self).wf() {
                lemma_sans_distinct(old(self)@, url@);
            }
        }
        Ok(())
    }

    /// The `(visited, last_modified)` timestamps of the live document for
    /// `url`, or the zero-epoch sentinel `(0, 0)` when none exists. The key
    /// is matched exactly, never by tokenized or partial matching.
    pub fn get_last_modified(&self, url: &str) -> (r: (i64, i64))
        ensures
            r == spec_freshness(self@, url@),
    {
        let key: String = url.to_owned();
        let mut i: usize = 0;
        proof {
            assert(self@.subrange(0, self@.len() as int) =~= self@);
        }
        while i < self.docs.len()
            invariant
                key@ == url@,
                i <= self.docs@.len(),
                spec_find(self@, url@) == spec_find(
                    self@.subrange(i as int, self@.len() as int),
                    url@,
                ),
            decreases self.docs@.len() - i,
        {
            let ghost suf = self@.subrange(i as int, self@.len() as int);
            proof {
                assert(suf[0] == self@[i as int]);
                assert(self@[i as int] == self.docs@[i as int]@);
                assert(suf.drop_first() =~= self@.subrange(i + 1, self@.len() as int));
            }
            let d = &self.docs[i];
            if d.url == key {
                return (d.visited, d.last_modified);
            }
            i += 1;
        }
        proof {
            assert(self@.subrange(i as int, self@.len() as int) =~= Seq::<DocV>::empty());
        }
        (0, 0)
    }
}

} // verus!
