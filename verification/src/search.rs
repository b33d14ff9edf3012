//! Conjunctive ranked search over the catalog.
//!
//! A query is tokenized like document text; a document matches when every
//! query term occurs among the tokens of its `title` or its `body`. Matches
//! are ranked by a relevance score — the number of token occurrences in the
//! document that are query terms — and the top `hits_per_page` of them are
//! returned together with the total match count. The `page` argument is
//! accepted and deliberately ignored: the result is always the first page,
//! and `lang` does not alter tokenization.

use vstd::prelude::*;

use crate::catalog::{spec_find, Catalog, CatalogError, DocV, DocumentHit, HitV};
use crate::tokenize::{contains_token, spec_tokens, tokenize};

verus! {

/// All tokens of a document that full-text search looks at: the `title`
/// tokens followed by the `body` tokens.
pub open spec fn doc_toks(d: DocV) -> Seq<Seq<char>> {
    spec_tokens(d.title) + spec_tokens(d.body)
}

/// Conjunctive matching: every query term occurs in the document's tokens.
pub open spec fn doc_matches(d: DocV, terms: Seq<Seq<char>>) -> bool {
    forall|k: int| 0 <= k < terms.len() ==> doc_toks(d).contains(#[trigger] terms[k])
}

/// How many of the tokens in `toks` are query terms, occurrences counted.
pub open spec fn spec_count_hits(toks: Seq<Seq<char>>, terms: Seq<Seq<char>>) -> int
    decreases toks.len(),
{
    if toks.len() == 0 {
        0
    } else {
        (if terms.contains(toks[0]) {
            1int
        } else {
            0int
        }) + spec_count_hits(toks.drop_first(), terms)
    }
}

/// The relevance score of a document for a term list.
pub open spec fn doc_score(d: DocV, terms: Seq<Seq<char>>) -> int {
    spec_count_hits(doc_toks(d), terms)
}

/// The matching documents of the catalog, in catalog order.
pub open spec fn matched(s: Seq<DocV>, terms: Seq<Seq<char>>) -> Seq<DocV>
    decreases s.len(),
{
    if s.len() == 0 {
        s
    } else if doc_matches(s[0], terms) {
        seq![s[0]] + matched(s.drop_first(), terms)
    } else {
        matched(s.drop_first(), terms)
    }
}

/// The score of the document a returned hit stands for, looked up by its key.
pub open spec fn hit_score(s: Seq<DocV>, url: Seq<char>, terms: Seq<Seq<char>>) -> int {
    match spec_find(s, url) {
        Some(d) => doc_score(d, terms),
        None => 0,
    }
}

/// A hit faithfully projects the live document for its `url`, and that
/// document matches the query.
pub open spec fn hit_corresponds(s: Seq<DocV>, h: HitV, terms: Seq<Seq<char>>) -> bool {
    match spec_find(s, h.url) {
        Some(d) => d.title == h.title && d.visited == h.visited && d.last_modified
            == h.last_modified && doc_matches(d, terms),
        None => false,
    }
}

/// Whether some hit in the list is keyed by `url`.
pub open spec fn in_hits(hv: Seq<HitV>, url: Seq<char>) -> bool {
    exists|h: int| 0 <= h < hv.len() && hv[h].url == url
}

/// What a correct hit list looks like for catalog `s`, terms `terms`, page
/// size `k` and total match count `total`: as many hits as fit under the
/// cap, each projecting a live matching document, keys pairwise distinct,
/// scores descending, and nothing left out unless the cap was hit and the
/// leftover scores no higher than the last returned hit.
pub open spec fn search_hits_ok(
    s: Seq<DocV>,
    hv: Seq<HitV>,
    terms: Seq<Seq<char>>,
    k: int,
    total: int,
) -> bool {
    &&& hv.len() == if total <= k {
        total
    } else {
        k
    }
    &&& forall|h: int| 0 <= h < hv.len() ==> hit_corresponds(s, #[trigger] hv[h], terms)
    &&& forall|g: int, h: int|
        0 <= g < hv.len() && 0 <= h < hv.len() && g != h ==> hv[g].url != hv[h].url
    &&& forall|g: int, h: int|
        0 <= g < h < hv.len() ==> hit_score(s, hv[g].url, terms) >= hit_score(s, hv[h].url, terms)
    &&& forall|j: int|
        0 <= j < s.len() && doc_matches(#[trigger] s[j], terms) && !in_hits(hv, s[j].url) ==> total
            > k && (hv.len() > 0 ==> doc_score(s[j], terms) <= hit_score(
            s,
            hv[hv.len() - 1].url,
            terms,
        ))
}

proof fn lemma_count_hits_bounds(toks: Seq<Seq<char>>, terms: Seq<Seq<char>>)
    ensures
        0 <= spec_count_hits(toks, terms) <= toks.len(),
    decreases toks.len(),
{
    if toks.len() > 0 {
        lemma_count_hits_bounds(toks.drop_first(), terms);
    }
}

/// Whether every term occurs among `toks`.
fn contains_all(toks: &Vec<Vec<char>>, terms: &Vec<Vec<char>>) -> (r: bool)
    ensures
        r == forall|k: int|
            0 <= k < terms.deep_view().len() ==> toks.deep_view().contains(
                #[trigger] terms.deep_view()[k],
            ),
{
    let mut k: usize = 0;
    while k < terms.len()
        invariant
            k <= terms@.len(),
            forall|j: int|
                0 <= j < k ==> toks.deep_view().contains(#[trigger] terms.deep_view()[j]),
        decreases terms@.len() - k,
    {
        proof {
            assert(terms.deep_view()[k as int] == terms@[k as int]@);
        }
        if !contains_token(toks, &terms[k]) {
            return false;
        }
        k += 1;
    }
    true
}

/// Count the tokens in `toks` that are query terms.
fn count_hits(toks: &Vec<Vec<char>>, terms: &Vec<Vec<char>>) -> (c: usize)
    ensures
        c as int == spec_count_hits(toks.deep_view(), terms.deep_view()),
{
    let ghost full = toks.deep_view();
    let mut c: usize = 0;
    let mut i: usize = 0;
    proof {
        assert(full.subrange(0, full.len() as int) =~= full);
    }
    while i < toks.len()
        invariant
            i <= toks@.len(),
            c <= i,
            full == toks.deep_view(),
            c as int + spec_count_hits(
                full.subrange(i as int, full.len() as int),
                terms.deep_view(),
            ) == spec_count_hits(full, terms.deep_view()),
        decreases toks@.len() - i,
    {
        let ghost suf = full.subrange(i as int, full.len() as int);
        proof {
            assert(suf[0] == full[i as int]);
            assert(full[i as int] == toks@[i as int]@);
            assert(suf.drop_first() =~= full.subrange(i + 1, full.len() as int));
        }
        if contains_token(terms, &toks[i]) {
            c += 1;
        }
        i += 1;
    }
    proof {
        assert(full.subrange(i as int, full.len() as int) =~= Seq::<Seq<char>>::empty());
        lemma_count_hits_bounds(full, terms.deep_view());
    }
    c
}

impl Catalog {
    /// The tokens of the document at `di`, title then body.
    fn doc_tokens(&self, di: usize) -> (r: Vec<Vec<char>>)
        requires
            di < self@.len(),
        ensures
            r.deep_view() == doc_toks(self@[di as int]),
    {
        let d = &self.docs[di];
        let mut toks = tokenize(d.title.as_str());
        let mut body_toks = tokenize(d.body.as_str());
        toks.append(&mut body_toks);
        proof {
            assert(self@[di as int] == self.docs@[di as int]@);
            assert(toks.deep_view() =~~= spec_tokens(d.title@) + spec_tokens(d.body@));
        }
        toks
    }

    /// Answer `query_text` with the top `hits_per_page` matches by
    /// descending score and the total number of matching documents.
    ///
    /// `page` is accepted but deliberately not used: every call returns the
    /// highest-scoring matches, whatever `page` holds. `lang` does not alter
    /// tokenization. The order among equally scored documents is not pinned
    /// down, only that scores descend; everything else about the result is.
    #[allow(unused_variables)]
    pub fn search(&self, query: &str, page: usize, hits_per_page: usize, lang: &str) -> (r: Result<
        (Vec<DocumentHit>, usize),
        CatalogError,
    >)
        requires
            self.wf(),
        ensures
            match r {
                Ok(pair) => {
                    let terms = spec_tokens(query@);
                    &&& terms.len() > 0
                    &&& pair.1 == matched(self@, terms).len()
                    &&& search_hits_ok(
                        self@,
                        pair.0.deep_view(),
                        terms,
                        hits_per_page as int,
                        pair.1 as int,
                    )
                },
                Err(e) => e == CatalogError::QueryParse && spec_tokens(query@).len() == 0,
            },
    {
        let terms = tokenize(query);
        if terms.is_empty() {
            return Err(CatalogError::QueryParse);
        }
        let ghost tv = terms.deep_view();
        let ghost s = self@;

        // Pass one: collect every match as a (score, document index) pair,
        // in index order.
        let mut cand: Vec<(usize, usize)> = Vec::new();
        let mut di: usize = 0;
        proof {
            assert(s.subrange(0, s.len() as int) =~= s);
        }
        while di < self.docs.len()
            invariant
                self.wf(),
                s == self@,
                tv == terms.deep_view(),
                di <= s.len(),
                matched(s, tv).len() == cand@.len() + matched(
                    s.subrange(di as int, s.len() as int),
                    tv,
                ).len(),
                forall|p: int|
                    0 <= p < cand@.len() ==> {
                        &&& (#[trigger] cand@[p]).1 < di
                        &&& doc_matches(s[cand@[p].1 as int], tv)
                        &&& cand@[p].0 as int == doc_score(s[cand@[p].1 as int], tv)
                    },
                forall|j: int|
                    0 <= j < di && doc_matches(#[trigger] s[j], tv) ==> exists|p: int|
                        0 <= p < cand@.len() && cand@[p].1 == j,
                forall|p: int, q: int|
                    0 <= p < q < cand@.len() ==> cand@[p].1 < cand@[q].1,
            decreases s.len() - di,
        {
            let ghost suf = s.subrange(di as int, s.len() as int);
            proof {
                assert(suf[0] == s[di as int]);
                assert(suf.drop_first() =~= s.subrange(di + 1, s.len() as int));
            }
            let toks = self.doc_tokens(di);
            if contains_all(&toks, &terms) {
                let sc = count_hits(&toks, &terms);
                let ghost prev = cand@;
                cand.push((sc, di));
                proof {
                    assert(doc_matches(s[di as int], tv));
                    assert(matched(suf, tv) == seq![suf[0]] + matched(suf.drop_first(), tv));
                    assert forall|j: int|
                        0 <= j < di + 1 && doc_matches(#[trigger] s[j], tv) implies exists|p: int|
                        0 <= p < cand@.len() && cand@[p].1 == j by {
                        if j == di {
                            assert(cand@[cand@.len() - 1].1 == j);
                        } else {
                            let p = choose|p: int| 0 <= p < prev.len() && prev[p].1 == j;
                            assert(cand@[p].1 == j);
                        }
                    }
                }
            } else {
                proof {
                    assert(!doc_matches(s[di as int], tv));
                    assert(matched(suf, tv) == matched(suf.drop_first(), tv));
                }
            }
            di += 1;
        }
        proof {
            assert(s.subrange(di as int, s.len() as int) =~= Seq::<DocV>::empty());
        }
        let total: usize = cand.len();

        // Pass two: move the best-scored candidate over, `hits_per_page`
        // times or until none is left.
        let ghost cand0 = cand@;
        let mut picked: Vec<(usize, usize)> = Vec::new();
        while picked.len() < hits_per_page && cand.len() > 0
            invariant
                picked@.len() + cand@.len() == cand0.len(),
                picked@.len() <= hits_per_page,
                picked@.len() < hits_per_page || cand@.len() == 0 || picked@.len()
                    == hits_per_page,
                forall|p: int, q: int|
                    0 <= p < q < picked@.len() ==> (#[trigger] picked@[p]).0 >= (
                    #[trigger] picked@[q]).0,
                forall|p: int, q: int|
                    0 <= p < picked@.len() && 0 <= q < cand@.len() ==> (#[trigger] picked@[p]).0
                        >= (#[trigger] cand@[q]).0,
                forall|p: int| 0 <= p < picked@.len() ==> cand0.contains(#[trigger] picked@[p]),
                forall|q: int| 0 <= q < cand@.len() ==> cand0.contains(#[trigger] cand@[q]),
                forall|x: (usize, usize)|
                    #[trigger] cand0.contains(x) ==> picked@.contains(x) || cand@.contains(x),
                forall|p: int, q: int|
                    0 <= p < q < picked@.len() ==> (#[trigger] picked@[p]).1 != (
                    #[trigger] picked@[q]).1,
                forall|p: int, q: int|
                    0 <= p < q < cand@.len() ==> (#[trigger] cand@[p]).1 != (#[trigger] cand@[q]).1,
                forall|p: int, q: int|
                    0 <= p < picked@.len() && 0 <= q < cand@.len() ==> (#[trigger] picked@[p]).1
                        != (#[trigger] cand@[q]).1,
            decreases cand@.len(),
        {
            let mut best: usize = 0;
            let mut bi: usize = 1;
            while bi < cand.len()
                invariant
                    cand@.len() > 0,
                    best < bi,
                    bi <= cand@.len(),
                    forall|q: int| 0 <= q < bi ==> cand@[best as int].0 >= (#[trigger] cand@[q]).0,
                decreases cand@.len() - bi,
            {
                if cand[bi].0 > cand[best].0 {
                    best = bi;
                }
                bi += 1;
            }
            let ghost prev_cand = cand@;
            let ghost prev_picked = picked@;
            let e = cand.remove(best);
            picked.push(e);
            proof {
                assert(cand@ =~= prev_cand.subrange(0, best as int) + prev_cand.subrange(
                    best + 1,
                    prev_cand.len() as int,
                ));
                assert(forall|q: int|
                    0 <= q < cand@.len() ==> (#[trigger] cand@[q]) == if q < best {
                        prev_cand[q]
                    } else {
                        prev_cand[q + 1]
                    });
                assert forall|x: (usize, usize)| #[trigger] cand0.contains(x) implies picked@.contains(
                    x,
                ) || cand@.contains(x) by {
                    if prev_picked.contains(x) {
                        let p = choose|p: int| 0 <= p < prev_picked.len() && prev_picked[p] == x;
                        assert(picked@[p] == x);
                    } else {
                        let q = choose|q: int| 0 <= q < prev_cand.len() && prev_cand[q] == x;
                        if q == best {
                            assert(picked@[picked@.len() - 1] == x);
                        } else if q < best {
                            assert(cand@[q] == x);
                        } else {
                            assert(cand@[q - 1] == x);
                        }
                    }
                }
            }
        }

        // Materialize the hits in rank order.
        let mut hits: Vec<DocumentHit> = Vec::new();
        let mut h: usize = 0;
        while h < picked.len()
            invariant
                s == self@,
                self.wf(),
                h <= picked@.len(),
                hits.deep_view().len() == h,
                forall|p: int|
                    0 <= p < picked@.len() ==> (#[trigger] picked@[p]).1 < s.len(),
                forall|p: int|
                    0 <= p < picked@.len() ==> doc_matches(s[(#[trigger] picked@[p]).1 as int], tv)
                        && picked@[p].0 as int == doc_score(s[picked@[p].1 as int], tv),
                forall|g: int|
                    0 <= g < h ==> {
                        let d = s[picked@[g].1 as int];
                        &&& (#[trigger] hits.deep_view()[g]).url == d.url
                        &&& hits.deep_view()[g].title == d.title
                        &&& hits.deep_view()[g].visited == d.visited
                        &&& hits.deep_view()[g].last_modified == d.last_modified
                    },
            decreases picked@.len() - h,
        {
            let idx = picked[h].1;
            let d = &self.docs[idx];
            let ghost prev_hits = hits.deep_view();
            hits.push(
                DocumentHit {
                    url: d.url.clone(),
                    title: d.title.clone(),
                    visited: d.visited,
                    last_modified: d.last_modified,
                },
            );
            proof {
                assert(s[idx as int] == self.docs@[idx as int]@);
                assert(hits.deep_view() =~= prev_hits.push(
                    HitV {
                        url: d.url@,
                        title: d.title@,
                        visited: d.visited,
                        last_modified: d.last_modified,
                    },
                ));
            }
            h += 1;
        }

        proof {
            let hv = hits.deep_view();
            assert forall|g: int| 0 <= g < hv.len() implies hit_corresponds(
                self@,
                #[trigger] hv[g],
                tv,
            ) by {
                let i = picked@[g].1 as int;
                crate::catalog::lemma_find_contains(s, i);
                assert(spec_find(s, hv[g].url) == Some(s[i]));
            }
            assert forall|g: int, h2: int|
                0 <= g < hv.len() && 0 <= h2 < hv.len() && g != h2 implies hv[g].url
                != hv[h2].url by {
                let i = picked@[g].1 as int;
                let j = picked@[h2].1 as int;
                assert(i != j);
                assert(s[i].url != s[j].url);
            }
            assert forall|g: int, h2: int| 0 <= g < h2 < hv.len() implies hit_score(
                self@,
                hv[g].url,
                tv,
            ) >= hit_score(self@, hv[h2].url, tv) by {
                let i = picked@[g].1 as int;
                let j = picked@[h2].1 as int;
                crate::catalog::lemma_find_contains(s, i);
                crate::catalog::lemma_find_contains(s, j);
                assert(picked@[g].0 >= picked@[h2].0);
            }
            assert forall|j: int|
                0 <= j < s.len() && doc_matches(#[trigger] s[j], tv) && !in_hits(
                hv,
                s[j].url,
            ) implies total > hits_per_page && (hv.len() > 0 ==> doc_score(s[j], tv) <= hit_score(
                self@,
                hv[hv.len() - 1].url,
                tv,
            )) by {
                let p = choose|p: int| 0 <= p < cand0.len() && cand0[p].1 == j;
                let x = cand0[p];
                assert(cand0.contains(x));
                if picked@.contains(x) {
                    let g = choose|g: int| 0 <= g < picked@.len() && picked@[g] == x;
                    assert(hv[g].url == s[j].url);
                    assert(in_hits(hv, s[j].url));
                    assert(false);
                } else {
                    assert(cand@.contains(x));
                    assert(cand@.len() > 0);
                    assert(picked@.len() == hits_per_page);
                    assert(total == cand0.len());
                    assert(total > hits_per_page);
                    if hv.len() > 0 {
                        let q = choose|q: int| 0 <= q < cand@.len() && cand@[q] == x;
                        assert(picked@[picked@.len() - 1].0 >= cand@[q].0);
                        let i = picked@[hv.len() - 1].1 as int;
                        crate::catalog::lemma_find_contains(s, i);
                        assert(hit_score(self@, hv[hv.len() - 1].url, tv) == picked@[hv.len()
                            - 1].0 as int);
                        assert(doc_score(s[j], tv) == x.0 as int);
                    }
                }
            }
        }
        Ok((hits, total))
    }
}

} // verus!
