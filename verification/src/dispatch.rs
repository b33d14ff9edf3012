//! The request dispatcher: routes one decoded request to the matching
//! catalog operation and wraps the outcome in a response that carries the
//! request's correlation id.
//!
//! Decoding the JSON envelope and the transport framing are the caller's
//! business; the dispatcher works on plain decoded values. A failing
//! operation is answered with an error response for that request instead of
//! tearing the loop down.

use vstd::prelude::*;

use crate::catalog::{sans_url, spec_freshness, spec_upsert, Catalog, DocumentHit};
use crate::search::{matched, search_hits_ok};
use crate::tokenize::spec_tokens;

verus! {

/// A decoded request variant, one per message type.
pub enum RequestData {
    Version { client: String },
    Add { url: String, lang: String, title: String, contents: String, last_modified: i64 },
    Remove { url: String },
    Check { url: String },
    Search { query: String, page: usize, hits_per_page: usize, lang: String },
}

/// A decoded request: a correlation id and its payload.
pub struct Request {
    pub id: u32,
    pub data: RequestData,
}

/// A response payload, one variant per outcome kind.
pub enum ResponseData {
    Success,
    Version { version: String },
    Check { visited: i64, last_modified: i64 },
    Search { total: usize, hits: Vec<DocumentHit> },
    Error { message: String },
}

/// A response: the id of the request it answers and the payload.
pub struct Response {
    pub rid: u32,
    pub data: ResponseData,
}

/// Answer a version handshake; the client string does not matter.
pub fn version_request() -> (r: ResponseData)
    ensures
        r matches ResponseData::Version { version } && version@ == "1.0"@,
{
    ResponseData::Version { version: String::from_str("1.0") }
}

/// Answer a freshness check for one url.
pub fn check_request(catalog: &Catalog, url: &String) -> (r: ResponseData)
    ensures
        r matches ResponseData::Check { visited, last_modified } && (visited, last_modified)
            == spec_freshness(catalog@, url@),
{
    let (visited, last_modified) = catalog.get_last_modified(url.as_str());
    ResponseData::Check { visited, last_modified }
}

/// Store a page visit.
pub fn add_request(
    catalog: &mut Catalog,
    url: &String,
    title: &String,
    contents: &String,
    last_modified: i64,
) -> (r: ResponseData)
    ensures
        r matches ResponseData::Success,
        exists|v: i64|
            final(catalog)@ == spec_upsert(old(catalog)@, url@, title@, contents@, v, last_modified),
        old(catalog).wf() ==> final(catalog).wf(),
{
    let _ = catalog.add(url.as_str(), title.as_str(), contents.as_str(), last_modified);
    ResponseData::Success
}

/// Forget a url.
pub fn remove_request(catalog: &mut Catalog, url: &String) -> (r: ResponseData)
    ensures
        r matches ResponseData::Success,
        final(catalog)@ == sans_url(old(catalog)@, url@),
        old(catalog).wf() ==> final(catalog).wf(),
{
    let _ = catalog.remove(url.as_str());
    ResponseData::Success
}

/// Run a search and wrap its outcome; a query that parses to no term is
/// answered with an error response.
pub fn search_request(
    catalog: &Catalog,
    query: &String,
    page: usize,
    hits_per_page: usize,
    lang: &String,
) -> (r: ResponseData)
    requires
        catalog.wf(),
    ensures
        spec_tokens(query@).len() == 0 ==> r matches ResponseData::Error { .. },
        spec_tokens(query@).len() > 0 ==> (r matches ResponseData::Search { total, hits } && total
            == matched(catalog@, spec_tokens(query@)).len() && search_hits_ok(
            catalog@,
            hits.deep_view(),
            spec_tokens(query@),
            hits_per_page as int,
            total as int,
        )),
{
    match catalog.search(query.as_str(), page, hits_per_page, lang.as_str()) {
        Ok((hits, total)) => ResponseData::Search { total, hits },
        Err(e) => ResponseData::Error { message: e.message() },
    }
}

/// Route one request to the catalog and answer it under the same id.
pub fn process_request(req: Request, catalog: &mut Catalog) -> (r: Response)
    requires
        old(catalog).wf(),
    ensures
        final(catalog).wf(),
        r.rid == req.id,
        match req.data {
            RequestData::Version { client } => final(catalog)@ == old(catalog)@ && (
            r.data matches ResponseData::Version { version } && version@ == "1.0"@),
            RequestData::Add { url, lang, title, contents, last_modified } => (
            r.data matches ResponseData::Success) && (exists|v: i64|
                final(catalog)@ == spec_upsert(
                    old(catalog)@,
                    url@,
                    title@,
                    contents@,
                    v,
                    last_modified,
                )),
            RequestData::Remove { url } => (r.data matches ResponseData::Success) && final(catalog)@ == sans_url(old(catalog)@, url@),
            RequestData::Check { url } => final(catalog)@ == old(catalog)@ && (
            r.data matches ResponseData::Check { visited, last_modified } && (
            visited,
            last_modified,
            ) == spec_freshness(old(catalog)@, url@)),
            RequestData::Search { query, page, hits_per_page, lang } => final(catalog)@ == old(catalog)@ && (if spec_tokens(query@).len() == 0 {
                r.data matches ResponseData::Error { .. }
            } else {
                r.data matches ResponseData::Search { total, hits } && total == matched(
                    old(catalog)@,
                    spec_tokens(query@),
                ).len() && search_hits_ok(
                    old(catalog)@,
                    hits.deep_view(),
                    spec_tokens(query@),
                    hits_per_page as int,
                    total as int,
                )
            }),
        },
{
    let id = req.id;
    let data = match req.data {
        RequestData::Version { client: _ } => version_request(),
        RequestData::Check { url } => check_request(catalog, &url),
        RequestData::Add { url, lang: _, title, contents, last_modified } => add_request(
            catalog,
            &url,
            &title,
            &contents,
            last_modified,
        ),
        RequestData::Remove { url } => remove_request(catalog, &url),
        RequestData::Search { query, page, hits_per_page, lang } => search_request(
            catalog,
            &query,
            page,
            hits_per_page,
            &lang,
        ),
    };
    Response { rid: id, data }
}

} // verus!
