use doc_catalog::catalog::Catalog;
use doc_catalog::dispatch::{process_request, Request, RequestData, ResponseData};

#[test]
fn version_is_answered_under_the_request_id() {
    let mut c = Catalog::new();
    let resp = process_request(
        Request { id: 7, data: RequestData::Version { client: "a client".to_string() } },
        &mut c,
    );
    assert_eq!(resp.rid, 7);
    match resp.data {
        ResponseData::Version { version } => assert_eq!(version, "1.0"),
        _ => panic!("expected a version response"),
    }
}

#[test]
fn add_check_search_remove_through_the_dispatcher() {
    let mut c = Catalog::new();

    let resp = process_request(
        Request {
            id: 1,
            data: RequestData::Add {
                url: "https://d.example".to_string(),
                lang: "en".to_string(),
                title: "dispatched title".to_string(),
                contents: "dispatched body".to_string(),
                last_modified: 555,
            },
        },
        &mut c,
    );
    assert_eq!(resp.rid, 1);
    assert!(matches!(resp.data, ResponseData::Success));

    let resp = process_request(
        Request { id: 2, data: RequestData::Check { url: "https://d.example".to_string() } },
        &mut c,
    );
    assert_eq!(resp.rid, 2);
    match resp.data {
        ResponseData::Check { visited: _, last_modified } => assert_eq!(last_modified, 555),
        _ => panic!("expected a check response"),
    }

    let resp = process_request(
        Request {
            id: 3,
            data: RequestData::Search {
                query: "dispatched".to_string(),
                page: 0,
                hits_per_page: 6,
                lang: "en".to_string(),
            },
        },
        &mut c,
    );
    assert_eq!(resp.rid, 3);
    match resp.data {
        ResponseData::Search { total, hits } => {
            assert_eq!(total, 1);
            assert_eq!(hits[0].url, "https://d.example");
            assert_eq!(hits[0].title, "dispatched title");
        }
        _ => panic!("expected a search response"),
    }

    let resp = process_request(
        Request { id: 4, data: RequestData::Remove { url: "https://d.example".to_string() } },
        &mut c,
    );
    assert_eq!(resp.rid, 4);
    assert!(matches!(resp.data, ResponseData::Success));

    let resp = process_request(
        Request { id: 5, data: RequestData::Check { url: "https://d.example".to_string() } },
        &mut c,
    );
    match resp.data {
        ResponseData::Check { visited, last_modified } => {
            assert_eq!(visited, 0);
            assert_eq!(last_modified, 0);
        }
        _ => panic!("expected a check response"),
    }
}

#[test]
fn bad_query_is_an_error_response_not_a_crash() {
    let mut c = Catalog::new();
    let resp = process_request(
        Request {
            id: 9,
            data: RequestData::Search {
                query: "...".to_string(),
                page: 0,
                hits_per_page: 6,
                lang: "en".to_string(),
            },
        },
        &mut c,
    );
    assert_eq!(resp.rid, 9);
    match resp.data {
        ResponseData::Error { message } => assert_eq!(message, "query parse error"),
        _ => panic!("expected an error response"),
    }
}
