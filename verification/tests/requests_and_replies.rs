use registry_proxy::codec::decode;
use registry_proxy::json::Json;
use registry_proxy::proxy::{
    begin_audit, bulk_query, forward, is_success, is_worth_reporting, listen_port, metadata_url,
    refuse, relay, report_reply, route, settle_bulk, Begun, Forwarded, Outcome, Reply, Request,
    Route, Settled, BULK_ADVISORY_PATH, DEFAULT_PORT, OLD_AUDIT_PATH, UPSTREAM_REGISTRY,
};

fn header(name: &str, value: &str) -> (String, Vec<u8>) {
    (name.to_string(), value.as_bytes().to_vec())
}

fn json() -> Vec<(String, Vec<u8>)> {
    vec![header("content-type", "application/json")]
}

#[test]
fn only_the_two_audit_paths_are_answered_here() {
    assert_eq!(route("POST", "/-/npm/v1/security/audits"), Route::Audit);
    assert_eq!(route("POST", "/-/npm/v1/security/audits/quick"), Route::Audit);
    assert_eq!(route("GET", "/-/npm/v1/security/audits"), Route::Passthrough);
    assert_eq!(route("post", "/-/npm/v1/security/audits"), Route::Passthrough);
    assert_eq!(route("POST", "/-/npm/v1/security/audits/"), Route::Passthrough);
    assert_eq!(route("POST", "/-/npm/v1/security/audits/quick/"), Route::Passthrough);
    assert_eq!(route("POST", "/-/npm/v1/security/advisories/bulk"), Route::Passthrough);
    assert_eq!(route("POST", ""), Route::Passthrough);
    assert_eq!(OLD_AUDIT_PATH, "/-/npm/v1/security/audits");
}

#[test]
fn a_request_that_is_not_json_is_refused() {
    let reply = match begin_audit(b"{\"requires\"") {
        Begun::Refused(reply) => reply,
        Begun::Query(_) => panic!("read"),
    };
    assert_eq!(reply.status, 400);
    assert_eq!(reply.headers, vec![]);
    assert_eq!(
        String::from_utf8(reply.body).unwrap(),
        "{\"error\": \"Invalid JSON: EOF while parsing an object at line 1 column 11\"}"
    );
}

#[test]
fn a_refusal_tells_what_is_wrong() {
    assert_eq!(
        refuse("no"),
        Reply {
            status: 400,
            headers: vec![],
            body: b"{\"error\": \"Invalid JSON: no\"}".to_vec(),
        }
    );
}

#[test]
fn an_audit_request_becomes_a_query() {
    let body = "{\"requires\":{\"z\":\"1\",\"b\":\"1\",\"gone\":\"^9\"},\"dependencies\":{\
                \"z\":{\"version\":\"3.0.0\",\"requires\":{\"b\":\"1\"}},\
                \"b\":{\"version\":\"1.0.0\",\"dependencies\":{\"b\":{\"version\":\"0.5.0\"}}}}}";
    let query = match begin_audit(body.as_bytes()) {
        Begun::Query(query) => query,
        Begun::Refused(_) => panic!("refused"),
    };
    assert_eq!(
        query.url,
        "https://registry.npmjs.org/-/npm/v1/security/advisories/bulk"
    );
    assert_eq!(
        String::from_utf8(query.body).unwrap(),
        "{\"b\":[\"1.0.0\",\"0.5.0\"],\"gone\":[\"^9\"],\"z\":[\"3.0.0\"]}"
    );
    assert_eq!(query.audit.total_deps, 3);
    assert_eq!(BULK_ADVISORY_PATH, "/-/npm/v1/security/advisories/bulk");
}

#[test]
fn a_query_about_nothing_is_an_empty_object() {
    let query = bulk_query(&decode(b"{}").unwrap());
    assert_eq!(query.body, b"{}".to_vec());
    assert_eq!(query.audit.total_deps, 0);
}

#[test]
fn a_registry_out_of_reach_is_a_bad_gateway() {
    assert_eq!(
        settle_bulk(Outcome::Failed("timed out".to_string())),
        Settled::Replied(Reply {
            status: 502,
            headers: json(),
            body: b"{\"error\": \"Upstream error: timed out\"}".to_vec(),
        })
    );
    assert_eq!(
        relay(Outcome::Failed("timed out".to_string())),
        Reply {
            status: 502,
            headers: vec![],
            body: b"{\"error\": \"Upstream error: timed out\"}".to_vec(),
        }
    );
}

#[test]
fn an_answer_without_success_is_passed_on() {
    for (status, relayed) in
        [(404, 404), (500, 500), (302, 302), (199, 199), (99, 502), (1000, 502)]
    {
        let outcome = Outcome::Answered {
            status,
            headers: vec![header("content-type", "text/plain"), header("etag", "1")],
            body: b"sorry".to_vec(),
        };
        assert_eq!(
            settle_bulk(outcome),
            Settled::Replied(Reply {
                status: relayed,
                headers: json(),
                body: b"sorry".to_vec(),
            })
        );
    }
}

#[test]
fn an_answer_of_success_has_the_advisories() {
    let answered = |body: &[u8]| Outcome::Answered {
        status: 200,
        headers: vec![],
        body: body.to_vec(),
    };
    assert_eq!(
        settle_bulk(answered(b"{\"a\":[]}")),
        Settled::Advisories(decode(b"{\"a\":[]}").unwrap())
    );
    assert_eq!(settle_bulk(answered(b"<html>")), Settled::Advisories(Json::Null));
    assert_eq!(settle_bulk(answered(b"")), Settled::Advisories(Json::Null));
}

#[test]
fn success_is_from_200_to_299() {
    assert!(is_success(200));
    assert!(is_success(299));
    assert!(!is_success(199));
    assert!(!is_success(300));
    assert!(!is_success(304));
}

#[test]
fn a_report_is_replied_as_json() {
    let report = Json::Object(vec![
        ("muted".to_string(), Json::Array(vec![])),
        ("actions".to_string(), Json::Null),
    ]);
    assert_eq!(
        report_reply(&report),
        Reply {
            status: 200,
            headers: json(),
            body: b"{\"actions\":null,\"muted\":[]}".to_vec(),
        }
    );
}

#[test]
fn packages_are_looked_up_by_name() {
    assert_eq!(metadata_url("lodash"), "https://registry.npmjs.org/lodash");
    assert_eq!(metadata_url("@babel/core"), "https://registry.npmjs.org/@babel/core");
    assert_eq!(UPSTREAM_REGISTRY, "https://registry.npmjs.org");
}

#[test]
fn a_request_is_passed_on_without_its_host() {
    let forwarded = forward(Request {
        method: "PUT".to_string(),
        path_and_query: Some("/lodash?write=true".to_string()),
        headers: vec![
            header("accept", "*/*"),
            header("host", "localhost:4873"),
            header("x-tag", "1"),
            header("x-tag", "2"),
            header("host", "again"),
        ],
        body: b"data".to_vec(),
    });
    assert_eq!(
        forwarded,
        Forwarded {
            method: "PUT".to_string(),
            url: "https://registry.npmjs.org/lodash?write=true".to_string(),
            headers: vec![header("accept", "*/*"), header("x-tag", "1"), header("x-tag", "2")],
            body: Some(b"data".to_vec()),
        }
    );
}

#[test]
fn an_empty_body_is_not_passed_on() {
    let forwarded = forward(Request {
        method: "GET".to_string(),
        path_and_query: None,
        headers: vec![header("hostname", "kept")],
        body: vec![],
    });
    assert_eq!(forwarded.url, "https://registry.npmjs.org/");
    assert_eq!(forwarded.body, None);
    assert_eq!(forwarded.headers, vec![header("hostname", "kept")]);
}

#[test]
fn an_answer_comes_back_untouched() {
    let headers = vec![
        header("content-type", "application/octet-stream"),
        header("content-encoding", "gzip"),
        header("etag", "\"abc\""),
        header("set-cookie", "a=1"),
        header("set-cookie", "b=2"),
        ("x-raw".to_string(), vec![255, 128]),
    ];
    assert_eq!(
        relay(Outcome::Answered {
            status: 304,
            headers: headers.clone(),
            body: vec![0, 255],
        }),
        Reply { status: 304, headers, body: vec![0, 255] }
    );
    assert_eq!(
        relay(Outcome::Answered { status: 204, headers: vec![], body: vec![] }),
        Reply { status: 204, headers: vec![], body: vec![] }
    );
}

#[test]
fn a_redirect_keeps_its_target() {
    let reply = relay(Outcome::Answered {
        status: 302,
        headers: vec![header("location", "https://registry.npmjs.org/x"), header("vary", "*")],
        body: vec![],
    });
    assert_eq!(reply.status, 302);
    assert_eq!(
        reply.headers,
        vec![header("location", "https://registry.npmjs.org/x"), header("vary", "*")]
    );
}

#[test]
fn the_frame_of_an_answer_is_not_passed_back() {
    let reply = relay(Outcome::Answered {
        status: 1000,
        headers: vec![
            header("connection", "keep-alive"),
            header("date", "today"),
            header("transfer-encoding", "chunked"),
            header("keep-alive", "timeout=5"),
            header("content-length", "12"),
            header("content-language", "en"),
            header("connection", "close"),
        ],
        body: b"body".to_vec(),
    });
    assert_eq!(
        reply,
        Reply {
            status: 502,
            headers: vec![header("date", "today"), header("content-language", "en")],
            body: b"body".to_vec(),
        }
    );
}

#[test]
fn the_port_is_a_number_or_the_usual_one() {
    assert_eq!(DEFAULT_PORT, 4873);
    assert_eq!(listen_port(None), 4873);
    assert_eq!(listen_port(Some("8080")), 8080);
    assert_eq!(listen_port(Some("+80")), 80);
    assert_eq!(listen_port(Some("0")), 0);
    assert_eq!(listen_port(Some("0000000080")), 80);
    assert_eq!(listen_port(Some("65535")), 65535);
    for text in ["65536", "99999999999999999999", "", "+", "-1", "++1", " 80", "80 ", "8o80"] {
        assert_eq!(listen_port(Some(text)), 4873);
    }
}

#[test]
fn the_port_is_what_the_standard_library_reads() {
    for text in [
        "0", "1", "+1", "007", "4873", "65535", "65536", "655350", "", "+", "-0", "1_0", "\u{664}",
    ] {
        assert_eq!(listen_port(Some(text)), text.parse::<u16>().unwrap_or(4873));
    }
}

#[test]
fn a_closed_connection_is_not_worth_reporting() {
    assert!(!is_worth_reporting("connection closed before message completed"));
    assert!(is_worth_reporting("connection reset"));
    assert!(is_worth_reporting(""));
}
