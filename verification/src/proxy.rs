//! The proxy: which requests it answers itself, what it asks the registry for, and what it
//! replies.
use crate::audit::{
    all_visits, audit_of, dependency_count, lemma_dependency_count, package_views,
    parse_audit_request, ParsedAudit,
};
use crate::audit_laws::{calls_for, law_asked_iff_visited, law_audit_well_formed};
use crate::codec::{
    canonical, canonical_items, decode, encode, json_document, json_text,
    law_canonical_keeps_fields, lemma_canonical_array,
};
use crate::json::{field_views, put_field, text_views, Json, JsonView};
use crate::table::{lemma_slot, lookup, text_keys};
use crate::text::{
    characters, contains_text, join3, lists_text, occurs_in, same_text, texts,
};
use vstd::prelude::*;
use vstd::string::{StrSliceExecFns, StringExecFns};
use vstd::utf8::encode_utf8;

verus! {

/// The registry that stands behind the proxy.
pub const UPSTREAM_REGISTRY: &'static str = "https://registry.npmjs.org";

/// The path of the audit requests that the registry no longer answers.
pub const OLD_AUDIT_PATH: &'static str = "/-/npm/v1/security/audits";

/// The path of the registry's advisories.
pub const BULK_ADVISORY_PATH: &'static str = "/-/npm/v1/security/advisories/bulk";

/// What is done with a request.
#[derive(Debug, Clone, Copy, PartialEq, Eq)]
pub enum Route {
    /// The proxy answers it.
    Audit,
    /// The registry answers it.
    Passthrough,
}

/// Whether a request is an audit request.
pub open spec fn is_audit(method: Seq<char>, path: Seq<char>) -> bool {
    &&& method == "POST"@
    &&& path == OLD_AUDIT_PATH@ || path == OLD_AUDIT_PATH@ + "/quick"@
}

/// What is done with a request of this method for this path.
pub fn route(method: &str, path: &str) -> (route: Route)
    ensures
        route == if is_audit(method@, path@) {
            Route::Audit
        } else {
            Route::Passthrough
        },
{
    let quick: String = OLD_AUDIT_PATH.to_owned().concat("/quick");
    if same_text(method, "POST") && (same_text(path, OLD_AUDIT_PATH) || same_text(
        path,
        quick.as_str(),
    )) {
        Route::Audit
    } else {
        Route::Passthrough
    }
}

/// What the headers of a list say.
pub open spec fn header_views(headers: Seq<(String, Vec<u8>)>) -> Seq<(Seq<char>, Seq<u8>)> {
    Seq::new(headers.len(), |i: int| (headers[i].0@, headers[i].1@))
}

/// The headers but those with one of the names, in their order.
pub open spec fn headers_without(
    headers: Seq<(Seq<char>, Seq<u8>)>,
    names: Seq<Seq<char>>,
) -> Seq<(Seq<char>, Seq<u8>)>
    decreases headers.len(),
{
    if headers.len() == 0 {
        headers
    } else if names.contains(headers.last().0) {
        headers_without(headers.drop_last(), names)
    } else {
        headers_without(headers.drop_last(), names).push(headers.last())
    }
}

fn leave_out(headers: Vec<(String, Vec<u8>)>, names: &Vec<String>) -> (kept: Vec<
    (String, Vec<u8>),
>)
    ensures
        header_views(kept@) == headers_without(header_views(headers@), texts(names@)),
{
    let ghost whole = header_views(headers@);
    let mut kept: Vec<(String, Vec<u8>)> = Vec::new();
    assert(whole.take(0) =~= Seq::empty());
    assert(header_views(kept@) =~= Seq::empty());
    for header in it: headers
        invariant
            it.seq() == headers@,
            whole == header_views(headers@),
            header_views(kept@) == headers_without(
                whole.take(it.index() as int),
                texts(names@),
            ),
    {
        let ghost before = header_views(kept@);
        let ghost at = it.index() as int;
        assert(whole.take(at + 1).drop_last() =~= whole.take(at));
        assert(whole.take(at + 1).last() == (header.0@, header.1@));
        if !lists_text(names, header.0.as_str()) {
            kept.push(header);
            assert(header_views(kept@) =~= before.push((header.0@, header.1@)));
        }
    }
    assert(whole.take(whole.len() as int) =~= whole);
    kept
}

/// A reply to a client, with the names of its headers in lower case.
#[derive(Debug, PartialEq, Eq)]
pub struct Reply {
    pub status: u16,
    pub headers: Vec<(String, Vec<u8>)>,
    pub body: Vec<u8>,
}

/// What a reply says.
pub struct ReplyView {
    pub status: u16,
    pub headers: Seq<(Seq<char>, Seq<u8>)>,
    pub body: Seq<u8>,
}

/// The bytes, where there are any.
pub open spec fn bytes_view(bytes: Option<Vec<u8>>) -> Option<Seq<u8>> {
    match bytes {
        Some(bytes) => Some(bytes@),
        None => None,
    }
}

impl View for Reply {
    type V = ReplyView;

    open spec fn view(&self) -> ReplyView {
        ReplyView {
            status: self.status,
            headers: header_views(self.headers@),
            body: self.body@,
        }
    }
}

/// The headers of a JSON document.
pub open spec fn json_headers() -> Seq<(Seq<char>, Seq<u8>)> {
    seq![("content-type"@, encode_utf8("application/json"@))]
}

/// The body that tells of an error.
pub open spec fn error_body(what: Seq<char>, message: Seq<char>) -> Seq<u8> {
    encode_utf8("{\"error\": \""@ + what + message + "\"}"@)
}

/// The reply to an audit request whose body is not JSON.
pub open spec fn invalid_reply(message: Seq<char>) -> ReplyView {
    ReplyView {
        status: 400,
        headers: Seq::empty(),
        body: error_body("Invalid JSON: "@, message),
    }
}

/// The reply where the registry could not be reached.
pub open spec fn unreachable_reply(
    headers: Seq<(Seq<char>, Seq<u8>)>,
    message: Seq<char>,
) -> ReplyView {
    ReplyView { status: 502, headers, body: error_body("Upstream error: "@, message) }
}

/// The status that is passed on: that of the registry, or that of a bad gateway where it is not
/// a status.
pub open spec fn relayed_status(status: u16) -> u16 {
    if 100 <= status < 1000 {
        status
    } else {
        502
    }
}

/// Whether a status is one of success.
pub open spec fn succeeds(status: u16) -> bool {
    200 <= status < 300
}

fn write_error(what: &str, message: &str) -> (body: Vec<u8>)
    ensures
        body@ == error_body(what@, message@),
{
    let text: String = join3("{\"error\": \"", what, message).concat("\"}");
    text.as_str().as_bytes_vec()
}

fn relay_status(status: u16) -> (relayed: u16)
    ensures
        relayed == relayed_status(status),
{
    if 100 <= status && status < 1000 {
        status
    } else {
        502
    }
}

/// Whether a status is one of success.
pub fn is_success(status: u16) -> (success: bool)
    ensures
        success == succeeds(status),
{
    200 <= status && status < 300
}

fn write_json_headers() -> (headers: Vec<(String, Vec<u8>)>)
    ensures
        header_views(headers@) == json_headers(),
{
    let mut headers: Vec<(String, Vec<u8>)> = Vec::new();
    headers.push(("content-type".to_owned(), "application/json".as_bytes_vec()));
    assert(header_views(headers@) =~= json_headers());
    headers
}

fn no_headers() -> (headers: Vec<(String, Vec<u8>)>)
    ensures
        header_views(headers@) == Seq::<(Seq<char>, Seq<u8>)>::empty(),
{
    let headers: Vec<(String, Vec<u8>)> = Vec::new();
    assert(header_views(headers@) =~= Seq::empty());
    headers
}

/// The packages of an audit, as the registry is asked about them.
pub open spec fn packages_document(packages: Seq<(Seq<char>, Seq<Seq<char>>)>) -> JsonView {
    JsonView::Object(
        Seq::new(
            packages.len(),
            |i: int| (packages[i].0, JsonView::Array(text_views(packages[i].1))),
        ),
    )
}

fn write_packages(packages: &Vec<(String, Vec<String>)>) -> (document: Json)
    ensures
        document@ == packages_document(package_views(packages@)),
{
    let mut fields: Vec<(String, Json)> = Vec::new();
    let ghost whole = packages_document(package_views(packages@))->Object_0;
    let mut i: usize = 0;
    assert(field_views(fields@) =~= whole.take(0));
    while i < packages.len()
        invariant
            i <= packages@.len(),
            whole == packages_document(package_views(packages@))->Object_0,
            field_views(fields@) == whole.take(i as int),
        decreases packages@.len() - i,
    {
        put_field(&mut fields, packages[i].0.as_str(), Json::texts(&packages[i].1));
        assert(whole.take(i + 1) =~= whole.take(i as int).push(whole[i as int]));
        i += 1;
    }
    assert(whole.take(i as int) =~= whole);
    Json::object(fields)
}

/// What the registry is asked for the sake of an audit request.
#[derive(Debug, PartialEq)]
pub struct BulkQuery {
    pub url: String,
    /// The body to post, a JSON document.
    pub body: Vec<u8>,
    pub audit: ParsedAudit,
}

/// Whether the query is the one for an audit request with this content.
pub open spec fn is_query_for(query: BulkQuery, request: JsonView) -> bool {
    &&& query.url@ == UPSTREAM_REGISTRY@ + BULK_ADVISORY_PATH@
    &&& query.audit@ == audit_of(request)
    &&& query.audit@.well_formed()
    &&& query.body@ == json_text(canonical(packages_document(audit_of(request).packages)))
}

/// The query for an audit request.
pub fn bulk_query(request: &Json) -> (query: BulkQuery)
    requires
        dependency_count(request@) < usize::MAX,
    ensures
        is_query_for(query, request@),
{
    let audit: ParsedAudit = parse_audit_request(request);
    let packages: Json = write_packages(&audit.packages);
    BulkQuery {
        url: UPSTREAM_REGISTRY.to_owned().concat(BULK_ADVISORY_PATH),
        body: encode(&packages),
        audit,
    }
}

/// The first thing that becomes of an audit request.
#[derive(Debug, PartialEq)]
pub enum Begun {
    /// It is refused.
    Refused(Reply),
    /// The registry is to be asked.
    Query(BulkQuery),
}

/// Reads an audit request. One that is not JSON is refused.
pub fn begin_audit(body: &[u8]) -> (begun: Begun)
    ensures
        match json_document(body@) {
            Ok(request) => begun matches Begun::Query(query) && is_query_for(query, request),
            Err(message) => begun matches Begun::Refused(reply) && reply@ == invalid_reply(
                message,
            ),
        },
{
    match decode(body) {
        Ok(request) => {
            let size: usize = body.len();
            proof {
                lemma_dependency_count(request@);
            }
            Begun::Query(bulk_query(&request))
        },
        Err(message) => Begun::Refused(refuse(message.as_str())),
    }
}

/// The reply to an audit request that cannot be read, given what is wrong with it.
pub fn refuse(message: &str) -> (reply: Reply)
    ensures
        reply@ == invalid_reply(message@),
{
    Reply {
        status: 400,
        headers: no_headers(),
        body: write_error("Invalid JSON: ", message),
    }
}

/// What came of a request to the registry.
#[derive(Debug, PartialEq, Eq)]
pub enum Outcome {
    /// It could not be made, for this reason.
    Failed(String),
    /// The registry answered, with the names of the headers in lower case.
    Answered { status: u16, headers: Vec<(String, Vec<u8>)>, body: Vec<u8> },
}

/// The second thing that becomes of an audit request.
#[derive(Debug, PartialEq)]
pub enum Settled {
    /// It is replied to.
    Replied(Reply),
    /// The registry gave these advisories.
    Advisories(Json),
}

/// What the registry's body says: nothing where it is not JSON.
pub open spec fn document_or_null(read: Result<JsonView, Seq<char>>) -> JsonView {
    match read {
        Ok(document) => document,
        Err(_) => JsonView::Null,
    }
}

/// Takes up what came of asking the registry for advisories. An answer that is not one of
/// success is passed on as it is.
pub fn settle_bulk(outcome: Outcome) -> (settled: Settled)
    ensures
        match outcome {
            Outcome::Failed(message) => settled matches Settled::Replied(reply) && reply@
                == unreachable_reply(json_headers(), message@),
            Outcome::Answered { status, body, .. } => if succeeds(status) {
                settled matches Settled::Advisories(document) && document@ == document_or_null(
                    json_document(body@),
                ) && document@ == (match json_document(body@) {
                    Ok(advisories) => advisories,
                    Err(_) => JsonView::Null,
                })
            } else {
                settled matches Settled::Replied(reply) && reply@ == (ReplyView {
                    status: relayed_status(status),
                    headers: json_headers(),
                    body: body@,
                })
            },
        },
{
    match outcome {
        Outcome::Failed(message) => Settled::Replied(
            Reply {
                status: 502,
                headers: write_json_headers(),
                body: write_error("Upstream error: ", message.as_str()),
            },
        ),
        Outcome::Answered { status, headers: _, body } => if is_success(status) {
            match decode(body.as_slice()) {
                Ok(document) => Settled::Advisories(document),
                Err(_) => Settled::Advisories(Json::Null),
            }
        } else {
            Settled::Replied(
                Reply { status: relay_status(status), headers: write_json_headers(), body },
            )
        },
    }
}

/// The reply with a finished report.
pub fn report_reply(report: &Json) -> (reply: Reply)
    ensures
        reply@ == (ReplyView {
            status: 200,
            headers: json_headers(),
            body: json_text(canonical(report@)),
        }),
{
    Reply { status: 200, headers: write_json_headers(), body: encode(report) }
}

/// Where the registry tells of a package.
pub fn metadata_url(name: &str) -> (url: String)
    ensures
        url@ == UPSTREAM_REGISTRY@ + "/"@ + name@,
{
    join3(UPSTREAM_REGISTRY, "/", name)
}

/// A request, with the names of its headers in lower case.
#[derive(Debug, PartialEq, Eq)]
pub struct Request {
    pub method: String,
    /// The path and the query, where the address has them.
    pub path_and_query: Option<String>,
    pub headers: Vec<(String, Vec<u8>)>,
    pub body: Vec<u8>,
}

/// A request that is passed on to the registry.
#[derive(Debug, PartialEq, Eq)]
pub struct Forwarded {
    pub method: String,
    pub url: String,
    pub headers: Vec<(String, Vec<u8>)>,
    /// The body, unless it is empty.
    pub body: Option<Vec<u8>>,
}

/// The headers that are passed on to the registry: all but those that name the host.
pub open spec fn forwarded_headers(headers: Seq<(Seq<char>, Seq<u8>)>) -> Seq<
    (Seq<char>, Seq<u8>),
> {
    headers_without(headers, seq!["host"@])
}

/// The path and the query that are asked for, the root where the address has none.
pub open spec fn requested(path_and_query: Option<String>) -> Seq<char> {
    match path_and_query {
        Some(text) => text@,
        None => "/"@,
    }
}

/// Passes a request on to the registry.
pub fn forward(request: Request) -> (forwarded: Forwarded)
    ensures
        forwarded.method@ == request.method@,
        forwarded.url@ == UPSTREAM_REGISTRY@ + requested(request.path_and_query),
        request.path_and_query matches Some(text) ==> forwarded.url@ == UPSTREAM_REGISTRY@ + text@,
        request.path_and_query is None ==> forwarded.url@ == UPSTREAM_REGISTRY@ + "/"@,
        header_views(forwarded.headers@) == forwarded_headers(header_views(request.headers@)),
        bytes_view(forwarded.body) == if request.body@.len() == 0 {
            None
        } else {
            Some(request.body@)
        },
        request.body@.len() == 0 ==> forwarded.body is None,
        request.body@.len() > 0 ==> (forwarded.body matches Some(body) && body@ == request.body@),
{
    let path_and_query: &str = match &request.path_and_query {
        Some(text) => text.as_str(),
        None => "/",
    };
    let url: String = UPSTREAM_REGISTRY.to_owned().concat(path_and_query);
    let mut names: Vec<String> = Vec::new();
    names.push("host".to_owned());
    assert(texts(names@) =~= seq!["host"@]);
    let headers: Vec<(String, Vec<u8>)> = leave_out(request.headers, &names);
    let body: Option<Vec<u8>> = if request.body.len() == 0 {
        None
    } else {
        Some(request.body)
    };
    Forwarded { method: request.method, url, headers, body }
}

/// The names of the headers that frame an answer on one connection.
pub open spec fn framing_names() -> Seq<Seq<char>> {
    seq!["connection"@, "keep-alive"@, "transfer-encoding"@, "content-length"@]
}

/// The headers that are passed back to the client: all but those that frame the answer on the
/// connection to the registry. The connection to the client has a frame of its own.
pub open spec fn relayed_headers(headers: Seq<(Seq<char>, Seq<u8>)>) -> Seq<
    (Seq<char>, Seq<u8>),
> {
    headers_without(headers, framing_names())
}

/// The reply to a request that was passed on.
pub fn relay(outcome: Outcome) -> (reply: Reply)
    ensures
        match outcome {
            Outcome::Failed(message) => reply@ == unreachable_reply(Seq::empty(), message@),
            Outcome::Answered { status, headers, body } => {
                &&& reply.status == relayed_status(status)
                &&& header_views(reply.headers@) == relayed_headers(header_views(headers@))
                &&& reply.body@ == body@
            },
        },
{
    match outcome {
        Outcome::Failed(message) => Reply {
            status: 502,
            headers: no_headers(),
            body: write_error("Upstream error: ", message.as_str()),
        },
        Outcome::Answered { status, headers, body } => {
            let mut names: Vec<String> = Vec::new();
            names.push("connection".to_owned());
            names.push("keep-alive".to_owned());
            names.push("transfer-encoding".to_owned());
            names.push("content-length".to_owned());
            assert(texts(names@) =~= framing_names());
            Reply {
                status: relay_status(status),
                headers: leave_out(headers, &names),
                body,
            }
        },
    }
}

/// Whether a failed connection is worth reporting: not where it was merely closed.
pub fn is_worth_reporting(message: &str) -> (worth: bool)
    ensures
        worth == !occurs_in("connection closed"@, message@),
{
    !contains_text(message, "connection closed")
}

/// What the registry is asked about is exactly what following the requirements comes upon: the
/// posted document lists a version of a package if and only if that version was found, or that
/// range was required of a package that is not installed.
pub proof fn law_query_asks_exactly(request: JsonView, name: Seq<char>, version: Seq<char>)
    ensures
        asked_in(canonical(packages_document(audit_of(request).packages)), name, version)
            <==> exists|i: int|
            0 <= i < all_visits(request).len() && calls_for(
                #[trigger] all_visits(request)[i],
                name,
                version,
            ),
{
    let packages = audit_of(request).packages;
    let fields = packages_document(packages)->Object_0;
    law_audit_well_formed(request);
    law_asked_iff_visited(request, name, version);
    assert(text_keys(fields) =~= text_keys(packages));
    law_canonical_keeps_fields(fields, name);
    lemma_slot(text_keys(packages), name);
    match lookup(packages, name) {
        Some(versions) => {
            let list = text_views(versions);
            assert(lookup(fields, name) == Some(JsonView::Array(list)));
            lemma_canonical_array(list);
            assert(canonical_items(list) =~= list);
            if versions.contains(version) {
                assert(list[versions.index_of(version)] == JsonView::Text(version));
            }
            if list.contains(JsonView::Text(version)) {
                assert(versions[list.index_of(JsonView::Text(version))] == version);
            }
        },
        None => {},
    }
}

/// Whether the document lists this version under this package.
pub open spec fn asked_in(document: JsonView, name: Seq<char>, version: Seq<char>) -> bool {
    match document.field(name) {
        Some(JsonView::Array(list)) => list.contains(JsonView::Text(version)),
        _ => false,
    }
}

proof fn lemma_headers_without(
    headers: Seq<(Seq<char>, Seq<u8>)>,
    names: Seq<Seq<char>>,
    header: (Seq<char>, Seq<u8>),
)
    ensures
        headers_without(headers, names).contains(header) <==> headers.contains(header)
            && !names.contains(header.0),
    decreases headers.len(),
{
    if headers.len() > 0 {
        let before = headers.drop_last();
        let kept = headers_without(before, names);
        let all = headers_without(headers, names);
        lemma_headers_without(before, names, header);
        assert(headers =~= before.push(headers.last()));
        if headers.contains(header) && header != headers.last() {
            assert(before[headers.index_of(header)] == header);
        }
        if before.contains(header) {
            assert(headers[before.index_of(header)] == header);
        }
        if kept.contains(header) {
            assert(all[kept.index_of(header)] == header);
        }
        if header == headers.last() {
            assert(headers[headers.len() - 1] == header);
            if !names.contains(header.0) {
                assert(all[kept.len() as int] == header);
            }
        }
        if all.contains(header) && !kept.contains(header) {
            assert(all.index_of(header) == kept.len());
        }
    }
}

proof fn lemma_headers_kept(headers: Seq<(Seq<char>, Seq<u8>)>, names: Seq<Seq<char>>)
    requires
        forall|i: int| 0 <= i < headers.len() ==> !names.contains((#[trigger] headers[i]).0),
    ensures
        headers_without(headers, names) == headers,
    decreases headers.len(),
{
    if headers.len() > 0 {
        let before = headers.drop_last();
        assert forall|i: int| 0 <= i < before.len() implies !names.contains(
            (#[trigger] before[i]).0,
        ) by {
            assert(before[i] == headers[i]);
        }
        lemma_headers_kept(before, names);
        assert(!names.contains(headers[headers.len() - 1].0));
        assert(before.push(headers.last()) =~= headers);
    }
}

/// Leaving headers out of a list takes the others as they come: what is left of two lists, one
/// behind the other, is what is left of the first and then what is left of the second.
pub proof fn law_headers_keep_their_order(
    first: Seq<(Seq<char>, Seq<u8>)>,
    rest: Seq<(Seq<char>, Seq<u8>)>,
    names: Seq<Seq<char>>,
)
    ensures
        headers_without(first + rest, names) == headers_without(first, names) + headers_without(
            rest,
            names,
        ),
    decreases rest.len(),
{
    if rest.len() == 0 {
        assert(first + rest =~= first);
        assert(headers_without(first, names) + rest =~= headers_without(first, names));
    } else {
        law_headers_keep_their_order(first, rest.drop_last(), names);
        assert((first + rest).drop_last() =~= first + rest.drop_last());
        assert((first + rest).last() == rest.last());
        assert(headers_without(first + rest, names) =~= headers_without(first, names)
            + headers_without(rest, names));
    }
}

/// A request is passed on with all of its headers but the host: none is added, and none of the
/// others is lost or changed.
pub proof fn law_headers_untouched(headers: Seq<(Seq<char>, Seq<u8>)>, header: (Seq<char>, Seq<u8>))
    ensures
        forwarded_headers(headers).contains(header) <==> headers.contains(header) && header.0
            != "host"@,
{
    lemma_headers_without(headers, seq!["host"@], header);
    assert(seq!["host"@][0] == "host"@);
}

/// Where no header names the host, the headers are passed on as they are, in their order.
pub proof fn law_headers_without_host_kept(headers: Seq<(Seq<char>, Seq<u8>)>)
    requires
        forall|i: int| 0 <= i < headers.len() ==> (#[trigger] headers[i]).0 != "host"@,
    ensures
        forwarded_headers(headers) == headers,
{
    lemma_headers_kept(headers, seq!["host"@]);
}

/// An answer is passed back with all of its headers but those that frame it on one connection:
/// none is added, and none of the others is lost or changed.
pub proof fn law_answer_headers_untouched(
    headers: Seq<(Seq<char>, Seq<u8>)>,
    header: (Seq<char>, Seq<u8>),
)
    ensures
        relayed_headers(headers).contains(header) <==> headers.contains(header) && header.0
            != "connection"@ && header.0 != "keep-alive"@ && header.0 != "transfer-encoding"@
            && header.0 != "content-length"@,
{
    let names = framing_names();
    lemma_headers_without(headers, names, header);
    assert(names[0] == "connection"@ && names[1] == "keep-alive"@);
    assert(names[2] == "transfer-encoding"@ && names[3] == "content-length"@);
}

/// Where no header frames the answer, the headers are passed back as they are, in their order.
pub proof fn law_answer_headers_without_frame_kept(headers: Seq<(Seq<char>, Seq<u8>)>)
    requires
        forall|i: int|
            0 <= i < headers.len() ==> !framing_names().contains((#[trigger] headers[i]).0),
    ensures
        relayed_headers(headers) == headers,
{
    lemma_headers_kept(headers, framing_names());
}

/// The port where none is given.
pub const DEFAULT_PORT: u16 = 4873;

/// Whether a text is made of decimal digits.
pub open spec fn all_digits(text: Seq<char>) -> bool {
    forall|i: int| 0 <= i < text.len() ==> '0' <= #[trigger] text[i] && text[i] <= '9'
}

/// The number that a text of decimal digits spells.
pub open spec fn digits_value(text: Seq<char>) -> nat
    decreases text.len(),
{
    if text.len() == 0 {
        0
    } else {
        (10 * digits_value(text.drop_last()) + (text.last() as int - '0' as int)) as nat
    }
}

/// The port that a text spells: decimal digits, with or without a plus sign before them, for a
/// number that is a port.
pub open spec fn port_of(text: Seq<char>) -> Option<u16> {
    let digits = if text.len() > 0 && text[0] == '+' {
        text.skip(1)
    } else {
        text
    };
    if digits.len() > 0 && all_digits(digits) && digits_value(digits) <= u16::MAX {
        Some(digits_value(digits) as u16)
    } else {
        None
    }
}

proof fn lemma_digits_grow(text: Seq<char>, n: int)
    requires
        0 <= n <= text.len(),
        all_digits(text),
    ensures
        digits_value(text.take(n)) <= digits_value(text),
    decreases text.len() - n,
{
    if n < text.len() {
        lemma_digits_grow(text, n + 1);
        assert(text.take(n + 1).drop_last() =~= text.take(n));
        assert(text.take(n + 1).last() == text[n]);
    } else {
        assert(text.take(n) =~= text);
    }
}

fn parse_port(text: &str) -> (port: Option<u16>)
    ensures
        port == port_of(text@),
{
    let chars: Vec<char> = characters(text);
    let start: usize = if chars.len() > 0 && chars[0] == '+' {
        1
    } else {
        0
    };
    let ghost digits = text@.skip(start as int);
    assert(text@.skip(0) =~= text@);
    if start == chars.len() {
        return None;
    }
    let mut value: u32 = 0;
    let mut i: usize = start;
    assert(digits.take(0) =~= Seq::empty());
    while i < chars.len()
        invariant
            start <= i <= chars@.len(),
            chars@ == text@,
            digits == text@.skip(start as int),
            digits.len() > 0,
            port_of(text@) == (if all_digits(digits) && digits_value(digits) <= u16::MAX {
                Some(digits_value(digits) as u16)
            } else {
                None
            }),
            value <= u16::MAX,
            all_digits(digits.take(i - start)),
            value == digits_value(digits.take(i - start)),
        decreases chars@.len() - i,
    {
        let c: char = chars[i];
        let ghost n = i - start;
        assert(digits[n] == c);
        if !('0' <= c && c <= '9') {
            return None;
        }
        proof {
            assert(digits.take(n + 1).drop_last() =~= digits.take(n));
            assert(digits.take(n + 1).last() == c);
            assert forall|k: int| 0 <= k < n + 1 implies '0' <= #[trigger] digits.take(n + 1)[k]
                && digits.take(n + 1)[k] <= '9' by {
                if k < n {
                    assert(digits.take(n)[k] == digits.take(n + 1)[k]);
                }
            }
        }
        value = 10 * value + (c as u32 - '0' as u32);
        if value > u16::MAX as u32 {
            proof {
                if all_digits(digits) {
                    lemma_digits_grow(digits, n + 1);
                }
            }
            return None;
        }
        i += 1;
    }
    assert(digits.take(i - start) =~= digits);
    Some(value as u16)
}

/// The port to listen on: the one that is asked for, where it is asked for properly.
pub fn listen_port(asked: Option<&str>) -> (port: u16)
    ensures
        port == (match asked {
            Some(text) => match port_of(text@) {
                Some(port) => port,
                None => DEFAULT_PORT,
            },
            None => DEFAULT_PORT,
        }),
{
    match asked {
        Some(text) => match parse_port(text) {
            Some(port) => port,
            None => DEFAULT_PORT,
        },
        None => DEFAULT_PORT,
    }
}

} // verus!
