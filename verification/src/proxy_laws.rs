//! What the proxy asks for and replies, in so many words.
use crate::audit::audit_of;
use crate::codec::{canonical, json_text};
use crate::json::JsonView;
use crate::proxy::{
    all_digits, digits_value, invalid_reply, is_audit, is_query_for, json_headers,
    packages_document, port_of, relayed_status, requested, succeeds, unreachable_reply, BulkQuery,
    Reply, BULK_ADVISORY_PATH, UPSTREAM_REGISTRY,
};
use crate::table::{lemma_slot, lookup, text_keys};
use crate::text::{decimal, law_decimal_by_digits};
use vstd::prelude::*;
use vstd::utf8::encode_utf8;

verus! {

/// An audit request is one that posts to the one path or the other, and nothing else is.
pub proof fn law_audit_requests(method: Seq<char>, path: Seq<char>)
    ensures
        is_audit(method, path) <==> method == "POST"@ && (path == "/-/npm/v1/security/audits"@
            || path == "/-/npm/v1/security/audits/quick"@),
{
    reveal_strlit("/-/npm/v1/security/audits");
    reveal_strlit("/quick");
    reveal_strlit("/-/npm/v1/security/audits/quick");
    assert("/-/npm/v1/security/audits"@ + "/quick"@ =~= "/-/npm/v1/security/audits/quick"@);
}

/// Every status of three digits is passed on as it is, and any other number becomes that of a bad
/// gateway. Success is what starts with a two.
pub proof fn law_statuses(status: u16)
    ensures
        100 <= status <= 999 ==> relayed_status(status) == status,
        status < 100 || status > 999 ==> relayed_status(status) == 502,
        succeeds(status) <==> status / 100 == 2,
{
}

/// What is replied where a request cannot be read, or the registry cannot be reached: the message,
/// in an object under "error".
pub proof fn law_error_replies(message: Seq<char>, headers: Seq<(Seq<char>, Seq<u8>)>)
    ensures
        invalid_reply(message).status == 400,
        invalid_reply(message).headers.len() == 0,
        invalid_reply(message).body == encode_utf8(
            "{\"error\": \"Invalid JSON: "@ + message + "\"}"@,
        ),
        unreachable_reply(headers, message).status == 502,
        unreachable_reply(headers, message).headers == headers,
        unreachable_reply(headers, message).body == encode_utf8(
            "{\"error\": \"Upstream error: "@ + message + "\"}"@,
        ),
        json_headers().len() == 1,
        json_headers()[0] == ("content-type"@, encode_utf8("application/json"@)),
{
    reveal_strlit("{\"error\": \"");
    reveal_strlit("Invalid JSON: ");
    reveal_strlit("Upstream error: ");
    reveal_strlit("{\"error\": \"Invalid JSON: ");
    reveal_strlit("{\"error\": \"Upstream error: ");
    assert("{\"error\": \""@ + "Invalid JSON: "@ =~= "{\"error\": \"Invalid JSON: "@);
    assert("{\"error\": \""@ + "Upstream error: "@ =~= "{\"error\": \"Upstream error: "@);
}

/// A reply says what it holds.
pub proof fn law_reply(reply: Reply)
    ensures
        reply@.status == reply.status,
        reply@.body == reply.body@,
        reply@.headers.len() == reply.headers@.len(),
        forall|i: int|
            0 <= i < reply.headers@.len() ==> #[trigger] reply@.headers[i] == (
                reply.headers@[i].0@,
                reply.headers@[i].1@,
            ),
{
}

/// The registry is asked for its advisories with a document that has each package once, with all
/// of its versions in their order, and nothing else.
pub proof fn law_packages_asked_about(
    packages: Seq<(Seq<char>, Seq<Seq<char>>)>,
    name: Seq<char>,
)
    ensures
        packages_document(packages) matches JsonView::Object(fields) && fields.len()
            == packages.len(),
        match lookup(packages, name) {
            Some(versions) => packages_document(packages).field(name) matches Some(
                JsonView::Array(list),
            ) && list.len() == versions.len() && forall|i: int|
                0 <= i < versions.len() ==> #[trigger] list[i] == JsonView::Text(versions[i]),
            None => packages_document(packages).field(name) is None,
        },
{
    let fields = packages_document(packages)->Object_0;
    assert(text_keys(fields) =~= text_keys(packages));
    lemma_slot(text_keys(packages), name);
}

/// A query goes to the registry's advisories, and posts the packages of the audit of the request.
pub proof fn law_query(query: BulkQuery, request: JsonView)
    requires
        is_query_for(query, request),
    ensures
        query.url@ == UPSTREAM_REGISTRY@ + BULK_ADVISORY_PATH@,
        query.audit@ == audit_of(request),
        query.body@ == json_text(canonical(packages_document(query.audit@.packages))),
{
}

/// What is asked of the registry is the path and the query of the request, to the letter.
pub proof fn law_path_and_query_untouched(text: String)
    ensures
        requested(Some(text)) == text@,
        requested(None) == "/"@,
{
}

/// A digit more behind the digits of a port makes ten times as much and the digit, as long as that
/// is a port; one behind digits that are more than a port is no port either.
pub proof fn law_port_by_digits(text: Seq<char>, c: char)
    requires
        text.len() > 0,
        all_digits(text),
        '0' <= c <= '9',
    ensures
        port_of(text.push(c)) == (match port_of(text) {
            Some(port) => if 10 * port + (c as int - '0' as int) <= u16::MAX {
                Some((10 * port + (c as int - '0' as int)) as u16)
            } else {
                None
            },
            None => None,
        }),
{
    let more = text.push(c);
    assert(more.drop_last() =~= text);
    assert(all_digits(more));
    assert(text[0] != '+' && more[0] != '+');
}

/// A single digit is the port of its value.
pub proof fn law_port_of_digit(c: char)
    requires
        '0' <= c <= '9',
    ensures
        port_of(seq![c]) == Some((c as int - '0' as int) as u16),
{
    reveal_with_fuel(digits_value, 2);
    assert(seq![c].drop_last() =~= Seq::empty());
}

/// A plus sign before the digits changes nothing. Without digits, or with anything else among
/// them, there is no port.
pub proof fn law_port_needs_digits(text: Seq<char>)
    ensures
        text.len() > 0 && text[0] != '+' ==> port_of(seq!['+'] + text) == port_of(text),
        port_of(Seq::empty()) is None,
        port_of(seq!['+']) is None,
        (exists|i: int| 0 <= i < text.len() && (i > 0 || text[i] != '+') && !('0'
            <= #[trigger] text[i] && text[i] <= '9')) ==> port_of(text) is None,
{
    assert((seq!['+'] + text).skip(1) =~= text);
    assert(seq!['+'].skip(1) =~= Seq::empty());
    if exists|i: int|
        0 <= i < text.len() && (i > 0 || text[i] != '+') && !('0' <= #[trigger] text[i] && text[i]
            <= '9') {
        let i = choose|i: int|
            0 <= i < text.len() && (i > 0 || text[i] != '+') && !('0' <= #[trigger] text[i]
                && text[i] <= '9');
        if text[0] == '+' {
            assert(text.skip(1)[i - 1] == text[i]);
        }
    }
}

/// The numeral of a port is read as that port.
pub proof fn law_port_reads_numeral(port: u16)
    ensures
        port_of(decimal(port as nat)) == Some(port),
{
    lemma_numeral_value(port as nat);
    let text = decimal(port as nat);
    assert(text[0] != '+');
}

proof fn lemma_numeral_value(n: nat)
    ensures
        decimal(n).len() > 0,
        all_digits(decimal(n)),
        digits_value(decimal(n)) == n,
    decreases n,
{
    let d = n % 10;
    law_decimal_by_digits(n / 10, d);
    let last = decimal(d);
    if n >= 10 {
        lemma_numeral_value(n / 10);
        assert(decimal(n) =~= decimal(n / 10).push(last[0])) by {
            assert(10 * (n / 10) + d == n);
        }
        assert(decimal(n).drop_last() =~= decimal(n / 10));
        assert forall|i: int| 0 <= i < decimal(n).len() implies '0' <= #[trigger] decimal(n)[i]
            && decimal(n)[i] <= '9' by {
            if i < decimal(n / 10).len() {
                assert(decimal(n)[i] == decimal(n / 10)[i]);
            }
        }
    } else {
        reveal_with_fuel(digits_value, 2);
        assert(decimal(n).drop_last() =~= Seq::empty());
    }
}

} // verus!
