//! What comes in and goes out: names, identifiers, scopes, messages and their limits, result objects.

use crate::caps;
use crate::caps::NodeIdError;
use crate::combine::GroupView;
use crate::dataset;
use crate::dataset::NameError;
use crate::digest;
use crate::engine::MapErrorView;
use crate::join;
use crate::json::{Cell, Json, JsonView, Num};
use crate::mesh;
use crate::mesh::{ReplyView, RequestView};
use crate::numbers::{blank, lemma_trimmed};
use crate::plan;
use crate::query::{AggView, QueryView};
use crate::report;
use crate::table;
use crate::text;
use crate::writing::white;
use vstd::prelude::*;
use vstd::string::*;
use vstd::utf8::*;

verus! {

/// A character that the name of a dataset may have.
pub open spec fn may_stand(c: char) -> bool {
    'a' <= c <= 'z' || 'A' <= c <= 'Z' || '0' <= c <= '9' || c == '_' || c == '-' || c == '.' || c == ':'
}

proof fn lemma_may_stand(c: char)
    ensures
        dataset::name_char(c) <==> may_stand(c),
        may_stand(c) ==> !white(c) && '\0' <= c <= '\u{7f}',
{
}

proof fn lemma_bad_character(s: Seq<char>)
    ensures
        dataset::bad_character(s) is None <==> forall|i: int| 0 <= i < s.len() ==> may_stand(#[trigger] s[i]),
        dataset::bad_character(s) matches Some(c) ==> exists|i: int|
            0 <= i < s.len() && #[trigger] s[i] == c && !may_stand(c) && forall|j: int|
                0 <= j < i ==> may_stand(#[trigger] s[j]),
    decreases s.len(),
{
    if s.len() > 0 {
        lemma_may_stand(s[0]);
        let rest = s.skip(1);
        lemma_bad_character(rest);
        if may_stand(s[0]) {
            assert forall|i: int| 0 <= i < rest.len() implies rest[i] == #[trigger] s[i + 1] by {}
            if dataset::bad_character(rest) is None {
                assert forall|i: int| 0 <= i < s.len() implies may_stand(#[trigger] s[i]) by {
                    if i > 0 {
                        assert(may_stand(rest[i - 1]));
                    }
                }
            } else {
                let c = dataset::bad_character(rest)->0;
                let i = choose|i: int|
                    0 <= i < rest.len() && #[trigger] rest[i] == c && !may_stand(c) && forall|j: int|
                        0 <= j < i ==> may_stand(#[trigger] rest[j]);
                assert(s[i + 1] == c);
                assert forall|j: int| 0 <= j < i + 1 implies may_stand(#[trigger] s[j]) by {
                    if j > 0 {
                        assert(may_stand(rest[j - 1]));
                    }
                }
            }
        }
    }
}

/// A dataset may be called by 1 to 128 letters, digits and `_ - . :`, and white space around them is
/// taken off.
pub proof fn lemma_good_name(a: Seq<char>, name: Seq<char>, b: Seq<char>)
    requires
        blank(a),
        blank(b),
        0 < name.len() <= 128,
        forall|i: int| 0 <= i < name.len() ==> may_stand(#[trigger] name[i]),
    ensures
        dataset::checked_name(a + name + b) == Ok::<Seq<char>, NameError>(name),
{
    lemma_may_stand(name[0]);
    lemma_may_stand(name.last());
    assert(may_stand(name[name.len() - 1]));
    lemma_trimmed(a, name, b);
    assert forall|i: int| 0 <= i < name.len() implies '\0' <= #[trigger] name[i] <= '\u{7f}' by {
        lemma_may_stand(name[i]);
    }
    is_ascii_chars_encode_utf8(name);
    lemma_bad_character(name);
}

/// A name is refused where there is nothing but white space, where it has more than 128 bytes, and where
/// it has another character, the first of which the error gives.
pub proof fn lemma_bad_name(a: Seq<char>, name: Seq<char>, b: Seq<char>)
    requires
        blank(a),
        blank(b),
        name.len() > 0 ==> !white(name[0]) && !white(name.last()),
    ensures
        name.len() == 0 ==> dataset::checked_name(a + name + b) == Err::<Seq<char>, NameError>(
            NameError::Empty,
        ),
        name.len() > 0 && encode_utf8(name).len() > 128 ==> dataset::checked_name(a + name + b) is Err
            && dataset::checked_name(a + name + b)->Err_0 is TooLong,
        name.len() > 0 && encode_utf8(name).len() <= 128 && (exists|i: int|
            0 <= i < name.len() && !may_stand(#[trigger] name[i])) ==> (dataset::checked_name(a + name + b)
            matches Err(NameError::BadCharacter(c)) && exists|i: int|
            0 <= i < name.len() && #[trigger] name[i] == c && !may_stand(c) && forall|j: int|
                0 <= j < i ==> may_stand(#[trigger] name[j])),
{
    lemma_trimmed(a, name, b);
    lemma_bad_character(name);
}

/// The hexadecimal digit of a number below 16.
pub open spec fn hex(d: int, loud: bool) -> char {
    if loud {
        "0123456789ABCDEF"@[d]
    } else {
        "0123456789abcdef"@[d]
    }
}

/// Bytes in hexadecimal, two digits each.
pub open spec fn hex_text(bytes: Seq<u8>, loud: bool) -> Seq<char> {
    Seq::new(
        2 * bytes.len(),
        |i: int|
            if i % 2 == 0 {
                hex(bytes[i / 2] as int / 16, loud)
            } else {
                hex(bytes[i / 2] as int % 16, loud)
            },
    )
}

proof fn lemma_hex(d: int, loud: bool)
    requires
        0 <= d < 16,
    ensures
        caps::hex_value(hex(d, loud)) == Some(d as u8),
        !white(hex(d, loud)),
{
    reveal_strlit("0123456789ABCDEF");
    reveal_strlit("0123456789abcdef");
}

/// A node is named by its 32 bytes in hexadecimal, in either case and with white space around them; as
/// many bytes as are not 32 are refused.
pub proof fn lemma_node_id(a: Seq<char>, bytes: Seq<u8>, loud: bool, b: Seq<char>)
    requires
        blank(a),
        blank(b),
    ensures
        bytes.len() == 32 ==> caps::node_id(a + hex_text(bytes, loud) + b) == Ok::<Seq<u8>, NodeIdError>(bytes),
        bytes.len() != 32 ==> caps::node_id(a + hex_text(bytes, loud) + b) == Err::<Seq<u8>, NodeIdError>(
            NodeIdError::WrongLength,
        ),
{
    let s = hex_text(bytes, loud);
    assert forall|i: int| 0 <= i < s.len() implies caps::hex_value(#[trigger] s[i]) is Some && !white(s[i]) by {
        lemma_hex(bytes[i / 2] as int / 16, loud);
        lemma_hex(bytes[i / 2] as int % 16, loud);
    }
    if s.len() > 0 {
        assert(!white(s[0]));
        assert(!white(s[s.len() - 1]));
    }
    lemma_trimmed(a, s, b);
    assert forall|i: int| 0 <= i < bytes.len() implies #[trigger] caps::hex_bytes(s)[i] == bytes[i] by {
        lemma_hex(bytes[i] as int / 16, loud);
        lemma_hex(bytes[i] as int % 16, loud);
        assert((2 * i) / 2 == i && (2 * i + 1) / 2 == i);
        assert(s[2 * i] == hex(bytes[i] as int / 16, loud));
        assert(s[2 * i + 1] == hex(bytes[i] as int % 16, loud));
    }
    assert(caps::hex_bytes(s) =~= bytes);
}

/// What is not pairs of hexadecimal digits names no node.
pub proof fn lemma_not_hex(a: Seq<char>, s: Seq<char>, b: Seq<char>, i: int)
    requires
        blank(a),
        blank(b),
        0 <= i < s.len(),
        !white(s[0]),
        !white(s.last()),
        s.len() % 2 == 1 || !('0' <= s[i] <= '9' || 'a' <= s[i] <= 'f' || 'A' <= s[i] <= 'F'),
    ensures
        caps::node_id(a + s + b) == Err::<Seq<u8>, NodeIdError>(NodeIdError::NotHex),
{
    lemma_trimmed(a, s, b);
    lemma_other(s[i]);
    if s.len() % 2 == 0 {
        assert(caps::hex_value(s[i]) is None);
    }
}

proof fn lemma_other(c: char)
    ensures
        caps::hex_value(c) is Some <==> '0' <= c <= '9' || 'a' <= c <= 'f' || 'A' <= c <= 'F',
{
}

/// Access to a dataset is granted exactly where the chain can be read and is found good, and its last
/// link is for all datasets or for this one.
pub proof fn lemma_access(
    chain: Result<Seq<Option<Seq<char>>>, Seq<char>>,
    authorized: Result<(), Seq<char>>,
    dataset: Seq<char>,
)
    ensures
        caps::access(chain, authorized, dataset) is Ok <==> {
            &&& authorized is Ok
            &&& chain matches Ok(links) && links.len() > 0 && (match links.last() {
                None => true,
                Some(scope) => scope.len() == 0 || scope == dataset,
            })
        },
        chain is Err ==> caps::access(chain, authorized, dataset) == Err::<(), Seq<char>>(chain->Err_0),
        chain is Ok && authorized is Err ==> caps::access(chain, authorized, dataset) == Err::<
            (),
            Seq<char>,
        >(authorized->Err_0),
{
}

/// A text holds another where that stands somewhere in it.
pub proof fn lemma_holds(before: Seq<char>, part: Seq<char>, after: Seq<char>, s: Seq<char>)
    ensures
        text::holds(before + part + after, part),
        text::holds(s, part) ==> exists|a: Seq<char>, b: Seq<char>| s == #[trigger] (a + part + b),
{
    let t = before + part + after;
    let i = before.len() as int;
    assert(t.subrange(i, i + part.len()) =~= part);
    if text::holds(s, part) {
        let k = choose|k: int|
            0 <= k <= s.len() - part.len() && #[trigger] s.subrange(k, k + part.len()) == part;
        let a = s.take(k);
        let b = s.skip(k + part.len());
        assert(s =~= a + part + b);
    }
}

/// A failed fetch that says `404` or `not found` is a missing shard, one that says `timeout` or
/// `timed out` and neither of these is a timeout, and any other is an error of the host.
pub proof fn lemma_fetch_errors(
    cid: Seq<char>,
    words: Seq<char>,
    lowered: Seq<char>,
    before: Seq<char>,
    after: Seq<char>,
)
    ensures
        lowered == before + "404"@ + after || lowered == before + "not found"@ + after ==> mesh::fetch_error(
            cid,
            words,
            lowered,
        ) == MapErrorView::MissingBlob(cid),
        !text::holds(lowered, "404"@) && !text::holds(lowered, "not found"@) && (lowered == before
            + "timeout"@ + after || lowered == before + "timed out"@ + after) ==> mesh::fetch_error(
            cid,
            words,
            lowered,
        ) == MapErrorView::Timeout,
        !text::holds(lowered, "404"@) && !text::holds(lowered, "not found"@) && !text::holds(
            lowered,
            "timeout"@,
        ) && !text::holds(lowered, "timed out"@) ==> mesh::fetch_error(cid, words, lowered)
            == MapErrorView::HostError(words),
        lowered == before + "504"@ + after || lowered == before + "timeout"@ + after || lowered == before
            + "timed out"@ + after ==> mesh::request_error(words, lowered) == MapErrorView::Timeout,
        !text::holds(lowered, "504"@) && !text::holds(lowered, "timeout"@) && !text::holds(
            lowered,
            "timed out"@,
        ) ==> mesh::request_error(words, lowered) == MapErrorView::HostError(words),
{
    lemma_holds(before, "404"@, after, lowered);
    lemma_holds(before, "not found"@, after, lowered);
    lemma_holds(before, "timeout"@, after, lowered);
    lemma_holds(before, "timed out"@, after, lowered);
    lemma_holds(before, "504"@, after, lowered);
}

/// What is over 32 MiB is refused, and a reply of over a million rows; a reply of the kind that was not
/// asked for is no answer, and neither is a failure.
pub proof fn lemma_replies(cid: Seq<char>, bytes: Seq<u8>, what: Seq<char>, n: nat, reply: ReplyView)
    ensures
        bytes.len() > 32 * 1024 * 1024 ==> mesh::blob_rows(cid, bytes) is Err,
        bytes.len() <= 32 * 1024 * 1024 ==> (match dataset::decoded(bytes) {
            Ok(rows) => mesh::blob_rows(cid, bytes) == Ok::<Seq<dataset::RowView>, MapErrorView>(rows),
            Err(_) => mesh::blob_rows(cid, bytes) matches Err(e) && e is Corrupt,
        }),
        mesh::sized(what, n) is Ok <==> n <= 32 * 1024 * 1024,
        mesh::reply_partial(reply) matches Ok(p) <==> reply is Answer && reply->Answer_0
            == mesh::reply_partial(reply)->Ok_0,
        mesh::reply_rows(reply) is Ok <==> reply is Rows && reply->Rows_0.len() <= 1_000_000,
        mesh::reply_rows(reply) matches Ok(rows) ==> rows == reply->Rows_0,
        reply matches ReplyView::Failure(e) ==> mesh::reply_partial(reply) == Err::<
            crate::combine::PartialView,
            MapErrorView,
        >(MapErrorView::HostError(e)),
{
}

/// A request is served exactly where it is authorized and its query is valid; what cannot be fetched or
/// read is answered by a failure, and a query for rows by rows, a query for aggregates by a partial result.
pub proof fn lemma_requests(
    req: RequestView,
    verdict: Result<(), Seq<char>>,
    fetched: Result<Seq<u8>, Seq<char>>,
)
    ensures
        mesh::admission(req.query, verdict) is Ok <==> verdict is Ok && req.query.validity() is Ok,
        fetched is Err ==> mesh::answered(req, fetched) is Failure,
        fetched matches Ok(bytes) ==> (dataset::decoded(bytes) is Err ==> mesh::answered(req, fetched) is Failure),
        mesh::answered(req, fetched) is Rows ==> req.query.projection is Some,
        mesh::answered(req, fetched) is Answer ==> req.query.projection is None,
        mesh::answered(req, fetched) matches ReplyView::Rows(rows) ==> rows == req.query.projected(
            dataset::decoded(fetched->Ok_0)->Ok_0,
        ),
{
}

/// A query can be run exactly where its dataset has a name, and it asks either for aggregates, grouped or
/// not, or for rows, which are not grouped.
pub proof fn lemma_valid(q: QueryView)
    ensures
        q.validity() is Ok <==> !blank(q.dataset) && (match q.projection {
            Some(_) => q.aggregates.len() == 0 && q.group_by.len() == 0,
            None => q.aggregates.len() > 0,
        }),
{
    crate::lines::lemma_blank(q.dataset);
}

/// Each output has the name of its function before that of its column, and no two outputs that differ have
/// one name.
#[verifier::rlimit(30)]
pub proof fn lemma_output_names(a: AggView, b: AggView, f: Seq<char>)
    ensures
        AggView::Count.column() == "count"@,
        AggView::Sum(f).column() == "sum_"@ + f,
        AggView::Min(f).column() == "min_"@ + f,
        AggView::Max(f).column() == "max_"@ + f,
        AggView::Avg(f).column() == "avg_"@ + f,
        a.column() == b.column() ==> a == b,
{
    reveal_strlit("count");
    reveal_strlit("sum_");
    reveal_strlit("min_");
    reveal_strlit("max_");
    reveal_strlit("avg_");
    if a.column() == b.column() {
        let (x, y) = (a.column(), b.column());
        assert(x[0] == y[0] && x[1] == y[1]);
        assert(x.skip(4) == y.skip(4));
        match a {
            AggView::Count => {},
            AggView::Sum(g) => {
                assert(x.skip(4) =~= g);
            },
            AggView::Min(g) => {
                assert(x.skip(4) =~= g);
            },
            AggView::Max(g) => {
                assert(x.skip(4) =~= g);
            },
            AggView::Avg(g) => {
                assert(x.skip(4) =~= g);
            },
        }
        match b {
            AggView::Count => {},
            AggView::Sum(g) => {
                assert(y.skip(4) =~= g);
            },
            AggView::Min(g) => {
                assert(y.skip(4) =~= g);
            },
            AggView::Max(g) => {
                assert(y.skip(4) =~= g);
            },
            AggView::Avg(g) => {
                assert(y.skip(4) =~= g);
            },
        }
    }
}

proof fn lemma_key_columns(group_by: Seq<Seq<char>>, key: Seq<Seq<char>>, n: nat, i: int, c: Seq<char>)
    requires
        n <= group_by.len(),
    ensures
        report::key_columns(group_by, key, n).dom().contains(c) <==> group_by.take(n as int).contains(c),
        0 <= i < n && (forall|j: int| i < j < n ==> #[trigger] group_by[j] != group_by[i])
            ==> report::key_columns(group_by, key, n)[group_by[i]] == JsonView::String(
            if i < key.len() {
                key[i]
            } else {
                Seq::empty()
            },
        ),
    decreases n,
{
    if n == 0 {
        assert(group_by.take(0) =~= Seq::<Seq<char>>::empty());
    } else {
        lemma_key_columns(group_by, key, (n - 1) as nat, i, c);
        let now = group_by.take(n as int);
        let before = group_by.take(n - 1);
        assert(now =~= before.push(group_by[n - 1]));
        if before.contains(c) {
            let k = before.index_of(c);
            assert(now[k] == c);
        }
        if c == group_by[n - 1] {
            assert(now[n - 1] == c);
        }
        if now.contains(c) && c != group_by[n - 1] {
            let k = now.index_of(c);
            assert(before[k] == c);
        }
        if 0 <= i < n - 1 && (forall|j: int| i < j < n ==> #[trigger] group_by[j] != group_by[i]) {
            assert(group_by[n - 1] != group_by[i]);
        }
    }
}

/// A result row as an object has its outputs under their names, the parts of its key under the columns
/// that it is grouped by, unless an output is called so, and nothing else.
pub proof fn lemma_result_object(group_by: Seq<Seq<char>>, g: GroupView, i: int, c: Seq<char>)
    ensures
        report::object_of(group_by, g).dom().contains(c) <==> g.values.dom().contains(c)
            || group_by.contains(c),
        g.values.dom().contains(c) ==> report::object_of(group_by, g)[c] == g.values[c],
        0 <= i < group_by.len() && i < g.key.len() && !g.values.dom().contains(group_by[i]) && (forall|j: int|
            i < j < group_by.len() ==> #[trigger] group_by[j] != group_by[i]) ==> report::object_of(
            group_by,
            g,
        )[group_by[i]] == JsonView::String(g.key[i]),
{
    lemma_key_columns(group_by, g.key, group_by.len(), i, c);
    assert(group_by.take(group_by.len() as int) =~= group_by);
    if 0 <= i < group_by.len() {
        lemma_key_columns(group_by, g.key, group_by.len(), i, group_by[i]);
        assert(group_by.contains(group_by[i]));
    }
}

proof fn lemma_encoded(a: Seq<char>, b: Seq<char>)
    ensures
        encode_utf8(a + b) == encode_utf8(a) + encode_utf8(b),
    decreases a.len(),
{
    if a.len() == 0 {
        assert(a + b =~= b);
        assert(encode_utf8(a) + encode_utf8(b) =~= encode_utf8(b));
    } else {
        lemma_encoded(a.drop_first(), b);
        assert((a + b).drop_first() =~= a.drop_first() + b);
        let first = encode_scalar(a[0] as u32);
        assert(first + (encode_utf8(a.drop_first()) + encode_utf8(b)) =~= first + encode_utf8(a.drop_first())
            + encode_utf8(b));
    }
}

/// The score of a host for a shard is that of the text of both with a bar between them: the first eight
/// bytes of its SHA-256 digest, the first one the most significant.
pub proof fn lemma_score(cid: Seq<char>, host: Seq<char>)
    ensures
        ({
            let d = digest::sha256_of(encode_utf8(cid + "|"@ + host));
            plan::host_score(cid, host) == ((((((d[0] * 256 + d[1]) * 256 + d[2]) * 256 + d[3]) * 256 + d[4])
                * 256 + d[5]) * 256 + d[6]) * 256 + d[7]
        }),
{
    lemma_encoded(cid + "|"@, host);
    lemma_encoded(cid, "|"@);
    assert(plan::score_bytes(cid, host) == encode_utf8(cid + "|"@ + host));
    reveal_with_fuel(digest::big_endian, 9);
}

/// The bucket of a key among `n` is that score of its text, modulo `n`.
pub proof fn lemma_bucket_of(key: Seq<char>, n: nat)
    requires
        n > 0,
    ensures
        ({
            let d = digest::sha256_of(encode_utf8(key));
            join::bucket_of(key, n) == (((((((d[0] * 256 + d[1]) * 256 + d[2]) * 256 + d[3]) * 256 + d[4])
                * 256 + d[5]) * 256 + d[6]) * 256 + d[7]) % (n as int)
        }),
{
    reveal_with_fuel(digest::big_endian, 9);
}

/// Lists of strings are ordered by the first entry in which they differ, and one that another starts with
/// comes before it.
pub proof fn lemma_key_order(start: Seq<Seq<char>>, a: Seq<Seq<char>>, b: Seq<Seq<char>>)
    requires
        a.len() == 0 || b.len() == 0 || a[0] != b[0],
    ensures
        table::list_precedes(start + a, start + b) <==> b.len() > 0 && (a.len() == 0 || text::precedes(
            a[0],
            b[0],
        )),
    decreases start.len(),
{
    if start.len() == 0 {
        assert(start + a =~= a);
        assert(start + b =~= b);
    } else {
        let rest = start.skip(1);
        lemma_key_order(rest, a, b);
        assert((start + a).skip(1) =~= rest + a);
        assert((start + b).skip(1) =~= rest + b);
    }
}

/// Of a list of revocations those are kept whose node is named as it should be, in their order, each with
/// its time. The result are their places.
pub proof fn lemma_revocations(list: Seq<(Seq<char>, u64)>) -> (places: Seq<int>)
    ensures
        places.len() == mesh::valid_revocations(list).len(),
        forall|n: int|
            0 <= n < places.len() ==> 0 <= #[trigger] places[n] < list.len() && caps::node_id(
                list[places[n]].0,
            ) == Ok::<Seq<u8>, NodeIdError>(mesh::valid_revocations(list)[n].0) && mesh::valid_revocations(
                list,
            )[n].1 == list[places[n]].1,
        forall|m: int, n: int| 0 <= m < n < places.len() ==> #[trigger] places[m] < #[trigger] places[n],
        forall|i: int|
            0 <= i < list.len() && caps::node_id((#[trigger] list[i]).0) is Ok ==> places.contains(i),
    decreases list.len(),
{
    if list.len() == 0 {
        Seq::empty()
    } else {
        let rest = list.drop_last();
        let end = list.len() - 1;
        let before = lemma_revocations(rest);
        assert forall|n: int| 0 <= n < before.len() implies 0 <= #[trigger] before[n] < rest.len()
            && rest[before[n]] == list[before[n]] by {}
        let places = if caps::node_id(list.last().0) is Ok {
            before.push(end)
        } else {
            before
        };
        assert forall|i: int| 0 <= i < list.len() && caps::node_id((#[trigger] list[i]).0) is Ok implies places.contains(
        i) by {
            if i < end {
                assert(rest[i] == list[i]);
                let n = before.index_of(i);
                assert(before.contains(i));
                assert(places[n] == i);
            } else {
                assert(places[before.len() as int] == i);
            }
        }
        places
    }
}

/// Values stand for what they are.
pub proof fn lemma_values_are_kept(b: bool, n: Num, s: String, c: Cell)
    ensures
        Json::Null.deep_view() == JsonView::Null,
        Json::Bool(b).deep_view() == JsonView::Bool(b),
        Json::Number(n).deep_view() == JsonView::Number(n),
        Json::String(s).deep_view() == JsonView::String(s@),
        Json::Array(s).deep_view() == JsonView::Array(s@),
        Json::Object(s).deep_view() == JsonView::Object(s@),
        c.deep_view().value == c.value.deep_view(),
        c.deep_view().text == c.text@,
{
}

/// What is said of a run: its numbers, each before what it counts.
pub proof fn lemma_run_lines(a: nat, b: nat, c: nat, d: nat)
    ensures
        report::run_line(a, b, c, d) == "["@ + text::decimal_text(a) + " shard(s), "@ + text::decimal_text(b)
            + " attempt(s), "@ + text::decimal_text(c) + " redistributed, "@ + text::decimal_text(d)
            + " verified]"@,
        report::rows_line(a, b, c, false) == "["@ + text::decimal_text(a) + " shard(s), "@
            + text::decimal_text(b) + " attempt(s), "@ + text::decimal_text(c) + " row(s)]"@,
        report::rows_line(a, b, c, true) == "["@ + text::decimal_text(a) + " shard(s), "@
            + text::decimal_text(b) + " attempt(s), "@ + text::decimal_text(c) + " row(s), truncated]"@,
{
    let p = seq![
        "["@,
        text::decimal_text(a),
        " shard(s), "@,
        text::decimal_text(b),
        " attempt(s), "@,
        text::decimal_text(c),
    ];
    lemma_glued_six(p);
    lemma_glued_push(p, " redistributed, "@);
    let q = p.push(" redistributed, "@);
    lemma_glued_push(q, text::decimal_text(d));
    lemma_glued_push(q.push(text::decimal_text(d)), " verified]"@);
    assert(q.push(text::decimal_text(d)).push(" verified]"@) =~= seq![
        "["@,
        text::decimal_text(a),
        " shard(s), "@,
        text::decimal_text(b),
        " attempt(s), "@,
        text::decimal_text(c),
        " redistributed, "@,
        text::decimal_text(d),
        " verified]"@,
    ]);
    lemma_glued_push(p, " row(s)]"@);
    lemma_glued_push(p, " row(s), truncated]"@);
    assert(p.push(" row(s)]"@) =~= seq![
        "["@,
        text::decimal_text(a),
        " shard(s), "@,
        text::decimal_text(b),
        " attempt(s), "@,
        text::decimal_text(c),
        " row(s)]"@,
    ]);
    assert(p.push(" row(s), truncated]"@) =~= seq![
        "["@,
        text::decimal_text(a),
        " shard(s), "@,
        text::decimal_text(b),
        " attempt(s), "@,
        text::decimal_text(c),
        " row(s), truncated]"@,
    ]);
}

proof fn lemma_glued_push(p: Seq<Seq<char>>, s: Seq<char>)
    ensures
        text::glued(p.push(s)) == text::glued(p) + s,
{
    assert(p.push(s).drop_last() =~= p);
}

proof fn lemma_glued_six(p: Seq<Seq<char>>)
    requires
        p.len() == 6,
    ensures
        text::glued(p) == p[0] + p[1] + p[2] + p[3] + p[4] + p[5],
{
    let none = Seq::<Seq<char>>::empty();
    lemma_glued_push(none, p[0]);
    assert(Seq::<char>::empty() + p[0] =~= p[0]);
    lemma_glued_push(none.push(p[0]), p[1]);
    lemma_glued_push(none.push(p[0]).push(p[1]), p[2]);
    lemma_glued_push(none.push(p[0]).push(p[1]).push(p[2]), p[3]);
    lemma_glued_push(none.push(p[0]).push(p[1]).push(p[2]).push(p[3]), p[4]);
    lemma_glued_push(none.push(p[0]).push(p[1]).push(p[2]).push(p[3]).push(p[4]), p[5]);
    assert(p =~= none.push(p[0]).push(p[1]).push(p[2]).push(p[3]).push(p[4]).push(p[5]));
}

/// Texts are put together one after another.
pub proof fn lemma_glued(a: Seq<Seq<char>>, b: Seq<Seq<char>>, s: Seq<char>)
    ensures
        text::glued(a + b) == text::glued(a) + text::glued(b),
        text::glued(seq![s]) == s,
        text::glued(Seq::empty()) == Seq::<char>::empty(),
    decreases b.len(),
{
    let none = Seq::<Seq<char>>::empty();
    lemma_glued_push(none, s);
    assert(none.push(s) =~= seq![s]);
    assert(Seq::<char>::empty() + s =~= s);
    if b.len() == 0 {
        assert(a + b =~= a);
        assert(text::glued(a) + text::glued(b) =~= text::glued(a));
    } else {
        lemma_glued(a, b.drop_last(), s);
        assert((a + b).drop_last() =~= a + b.drop_last());
        assert(text::glued(a) + text::glued(b.drop_last()) + b.last() =~= text::glued(a) + (text::glued(
            b.drop_last(),
        ) + b.last()));
    }
}

/// Hosts are listed with commas between them.
pub proof fn lemma_listed(a: Seq<Seq<char>>, s: Seq<char>)
    ensures
        report::listed(Seq::empty()) == Seq::<char>::empty(),
        report::listed(seq![s]) == s,
        a.len() > 0 ==> report::listed(a.push(s)) == report::listed(a) + ", "@ + s,
{
    assert(a.push(s).drop_last() =~= a);
    let x = report::listed(a);
    let none = Seq::<Seq<char>>::empty();
    lemma_glued_push(none, x);
    assert(Seq::<char>::empty() + x =~= x);
    lemma_glued_push(none.push(x), ", "@);
    lemma_glued_push(none.push(x).push(", "@), s);
    assert(none.push(x).push(", "@).push(s) =~= seq![x, ", "@, s]);
}

} // verus!
