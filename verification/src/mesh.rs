//! What a coordinator and a map agent say to each other, and what each makes of it.

use crate::caps::parse_node_id;
use crate::caps;
use crate::combine::{Partial, PartialView};
use crate::dataset;
use crate::dataset::{compute_stats, decode_shard, Dataset, DatasetView, Row, RowView, Shard, ShardView};
use crate::engine::{MapError, MapErrorView};
use crate::query::{Query, QueryView};
use crate::table;
use crate::table::Table;
use crate::text;
use crate::text::{chars_of, contains, equal, glue, write_decimal};
use vstd::prelude::*;
use vstd::string::*;

verus! {

/// The service that a map agent advertises.
pub const QUERY_SERVICE: &'static str = "ce-query";

/// The topic on which map requests travel.
pub const MAP_TOPIC: &'static str = "ce-query/map/1";

/// The most bytes that a request, a reply or a shard may have.
pub const MAX_MAP_PAYLOAD_BYTES: usize = 33_554_432;

/// The most rows that a reply may have.
pub const MAX_PROJECTION_ROWS: usize = 1_000_000;

/// A request to map a shard: the query, the shard, and a token that permits it.
#[derive(Debug, Clone, PartialEq)]
pub struct MapRequest {
    pub query: Query,
    pub shard: Shard,
    pub grant: Option<String>,
}

/// What a [`MapRequest`] stands for.
pub struct RequestView {
    pub query: QueryView,
    pub shard: ShardView,
    pub grant: Option<Seq<char>>,
}

impl DeepView for MapRequest {
    type V = RequestView;

    open spec fn deep_view(&self) -> RequestView {
        RequestView {
            query: self.query.deep_view(),
            shard: self.shard.deep_view(),
            grant: self.grant.deep_view(),
        }
    }
}

/// The reply to a request.
#[derive(Debug, Clone, PartialEq)]
pub enum MapReply {
    /// The partial result of the shard.
    Answer(Partial),
    /// The rows of the shard.
    Rows(Vec<Row>),
    /// Why there is neither.
    Failure(String),
}

/// What a [`MapReply`] stands for.
pub enum ReplyView {
    Answer(PartialView),
    Rows(Seq<RowView>),
    Failure(Seq<char>),
}

impl DeepView for MapReply {
    type V = ReplyView;

    open spec fn deep_view(&self) -> ReplyView {
        match self {
            MapReply::Answer(p) => ReplyView::Answer(p.deep_view()),
            MapReply::Rows(r) => ReplyView::Rows(r.deep_view()),
            MapReply::Failure(e) => ReplyView::Failure(e@),
        }
    }
}

/// Strings one after another.
fn glue3(a: &str, b: &str, c: &str) -> (r: String)
    ensures
        r@ == text::glued(seq![a@, b@, c@]),
{
    let parts: Vec<String> = vec![a.to_owned(), b.to_owned(), c.to_owned()];
    proof {
        assert(parts.deep_view() =~= seq![a@, b@, c@]);
    }
    glue(&parts)
}

/// The words for a shard that has too many bytes.
pub open spec fn large_shard(cid: Seq<char>, n: nat) -> Seq<char> {
    text::glued(
        seq![
            "shard "@,
            cid,
            text::glued(
                seq![" is "@, text::decimal_text(n), " bytes, exceeds the 33554432-byte scan limit"@],
            ),
        ],
    )
}

fn write_large_shard(cid: &str, n: usize) -> (r: String)
    ensures
        r@ == large_shard(cid@, n as nat),
{
    let rest: String = glue3(
        " is ",
        write_decimal(n as u128).as_str(),
        " bytes, exceeds the 33554432-byte scan limit",
    );
    glue3("shard ", cid, rest.as_str())
}

/// The rows of the bytes that were fetched for a shard.
pub open spec fn blob_rows(cid: Seq<char>, bytes: Seq<u8>) -> Result<Seq<RowView>, MapErrorView> {
    if bytes.len() > MAX_MAP_PAYLOAD_BYTES {
        Err(MapErrorView::HostError(large_shard(cid, bytes.len())))
    } else {
        match dataset::decoded(bytes) {
            Ok(rows) => Ok(rows),
            Err(e) => Err(MapErrorView::Corrupt(e.words())),
        }
    }
}

/// The rows of the bytes that were fetched for a shard.
pub fn rows_of_blob(cid: &str, bytes: &[u8]) -> (r: Result<Vec<Row>, MapError>)
    ensures
        blob_rows(cid@, bytes@) == (match r {
            Ok(rows) => Ok::<Seq<RowView>, MapErrorView>(rows.deep_view()),
            Err(e) => Err(e.deep_view()),
        }),
{
    if bytes.len() > MAX_MAP_PAYLOAD_BYTES {
        return Err(MapError::HostError(write_large_shard(cid, bytes.len())));
    }
    match decode_shard(bytes) {
        Ok(rows) => Ok(rows),
        Err(e) => Err(MapError::Corrupt(e.message())),
    }
}

/// Whether a request or a reply of so many bytes may be sent or read.
pub open spec fn sized(what: Seq<char>, n: nat) -> Result<(), MapErrorView> {
    if n > MAX_MAP_PAYLOAD_BYTES {
        Err(
            MapErrorView::HostError(
                text::glued(
                    seq![what, text::decimal_text(n), " bytes, exceeds the 33554432-byte limit"@],
                ),
            ),
        )
    } else {
        Ok(())
    }
}

fn check_size(what: &str, n: usize) -> (r: Result<(), MapError>)
    ensures
        sized(what@, n as nat) == (match r {
            Ok(()) => Ok::<(), MapErrorView>(()),
            Err(e) => Err(e.deep_view()),
        }),
{
    if n > MAX_MAP_PAYLOAD_BYTES {
        Err(
            MapError::HostError(
                glue3(
                    what,
                    write_decimal(n as u128).as_str(),
                    " bytes, exceeds the 33554432-byte limit",
                ),
            ),
        )
    } else {
        Ok(())
    }
}

/// Whether a request of so many bytes may be sent.
pub fn check_request_size(n: usize) -> (r: Result<(), MapError>)
    ensures
        sized("map request is "@, n as nat) == (match r {
            Ok(()) => Ok::<(), MapErrorView>(()),
            Err(e) => Err(e.deep_view()),
        }),
{
    check_size("map request is ", n)
}

/// Whether a reply of so many bytes is read.
pub fn check_reply_size(n: usize) -> (r: Result<(), MapError>)
    ensures
        sized("map reply is "@, n as nat) == (match r {
            Ok(()) => Ok::<(), MapErrorView>(()),
            Err(e) => Err(e.deep_view()),
        }),
{
    check_size("map reply is ", n)
}

/// The words for too many rows.
pub open spec fn many_rows(what: Seq<char>, n: nat) -> Seq<char> {
    text::glued(seq![what, text::decimal_text(n), " rows, exceeds the 1000000-row limit"@])
}

fn write_many_rows(what: &str, n: usize) -> (r: String)
    ensures
        r@ == many_rows(what@, n as nat),
{
    glue3(what, write_decimal(n as u128).as_str(), " rows, exceeds the 1000000-row limit")
}

/// What a coordinator makes of a reply to a query for aggregates.
pub open spec fn reply_partial(reply: ReplyView) -> Result<PartialView, MapErrorView> {
    match reply {
        ReplyView::Answer(p) => Ok(p),
        ReplyView::Rows(_) => Err(
            MapErrorView::Corrupt("host returned rows for an aggregate query"@),
        ),
        ReplyView::Failure(e) => Err(MapErrorView::HostError(e)),
    }
}

/// What a coordinator makes of a reply to a query for aggregates.
pub fn accept_partial(reply: MapReply) -> (r: Result<Partial, MapError>)
    ensures
        reply_partial(reply.deep_view()) == (match r {
            Ok(p) => Ok::<PartialView, MapErrorView>(p.deep_view()),
            Err(e) => Err(e.deep_view()),
        }),
{
    match reply {
        MapReply::Answer(p) => Ok(p),
        MapReply::Rows(_) => Err(
            MapError::Corrupt("host returned rows for an aggregate query".to_owned()),
        ),
        MapReply::Failure(e) => Err(MapError::HostError(e)),
    }
}

/// What a coordinator makes of a reply to a query for rows.
pub open spec fn reply_rows(reply: ReplyView) -> Result<Seq<RowView>, MapErrorView> {
    match reply {
        ReplyView::Rows(rows) => if rows.len() > MAX_PROJECTION_ROWS {
            Err(MapErrorView::HostError(many_rows("projection reply has "@, rows.len())))
        } else {
            Ok(rows)
        },
        ReplyView::Answer(_) => Err(
            MapErrorView::Corrupt("host returned a partial for a projection query"@),
        ),
        ReplyView::Failure(e) => Err(MapErrorView::HostError(e)),
    }
}

/// What a coordinator makes of a reply to a query for rows.
pub fn accept_rows(reply: MapReply) -> (r: Result<Vec<Row>, MapError>)
    ensures
        reply_rows(reply.deep_view()) == (match r {
            Ok(rows) => Ok::<Seq<RowView>, MapErrorView>(rows.deep_view()),
            Err(e) => Err(e.deep_view()),
        }),
{
    match reply {
        MapReply::Rows(rows) => {
            assert(rows.deep_view().len() == rows@.len());
            let n: usize = rows.len();
            if n > MAX_PROJECTION_ROWS {
                Err(MapError::HostError(write_many_rows("projection reply has ", n)))
            } else {
                Ok(rows)
            }
        },
        MapReply::Answer(_) => Err(
            MapError::Corrupt("host returned a partial for a projection query".to_owned()),
        ),
        MapReply::Failure(e) => Err(MapError::HostError(e)),
    }
}

/// Why an agent does not serve a request, if it does not; `verdict` is whether the requester may ask.
pub open spec fn admission(q: QueryView, verdict: Result<(), Seq<char>>) -> Result<(), Seq<char>> {
    match verdict {
        Err(reason) => Err(text::glued(seq!["unauthorized: "@, reason, ""@])),
        Ok(()) => match q.validity() {
            Err(e) => Err(text::glued(seq!["invalid query: "@, e.words(), ""@])),
            Ok(()) => Ok(()),
        },
    }
}

/// Whether an agent serves a request. A request that is refused costs no fetch.
pub fn screen(req: &MapRequest, verdict: Result<(), String>) -> (r: Result<(), String>)
    ensures
        admission(
            req.deep_view().query,
            match verdict {
                Ok(()) => Ok(()),
                Err(e) => Err(e@),
            },
        ) == (match r {
            Ok(()) => Ok::<(), Seq<char>>(()),
            Err(e) => Err(e@),
        }),
{
    if let Err(reason) = verdict {
        return Err(glue3("unauthorized: ", reason.as_str(), ""));
    }
    if let Err(e) = req.query.validate() {
        return Err(glue3("invalid query: ", e.message().as_str(), ""));
    }
    Ok(())
}

/// The reply to a request that is served; `fetched` are the bytes of its shard, or why there are
/// none.
pub open spec fn answered(req: RequestView, fetched: Result<Seq<u8>, Seq<char>>) -> ReplyView {
    let cid = req.shard.cid;
    match fetched {
        Err(e) => ReplyView::Failure(
            text::glued(seq!["fetch "@, cid, text::glued(seq![": "@, e, ""@])]),
        ),
        Ok(bytes) => if bytes.len() > MAX_MAP_PAYLOAD_BYTES {
            ReplyView::Failure(large_shard(cid, bytes.len()))
        } else {
            match dataset::decoded(bytes) {
                Err(e) => ReplyView::Failure(text::glued(seq!["decode shard: "@, e.words(), ""@])),
                Ok(rows) => if req.query.projection is Some {
                    let kept = req.query.projected(rows);
                    if kept.len() > MAX_PROJECTION_ROWS {
                        ReplyView::Failure(many_rows("projection produced "@, kept.len()))
                    } else {
                        ReplyView::Rows(kept)
                    }
                } else {
                    ReplyView::Answer(
                        PartialView {
                            aggregates: req.query.aggregates,
                            groups: req.query.mapped(rows),
                        },
                    )
                },
            }
        },
    }
}

/// The reply to a request that is served.
pub fn answer(req: &MapRequest, fetched: Result<Vec<u8>, String>) -> (r: MapReply)
    ensures
        r.deep_view() == answered(
            req.deep_view(),
            match fetched {
                Ok(bytes) => Ok(bytes@),
                Err(e) => Err(e@),
            },
        ),
{
    let cid: &str = req.shard.cid.as_str();
    let bytes: Vec<u8> = match fetched {
        Ok(b) => b,
        Err(e) => {
            let rest: String = glue3(": ", e.as_str(), "");
            return MapReply::Failure(glue3("fetch ", cid, rest.as_str()));
        },
    };
    if bytes.len() > MAX_MAP_PAYLOAD_BYTES {
        return MapReply::Failure(write_large_shard(cid, bytes.len()));
    }
    let rows: Vec<Row> = match decode_shard(bytes.as_slice()) {
        Ok(rows) => rows,
        Err(e) => {
            return MapReply::Failure(glue3("decode shard: ", e.message().as_str(), ""));
        },
    };
    if req.query.is_projection() {
        let kept: Vec<Row> = req.query.project_shard(rows.as_slice());
        assert(kept.deep_view().len() == kept@.len());
        let n: usize = kept.len();
        if n > MAX_PROJECTION_ROWS {
            return MapReply::Failure(write_many_rows("projection produced ", n));
        }
        MapReply::Rows(kept)
    } else {
        MapReply::Answer(req.query.map_shard(rows.as_slice()))
    }
}

/// What a coordinator gets from an agent that has the bytes of a shard is what mapping its rows
/// gives.
pub proof fn lemma_honest_agent(req: RequestView, bytes: Seq<u8>, rows: Seq<RowView>)
    requires
        bytes.len() <= MAX_MAP_PAYLOAD_BYTES,
        dataset::decoded(bytes) == Ok::<Seq<RowView>, dataset::ShardErrorView>(rows),
        req.query.projection is None,
    ensures
        reply_partial(answered(req, Ok(bytes))) == Ok::<PartialView, MapErrorView>(
            PartialView { aggregates: req.query.aggregates, groups: req.query.mapped(rows) },
        ),
{
}

/// A string in lower case.
pub uninterp spec fn lowercase_of(s: Seq<char>) -> Seq<char>;

/// `str::to_lowercase`, which depends on the string alone. Not stated: the lower case of which
/// characters is what.
#[verifier::external_body]
fn lowercase(s: &str) -> (r: String)
    ensures
        r@ == lowercase_of(s@),
{
    s.to_lowercase()
}

/// What the words of an error of a fetch mean; `lowered` are they in lower case.
pub open spec fn fetch_error(cid: Seq<char>, words: Seq<char>, lowered: Seq<char>) -> MapErrorView {
    if text::holds(lowered, "404"@) || text::holds(lowered, "not found"@) {
        MapErrorView::MissingBlob(cid)
    } else if text::holds(lowered, "timed out"@) || text::holds(lowered, "timeout"@) {
        MapErrorView::Timeout
    } else {
        MapErrorView::HostError(words)
    }
}

/// What the words of an error of a fetch mean; `lowered` are they in lower case.
pub fn classify_lowered_fetch(cid: &str, words: &str, lowered: &str) -> (r: MapError)
    ensures
        r.deep_view() == fetch_error(cid@, words@, lowered@),
{
    let low: Vec<char> = chars_of(lowered);
    if contains(low.as_slice(), "404") || contains(low.as_slice(), "not found") {
        MapError::MissingBlob(cid.to_owned())
    } else if contains(low.as_slice(), "timed out") || contains(low.as_slice(), "timeout") {
        MapError::Timeout
    } else {
        MapError::HostError(words.to_owned())
    }
}

/// What the words of an error of a fetch mean: that the shard is missing, that the time is up, or
/// something else.
pub fn classify_fetch_error(cid: &str, words: &str) -> (r: MapError)
    ensures
        r.deep_view() == fetch_error(cid@, words@, lowercase_of(words@)),
{
    let lowered: String = lowercase(words);
    classify_lowered_fetch(cid, words, lowered.as_str())
}

/// What the words of an error of a request mean; `lowered` are they in lower case.
pub open spec fn request_error(words: Seq<char>, lowered: Seq<char>) -> MapErrorView {
    if text::holds(lowered, "timed out"@) || text::holds(lowered, "timeout"@) || text::holds(
        lowered,
        "504"@,
    ) {
        MapErrorView::Timeout
    } else {
        MapErrorView::HostError(words)
    }
}

/// What the words of an error of a request mean; `lowered` are they in lower case.
pub fn classify_lowered_request(words: &str, lowered: &str) -> (r: MapError)
    ensures
        r.deep_view() == request_error(words@, lowered@),
{
    let low: Vec<char> = chars_of(lowered);
    if contains(low.as_slice(), "timed out") || contains(low.as_slice(), "timeout") || contains(
        low.as_slice(),
        "504",
    ) {
        MapError::Timeout
    } else {
        MapError::HostError(words.to_owned())
    }
}

/// What the words of an error of a request mean: that the time is up, or something else.
pub fn classify_request_error(words: &str) -> (r: MapError)
    ensures
        r.deep_view() == request_error(words@, lowercase_of(words@)),
{
    let lowered: String = lowercase(words);
    classify_lowered_request(words, lowered.as_str())
}

/// What an agent does with a message of its inbox.
#[derive(Debug, Clone, Copy, PartialEq, Eq, Structural)]
pub enum Intake {
    /// Pass it over.
    Skip,
    /// Reply that it is too large.
    TooLarge,
    /// Read it as a request.
    Read,
}

/// What an agent does with a message: one on another topic, that wants no reply or has no payload is
/// passed over; `size` is that of the payload.
pub fn intake(topic: &str, wants_reply: bool, size: Option<usize>) -> (r: Intake)
    ensures
        r == (if topic@ != MAP_TOPIC@ || !wants_reply || size is None {
            Intake::Skip
        } else if size->0 > MAX_MAP_PAYLOAD_BYTES {
            Intake::TooLarge
        } else {
            Intake::Read
        }),
{
    if !equal(topic, MAP_TOPIC) || !wants_reply {
        return Intake::Skip;
    }
    match size {
        None => Intake::Skip,
        Some(n) => {
            if n > MAX_MAP_PAYLOAD_BYTES {
                Intake::TooLarge
            } else {
                Intake::Read
            }
        },
    }
}

/// What an agent asks before it serves a request.
#[derive(Debug, Clone, PartialEq, Eq)]
pub enum GrantCheck {
    /// Nothing.
    Open,
    /// It does not serve it, for this reason.
    Refused(String),
    /// Whether this token permits it.
    Verify(String),
}

/// What an agent asks before it serves a request: nothing where it requires no tokens, otherwise
/// that it knows the requester and that there is a token, which it then checks.
pub fn grant_check(require_grant: bool, requester_known: bool, grant: &Option<String>) -> (r: GrantCheck)
    ensures
        match r {
            GrantCheck::Open => !require_grant,
            GrantCheck::Refused(reason) => require_grant && ((!requester_known && reason@
                == "unknown requester"@) || (requester_known && grant is None && reason@
                == "grant required"@)),
            GrantCheck::Verify(token) => require_grant && requester_known && grant is Some && token@
                == grant->0@,
        },
{
    if !require_grant {
        return GrantCheck::Open;
    }
    if !requester_known {
        return GrantCheck::Refused("unknown requester".to_owned());
    }
    match grant {
        Some(token) => GrantCheck::Verify(token.clone()),
        None => GrantCheck::Refused("grant required".to_owned()),
    }
}

/// Whether it is time to read the revocations anew; an interval of 0 is for never.
pub fn refresh_due(interval: u64, now: u64, last: u64) -> (r: bool)
    ensures
        r == (interval != 0 && now >= last + interval),
{
    interval != 0 && now >= last && now - last >= interval
}

/// The revocations that name a node, in their order.
pub open spec fn valid_revocations(list: Seq<(Seq<char>, u64)>) -> Seq<(Seq<u8>, u64)>
    decreases list.len(),
{
    if list.len() == 0 {
        Seq::empty()
    } else {
        let before = valid_revocations(list.drop_last());
        match caps::node_id(list.last().0) {
            Ok(id) => before.push((id, list.last().1)),
            Err(_) => before,
        }
    }
}

/// The revocations that name a node; others can match none.
pub fn revocations(list: &Vec<(String, u64)>) -> (r: Vec<(Vec<u8>, u64)>)
    ensures
        r.deep_view() == valid_revocations(list.deep_view()),
{
    let ghost all = list.deep_view();
    let mut out: Vec<(Vec<u8>, u64)> = Vec::new();
    let mut i: usize = 0;
    proof {
        assert(all.take(0) =~= Seq::<(Seq<char>, u64)>::empty());
        assert(out.deep_view() =~= Seq::<(Seq<u8>, u64)>::empty());
    }
    while i < list.len()
        invariant
            i <= list@.len(),
            all == list.deep_view(),
            out.deep_view() == valid_revocations(all.take(i as int)),
        decreases list@.len() - i,
    {
        proof {
            assert(all.take(i + 1).drop_last() =~= all.take(i as int));
            assert(all.take(i + 1).last() == (list@[i as int].0@, list@[i as int].1));
        }
        if let Ok(id) = parse_node_id(list[i].0.as_str()) {
            let ghost was = out.deep_view();
            let ghost bytes = id@;
            proof {
                assert(id.deep_view() =~= bytes);
            }
            out.push((id, list[i].1));
            proof {
                assert(out.deep_view() =~= was.push((bytes, list@[i as int].1)));
            }
        }
        i = i + 1;
    }
    proof {
        assert(all.take(all.len() as int) =~= all);
    }
    out
}

/// The hosts that were found, in order and each once.
pub fn host_list(found: &Vec<String>) -> (r: Vec<String>)
    ensures
        table::lists::<String>(r.deep_view(), found.deep_view().to_set()),
{
    let ghost all = found.deep_view();
    let mut seen: Table<String, usize> = Table::new();
    let mut i: usize = 0;
    while i < found.len()
        invariant
            i <= found@.len(),
            all == found.deep_view(),
            forall|h: Seq<char>| #[trigger]
                seen.contents().dom().contains(h) <==> exists|j: int| 0 <= j < i && #[trigger] all[j] == h,
        decreases found@.len() - i,
    {
        let ghost was = seen.contents();
        seen.insert(found[i].clone(), i);
        proof {
            assert forall|h: Seq<char>| #[trigger]
                seen.contents().dom().contains(h) <==> exists|j: int|
                    0 <= j < i + 1 && #[trigger] all[j] == h by {
                assert(was.dom().contains(h) <==> exists|j: int| 0 <= j < i && #[trigger] all[j] == h);
                assert(all[i as int] == found@[i as int]@);
                if was.dom().contains(h) {
                    let j = choose|j: int| 0 <= j < i && #[trigger] all[j] == h;
                    assert(0 <= j < i + 1 && all[j] == h);
                }
            }
        }
        i = i + 1;
    }
    let n: usize = seen.len();
    let mut out: Vec<String> = Vec::new();
    let mut k: usize = 0;
    while k < n
        invariant
            k <= n == seen.keys().len(),
            out@.len() == k,
            forall|j: int| 0 <= j < k ==> (#[trigger] out@[j])@ == seen.keys()[j],
        decreases n - k,
    {
        out.push(seen.key_at(k).clone());
        k = k + 1;
    }
    proof {
        assert(out.deep_view() =~= seen.keys());
        assert forall|h: Seq<char>| out.deep_view().contains(h) <==> all.to_set().contains(h) by {
            assert(seen.keys().contains(h) <==> seen.contents().dom().contains(h));
            if all.contains(h) {
                let j = choose|j: int| 0 <= j < all.len() && all[j] == h;
                assert(0 <= j < i && all[j] == h);
            }
        }
    }
    out
}

/// A dataset with one more shard of these rows, with their ranges; one without rows is left out.
pub open spec fn with_shard(d: DatasetView, cid: Seq<char>, rows: Seq<RowView>, bytes: u64, after: DatasetView) -> bool {
    if rows.len() == 0 {
        after == d
    } else {
        &&& after.name == d.name
        &&& after.schema == d.schema
        &&& after.shards.len() == d.shards.len() + 1
        &&& after.shards.drop_last() == d.shards
        &&& after.shards.last().cid == cid
        &&& after.shards.last().rows == rows.len()
        &&& after.shards.last().bytes == bytes
        &&& after.shards.last().stats is Some
        &&& dataset::describes(after.shards.last().stats->0, rows)
    }
}

/// Records a shard that was stored under `cid`, with the ranges of its columns. One without rows is
/// left out.
pub fn record_shard(d: &mut Dataset, cid: &str, rows: &[Row], bytes: u64)
    ensures
        with_shard(old(d).deep_view(), cid@, rows.deep_view(), bytes, final(d).deep_view()),
{
    let ghost was = d.deep_view();
    if rows.len() > 0 {
        let stats = compute_stats(rows);
        let _index: usize = d.add_shard_with_stats(cid, rows.len() as u64, bytes, stats);
        proof {
            assert(d.deep_view().shards.drop_last() =~= was.shards);
        }
    }
}

} // verus!
