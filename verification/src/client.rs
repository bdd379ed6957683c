//! Endpoint resolution and response classification for the typed RPC
//! surface.
//!
//! Every operation that targets a device first locates the right entry
//! of that device's schema report - by path alone for dynamic calls, by
//! path and both keys for typed ones - and afterwards classifies what
//! came back from the daemon into the client's error taxonomy.

use vstd::prelude::*;
use crate::icd::{
    ClientError, DeviceData, EndpointReport, Key, ProxyResponse, PublishResponse, SchemaReport,
    TopicReport, TopicStreamMsg, TopicStreamResult, Uuidv7, WireError, all_hex, hex_value,
    hex_parse, wire_error_text, wire_error_message,
};
use crate::header::{from_le, pow256, lemma_from_le_bound, lemma_pow256_values};
use crate::varint::{varint_parse, VARINT_LAST_U64, VARINT_MAX_U64};

verus! {

/// The first outgoing topic at `path`, if any.
pub fn find_topic_out(report: &SchemaReport, path: &String) -> (r: Option<usize>)
    ensures
        match r {
            Some(i) => i < report.topics_out@.len() && report.topics_out@[i as int].path@ == path@
                && forall|j: int|
                0 <= j < i ==> (#[trigger] report.topics_out@[j]).path@ != path@,
            None => forall|j: int|
                0 <= j < report.topics_out@.len() ==> (#[trigger] report.topics_out@[j]).path@
                    != path@,
        },
{
    find_topic(&report.topics_out, path)
}

/// The first incoming topic at `path`, if any.
pub fn find_topic_in(report: &SchemaReport, path: &String) -> (r: Option<usize>)
    ensures
        match r {
            Some(i) => i < report.topics_in@.len() && report.topics_in@[i as int].path@ == path@
                && forall|j: int| 0 <= j < i ==> (#[trigger] report.topics_in@[j]).path@ != path@,
            None => forall|j: int|
                0 <= j < report.topics_in@.len() ==> (#[trigger] report.topics_in@[j]).path@
                    != path@,
        },
{
    find_topic(&report.topics_in, path)
}

fn find_topic(topics: &Vec<TopicReport>, path: &String) -> (r: Option<usize>)
    ensures
        match r {
            Some(i) => i < topics@.len() && topics@[i as int].path@ == path@ && forall|j: int|
                0 <= j < i ==> (#[trigger] topics@[j]).path@ != path@,
            None => forall|j: int|
                0 <= j < topics@.len() ==> (#[trigger] topics@[j]).path@ != path@,
        },
{
    let mut i: usize = 0;
    while i < topics.len()
        invariant
            i <= topics@.len(),
            forall|j: int| 0 <= j < i ==> (#[trigger] topics@[j]).path@ != path@,
        decreases topics@.len() - i,
    {
        if topics[i].path.eq(path) {
            return Some(i);
        }
        i = i + 1;
    }
    None
}

/// Does a topic entry match a typed topic: same path and same key?
pub open spec fn topic_matches_typed(t: TopicReport, path: Seq<char>, key: Key) -> bool {
    t.path@ == path && t.key.0@ == key.0@
}

/// The first incoming topic matching a typed topic, if any.
pub fn find_topic_in_typed(report: &SchemaReport, path: &String, key: &Key) -> (r: Option<usize>)
    ensures
        match r {
            Some(i) => i < report.topics_in@.len() && topic_matches_typed(
                report.topics_in@[i as int],
                path@,
                *key,
            ) && forall|j: int|
                0 <= j < i ==> !topic_matches_typed(#[trigger] report.topics_in@[j], path@, *key),
            None => forall|j: int|
                0 <= j < report.topics_in@.len() ==> !topic_matches_typed(
                    #[trigger] report.topics_in@[j],
                    path@,
                    *key,
                ),
        },
{
    let mut i: usize = 0;
    while i < report.topics_in.len()
        invariant
            i <= report.topics_in@.len(),
            forall|j: int|
                0 <= j < i ==> !topic_matches_typed(#[trigger] report.topics_in@[j], path@, *key),
        decreases report.topics_in@.len() - i,
    {
        if report.topics_in[i].path.eq(path) && report.topics_in[i].key.eq(key) {
            return Some(i);
        }
        i = i + 1;
    }
    None
}

/// The first outgoing topic matching a typed topic, if any.
pub fn find_topic_out_typed(report: &SchemaReport, path: &String, key: &Key) -> (r: Option<usize>)
    ensures
        match r {
            Some(i) => i < report.topics_out@.len() && topic_matches_typed(
                report.topics_out@[i as int],
                path@,
                *key,
            ) && forall|j: int|
                0 <= j < i ==> !topic_matches_typed(#[trigger] report.topics_out@[j], path@, *key),
            None => forall|j: int|
                0 <= j < report.topics_out@.len() ==> !topic_matches_typed(
                    #[trigger] report.topics_out@[j],
                    path@,
                    *key,
                ),
        },
{
    let mut i: usize = 0;
    while i < report.topics_out.len()
        invariant
            i <= report.topics_out@.len(),
            forall|j: int|
                0 <= j < i ==> !topic_matches_typed(#[trigger] report.topics_out@[j], path@, *key),
        decreases report.topics_out@.len() - i,
    {
        if report.topics_out[i].path.eq(path) && report.topics_out[i].key.eq(key) {
            return Some(i);
        }
        i = i + 1;
    }
    None
}

/// Does an endpoint entry match a typed endpoint: same path and exact
/// match of both keys?
pub open spec fn endpoint_matches_typed(
    e: EndpointReport,
    path: Seq<char>,
    req_key: Key,
    resp_key: Key,
) -> bool {
    e.path@ == path && e.req_key.0@ == req_key.0@ && e.resp_key.0@ == resp_key.0@
}

/// The first endpoint matching a typed endpoint, if any.
pub fn find_endpoint_typed(
    report: &SchemaReport,
    path: &String,
    req_key: &Key,
    resp_key: &Key,
) -> (r: Option<usize>)
    ensures
        match r {
            Some(i) => i < report.endpoints@.len() && endpoint_matches_typed(
                report.endpoints@[i as int],
                path@,
                *req_key,
                *resp_key,
            ) && forall|j: int|
                0 <= j < i ==> !endpoint_matches_typed(
                    #[trigger] report.endpoints@[j],
                    path@,
                    *req_key,
                    *resp_key,
                ),
            None => forall|j: int|
                0 <= j < report.endpoints@.len() ==> !endpoint_matches_typed(
                    #[trigger] report.endpoints@[j],
                    path@,
                    *req_key,
                    *resp_key,
                ),
        },
{
    let mut i: usize = 0;
    while i < report.endpoints.len()
        invariant
            i <= report.endpoints@.len(),
            forall|j: int|
                0 <= j < i ==> !endpoint_matches_typed(
                    #[trigger] report.endpoints@[j],
                    path@,
                    *req_key,
                    *resp_key,
                ),
        decreases report.endpoints@.len() - i,
    {
        if report.endpoints[i].path.eq(path) && report.endpoints[i].req_key.eq(req_key)
            && report.endpoints[i].resp_key.eq(resp_key) {
            return Some(i);
        }
        i = i + 1;
    }
    None
}

/// The first endpoint at `path`, keys not regarded (dynamic calls).
pub fn find_endpoint_by_path(report: &SchemaReport, path: &String) -> (r: Option<usize>)
    ensures
        match r {
            Some(i) => i < report.endpoints@.len() && report.endpoints@[i as int].path@ == path@
                && forall|j: int|
                0 <= j < i ==> (#[trigger] report.endpoints@[j]).path@ != path@,
            None => forall|j: int|
                0 <= j < report.endpoints@.len() ==> (#[trigger] report.endpoints@[j]).path@
                    != path@,
        },
{
    let mut i: usize = 0;
    while i < report.endpoints.len()
        invariant
            i <= report.endpoints@.len(),
            forall|j: int| 0 <= j < i ==> (#[trigger] report.endpoints@[j]).path@ != path@,
        decreases report.endpoints@.len() - i,
    {
        if report.endpoints[i].path.eq(path) {
            return Some(i);
        }
        i = i + 1;
    }
    None
}

/// The message a wire-error response surfaces with.
pub open spec fn remote_wire_error_text(e: WireError) -> Seq<char> {
    "WireErr: "@ + wire_error_text(e)
}

/// The message an upstream server failure surfaces with.
pub open spec fn remote_other_text(msg: Seq<char>) -> Seq<char> {
    "Other Server Err: '"@ + msg + "'"@
}

/// Classify the daemon's answer to a proxied request: a success hands
/// the body back; a wire error or an upstream failure surfaces as a
/// remote error with the exact message, and nothing else is possible.
pub fn classify_proxy_response(resp: ProxyResponse) -> (r: Result<Vec<u8>, ClientError>)
    ensures
        match resp {
            ProxyResponse::Success { body, .. } => r matches Ok(b) && b == body,
            ProxyResponse::WireErr { body, .. } => r matches Err(e) && e matches
                ClientError::Remote(m) && m@ == remote_wire_error_text(body),
            ProxyResponse::OtherErr(msg) => r matches Err(e) && e matches ClientError::Remote(m)
                && m@ == remote_other_text(msg@),
        },
{
    match resp {
        ProxyResponse::Success { body, .. } => Ok(body),
        ProxyResponse::WireErr { body, .. } => {
            let mut s = String::from_str("WireErr: ");
            let w = wire_error_message(&body);
            s.append(w.as_str());
            Err(ClientError::Remote(s))
        },
        ProxyResponse::OtherErr(msg) => {
            let mut s = String::from_str("Other Server Err: '");
            s.append(msg.as_str());
            s.append("'");
            Err(ClientError::Remote(s))
        },
    }
}

/// Classify the daemon's answer to a publish: sent, or a server error
/// carrying the daemon's message.
pub fn classify_publish_response(resp: PublishResponse) -> (r: Result<(), ClientError>)
    ensures
        match resp {
            PublishResponse::Sent => r is Ok,
            PublishResponse::OtherErr(msg) => r matches Err(e) && e matches ClientError::Server(m)
                && m@ == msg@,
        },
{
    match resp {
        PublishResponse::Sent => Ok(()),
        PublishResponse::OtherErr(msg) => Err(ClientError::Server(msg)),
    }
}

/// Classify the daemon's answer to a stream request: the stream id on
/// success, else the server error naming the failure.
pub fn classify_stream_start(res: TopicStreamResult) -> (r: Result<Uuidv7, ClientError>)
    ensures
        match res {
            TopicStreamResult::Started(id) => r matches Ok(i) && i == id,
            TopicStreamResult::DeviceDisconnected => r matches Err(e) && e matches
                ClientError::Server(m) && m@ == "Device Disconnected"@,
            TopicStreamResult::NoDeviceKnown => r matches Err(e) && e matches ClientError::Server(
                m,
            ) && m@ == "No Device Known"@,
            TopicStreamResult::NoSuchTopic => r matches Err(e) && e matches ClientError::Server(m)
                && m@ == "No Such Topic"@,
        },
{
    match res {
        TopicStreamResult::Started(id) => Ok(id),
        TopicStreamResult::DeviceDisconnected => Err(
            ClientError::Server(String::from_str("Device Disconnected")),
        ),
        TopicStreamResult::NoDeviceKnown => Err(
            ClientError::Server(String::from_str("No Device Known")),
        ),
        TopicStreamResult::NoSuchTopic => Err(
            ClientError::Server(String::from_str("No Such Topic")),
        ),
    }
}

/// Parse a streamed fan-out body: a 16-byte stream id, then the
/// length-prefixed message bytes.
pub open spec fn stream_msg_parse(b: Seq<u8>) -> Option<(u128, Seq<u8>)> {
    if b.len() < 16 {
        None
    } else {
        match varint_parse(b.skip(16), VARINT_MAX_U64 as int, VARINT_LAST_U64) {
            Some((len, used)) => if b.len() >= 16 + used + len {
                Some((from_le(b.take(16)) as u128, b.subrange(16 + used, 16 + used + len as int)))
            } else {
                None
            },
            None => None,
        }
    }
}

/// Decode one fan-out frame body into a streamed message.
pub fn parse_topic_stream_msg(body: &Vec<u8>) -> (r: Option<TopicStreamMsg>)
    ensures
        match r {
            Some(m) => stream_msg_parse(body@) == Some((m.stream_id.0, m.msg@)),
            None => stream_msg_parse(body@) is None,
        },
{
    if body.len() < 16 {
        return None;
    }
    let lo = crate::header::read_le(body, 0, 8);
    let hi = crate::header::read_le(body, 8, 8);
    proof {
        lemma_from_le_bound(body@.subrange(0, 8));
        lemma_from_le_bound(body@.subrange(8, 16));
        lemma_pow256_values();
        crate::header::lemma_from_le_split(body@.take(16), 8);
        assert(body@.take(16).take(8) =~= body@.subrange(0, 8));
        assert(body@.take(16).skip(8) =~= body@.subrange(8, 16));
    }
    let id: u128 = (lo as u128) + (hi as u128) * 0x10000000000000000;
    proof {
        crate::varint::lemma_pow2_128();
        assert(id as nat == from_le(body@.take(16))) by (nonlinear_arith)
            requires
                id as nat == (lo as nat) + (hi as nat) * 0x10000000000000000,
                from_le(body@.take(16)) == from_le(body@.subrange(0, 8)) + pow256(8) * from_le(
                    body@.subrange(8, 16),
                ),
                lo as nat == from_le(body@.subrange(0, 8)),
                hi as nat == from_le(body@.subrange(8, 16)),
                pow256(8) == 0x10000000000000000,
        ;
    }
    proof {
        crate::varint::lemma_varint_widths_fit();
    }
    let taken = crate::varint::varint_take(body, 16, VARINT_MAX_U64, VARINT_LAST_U64);
    let (len128, used) = match taken {
        Some(p) => p,
        None => {
            return None;
        },
    };
    if len128 > (usize::MAX as u128) {
        proof {
            assert(body@.len() < 16 + used + len128);
        }
        return None;
    }
    let len = len128 as usize;
    if body.len() - 16 - used < len {
        return None;
    }
    let mut msg: Vec<u8> = Vec::new();
    let start = 16 + used;
    let mut i: usize = 0;
    while i < len
        invariant
            i <= len,
            start + len <= body@.len(),
            body@.len() <= usize::MAX,
            start == 16 + used,
            msg@ =~= body@.subrange(start as int, start + i),
        decreases len - i,
    {
        let b = body[start + i];
        msg.push(b);
        proof {
            assert(body@.subrange(start as int, start + i + 1) =~= body@.subrange(
                start as int,
                start + i,
            ) + seq![body@[start + i]]);
        }
        i = i + 1;
    }
    Some(TopicStreamMsg { stream_id: Uuidv7(id), msg })
}

/// Decode a batch of stored topic messages against the topic's schema:
/// all of them, in order, or an encoding error when any one does not
/// fit.
pub fn decode_topic_msgs(ty: &crate::icd::OwnedNamedType, raws: Vec<crate::icd::TopicMsg>) -> (r:
    Result<Vec<(Uuidv7, crate::value::Value)>, ClientError>)
    ensures
        match r {
            Ok(list) => list@.len() == raws@.len() && forall|i: int|
                0 <= i < raws@.len() ==> (crate::dyncodec::decode_spec(
                    ty.ty,
                    (#[trigger] raws@[i]).msg@,
                ) matches Some((sv, c)) && list@[i].1@ == sv && list@[i].0 == raws@[i].uuidv7),
            Err(e) => e is Encoding && exists|i: int|
                0 <= i < raws@.len() && crate::dyncodec::decode_spec(
                    ty.ty,
                    (#[trigger] raws@[i]).msg@,
                ) is None,
        },
{
    let mut list: Vec<(Uuidv7, crate::value::Value)> = Vec::new();
    let mut i: usize = 0;
    while i < raws.len()
        invariant
            i <= raws@.len(),
            list@.len() == i,
            forall|j: int|
                0 <= j < i ==> (crate::dyncodec::decode_spec(ty.ty, (#[trigger] raws@[j]).msg@)
                    matches Some((sv, c)) && list@[j].1@ == sv && list@[j].0 == raws@[j].uuidv7),
        decreases raws@.len() - i,
    {
        proof {
            assert(raws@[i as int].msg@.skip(0) =~= raws@[i as int].msg@);
        }
        match crate::dyncodec::decode_value(&ty.ty, &raws[i].msg, 0) {
            Some((v, _used)) => {
                list.push((raws[i].uuidv7, v));
            },
            None => {
                return Err(ClientError::Encoding);
            },
        }
        i = i + 1;
    }
    Ok(list)
}

/// What `str::to_uppercase` returns: a function of the characters
/// alone.
pub uninterp spec fn upper_of(s: Seq<char>) -> Seq<char>;

/// Relies on str::to_uppercase: the uppercase image of a string, which
/// depends on its characters alone.
#[verifier::external_body]
fn to_upper(s: &str) -> (r: String)
    ensures
        r@ == upper_of(s@),
{
    s.to_uppercase()
}

/// `needle` occurs contiguously inside `hay`.
pub open spec fn is_substring(hay: Seq<char>, needle: Seq<char>) -> bool {
    exists|o: int|
        0 <= o <= hay.len() - needle.len() && #[trigger] hay.subrange(o, o + needle.len() as int)
            == needle
}

/// Does `needle` occur inside `hay`?
pub fn str_contains(hay: &String, needle: &String) -> (r: bool)
    ensures
        r == is_substring(hay@, needle@),
{
    let nh = hay.as_str().unicode_len();
    let nn = needle.as_str().unicode_len();
    if nn > nh {
        return false;
    }
    let mut o: usize = 0;
    while o <= nh - nn
        invariant
            nn <= nh,
            nh == hay@.len(),
            nn == needle@.len(),
            o <= nh - nn + 1,
            forall|p: int| 0 <= p < o ==> #[trigger] hay@.subrange(p, p + nn as int) != needle@,
        decreases nh - nn - o + 1,
    {
        let mut k: usize = 0;
        let mut all_eq = true;
        while k < nn
            invariant
                k <= nn,
                o + nn <= nh,
                nh == hay@.len(),
                nn == needle@.len(),
                all_eq == (forall|q: int|
                    0 <= q < k ==> hay@.subrange(o as int, o + nn as int)[q] == needle@[q]),
            decreases nn - k,
        {
            let hc = hay.as_str().get_char(o + k);
            let nc = needle.as_str().get_char(k);
            proof {
                assert(hay@.subrange(o as int, o + nn as int)[k as int] == hay@[o + k]);
            }
            if hc != nc {
                all_eq = false;
                proof {
                    assert(hay@.subrange(o as int, o + nn as int)[k as int] != needle@[k as int]);
                }
                k = nn;
            } else {
                proof {
                    if all_eq {
                        assert forall|q: int|
                            0 <= q < k + 1 implies hay@.subrange(o as int, o + nn as int)[q]
                            == needle@[q] by {
                            assert(hay@.subrange(o as int, o + nn as int)[q] == hay@[o + q]);
                        }
                    }
                }
                k = k + 1;
            }
        }
        if all_eq {
            proof {
                assert(hay@.subrange(o as int, o + nn as int) =~= needle@);
            }
            return true;
        }
        o = o + 1;
    }
    proof {
        assert forall|p: int|
            0 <= p <= hay@.len() - needle@.len() implies #[trigger] hay@.subrange(
            p,
            p + needle@.len() as int,
        ) != needle@ by {}
    }
    false
}

/// Why a fuzzy path lookup failed.
#[derive(Clone, Copy, Debug, PartialEq, Eq, Structural)]
pub enum FuzzyError {
    /// No path contains the search text.
    NoMatch,
    /// More than one path contains the search text.
    Ambiguous,
}

/// How many of the paths contain the search text.
pub open spec fn substring_count(paths: Seq<String>, needle: Seq<char>) -> int
    decreases paths,
{
    if paths.len() == 0 {
        0
    } else {
        substring_count(paths.drop_last(), needle) + if is_substring(paths.last()@, needle) {
            1int
        } else {
            0int
        }
    }
}

proof fn lemma_substring_count_nonneg(paths: Seq<String>, needle: Seq<char>)
    ensures
        substring_count(paths, needle) >= 0,
    decreases paths,
{
    if paths.len() > 0 {
        lemma_substring_count_nonneg(paths.drop_last(), needle);
    }
}

/// Find the path that contains the search text. Succeeds exactly when
/// one path does; no match and more than one match each fail with
/// their own error.
pub fn fuzzy_find(paths: &Vec<String>, needle: &String) -> (r: Result<usize, FuzzyError>)
    ensures
        match r {
            Ok(i) => substring_count(paths@, needle@) == 1 && i < paths@.len() && is_substring(
                paths@[i as int]@,
                needle@,
            ),
            Err(e) => match e {
                FuzzyError::NoMatch => substring_count(paths@, needle@) == 0,
                FuzzyError::Ambiguous => substring_count(paths@, needle@) > 1,
            },
        },
{
    let mut count: usize = 0;
    let mut found: usize = 0;
    let mut i: usize = 0;
    proof {
        assert(paths@.take(0).len() == 0);
    }
    while i < paths.len()
        invariant
            i <= paths@.len(),
            count == substring_count(paths@.take(i as int), needle@),
            count <= i,
            count > 0 ==> found < i && is_substring(paths@[found as int]@, needle@),
        decreases paths@.len() - i,
    {
        let hit = str_contains(&paths[i], needle);
        proof {
            assert(paths@.take(i + 1).drop_last() =~= paths@.take(i as int));
            assert(paths@.take(i + 1).last() == paths@[i as int]);
        }
        if hit {
            if count == 0 {
                found = i;
            }
            count = count + 1;
        }
        i = i + 1;
    }
    proof {
        assert(paths@.take(paths@.len() as int) =~= paths@);
    }
    if count == 0 {
        Err(FuzzyError::NoMatch)
    } else if count > 1 {
        Err(FuzzyError::Ambiguous)
    } else {
        Ok(found)
    }
}

/// Does a device match the search text: its name contains it, or - when
/// the text reads as a partial hex serial - its serial contains it.
pub open spec fn device_matches(d: DeviceData, upper: Seq<char>, fragment: bool) -> bool {
    is_substring(d.name@, upper) || (fragment && is_substring(d.serial@, upper))
}

/// How many devices match.
pub open spec fn match_count(devs: Seq<DeviceData>, upper: Seq<char>, fragment: bool) -> int
    decreases devs,
{
    if devs.len() == 0 {
        0
    } else {
        match_count(devs.drop_last(), upper, fragment) + if device_matches(
            devs.last(),
            upper,
            fragment,
        ) {
            1int
        } else {
            0int
        }
    }
}

/// Is the (upper-cased) search text a partial hex serial: a hex string
/// of some other length than the full sixteen digits, small enough to
/// read as a serial fragment?
pub open spec fn is_serial_fragment(up: Seq<char>) -> bool {
    up.len() > 0 && all_hex(up) && hex_value(up) <= u64::MAX as nat && up.len() != 16
}

/// Resolve a user-given serial-or-name to a device serial. Sixteen hex
/// digits name a serial directly. Anything else is matched (upper-cased)
/// against device names, and - when it reads as a hex fragment -
/// against serials; exactly one device must match, and its serial is
/// returned.
pub fn guess_serial(source: &String, devices: &Vec<DeviceData>) -> (r: Result<u64, String>)
    ensures
        ({
            let up = upper_of(source@);
            let frag = is_serial_fragment(up);
            match r {
                Ok(v) => if up.len() == 16 && all_hex(up) {
                    v as nat == hex_value(up)
                } else {
                    match_count(devices@, up, frag) == 1 && exists|i: int|
                        0 <= i < devices@.len() && device_matches(#[trigger] devices@[i], up, frag)
                            && all_hex(devices@[i].serial@) && devices@[i].serial@.len() > 0
                            && v as nat == hex_value(devices@[i].serial@)
                },
                Err(m) => !(up.len() == 16 && all_hex(up)) && (match_count(devices@, up, frag) == 0
                    && m@ == "Failed to find device matching '"@ + up + "'"@ || match_count(
                    devices@,
                    up,
                    frag,
                ) > 1 && m@ == "Too many matches, be more specific!"@ || match_count(
                    devices@,
                    up,
                    frag,
                ) == 1 && m@ == "Couldn't figure a serial number out!"@),
            }
        }),
{
    let upper = to_upper(source.as_str());
    let parsed = hex_parse(upper.as_str());
    let n = upper.as_str().unicode_len();
    proof {
        if n == 16 {
            lemma_hex_value_fits(upper@);
        }
    }
    if n == 16 {
        match parsed {
            Some(v) => {
                return Ok(v);
            },
            None => {
            },
        }
    }
    let fragment = n != 16 && parsed.is_some();
    proof {
        assert(fragment == is_serial_fragment(upper_of(source@)));
    }
    let mut count: usize = 0;
    let mut found: usize = 0;
    let mut i: usize = 0;
    proof {
        assert(devices@.take(0).len() == 0);
    }
    while i < devices.len()
        invariant
            i <= devices@.len(),
            count == match_count(devices@.take(i as int), upper@, fragment),
            count <= i,
            count > 0 ==> found < i && device_matches(devices@[found as int], upper@, fragment),
            count == 1 ==> (forall|j: int|
                0 <= j < i && j != found ==> !device_matches(
                    #[trigger] devices@[j],
                    upper@,
                    fragment,
                )),
        decreases devices@.len() - i,
    {
        let name_hit = str_contains(&devices[i].name, &upper);
        let ser_hit = if fragment {
            str_contains(&devices[i].serial, &upper)
        } else {
            false
        };
        proof {
            assert(devices@.take(i + 1).drop_last() =~= devices@.take(i as int));
            assert(devices@.take(i + 1).last() == devices@[i as int]);
        }
        if name_hit || ser_hit {
            if count == 0 {
                proof {
                    lemma_match_count_zero(devices@.take(i as int), upper@, fragment);
                    assert forall|j: int|
                        0 <= j < i implies !device_matches(
                        #[trigger] devices@[j],
                        upper@,
                        fragment,
                    ) by {
                        assert(devices@.take(i as int)[j] == devices@[j]);
                    }
                }
                found = i;
            }
            count = count + 1;
        }
        i = i + 1;
    }
    proof {
        assert(devices@.take(devices@.len() as int) =~= devices@);
    }
    if count == 0 {
        let mut m = String::from_str("Failed to find device matching '");
        m.append(upper.as_str());
        m.append("'");
        proof {
            assert(m@ =~= "Failed to find device matching '"@ + upper_of(source@) + "'"@);
        }
        return Err(m);
    }
    if count > 1 {
        return Err(String::from_str("Too many matches, be more specific!"));
    }
    match hex_parse(devices[found].serial.as_str()) {
        Some(v) => Ok(v),
        None => Err(String::from_str("Couldn't figure a serial number out!")),
    }
}

/// A hex string of at most sixteen digits fits in a u64.
proof fn lemma_hex_value_fits(s: Seq<char>)
    requires
        s.len() <= 16,
    ensures
        hex_value(s) <= u64::MAX as nat,
    decreases s.len(),
{
    lemma_hex_pow(s, s.len() as int);
}

proof fn lemma_match_count_nonneg(devs: Seq<DeviceData>, upper: Seq<char>, frag: bool)
    ensures
        match_count(devs, upper, frag) >= 0,
    decreases devs,
{
    if devs.len() > 0 {
        lemma_match_count_nonneg(devs.drop_last(), upper, frag);
    }
}

proof fn lemma_match_count_zero(devs: Seq<DeviceData>, upper: Seq<char>, frag: bool)
    requires
        match_count(devs, upper, frag) == 0,
    ensures
        forall|j: int| 0 <= j < devs.len() ==> !device_matches(#[trigger] devs[j], upper, frag),
    decreases devs,
{
    if devs.len() > 0 {
        lemma_match_count_nonneg(devs.drop_last(), upper, frag);
        lemma_match_count_zero(devs.drop_last(), upper, frag);
        assert forall|j: int|
            0 <= j < devs.len() implies !device_matches(#[trigger] devs[j], upper, frag) by {
            if j < devs.len() - 1 {
                assert(devs.drop_last()[j] == devs[j]);
            } else {
                assert(devs.last() == devs[j]);
            }
        }
    }
}

proof fn lemma_hex_pow(s: Seq<char>, n: int)
    requires
        s.len() == n,
        0 <= n <= 16,
    ensures
        hex_value(s) < pow16(n),
        pow16(n) <= 0x10000000000000000,
    decreases n,
{
    lemma_pow16_values();
    if n == 0 {
    } else {
        lemma_hex_pow(s.drop_last(), n - 1);
        let d: int = if crate::icd::hex_val(s.last()) >= 0 {
            crate::icd::hex_val(s.last())
        } else {
            0
        };
        assert(d < 16);
        assert(hex_value(s.drop_last()) * 16 + d < pow16(n - 1) * 16) by (nonlinear_arith)
            requires
                hex_value(s.drop_last()) < pow16(n - 1),
                d < 16,
        ;
    }
}

/// `16^n`.
pub open spec fn pow16(n: int) -> nat
    decreases n,
{
    if n <= 0 {
        1
    } else {
        16 * pow16(n - 1)
    }
}

proof fn lemma_pow16_values()
    ensures
        pow16(16) == 0x10000000000000000,
        forall|k: int| 0 <= k <= 16 ==> #[trigger] pow16(k) <= 0x10000000000000000,
{
    assert(pow16(0) == 1);
    assert(pow16(1) == 0x10);
    assert(pow16(2) == 0x100);
    assert(pow16(3) == 0x1000);
    assert(pow16(4) == 0x10000);
    assert(pow16(5) == 0x100000);
    assert(pow16(6) == 0x1000000);
    assert(pow16(7) == 0x10000000);
    assert(pow16(8) == 0x100000000);
    assert(pow16(9) == 0x1000000000);
    assert(pow16(10) == 0x10000000000);
    assert(pow16(11) == 0x100000000000);
    assert(pow16(12) == 0x1000000000000);
    assert(pow16(13) == 0x10000000000000);
    assert(pow16(14) == 0x100000000000000);
    assert(pow16(15) == 0x1000000000000000);
    assert(pow16(16) == 0x10000000000000000);
    assert forall|k: int| 0 <= k <= 16 implies #[trigger] pow16(k) <= 0x10000000000000000 by {
        lemma_pow16_mono(k, 16);
    }
}

proof fn lemma_pow16_mono(a: int, b: int)
    requires
        0 <= a <= b,
    ensures
        pow16(a) <= pow16(b),
    decreases b,
{
    if a < b {
        lemma_pow16_mono(a, b - 1);
        assert(pow16(b - 1) <= 16 * pow16(b - 1)) by (nonlinear_arith)
            requires
                pow16(b - 1) >= 0,
        ;
    }
}

/// The stream filter: a listener started under one stream id yields a
/// message exactly when the message's embedded id equals its own; every
/// other message is skipped.
pub fn stream_filter(listener_id: Uuidv7, msg: TopicStreamMsg) -> (r: Option<Vec<u8>>)
    ensures
        r is Some <==> msg.stream_id == listener_id,
        match r {
            Some(m) => m == msg.msg,
            None => true,
        },
{
    if msg.stream_id.0 == listener_id.0 {
        Some(msg.msg)
    } else {
        None
    }
}

} // verus!
