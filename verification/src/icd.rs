//! The interface control document: the plain data types spoken between
//! client, daemon and devices, and the helpers they carry.
//!
//! Routing keys travel as eight raw bytes on the wire, but appear to
//! REST-style callers as sixteen upper-case hex digits; the [`Key`] type
//! holds that textual form and converts to and from the numeric one.

use vstd::prelude::*;

verus! {

/// One device as the daemon lists it.
pub struct DeviceData {
    pub serial: String,
    pub name: String,
    pub is_connected: bool,
    pub manufacturer: Option<String>,
    pub product: Option<String>,
}

/// A 16-byte time-ordered unique id, as a little-endian value.
#[derive(Clone, Copy, Debug, PartialEq, Eq, Structural)]
pub struct Uuidv7(pub u128);

/// Ask for the newest `count` log records of one device.
pub struct LogRequest {
    pub serial: u64,
    pub count: u32,
}

/// One log record.
pub struct Log {
    pub uuidv7: Uuidv7,
    pub msg: String,
}

/// Which side of the anchor a log range request walks.
#[derive(Clone, Copy, Debug, PartialEq, Eq, Structural)]
pub enum Direction {
    Before,
    After,
}

/// The anchor of a paginated log request: a record id or a unix
/// millisecond timestamp.
#[derive(Clone, Copy, Debug, PartialEq, Eq, Structural)]
pub enum Anchor {
    Uuid(Uuidv7),
    UnixMsTs(u64),
}

/// Ask for `count` log records on one side of an anchor.
pub struct LogRangeRequest {
    pub serial: u64,
    pub count: u32,
    pub anchor: Anchor,
    pub direction: Direction,
}

/// Ask for the newest `count` messages of one topic.
pub struct TopicRequest {
    pub serial: u64,
    pub path: String,
    pub key: Key,
    pub count: u32,
}

/// One stored topic message, body still in wire form.
pub struct TopicMsg {
    pub uuidv7: Uuidv7,
    pub msg: Vec<u8>,
}

/// Ask the daemon to start streaming one topic of one device.
pub struct TopicStreamRequest {
    pub serial: u64,
    pub path: String,
    pub key: Key,
}

/// One live streamed message, tagged with the stream it belongs to.
pub struct TopicStreamMsg {
    pub stream_id: Uuidv7,
    pub msg: Vec<u8>,
}

/// The daemon's answer to a stream request.
#[derive(Clone, Copy, Debug, PartialEq, Eq, Structural)]
pub enum TopicStreamResult {
    Started(Uuidv7),
    NoDeviceKnown,
    DeviceDisconnected,
    NoSuchTopic,
}

/// A request proxied through the daemon to one device's endpoint.
pub struct ProxyRequest {
    pub serial: u64,
    pub path: String,
    pub req_key: Key,
    pub resp_key: Key,
    pub seq_no: u32,
    pub req_body: Vec<u8>,
}

/// The daemon's answer to a proxied request.
pub enum ProxyResponse {
    Success { resp_key: Key, seq_no: u32, body: Vec<u8> },
    WireErr { resp_key: Key, seq_no: u32, body: WireError },
    OtherErr(String),
}

/// The failure half of a proxied exchange, as REST callers see it.
pub enum ProxyResponseError {
    WireErr { resp_key: Key, seq_no: u32, body: WireError },
    OtherErr(String),
}

/// A topic message published through the daemon to one device.
pub struct PublishRequest {
    pub serial: u64,
    pub path: String,
    pub topic_key: Key,
    pub seq_no: u32,
    pub topic_body: Vec<u8>,
}

/// The daemon's answer to a publish.
pub enum PublishResponse {
    Sent,
    OtherErr(String),
}

/// The given frame was too long.
#[derive(Clone, Copy, Debug, PartialEq, Eq, Structural)]
pub struct FrameTooLong {
    /// The length of the too-long frame.
    pub len: u32,
    /// The maximum frame length supported.
    pub max: u32,
}

/// The given frame was too short.
#[derive(Clone, Copy, Debug, PartialEq, Eq, Structural)]
pub struct FrameTooShort {
    /// The length of the too-short frame.
    pub len: u32,
}

/// A protocol failure the peer reports in place of a response.
#[derive(Clone, Copy, Debug, PartialEq, Eq, Structural)]
pub enum WireError {
    /// The frame exceeded the buffering capabilities of the server.
    FrameTooLong(FrameTooLong),
    /// The frame was shorter than the minimum frame size.
    FrameTooShort(FrameTooShort),
    /// Deserialization of a message failed.
    DeserFailed,
    /// Serialization of a message failed.
    SerFailed,
    /// The key associated with this request was unknown.
    UnknownKey,
    /// The server was unable to spawn the associated handler.
    FailedToSpawn,
    /// The provided key is below the minimum key size.
    KeyTooSmall,
}

/// The errors a client operation can surface.
#[derive(Debug)]
pub enum ClientError {
    /// The connection to the server has been closed.
    ConnectionClosed,
    /// The protocol between client and server was violated.
    Protocol,
    /// Encoding or decoding with a locally-known type failed.
    Encoding,
    /// The server reported a structural failure.
    Server(String),
    /// The device, or the hop between server and device, failed.
    Remote(String),
    /// Schema-directed encoding or decoding failed.
    Dynamic(String),
}

/// The errors of connection establishment.
#[derive(Clone, Copy, Debug, PartialEq, Eq, Structural)]
pub enum ConnectError {
    /// Failed to load the CA certificate for the server.
    CaCertificate,
    /// Failed to reach the server.
    Connection,
    /// The ping handshake failed.
    Protocol,
}

/// The receive side's failures.
#[derive(Clone, Copy, Debug, PartialEq, Eq, Structural)]
pub enum TcpCommsRxError {
    /// More was buffered without a terminator than the cap allows.
    RxOverflow,
    /// The underlying pipe failed or ended.
    ConnError,
}

/// The send side's failures.
#[derive(Clone, Copy, Debug, PartialEq, Eq, Structural)]
pub enum TcpCommsTxError {
    CommsError,
}

/// A report describing the schema spoken by one device.
pub struct SchemaReport {
    /// The named types the device speaks, primitives included.
    pub types: Vec<OwnedNamedType>,
    /// All incoming (client to server) topics reported by the device.
    pub topics_in: Vec<TopicReport>,
    /// All outgoing (server to client) topics reported by the device.
    pub topics_out: Vec<TopicReport>,
    /// All endpoints reported by the device.
    pub endpoints: Vec<EndpointReport>,
}

/// A description of a single topic.
pub struct TopicReport {
    /// The human readable path of the topic.
    pub path: String,
    /// The key of the topic (which hashes the path and type).
    pub key: Key,
    /// The schema of the type of the message.
    pub ty: OwnedNamedType,
}

/// A description of a single endpoint.
pub struct EndpointReport {
    /// The human readable path of the endpoint.
    pub path: String,
    /// The key of the request (which hashes the path and type).
    pub req_key: Key,
    /// The schema of the request type.
    pub req_ty: OwnedNamedType,
    /// The key of the response (which hashes the path and type).
    pub resp_key: Key,
    /// The schema of the response type.
    pub resp_ty: OwnedNamedType,
}

/// A named node of the data model.
pub struct OwnedNamedType {
    /// The name of this type.
    pub name: String,
    /// The type.
    pub ty: OwnedDataModelType,
}

/// The node kinds of the serde data model, as schemas describe them.
pub enum OwnedDataModelType {
    Bool,
    I8,
    U8,
    /// A variably encoded i16.
    I16,
    I32,
    I64,
    I128,
    /// A variably encoded u16.
    U16,
    U32,
    U64,
    U128,
    /// A variably encoded usize.
    Usize,
    Isize,
    F32,
    F64,
    Char,
    String,
    ByteArray,
    Option(Box<OwnedNamedType>),
    Unit,
    UnitStruct,
    NewtypeStruct(Box<OwnedNamedType>),
    Sequence(Box<OwnedNamedType>),
    Tuple(Vec<OwnedNamedType>),
    TupleStruct(Vec<OwnedNamedType>),
    Mapping { key: Box<OwnedNamedType>, val: Box<OwnedNamedType> },
    Struct(Vec<OwnedNamedValue>),
    Enum(Vec<OwnedNamedVariant>),
    /// A schema node itself.
    Schema,
}

/// The variant kinds of an enum node.
pub enum OwnedDataModelVariant {
    UnitVariant,
    NewtypeVariant(Box<OwnedNamedType>),
    TupleVariant(Vec<OwnedNamedType>),
    StructVariant(Vec<OwnedNamedValue>),
}

/// A named field of a struct node.
pub struct OwnedNamedValue {
    /// The name of this value.
    pub name: String,
    /// The type of this value.
    pub ty: OwnedNamedType,
}

/// A named variant of an enum node.
pub struct OwnedNamedVariant {
    /// The name of this variant.
    pub name: String,
    /// The type of this variant.
    pub ty: OwnedDataModelVariant,
}

/// A message proxied to or from a bridged remote device.
pub struct ProxyMessage {
    /// The unique id of the remote device, as little-endian bytes.
    pub serial: [u8; 8],
    /// The encoded payload of the message.
    pub msg: Vec<u8>,
}

/// Error when proxying to a bridged device.
#[derive(Clone, Copy, Debug, PartialEq, Eq, Structural)]
pub enum ProxyError {
    UnknownDevice,
}

/// An RGB color triple, as the simulator's status LED uses it.
#[derive(Clone, Copy, Debug, PartialEq, Eq, Structural)]
pub struct Rgb8 {
    pub r: u8,
    pub g: u8,
    pub b: u8,
}

/// A unit struct, exercising the codec's unit-struct node.
#[derive(Clone, Copy, Debug, PartialEq, Eq, Structural)]
pub struct MyUnitStruct;

/// A two-element tuple struct, exercising the codec's tuple nodes.
pub struct TwoTupStruct(pub bool, pub String);

/// A three-element tuple struct of mixed integer widths.
#[derive(Clone, Copy, Debug, PartialEq, Eq, Structural)]
pub struct ThreeTupStruct(pub i8, pub u16, pub i32);

/// One unsigned integer of every width.
#[derive(Clone, Copy, Debug, PartialEq, Eq, Structural)]
pub struct AlphaUnsigned {
    pub a: u8,
    pub b: u16,
    pub c: u32,
    pub d: u64,
    pub e: u128,
}

/// One signed integer of every width.
#[derive(Clone, Copy, Debug, PartialEq, Eq, Structural)]
pub struct AlphaSigned {
    pub a: i8,
    pub b: i16,
    pub c: i32,
    pub d: i64,
    pub e: i128,
}

/// A pair of operand records for the simulator's arithmetic endpoint.
#[derive(Clone, Copy, Debug, PartialEq, Eq, Structural)]
pub struct Beta {
    pub in_left: AlphaUnsigned,
    pub in_right: AlphaUnsigned,
}

/// The simulator's arithmetic answer: wrapping and saturating sums and
/// differences, with range flags.
#[derive(Clone, Copy, Debug, PartialEq, Eq, Structural)]
pub struct Delta {
    pub add_wrapping: AlphaUnsigned,
    pub add_saturating: AlphaUnsigned,
    pub any_add_outrange: bool,
    pub sub_wrapping: AlphaUnsigned,
    pub sub_saturating: AlphaUnsigned,
    pub any_sub_outrange: bool,
}

/// A device selection: an optional serial-or-name, and what to do with
/// the device.
pub struct Device {
    pub serial: Option<String>,
    pub command: DeviceCommands,
}

/// The operations the frontend offers on one device.
pub enum DeviceCommands {
    Types,
    Endpoints,
    TopicsOut,
    TopicsIn,
    Logs { count: Option<u32> },
    LogsRange { count: Option<u32>, start: String, direction: String },
    Proxy { path: String, message: Option<String> },
    Publish { path: String, message: Option<String> },
    Listen { path: String },
}

/// A routing key in its textual form: sixteen upper-case hex digits.
pub struct Key(pub String);

impl PartialEq for Key {
    fn eq(&self, o: &Key) -> (r: bool) {
        self.0.eq(&o.0)
    }
}

impl vstd::std_specs::cmp::PartialEqSpecImpl for Key {
    open spec fn obeys_eq_spec() -> bool {
        true
    }

    open spec fn eq_spec(&self, o: &Key) -> bool {
        self.0@ == o.0@
    }
}

impl Eq for Key {

}

/// The numeric value of a hex digit, or `-1`.
pub open spec fn hex_val(c: char) -> int {
    if '0' <= c && c <= '9' {
        c as int - 48
    } else if 'A' <= c && c <= 'F' {
        c as int - 55
    } else if 'a' <= c && c <= 'f' {
        c as int - 87
    } else {
        -1
    }
}

/// Are all characters hex digits?
pub open spec fn all_hex(s: Seq<char>) -> bool {
    forall|i: int| 0 <= i < s.len() ==> hex_val(#[trigger] s[i]) >= 0
}

/// The numeric value of a hex digit string (most significant first).
pub open spec fn hex_value(s: Seq<char>) -> nat
    decreases s.len(),
{
    if s.len() == 0 {
        0
    } else {
        (hex_value(s.drop_last()) * 16 + (if hex_val(s.last()) >= 0 {
            hex_val(s.last())
        } else {
            0
        })) as nat
    }
}

/// The upper-case hex digit for `d`.
pub open spec fn hex_char(d: int) -> char {
    if d == 0 {
        '0'
    } else if d == 1 {
        '1'
    } else if d == 2 {
        '2'
    } else if d == 3 {
        '3'
    } else if d == 4 {
        '4'
    } else if d == 5 {
        '5'
    } else if d == 6 {
        '6'
    } else if d == 7 {
        '7'
    } else if d == 8 {
        '8'
    } else if d == 9 {
        '9'
    } else if d == 10 {
        'A'
    } else if d == 11 {
        'B'
    } else if d == 12 {
        'C'
    } else if d == 13 {
        'D'
    } else if d == 14 {
        'E'
    } else {
        'F'
    }
}

/// `v` as `n` hex digits, zero-padded, most significant first.
pub open spec fn hex_pad(v: nat, n: int) -> Seq<char>
    decreases n,
{
    if n <= 0 {
        Seq::empty()
    } else {
        hex_pad(v / 16, n - 1) + seq![hex_char((v % 16) as int)]
    }
}

/// Append the hex digit for `d` (0..=15).
fn push_hex_digit(s: &mut String, d: u64)
    requires
        d < 16,
    ensures
        final(s)@ == old(s)@ + seq![hex_char(d as int)],
{
    proof {
        reveal_strlit("0");
        reveal_strlit("1");
        reveal_strlit("2");
        reveal_strlit("3");
        reveal_strlit("4");
        reveal_strlit("5");
        reveal_strlit("6");
        reveal_strlit("7");
        reveal_strlit("8");
        reveal_strlit("9");
        reveal_strlit("A");
        reveal_strlit("B");
        reveal_strlit("C");
        reveal_strlit("D");
        reveal_strlit("E");
        reveal_strlit("F");
    }
    if d == 0 {
        s.append("0");
    } else if d == 1 {
        s.append("1");
    } else if d == 2 {
        s.append("2");
    } else if d == 3 {
        s.append("3");
    } else if d == 4 {
        s.append("4");
    } else if d == 5 {
        s.append("5");
    } else if d == 6 {
        s.append("6");
    } else if d == 7 {
        s.append("7");
    } else if d == 8 {
        s.append("8");
    } else if d == 9 {
        s.append("9");
    } else if d == 10 {
        s.append("A");
    } else if d == 11 {
        s.append("B");
    } else if d == 12 {
        s.append("C");
    } else if d == 13 {
        s.append("D");
    } else if d == 14 {
        s.append("E");
    } else {
        s.append("F");
    }
}

/// `v` as `n` zero-padded upper-case hex digits.
pub fn hex_string_pad(v: u64, n: usize) -> (s: String)
    ensures
        s@ == hex_pad(v as nat, n as int),
    decreases n,
{
    if n == 0 {
        let s = String::new();
        proof {
            assert(s@ =~= hex_pad(v as nat, 0));
        }
        s
    } else {
        let mut s = hex_string_pad(v / 16, n - 1);
        push_hex_digit(&mut s, v % 16);
        s
    }
}

impl Key {
    /// The textual form of a wire key: its sixteen hex digits.
    pub fn from_wire(v: u64) -> (k: Key)
        ensures
            k.0@ == hex_pad(v as nat, 16),
    {
        Key(hex_string_pad(v, 16))
    }

    /// The wire form of a textual key: `None` when the text is not a
    /// non-empty hex digit string whose value fits eight bytes.
    pub fn to_wire(&self) -> (r: Option<u64>)
        ensures
            match r {
                Some(v) => self.0@.len() > 0 && all_hex(self.0@) && hex_value(self.0@)
                    == v as nat,
                None => self.0@.len() == 0 || !all_hex(self.0@) || hex_value(self.0@)
                    > u64::MAX as nat,
            },
    {
        hex_parse(self.0.as_str())
    }
}

/// Parse a non-empty hex string into a u64, rejecting overflow.
pub fn hex_parse(s: &str) -> (r: Option<u64>)
    ensures
        match r {
            Some(v) => s@.len() > 0 && all_hex(s@) && hex_value(s@) == v as nat,
            None => s@.len() == 0 || !all_hex(s@) || hex_value(s@) > u64::MAX as nat,
        },
{
    let n = s.unicode_len();
    if n == 0 {
        return None;
    }
    let mut acc: u64 = 0;
    let mut i: usize = 0;
    proof {
        assert(s@.take(0).len() == 0);
    }
    while i < n
        invariant
            i <= n,
            n == s@.len(),
            all_hex(s@.take(i as int)),
            acc as nat == hex_value(s@.take(i as int)),
        decreases n - i,
    {
        let c = s.get_char(i);
        let d: u64 = if c >= '0' && c <= '9' {
            (c as u32 - 48) as u64
        } else if c >= 'A' && c <= 'F' {
            (c as u32 - 55) as u64
        } else if c >= 'a' && c <= 'f' {
            (c as u32 - 87) as u64
        } else {
            proof {
                assert(hex_val(s@[i as int]) < 0);
            }
            return None;
        };
        proof {
            assert(d == hex_val(s@[i as int]));
        }
        if acc > (u64::MAX - d) / 16 {
            proof {
                assert(s@.take(i + 1).drop_last() =~= s@.take(i as int));
                assert(s@.take(i + 1).last() == s@[i as int]);
                assert((acc as nat) * 16 + d > u64::MAX as nat) by (nonlinear_arith)
                    requires
                        acc > (u64::MAX - d) / 16,
                        d < 16,
                        acc <= u64::MAX,
                ;
                lemma_hex_value_grows(s@, i + 1);
            }
            return None;
        }
        proof {
            assert((acc as nat) * 16 + d <= u64::MAX as nat) by (nonlinear_arith)
                requires
                    acc <= (u64::MAX - d) / 16,
                    d < 16,
            ;
            assert(s@.take(i + 1).drop_last() =~= s@.take(i as int));
            assert(s@.take(i + 1).last() == s@[i as int]);
        }
        acc = acc * 16 + d;
        i = i + 1;
    }
    proof {
        assert(s@.take(n as int) =~= s@);
    }
    Some(acc)
}

/// Once a prefix's value exceeds the range, the whole string's value
/// does too.
proof fn lemma_hex_value_grows(s: Seq<char>, i: int)
    requires
        0 <= i <= s.len(),
    ensures
        hex_value(s) >= hex_value(s.take(i)),
    decreases s.len() - i,
{
    if i < s.len() {
        lemma_hex_value_grows(s, i + 1);
        assert(s.take(i + 1).drop_last() =~= s.take(i));
        let v = hex_value(s.take(i));
        let d = if hex_val(s.take(i + 1).last()) >= 0 {
            hex_val(s.take(i + 1).last())
        } else {
            0
        };
        assert(hex_value(s.take(i + 1)) == (v * 16 + d) as nat);
        assert(v * 16 + d >= v) by (nonlinear_arith)
            requires
                v >= 0,
                d >= 0,
        ;
    } else {
        assert(s.take(i) =~= s);
    }
}

/// The decimal image of `n`.
pub open spec fn dec_str(n: nat) -> Seq<char>
    decreases n,
{
    if n < 10 {
        seq![hex_char(n as int)]
    } else {
        dec_str(n / 10) + seq![hex_char((n % 10) as int)]
    }
}

/// `n` in decimal.
pub fn dec_string(n: u64) -> (s: String)
    ensures
        s@ == dec_str(n as nat),
    decreases n,
{
    if n < 10 {
        let mut s = String::new();
        push_hex_digit(&mut s, n);
        proof {
            assert(s@ =~= dec_str(n as nat));
        }
        s
    } else {
        let mut s = dec_string(n / 10);
        push_hex_digit(&mut s, n % 10);
        s
    }
}

/// The wire-error text a failed proxy call reports, e.g.
/// `"UnknownKey"` or `"FrameTooLong { len: 5, max: 3 }"`.
pub open spec fn wire_error_text(e: WireError) -> Seq<char> {
    match e {
        WireError::FrameTooLong(f) => "FrameTooLong { len: "@ + dec_str(f.len as nat)
            + ", max: "@ + dec_str(f.max as nat) + " }"@,
        WireError::FrameTooShort(f) => "FrameTooShort { len: "@ + dec_str(f.len as nat) + " }"@,
        WireError::DeserFailed => "DeserFailed"@,
        WireError::SerFailed => "SerFailed"@,
        WireError::UnknownKey => "UnknownKey"@,
        WireError::FailedToSpawn => "FailedToSpawn"@,
        WireError::KeyTooSmall => "KeyTooSmall"@,
    }
}

/// Render a wire error as text.
pub fn wire_error_message(e: &WireError) -> (s: String)
    ensures
        s@ == wire_error_text(*e),
{
    match e {
        WireError::FrameTooLong(f) => {
            let mut s = String::new();
            s.append("FrameTooLong { len: ");
            let lenstr = dec_string(f.len as u64);
            s.append(lenstr.as_str());
            s.append(", max: ");
            let maxstr = dec_string(f.max as u64);
            s.append(maxstr.as_str());
            s.append(" }");
            proof {
                assert(s@ =~= wire_error_text(*e));
            }
            s
        },
        WireError::FrameTooShort(f) => {
            let mut s = String::new();
            s.append("FrameTooShort { len: ");
            let lenstr = dec_string(f.len as u64);
            s.append(lenstr.as_str());
            s.append(" }");
            proof {
                assert(s@ =~= wire_error_text(*e));
            }
            s
        },
        WireError::DeserFailed => String::from_str("DeserFailed"),
        WireError::SerFailed => String::from_str("SerFailed"),
        WireError::UnknownKey => String::from_str("UnknownKey"),
        WireError::FailedToSpawn => String::from_str("FailedToSpawn"),
        WireError::KeyTooSmall => String::from_str("KeyTooSmall"),
    }
}

} // verus!
