//! The objects that clients and the server exchange: who sent a message,
//! when, and what it carries (text, an image, or a big file's offer,
//! acceptance or data), and a client's first request. Each has a view made of plain values,
//! over which the contracts speak.

use vstd::prelude::*;

verus! {

/// A point in time: seconds since the Unix epoch and nanoseconds within the
/// second, as protobuf's well-known `Timestamp` holds it.
#[derive(Clone, Copy, Debug, PartialEq, Eq, Structural, Hash)]
pub struct Timestamp {
    pub seconds: i64,
    pub nanos: i32,
}

impl Timestamp {
    /// Whether two timestamps are the same, field by field.
    pub fn same(&self, other: &Timestamp) -> (res: bool)
        ensures
            res == (*self == *other),
    {
        self.seconds == other.seconds && self.nanos == other.nanos
    }
}

/// Who sent a message.
#[derive(Clone, Debug, PartialEq, Eq)]
pub struct Sender {
    pub uuid: u64,
    pub name: String,
}

pub struct SenderView {
    pub uuid: u64,
    pub name: Seq<char>,
}

impl View for Sender {
    type V = SenderView;

    open spec fn view(&self) -> SenderView {
        SenderView { uuid: self.uuid, name: self.name@ }
    }
}

/// The view of an optional sender.
pub open spec fn sender_view(s: Option<Sender>) -> Option<SenderView> {
    match s {
        Some(s) => Some(s@),
        None => None,
    }
}

impl Sender {
    /// A copy of the sender.
    pub fn duplicate(&self) -> (res: Sender)
        ensures
            res@ == self@,
    {
        Sender { uuid: self.uuid, name: self.name.clone() }
    }
}

/// A copy of an optional sender.
pub fn duplicate_sender(s: &Option<Sender>) -> (res: Option<Sender>)
    ensures
        sender_view(res) == sender_view(*s),
{
    match s {
        Some(s) => Some(s.duplicate()),
        None => None,
    }
}

/// Offers a big file: its name and its size in bytes.
#[derive(Clone, Debug, PartialEq, Eq)]
pub struct BigFileOffer {
    pub filename: String,
    pub byte_amount: u64,
}

/// Some bytes of the big file whose offer carried the timestamp `file_id`.
#[derive(Clone, Debug, PartialEq, Eq)]
pub struct BigFileData {
    pub file_id: Option<Timestamp>,
    pub bytes: Vec<u8>,
}

/// What a message carries.
#[derive(Clone, Debug, PartialEq, Eq)]
pub enum Data {
    Image(Vec<u8>),
    Text(String),
    BigFileOffer(BigFileOffer),
    /// Accepts the offer that carried this timestamp.
    BigFileAccept(Timestamp),
    BigFileData(BigFileData),
}

pub enum DataView {
    Image(Seq<u8>),
    Text(Seq<char>),
    BigFileOffer { filename: Seq<char>, byte_amount: u64 },
    BigFileAccept(Timestamp),
    BigFileData { file_id: Option<Timestamp>, bytes: Seq<u8> },
}

impl View for Data {
    type V = DataView;

    open spec fn view(&self) -> DataView {
        match self {
            Data::Image(b) => DataView::Image(b@),
            Data::Text(t) => DataView::Text(t@),
            Data::BigFileOffer(o) => DataView::BigFileOffer {
                filename: o.filename@,
                byte_amount: o.byte_amount,
            },
            Data::BigFileAccept(ts) => DataView::BigFileAccept(*ts),
            Data::BigFileData(d) => DataView::BigFileData { file_id: d.file_id, bytes: d.bytes@ },
        }
    }
}

/// A message: its sender, when it was sent and what it carries.
#[derive(Clone, Debug, PartialEq, Eq)]
pub struct Message {
    pub sender: Option<Sender>,
    pub timestamp: Option<Timestamp>,
    pub data: Option<Data>,
}

pub struct MessageView {
    pub sender: Option<SenderView>,
    pub timestamp: Option<Timestamp>,
    pub data: Option<DataView>,
}

impl View for Message {
    type V = MessageView;

    open spec fn view(&self) -> MessageView {
        MessageView {
            sender: sender_view(self.sender),
            timestamp: self.timestamp,
            data: match self.data {
                Some(d) => Some(d@),
                None => None,
            },
        }
    }
}

/// The first message of a client: who it is, and since when it wants the
/// messages it missed.
#[derive(Clone, Debug, PartialEq, Eq)]
pub struct MessageRequest {
    pub sender: Option<Sender>,
    pub since: Option<Timestamp>,
}

} // verus!
