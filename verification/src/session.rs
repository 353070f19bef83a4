//! The decisions the server takes for one connected client: how it greets it,
//! which of its missed messages it sends, which broadcast messages it forwards
//! to it, and what it does with each message the client sends, including the
//! bookkeeping of the big files the client is uploading.
//!
//! The caller performs what is decided (replies, file writes, storage and
//! broadcast) and hands each incoming message to [`ClientSession::handle_message`].

use vstd::prelude::*;
use crate::args::{big_file_path, timestamp_text, ServerArgs};
use crate::text::replace_all;
use crate::big_file::{BigFileWriter, WriteError};
use crate::messages::{
    duplicate_sender, sender_view, BigFileData, Data, DataView, Message, MessageRequest,
    MessageView, Sender, SenderView, Timestamp,
};

verus! {

/// A big file being uploaded: its writer state and the offer message that
/// announced it, which is stored and broadcast once the file is complete.
pub struct PendingBigFile {
    writer: BigFileWriter,
    offer: Message,
}

/// What the session knows of a big file being uploaded.
pub struct PendingView {
    /// How many promised bytes are still to come.
    pub remaining: usize,
    /// Where the file is written.
    pub path: Seq<char>,
    /// The offer message.
    pub offer: MessageView,
}

spec fn entry_view(e: PendingBigFile) -> PendingView {
    PendingView {
        remaining: e.writer.remaining(),
        path: e.writer.spec_file_path(),
        offer: e.offer@,
    }
}

spec fn entry_id(e: PendingBigFile) -> Timestamp {
    e.writer.spec_id()
}

/// No two entries are for the same offer.
spec fn ids_distinct(s: Seq<PendingBigFile>) -> bool {
    forall|i: int, j: int|
        0 <= i < s.len() && 0 <= j < s.len() && i != j ==> entry_id(#[trigger] s[i]) != entry_id(
            #[trigger] s[j],
        )
}

/// The entries as a map from the offer's id.
spec fn entries_map(s: Seq<PendingBigFile>) -> Map<Timestamp, PendingView> {
    Map::new(
        |id: Timestamp| exists|i: int| 0 <= i < s.len() && entry_id(#[trigger] s[i]) == id,
        |id: Timestamp|
            entry_view(s[choose|i: int| 0 <= i < s.len() && entry_id(#[trigger] s[i]) == id]),
    )
}

proof fn lemma_entries_map_at(s: Seq<PendingBigFile>, i: int)
    requires
        ids_distinct(s),
        0 <= i < s.len(),
    ensures
        entries_map(s).contains_key(entry_id(s[i])),
        entries_map(s)[entry_id(s[i])] == entry_view(s[i]),
{
    let id = entry_id(s[i]);
    assert(exists|k: int| 0 <= k < s.len() && entry_id(#[trigger] s[k]) == id);
    let j = choose|k: int| 0 <= k < s.len() && entry_id(#[trigger] s[k]) == id;
    assert(j == i);
}

proof fn lemma_entries_map_push(s: Seq<PendingBigFile>, e: PendingBigFile)
    requires
        ids_distinct(s),
        !entries_map(s).contains_key(entry_id(e)),
    ensures
        ids_distinct(s.push(e)),
        entries_map(s.push(e)) == entries_map(s).insert(entry_id(e), entry_view(e)),
{
    let t = s.push(e);
    assert forall|i: int, j: int|
        0 <= i < t.len() && 0 <= j < t.len() && i != j implies entry_id(#[trigger] t[i])
        != entry_id(#[trigger] t[j]) by {
        if i < s.len() && j < s.len() {
            assert(t[i] == s[i] && t[j] == s[j]);
        } else if i < s.len() {
            assert(t[i] == s[i]);
            if entry_id(s[i]) == entry_id(e) {
                assert(entries_map(s).contains_key(entry_id(e)));
            }
        } else {
            assert(t[j] == s[j]);
            if entry_id(s[j]) == entry_id(e) {
                assert(entries_map(s).contains_key(entry_id(e)));
            }
        }
    }
    let m = entries_map(s).insert(entry_id(e), entry_view(e));
    assert forall|id: Timestamp| #[trigger] entries_map(t).contains_key(id) <==> m.contains_key(id) by {
        if entries_map(t).contains_key(id) {
            let k = choose|k: int| 0 <= k < t.len() && entry_id(#[trigger] t[k]) == id;
            if k < s.len() {
                assert(t[k] == s[k]);
            }
        }
        if entries_map(s).contains_key(id) {
            let k = choose|k: int| 0 <= k < s.len() && entry_id(#[trigger] s[k]) == id;
            assert(t[k] == s[k]);
        }
        if id == entry_id(e) {
            assert(t[s.len() as int] == e);
        }
    }
    assert forall|id: Timestamp| #[trigger] entries_map(t).contains_key(id) implies entries_map(t)[id]
        == m[id] by {
        let k = choose|k: int| 0 <= k < t.len() && entry_id(#[trigger] t[k]) == id;
        lemma_entries_map_at(t, k);
        if k < s.len() {
            assert(t[k] == s[k]);
            lemma_entries_map_at(s, k);
        } else {
            assert(t[k] == e);
        }
    }
    assert(entries_map(t) =~= m);
}

proof fn lemma_entries_map_remove(s: Seq<PendingBigFile>, i: int)
    requires
        ids_distinct(s),
        0 <= i < s.len(),
    ensures
        ids_distinct(s.remove(i)),
        entries_map(s.remove(i)) == entries_map(s).remove(entry_id(s[i])),
{
    let t = s.remove(i);
    let gone = entry_id(s[i]);
    assert forall|a: int| 0 <= a < t.len() implies #[trigger] t[a] == s[if a < i { a } else { a + 1 }] by {}
    assert forall|a: int, b: int|
        0 <= a < t.len() && 0 <= b < t.len() && a != b implies entry_id(#[trigger] t[a])
        != entry_id(#[trigger] t[b]) by {
        let a1 = if a < i { a } else { a + 1 };
        let b1 = if b < i { b } else { b + 1 };
        assert(t[a] == s[a1] && t[b] == s[b1]);
    }
    let m = entries_map(s).remove(gone);
    assert forall|id: Timestamp| #[trigger] entries_map(t).contains_key(id) <==> m.contains_key(id) by {
        if entries_map(t).contains_key(id) {
            let k = choose|k: int| 0 <= k < t.len() && entry_id(#[trigger] t[k]) == id;
            let k1 = if k < i { k } else { k + 1 };
            assert(t[k] == s[k1]);
            assert(entry_id(s[k1]) == id);
            assert(k1 != i);
        }
        if m.contains_key(id) {
            let k = choose|k: int| 0 <= k < s.len() && entry_id(#[trigger] s[k]) == id;
            assert(k != i);
            let k1 = if k < i { k } else { k - 1 };
            assert(t[k1] == s[k]);
        }
    }
    assert forall|id: Timestamp| #[trigger] entries_map(t).contains_key(id) implies entries_map(t)[id]
        == m[id] by {
        let k = choose|k: int| 0 <= k < t.len() && entry_id(#[trigger] t[k]) == id;
        let k1 = if k < i { k } else { k + 1 };
        assert(t[k] == s[k1]);
        lemma_entries_map_at(t, k);
        lemma_entries_map_at(s, k1);
    }
    assert(entries_map(t) =~= m);
}


/// What the caller is to do with a message the client sent.
#[derive(Debug, PartialEq, Eq)]
pub enum ClientAction {
    /// Nothing.
    Ignore,
    /// Send `reply`, accepting the offer with id `id`, and open the file at
    /// `path` to receive `byte_amount` bytes; a file already open for the same
    /// id is dropped.
    AcceptBigFile { reply: Message, path: String, id: Timestamp, byte_amount: usize },
    /// Write `bytes` to the file with id `id`. When `completed` holds the
    /// offer, the file is complete: shut it down, close it, and store and
    /// broadcast the offer.
    WriteBigFile { id: Timestamp, bytes: Vec<u8>, completed: Option<Message> },
    /// Refuse data for the file with id `id`: it carries more bytes than are
    /// still to come. Nothing is written and the upload stands as it was; the
    /// connection fails with `error`.
    RefuseBigFileData { id: Timestamp, error: WriteError },
    /// Send the stored file at `path`, in sections, as data of the file `id`.
    SendBigFile { path: String, id: Timestamp },
    /// Store the message and broadcast it to the other clients.
    StoreAndBroadcast(Message),
}

pub enum ActionView {
    Ignore,
    AcceptBigFile { reply: MessageView, path: Seq<char>, id: Timestamp, byte_amount: usize },
    WriteBigFile { id: Timestamp, bytes: Seq<u8>, completed: Option<MessageView> },
    RefuseBigFileData { id: Timestamp, error: WriteError },
    SendBigFile { path: Seq<char>, id: Timestamp },
    StoreAndBroadcast(MessageView),
}

impl View for ClientAction {
    type V = ActionView;

    open spec fn view(&self) -> ActionView {
        match self {
            ClientAction::Ignore => ActionView::Ignore,
            ClientAction::AcceptBigFile { reply, path, id, byte_amount } => ActionView::AcceptBigFile {
                reply: reply@,
                path: path@,
                id: *id,
                byte_amount: *byte_amount,
            },
            ClientAction::WriteBigFile { id, bytes, completed } => ActionView::WriteBigFile {
                id: *id,
                bytes: bytes@,
                completed: match completed {
                    Some(m) => Some(m@),
                    None => None,
                },
            },
            ClientAction::RefuseBigFileData { id, error } => ActionView::RefuseBigFileData {
                id: *id,
                error: *error,
            },
            ClientAction::SendBigFile { path, id } => ActionView::SendBigFile { path: path@, id: *id },
            ClientAction::StoreAndBroadcast(m) => ActionView::StoreAndBroadcast(m@),
        }
    }
}

/// The server's reply accepting the offer with id `ts`: sent by the server,
/// with the zero timestamp.
pub open spec fn accept_reply(server: Option<SenderView>, ts: Timestamp) -> MessageView {
    MessageView {
        sender: server,
        timestamp: Some(Timestamp { seconds: 0, nanos: 0 }),
        data: Some(DataView::BigFileAccept(ts)),
    }
}

/// The messages on which the server does not fail: each carries data, and an
/// offer of a nonempty file carries a timestamp.
pub open spec fn handled(pending: Map<Timestamp, PendingView>, msg: MessageView) -> bool {
    &&& msg.data is Some
    &&& (msg.data.unwrap() matches DataView::BigFileOffer { byte_amount, .. } ==> (byte_amount
        > 0 ==> msg.timestamp is Some))
}

/// One message from the client: the files being uploaded afterwards, and what
/// is to be done. `directory` is where big files are kept and `server` is the
/// server's sender.
///
/// An offer of a nonempty file is accepted: a reply goes back, and the file is
/// expected (replacing any file expected under the same id). An offer of an
/// empty file is ignored. Data for a file being uploaded is written and
/// counted; the data that brings the count to zero completes the file, whose
/// offer is then stored and broadcast; data carrying more bytes than are still
/// to come is refused with an error, and the upload stands as it was. Data for
/// any other file is ignored. An
/// acceptance makes the server send the stored file. Any other message is
/// stored and broadcast as it is.
pub open spec fn session_step(
    pending: Map<Timestamp, PendingView>,
    msg: MessageView,
    directory: Seq<char>,
    server: Option<SenderView>,
) -> (Map<Timestamp, PendingView>, ActionView) {
    match msg.data.unwrap() {
        DataView::BigFileOffer { byte_amount, .. } => {
            if byte_amount > 0 {
                let ts = msg.timestamp.unwrap();
                let path = big_file_path(directory, ts);
                let amount = byte_amount as usize;
                (
                    pending.insert(ts, PendingView { remaining: amount, path, offer: msg }),
                    ActionView::AcceptBigFile {
                        reply: accept_reply(server, ts),
                        path,
                        id: ts,
                        byte_amount: amount,
                    },
                )
            } else {
                (pending, ActionView::Ignore)
            }
        },
        DataView::BigFileData { file_id, bytes } => match file_id {
            Some(id) => if pending.contains_key(id) {
                let entry = pending[id];
                let left = (entry.remaining - bytes.len()) as usize;
                if bytes.len() > entry.remaining {
                    (
                        pending,
                        ActionView::RefuseBigFileData { id, error: WriteError::PastPromisedSize },
                    )
                } else if left == 0 {
                    (
                        pending.remove(id),
                        ActionView::WriteBigFile { id, bytes, completed: Some(entry.offer) },
                    )
                } else {
                    (
                        pending.insert(id, PendingView { remaining: left, ..entry }),
                        ActionView::WriteBigFile { id, bytes, completed: None },
                    )
                }
            } else {
                (pending, ActionView::Ignore)
            },
            None => (pending, ActionView::Ignore),
        },
        DataView::BigFileAccept(ts) => (
            pending,
            ActionView::SendBigFile { path: big_file_path(directory, ts), id: ts },
        ),
        _ => (pending, ActionView::StoreAndBroadcast(msg)),
    }
}

/// The server's side of one client's connection: the big files the client
/// is uploading, by the id (timestamp) of their offers.
pub struct ClientSession {
    pending: Vec<PendingBigFile>,
}

impl ClientSession {
    /// The big files being uploaded, by id.
    pub closed spec fn pending_map(&self) -> Map<Timestamp, PendingView> {
        entries_map(self.pending@)
    }

    pub closed spec fn wf(&self) -> bool {
        ids_distinct(self.pending@)
    }

    /// A session in which no file is being uploaded.
    pub fn new() -> (s: Self)
        ensures
            s.wf(),
            s.pending_map() == Map::<Timestamp, PendingView>::empty(),
    {
        let s = ClientSession { pending: Vec::new() };
        assert(s.pending_map() =~= Map::<Timestamp, PendingView>::empty());
        s
    }

    /// Where in the entries the file with id `id` stands, if it is being uploaded.
    fn find(&self, id: &Timestamp) -> (r: Option<usize>)
        requires
            self.wf(),
        ensures
            match r {
                Some(i) => i < self.pending@.len() && entry_id(self.pending@[i as int]) == *id,
                None => !self.pending_map().contains_key(*id),
            },
    {
        let mut i: usize = 0;
        while i < self.pending.len()
            invariant
                i <= self.pending@.len(),
                forall|k: int| 0 <= k < i ==> entry_id(#[trigger] self.pending@[k]) != *id,
            decreases self.pending@.len() - i,
        {
            let found = self.pending[i].writer.id();
            if found.same(id) {
                return Some(i);
            }
            i = i + 1;
        }
        None
    }

    /// Whether the server handles `msg` without failing (see [`handled`]).
    pub fn can_handle(&self, msg: &Message) -> (res: bool)
        requires
            self.wf(),
        ensures
            res == handled(self.pending_map(), msg@),
    {
        match &msg.data {
            None => false,
            Some(Data::BigFileOffer(o)) => o.byte_amount == 0 || msg.timestamp.is_some(),
            Some(_) => true,
        }
    }

    /// Takes one message from the client and decides what is to be done with
    /// it (see [`session_step`]).
    pub fn handle_message(&mut self, message: Message, args: &ServerArgs) -> (action: ClientAction)
        requires
            old(self).wf(),
            handled(old(self).pending_map(), message@),
        ensures
            final(self).wf(),
            (final(self).pending_map(), action@) == session_step(
                old(self).pending_map(),
                message@,
                args.env_args.big_file_directory@,
                sender_view(args.default_sender),
            ),
    {
        let offered: Option<u64> = match &message.data {
            Some(Data::BigFileOffer(o)) => Some(o.byte_amount),
            _ => None,
        };
        if let Some(byte_amount) = offered {
            if byte_amount == 0 {
                return ClientAction::Ignore;
            }
            let ts = match message.timestamp {
                Some(ts) => ts,
                None => {
                    return ClientAction::Ignore;
                },
            };
            let reply = Message {
                sender: duplicate_sender(&args.default_sender),
                timestamp: Some(Timestamp { seconds: 0, nanos: 0 }),
                data: Some(Data::BigFileAccept(ts)),
            };
            let path = args.generate_big_file_path(&ts);
            let amount = byte_amount as usize;
            let ghost msg_view = message@;
            let entry = PendingBigFile {
                writer: BigFileWriter::new(path.clone(), ts, amount),
                offer: message,
            };
            let ghost before = self.pending@;
            match self.find(&ts) {
                Some(i) => {
                    proof {
                        lemma_entries_map_remove(self.pending@, i as int);
                    }
                    let _ = self.pending.remove(i);
                },
                None => {},
            }
            proof {
                lemma_entries_map_push(self.pending@, entry);
            }
            self.pending.push(entry);
            assert(self.pending_map() =~= entries_map(before).insert(ts, PendingView {
                remaining: amount,
                path: path@,
                offer: msg_view,
            }));
            return ClientAction::AcceptBigFile { reply, path, id: ts, byte_amount: amount };
        }
        let ghost msg_view = message@;
        match message.data {
            Some(Data::BigFileData(BigFileData { file_id, bytes })) => match file_id {
                Some(id) => match self.find(&id) {
                    Some(i) => {
                        let ghost before = self.pending@;
                        proof {
                            lemma_entries_map_at(before, i as int);
                            lemma_entries_map_remove(before, i as int);
                        }
                        let mut entry = self.pending.remove(i);
                        let ghost old_entry = entry_view(entry);
                        match entry.writer.write_bytes(bytes.as_slice()) {
                            Ok(true) => {
                                let completed = Some(entry.offer);
                                ClientAction::WriteBigFile { id, bytes, completed }
                            },
                            Ok(false) => {
                                proof {
                                    lemma_entries_map_push(self.pending@, entry);
                                }
                                self.pending.push(entry);
                                assert(self.pending_map() =~= entries_map(before).insert(
                                    id,
                                    PendingView {
                                        remaining: entry.writer.remaining(),
                                        ..entries_map(before)[id]
                                    },
                                ));
                                ClientAction::WriteBigFile { id, bytes, completed: None }
                            },
                            Err(error) => {
                                proof {
                                    lemma_entries_map_push(self.pending@, entry);
                                }
                                self.pending.push(entry);
                                assert(entry_view(entry) == old_entry);
                                assert(self.pending_map() =~= entries_map(before));
                                ClientAction::RefuseBigFileData { id, error }
                            },
                        }
                    },
                    None => ClientAction::Ignore,
                },
                None => ClientAction::Ignore,
            },
            Some(Data::BigFileAccept(ts)) => {
                let path = args.generate_big_file_path(&ts);
                ClientAction::SendBigFile { path, id: ts }
            },
            Some(other) => ClientAction::StoreAndBroadcast(
                Message { sender: message.sender, timestamp: message.timestamp, data: Some(other) },
            ),
            None => ClientAction::Ignore,
        }
    }
}


/// The message that greets a connecting client: only a client that connects
/// for the first time (`already_known` is false) is greeted, and only if the
/// server has a welcome text; the greeting is that text, sent by the server,
/// without a timestamp.
pub fn welcome_message(args: &ServerArgs, already_known: bool) -> (res: Option<Message>)
    ensures
        match args.env_args.welcome_message {
            Some(text) => if already_known {
                res is None
            } else {
                res matches Some(m) && m@ == (MessageView {
                    sender: sender_view(args.default_sender),
                    timestamp: None,
                    data: Some(DataView::Text(text@)),
                })
            },
            None => res is None,
        },
{
    if already_known {
        return None;
    }
    match &args.env_args.welcome_message {
        Some(text) => Some(
            Message {
                sender: duplicate_sender(&args.default_sender),
                timestamp: None,
                data: Some(Data::Text(text.clone())),
            },
        ),
        None => None,
    }
}

/// Whether the server can answer the request without failing: a request that
/// names its sender also says since when it wants the messages.
pub open spec fn history_answerable(request: MessageRequest) -> bool {
    request.sender is Some ==> request.since is Some
}

/// The missed messages a client asks for in its first message: when it names
/// itself, the messages since `since` that others sent, so the client itself
/// and the time; nothing when it does not name itself.
pub fn requested_history(request: &MessageRequest) -> (res: Option<(Sender, Timestamp)>)
    requires
        history_answerable(*request),
    ensures
        match request.sender {
            Some(s) => res matches Some((r, t)) && r@ == s@ && Some(t) == request.since,
            None => res is None,
        },
{
    match &request.sender {
        Some(s) => match request.since {
            Some(t) => Some((s.duplicate(), t)),
            None => None,
        },
        None => None,
    }
}

/// Whether a broadcast message goes to the client `this_client`: exactly when
/// someone else sent it, so that no client gets its own messages back.
pub fn should_forward(message: &Message, this_client: &Option<Sender>) -> (res: bool)
    ensures
        res == (message@.sender != sender_view(*this_client)),
{
    match (&message.sender, this_client) {
        (Some(a), Some(b)) => {
            let same = a.uuid == b.uuid && a.name == b.name;
            if !same {
                assert(a@ != b@);
            }
            !same
        },
        (None, None) => false,
        _ => true,
    }
}

/// The message that carries one section of the stored file `ts` to the
/// client: only its data, without sender or timestamp.
pub fn file_data_message(ts: Timestamp, bytes: &[u8]) -> (res: Message)
    ensures
        res@ == (MessageView {
            sender: None,
            timestamp: None,
            data: Some(DataView::BigFileData { file_id: Some(ts), bytes: bytes@ }),
        }),
{
    Message {
        sender: None,
        timestamp: None,
        data: Some(Data::BigFileData(BigFileData { file_id: Some(ts), bytes: vstd::slice::slice_to_vec(bytes) })),
    }
}


/// Several messages from the client, one after the other: the files being
/// uploaded afterwards, and what is to be done for each message, in order.
pub open spec fn session_run(
    pending: Map<Timestamp, PendingView>,
    msgs: Seq<MessageView>,
    directory: Seq<char>,
    server: Option<SenderView>,
) -> (Map<Timestamp, PendingView>, Seq<ActionView>)
    decreases msgs.len(),
{
    if msgs.len() == 0 {
        (pending, Seq::empty())
    } else {
        let (p1, a1) = session_step(pending, msgs[0], directory, server);
        let (p2, rest) = session_run(p1, msgs.drop_first(), directory, server);
        (p2, seq![a1] + rest)
    }
}

/// Whether `msg` carries data of the big file `id`.
pub open spec fn is_data_for(msg: MessageView, id: Timestamp) -> bool {
    msg.data matches Some(DataView::BigFileData { file_id: Some(f), .. }) && f == id
}

/// The bytes a data message carries.
pub open spec fn data_bytes(msg: MessageView) -> Seq<u8> {
    match msg.data {
        Some(DataView::BigFileData { bytes, .. }) => bytes,
        _ => Seq::empty(),
    }
}

/// How many bytes some data messages carry together.
pub open spec fn total_bytes(msgs: Seq<MessageView>) -> nat
    decreases msgs.len(),
{
    if msgs.len() == 0 {
        0
    } else {
        data_bytes(msgs[0]).len() + total_bytes(msgs.drop_first())
    }
}

/// An upload completes exactly when its promised bytes have arrived: data
/// messages for a file being uploaded that carry together exactly the bytes
/// still to come, the last of them carrying some, are each written; only the
/// last completes the file and hands its offer to be stored and broadcast; the
/// file is then no longer being uploaded, and no other upload is touched.
pub proof fn lemma_upload_completes(
    pending: Map<Timestamp, PendingView>,
    id: Timestamp,
    msgs: Seq<MessageView>,
    directory: Seq<char>,
    server: Option<SenderView>,
)
    requires
        pending.contains_key(id),
        msgs.len() > 0,
        forall|i: int| 0 <= i < msgs.len() ==> is_data_for(#[trigger] msgs[i], id),
        data_bytes(msgs.last()).len() > 0,
        total_bytes(msgs) == pending[id].remaining,
    ensures
        ({
            let (after, actions) = session_run(pending, msgs, directory, server);
            &&& after == pending.remove(id)
            &&& actions.len() == msgs.len()
            &&& forall|i: int|
                0 <= i < msgs.len() - 1 ==> #[trigger] actions[i] == ActionView::WriteBigFile {
                    id,
                    bytes: data_bytes(msgs[i]),
                    completed: None,
                }
            &&& actions.last() == ActionView::WriteBigFile {
                id,
                bytes: data_bytes(msgs.last()),
                completed: Some(pending[id].offer),
            }
        }),
    decreases msgs.len(),
{
    let first = msgs[0];
    assert(is_data_for(first, id));
    let entry = pending[id];
    let (p1, a1) = session_step(pending, first, directory, server);
    let rest = msgs.drop_first();
    if msgs.len() == 1 {
        assert(rest.len() == 0);
        assert(total_bytes(rest) == 0);
        assert(msgs.last() == first);
        assert(session_run(p1, rest, directory, server) == (p1, Seq::<ActionView>::empty()));
        assert(p1 == pending.remove(id));
        assert(seq![a1] + Seq::<ActionView>::empty() =~= seq![a1]);
    } else {
        assert(rest.last() == msgs.last());
        assert(forall|i: int| 0 <= i < rest.len() ==> rest[i] == msgs[i + 1]);
        assert(total_bytes(rest) > 0) by {
            lemma_total_bytes_last(rest);
        }
        let left = (entry.remaining - data_bytes(first).len()) as usize;
        assert(left == total_bytes(rest));
        assert(p1 == pending.insert(id, PendingView { remaining: left, ..entry }));
        lemma_upload_completes(p1, id, rest, directory, server);
        let (p2, acts) = session_run(p1, rest, directory, server);
        assert(p1.remove(id) =~= pending.remove(id));
        let all = seq![a1] + acts;
        assert forall|i: int| 0 <= i < msgs.len() - 1 implies #[trigger] all[i]
            == ActionView::WriteBigFile { id, bytes: data_bytes(msgs[i]), completed: None } by {
            if i > 0 {
                assert(all[i] == acts[i - 1]);
            }
        }
        assert(all.last() == acts.last());
    }
}

proof fn lemma_total_bytes_last(msgs: Seq<MessageView>)
    requires
        msgs.len() > 0,
    ensures
        total_bytes(msgs) >= data_bytes(msgs.last()).len(),
    decreases msgs.len(),
{
    if msgs.len() > 1 {
        lemma_total_bytes_last(msgs.drop_first());
        assert(msgs.drop_first().last() == msgs.last());
    }
}

/// Every file being uploaded is expected under the id of its own offer: the
/// offer carries that timestamp and is a big-file offer.
pub open spec fn offers_consistent(pending: Map<Timestamp, PendingView>) -> bool {
    forall|id: Timestamp|
        #[trigger] pending.contains_key(id) ==> pending[id].offer.timestamp == Some(id)
            && pending[id].offer.data matches Some(DataView::BigFileOffer { .. })
}

/// Every message the server handles keeps each file being uploaded under the
/// id of its own offer; so what is broadcast when an upload completes is the
/// offer that announced that very file.
pub proof fn lemma_step_keeps_offers_consistent(
    pending: Map<Timestamp, PendingView>,
    msg: MessageView,
    directory: Seq<char>,
    server: Option<SenderView>,
)
    requires
        offers_consistent(pending),
        handled(pending, msg),
    ensures
        offers_consistent(session_step(pending, msg, directory, server).0),
        session_step(pending, msg, directory, server).1 matches ActionView::WriteBigFile {
            id,
            completed: Some(offer),
            ..
        } ==> offer.timestamp == Some(id) && offer.data matches Some(
            DataView::BigFileOffer { .. },
        ),
{
    let after = session_step(pending, msg, directory, server).0;
    assert forall|id: Timestamp| #[trigger] after.contains_key(id) implies after[id].offer.timestamp
        == Some(id) && after[id].offer.data matches Some(DataView::BigFileOffer { .. }) by {
        assert(pending.contains_key(id) ==> pending[id].offer.timestamp == Some(id));
    }
}

/// An offer followed by its whole upload: a nonempty offer is accepted with a
/// reply that accepts its timestamp; then data messages for it that carry
/// together exactly the promised bytes (the last carrying some) complete it
/// with the last one, which hands out that very offer to be stored and
/// broadcast; afterwards the file is no longer being uploaded.
pub proof fn lemma_offer_then_upload(
    pending: Map<Timestamp, PendingView>,
    offer: MessageView,
    msgs: Seq<MessageView>,
    directory: Seq<char>,
    server: Option<SenderView>,
)
    requires
        offer.data matches Some(DataView::BigFileOffer { byte_amount, .. }) && byte_amount > 0
            && byte_amount <= usize::MAX,
        offer.timestamp is Some,
        msgs.len() > 0,
        forall|i: int| 0 <= i < msgs.len() ==> is_data_for(#[trigger] msgs[i], offer.timestamp.unwrap()),
        data_bytes(msgs.last()).len() > 0,
        offer.data matches Some(DataView::BigFileOffer { byte_amount, .. }) && total_bytes(msgs)
            == byte_amount,
    ensures
        ({
            let id = offer.timestamp.unwrap();
            let (after, actions) = session_run(pending, seq![offer] + msgs, directory, server);
            &&& after == pending.remove(id)
            &&& actions.len() == msgs.len() + 1
            &&& actions[0] matches ActionView::AcceptBigFile { reply, id: accepted, .. } && accepted
                == id && reply.data == Some(DataView::BigFileAccept(id))
            &&& actions.last() == ActionView::WriteBigFile {
                id,
                bytes: data_bytes(msgs.last()),
                completed: Some(offer),
            }
        }),
{
    let id = offer.timestamp.unwrap();
    let all = seq![offer] + msgs;
    assert(all[0] == offer);
    assert(all.drop_first() =~= msgs);
    let (p1, a1) = session_step(pending, offer, directory, server);
    assert(p1.contains_key(id) && p1[id].offer == offer);
    lemma_upload_completes(p1, id, msgs, directory, server);
    let (p2, acts) = session_run(p1, msgs, directory, server);
    assert(p1.remove(id) =~= pending.remove(id));
    assert((seq![a1] + acts).last() == acts.last());
}


/// Every file being uploaded still misses some of its promised bytes.
pub open spec fn all_incomplete(pending: Map<Timestamp, PendingView>) -> bool {
    forall|id: Timestamp| #[trigger] pending.contains_key(id) ==> pending[id].remaining > 0
}

/// The files the server still expects are exactly unfinished ones: a handled
/// message keeps every file being uploaded short of some bytes, so at a
/// disconnect all of them are incomplete and are discarded. (An offer whose
/// size is not zero but wraps to zero as a `usize` is left out: the server
/// would expect such a file with nothing to come.)
pub proof fn lemma_step_keeps_uploads_incomplete(
    pending: Map<Timestamp, PendingView>,
    msg: MessageView,
    directory: Seq<char>,
    server: Option<SenderView>,
)
    requires
        all_incomplete(pending),
        handled(pending, msg),
        msg.data matches Some(DataView::BigFileOffer { byte_amount, .. }) ==> byte_amount == 0
            || (byte_amount as usize) > 0,
    ensures
        all_incomplete(session_step(pending, msg, directory, server).0),
{
    let after = session_step(pending, msg, directory, server).0;
    assert forall|id: Timestamp| #[trigger] after.contains_key(id) implies after[id].remaining > 0 by {
        assert(pending.contains_key(id) ==> pending[id].remaining > 0);
    }
}


/// The file path under `directory` for the big file whose offer carried the
/// timestamp `ts`: the directory followed by the text `prost_types` gives that
/// very timestamp (seconds and nanoseconds), with every `:` made a `;`.
pub open spec fn file_path_for(directory: Seq<char>, ts: Timestamp) -> Seq<char> {
    directory + replace_all(timestamp_text(ts.seconds, ts.nanos), ":"@, ";"@)
}

/// Texts and images are stored and broadcast as they are: whatever their
/// sender and timestamp, and whatever uploads are under way, the action for
/// such a message is to store and broadcast exactly that message, and the
/// uploads are left as they were.
pub proof fn lemma_text_and_images_broadcast(
    pending: Map<Timestamp, PendingView>,
    msg: MessageView,
    directory: Seq<char>,
    server: Option<SenderView>,
)
    requires
        msg.data matches Some(DataView::Text(_)) || msg.data matches Some(DataView::Image(_)),
    ensures
        session_step(pending, msg, directory, server) == (
            pending,
            ActionView::StoreAndBroadcast(msg),
        ),
{
}

/// A nonempty offer is accepted under its own timestamp `ts`: the reply is the
/// server's acceptance of `ts`; the file is opened at the path of `ts` (its
/// seconds and nanoseconds, see [`file_path_for`]) for the offer's full size
/// (`byte_amount as usize`, which is `byte_amount` itself wherever it fits a
/// `usize`); the upload then expects that many bytes at that path, with the
/// offer kept to be broadcast; no other upload changes.
pub proof fn lemma_offer_accepted(
    pending: Map<Timestamp, PendingView>,
    msg: MessageView,
    directory: Seq<char>,
    server: Option<SenderView>,
)
    requires
        msg.data matches Some(DataView::BigFileOffer { byte_amount, .. }) && byte_amount > 0,
        msg.timestamp is Some,
    ensures
        ({
            let ts = msg.timestamp.unwrap();
            let b = match msg.data {
                Some(DataView::BigFileOffer { byte_amount, .. }) => byte_amount,
                _ => 0,
            };
            let (after, action) = session_step(pending, msg, directory, server);
            &&& action == ActionView::AcceptBigFile {
                reply: MessageView {
                    sender: server,
                    timestamp: Some(Timestamp { seconds: 0, nanos: 0 }),
                    data: Some(DataView::BigFileAccept(ts)),
                },
                path: file_path_for(directory, ts),
                id: ts,
                byte_amount: b as usize,
            }
            &&& b <= usize::MAX ==> action->byte_amount == b
            &&& after.contains_key(ts)
            &&& after[ts] == PendingView {
                remaining: b as usize,
                path: file_path_for(directory, ts),
                offer: msg,
            }
            &&& forall|other: Timestamp|
                other != ts ==> (#[trigger] after.contains_key(other) == pending.contains_key(other)
                    && (pending.contains_key(other) ==> after[other] == pending[other]))
        }),
{
}

/// An accepted file is served from where it was stored: accepting the file of
/// timestamp `ts` sends the file at the path of `ts` (its seconds and
/// nanoseconds), the same path under which a nonempty offer of `ts` was
/// written, and leaves the uploads as they were.
pub proof fn lemma_accept_serves_stored_file(
    pending: Map<Timestamp, PendingView>,
    ts: Timestamp,
    accept: MessageView,
    offer: MessageView,
    directory: Seq<char>,
    server: Option<SenderView>,
)
    requires
        accept.data == Some(DataView::BigFileAccept(ts)),
        offer.data matches Some(DataView::BigFileOffer { byte_amount, .. }) && byte_amount > 0,
        offer.timestamp == Some(ts),
    ensures
        session_step(pending, accept, directory, server) == (
            pending,
            ActionView::SendBigFile { path: file_path_for(directory, ts), id: ts },
        ),
        session_step(pending, offer, directory, server).1 matches ActionView::AcceptBigFile {
            path,
            ..
        } && path == file_path_for(directory, ts),
        session_step(pending, offer, directory, server).0[ts].path == file_path_for(directory, ts),
{
    lemma_offer_accepted(pending, offer, directory, server);
}

} // verus!
