use pog_bilder::args::{parse_args, EnvArgs, ServerArgs};
use pog_bilder::big_file::WriteError;
use pog_bilder::messages::{
    BigFileData, BigFileOffer, Data, Message, MessageRequest, Sender, Timestamp,
};
use pog_bilder::session::{
    file_data_message, requested_history, should_forward, welcome_message, ClientAction,
    ClientSession,
};

fn server(welcome: Option<&str>) -> ServerArgs {
    parse_args(
        EnvArgs {
            port: 4000,
            bind_address: "0.0.0.0".to_string(),
            db_path: "".to_string(),
            welcome_message: welcome.map(|w| w.to_string()),
            big_file_directory: "files/".to_string(),
        },
        "/bin",
    )
}

fn alice() -> Sender {
    Sender { uuid: 1, name: "alice".to_string() }
}

fn offer(seconds: i64, amount: u64) -> Message {
    Message {
        sender: Some(alice()),
        timestamp: Some(Timestamp { seconds, nanos: 0 }),
        data: Some(Data::BigFileOffer(BigFileOffer { filename: "cat.png".to_string(), byte_amount: amount })),
    }
}

fn data(seconds: i64, bytes: &[u8]) -> Message {
    Message {
        sender: Some(alice()),
        timestamp: None,
        data: Some(Data::BigFileData(BigFileData {
            file_id: Some(Timestamp { seconds, nanos: 0 }),
            bytes: bytes.to_vec(),
        })),
    }
}

fn server_sender() -> Option<Sender> {
    Some(Sender { uuid: 4000, name: "Server".to_string() })
}

#[test]
fn offer_is_accepted_and_completed() {
    let args = server(None);
    let mut s = ClientSession::new();
    let ts = Timestamp { seconds: 0, nanos: 0 };
    let o = offer(0, 5);
    assert!(s.can_handle(&o));
    let accept = s.handle_message(o.clone(), &args);
    assert_eq!(
        accept,
        ClientAction::AcceptBigFile {
            reply: Message {
                sender: server_sender(),
                timestamp: Some(Timestamp { seconds: 0, nanos: 0 }),
                data: Some(Data::BigFileAccept(ts)),
            },
            path: "files/1970-01-01T00;00;00Z".to_string(),
            id: ts,
            byte_amount: 5,
        }
    );
    let d1 = data(0, &[1, 2]);
    assert!(s.can_handle(&d1));
    assert_eq!(
        s.handle_message(d1, &args),
        ClientAction::WriteBigFile { id: ts, bytes: vec![1, 2], completed: None }
    );
    assert_eq!(
        s.handle_message(data(0, &[3, 4, 5]), &args),
        ClientAction::WriteBigFile { id: ts, bytes: vec![3, 4, 5], completed: Some(o) }
    );
    // the upload is over: more data for it is ignored
    assert_eq!(s.handle_message(data(0, &[6]), &args), ClientAction::Ignore);
}

#[test]
fn empty_offer_is_ignored() {
    let args = server(None);
    let mut s = ClientSession::new();
    assert_eq!(s.handle_message(offer(3, 0), &args), ClientAction::Ignore);
    assert_eq!(s.handle_message(data(3, &[]), &args), ClientAction::Ignore);
}

#[test]
fn data_for_unknown_file_is_ignored() {
    let args = server(None);
    let mut s = ClientSession::new();
    assert_eq!(s.handle_message(data(9, &[1]), &args), ClientAction::Ignore);
    let no_id = Message {
        sender: None,
        timestamp: None,
        data: Some(Data::BigFileData(BigFileData { file_id: None, bytes: vec![1] })),
    };
    assert_eq!(s.handle_message(no_id, &args), ClientAction::Ignore);
}

#[test]
fn text_and_images_are_stored_and_broadcast() {
    let args = server(None);
    let mut s = ClientSession::new();
    let text = Message {
        sender: Some(alice()),
        timestamp: Some(Timestamp { seconds: 5, nanos: 6 }),
        data: Some(Data::Text("hello".to_string())),
    };
    assert_eq!(s.handle_message(text.clone(), &args), ClientAction::StoreAndBroadcast(text));
    let image = Message { sender: None, timestamp: None, data: Some(Data::Image(vec![0xff, 0xd8])) };
    assert_eq!(s.handle_message(image.clone(), &args), ClientAction::StoreAndBroadcast(image));
}

#[test]
fn accept_starts_sending_the_stored_file() {
    let args = server(None);
    let mut s = ClientSession::new();
    let ts = Timestamp { seconds: 60, nanos: 0 };
    let m = Message { sender: None, timestamp: None, data: Some(Data::BigFileAccept(ts)) };
    assert_eq!(
        s.handle_message(m, &args),
        ClientAction::SendBigFile { path: "files/1970-01-01T00;01;00Z".to_string(), id: ts }
    );
}

#[test]
fn uploads_are_kept_apart() {
    let args = server(None);
    let mut s = ClientSession::new();
    let o1 = offer(1, 2);
    let o2 = offer(2, 1);
    s.handle_message(o1.clone(), &args);
    s.handle_message(o2.clone(), &args);
    assert_eq!(
        s.handle_message(data(2, &[7]), &args),
        ClientAction::WriteBigFile { id: Timestamp { seconds: 2, nanos: 0 }, bytes: vec![7], completed: Some(o2) }
    );
    assert_eq!(
        s.handle_message(data(1, &[8, 9]), &args),
        ClientAction::WriteBigFile { id: Timestamp { seconds: 1, nanos: 0 }, bytes: vec![8, 9], completed: Some(o1) }
    );
}

#[test]
fn a_repeated_offer_restarts_the_count() {
    let args = server(None);
    let mut s = ClientSession::new();
    s.handle_message(offer(1, 4), &args);
    s.handle_message(data(1, &[1, 2, 3]), &args);
    let again = offer(1, 2);
    s.handle_message(again.clone(), &args);
    assert!(s.can_handle(&data(1, &[1, 2, 3])));
    assert_eq!(
        s.handle_message(data(1, &[1, 2, 3]), &args),
        ClientAction::RefuseBigFileData { id: Timestamp { seconds: 1, nanos: 0 }, error: WriteError::PastPromisedSize }
    );
    assert_eq!(
        s.handle_message(data(1, &[1, 2]), &args),
        ClientAction::WriteBigFile { id: Timestamp { seconds: 1, nanos: 0 }, bytes: vec![1, 2], completed: Some(again) }
    );
}

#[test]
fn messages_the_server_cannot_handle() {
    let mut s = ClientSession::new();
    let args = server(None);
    assert!(!s.can_handle(&Message { sender: None, timestamp: None, data: None }));
    let mut o = offer(1, 3);
    o.timestamp = None;
    assert!(!s.can_handle(&o));
    let mut empty = offer(1, 0);
    empty.timestamp = None;
    assert!(s.can_handle(&empty));
    s.handle_message(offer(1, 3), &args);
    assert!(s.can_handle(&data(1, &[1, 2, 3, 4])));
    assert!(s.can_handle(&data(1, &[1, 2, 3])));
}

#[test]
fn welcome_only_when_configured() {
    assert_eq!(welcome_message(&server(None), false), None);
    assert_eq!(welcome_message(&server(None), true), None);
    assert_eq!(welcome_message(&server(Some("Welcome on %PORT%")), true), None);
    assert_eq!(
        welcome_message(&server(Some("Welcome on %PORT%")), false),
        Some(Message {
            sender: server_sender(),
            timestamp: None,
            data: Some(Data::Text("Welcome on 4000".to_string())),
        })
    );
}

#[test]
fn history_for_named_clients() {
    let since = Timestamp { seconds: 100, nanos: 0 };
    let req = MessageRequest { sender: Some(alice()), since: Some(since) };
    assert_eq!(requested_history(&req), Some((alice(), since)));
    let anonymous = MessageRequest { sender: None, since: None };
    assert_eq!(requested_history(&anonymous), None);
}

#[test]
fn own_messages_are_not_forwarded() {
    let me = Some(alice());
    let mine = Message { sender: Some(alice()), timestamp: None, data: None };
    let theirs = Message { sender: Some(Sender { uuid: 1, name: "bob".to_string() }), timestamp: None, data: None };
    let nobody = Message { sender: None, timestamp: None, data: None };
    assert!(!should_forward(&mine, &me));
    assert!(should_forward(&theirs, &me));
    assert!(should_forward(&nobody, &me));
    assert!(!should_forward(&nobody, &None));
    assert!(should_forward(&mine, &None));
}

#[test]
fn file_sections_become_data_messages() {
    let ts = Timestamp { seconds: 3, nanos: 4 };
    assert_eq!(
        file_data_message(ts, &[1, 2, 3]),
        Message {
            sender: None,
            timestamp: None,
            data: Some(Data::BigFileData(BigFileData { file_id: Some(ts), bytes: vec![1, 2, 3] })),
        }
    );
}

#[test]
fn over_long_data_is_refused_and_the_upload_stands() {
    let args = server(None);
    let mut s = ClientSession::new();
    let o = offer(5, 3);
    s.handle_message(o.clone(), &args);
    let id = Timestamp { seconds: 5, nanos: 0 };
    assert_eq!(
        s.handle_message(data(5, &[1, 2, 3, 4]), &args),
        ClientAction::RefuseBigFileData { id, error: WriteError::PastPromisedSize }
    );
    // nothing was counted: the promised three bytes still complete it
    assert_eq!(
        s.handle_message(data(5, &[1, 2, 3]), &args),
        ClientAction::WriteBigFile { id, bytes: vec![1, 2, 3], completed: Some(o) }
    );
}
