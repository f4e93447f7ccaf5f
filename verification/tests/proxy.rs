//! End-to-end exercises of the request-lifecycle engine: client bytes
//! go through the decoder, the pipeline and the queue; sub-requests
//! are answered by a miniature in-memory upstream; the bytes that come
//! back out are checked literally.

use synchrotron::parse::decode;
use synchrotron::parse::DecodeResult;
use synchrotron::pipeline::Pipeline;
use synchrotron::queue::MessageResponse;
use synchrotron::resp::RespFrame;
use synchrotron::resp::RespScalar;

/// A miniature upstream cache: enough of the command set for these
/// tests, keyed by raw bytes.
struct Store {
    kv: Vec<(Vec<u8>, Vec<u8>)>,
    lists: Vec<(Vec<u8>, Vec<Vec<u8>>)>,
}

impl Store {
    fn new() -> Store {
        Store { kv: Vec::new(), lists: Vec::new() }
    }

    fn get(&self, k: &[u8]) -> Option<Vec<u8>> {
        self.kv.iter().find(|e| e.0 == k).map(|e| e.1.clone())
    }

    fn set(&mut self, k: &[u8], v: &[u8]) {
        if let Some(e) = self.kv.iter_mut().find(|e| e.0 == k) {
            e.1 = v.to_vec();
        } else {
            self.kv.push((k.to_vec(), v.to_vec()));
        }
    }

    fn list(&mut self, k: &[u8]) -> &mut Vec<Vec<u8>> {
        if !self.lists.iter().any(|e| e.0 == k) {
            self.lists.push((k.to_vec(), Vec::new()));
        }
        &mut self.lists.iter_mut().find(|e| e.0 == k).unwrap().1
    }

    /// Answer one sub-request the way the upstream cache would.
    fn exec(&mut self, cmd: &RespFrame) -> RespFrame {
        let args: Vec<Vec<u8>> = match cmd {
            RespFrame::Array(es) => es
                .iter()
                .map(|e| match e {
                    RespScalar::Data(v) => v.clone(),
                    _ => panic!("sub-request argument is not bulk data"),
                })
                .collect(),
            _ => panic!("sub-request is not a command"),
        };
        let name = args[0].to_ascii_uppercase();
        match name.as_slice() {
            b"GET" => match self.get(&args[1]) {
                Some(v) => RespFrame::Scalar(RespScalar::Data(v)),
                None => RespFrame::Scalar(RespScalar::Null),
            },
            b"SET" => {
                self.set(&args[1], &args[2]);
                RespFrame::Scalar(RespScalar::Simple(b"OK".to_vec()))
            },
            b"DEL" => {
                let before = self.kv.len();
                self.kv.retain(|e| e.0 != args[1]);
                RespFrame::Scalar(RespScalar::Integer((before - self.kv.len()) as i64))
            },
            b"RPUSH" => {
                let l = self.list(&args[1]);
                l.push(args[2].clone());
                let n = l.len();
                RespFrame::Scalar(RespScalar::Integer(n as i64))
            },
            b"LINSERT" => {
                let pivot = args[3].clone();
                let value = args[4].clone();
                let l = self.list(&args[1]);
                let pos = l.iter().position(|e| *e == pivot);
                match pos {
                    Some(p) => {
                        l.insert(p, value);
                        let n = l.len();
                        RespFrame::Scalar(RespScalar::Integer(n as i64))
                    },
                    None => RespFrame::Scalar(RespScalar::Integer(-1)),
                }
            },
            b"LRANGE" => {
                let l = self.list(&args[1]).clone();
                RespFrame::Array(l.into_iter().map(RespScalar::Data).collect())
            },
            _ => RespFrame::Scalar(RespScalar::ErrorMsg(b"ERR unknown command".to_vec())),
        }
    }
}

/// Decode every frame in `input`.
fn decode_all(input: &[u8]) -> Vec<RespFrame> {
    let mut buf = input.to_vec();
    let mut msgs = Vec::new();
    while !buf.is_empty() {
        match decode(&buf) {
            DecodeResult::Done(f, n) => {
                buf.drain(..n);
                msgs.push(f);
            },
            DecodeResult::Incomplete => panic!("incomplete frame in test input"),
            DecodeResult::Invalid => panic!("invalid frame in test input"),
        }
    }
    msgs
}

/// Push client bytes through the pipeline, answer the dispatched
/// sub-requests from the store, and collect the reply bytes.
fn roundtrip(pipe: &mut Pipeline, store: &mut Store, input: &[u8]) -> Vec<u8> {
    let msgs = decode_all(input);
    let batch = pipe.on_requests(msgs).expect("request batch rejected");
    let mut responses = Vec::new();
    for (id, m) in &batch {
        responses.push((*id, MessageResponse::Complete(store.exec(m))));
    }
    pipe.on_response_batch(responses).expect("fulfilment failed");
    let out = pipe.writable().expect("head slot not ready");
    out.concat()
}

#[test]
fn test_set_get() {
    let mut pipe = Pipeline::new();
    let mut store = Store::new();

    // A simple set and then get.
    let out = roundtrip(&mut pipe, &mut store, b"*3\r\n$3\r\nSET\r\n$6\r\nmy_key\r\n$2\r\n42\r\n");
    assert_eq!(out, b"+OK\r\n");
    let out = roundtrip(&mut pipe, &mut store, b"*2\r\n$3\r\nGET\r\n$6\r\nmy_key\r\n");
    assert_eq!(out, b"$2\r\n42\r\n");
}

#[test]
fn test_mget() {
    let mut pipe = Pipeline::new();
    let mut store = Store::new();

    let out = roundtrip(&mut pipe, &mut store, b"*3\r\n$3\r\nSET\r\n$7\r\nkey_one\r\n$2\r\n42\r\n");
    assert_eq!(out, b"+OK\r\n");
    let out = roundtrip(&mut pipe, &mut store, b"*3\r\n$3\r\nSET\r\n$7\r\nkey_two\r\n$2\r\n43\r\n");
    assert_eq!(out, b"+OK\r\n");
    let out = roundtrip(
        &mut pipe,
        &mut store,
        b"*3\r\n$3\r\nSET\r\n$9\r\nkey_three\r\n$2\r\n44\r\n",
    );
    assert_eq!(out, b"+OK\r\n");
    let out = roundtrip(
        &mut pipe,
        &mut store,
        b"*4\r\n$4\r\nMGET\r\n$7\r\nkey_one\r\n$7\r\nkey_two\r\n$9\r\nkey_three\r\n",
    );
    assert_eq!(out, b"*3\r\n$2\r\n42\r\n$2\r\n43\r\n$2\r\n44\r\n");
}

#[test]
fn test_invalid_commands() {
    let mut pipe = Pipeline::new();
    let mut store = Store::new();

    // Do a ping first.
    let out = roundtrip(&mut pipe, &mut store, b"*1\r\n$4\r\nPING\r\n");
    assert!(out == b"+PONG\r\n");

    // Now do INFO which is not supported.
    let out = roundtrip(&mut pipe, &mut store, b"*1\r\n$4\r\nINFO\r\n");
    assert!(out.starts_with(b"-ERR"));
}

#[test]
fn test_case_insensitive_commands() {
    let mut pipe = Pipeline::new();
    let mut store = Store::new();

    // Do a lowercase ping first.
    let out = roundtrip(&mut pipe, &mut store, b"*1\r\n$4\r\nping\r\n");
    assert!(out == b"+PONG\r\n");

    // Do an uppercase ping next.
    let out = roundtrip(&mut pipe, &mut store, b"*1\r\n$4\r\nPING\r\n");
    assert!(out == b"+PONG\r\n");
}

#[test]
fn test_null_key() {
    let mut pipe = Pipeline::new();
    let mut store = Store::new();

    let out = roundtrip(&mut pipe, &mut store, b"*3\r\n$3\r\nSET\r\n$0\r\n\r\n$2\r\n19\r\n");
    assert_eq!(out, b"+OK\r\n");
    let out = roundtrip(&mut pipe, &mut store, b"*2\r\n$3\r\nGET\r\n$0\r\n\r\n");
    assert_eq!(out, b"$2\r\n19\r\n");

    let out = roundtrip(&mut pipe, &mut store, b"*3\r\n$3\r\nSET\r\n$0\r\n\r\n$0\r\n\r\n");
    assert_eq!(out, b"+OK\r\n");
    let out = roundtrip(&mut pipe, &mut store, b"*2\r\n$3\r\nGET\r\n$0\r\n\r\n");
    assert_eq!(out, b"$0\r\n\r\n");

    // A multi-key store with an empty key fragments into plain sets.
    let out = roundtrip(
        &mut pipe,
        &mut store,
        b"*5\r\n$4\r\nMSET\r\n$0\r\n\r\n$1\r\nx\r\n$1\r\nd\r\n$1\r\nt\r\n",
    );
    assert_eq!(out, b"+OK\r\n");
    let out = roundtrip(&mut pipe, &mut store, b"*2\r\n$3\r\nGET\r\n$0\r\n\r\n");
    assert_eq!(out, b"$1\r\nx\r\n");
}

#[test]
fn test_linsert() {
    let mut pipe = Pipeline::new();
    let mut store = Store::new();

    let out = roundtrip(
        &mut pipe,
        &mut store,
        b"*3\r\n$5\r\nRPUSH\r\n$6\r\nmylist\r\n$5\r\nHello\r\n",
    );
    assert_eq!(out, b":1\r\n");
    let out = roundtrip(
        &mut pipe,
        &mut store,
        b"*3\r\n$5\r\nRPUSH\r\n$6\r\nmylist\r\n$5\r\nWorld\r\n",
    );
    assert_eq!(out, b":2\r\n");
    let out = roundtrip(
        &mut pipe,
        &mut store,
        b"*5\r\n$7\r\nLINSERT\r\n$6\r\nmylist\r\n$6\r\nBEFORE\r\n$5\r\nWorld\r\n$5\r\nThere\r\n",
    );
    assert_eq!(out, b":3\r\n");
    let out = roundtrip(
        &mut pipe,
        &mut store,
        b"*4\r\n$6\r\nLRANGE\r\n$6\r\nmylist\r\n$1\r\n0\r\n$2\r\n-1\r\n",
    );
    assert_eq!(out, b"*3\r\n$5\r\nHello\r\n$5\r\nThere\r\n$5\r\nWorld\r\n");
}

#[test]
fn test_quit_drops_conn() {
    let mut pipe = Pipeline::new();
    let mut store = Store::new();

    let out = roundtrip(&mut pipe, &mut store, b"*3\r\n$3\r\nSET\r\n$0\r\n\r\n$2\r\n19\r\n");
    assert_eq!(out, b"+OK\r\n");
    let out = roundtrip(&mut pipe, &mut store, b"*2\r\n$3\r\nGET\r\n$0\r\n\r\n");
    assert_eq!(out, b"$2\r\n19\r\n");

    // Now end the connection with QUIT, sent in the inline form.
    let out = roundtrip(&mut pipe, &mut store, b"quit\r\n");
    assert_eq!(out, b"+OK\r\n");
    assert!(pipe.should_close());

    // The sending side may still try a PING, but the session is over:
    // the pipeline refuses further requests.
    let msgs = decode_all(b"ping\r\n");
    match pipe.on_requests(msgs) {
        Ok(_) => panic!("call after quit should yield error"),
        Err(_) => {},
    }
}

#[test]
fn test_client_reply() {
    let mut pipe = Pipeline::new();
    let mut store = Store::new();

    // Make sure our connection is up and set two values.
    let out = roundtrip(&mut pipe, &mut store, b"*3\r\n$3\r\nSET\r\n$3\r\none\r\n$1\r\n1\r\n");
    assert_eq!(out, b"+OK\r\n");
    let out = roundtrip(&mut pipe, &mut store, b"*2\r\n$3\r\nGET\r\n$3\r\none\r\n");
    assert_eq!(out, b"$1\r\n1\r\n");
    let out = roundtrip(&mut pipe, &mut store, b"*3\r\n$3\r\nSET\r\n$3\r\ntwo\r\n$1\r\n2\r\n");
    assert_eq!(out, b"+OK\r\n");
    let out = roundtrip(&mut pipe, &mut store, b"*2\r\n$3\r\nGET\r\n$3\r\ntwo\r\n");
    assert_eq!(out, b"$1\r\n2\r\n");

    // Skip a single response: exactly one reply comes back, and it is
    // the one for the second read.
    let mut input = Vec::new();
    input.extend_from_slice(b"*3\r\n$6\r\nCLIENT\r\n$5\r\nREPLY\r\n$4\r\nSKIP\r\n");
    input.extend_from_slice(b"*2\r\n$3\r\nGET\r\n$3\r\ntwo\r\n");
    input.extend_from_slice(b"*2\r\n$3\r\nGET\r\n$3\r\none\r\n");
    let out = roundtrip(&mut pipe, &mut store, &input);
    assert_eq!(out, b"$1\r\n1\r\n");

    // Turn off replies entirely: nothing comes back.
    let mut input = Vec::new();
    input.extend_from_slice(b"*3\r\n$6\r\nCLIENT\r\n$5\r\nREPLY\r\n$3\r\nOFF\r\n");
    input.extend_from_slice(b"*2\r\n$3\r\nGET\r\n$3\r\ntwo\r\n");
    input.extend_from_slice(b"*2\r\n$3\r\nGET\r\n$3\r\none\r\n");
    let out = roundtrip(&mut pipe, &mut store, &input);
    assert_eq!(out, b"");

    // Now turn them back on: the switch itself is acknowledged.
    let mut input = Vec::new();
    input.extend_from_slice(b"*3\r\n$6\r\nCLIENT\r\n$5\r\nREPLY\r\n$2\r\nON\r\n");
    input.extend_from_slice(b"*2\r\n$3\r\nGET\r\n$3\r\ntwo\r\n");
    let out = roundtrip(&mut pipe, &mut store, &input);
    assert!(out.starts_with(b"+OK\r\n"));
    assert_eq!(&out[5..], b"$1\r\n2\r\n");
}
