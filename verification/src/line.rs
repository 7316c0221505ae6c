//! The grammar of a mail log line.
//!
//! [`classify`] is the grammar as a mathematical function from the bytes of a
//! line (its newline included) to an [`Event`]. [`ParsedLine::parse`] computes
//! it. The shapes are tried in a fixed order and the first that matches wins.

use crate::scan::lemma_index_of_bounds;
use crate::scan::lemma_run_end_bounds;
use crate::scan::Cursor;
use crate::scan::Scanner;
use vstd::prelude::*;
use vstd::string::StringSliceAdditionalSpecFns;

verus! {

/// Width of the timestamp field that opens every line, its trailing space
/// included.
pub const TIMESTAMP_WIDTH: usize = 16;

/// The space that ends the host name, the program name and a status.
pub const SPACE: u8 = 0x20;

/// The comma that ends a field.
pub const COMMA: u8 = 0x2c;

/// The angle bracket that closes an address.
pub const CLOSING: u8 = 0x3e;

/// The end of a line.
pub const NEWLINE: u8 = 0x0a;

/// The alphabet of queue identifiers.
pub const HEX: &'static str = "0123456789ABCDEF";

/// The bytes of a number.
pub const DIGITS: &'static str = "0123456789";

/// The bytes of a delay and of a status code.
pub const DECIMAL: &'static str = "0123456789.";

/// The bytes of the list of delays.
pub const DELAYS: &'static str = "0123456789./";

/// The bytes of a client: a host name and its address between brackets.
pub const CLIENT: &'static str =
    "abcdefghijklmnopqrstuvwxyzABCDEFGHIJKLMNOPQRSTUVWXYZ0123456789.:-[]";

/// The bytes of the client from which a filter took the message.
pub const ORIGIN_CLIENT: &'static str =
    "abcdefghijklmnopqrstuvwxyzABCDEFGHIJKLMNOPQRSTUVWXYZ0123456789.-[]";

/// The bytes of the name of an authenticated user.
pub const USERNAME: &'static str =
    "abcdefghijklmnopqrstuvwxyzABCDEFGHIJKLMNOPQRSTUVWXYZ0123456789.-@";

/// What a line tells about the transaction it belongs to.
pub struct Links {
    pub message_id: Option<Seq<u8>>,
    pub previous_id: Option<Seq<u8>>,
    pub next_id: Option<Seq<u8>>,
}

/// The meaning of one log line.
pub enum Event {
    /// A line of the transaction `id`, with the links it reveals.
    Transaction { id: Seq<u8>, links: Links },
    /// A known line that belongs to no transaction.
    Ignorable,
    /// A line of no known shape.
    Unrecognized,
}

/// A line that reveals nothing.
pub open spec fn no_links() -> Links {
    Links { message_id: None, previous_id: None, next_id: None }
}

/// Session and connection chatter of the mail system, which carries no queue
/// identifier.
pub open spec fn is_chatter(c: Cursor) -> bool {
    ||| c.word("Anonymous TLS connection established from ").ok()
    ||| c.word("warning: ").ok()
    ||| c.word("connect from ").ok()
    ||| c.word("lost connection after ").ok()
    ||| c.word("disconnect from ").ok()
    ||| c.word("Untrusted TLS connection established to ").ok()
    ||| c.word("Trusted TLS connection established to ").ok()
    ||| c.word("connect to ").ok()
    ||| c.word("Anonymous TLS connection established to ").ok()
    ||| c.word("statistics: ").ok()
    ||| c.word("NOQUEUE: ").ok()
    ||| c.word("SSL_accept error from ").ok()
    ||| c.word("Trusted TLS connection established from ").ok()
    ||| c.word("Untrusted TLS connection established from ").ok()
    ||| c.word("timeout after ").ok()
    ||| c.word("improper command pipelining after ").ok()
    ||| c.word("Verified TLS connection established to ").ok()
    ||| c.word("too many errors ").ok()
    ||| c.word("mapping DSN status ").ok()
    ||| c.word("SSL_connect error to ").ok()
}

/// `removed`, alone on the line.
pub open spec fn is_removal(c: Cursor) -> bool {
    c.word("removed\n").end().ok()
}

/// Notices about a transaction that name no other one.
pub open spec fn is_notice(c: Cursor) -> bool {
    ||| c.word("enabling PIX workarounds: ").ok()
    ||| c.word("lost connection with ").ok()
    ||| c.word("discard: ").ok()
    ||| c.word("reject: ").ok()
    ||| c.word("filter: ").ok()
    ||| c.word("Cannot start TLS: ").ok()
    ||| c.word("conversation with ").ok()
}

/// `uid=N from=<sender>`: a local submission.
pub open spec fn is_pickup(c: Cursor) -> bool {
    c.word("uid=").run(DIGITS).word(" from=<").until(CLOSING).word(">\n").end().ok()
}

/// `from=<sender>, size=N, nrcpt=N (queue active)`.
pub open spec fn is_queued(c: Cursor) -> bool {
    c.word("from=<").until(CLOSING).word(">, size=").run(DIGITS).word(", nrcpt=").run(
        DIGITS,
    ).word(" (queue active)\n").end().ok()
}

/// `from=<sender>, status=S, returned to sender`.
pub open spec fn is_returned(c: Cursor) -> bool {
    c.word("from=<").until(CLOSING).word(">, status=").until(COMMA).word(
        ", returned to sender",
    ).ok()
}

/// `client=host[address]`, alone on the line.
pub open spec fn is_client(c: Cursor) -> bool {
    c.word("client=").run(CLIENT).word("\n").end().ok()
}

/// `client=..., sasl_method=..., sasl_username=user`.
pub open spec fn is_sasl_client(c: Cursor) -> bool {
    c.word("client=").until(COMMA).word(", sasl_method=").until(COMMA).word(
        ", sasl_username=",
    ).run(USERNAME).word("\n").end().ok()
}

/// `host H said: ...` or `host H refused to talk to me: ...`.
pub open spec fn is_remote_reply(c: Cursor) -> bool {
    let host = c.word("host ").until(SPACE);
    host.word(" said: ").ok() || host.word(" refused to talk to me: ").ok()
}

/// A line of a transaction that names no other transaction and no message.
pub open spec fn is_plain(c: Cursor) -> bool {
    ||| is_removal(c)
    ||| is_notice(c)
    ||| is_pickup(c)
    ||| is_queued(c)
    ||| is_returned(c)
    ||| is_client(c)
    ||| is_sasl_client(c)
    ||| is_remote_reply(c)
}

/// `message-id=M` or `resent-message-id=M`: the message identifier is all
/// that stands before the end of the line.
pub open spec fn message_id_of(c: Cursor) -> Option<Seq<u8>> {
    let from = c.maybe_word("resent-").word("message-id=");
    let to = from.until(NEWLINE);
    if to.word("\n").end().ok() {
        Some(from.upto(to))
    } else {
        None
    }
}

/// `sender non-delivery notification: ID`: the bounce is the transaction
/// `ID`.
pub open spec fn bounce_of(c: Cursor) -> Option<Seq<u8>> {
    let from = c.word("sender non-delivery notification: ");
    let to = from.run(HEX);
    if to.word("\n").end().ok() {
        Some(from.upto(to))
    } else {
        None
    }
}

/// `client=..., orig_queue_id=ID, orig_client=...`: the message came back
/// from a filter and was the transaction `ID` before.
pub open spec fn origin_of(c: Cursor) -> Option<Seq<u8>> {
    let from = c.word("client=").until(COMMA).word(", orig_queue_id=");
    let to = from.run(HEX);
    if to.word(", orig_client=").run(ORIGIN_CLIENT).word("\n").end().ok() {
        Some(from.upto(to))
    } else {
        None
    }
}

/// The fields of a delivery report, up to the bracket that opens the remote
/// answer: `to=<R>[, orig_to=<R>], relay=..., [conn_use=N, ]delay=...,
/// delays=..., dsn=..., status=S (`.
pub open spec fn delivery(c: Cursor) -> Cursor {
    let to = c.word("to=<").until(CLOSING);
    let orig_to = to.word(">, orig_to=<").until(CLOSING);
    let recipient = if orig_to.ok() {
        orig_to
    } else {
        to
    };
    let relay = recipient.word(">, relay=").until(COMMA);
    let conn_use = relay.word(", conn_use=").run(DIGITS);
    let used = if conn_use.ok() {
        conn_use
    } else {
        relay
    };
    used.word(", delay=").run(DECIMAL).word(", delays=").run(DELAYS).word(", dsn=").run(
        DECIMAL,
    ).word(", status=").until(SPACE).word(" (")
}

/// The remote answer of a delivery report says under which identifier the
/// next hop took the message: `forwarded as ID)` or
/// `250 2.0.0 Ok: queued as ID)`.
pub open spec fn handed_over(c: Cursor) -> Option<Seq<u8>> {
    let forwarded = c.word("forwarded as ");
    let from = if forwarded.ok() {
        forwarded
    } else {
        c.word("250 2.0.0 Ok: queued as ")
    };
    let to = from.run(HEX);
    if to.word(")\n").end().ok() {
        Some(from.upto(to))
    } else {
        None
    }
}

/// What the text after the queue identifier tells, or `None` where it has no
/// known shape.
pub open spec fn links_of(c: Cursor) -> Option<Links> {
    if is_plain(c) {
        Some(no_links())
    } else if message_id_of(c) is Some {
        Some(Links { message_id: message_id_of(c), previous_id: None, next_id: None })
    } else if bounce_of(c) is Some {
        Some(Links { message_id: None, previous_id: None, next_id: bounce_of(c) })
    } else if origin_of(c) is Some {
        Some(Links { message_id: None, previous_id: origin_of(c), next_id: None })
    } else if delivery(c).ok() {
        Some(Links { message_id: None, previous_id: None, next_id: handed_over(delivery(c)) })
    } else {
        None
    }
}

/// A line of the mail system itself, from the program name on.
pub open spec fn classify_postfix(program: Cursor) -> Event {
    let body = program.word("postfix").until(SPACE).skip(1);
    let id_end = body.run(HEX);
    let detail = id_end.word(": ");
    if !body.ok() {
        Event::Unrecognized
    } else if is_chatter(body) {
        Event::Ignorable
    } else if detail.ok() && links_of(detail) is Some {
        Event::Transaction { id: body.upto(id_end), links: links_of(detail)->0 }
    } else {
        Event::Unrecognized
    }
}

/// The meaning of a line: after the timestamp and the host name, the program
/// name decides.
pub open spec fn classify(line: Seq<u8>) -> Event {
    let program = Cursor::start(line, 0).skip(TIMESTAMP_WIDTH as nat).until(SPACE).skip(1);
    if !program.ok() {
        Event::Unrecognized
    } else if program.word("clamsmtp").ok() || program.word("postlicyd").ok() {
        Event::Ignorable
    } else {
        classify_postfix(program)
    }
}

/// A queue identifier: one byte at least, each of them of the alphabet.
pub open spec fn is_token(id: Seq<u8>) -> bool {
    &&& id.len() > 0
    &&& forall|i: int| 0 <= i < id.len() ==> HEX.spec_bytes().contains(#[trigger] id[i])
}

/// Every step leaves the cursor inside the text.
pub proof fn lemma_steps_wf(c: Cursor)
    requires
        c.wf(),
    ensures
        forall|n: nat| (#[trigger] c.skip(n)).wf(),
        forall|word: &str| (#[trigger] c.word(word)).wf(),
        forall|word: &str| (#[trigger] c.maybe_word(word)).wf(),
        forall|stop: u8| (#[trigger] c.until(stop)).wf(),
        forall|class: &str| (#[trigger] c.run(class)).wf(),
        c.end().wf(),
{
    if c.at is Some {
        assert forall|stop: u8| (#[trigger] c.until(stop)).wf() by {
            lemma_index_of_bounds(c.text, c.at->0, stop);
        }
        assert forall|class: &str| (#[trigger] c.run(class)).wf() by {
            lemma_run_end_bounds(c.text, c.at->0, class.spec_bytes());
        }
    }
}

/// What a run of the alphabet steps over is a queue identifier.
pub proof fn lemma_run_is_token(c: Cursor)
    requires
        c.wf(),
        c.run(HEX).ok(),
    ensures
        is_token(c.upto(c.run(HEX))),
{
    lemma_run_end_bounds(c.text, c.at->0, HEX.spec_bytes());
}

/// The identifiers that a line of a transaction gives are queue
/// identifiers: its own, and the previous or next one that it names.
pub proof fn lemma_classify_tokens(line: Seq<u8>)
    ensures
        match classify(line) {
            Event::Transaction { id, links } => {
                &&& is_token(id)
                &&& links.previous_id matches Some(p) ==> is_token(p)
                &&& links.next_id matches Some(n) ==> is_token(n)
            },
            _ => true,
        },
{
    let start = Cursor::start(line, 0);
    lemma_steps_wf(start);
    let stamp = start.skip(TIMESTAMP_WIDTH as nat);
    lemma_steps_wf(stamp);
    let host = stamp.until(SPACE);
    lemma_steps_wf(host);
    let program = host.skip(1);
    lemma_steps_wf(program);
    let name = program.word("postfix");
    lemma_steps_wf(name);
    let rest = name.until(SPACE);
    lemma_steps_wf(rest);
    let body = rest.skip(1);
    lemma_steps_wf(body);
    let id_end = body.run(HEX);
    lemma_steps_wf(id_end);
    let c = id_end.word(": ");
    if classify(line) is Transaction {
        lemma_run_is_token(body);
        if !is_plain(c) && message_id_of(c) is None {
            if bounce_of(c) is Some {
                let from = c.word("sender non-delivery notification: ");
                lemma_run_is_token(from);
            } else if origin_of(c) is Some {
                let client = c.word("client=");
                lemma_steps_wf(client);
                let comma = client.until(COMMA);
                lemma_steps_wf(comma);
                let from = comma.word(", orig_queue_id=");
                lemma_run_is_token(from);
            } else if handed_over(delivery(c)) is Some {
                lemma_delivery_wf(c);
                let answer = delivery(c);
                lemma_steps_wf(answer);
                let forwarded = answer.word("forwarded as ");
                let from = if forwarded.ok() {
                    forwarded
                } else {
                    answer.word("250 2.0.0 Ok: queued as ")
                };
                lemma_run_is_token(from);
            }
        }
    }
}

/// The fields of a delivery report leave the cursor inside the text.
pub proof fn lemma_delivery_wf(c: Cursor)
    requires
        c.wf(),
    ensures
        delivery(c).wf(),
{
    lemma_steps_wf(c);
    let to = c.word("to=<").until(CLOSING);
    lemma_steps_wf(c.word("to=<"));
    lemma_steps_wf(to);
    let orig_to = to.word(">, orig_to=<").until(CLOSING);
    lemma_steps_wf(to.word(">, orig_to=<"));
    let recipient = if orig_to.ok() {
        orig_to
    } else {
        to
    };
    lemma_steps_wf(recipient);
    let relay = recipient.word(">, relay=").until(COMMA);
    lemma_steps_wf(recipient.word(">, relay="));
    lemma_steps_wf(relay);
    let conn_use = relay.word(", conn_use=").run(DIGITS);
    lemma_steps_wf(relay.word(", conn_use="));
    let used = if conn_use.ok() {
        conn_use
    } else {
        relay
    };
    lemma_steps_wf(used);
    let a = used.word(", delay=");
    lemma_steps_wf(a);
    let b = a.run(DECIMAL);
    lemma_steps_wf(b);
    let d = b.word(", delays=");
    lemma_steps_wf(d);
    let e = d.run(DELAYS);
    lemma_steps_wf(e);
    let f = e.word(", dsn=");
    lemma_steps_wf(f);
    let g = f.run(DECIMAL);
    lemma_steps_wf(g);
    let h = g.word(", status=");
    lemma_steps_wf(h);
    let i = h.until(SPACE);
    lemma_steps_wf(i);
}

/// A classified log line.
#[derive(Clone, PartialEq, Eq, Debug)]
pub enum ParsedLine {
    /// A line of a transaction of the mail system.
    Postfix {
        /// The queue identifier of the transaction.
        id: Vec<u8>,
        /// The message identifier, where the line gives it.
        message_id: Option<Vec<u8>>,
        /// The transaction that this one continues.
        previous_id: Option<Vec<u8>>,
        /// The transaction that continues this one.
        next_id: Option<Vec<u8>>,
    },
    /// A line of no known shape.
    Unknown,
    /// A known line that belongs to no transaction.
    Useless,
}

/// The bytes of an optional byte string.
pub open spec fn bytes_view(v: Option<Vec<u8>>) -> Option<Seq<u8>> {
    match v {
        Some(b) => Some(b@),
        None => None,
    }
}

impl View for ParsedLine {
    type V = Event;

    open spec fn view(&self) -> Event {
        match *self {
            ParsedLine::Postfix { id, message_id, previous_id, next_id } => Event::Transaction {
                id: id@,
                links: Links {
                    message_id: bytes_view(message_id),
                    previous_id: bytes_view(previous_id),
                    next_id: bytes_view(next_id),
                },
            },
            ParsedLine::Unknown => Event::Unrecognized,
            ParsedLine::Useless => Event::Ignorable,
        }
    }
}

fn chatter(s: Scanner) -> (r: bool)
    requires
        s@.wf(),
    ensures
        r == is_chatter(s@),
{
    s.word("Anonymous TLS connection established from ").ok() || s.word("warning: ").ok()
        || s.word("connect from ").ok() || s.word("lost connection after ").ok() || s.word(
        "disconnect from ",
    ).ok() || s.word("Untrusted TLS connection established to ").ok() || s.word(
        "Trusted TLS connection established to ",
    ).ok() || s.word("connect to ").ok() || s.word(
        "Anonymous TLS connection established to ",
    ).ok() || s.word("statistics: ").ok() || s.word("NOQUEUE: ").ok() || s.word(
        "SSL_accept error from ",
    ).ok() || s.word("Trusted TLS connection established from ").ok() || s.word(
        "Untrusted TLS connection established from ",
    ).ok() || s.word("timeout after ").ok() || s.word("improper command pipelining after ").ok()
        || s.word("Verified TLS connection established to ").ok() || s.word(
        "too many errors ",
    ).ok() || s.word("mapping DSN status ").ok() || s.word("SSL_connect error to ").ok()
}

fn notice(s: Scanner) -> (r: bool)
    requires
        s@.wf(),
    ensures
        r == is_notice(s@),
{
    s.word("enabling PIX workarounds: ").ok() || s.word("lost connection with ").ok() || s.word(
        "discard: ",
    ).ok() || s.word("reject: ").ok() || s.word("filter: ").ok() || s.word(
        "Cannot start TLS: ",
    ).ok() || s.word("conversation with ").ok()
}

fn remote_reply(s: Scanner) -> (r: bool)
    requires
        s@.wf(),
    ensures
        r == is_remote_reply(s@),
{
    let host = s.word("host ").until(SPACE);
    host.word(" said: ").ok() || host.word(" refused to talk to me: ").ok()
}

fn plain(s: Scanner) -> (r: bool)
    requires
        s@.wf(),
    ensures
        r == is_plain(s@),
{
    s.word("removed\n").end().ok() || notice(s) || s.word("uid=").run(DIGITS).word(
        " from=<",
    ).until(CLOSING).word(">\n").end().ok() || s.word("from=<").until(CLOSING).word(
        ">, size=",
    ).run(DIGITS).word(", nrcpt=").run(DIGITS).word(" (queue active)\n").end().ok() || s.word(
        "from=<",
    ).until(CLOSING).word(">, status=").until(COMMA).word(", returned to sender").ok() || s.word(
        "client=",
    ).run(CLIENT).word("\n").end().ok() || s.word("client=").until(COMMA).word(
        ", sasl_method=",
    ).until(COMMA).word(", sasl_username=").run(USERNAME).word("\n").end().ok() || remote_reply(
        s,
    )
}

/// The bytes between two scanners where `last` matched, `None` otherwise.
fn capture(from: Scanner, to: Scanner, last: Scanner) -> (r: Option<Vec<u8>>)
    requires
        from@.wf(),
        to@.wf(),
        from@.text == to@.text,
        to@.ok() ==> from@.ok() && from@.at->0 <= to@.at->0,
        last@.ok() ==> to@.ok(),
    ensures
        bytes_view(r) == if last@.ok() {
            Some(from@.upto(to@))
        } else {
            None
        },
{
    if last.ok() {
        Some(from.upto(&to))
    } else {
        None
    }
}

fn message_id(s: Scanner) -> (r: Option<Vec<u8>>)
    requires
        s@.wf(),
    ensures
        bytes_view(r) == message_id_of(s@),
{
    let from = s.maybe_word("resent-").word("message-id=");
    let to = from.until(NEWLINE);
    proof {
        if from@.ok() {
            lemma_index_of_bounds(from@.text, from@.at->0, NEWLINE);
        }
    }
    capture(from, to, to.word("\n").end())
}

fn bounce(s: Scanner) -> (r: Option<Vec<u8>>)
    requires
        s@.wf(),
    ensures
        bytes_view(r) == bounce_of(s@),
{
    let from = s.word("sender non-delivery notification: ");
    let to = from.run(HEX);
    capture(from, to, to.word("\n").end())
}

fn origin(s: Scanner) -> (r: Option<Vec<u8>>)
    requires
        s@.wf(),
    ensures
        bytes_view(r) == origin_of(s@),
{
    let from = s.word("client=").until(COMMA).word(", orig_queue_id=");
    let to = from.run(HEX);
    capture(from, to, to.word(", orig_client=").run(ORIGIN_CLIENT).word("\n").end())
}

fn delivery_fields<'a>(s: Scanner<'a>) -> (r: Scanner<'a>)
    requires
        s@.wf(),
    ensures
        r@ == delivery(s@),
        r@.wf(),
{
    let to = s.word("to=<").until(CLOSING);
    let orig_to = to.word(">, orig_to=<").until(CLOSING);
    let recipient = if orig_to.ok() {
        orig_to
    } else {
        to
    };
    let relay = recipient.word(">, relay=").until(COMMA);
    let conn_use = relay.word(", conn_use=").run(DIGITS);
    let used = if conn_use.ok() {
        conn_use
    } else {
        relay
    };
    used.word(", delay=").run(DECIMAL).word(", delays=").run(DELAYS).word(", dsn=").run(
        DECIMAL,
    ).word(", status=").until(SPACE).word(" (")
}

fn hand_over(s: Scanner) -> (r: Option<Vec<u8>>)
    requires
        s@.wf(),
    ensures
        bytes_view(r) == handed_over(s@),
{
    let forwarded = s.word("forwarded as ");
    let from = if forwarded.ok() {
        forwarded
    } else {
        s.word("250 2.0.0 Ok: queued as ")
    };
    let to = from.run(HEX);
    capture(from, to, to.word(")\n").end())
}

impl ParsedLine {
    /// Classifies one line, given with its newline. Every input has a
    /// meaning: what fits no shape is `Unknown`.
    pub fn parse(line: &[u8]) -> (r: ParsedLine)
        ensures
            r@ == classify(line@),
    {
        let program = Scanner::start(line, 0).skip(TIMESTAMP_WIDTH).until(SPACE).skip(1);
        if !program.ok() {
            return ParsedLine::Unknown;
        }
        if program.word("clamsmtp").ok() || program.word("postlicyd").ok() {
            return ParsedLine::Useless;
        }
        let body = program.word("postfix").until(SPACE).skip(1);
        if !body.ok() {
            return ParsedLine::Unknown;
        }
        if chatter(body) {
            return ParsedLine::Useless;
        }
        let id_end = body.run(HEX);
        let detail = id_end.word(": ");
        if !detail.ok() {
            return ParsedLine::Unknown;
        }
        let id = body.upto(&id_end);
        if plain(detail) {
            return ParsedLine::Postfix { id, message_id: None, previous_id: None, next_id: None };
        }
        let mid = message_id(detail);
        if mid.is_some() {
            return ParsedLine::Postfix { id, message_id: mid, previous_id: None, next_id: None };
        }
        let next = bounce(detail);
        if next.is_some() {
            return ParsedLine::Postfix { id, message_id: None, previous_id: None, next_id: next };
        }
        let previous = origin(detail);
        if previous.is_some() {
            return ParsedLine::Postfix {
                id,
                message_id: None,
                previous_id: previous,
                next_id: None,
            };
        }
        let answer = delivery_fields(detail);
        if answer.ok() {
            let next = hand_over(answer);
            return ParsedLine::Postfix { id, message_id: None, previous_id: None, next_id: next };
        }
        ParsedLine::Unknown
    }
}

} // verus!
