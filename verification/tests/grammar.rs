use mail_trace::line::ParsedLine;
use nom::branch::alt;
use nom::bytes::complete::{is_a, tag, take, take_until};
use nom::combinator::{eof, opt, rest, value};
use nom::sequence::{delimited, preceded, tuple};

type Links = (Option<Vec<u8>>, Option<Vec<u8>>, Option<Vec<u8>>);

const LETTERS: &str = "abcdefghijklmnopqrstuvwxyzABCDEFGHIJKLMNOPQRSTUVWXYZ0123456789";

/// The grammar of a log line, written down with parser combinators.
fn combined(line: &[u8]) -> ParsedLine {
    let none: Links = (None, None, None);
    let client = format!("{}.:-[]", LETTERS);
    let origin_client = format!("{}.-[]", LETTERS);
    let username = format!("{}.-@", LETTERS);
    let res: nom::IResult<&[u8], ParsedLine> = preceded(
        tuple((take(16usize), take_until(" "), take(1usize))),
        alt((
            value(ParsedLine::Useless, tag("clamsmtp")),
            value(ParsedLine::Useless, tag("postlicyd")),
            preceded(
                tuple((tag("postfix"), take_until(" "), take(1usize))),
                alt((
                    value(
                        ParsedLine::Useless,
                        alt((
                            tag("Anonymous TLS connection established from "),
                            tag("warning: "),
                            tag("connect from "),
                            tag("lost connection after "),
                            tag("disconnect from "),
                            tag("Untrusted TLS connection established to "),
                            tag("Trusted TLS connection established to "),
                            tag("connect to "),
                            tag("Anonymous TLS connection established to "),
                            tag("statistics: "),
                            tag("NOQUEUE: "),
                            tag("SSL_accept error from "),
                            tag("Trusted TLS connection established from "),
                            tag("Untrusted TLS connection established from "),
                            tag("timeout after "),
                            tag("improper command pipelining after "),
                            tag("Verified TLS connection established to "),
                            tag("too many errors "),
                            tag("mapping DSN status "),
                            tag("SSL_connect error to "),
                        )),
                    ),
                    nom::combinator::map(
                        tuple((
                            nom::combinator::map(is_a("0123456789ABCDEF"), |s: &[u8]| s.to_vec()),
                            tag(": "),
                            alt((
                                value(none.clone(), tuple((tag("removed\n"), eof))),
                                value(
                                    none.clone(),
                                    alt((
                                        tag("enabling PIX workarounds: "),
                                        tag("lost connection with "),
                                        tag("discard: "),
                                        tag("reject: "),
                                        tag("filter: "),
                                        tag("Cannot start TLS: "),
                                        tag("conversation with "),
                                    )),
                                ),
                                value(
                                    none.clone(),
                                    tuple((
                                        tag("uid="),
                                        is_a("0123456789"),
                                        tag(" from=<"),
                                        take_until(">"),
                                        tag(">\n"),
                                        eof,
                                    )),
                                ),
                                value(
                                    none.clone(),
                                    tuple((
                                        tag("from=<"),
                                        take_until(">"),
                                        tag(">, size="),
                                        is_a("0123456789"),
                                        tag(", nrcpt="),
                                        is_a("0123456789"),
                                        tag(" (queue active)\n"),
                                        eof,
                                    )),
                                ),
                                value(
                                    none.clone(),
                                    tuple((
                                        tag("from=<"),
                                        take_until(">"),
                                        tag(">, status="),
                                        take_until(","),
                                        tag(", returned to sender"),
                                    )),
                                ),
                                value(
                                    none.clone(),
                                    tuple((tag("client="), is_a(client.as_str()), tag("\n"), eof)),
                                ),
                                value(
                                    none.clone(),
                                    tuple((
                                        tag("client="),
                                        take_until(","),
                                        tag(", sasl_method="),
                                        take_until(","),
                                        tag(", sasl_username="),
                                        is_a(username.as_str()),
                                        tag("\n"),
                                        eof,
                                    )),
                                ),
                                value(
                                    none.clone(),
                                    tuple((
                                        tag("host "),
                                        take_until(" "),
                                        alt((tag(" said: "), tag(" refused to talk to me: "))),
                                    )),
                                ),
                                delimited(
                                    tuple((opt(tag("resent-")), tag("message-id="))),
                                    nom::combinator::map(take_until("\n"), |m: &[u8]| (Some(m.to_vec()), None, None)),
                                    tuple((tag("\n"), eof)),
                                ),
                                delimited(
                                    tag("sender non-delivery notification: "),
                                    nom::combinator::map(is_a("0123456789ABCDEF"), |n: &[u8]| {
                                        (None, None, Some(n.to_vec()))
                                    }),
                                    tuple((tag("\n"), eof)),
                                ),
                                delimited(
                                    tuple((
                                        tag("client="),
                                        take_until(","),
                                        tag(", orig_queue_id="),
                                    )),
                                    nom::combinator::map(is_a("0123456789ABCDEF"), |p: &[u8]| {
                                        (None, Some(p.to_vec()), None)
                                    }),
                                    tuple((
                                        tag(", orig_client="),
                                        is_a(origin_client.as_str()),
                                        tag("\n"),
                                        eof,
                                    )),
                                ),
                                preceded(
                                    tuple((
                                        tag("to=<"),
                                        take_until(">"),
                                        opt(tuple((tag(">, orig_to=<"), take_until(">")))),
                                        tag(">, relay="),
                                        take_until(","),
                                        opt(tuple((tag(", conn_use="), is_a("0123456789")))),
                                        tag(", delay="),
                                        is_a("0123456789."),
                                        tag(", delays="),
                                        is_a("0123456789./"),
                                        tag(", dsn="),
                                        is_a("0123456789."),
                                        tag(", status="),
                                        take_until(" "),
                                        tag(" ("),
                                    )),
                                    alt((
                                        delimited(
                                            alt((
                                                tag("forwarded as "),
                                                tag("250 2.0.0 Ok: queued as "),
                                            )),
                                            nom::combinator::map(is_a("0123456789ABCDEF"), |n: &[u8]| {
                                                (None, None, Some(n.to_vec()))
                                            }),
                                            tuple((tag(")\n"), eof)),
                                        ),
                                        value(none.clone(), rest),
                                    )),
                                ),
                            )),
                        )),
                        |(id, _, (message_id, previous_id, next_id))| ParsedLine::Postfix {
                            id,
                            message_id,
                            previous_id,
                            next_id,
                        },
                    ),
                )),
            ),
        )),
    )(line);
    match res {
        Ok((_, parsed)) => parsed,
        Err(_) => ParsedLine::Unknown,
    }
}

fn details() -> Vec<&'static str> {
    vec![
        "removed",
        "removed ",
        "enabling PIX workarounds: disable_esmtp for mx[1.2.3.4]:25",
        "lost connection with mx[1.2.3.4] while sending RCPT TO",
        "discard: RCPT from x[1.2.3.4]: <a@b>: Recipient address triggers DISCARD action",
        "reject: RCPT from x[1.2.3.4]: 550 5.1.1 <a@b>: Recipient address rejected",
        "filter: RCPT from x[1.2.3.4]: <a@b>: Sender address triggers FILTER smtp:[127.0.0.1]:10025",
        "Cannot start TLS: handshake failure",
        "conversation with mx[1.2.3.4] timed out while receiving the initial server greeting",
        "uid=1000 from=<me@example.com>",
        "uid= from=<me@example.com>",
        "uid=1000 from=<me@example.com> ",
        "uid=1000 from=<>",
        "from=<a@b>, size=100, nrcpt=1 (queue active)",
        "from=<>, size=100, nrcpt=1 (queue active)",
        "from=<a>b>, size=100, nrcpt=1 (queue active)",
        "from=<a@b>, size=, nrcpt=1 (queue active)",
        "from=<a@b>, size=100, nrcpt=1 (queue active) ",
        "from=<a@b>, status=expired, returned to sender",
        "from=<a@b>, status=, returned to sender and more",
        "from=<a@b>, status=expired",
        "client=host[1.2.3.4]",
        "client=",
        "client=host[1.2.3.4] ",
        "client=un_known[1.2.3.4]",
        "client=host[1.2.3.4], sasl_method=PLAIN, sasl_username=me@example.com",
        "client=host[1.2.3.4], sasl_method=, sasl_username=me",
        "client=host[1.2.3.4], sasl_method=PLAIN, sasl_username=",
        "client=host[1.2.3.4], sasl_method=PLAIN, sasl_username=me, sasl_sender=x",
        "host mx[1.2.3.4] said: 450 4.7.1 try again later",
        "host mx[1.2.3.4] refused to talk to me: 421 busy",
        "host mx[1.2.3.4]  said: 450",
        "host  said: 450",
        "host mx[1.2.3.4] says: 450",
        "message-id=<m@x>",
        "message-id=",
        "message-id=with spaces, commas and > signs",
        "resent-message-id=<m@x>",
        "resent-resent-message-id=<m@x>",
        "Message-Id=<m@x>",
        "sender non-delivery notification: DEF456",
        "sender non-delivery notification: DEF456 ",
        "sender non-delivery notification: ",
        "sender non-delivery notification: def456",
        "sender non-delivery notification: DEF456G",
        "client=localhost[127.0.0.1], orig_queue_id=ABC123, orig_client=host[1.2.3.4]",
        "client=localhost[127.0.0.1], orig_queue_id=, orig_client=host[1.2.3.4]",
        "client=localhost[127.0.0.1], orig_queue_id=ABC123, orig_client=",
        "client=localhost[127.0.0.1], orig_queue_id=ABC123, orig_client=host[1:2]",
        "client=localhost[127.0.0.1], orig_queue_id=ABC123, orig_client=host[1.2.3.4], x",
        "client=a, b=c, orig_queue_id=ABC123, orig_client=host[1.2.3.4]",
        "to=<c@d>, relay=r, delay=1, delays=1/0/0/0, dsn=2.0.0, status=sent (250 2.0.0 Ok: queued as DEF456)",
        "to=<c@d>, relay=r, delay=1, delays=1/0/0/0, dsn=2.0.0, status=sent (forwarded as DEF456)",
        "to=<c@d>, relay=r, delay=1, delays=1/0/0/0, dsn=2.0.0, status=sent (forwarded as DEF456) ",
        "to=<c@d>, relay=r, delay=1, delays=1/0/0/0, dsn=2.0.0, status=sent (forwarded as )",
        "to=<c@d>, relay=r, delay=1, delays=1/0/0/0, dsn=2.0.0, status=sent (forwarded as 250 2.0.0 Ok: queued as DEF456)",
        "to=<c@d>, relay=r, delay=1, delays=1/0/0/0, dsn=2.0.0, status=sent (250 2.0.0 Ok: queued as DEF456",
        "to=<c@d>, relay=r, delay=1, delays=1/0/0/0, dsn=2.0.0, status=sent (delivered to mailbox)",
        "to=<c@d>, relay=r, delay=1, delays=1/0/0/0, dsn=4.4.1, status=deferred (connect to mx[1.2.3.4]:25: Connection timed out)",
        "to=<c@d>, relay=r, delay=1, delays=1/0/0/0, dsn=2.0.0, status=sent (",
        "to=<c@d>, relay=r, delay=1, delays=1/0/0/0, dsn=2.0.0, status=sent(",
        "to=<c@d>, relay=r, delay=1, delays=1/0/0/0, dsn=2.0.0, status=sent",
        "to=<c@d>, orig_to=<e@f>, relay=r, delay=1, delays=1/0/0/0, dsn=2.0.0, status=sent (forwarded as DEF456)",
        "to=<c@d>, orig_to=<e@f, relay=r, delay=1, delays=1/0/0/0, dsn=2.0.0, status=sent (forwarded as DEF456)",
        "to=<c@d>, orig_to=<e@f>, orig_to=<g@h>, relay=r, delay=1, delays=1/0/0/0, dsn=2.0.0, status=sent (x)",
        "to=<c@d>, relay=r, conn_use=2, delay=1, delays=1/0/0/0, dsn=2.0.0, status=sent (x)",
        "to=<c@d>, relay=r, conn_use=, delay=1, delays=1/0/0/0, dsn=2.0.0, status=sent (x)",
        "to=<c@d>, relay=r, conn_use=2x, delay=1, delays=1/0/0/0, dsn=2.0.0, status=sent (x)",
        "to=<c@d>, relay=, delay=0.5, delays=0.1/0.2/0.1/0.1, dsn=2.0.0, status=sent (x)",
        "to=<c@d>, relay=r, delay=, delays=1/0/0/0, dsn=2.0.0, status=sent (x)",
        "to=<c@d>, relay=r, delay=1, delays=1/0/0/0, dsn=2.0.0 status=sent (x)",
        "to=<>, relay=none, delay=1, delays=1/0/0/0, dsn=5.0.0, status=bounced (x)",
        "to=c@d, relay=r, delay=1, delays=1/0/0/0, dsn=2.0.0, status=sent (x)",
        "something that no shape describes",
        "",
    ]
}

fn corpus() -> Vec<Vec<u8>> {
    let mut lines: Vec<Vec<u8>> = Vec::new();
    let heads = [
        "Jan 10 00:00:00 mx1 postfix/smtpd[1]: ",
        "Jan 10 00:00:00 mx1 postfix: ",
        "Jan 10 00:00:00  postfix/x ",
        "Jan 10 00:00:00 mx1 postfixx ",
        "Jan 10 00:00:00 mx1 postfix",
        "Jan 10 00:00:00 mx1 postfi/smtpd[1]: ",
        "Jan 10 00:00:0 mx1 postfix/smtpd[1]: ",
        "Jan 10 00:00:00 mx1 clamsmtpd: ",
        "Jan 10 00:00:00 mx1 postlicyd[3]: ",
        "Jan 10 00:00:00 mx1 clamsmt: ",
        "Jan 10 00:00:00 a b c postfix/smtpd[1]: ",
        "",
    ];
    let ids = ["ABC123: ", "0: ", "ABC123:", "ABC123 ", ": ", "abc: ", "ABCDEFG: ", "AB: : "];
    let chatter = [
        "Anonymous TLS connection established from x",
        "warning: hostname does not resolve",
        "connect from unknown[1.2.3.4]",
        "lost connection after DATA from x",
        "disconnect from unknown[1.2.3.4]",
        "Untrusted TLS connection established to x",
        "Trusted TLS connection established to x",
        "connect to mx[1.2.3.4]:25: Connection refused",
        "Anonymous TLS connection established to x",
        "statistics: max connection rate 1/60s",
        "NOQUEUE: reject: RCPT from x",
        "SSL_accept error from x",
        "Trusted TLS connection established from x",
        "Untrusted TLS connection established from x",
        "timeout after DATA from x",
        "improper command pipelining after EHLO from x",
        "Verified TLS connection established to x",
        "too many errors after RCPT from x",
        "mapping DSN status 4.7.1 into Recipient status 5.7.1",
        "SSL_connect error to x",
        "Connect from x",
        "warning:",
    ];
    for head in heads.iter() {
        for line in chatter.iter() {
            lines.push(format!("{}{}\n", head, line).into_bytes());
        }
        for id in ids.iter() {
            for detail in details() {
                lines.push(format!("{}{}{}\n", head, id, detail).into_bytes());
                lines.push(format!("{}{}{}", head, id, detail).into_bytes());
                lines.push(format!("{}{}{}\n\n", head, id, detail).into_bytes());
            }
        }
    }
    lines
}

#[test]
fn parse_agrees_with_the_combinators_on_the_corpus() {
    let lines = corpus();
    assert!(lines.len() > 1000);
    for line in lines.iter() {
        assert_eq!(
            ParsedLine::parse(line),
            combined(line),
            "on {:?}",
            String::from_utf8_lossy(line)
        );
    }
}

#[test]
fn parse_agrees_with_the_combinators_on_every_prefix() {
    for line in corpus().iter().step_by(7) {
        for cut in 0..line.len() {
            assert_eq!(
                ParsedLine::parse(&line[..cut]),
                combined(&line[..cut]),
                "on {:?}",
                String::from_utf8_lossy(&line[..cut])
            );
        }
    }
}

#[test]
fn parse_agrees_with_the_combinators_on_changed_bytes() {
    let mut seed: u32 = 12345;
    for line in corpus().iter().step_by(5) {
        if line.is_empty() {
            continue;
        }
        for _ in 0..8 {
            seed = seed.wrapping_mul(1664525).wrapping_add(1013904223);
            let at = (seed >> 8) as usize % line.len();
            seed = seed.wrapping_mul(1664525).wrapping_add(1013904223);
            let byte = (seed >> 16) as u8;
            let mut changed = line.clone();
            changed[at] = byte;
            assert_eq!(ParsedLine::parse(&changed), combined(&changed), "on {:?}", changed);
        }
    }
}

#[test]
fn corpus_meets_every_kind_of_line() {
    let lines = corpus();
    let parsed: Vec<ParsedLine> = lines.iter().map(|l| ParsedLine::parse(l)).collect();
    assert!(parsed.iter().any(|p| *p == ParsedLine::Unknown));
    assert!(parsed.iter().any(|p| *p == ParsedLine::Useless));
    assert!(parsed
        .iter()
        .any(|p| matches!(p, ParsedLine::Postfix { message_id: Some(_), .. })));
    assert!(parsed
        .iter()
        .any(|p| matches!(p, ParsedLine::Postfix { previous_id: Some(_), .. })));
    assert!(parsed.iter().any(|p| matches!(p, ParsedLine::Postfix { next_id: Some(_), .. })));
    assert!(parsed.iter().any(|p| matches!(
        p,
        ParsedLine::Postfix { message_id: None, previous_id: None, next_id: None, .. }
    )));
}
