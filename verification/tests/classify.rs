use mail_trace::line::ParsedLine;

fn line(rest: &str) -> Vec<u8> {
    format!("Jan 10 00:00:00 mx1 {}\n", rest).into_bytes()
}

fn plain(id: &str) -> ParsedLine {
    ParsedLine::Postfix {
        id: id.as_bytes().to_vec(),
        message_id: None,
        previous_id: None,
        next_id: None,
    }
}

#[test]
fn empty_line_is_unknown() {
    assert_eq!(ParsedLine::parse(b""), ParsedLine::Unknown);
}

#[test]
fn garbage_is_unknown() {
    assert_eq!(ParsedLine::parse(&[0xff, 0x00, 0xfe, 0x80, 0x0a]), ParsedLine::Unknown);
    assert_eq!(ParsedLine::parse(&[0xffu8; 64]), ParsedLine::Unknown);
}

#[test]
fn short_line_is_unknown() {
    assert_eq!(ParsedLine::parse(b"Jan 10 00:00:00"), ParsedLine::Unknown);
    assert_eq!(ParsedLine::parse(b"Jan 10 00:00:00 "), ParsedLine::Unknown);
    assert_eq!(ParsedLine::parse(b"Jan 10 00:00:00 host"), ParsedLine::Unknown);
}

#[test]
fn other_programs_are_useless() {
    assert_eq!(ParsedLine::parse(&line("clamsmtpd: 100001: accepted connection")), ParsedLine::Useless);
    assert_eq!(ParsedLine::parse(&line("postlicyd[12]: something")), ParsedLine::Useless);
}

#[test]
fn unknown_program_is_unknown() {
    assert_eq!(ParsedLine::parse(&line("dovecot: imap-login: Login")), ParsedLine::Unknown);
}

#[test]
fn chatter_is_useless() {
    assert_eq!(
        ParsedLine::parse(&line("postfix/smtpd[1]: connect from unknown[1.2.3.4]")),
        ParsedLine::Useless
    );
    assert_eq!(
        ParsedLine::parse(&line("postfix/smtpd[1]: NOQUEUE: reject: RCPT from x")),
        ParsedLine::Useless
    );
    assert_eq!(
        ParsedLine::parse(&line("postfix/anvil[1]: statistics: max connection rate 1/60s")),
        ParsedLine::Useless
    );
}

#[test]
fn client_line_has_no_links() {
    assert_eq!(
        ParsedLine::parse(&line("postfix/smtpd[1]: ABC123: client=host[1.2.3.4]")),
        plain("ABC123")
    );
}

#[test]
fn removed_line_has_no_links() {
    assert_eq!(ParsedLine::parse(&line("postfix/qmgr[1]: ABC123: removed")), plain("ABC123"));
}

#[test]
fn removed_with_trailing_text_is_unknown() {
    assert_eq!(
        ParsedLine::parse(&line("postfix/qmgr[1]: ABC123: removed again")),
        ParsedLine::Unknown
    );
}

#[test]
fn queue_active_line_has_no_links() {
    assert_eq!(
        ParsedLine::parse(&line(
            "postfix/qmgr[1]: ABC123: from=<a@b>, size=100, nrcpt=1 (queue active)"
        )),
        plain("ABC123")
    );
}

#[test]
fn message_id_is_taken_to_the_end_of_the_line() {
    assert_eq!(
        ParsedLine::parse(&line("postfix/cleanup[1]: ABC123: message-id=<m@x>")),
        ParsedLine::Postfix {
            id: b"ABC123".to_vec(),
            message_id: Some(b"<m@x>".to_vec()),
            previous_id: None,
            next_id: None,
        }
    );
    assert_eq!(
        ParsedLine::parse(&line("postfix/cleanup[1]: ABC123: resent-message-id=a b, c")),
        ParsedLine::Postfix {
            id: b"ABC123".to_vec(),
            message_id: Some(b"a b, c".to_vec()),
            previous_id: None,
            next_id: None,
        }
    );
}

#[test]
fn empty_message_id_is_kept() {
    assert_eq!(
        ParsedLine::parse(&line("postfix/cleanup[1]: ABC123: message-id=")),
        ParsedLine::Postfix {
            id: b"ABC123".to_vec(),
            message_id: Some(Vec::new()),
            previous_id: None,
            next_id: None,
        }
    );
}

#[test]
fn message_id_without_newline_is_unknown() {
    assert_eq!(
        ParsedLine::parse(b"Jan 10 00:00:00 mx1 postfix/cleanup[1]: ABC123: message-id=<m@x>"),
        ParsedLine::Unknown
    );
}

#[test]
fn bounce_names_the_next_transaction() {
    assert_eq!(
        ParsedLine::parse(&line(
            "postfix/bounce[1]: ABC123: sender non-delivery notification: DEF456"
        )),
        ParsedLine::Postfix {
            id: b"ABC123".to_vec(),
            message_id: None,
            previous_id: None,
            next_id: Some(b"DEF456".to_vec()),
        }
    );
}

#[test]
fn reinjection_names_the_previous_transaction() {
    assert_eq!(
        ParsedLine::parse(&line(
            "postfix/smtpd[1]: DEF456: client=localhost[127.0.0.1], orig_queue_id=ABC123, orig_client=mail.example.com[1.2.3.4]"
        )),
        ParsedLine::Postfix {
            id: b"DEF456".to_vec(),
            message_id: None,
            previous_id: Some(b"ABC123".to_vec()),
            next_id: None,
        }
    );
}

#[test]
fn sasl_client_has_no_links() {
    assert_eq!(
        ParsedLine::parse(&line(
            "postfix/smtpd[1]: ABC123: client=host[1.2.3.4], sasl_method=PLAIN, sasl_username=me@example.com"
        )),
        plain("ABC123")
    );
}

#[test]
fn relay_hand_off_names_the_next_transaction() {
    assert_eq!(
        ParsedLine::parse(&line(
            "postfix/smtp[1]: ABC123: to=<c@d>, relay=r, delay=1, delays=1/0/0/0, dsn=2.0.0, status=sent (250 2.0.0 Ok: queued as DEF456)"
        )),
        ParsedLine::Postfix {
            id: b"ABC123".to_vec(),
            message_id: None,
            previous_id: None,
            next_id: Some(b"DEF456".to_vec()),
        }
    );
    assert_eq!(
        ParsedLine::parse(&line(
            "postfix/local[1]: ABC123: to=<c@d>, orig_to=<e@f>, relay=local, conn_use=2, delay=0.1, delays=0.1/0/0/0, dsn=2.0.0, status=sent (forwarded as 0A1B2C)"
        )),
        ParsedLine::Postfix {
            id: b"ABC123".to_vec(),
            message_id: None,
            previous_id: None,
            next_id: Some(b"0A1B2C".to_vec()),
        }
    );
}

#[test]
fn other_delivery_answers_have_no_links() {
    assert_eq!(
        ParsedLine::parse(&line(
            "postfix/smtp[1]: ABC123: to=<c@d>, relay=r, delay=1, delays=1/0/0/0, dsn=4.0.0, status=deferred (connection timed out)"
        )),
        plain("ABC123")
    );
    assert_eq!(
        ParsedLine::parse(&line(
            "postfix/smtp[1]: ABC123: to=<c@d>, relay=r, delay=1, delays=1/0/0/0, dsn=2.0.0, status=sent (250 2.0.0 Ok: queued as xyz)"
        )),
        plain("ABC123")
    );
}

#[test]
fn lower_case_identifier_is_unknown() {
    assert_eq!(
        ParsedLine::parse(&line("postfix/qmgr[1]: abc123: removed")),
        ParsedLine::Unknown
    );
}

#[test]
fn unknown_detail_is_unknown() {
    assert_eq!(
        ParsedLine::parse(&line("postfix/qmgr[1]: ABC123: something new")),
        ParsedLine::Unknown
    );
}
