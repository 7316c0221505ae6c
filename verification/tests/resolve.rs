use mail_trace::display::display;
use mail_trace::display::in_brackets;
use mail_trace::display::run;
use mail_trace::order::LineRef;
use mail_trace::resolve::Failure;
use mail_trace::resolve::Notice;
use mail_trace::resolve::Step;
use mail_trace::resolve::Trace;
use mail_trace::state::State;

fn state_of(lines: &[&str]) -> State {
    let mut state = State::new();
    for (i, rest) in lines.iter().enumerate() {
        let text = format!("Jan 10 00:00:00 mx1 {}\n", rest).into_bytes();
        state
            .eat(LineRef { file: 0, number: i as u64 + 1 }, &text)
            .expect("a line of a known shape");
    }
    state
}

fn id(text: &str) -> Vec<u8> {
    text.as_bytes().to_vec()
}

fn step(text: &str, depth: usize) -> Step {
    Step { id: id(text), depth }
}

fn names(state: &State, of: &str, up: bool) -> Vec<String> {
    state
        .neighbours(&id(of), up)
        .entries
        .iter()
        .map(|e| String::from_utf8(e.0.clone()).unwrap())
        .collect()
}

const HAND_OFF: &str = "to=<c@d>, relay=r, delay=1, delays=1/0/0/0, dsn=2.0.0, status=sent (250 2.0.0 Ok: queued as ";

fn next(from: &str, to: &str) -> String {
    format!("postfix/smtp[1]: {}: {}{})", from, HAND_OFF, to)
}

fn previous(of: &str, from: &str) -> String {
    format!(
        "postfix/smtpd[1]: {}: client=localhost[127.0.0.1], orig_queue_id={}, orig_client=host[1.2.3.4]",
        of, from
    )
}

fn carries(by: &str, message: &str) -> String {
    format!("postfix/cleanup[1]: {}: message-id={}", by, message)
}

#[test]
fn links_are_seen_from_both_ends() {
    let state = state_of(&[&next("AAA", "BBB"), &previous("BBB", "AAA")]);
    assert_eq!(names(&state, "AAA", false), vec!["BBB"]);
    assert_eq!(names(&state, "BBB", true), vec!["AAA"]);
    assert_eq!(names(&state, "AAA", true), Vec::<String>::new());
    assert_eq!(names(&state, "BBB", false), Vec::<String>::new());
}

#[test]
fn a_link_named_on_one_side_only_counts_on_both() {
    let forward = state_of(&[&next("AAA", "BBB")]);
    assert_eq!(names(&forward, "AAA", false), vec!["BBB"]);
    assert_eq!(names(&forward, "BBB", true), vec!["AAA"]);
    let backward = state_of(&[&previous("BBB", "AAA")]);
    assert_eq!(names(&backward, "AAA", false), vec!["BBB"]);
    assert_eq!(names(&backward, "BBB", true), vec!["AAA"]);
}

#[test]
fn neighbours_come_in_ascending_order() {
    let state = state_of(&[
        &next("AAA", "F0"),
        &next("AAA", "0F"),
        &previous("B", "AAA"),
        &previous("0F0", "AAA"),
    ]);
    assert_eq!(names(&state, "AAA", false), vec!["0F", "0F0", "B", "F0"]);
}

#[test]
fn unknown_message_is_not_found() {
    let state = state_of(&[&carries("AAA", "<m@x>")]);
    assert_eq!(state.resolve(&id("<other>")), Ok(None));
    assert_eq!(state.resolve(&id("m@x")), Ok(None));
    assert_eq!(State::new().resolve(&id("")), Ok(None));
    assert_eq!(display(&id("m@x"), &state), Ok(None));
    assert_eq!(run(&id("other"), &state), Ok(None));
}

#[test]
fn end_to_end_example() {
    let state = state_of(&[
        "postfix/smtpd[1]: ABC123: client=host[1.2.3.4]",
        "postfix/cleanup[1]: ABC123: message-id=<m@x>",
        "postfix/qmgr[1]: ABC123: from=<a@b>, size=100, nrcpt=1 (queue active)",
        "postfix/smtp[1]: ABC123: to=<c@d>, relay=r, delay=1, delays=1/0/0/0, dsn=2.0.0, status=sent (250 2.0.0 Ok: queued as DEF456)",
        "postfix/qmgr[1]: DEF456: removed",
    ]);
    let trace = state.resolve(&id("<m@x>")).unwrap().unwrap();
    assert_eq!(trace.steps, vec![step("ABC123", 0), step("DEF456", 1)]);
    assert_eq!(trace.notices, Vec::<Notice>::new());
    assert_eq!(names(&state, "ABC123", true), Vec::<String>::new());
    assert_eq!(names(&state, "ABC123", false), vec!["DEF456"]);
    let frames = state.frames(&trace.steps);
    assert_eq!(frames.len(), 2);
    assert_eq!(frames[0].lines.len(), 4);
    assert_eq!(frames[0].predecessors, Vec::<Vec<u8>>::new());
    assert_eq!(frames[0].successors, vec![id("DEF456")]);
    assert_eq!(frames[1].lines, vec![id("Jan 10 00:00:00 mx1 postfix/qmgr[1]: DEF456: removed")]);
    assert_eq!(frames[1].predecessors, vec![id("ABC123")]);
    assert_eq!(frames[1].successors, Vec::<Vec<u8>>::new());
    let shown = run(&id("m@x"), &state).unwrap().unwrap();
    let text = String::from_utf8(shown.text).unwrap();
    assert_eq!(text.matches('┌').count(), 2);
    assert_eq!(text.matches('└').count(), 2);
    assert!(text.find("ABC123").unwrap() < text.find("DEF456: removed").unwrap());
}

#[test]
fn bracketed_fallback() {
    let state = state_of(&[
        &carries("AAA", "<abc@example.com>"),
        &next("AAA", "BBB"),
        "postfix/qmgr[1]: BBB: removed",
    ]);
    assert_eq!(state.resolve(&id("abc@example.com")), Ok(None));
    assert_eq!(display(&id("abc@example.com"), &state), Ok(None));
    assert_eq!(in_brackets(&id("abc@example.com")), id("<abc@example.com>"));
    let direct = display(&id("<abc@example.com>"), &state).unwrap().unwrap();
    let bare = run(&id("abc@example.com"), &state).unwrap().unwrap();
    assert_eq!(bare, direct);
    assert_eq!(run(&id("<abc@example.com>"), &state).unwrap().unwrap(), direct);
    assert!(!direct.text.is_empty());
}

#[test]
fn literal_identifier_is_preferred_to_the_bracketed_one() {
    let state = state_of(&[&carries("AAA", "m"), &carries("BBB", "<m>")]);
    let bare = state.resolve(&id("m")).unwrap().unwrap();
    assert_eq!(bare.steps, vec![step("AAA", 0)]);
    assert_eq!(run(&id("m"), &state), display(&id("m"), &state));
}

#[test]
fn resolving_twice_gives_the_same_answer() {
    let state = state_of(&[
        &carries("AAA", "<m>"),
        &next("AAA", "BBB"),
        &next("AAA", "CCC"),
        &previous("DDD", "BBB"),
        "postfix/qmgr[1]: BBB: removed",
        "postfix/qmgr[1]: CCC: removed",
    ]);
    assert_eq!(state.resolve(&id("<m>")), state.resolve(&id("<m>")));
    assert_eq!(display(&id("<m>"), &state), display(&id("<m>"), &state));
    assert_eq!(run(&id("m"), &state), run(&id("m"), &state));
}

#[test]
fn cycle_is_rejected() {
    let state = state_of(&[&carries("AAA", "<m>"), &next("AAA", "BBB"), &next("BBB", "AAA")]);
    assert_eq!(state.resolve(&id("<m>")), Err(Failure::Cycle { id: id("BBB") }));
    assert_eq!(display(&id("<m>"), &state), Err(Failure::Cycle { id: id("BBB") }));
    assert_eq!(run(&id("m"), &state), Err(Failure::Cycle { id: id("BBB") }));
    let other = state_of(&[&carries("BBB", "<m>"), &next("AAA", "BBB"), &next("BBB", "AAA")]);
    assert_eq!(other.resolve(&id("<m>")), Err(Failure::Cycle { id: id("AAA") }));
}

#[test]
fn cycle_with_another_way_in_is_shown_from_there() {
    let state = state_of(&[
        &carries("BBB", "<m>"),
        &next("BBB", "CCC"),
        &next("CCC", "BBB"),
        &next("AAA", "BBB"),
    ]);
    assert_eq!(
        state.resolve(&id("<m>")),
        Ok(Some(Trace {
            steps: vec![step("AAA", 0), step("BBB", 1), step("CCC", 2)],
            notices: vec![Notice::Ambiguous { id: id("BBB") }],
        }))
    );
}

#[test]
fn transaction_that_follows_itself_is_a_cycle() {
    let state = state_of(&[&carries("AAA", "<m>"), &next("AAA", "AAA")]);
    assert_eq!(state.resolve(&id("<m>")), Err(Failure::Cycle { id: id("AAA") }));
}

#[test]
fn ancestor_shown_without_its_child_is_reported() {
    let state = state_of(&[
        &carries("AAA", "<m>"),
        &carries("CCC", "<m>"),
        &next("AAA", "BBB"),
        &previous("CCC", "BBB"),
    ]);
    let failure = Failure::Orphaned { ancestor: id("BBB"), child: id("CCC") };
    assert_eq!(state.resolve(&id("<m>")), Err(failure.clone()));
    assert_eq!(display(&id("<m>"), &state), Err(failure.clone()));
    assert_eq!(run(&id("m"), &state), Err(failure));
}

#[test]
fn missing_block_is_noted_and_not_shown() {
    let state = state_of(&[&carries("AAA", "<m>"), &next("AAA", "BBB")]);
    assert_eq!(
        state.resolve(&id("<m>")),
        Ok(Some(Trace {
            steps: vec![step("AAA", 0)],
            notices: vec![Notice::Missing { id: id("BBB") }],
        }))
    );
}

#[test]
fn root_without_block_shows_nothing() {
    let state = state_of(&[&carries("BBB", "<m>"), &previous("BBB", "AAA")]);
    assert_eq!(
        state.resolve(&id("<m>")),
        Ok(Some(Trace { steps: vec![], notices: vec![Notice::Missing { id: id("AAA") }] }))
    );
    assert_eq!(display(&id("<m>"), &state).unwrap().unwrap().text, Vec::<u8>::new());
}

#[test]
fn ambiguous_predecessor_takes_the_least() {
    let state = state_of(&[
        &carries("CCC", "<m>"),
        &previous("CCC", "BBB"),
        &next("AAA", "CCC"),
        "postfix/qmgr[1]: BBB: removed",
    ]);
    assert_eq!(
        state.resolve(&id("<m>")),
        Ok(Some(Trace {
            steps: vec![step("AAA", 0), step("CCC", 1)],
            notices: vec![Notice::Ambiguous { id: id("CCC") }],
        }))
    );
}

#[test]
fn descent_is_depth_first_in_ascending_order() {
    let state = state_of(&[
        &carries("A0", "<m>"),
        &next("A0", "C0"),
        &next("A0", "B0"),
        &next("B0", "D0"),
        &next("B0", "C0"),
        "postfix/qmgr[1]: C0: removed",
        "postfix/qmgr[1]: D0: removed",
    ]);
    let trace = state.resolve(&id("<m>")).unwrap().unwrap();
    assert_eq!(
        trace.steps,
        vec![step("A0", 0), step("B0", 1), step("C0", 2), step("D0", 2)]
    );
    assert_eq!(trace.notices, Vec::<Notice>::new());
}

#[test]
fn transaction_shown_in_an_earlier_thread_is_passed_over() {
    let state = state_of(&[
        &carries("AAA", "<m>"),
        &carries("BBB", "<m>"),
        &carries("DDD", "<m>"),
        &next("AAA", "BBB"),
    ]);
    let trace = state.resolve(&id("<m>")).unwrap().unwrap();
    assert_eq!(trace.steps, vec![step("AAA", 0), step("BBB", 1), step("DDD", 0)]);
}
