use mail_trace::order::LineRef;
use mail_trace::resolve::Failure;
use mail_trace::resolve::Notice;
use mail_trace::resolve::Step;
use mail_trace::resolve::Trace;
use mail_trace::state::State;
use std::collections::BTreeMap;
use std::collections::BTreeSet;

/// What is known of the transactions, kept in the collections of the
/// standard library.
#[derive(Default)]
struct Known {
    previous: BTreeMap<String, BTreeSet<String>>,
    next: BTreeMap<String, BTreeSet<String>>,
    carriers: BTreeSet<String>,
}

impl Known {
    fn block(&mut self, id: &str) {
        self.previous.entry(id.to_string()).or_default();
        self.next.entry(id.to_string()).or_default();
    }

    fn has_block(&self, id: &str) -> bool {
        self.previous.contains_key(id)
    }

    fn predecessors(&self, id: &str) -> BTreeSet<String> {
        let mut all: BTreeSet<String> = self.previous.get(id).cloned().unwrap_or_default();
        for (other, named) in self.next.iter() {
            if named.contains(id) {
                all.insert(other.clone());
            }
        }
        all
    }

    fn successors(&self, id: &str) -> BTreeSet<String> {
        let mut all: BTreeSet<String> = self.next.get(id).cloned().unwrap_or_default();
        for (other, named) in self.previous.iter() {
            if named.contains(id) {
                all.insert(other.clone());
            }
        }
        all
    }

    fn visit(
        &self,
        id: &str,
        depth: usize,
        displayed: &mut BTreeSet<String>,
        steps: &mut Vec<Step>,
        notices: &mut Vec<Notice>,
    ) {
        if !displayed.insert(id.to_string()) {
            return;
        }
        if !self.has_block(id) {
            notices.push(Notice::Missing { id: id.as_bytes().to_vec() });
            return;
        }
        steps.push(Step { id: id.as_bytes().to_vec(), depth });
        for next in self.successors(id) {
            self.visit(&next, depth + 1, displayed, steps, notices);
        }
    }

    fn resolve(&self) -> Result<Option<Trace>, Failure> {
        if self.carriers.is_empty() {
            return Ok(None);
        }
        let mut displayed = BTreeSet::new();
        let mut steps = Vec::new();
        let mut notices = Vec::new();
        for candidate in self.carriers.iter() {
            if displayed.contains(candidate) {
                continue;
            }
            let mut id = candidate.clone();
            let mut explored = BTreeSet::new();
            let root = loop {
                explored.insert(id.clone());
                let above = self.predecessors(&id);
                if above.is_empty() {
                    break id;
                }
                if above.len() > 1 {
                    notices.push(Notice::Ambiguous { id: id.as_bytes().to_vec() });
                }
                let parent = above.iter().next().unwrap().clone();
                if explored.contains(&parent) {
                    return Err(Failure::Cycle { id: id.into_bytes() });
                }
                if displayed.contains(&parent) {
                    return Err(Failure::Orphaned {
                        ancestor: parent.into_bytes(),
                        child: candidate.clone().into_bytes(),
                    });
                }
                id = parent;
            };
            self.visit(&root, 0, &mut displayed, &mut steps, &mut notices);
        }
        Ok(Some(Trace { steps, notices }))
    }
}

struct Dice(u64);

impl Dice {
    fn roll(&mut self, sides: usize) -> usize {
        self.0 = self.0.wrapping_mul(6364136223846793005).wrapping_add(1442695040888963407);
        ((self.0 >> 33) as usize) % sides
    }
}

const POOL: [&str; 8] = ["0A", "1B", "2C", "3D", "4E", "5F", "60", "71"];

fn eat(state: &mut State, number: &mut u64, rest: String) {
    *number += 1;
    let text = format!("Jan 10 00:00:00 mx1 {}\n", rest).into_bytes();
    state
        .eat(LineRef { file: 0, number: *number }, &text)
        .expect("a line of a known shape");
}

fn random_case(dice: &mut Dice, ids: usize, facts: usize) -> (State, Known) {
    let mut state = State::new();
    let mut known = Known::default();
    let mut number = 0u64;
    for _ in 0..facts {
        let a = POOL[dice.roll(ids)];
        let b = POOL[dice.roll(ids)];
        match dice.roll(5) {
            0 => {
                eat(&mut state, &mut number, format!("postfix/cleanup[1]: {}: message-id=<m>", a));
                known.block(a);
                known.carriers.insert(a.to_string());
            }
            1 | 2 => {
                eat(
                    &mut state,
                    &mut number,
                    format!(
                        "postfix/smtp[1]: {}: to=<c@d>, relay=r, delay=1, delays=1/0/0/0, dsn=2.0.0, status=sent (250 2.0.0 Ok: queued as {})",
                        a, b
                    ),
                );
                known.block(a);
                known.next.get_mut(a).unwrap().insert(b.to_string());
            }
            3 => {
                eat(
                    &mut state,
                    &mut number,
                    format!(
                        "postfix/smtpd[1]: {}: client=localhost[127.0.0.1], orig_queue_id={}, orig_client=host[1.2.3.4]",
                        a, b
                    ),
                );
                known.block(a);
                known.previous.get_mut(a).unwrap().insert(b.to_string());
            }
            _ => {
                eat(&mut state, &mut number, format!("postfix/qmgr[1]: {}: removed", a));
                known.block(a);
            }
        }
    }
    (state, known)
}

#[test]
fn resolve_agrees_with_the_recursive_walk() {
    let mut dice = Dice(7);
    let mut found = 0;
    let mut cycles = 0;
    let mut orphans = 0;
    let mut missing = 0;
    let mut ambiguous = 0;
    for round in 0..4000 {
        let ids = 2 + round % 7;
        let facts = 1 + dice.roll(10);
        let (state, known) = random_case(&mut dice, ids, facts);
        assert!(state.is_well_formed());
        let expected = known.resolve();
        let got = state.resolve(&b"<m>".to_vec());
        assert_eq!(got, expected, "in round {}", round);
        match got {
            Ok(Some(trace)) => {
                found += 1;
                for notice in trace.notices {
                    match notice {
                        Notice::Missing { .. } => missing += 1,
                        Notice::Ambiguous { .. } => ambiguous += 1,
                    }
                }
            }
            Err(Failure::Cycle { .. }) => cycles += 1,
            Err(Failure::Orphaned { .. }) => orphans += 1,
            Ok(None) => {}
        }
    }
    assert!(found > 100);
    assert!(cycles > 100);
    assert!(orphans > 0);
    assert!(missing > 100);
    assert!(ambiguous > 100);
}

#[test]
fn neighbours_agree_with_the_sets_of_the_standard_library() {
    let mut dice = Dice(99);
    for round in 0..500 {
        let (state, known) = random_case(&mut dice, 2 + round % 7, 1 + round % 12);
        for id in POOL.iter() {
            let key = id.as_bytes().to_vec();
            let above: Vec<String> = state
                .neighbours(&key, true)
                .entries
                .iter()
                .map(|e| String::from_utf8(e.0.clone()).unwrap())
                .collect();
            let below: Vec<String> = state
                .neighbours(&key, false)
                .entries
                .iter()
                .map(|e| String::from_utf8(e.0.clone()).unwrap())
                .collect();
            assert_eq!(above, known.predecessors(id).into_iter().collect::<Vec<String>>());
            assert_eq!(below, known.successors(id).into_iter().collect::<Vec<String>>());
        }
    }
}

#[test]
fn no_transaction_is_shown_twice() {
    let mut dice = Dice(2024);
    for round in 0..1000 {
        let (state, _) = random_case(&mut dice, 2 + round % 7, 1 + round % 12);
        if let Ok(Some(trace)) = state.resolve(&b"<m>".to_vec()) {
            let ids: BTreeSet<Vec<u8>> = trace.steps.iter().map(|s| s.id.clone()).collect();
            assert_eq!(ids.len(), trace.steps.len());
            for step in trace.steps.iter() {
                assert!(state.blocks.contains(&step.id));
            }
        }
    }
}
