//! Finding the threads of a message in a state.

use crate::graph::climb;
use crate::graph::descend;
use crate::graph::empty_tour;
use crate::graph::lemma_climb_decreases;
use crate::graph::lemma_consistent_tame;
use crate::graph::lemma_descend_decreases;
use crate::graph::mentioned;
use crate::graph::pending;
use crate::graph::predecessors;
use crate::graph::resolve_view;
use crate::graph::successors;
use crate::graph::tame;
use crate::graph::threads;
use crate::graph::Note;
use crate::graph::Tour;
use crate::graph::Trouble;
use crate::graph::Visit;
use crate::model::BlockView;
use crate::order::Key;
use crate::state::Block;
use crate::state::State;
use crate::table::least;
use crate::table::lemma_sorted;
use crate::table::Group;
use crate::table::Table;
use vstd::prelude::*;

verus! {

/// The links of a block in one direction.
pub open spec fn own_links(block: BlockView, up: bool) -> Set<Seq<u8>> {
    if up {
        block.previous
    } else {
        block.next
    }
}

/// The neighbours of `x` in one direction: its predecessors, or its
/// successors.
pub open spec fn neighbours(blocks: Map<Seq<u8>, BlockView>, x: Seq<u8>, up: bool) -> Set<
    Seq<u8>,
> {
    if up {
        predecessors(blocks, x)
    } else {
        successors(blocks, x)
    }
}

impl Block {
    /// The links of the block in one direction.
    pub fn links(&self, up: bool) -> (r: &Group<Vec<u8>>)
        ensures
            r.dom() == own_links(self@, up),
            self.wf() ==> r.wf(),
    {
        if up {
            &self.previous_ids
        } else {
            &self.next_ids
        }
    }
}

impl State {
    /// The neighbours of a transaction in one direction, in ascending
    /// order: what its own block names, and every block that names it from
    /// the other side.
    pub fn neighbours(&self, id: &Vec<u8>, up: bool) -> (r: Group<Vec<u8>>)
        requires
            self.wf(),
        ensures
            r.wf(),
            r.dom() == neighbours(self@.blocks, id@, up),
    {
        let mut r: Group<Vec<u8>> = match self.blocks.find(id) {
            Some(at) => {
                proof {
                    self.blocks.lemma_slot(at as int);
                }
                self.blocks.entries[at].1.links(up).duplicate()
            },
            None => Table::new(),
        };
        let ghost own = r;
        let mut i: usize = 0;
        while i < self.blocks.entries.len()
            invariant
                i <= self.blocks.entries@.len(),
                self.wf(),
                r.wf(),
                forall|y: Seq<u8>|
                    #![trigger r.has(y)]
                    r.has(y) <==> own.has(y) || exists|j: int|
                        0 <= j < i && self.blocks.entries@[j].0@ == y
                            && own_links(self.blocks.entries@[j].1@, !up).contains(id@),
            decreases self.blocks.entries@.len() - i,
        {
            proof {
                self.blocks.lemma_slot(i as int);
            }
            if self.blocks.entries[i].1.links(!up).contains(id) {
                r.add(&self.blocks.entries[i].0);
            }
            i += 1;
        }
        proof {
            let blocks = self@.blocks;
            assert forall|y: Seq<u8>| r.dom().contains(y) <==> neighbours(
                blocks,
                id@,
                up,
            ).contains(y) by {
                if r.has(y) && !own.has(y) {
                    let j = choose|j: int|
                        0 <= j < self.blocks.entries@.len() && self.blocks.entries@[j].0@ == y
                            && own_links(self.blocks.entries@[j].1@, !up).contains(id@);
                    self.blocks.lemma_slot(j);
                }
                if blocks.contains_key(y) && own_links(blocks[y], !up).contains(id@) {
                    let j = self.blocks.slot(y);
                    self.blocks.lemma_slot(j);
                }
            }
            assert(r.dom() =~= neighbours(blocks, id@, up));
        }
        r
    }
}

/// Something worth telling the user that did not stop the walk.
#[derive(Clone, PartialEq, Eq, Debug)]
pub enum Notice {
    /// The transaction has more than one predecessor; the least was taken.
    Ambiguous { id: Vec<u8> },
    /// The identifier is named by a block, but no line of it was read.
    Missing { id: Vec<u8> },
}

impl View for Notice {
    type V = Note;

    open spec fn view(&self) -> Note {
        match *self {
            Notice::Ambiguous { id } => Note::Ambiguous { id: id@ },
            Notice::Missing { id } => Note::Missing { id: id@ },
        }
    }
}

/// What stopped the walk.
#[derive(Clone, PartialEq, Eq, Debug)]
pub enum Failure {
    /// The way up from the transaction `id` leads back into itself.
    Cycle { id: Vec<u8> },
    /// The way up from `child` reaches `ancestor`, which was shown in an
    /// earlier thread although `child` was not.
    Orphaned { ancestor: Vec<u8>, child: Vec<u8> },
}

impl View for Failure {
    type V = Trouble;

    open spec fn view(&self) -> Trouble {
        match *self {
            Failure::Cycle { id } => Trouble::Cycle { id: id@ },
            Failure::Orphaned { ancestor, child } => Trouble::Orphaned {
                ancestor: ancestor@,
                child: child@,
            },
        }
    }
}

/// A transaction to show, and how deep it stands below the root of its
/// thread.
#[derive(Clone, PartialEq, Eq, Debug)]
pub struct Step {
    pub id: Vec<u8>,
    pub depth: usize,
}

impl View for Step {
    type V = Visit;

    open spec fn view(&self) -> Visit {
        Visit { id: self.id@, depth: self.depth as nat }
    }
}

/// The visits of a sequence of steps.
pub open spec fn steps_view(steps: Seq<Step>) -> Seq<Visit> {
    Seq::new(steps.len(), |i: int| steps[i]@)
}

/// The notes of a sequence of notices.
pub open spec fn notes_view(notices: Seq<Notice>) -> Seq<Note> {
    Seq::new(notices.len(), |i: int| notices[i]@)
}

/// The threads of a message: the transactions to show, in order, and what
/// was noted on the way.
#[derive(Clone, PartialEq, Eq, Debug)]
pub struct Trace {
    pub steps: Vec<Step>,
    pub notices: Vec<Notice>,
}

/// The walk as far as it has come.
pub open spec fn tour_of(shown: Group<Vec<u8>>, steps: Seq<Step>, notices: Seq<Notice>) -> Tour {
    Tour { shown: shown.dom(), visits: steps_view(steps), notes: notes_view(notices) }
}

/// The meaning of an answer of [`State::find_root`].
pub open spec fn climbed(end: Result<Vec<u8>, Failure>) -> Result<Seq<u8>, Trouble> {
    match end {
        Ok(root) => Ok(root@),
        Err(failure) => Err(failure@),
    }
}

impl State {
    /// Climbs from `child` to the root of its thread, and adds to `notices`
    /// what is noted on the way.
    pub fn find_root(
        &self,
        shown: &Group<Vec<u8>>,
        child: &Vec<u8>,
        notices: &mut Vec<Notice>,
    ) -> (r: Result<Vec<u8>, Failure>)
        requires
            self.wf(),
            shown.wf(),
        ensures
            climbed(r) == climb(self@.blocks, shown.dom(), child@, child@, Set::empty()).end,
            notes_view(final(notices)@) == notes_view(old(notices)@) + climb(
                self@.blocks,
                shown.dom(),
                child@,
                child@,
                Set::empty(),
            ).notes,
    {
        let ghost blocks = self@.blocks;
        let ghost whole = climb(blocks, shown.dom(), child@, child@, Set::empty());
        let ghost mut noted: Seq<Note> = Seq::empty();
        let mut current = child.duplicate();
        let mut explored: Group<Vec<u8>> = Table::new();
        proof {
            lemma_consistent_tame(self@);
            assert(explored.dom() =~= Set::empty());
            assert(notes_view(notices@) =~= notes_view(old(notices)@) + noted);
            assert(noted + whole.notes =~= whole.notes);
        }
        loop
            invariant
                self.wf(),
                shown.wf(),
                explored.wf(),
                blocks == self@.blocks,
                tame(blocks),
                !explored.has(current@),
                whole == climb(blocks, shown.dom(), child@, child@, Set::empty()),
                whole.end == climb(blocks, shown.dom(), child@, current@, explored.dom()).end,
                whole.notes == noted + climb(
                    blocks,
                    shown.dom(),
                    child@,
                    current@,
                    explored.dom(),
                ).notes,
                notes_view(notices@) == notes_view(old(notices)@) + noted,
            decreases mentioned(blocks).insert(current@).difference(explored.dom()).len(),
        {
            let above = self.neighbours(&current, true);
            proof {
                above.lemma_keys();
            }
            if above.len() == 0 {
                assert(noted + Seq::<Note>::empty() =~= noted);
                return Ok(current);
            }
            let ghost here = climb(blocks, shown.dom(), child@, current@, explored.dom());
            let ghost before = explored.dom();
            proof {
                lemma_sorted::<Vec<u8>>(above.keys());
                lemma_climb_decreases(blocks, current@, explored.dom());
            }
            let ghost mut added: Seq<Note> = Seq::empty();
            if above.len() > 1 {
                let ghost prior = notices@;
                notices.push(Notice::Ambiguous { id: current.duplicate() });
                proof {
                    added = seq![Note::Ambiguous { id: current@ }];
                    assert(notes_view(notices@) =~= notes_view(prior) + added);
                    assert((notes_view(old(notices)@) + noted) + added =~= notes_view(
                        old(notices)@,
                    ) + (noted + added));
                }
            } else {
                assert(noted + added =~= noted);
            }
            explored.add(&current);
            assert(explored.dom() =~= before.insert(current@));
            let parent = above.entries[0].0.duplicate();
            if explored.contains(&parent) {
                proof {
                    assert(noted + added =~= noted + here.notes);
                }
                return Err(Failure::Cycle { id: current });
            }
            if shown.contains(&parent) {
                proof {
                    assert(noted + added =~= noted + here.notes);
                }
                return Err(Failure::Orphaned { ancestor: parent, child: child.duplicate() });
            }
            proof {
                let next = climb(blocks, shown.dom(), child@, parent@, explored.dom());
                assert(here.notes == added + next.notes);
                assert((noted + added) + next.notes =~= noted + (added + next.notes));
                noted = noted + added;
            }
            current = parent;
        }
    }
}

/// Puts the elements of `below` on the stack at the given depth, the least
/// one last.
fn push_pending(stack: &mut Vec<Step>, below: &Group<Vec<u8>>, depth: usize)
    ensures
        steps_view(final(stack)@) == steps_view(old(stack)@) + Seq::new(
            below.entries@.len(),
            |i: int| Visit { id: below.keys()[below.entries@.len() - 1 - i], depth: depth as nat },
        ),
        final(stack)@.len() == old(stack)@.len() + below.entries@.len(),
        forall|i: int| 0 <= i < old(stack)@.len() ==> final(stack)@[i] == old(stack)@[i],
        forall|i: int|
            old(stack)@.len() <= i < final(stack)@.len() ==> (#[trigger] final(stack)@[i]).depth
                == depth,
{
    let n = below.entries.len();
    let mut left: usize = n;
    let ghost all = Seq::new(
        n as nat,
        |i: int| Visit { id: below.keys()[n - 1 - i], depth: depth as nat },
    );
    assert(steps_view(stack@) =~= steps_view(old(stack)@) + all.take(0));
    while left > 0
        invariant
            left <= n,
            n == below.entries@.len(),
            all == Seq::new(
                n as nat,
                |i: int| Visit { id: below.keys()[n - 1 - i], depth: depth as nat },
            ),
            stack@.len() == old(stack)@.len() + (n - left),
            steps_view(stack@) == steps_view(old(stack)@) + all.take(n - left),
            forall|i: int| 0 <= i < old(stack)@.len() ==> stack@[i] == old(stack)@[i],
            forall|i: int|
                old(stack)@.len() <= i < stack@.len() ==> (#[trigger] stack@[i]).depth == depth,
        decreases left,
    {
        let ghost prior = stack@;
        left -= 1;
        stack.push(Step { id: below.entries[left].0.duplicate(), depth });
        proof {
            assert(all.take(n - left) =~= all.take(n - left - 1).push(all[n - left - 1]));
            assert(steps_view(stack@) =~= steps_view(prior).push(all[n - left - 1]));
            assert(steps_view(stack@) =~= steps_view(old(stack)@) + all.take(n - left));
        }
    }
    assert(all.take(n as int) =~= all);
}

impl State {
    /// Descends from `root`, depth first: adds to `steps` the transactions
    /// to show, in order, to `shown` every identifier that is met, and to
    /// `notices` what is noted.
    pub fn descend(
        &self,
        root: Vec<u8>,
        shown: &mut Group<Vec<u8>>,
        steps: &mut Vec<Step>,
        notices: &mut Vec<Notice>,
    )
        requires
            self.wf(),
            old(shown).wf(),
        ensures
            final(shown).wf(),
            tour_of(*final(shown), final(steps)@, final(notices)@) == descend(
                self@.blocks,
                seq![Visit { id: root@, depth: 0 }],
                tour_of(*old(shown), old(steps)@, old(notices)@),
            ),
    {
        let ghost blocks = self@.blocks;
        let ghost goal = descend(
            blocks,
            seq![Visit { id: root@, depth: 0 }],
            tour_of(*shown, steps@, notices@),
        );
        let mut stack: Vec<Step> = Vec::new();
        stack.push(Step { id: root, depth: 0 });
        proof {
            lemma_consistent_tame(self@);
            assert(steps_view(stack@) =~= seq![Visit { id: root@, depth: 0 }]);
        }
        while stack.len() > 0
            invariant
                self.wf(),
                shown.wf(),
                blocks == self@.blocks,
                tame(blocks),
                descend(blocks, steps_view(stack@), tour_of(*shown, steps@, notices@)) == goal,
                forall|i: int| 0 <= i < stack@.len() ==> (#[trigger] stack@[i]).depth <= steps@.len(),
            decreases mentioned(blocks).difference(shown.dom()).len(), stack@.len(),
        {
            let ghost whole = steps_view(stack@);
            let ghost met = shown.dom();
            let top = stack.pop().unwrap();
            proof {
                assert(whole.last() == top@);
                assert(whole.drop_last() =~= steps_view(stack@));
            }
            if !shown.contains(&top.id) {
                proof {
                    lemma_descend_decreases(blocks, top.id@, met);
                }
                shown.add(&top.id);
                assert(shown.dom() =~= met.insert(top.id@));
                match self.blocks.find(&top.id) {
                    None => {
                        let ghost prior = notices@;
                        notices.push(Notice::Missing { id: top.id });
                        proof {
                            assert(notes_view(notices@) =~= notes_view(prior).push(
                                Note::Missing { id: top.id@ },
                            ));
                        }
                    },
                    Some(_) => {
                        let below = self.neighbours(&top.id, false);
                        let depth = top.depth;
                        let ghost prior = steps@;
                        steps.push(top);
                        let count = steps.len();
                        proof {
                            assert(depth < count);
                            assert(steps_view(steps@) =~= steps_view(prior).push(top@));
                            below.lemma_keys();
                            lemma_sorted::<Vec<u8>>(below.keys());
                            assert(pending(blocks, top@) =~= Seq::new(
                                below.entries@.len(),
                                |i: int|
                                    Visit {
                                        id: below.keys()[below.entries@.len() - 1 - i],
                                        depth: (depth + 1) as nat,
                                    },
                            ));
                        }
                        push_pending(&mut stack, &below, depth + 1);
                    },
                }
            }
        }
    }
}

/// What the caller is told of a walk: the transactions to show and the
/// notes, or the trouble.
pub open spec fn told(found: Option<Result<Tour, Trouble>>) -> Option<
    Result<(Seq<Visit>, Seq<Note>), Trouble>,
> {
    match found {
        None => None,
        Some(Err(trouble)) => Some(Err(trouble)),
        Some(Ok(tour)) => Some(Ok((tour.visits, tour.notes))),
    }
}

/// The meaning of an answer of [`State::resolve`].
pub open spec fn answered(r: Result<Option<Trace>, Failure>) -> Option<
    Result<(Seq<Visit>, Seq<Note>), Trouble>,
> {
    match r {
        Ok(None) => None,
        Ok(Some(trace)) => Some(Ok((steps_view(trace.steps@), notes_view(trace.notices@)))),
        Err(failure) => Some(Err(failure@)),
    }
}

impl State {
    /// Finds the threads of the message: the transactions to show, in the
    /// order and at the depth in which they are shown.
    ///
    /// `Ok(None)` says that no transaction is known to have carried the
    /// message. A cycle on the way to a root, or an ancestor that was shown
    /// without its child, ends the walk with `Err`.
    pub fn resolve(&self, message_id: &Vec<u8>) -> (r: Result<Option<Trace>, Failure>)
        requires
            self.wf(),
        ensures
            answered(r) == told(resolve_view(self@, message_id@)),
    {
        let at = match self.message_ids.find(message_id) {
            Some(at) => at,
            None => {
                return Ok(None);
            },
        };
        let ghost blocks = self@.blocks;
        proof {
            self.message_ids.lemma_slot(at as int);
            self.message_ids.entries@[at as int].1.lemma_keys();
            lemma_sorted::<Vec<u8>>(self.message_ids.entries@[at as int].1.keys());
        }
        let ghost candidates = self.message_ids.entries@[at as int].1.keys();
        let ghost goal = threads(blocks, candidates, empty_tour());
        let mut shown: Group<Vec<u8>> = Table::new();
        let mut steps: Vec<Step> = Vec::new();
        let mut notices: Vec<Notice> = Vec::new();
        proof {
            assert(shown.dom() =~= Set::empty());
            assert(steps_view(steps@) =~= Seq::empty());
            assert(notes_view(notices@) =~= Seq::empty());
            assert(candidates.skip(0) =~= candidates);
        }
        let mut i: usize = 0;
        while i < self.message_ids.entries[at].1.entries.len()
            invariant
                self.wf(),
                shown.wf(),
                at < self.message_ids.entries@.len(),
                blocks == self@.blocks,
                candidates == self.message_ids.entries@[at as int].1.keys(),
                i <= candidates.len(),
                threads(blocks, candidates.skip(i as int), tour_of(shown, steps@, notices@))
                    == goal,
                resolve_view(self@, message_id@) == Some(goal),
            decreases candidates.len() - i,
        {
            let ghost tour = tour_of(shown, steps@, notices@);
            proof {
                assert(candidates.skip(i as int)[0] == candidates[i as int]);
                assert(candidates.skip(i as int).drop_first() =~= candidates.skip(i + 1));
            }
            let first = &self.message_ids.entries[at].1.entries[i].0;
            if !shown.contains(first) {
                match self.find_root(&shown, first, &mut notices) {
                    Ok(root) => {
                        self.descend(root, &mut shown, &mut steps, &mut notices);
                    },
                    Err(failure) => {
                        proof {
                            assert(threads(blocks, candidates.skip(i as int), tour) == Err::<
                                Tour,
                                Trouble,
                            >(failure@));
                        }
                        return Err(failure);
                    },
                }
            }
            i += 1;
        }
        Ok(Some(Trace { steps, notices }))
    }
}

} // verus!
