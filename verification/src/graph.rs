//! The graph of the transactions and the walk that finds the threads of a
//! message.
//!
//! A hand-off from one transaction to another is known from either side: the
//! first names the second as its next, or the second names the first as its
//! previous. Both count alike. From each transaction that carried the
//! message the walk climbs to the root of its thread and then descends from
//! the root, depth first, through the successors in ascending order.

use crate::line::classify;
use crate::line::Event;
use crate::model::consistent;
use crate::model::line_view;
use crate::model::merge_view;
use crate::order::LineRef;
use crate::model::BlockView;
use crate::model::StateView;
use crate::order::Key;
use crate::table::ascending;
use crate::table::is_least;
use crate::table::least;
use crate::table::lemma_least_exists;
use crate::table::lemma_sorted;
use crate::table::sorted;
use vstd::prelude::*;
use vstd::set_lib::lemma_set_subset_finite;

verus! {

/// The transactions from which `x` was made: those that `x` names as
/// previous, and those that name `x` as next.
pub open spec fn predecessors(blocks: Map<Seq<u8>, BlockView>, x: Seq<u8>) -> Set<Seq<u8>> {
    Set::new(
        |y: Seq<u8>|
            (blocks.contains_key(x) && blocks[x].previous.contains(y)) || (blocks.contains_key(y)
                && blocks[y].next.contains(x)),
    )
}

/// The transactions that were made from `x`: those that `x` names as next,
/// and those that name `x` as previous.
pub open spec fn successors(blocks: Map<Seq<u8>, BlockView>, x: Seq<u8>) -> Set<Seq<u8>> {
    Set::new(
        |y: Seq<u8>|
            (blocks.contains_key(x) && blocks[x].next.contains(y)) || (blocks.contains_key(y)
                && blocks[y].previous.contains(x)),
    )
}

/// `named` is a link of the block of `by`.
pub open spec fn names(blocks: Map<Seq<u8>, BlockView>, by: Seq<u8>, named: Seq<u8>) -> bool {
    blocks.contains_key(by) && (blocks[by].previous.contains(named) || blocks[by].next.contains(
        named,
    ))
}

/// Every identifier that the blocks know: those of the blocks, and those
/// that a block names.
pub open spec fn mentioned(blocks: Map<Seq<u8>, BlockView>) -> Set<Seq<u8>> {
    Set::new(
        |x: Seq<u8>| blocks.contains_key(x) || exists|y: Seq<u8>| #[trigger] names(blocks, y, x),
    )
}

/// The blocks know finitely many identifiers.
pub open spec fn tame(blocks: Map<Seq<u8>, BlockView>) -> bool {
    mentioned(blocks).finite()
}

/// A hand-off is seen alike from both of its ends.
pub proof fn lemma_links_symmetric(blocks: Map<Seq<u8>, BlockView>, a: Seq<u8>, b: Seq<u8>)
    ensures
        successors(blocks, a).contains(b) <==> predecessors(blocks, b).contains(a),
{
}

/// A transaction that names another as its next has it as a successor, and
/// is a predecessor of it, whether or not the other names it in turn.
pub proof fn lemma_next_links(blocks: Map<Seq<u8>, BlockView>, a: Seq<u8>, b: Seq<u8>)
    requires
        blocks.contains_key(a),
        blocks[a].next.contains(b),
    ensures
        successors(blocks, a).contains(b),
        predecessors(blocks, b).contains(a),
{
}

/// A transaction that names another as its previous has it as a
/// predecessor, and is a successor of it.
pub proof fn lemma_previous_links(blocks: Map<Seq<u8>, BlockView>, a: Seq<u8>, b: Seq<u8>)
    requires
        blocks.contains_key(b),
        blocks[b].previous.contains(a),
    ensures
        successors(blocks, a).contains(b),
        predecessors(blocks, b).contains(a),
{
}

/// A line that names the next or the previous transaction makes the link,
/// seen from both of its ends, in every state that has read the line.
pub proof fn lemma_line_links(s: StateView, place: LineRef, line: Seq<u8>)
    ensures
        match classify(line) {
            Event::Transaction { id, links } => {
                let blocks = merge_view(s, line_view(place, line)).blocks;
                &&& links.next_id matches Some(n) ==> successors(blocks, id).contains(n)
                    && predecessors(blocks, n).contains(id)
                &&& links.previous_id matches Some(p) ==> predecessors(blocks, id).contains(p)
                    && successors(blocks, p).contains(id)
            },
            _ => true,
        },
{
    match classify(line) {
        Event::Transaction { id, links } => {
            let blocks = merge_view(s, line_view(place, line)).blocks;
            assert(blocks.contains_key(id));
            assert(line_view(place, line).blocks.contains_key(id));
        },
        _ => {},
    }
}

/// A merge loses no link: what follows or precedes a transaction in one of
/// two states does so in their merge.
pub proof fn lemma_merge_keeps_links(a: StateView, b: StateView, x: Seq<u8>)
    ensures
        successors(a.blocks, x).subset_of(successors(merge_view(a, b).blocks, x)),
        successors(b.blocks, x).subset_of(successors(merge_view(a, b).blocks, x)),
        predecessors(a.blocks, x).subset_of(predecessors(merge_view(a, b).blocks, x)),
        predecessors(b.blocks, x).subset_of(predecessors(merge_view(a, b).blocks, x)),
{
}

/// The links of a transaction lead to known identifiers only.
pub proof fn lemma_links_mentioned(blocks: Map<Seq<u8>, BlockView>, x: Seq<u8>)
    ensures
        predecessors(blocks, x).subset_of(mentioned(blocks)),
        successors(blocks, x).subset_of(mentioned(blocks)),
        tame(blocks) ==> predecessors(blocks, x).finite() && successors(blocks, x).finite(),
{
    assert forall|y: Seq<u8>| predecessors(blocks, x).contains(y) implies mentioned(
        blocks,
    ).contains(y) by {
        if blocks.contains_key(x) && blocks[x].previous.contains(y) {
            assert(names(blocks, x, y));
        }
    }
    assert forall|y: Seq<u8>| successors(blocks, x).contains(y) implies mentioned(
        blocks,
    ).contains(y) by {
        if blocks.contains_key(x) && blocks[x].next.contains(y) {
            assert(names(blocks, x, y));
        }
    }
    if tame(blocks) {
        lemma_set_subset_finite(mentioned(blocks), predecessors(blocks, x));
        lemma_set_subset_finite(mentioned(blocks), successors(blocks, x));
    }
}

/// The identifiers that the blocks of `among` know.
pub open spec fn mentioned_among(blocks: Map<Seq<u8>, BlockView>, among: Set<Seq<u8>>) -> Set<
    Seq<u8>,
> {
    Set::new(
        |x: Seq<u8>|
            among.contains(x) || exists|y: Seq<u8>|
                among.contains(y) && #[trigger] names(blocks, y, x),
    )
}

proof fn lemma_mentioned_among_finite(blocks: Map<Seq<u8>, BlockView>, among: Set<Seq<u8>>)
    requires
        among.finite(),
        among.subset_of(blocks.dom()),
        forall|id: Seq<u8>| #[trigger]
            blocks.contains_key(id) ==> blocks[id].previous.finite() && blocks[id].next.finite(),
    ensures
        mentioned_among(blocks, among).finite(),
    decreases among.len(),
{
    if among.len() == 0 {
        assert(mentioned_among(blocks, among) =~= Set::empty());
    } else {
        let y = among.choose();
        let rest = among.remove(y);
        lemma_mentioned_among_finite(blocks, rest);
        assert(blocks.contains_key(y));
        let grown = mentioned_among(blocks, rest).insert(y).union(blocks[y].previous).union(
            blocks[y].next,
        );
        assert(mentioned_among(blocks, among) =~= grown) by {
            assert forall|x: Seq<u8>| mentioned_among(blocks, among).contains(
                x,
            ) implies grown.contains(x) by {
                if among.contains(x) {
                    if x != y {
                        assert(rest.contains(x));
                    }
                } else {
                    let w = choose|w: Seq<u8>| among.contains(w) && #[trigger] names(blocks, w, x);
                    if w != y {
                        assert(rest.contains(w));
                    }
                }
            }
            assert forall|x: Seq<u8>| grown.contains(x) implies mentioned_among(
                blocks,
                among,
            ).contains(x) by {
                if mentioned_among(blocks, rest).contains(x) {
                    if !rest.contains(x) {
                        let w = choose|w: Seq<u8>|
                            rest.contains(w) && #[trigger] names(blocks, w, x);
                        assert(among.contains(w));
                    }
                } else if x != y {
                    assert(names(blocks, y, x));
                }
            }
        }
    }
}

/// A consistent state knows finitely many identifiers.
pub proof fn lemma_consistent_tame(s: StateView)
    requires
        consistent(s),
    ensures
        tame(s.blocks),
{
    reveal(consistent);
    lemma_mentioned_among_finite(s.blocks, s.blocks.dom());
    assert(mentioned(s.blocks) =~= mentioned_among(s.blocks, s.blocks.dom()));
}

/// Something worth telling the user that does not stop the walk.
pub enum Note {
    /// The transaction has more than one predecessor; the least was taken.
    Ambiguous { id: Seq<u8> },
    /// The identifier is named by a block, but no line of it was read.
    Missing { id: Seq<u8> },
}

/// What stops the walk.
pub enum Trouble {
    /// The way up from the transaction `id` leads back into itself.
    Cycle { id: Seq<u8> },
    /// The way up from `child` reaches `ancestor`, which was shown in an
    /// earlier thread although `child` was not.
    Orphaned { ancestor: Seq<u8>, child: Seq<u8> },
}

/// How the way up ended, and what was noted on it.
pub struct Climb {
    pub end: Result<Seq<u8>, Trouble>,
    pub notes: Seq<Note>,
}

/// The way up from `current` to the root of its thread.
///
/// A transaction without predecessors is the root. Otherwise the way goes on
/// at the least predecessor, unless that one was explored on this way
/// before, or was shown already. `explored` holds the transactions on the
/// way before `current`, `child` is where the way began.
pub open spec fn climb(
    blocks: Map<Seq<u8>, BlockView>,
    shown: Set<Seq<u8>>,
    child: Seq<u8>,
    current: Seq<u8>,
    explored: Set<Seq<u8>>,
) -> Climb
    decreases mentioned(blocks).insert(current).difference(explored).len(),
    when tame(blocks) && !explored.contains(current)
{
    let above = predecessors(blocks, current);
    if above.len() == 0 {
        Climb { end: Ok(current), notes: Seq::empty() }
    } else {
        let parent = least::<Vec<u8>>(above);
        let notes = if above.len() > 1 {
            seq![Note::Ambiguous { id: current }]
        } else {
            Seq::empty()
        };
        if explored.insert(current).contains(parent) {
            Climb { end: Err(Trouble::Cycle { id: current }), notes }
        } else if shown.contains(parent) {
            Climb { end: Err(Trouble::Orphaned { ancestor: parent, child }), notes }
        } else {
            proof {
                lemma_climb_decreases(blocks, current, explored);
            }
            let rest = climb(blocks, shown, child, parent, explored.insert(current));
            Climb { end: rest.end, notes: notes + rest.notes }
        }
    }
}

/// One step up leaves fewer identifiers to explore, and arrives at a
/// predecessor.
pub proof fn lemma_climb_decreases(
    blocks: Map<Seq<u8>, BlockView>,
    current: Seq<u8>,
    explored: Set<Seq<u8>>,
)
    requires
        tame(blocks),
        !explored.contains(current),
        predecessors(blocks, current).len() != 0,
    ensures
        is_least::<Vec<u8>>(
            predecessors(blocks, current),
            least::<Vec<u8>>(predecessors(blocks, current)),
        ),
        mentioned(blocks).contains(least::<Vec<u8>>(predecessors(blocks, current))),
        mentioned(blocks).insert(least::<Vec<u8>>(predecessors(blocks, current))).difference(
            explored.insert(current),
        ).len() < mentioned(blocks).insert(current).difference(explored).len(),
{
    let above = predecessors(blocks, current);
    lemma_links_mentioned(blocks, current);
    lemma_least_exists::<Vec<u8>>(above);
    let parent = least::<Vec<u8>>(above);
    let known = mentioned(blocks);
    assert(known.insert(parent) =~= known);
    let before = known.insert(current).difference(explored);
    let after = known.difference(explored.insert(current));
    assert(after =~= before.remove(current));
    assert(before.contains(current));
}

/// A transaction that is shown, and how deep it stands below the root of
/// its thread.
pub struct Visit {
    pub id: Seq<u8>,
    pub depth: nat,
}

/// What the walk has done so far: the identifiers it has met, the
/// transactions it shows, in order, and what it noted.
pub struct Tour {
    pub shown: Set<Seq<u8>>,
    pub visits: Seq<Visit>,
    pub notes: Seq<Note>,
}

/// The walk before its first step.
pub open spec fn empty_tour() -> Tour {
    Tour { shown: Set::empty(), visits: Seq::empty(), notes: Seq::empty() }
}

/// The successors of a visited transaction, one level deeper, as they are
/// put on the stack: in descending order, so that the least is taken first.
pub open spec fn pending(blocks: Map<Seq<u8>, BlockView>, top: Visit) -> Seq<Visit> {
    let below = sorted::<Vec<u8>>(successors(blocks, top.id));
    Seq::new(
        below.len(),
        |i: int| Visit { id: below[below.len() - 1 - i], depth: top.depth + 1 },
    )
}

/// The descent, depth first. `stack` holds what is still to be visited, the
/// next one last.
///
/// An identifier that was met before is passed over. One without a block is
/// noted as missing. Any other is shown, and its successors are visited
/// next, in ascending order, before what else is on the stack.
pub open spec fn descend(blocks: Map<Seq<u8>, BlockView>, stack: Seq<Visit>, tour: Tour) -> Tour
    decreases mentioned(blocks).difference(tour.shown).len(), stack.len(),
    when tame(blocks)
{
    if stack.len() == 0 {
        tour
    } else {
        let top = stack.last();
        let rest = stack.drop_last();
        if tour.shown.contains(top.id) {
            descend(blocks, rest, tour)
        } else if !blocks.contains_key(top.id) {
            proof {
                lemma_descend_decreases(blocks, top.id, tour.shown);
            }
            descend(
                blocks,
                rest,
                Tour {
                    shown: tour.shown.insert(top.id),
                    visits: tour.visits,
                    notes: tour.notes.push(Note::Missing { id: top.id }),
                },
            )
        } else {
            proof {
                lemma_descend_decreases(blocks, top.id, tour.shown);
            }
            descend(
                blocks,
                rest + pending(blocks, top),
                Tour {
                    shown: tour.shown.insert(top.id),
                    visits: tour.visits.push(top),
                    notes: tour.notes,
                },
            )
        }
    }
}

/// Meeting one more identifier leaves no more identifiers to meet than
/// before, and fewer where it is the identifier of a block.
pub proof fn lemma_descend_decreases(
    blocks: Map<Seq<u8>, BlockView>,
    id: Seq<u8>,
    shown: Set<Seq<u8>>,
)
    requires
        tame(blocks),
        !shown.contains(id),
    ensures
        mentioned(blocks).difference(shown.insert(id)).len() <= mentioned(blocks).difference(
            shown,
        ).len(),
        blocks.contains_key(id) ==> mentioned(blocks).difference(shown.insert(id)).len()
            < mentioned(blocks).difference(shown).len(),
{
    let known = mentioned(blocks);
    let before = known.difference(shown);
    let after = known.difference(shown.insert(id));
    assert(after =~= before.remove(id));
}

/// The root that the way up arrives at has no predecessor.
pub proof fn lemma_root_is_first(
    blocks: Map<Seq<u8>, BlockView>,
    shown: Set<Seq<u8>>,
    child: Seq<u8>,
    current: Seq<u8>,
    explored: Set<Seq<u8>>,
)
    requires
        tame(blocks),
        !explored.contains(current),
    ensures
        climb(blocks, shown, child, current, explored).end matches Ok(root) ==> predecessors(
            blocks,
            root,
        ).len() == 0,
    decreases mentioned(blocks).insert(current).difference(explored).len(),
{
    let above = predecessors(blocks, current);
    if above.len() != 0 {
        let parent = least::<Vec<u8>>(above);
        if !explored.insert(current).contains(parent) && !shown.contains(parent) {
            lemma_climb_decreases(blocks, current, explored);
            lemma_root_is_first(blocks, shown, child, parent, explored.insert(current));
        }
    }
}

/// What holds of a walk at every step: each transaction that it shows has
/// a block and was met, and none is shown twice.
pub open spec fn orderly(blocks: Map<Seq<u8>, BlockView>, tour: Tour) -> bool {
    &&& forall|i: int|
        0 <= i < tour.visits.len() ==> tour.shown.contains((#[trigger] tour.visits[i]).id)
            && blocks.contains_key(tour.visits[i].id)
    &&& forall|i: int, j: int|
        0 <= i < j < tour.visits.len() ==> (#[trigger] tour.visits[i]).id != (
        #[trigger] tour.visits[j]).id
}

/// The descent goes on from where the walk stands: it forgets nothing that
/// was met or shown, and it shows no transaction twice.
pub proof fn lemma_descend_orderly(blocks: Map<Seq<u8>, BlockView>, stack: Seq<Visit>, tour: Tour)
    requires
        tame(blocks),
        orderly(blocks, tour),
    ensures
        orderly(blocks, descend(blocks, stack, tour)),
        tour.shown.subset_of(descend(blocks, stack, tour).shown),
        tour.visits.is_prefix_of(descend(blocks, stack, tour).visits),
        tour.notes.is_prefix_of(descend(blocks, stack, tour).notes),
    decreases mentioned(blocks).difference(tour.shown).len(), stack.len(),
{
    if stack.len() != 0 {
        let top = stack.last();
        let rest = stack.drop_last();
        if tour.shown.contains(top.id) {
            lemma_descend_orderly(blocks, rest, tour);
        } else if !blocks.contains_key(top.id) {
            lemma_descend_decreases(blocks, top.id, tour.shown);
            let next = Tour {
                shown: tour.shown.insert(top.id),
                visits: tour.visits,
                notes: tour.notes.push(Note::Missing { id: top.id }),
            };
            lemma_descend_orderly(blocks, rest, next);
        } else {
            lemma_descend_decreases(blocks, top.id, tour.shown);
            let next = Tour {
                shown: tour.shown.insert(top.id),
                visits: tour.visits.push(top),
                notes: tour.notes,
            };
            assert(orderly(blocks, next)) by {
                assert forall|i: int, j: int| 0 <= i < j < next.visits.len() implies (
                #[trigger] next.visits[i]).id != (#[trigger] next.visits[j]).id by {
                    if j == tour.visits.len() {
                        assert(tour.shown.contains(tour.visits[i].id));
                    }
                }
            }
            lemma_descend_orderly(blocks, rest + pending(blocks, top), next);
        }
    }
}

/// The walk through the threads of the candidates shows no transaction
/// twice, and only transactions that have a block.
pub proof fn lemma_threads_orderly(
    blocks: Map<Seq<u8>, BlockView>,
    candidates: Seq<Seq<u8>>,
    tour: Tour,
)
    requires
        tame(blocks),
        orderly(blocks, tour),
    ensures
        threads(blocks, candidates, tour) matches Ok(end) ==> orderly(blocks, end),
    decreases candidates.len(),
{
    if candidates.len() != 0 {
        let first = candidates[0];
        let rest = candidates.drop_first();
        if tour.shown.contains(first) {
            lemma_threads_orderly(blocks, rest, tour);
        } else {
            let up = climb(blocks, tour.shown, first, first, Set::empty());
            match up.end {
                Ok(root) => {
                    let noted = Tour {
                        shown: tour.shown,
                        visits: tour.visits,
                        notes: tour.notes + up.notes,
                    };
                    let start = seq![Visit { id: root, depth: 0 }];
                    lemma_descend_orderly(blocks, start, noted);
                    lemma_threads_orderly(blocks, rest, descend(blocks, start, noted));
                },
                Err(_) => {},
            }
        }
    }
}

/// The threads of the candidates, one after the other: a candidate that was
/// shown in an earlier thread is passed over; from any other the walk climbs
/// to the root and descends from there. The first trouble ends it all.
pub open spec fn threads(
    blocks: Map<Seq<u8>, BlockView>,
    candidates: Seq<Seq<u8>>,
    tour: Tour,
) -> Result<Tour, Trouble>
    decreases candidates.len(),
{
    if candidates.len() == 0 {
        Ok(tour)
    } else {
        let first = candidates[0];
        let rest = candidates.drop_first();
        if tour.shown.contains(first) {
            threads(blocks, rest, tour)
        } else {
            let up = climb(blocks, tour.shown, first, first, Set::empty());
            match up.end {
                Ok(root) => threads(
                    blocks,
                    rest,
                    descend(
                        blocks,
                        seq![Visit { id: root, depth: 0 }],
                        Tour {
                            shown: tour.shown,
                            visits: tour.visits,
                            notes: tour.notes + up.notes,
                        },
                    ),
                ),
                Err(trouble) => Err(trouble),
            }
        }
    }
}

/// The threads of a message: `None` where no transaction is known to have
/// carried it. The transactions that carried it are taken in ascending
/// order.
pub open spec fn resolve_view(s: StateView, message_id: Seq<u8>) -> Option<Result<Tour, Trouble>> {
    if s.message_ids.contains_key(message_id) {
        Some(threads(s.blocks, sorted::<Vec<u8>>(s.message_ids[message_id]), empty_tour()))
    } else {
        None
    }
}

/// The threads of a message show no transaction twice, and only
/// transactions of which lines were read.
pub proof fn lemma_resolve_orderly(s: StateView, message_id: Seq<u8>)
    requires
        consistent(s),
    ensures
        resolve_view(s, message_id) matches Some(Ok(tour)) ==> orderly(s.blocks, tour),
{
    lemma_consistent_tame(s);
    if s.message_ids.contains_key(message_id) {
        lemma_threads_orderly(
            s.blocks,
            sorted::<Vec<u8>>(s.message_ids[message_id]),
            empty_tour(),
        );
    }
}

/// The message identifier between angle brackets.
pub open spec fn bracketed(message_id: Seq<u8>) -> Seq<u8> {
    seq![0x3cu8] + message_id + seq![0x3eu8]
}

/// The identifier under which the message is looked up: the one given
/// where the state knows it, else the one given between angle brackets.
pub open spec fn known_as(s: StateView, message_id: Seq<u8>) -> Seq<u8> {
    if s.message_ids.contains_key(message_id) {
        message_id
    } else {
        bracketed(message_id)
    }
}

/// The threads of a message that may be known with or without its angle
/// brackets.
pub open spec fn trace_view(s: StateView, message_id: Seq<u8>) -> Option<Result<Tour, Trouble>> {
    resolve_view(s, known_as(s, message_id))
}

/// Where a message is stored between angle brackets only, asking for it
/// without them finds nothing at first, and then what asking for it with
/// them finds.
pub proof fn lemma_bracketed_fallback(s: StateView, message_id: Seq<u8>)
    requires
        !s.message_ids.contains_key(message_id),
        s.message_ids.contains_key(bracketed(message_id)),
    ensures
        resolve_view(s, message_id) is None,
        known_as(s, message_id) == bracketed(message_id),
        trace_view(s, message_id) is Some,
        trace_view(s, message_id) == resolve_view(s, bracketed(message_id)),
        trace_view(s, message_id) == trace_view(s, bracketed(message_id)),
{
}

/// Two transactions of which each is the only predecessor of the other:
/// the way up from either ends in a cycle.
pub proof fn lemma_two_cycle(
    blocks: Map<Seq<u8>, BlockView>,
    shown: Set<Seq<u8>>,
    a: Seq<u8>,
    b: Seq<u8>,
)
    requires
        tame(blocks),
        predecessors(blocks, a) == set![b],
        predecessors(blocks, b) == set![a],
        !shown.contains(a),
        !shown.contains(b),
    ensures
        climb(blocks, shown, a, a, Set::empty()).end == Err::<Seq<u8>, Trouble>(
            Trouble::Cycle { id: b },
        ),
{
    lemma_only(a);
    lemma_only(b);
    if a != b {
        assert(Set::<Seq<u8>>::empty().insert(a).contains(a));
        assert(climb(blocks, shown, a, b, Set::empty().insert(a)).end == Err::<Seq<u8>, Trouble>(
            Trouble::Cycle { id: b },
        ));
    }
}

/// A set of one element has it as its least, and as its whole ascending
/// sequence.
pub proof fn lemma_only(x: Seq<u8>)
    ensures
        set![x].len() == 1,
        least::<Vec<u8>>(set![x]) == x,
        sorted::<Vec<u8>>(set![x]) == seq![x],
{
    let q = seq![x];
    assert(q[0] == x);
    assert(q.contains(x));
    assert(q.to_set() =~= set![x]);
    assert(ascending::<Vec<u8>>(q));
    lemma_sorted::<Vec<u8>>(q);
}

/// A message that only the two transactions of such a cycle carried cannot
/// be resolved: the answer is the cycle.
pub proof fn lemma_cycle_rejected(s: StateView, message_id: Seq<u8>, a: Seq<u8>, b: Seq<u8>)
    requires
        consistent(s),
        predecessors(s.blocks, a) == set![b],
        predecessors(s.blocks, b) == set![a],
        s.message_ids.contains_key(message_id),
        s.message_ids[message_id] == set![a] || s.message_ids[message_id] == set![b]
            || s.message_ids[message_id] == set![a, b],
    ensures
        resolve_view(s, message_id) == Some(
            Err::<Tour, Trouble>(Trouble::Cycle { id: a }),
        ) || resolve_view(s, message_id) == Some(Err::<Tour, Trouble>(Trouble::Cycle { id: b })),
{
    lemma_consistent_tame(s);
    let carried = s.message_ids[message_id];
    let shown = Set::<Seq<u8>>::empty();
    lemma_two_cycle(s.blocks, shown, a, b);
    lemma_two_cycle(s.blocks, shown, b, a);
    lemma_only(a);
    lemma_only(b);
    if carried == set![a] {
    } else if carried == set![b] {
    } else {
        if a == b {
            assert(carried =~= set![a]);
        } else {
            Vec::<u8>::lemma_total(a, b);
            let q = if Vec::<u8>::before(a, b) {
                seq![a, b]
            } else {
                seq![b, a]
            };
            assert(q[0] == a || q[0] == b);
            assert(q[1] == a || q[1] == b);
            assert(q.contains(q[0]) && q.contains(q[1]));
            assert(q.to_set() =~= carried);
            assert(ascending::<Vec<u8>>(q));
            lemma_sorted::<Vec<u8>>(q);
        }
    }
}

} // verus!
