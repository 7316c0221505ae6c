//! The mathematical model of what the log lines tell.
//!
//! Blocks, the line store and the message index are sets and maps, so that
//! what a state holds does not depend on the order in which lines were read
//! or partial states were merged.

use crate::line::classify;
use crate::line::Event;
use crate::line::NEWLINE;
use crate::order::LineRef;
use vstd::prelude::*;

verus! {

/// All that is known of one transaction.
pub struct BlockView {
    /// Where the lines of the transaction stand.
    pub lines: Set<LineRef>,
    /// The transactions that this one continues.
    pub previous: Set<Seq<u8>>,
    /// The transactions that continue this one.
    pub next: Set<Seq<u8>>,
}

/// All that is known after reading some lines.
pub struct StateView {
    /// The text of each stored line, without its newline.
    pub lines: Map<LineRef, Seq<u8>>,
    /// The block of each transaction, by its queue identifier.
    pub blocks: Map<Seq<u8>, BlockView>,
    /// For each message identifier, the transactions that carried the
    /// message.
    pub message_ids: Map<Seq<u8>, Set<Seq<u8>>>,
}

/// One line of a log: where it stands, and its bytes with the newline.
pub struct LogLineView {
    pub place: LineRef,
    pub text: Seq<u8>,
}

/// The block of a transaction of which nothing is known.
pub open spec fn empty_block() -> BlockView {
    BlockView { lines: Set::empty(), previous: Set::empty(), next: Set::empty() }
}

/// The state before any line was read.
pub open spec fn empty_state() -> StateView {
    StateView { lines: Map::empty(), blocks: Map::empty(), message_ids: Map::empty() }
}

/// The block of `id`, empty where there is none.
pub open spec fn block_of(blocks: Map<Seq<u8>, BlockView>, id: Seq<u8>) -> BlockView {
    if blocks.contains_key(id) {
        blocks[id]
    } else {
        empty_block()
    }
}

/// The transactions that carried the message, none where it is unknown.
pub open spec fn carriers(index: Map<Seq<u8>, Set<Seq<u8>>>, message_id: Seq<u8>) -> Set<
    Seq<u8>,
> {
    if index.contains_key(message_id) {
        index[message_id]
    } else {
        Set::empty()
    }
}

/// Two blocks of one transaction become one: each of the three sets is the
/// union of the two.
pub open spec fn join(a: BlockView, b: BlockView) -> BlockView {
    BlockView {
        lines: a.lines.union(b.lines),
        previous: a.previous.union(b.previous),
        next: a.next.union(b.next),
    }
}

/// The blocks of two states together: a transaction that both know has the
/// join of its two blocks.
pub open spec fn merge_blocks(
    a: Map<Seq<u8>, BlockView>,
    b: Map<Seq<u8>, BlockView>,
) -> Map<Seq<u8>, BlockView> {
    Map::new(
        |id: Seq<u8>| a.contains_key(id) || b.contains_key(id),
        |id: Seq<u8>| join(block_of(a, id), block_of(b, id)),
    )
}

/// The message indexes of two states together: a message that both know has
/// the carriers of both.
pub open spec fn merge_index(
    a: Map<Seq<u8>, Set<Seq<u8>>>,
    b: Map<Seq<u8>, Set<Seq<u8>>>,
) -> Map<Seq<u8>, Set<Seq<u8>>> {
    Map::new(
        |m: Seq<u8>| a.contains_key(m) || b.contains_key(m),
        |m: Seq<u8>| carriers(a, m).union(carriers(b, m)),
    )
}

/// The merge of two states. A line that both hold has the text of `b`.
pub open spec fn merge_view(a: StateView, b: StateView) -> StateView {
    StateView {
        lines: a.lines.union_prefer_right(b.lines),
        blocks: merge_blocks(a.blocks, b.blocks),
        message_ids: merge_index(a.message_ids, b.message_ids),
    }
}

/// Merging one more block into the second of two block maps is joining it
/// to the merge of the two.
pub proof fn lemma_merge_blocks_step(
    a: Map<Seq<u8>, BlockView>,
    b: Map<Seq<u8>, BlockView>,
    id: Seq<u8>,
    block: BlockView,
)
    requires
        !b.contains_key(id),
    ensures
        merge_blocks(a, b.insert(id, block)) == merge_blocks(a, b).insert(
            id,
            join(block_of(merge_blocks(a, b), id), block),
        ),
{
    lemma_join_empty(block_of(a, id));
    lemma_join_empty(block);
    assert(merge_blocks(a, b.insert(id, block)) =~= merge_blocks(a, b).insert(
        id,
        join(block_of(merge_blocks(a, b), id), block),
    ));
}

/// Merging one more message into the second of two indexes is adding its
/// carriers to the merge of the two.
pub proof fn lemma_merge_index_step(
    a: Map<Seq<u8>, Set<Seq<u8>>>,
    b: Map<Seq<u8>, Set<Seq<u8>>>,
    m: Seq<u8>,
    ids: Set<Seq<u8>>,
)
    requires
        !b.contains_key(m),
    ensures
        merge_index(a, b.insert(m, ids)) == merge_index(a, b).insert(
            m,
            carriers(merge_index(a, b), m).union(ids),
        ),
{
    let l = merge_index(a, b.insert(m, ids));
    let r = merge_index(a, b).insert(m, carriers(merge_index(a, b), m).union(ids));
    assert(l.dom() =~= r.dom());
    assert forall|k: Seq<u8>| l.contains_key(k) implies l[k] =~= r[k] by {}
    assert(l =~= r);
}

/// The set of an optional identifier.
pub open spec fn optional(id: Option<Seq<u8>>) -> Set<Seq<u8>> {
    match id {
        Some(x) => set![x],
        None => Set::empty(),
    }
}

/// The text that is stored for a line: the line without its newline.
pub open spec fn stored_text(line: Seq<u8>) -> Seq<u8> {
    if line.len() > 0 && line.last() == NEWLINE {
        line.drop_last()
    } else {
        line
    }
}

/// What one line tells, as a state of its own. A line of a transaction gives
/// a block with that line and its links, the stored line, and the message
/// index entry where the line names a message. Any other line gives nothing.
pub open spec fn line_view(place: LineRef, line: Seq<u8>) -> StateView {
    match classify(line) {
        Event::Transaction { id, links } => StateView {
            lines: map![place => stored_text(line)],
            blocks: map![id => BlockView {
                lines: set![place],
                previous: optional(links.previous_id),
                next: optional(links.next_id),
            }],
            message_ids: match links.message_id {
                Some(m) => map![m => set![id]],
                None => Map::empty(),
            },
        },
        _ => empty_state(),
    }
}

/// What a sequence of lines tells, read from first to last.
pub open spec fn shard_view(lines: Seq<LogLineView>) -> StateView
    decreases lines.len(),
{
    if lines.len() == 0 {
        empty_state()
    } else {
        merge_view(shard_view(lines.drop_last()), line_view(lines.last().place, lines.last().text))
    }
}

/// The first line of no known shape, if there is one.
pub open spec fn first_unrecognized(lines: Seq<LogLineView>) -> Option<int>
    decreases lines.len(),
{
    if lines.len() == 0 {
        None
    } else if first_unrecognized(lines.drop_last()) is Some {
        first_unrecognized(lines.drop_last())
    } else if classify(lines.last().text) is Unrecognized {
        Some(lines.len() - 1)
    } else {
        None
    }
}

/// The number of lines of no known shape.
pub open spec fn unrecognized_count(lines: Seq<LogLineView>) -> nat
    decreases lines.len(),
{
    if lines.len() == 0 {
        0
    } else if classify(lines.last().text) is Unrecognized {
        unrecognized_count(lines.drop_last()) + 1
    } else {
        unrecognized_count(lines.drop_last())
    }
}

/// What holds of every state that was read from lines: a block has at least
/// one line, each line of a block is in the line store, each transaction in
/// the message index has a block, and all the sets are finite.
#[verifier::opaque]
pub open spec fn consistent(s: StateView) -> bool {
    &&& s.blocks.dom().finite()
    &&& forall|id: Seq<u8>| #[trigger]
        s.blocks.contains_key(id) ==> {
            &&& s.blocks[id].lines.finite()
            &&& s.blocks[id].previous.finite()
            &&& s.blocks[id].next.finite()
            &&& !s.blocks[id].lines.is_empty()
        }
    &&& forall|id: Seq<u8>, place: LineRef|
        s.blocks.contains_key(id) && #[trigger] s.blocks[id].lines.contains(place)
            ==> s.lines.contains_key(place)
    &&& forall|m: Seq<u8>| #[trigger] s.message_ids.contains_key(m) ==> s.message_ids[m].finite()
    &&& forall|m: Seq<u8>, id: Seq<u8>|
        s.message_ids.contains_key(m) && #[trigger] s.message_ids[m].contains(id)
            ==> s.blocks.contains_key(id)
}

/// Two states hold the same text for each line that both hold.
pub open spec fn same_texts(a: StateView, b: StateView) -> bool {
    forall|place: LineRef|
        a.lines.contains_key(place) && b.lines.contains_key(place) ==> a.lines[place]
            == b.lines[place]
}

/// Merging with the empty state changes nothing.
pub proof fn lemma_merge_empty(a: StateView)
    ensures
        merge_view(a, empty_state()) == a,
        merge_view(empty_state(), a) == a,
{
    let r = merge_view(a, empty_state());
    assert(r.lines =~= a.lines);
    assert(r.blocks =~= a.blocks) by {
        assert forall|id: Seq<u8>| a.blocks.contains_key(id) implies r.blocks[id]
            == a.blocks[id] by {
            lemma_join_empty(a.blocks[id]);
        }
    }
    assert(r.message_ids =~= a.message_ids) by {
        assert forall|m: Seq<u8>| a.message_ids.contains_key(m) implies r.message_ids[m]
            =~= a.message_ids[m] by {}
    }
    let l = merge_view(empty_state(), a);
    assert(l.lines =~= a.lines);
    assert(l.blocks =~= a.blocks) by {
        assert forall|id: Seq<u8>| a.blocks.contains_key(id) implies l.blocks[id]
            == a.blocks[id] by {
            lemma_join_empty(a.blocks[id]);
        }
    }
    assert(l.message_ids =~= a.message_ids) by {
        assert forall|m: Seq<u8>| a.message_ids.contains_key(m) implies l.message_ids[m]
            =~= a.message_ids[m] by {}
    }
}

/// Joining the empty block changes nothing.
pub proof fn lemma_join_empty(a: BlockView)
    ensures
        join(a, empty_block()) == a,
        join(empty_block(), a) == a,
{
    let r = join(a, empty_block());
    assert(r.lines =~= a.lines);
    assert(r.previous =~= a.previous);
    assert(r.next =~= a.next);
    let l = join(empty_block(), a);
    assert(l.lines =~= a.lines);
    assert(l.previous =~= a.previous);
    assert(l.next =~= a.next);
}

/// Joining blocks does not depend on their order nor on their pairing.
pub proof fn lemma_join_laws(a: BlockView, b: BlockView, c: BlockView)
    ensures
        join(a, b) == join(b, a),
        join(join(a, b), c) == join(a, join(b, c)),
{
    let l = join(a, b);
    let r = join(b, a);
    assert(l.lines =~= r.lines);
    assert(l.previous =~= r.previous);
    assert(l.next =~= r.next);
    let l = join(join(a, b), c);
    let r = join(a, join(b, c));
    assert(l.lines =~= r.lines);
    assert(l.previous =~= r.previous);
    assert(l.next =~= r.next);
}

/// The order of the two states does not matter to the blocks nor to the
/// message index of their merge; it does not matter to the line store either
/// where no line has two texts.
pub proof fn lemma_merge_commutative(a: StateView, b: StateView)
    ensures
        merge_view(a, b).blocks == merge_view(b, a).blocks,
        merge_view(a, b).message_ids == merge_view(b, a).message_ids,
        same_texts(a, b) ==> merge_view(a, b) == merge_view(b, a),
{
    let l = merge_view(a, b);
    let r = merge_view(b, a);
    assert(l.blocks =~= r.blocks) by {
        assert forall|id: Seq<u8>| l.blocks.contains_key(id) implies l.blocks[id]
            == r.blocks[id] by {
            lemma_join_laws(block_of(a.blocks, id), block_of(b.blocks, id), empty_block());
        }
    }
    assert(l.message_ids =~= r.message_ids) by {
        assert forall|m: Seq<u8>| l.message_ids.contains_key(m) implies l.message_ids[m]
            =~= r.message_ids[m] by {}
    }
    if same_texts(a, b) {
        assert(l.lines =~= r.lines);
    }
}

/// A merge loses nothing: each block of either state is in the merge with
/// all its lines and links, each carrier of a message stays one, and each
/// stored line stays stored.
pub proof fn lemma_merge_keeps(a: StateView, b: StateView)
    ensures
        forall|id: Seq<u8>| #[trigger]
            merge_view(a, b).blocks.contains_key(id) <==> a.blocks.contains_key(id)
                || b.blocks.contains_key(id),
        forall|id: Seq<u8>|
            a.blocks.contains_key(id) ==> {
                &&& a.blocks[id].lines.subset_of((#[trigger] merge_view(a, b).blocks[id]).lines)
                &&& a.blocks[id].previous.subset_of(merge_view(a, b).blocks[id].previous)
                &&& a.blocks[id].next.subset_of(merge_view(a, b).blocks[id].next)
            },
        forall|id: Seq<u8>|
            b.blocks.contains_key(id) ==> {
                &&& b.blocks[id].lines.subset_of((#[trigger] merge_view(a, b).blocks[id]).lines)
                &&& b.blocks[id].previous.subset_of(merge_view(a, b).blocks[id].previous)
                &&& b.blocks[id].next.subset_of(merge_view(a, b).blocks[id].next)
            },
        forall|m: Seq<u8>| #[trigger]
            carriers(a.message_ids, m).union(carriers(b.message_ids, m)) == carriers(
                merge_view(a, b).message_ids,
                m,
            ),
        forall|place: LineRef| #[trigger]
            merge_view(a, b).lines.contains_key(place) <==> a.lines.contains_key(place)
                || b.lines.contains_key(place),
{
    assert forall|m: Seq<u8>| #[trigger]
        carriers(a.message_ids, m).union(carriers(b.message_ids, m)) == carriers(
            merge_view(a, b).message_ids,
            m,
        ) by {
        assert(carriers(a.message_ids, m).union(carriers(b.message_ids, m)) =~= carriers(
            merge_view(a, b).message_ids,
            m,
        ));
    }
}

/// Merging three states gives the same state however they are paired.
pub proof fn lemma_merge_associative(a: StateView, b: StateView, c: StateView)
    ensures
        merge_view(merge_view(a, b), c) == merge_view(a, merge_view(b, c)),
{
    let l = merge_view(merge_view(a, b), c);
    let r = merge_view(a, merge_view(b, c));
    assert(l.lines =~= r.lines);
    assert(l.blocks =~= r.blocks) by {
        assert forall|id: Seq<u8>| l.blocks.contains_key(id) implies l.blocks[id]
            == r.blocks[id] by {
            lemma_join_laws(
                block_of(a.blocks, id),
                block_of(b.blocks, id),
                block_of(c.blocks, id),
            );
            lemma_join_empty(block_of(a.blocks, id));
            lemma_join_empty(block_of(b.blocks, id));
            lemma_join_empty(block_of(c.blocks, id));
        }
    }
    assert(l.message_ids =~= r.message_ids) by {
        assert forall|m: Seq<u8>| l.message_ids.contains_key(m) implies l.message_ids[m]
            =~= r.message_ids[m] by {}
    }
}

/// Reading a sequence of lines gives the merge of what its two parts give,
/// wherever it is cut.
pub proof fn lemma_shard_split(first: Seq<LogLineView>, second: Seq<LogLineView>)
    ensures
        shard_view(first + second) == merge_view(shard_view(first), shard_view(second)),
    decreases second.len(),
{
    if second.len() == 0 {
        assert(first + second =~= first);
        lemma_merge_empty(shard_view(first));
    } else {
        let all = first + second;
        assert(all.drop_last() =~= first + second.drop_last());
        assert(all.last() == second.last());
        lemma_shard_split(first, second.drop_last());
        lemma_merge_associative(
            shard_view(first),
            shard_view(second.drop_last()),
            line_view(second.last().place, second.last().text),
        );
    }
}

/// The blocks and the message index that a set of lines gives do not depend
/// on the order in which its two parts are read.
pub proof fn lemma_shard_order(first: Seq<LogLineView>, second: Seq<LogLineView>)
    ensures
        shard_view(first + second).blocks == shard_view(second + first).blocks,
        shard_view(first + second).message_ids == shard_view(second + first).message_ids,
{
    lemma_shard_split(first, second);
    lemma_shard_split(second, first);
    lemma_merge_commutative(shard_view(first), shard_view(second));
}

/// The lines of all the shards, one shard after the other.
pub open spec fn all_lines(shards: Seq<Seq<LogLineView>>) -> Seq<LogLineView>
    decreases shards.len(),
{
    if shards.len() == 0 {
        Seq::empty()
    } else {
        all_lines(shards.drop_last()) + shards.last()
    }
}

/// The merge of what each shard gives, from the first shard to the last.
pub open spec fn merged_shards(shards: Seq<Seq<LogLineView>>) -> StateView
    decreases shards.len(),
{
    if shards.len() == 0 {
        empty_state()
    } else {
        merge_view(merged_shards(shards.drop_last()), shard_view(shards.last()))
    }
}

/// Reading the shards one by one and merging what they give is reading all
/// their lines at once, however the lines are cut into shards.
pub proof fn lemma_shards_merge(shards: Seq<Seq<LogLineView>>)
    ensures
        merged_shards(shards) == shard_view(all_lines(shards)),
    decreases shards.len(),
{
    if shards.len() > 0 {
        lemma_shards_merge(shards.drop_last());
        lemma_shard_split(all_lines(shards.drop_last()), shards.last());
    }
}

/// A line in the middle of a sequence may as well be read last, as far as
/// the blocks and the message index go.
pub proof fn lemma_shard_move_last(
    first: Seq<LogLineView>,
    x: LogLineView,
    second: Seq<LogLineView>,
)
    ensures
        shard_view(first.push(x) + second).blocks == shard_view((first + second).push(x)).blocks,
        shard_view(first.push(x) + second).message_ids == shard_view(
            (first + second).push(x),
        ).message_ids,
{
    let told = line_view(x.place, x.text);
    let s1 = shard_view(first);
    let s2 = shard_view(second);
    assert(first.push(x).drop_last() =~= first);
    assert((first + second).push(x).drop_last() =~= first + second);
    lemma_shard_split(first.push(x), second);
    lemma_shard_split(first, second);
    lemma_merge_associative(s1, told, s2);
    lemma_merge_commutative(told, s2);
    lemma_merge_associative(s1, s2, told);
}

/// Where two sequences hold the same elements, the last of the first is
/// somewhere in the second, and the two hold the same elements without it.
proof fn lemma_take_out(a: Seq<LogLineView>, b: Seq<LogLineView>) -> (k: int)
    requires
        a.len() > 0,
        a.to_multiset() == b.to_multiset(),
    ensures
        0 <= k < b.len(),
        b[k] == a.last(),
        a.drop_last().to_multiset() == (b.take(k) + b.skip(k + 1)).to_multiset(),
{
    a.to_multiset_ensures();
    b.to_multiset_ensures();
    let x = a.last();
    assert(a.contains(x));
    assert(a.to_multiset().count(x) > 0);
    assert(b.to_multiset().count(x) > 0);
    assert(b.contains(x));
    let k = choose|k: int| 0 <= k < b.len() && b[k] == x;
    assert(a.remove(a.len() - 1) =~= a.drop_last());
    assert(b.remove(k) =~= b.take(k) + b.skip(k + 1));
    k
}

/// The blocks and the message index that lines give depend on the lines
/// alone, not on the order in which they are read: any two sequences of the
/// same lines give the same.
pub proof fn lemma_shard_permutation(a: Seq<LogLineView>, b: Seq<LogLineView>)
    requires
        a.to_multiset() == b.to_multiset(),
    ensures
        shard_view(a).blocks == shard_view(b).blocks,
        shard_view(a).message_ids == shard_view(b).message_ids,
    decreases a.len(),
{
    if a.len() == 0 {
        a.to_multiset_ensures();
        b.to_multiset_ensures();
        assert(b.len() == 0);
    } else {
        let x = a.last();
        let k = lemma_take_out(a, b);
        let b1 = b.take(k);
        let b2 = b.skip(k + 1);
        lemma_shard_permutation(a.drop_last(), b1 + b2);
        lemma_shard_move_last(b1, x, b2);
        assert(b =~= b1.push(x) + b2);
        assert((b1 + b2).push(x).drop_last() =~= b1 + b2);
    }
}

/// What one line tells is consistent.
pub proof fn lemma_line_consistent(place: LineRef, line: Seq<u8>)
    ensures
        consistent(line_view(place, line)),
{
    reveal(consistent);
    let s = line_view(place, line);
    match classify(line) {
        Event::Transaction { id, links } => {
            assert(s.blocks.dom() =~= set![id]);
            assert(s.blocks[id].lines.contains(place));
            match links.message_id {
                Some(m) => {
                    assert(s.message_ids.dom() =~= set![m]);
                },
                None => {},
            }
        },
        _ => {},
    }
}

/// The merge of two consistent states is consistent.
pub proof fn lemma_merge_consistent(a: StateView, b: StateView)
    requires
        consistent(a),
        consistent(b),
    ensures
        consistent(merge_view(a, b)),
{
    reveal(consistent);
    let r = merge_view(a, b);
    assert(r.blocks.dom() =~= a.blocks.dom().union(b.blocks.dom()));
    assert forall|id: Seq<u8>| #[trigger] r.blocks.contains_key(id) implies {
        &&& r.blocks[id].lines.finite()
        &&& r.blocks[id].previous.finite()
        &&& r.blocks[id].next.finite()
        &&& !r.blocks[id].lines.is_empty()
    } by {
        let x = block_of(a.blocks, id);
        let y = block_of(b.blocks, id);
        if a.blocks.contains_key(id) {
            let p = choose|p: LineRef| x.lines.contains(p);
            assert(r.blocks[id].lines.contains(p));
        } else {
            let p = choose|p: LineRef| y.lines.contains(p);
            assert(r.blocks[id].lines.contains(p));
        }
    }
    assert forall|id: Seq<u8>, place: LineRef|
        r.blocks.contains_key(id) && #[trigger] r.blocks[id].lines.contains(
            place,
        ) implies r.lines.contains_key(place) by {
        if a.blocks.contains_key(id) && a.blocks[id].lines.contains(place) {
            assert(a.lines.contains_key(place));
        } else {
            assert(b.blocks.contains_key(id) && b.blocks[id].lines.contains(place));
            assert(b.lines.contains_key(place));
        }
    }
    assert forall|m: Seq<u8>, id: Seq<u8>|
        r.message_ids.contains_key(m) && #[trigger] r.message_ids[m].contains(
            id,
        ) implies r.blocks.contains_key(id) by {
        if a.message_ids.contains_key(m) && a.message_ids[m].contains(id) {
            assert(a.blocks.contains_key(id));
        } else {
            assert(b.message_ids.contains_key(m) && b.message_ids[m].contains(id));
            assert(b.blocks.contains_key(id));
        }
    }
}

/// What a sequence of lines tells is consistent.
pub proof fn lemma_shard_consistent(lines: Seq<LogLineView>)
    ensures
        consistent(shard_view(lines)),
    decreases lines.len(),
{
    if lines.len() > 0 {
        lemma_shard_consistent(lines.drop_last());
        lemma_line_consistent(lines.last().place, lines.last().text);
        lemma_merge_consistent(
            shard_view(lines.drop_last()),
            line_view(lines.last().place, lines.last().text),
        );
    } else {
        lemma_empty_consistent();
    }
}

/// The empty state is consistent.
pub proof fn lemma_empty_consistent()
    ensures
        consistent(empty_state()),
{
    reveal(consistent);
    assert(empty_state().blocks.dom() =~= Set::empty());
}

} // verus!
