//! The state that is built from log lines: the stored lines, the block of
//! each transaction and the message index.
//!
//! A [`State`] is filled line by line with [`State::eat`], or from a whole
//! shard with [`parse_shard`], and two states become one with [`merge`]. Its
//! view is a [`StateView`]; the contracts say what the view is after each
//! step.

use crate::line::classify;
use crate::line::bytes_view;
use crate::line::ParsedLine;
use crate::line::NEWLINE;
use crate::model::block_of;
use crate::model::carriers;
use crate::model::consistent;
use crate::model::empty_block;
use crate::model::empty_state;
use crate::model::first_unrecognized;
use crate::model::join;
use crate::model::lemma_empty_consistent;
use crate::model::lemma_join_empty;
use crate::model::lemma_line_consistent;
use crate::model::lemma_merge_blocks_step;
use crate::model::lemma_merge_consistent;
use crate::model::lemma_merge_empty;
use crate::model::lemma_merge_index_step;
use crate::model::line_view;
use crate::model::merge_blocks;
use crate::model::merge_index;
use crate::model::merge_view;
use crate::model::optional;
use crate::model::shard_view;
use crate::model::stored_text;
use crate::model::unrecognized_count;
use crate::model::BlockView;
use crate::model::LogLineView;
use crate::model::StateView;
use crate::order::Key;
use crate::order::LineRef;
use crate::table::Group;
use crate::table::Table;
use vstd::prelude::*;
use vstd::slice::slice_subrange;
use vstd::slice::slice_to_vec;

verus! {

/// All the data of one transaction.
#[derive(Clone, PartialEq, Eq, Debug)]
pub struct Block {
    /// The lines in which the transaction appears.
    pub lines: Group<LineRef>,
    /// The transactions that this one continues.
    pub previous_ids: Group<Vec<u8>>,
    /// The transactions that continue this one.
    pub next_ids: Group<Vec<u8>>,
}

impl View for Block {
    type V = BlockView;

    open spec fn view(&self) -> BlockView {
        BlockView {
            lines: self.lines.dom(),
            previous: self.previous_ids.dom(),
            next: self.next_ids.dom(),
        }
    }
}

impl Block {
    /// The three sets of the block are in order.
    pub open spec fn wf(&self) -> bool {
        &&& self.lines.wf()
        &&& self.previous_ids.wf()
        &&& self.next_ids.wf()
    }

    /// The block of a transaction of which nothing is known.
    pub fn new() -> (r: Block)
        ensures
            r.wf(),
            r@ == empty_block(),
    {
        let r = Block { lines: Table::new(), previous_ids: Table::new(), next_ids: Table::new() };
        assert(r@.lines =~= Set::empty());
        assert(r@.previous =~= Set::empty());
        assert(r@.next =~= Set::empty());
        r
    }

    /// The block that one line makes: the line itself, and the links that
    /// it reveals.
    pub fn single(place: LineRef, previous_id: &Option<Vec<u8>>, next_id: &Option<Vec<u8>>) -> (r:
        Block)
        ensures
            r.wf(),
            r@ == (BlockView {
                lines: set![place],
                previous: optional(bytes_view(*previous_id)),
                next: optional(bytes_view(*next_id)),
            }),
    {
        let mut r = Block::new();
        r.lines.add(&place);
        match previous_id {
            Some(p) => {
                r.previous_ids.add(p);
            },
            None => {},
        }
        match next_id {
            Some(n) => {
                r.next_ids.add(n);
            },
            None => {},
        }
        assert(r@.lines =~= set![place]);
        assert(r@.previous =~= optional(bytes_view(*previous_id)));
        assert(r@.next =~= optional(bytes_view(*next_id)));
        r
    }

    /// Whether the three sets of the block are in order.
    pub fn is_well_formed(&self) -> (r: bool)
        ensures
            r == self.wf(),
    {
        self.lines.is_ascending() && self.previous_ids.is_ascending()
            && self.next_ids.is_ascending()
    }

    /// Takes over all that `other` holds.
    pub fn absorb(&mut self, other: &Block)
        requires
            old(self).wf(),
            other.wf(),
        ensures
            final(self).wf(),
            final(self)@ == join(old(self)@, other@),
    {
        self.lines.add_all(&other.lines);
        self.previous_ids.add_all(&other.previous_ids);
        self.next_ids.add_all(&other.next_ids);
        assert(self@.lines =~= old(self)@.lines.union(other@.lines));
        assert(self@.previous =~= old(self)@.previous.union(other@.previous));
        assert(self@.next =~= old(self)@.next.union(other@.next));
    }
}

/// One line of a log, as it is handed to the library.
#[derive(Clone, PartialEq, Eq, Debug)]
pub struct LogLine {
    /// Where the line stands.
    pub place: LineRef,
    /// The bytes of the line, with its newline.
    pub text: Vec<u8>,
}

impl View for LogLine {
    type V = LogLineView;

    open spec fn view(&self) -> LogLineView {
        LogLineView { place: self.place, text: self.text@ }
    }
}

/// The views of the lines of a shard.
pub open spec fn lines_of(lines: Seq<LogLine>) -> Seq<LogLineView> {
    Seq::new(lines.len(), |i: int| lines[i]@)
}

/// What the line store holds.
pub open spec fn store_view(t: Table<LineRef, Vec<u8>>) -> Map<LineRef, Seq<u8>> {
    Map::new(|p: LineRef| t.has(p), |p: LineRef| t.value(p)@)
}

/// What the block table holds.
pub open spec fn blocks_view(t: Table<Vec<u8>, Block>) -> Map<Seq<u8>, BlockView> {
    Map::new(|id: Seq<u8>| t.has(id), |id: Seq<u8>| t.value(id)@)
}

/// What the message index holds.
pub open spec fn index_view(t: Table<Vec<u8>, Group<Vec<u8>>>) -> Map<Seq<u8>, Set<Seq<u8>>> {
    Map::new(|m: Seq<u8>| t.has(m), |m: Seq<u8>| t.value(m).dom())
}

/// The block table and each of its blocks are in order.
pub open spec fn blocks_wf(t: Table<Vec<u8>, Block>) -> bool {
    &&& t.wf()
    &&& forall|id: Seq<u8>| t.has(id) ==> (#[trigger] t.value(id)).wf()
}

/// The message index and each of its entries are in order.
pub open spec fn index_wf(t: Table<Vec<u8>, Group<Vec<u8>>>) -> bool {
    &&& t.wf()
    &&& forall|m: Seq<u8>| t.has(m) ==> (#[trigger] t.value(m)).wf()
}

/// Joins `block` to the block of `id`, which is made where it was not there.
pub fn merge_block(blocks: &mut Table<Vec<u8>, Block>, id: &Vec<u8>, block: &Block)
    requires
        blocks_wf(*old(blocks)),
        block.wf(),
    ensures
        blocks_wf(*final(blocks)),
        blocks_view(*final(blocks)) == blocks_view(*old(blocks)).insert(
            id@,
            join(block_of(blocks_view(*old(blocks)), id@), block@),
        ),
{
    let at = blocks.slot_for(id, Block::new());
    let ghost mid = *blocks;
    proof {
        mid.lemma_slot(at as int);
    }
    blocks.entries[at].1.absorb(block);
    proof {
        Table::lemma_update(mid, *blocks, at as int);
        assert forall|k: Seq<u8>| blocks.has(k) implies (#[trigger] blocks.value(k)).wf() by {
            if k != id@ {
                assert(old(blocks).has(k));
            }
        }
        assert(blocks_view(*blocks) =~= blocks_view(*old(blocks)).insert(
            id@,
            join(block_of(blocks_view(*old(blocks)), id@), block@),
        ));
    }
}

/// Adds `ids` to the carriers of the message, which is entered where it was
/// not there.
pub fn merge_carriers(
    index: &mut Table<Vec<u8>, Group<Vec<u8>>>,
    message_id: &Vec<u8>,
    ids: &Group<Vec<u8>>,
)
    requires
        index_wf(*old(index)),
        ids.wf(),
    ensures
        index_wf(*final(index)),
        index_view(*final(index)) == index_view(*old(index)).insert(
            message_id@,
            carriers(index_view(*old(index)), message_id@).union(ids.dom()),
        ),
{
    let at = index.slot_for(message_id, Table::new());
    let ghost mid = *index;
    proof {
        mid.lemma_slot(at as int);
    }
    index.entries[at].1.add_all(ids);
    proof {
        Table::lemma_update(mid, *index, at as int);
        assert forall|k: Seq<u8>| index.has(k) implies (#[trigger] index.value(k)).wf() by {
            if k != message_id@ {
                assert(old(index).has(k));
            }
        }
        let l = index_view(*index);
        let r = index_view(*old(index)).insert(
            message_id@,
            carriers(index_view(*old(index)), message_id@).union(ids.dom()),
        );
        assert(l.dom() =~= r.dom());
        assert forall|k: Seq<u8>| l.contains_key(k) implies l[k] =~= r[k] by {}
        assert(l =~= r);
    }
}

/// Keeps `text` as the line at `place`.
pub fn store_line(lines: &mut Table<LineRef, Vec<u8>>, place: LineRef, text: Vec<u8>)
    requires
        old(lines).wf(),
    ensures
        final(lines).wf(),
        store_view(*final(lines)) == store_view(*old(lines)).insert(place, text@),
{
    lines.put(place, text);
    assert(store_view(*lines) =~= store_view(*old(lines)).insert(place, text@));
}

/// A copy of the line without its newline.
pub fn stored(line: &[u8]) -> (r: Vec<u8>)
    ensures
        r@ == stored_text(line@),
{
    let n = line.len();
    if n > 0 && line[n - 1] == NEWLINE {
        let r = slice_to_vec(slice_subrange(line, 0, n - 1));
        assert(r@ =~= line@.drop_last());
        r
    } else {
        slice_to_vec(line)
    }
}

/// What was learnt from the lines read so far.
#[derive(Clone, PartialEq, Eq, Debug)]
pub struct State {
    /// The lines of the transactions, by their place.
    pub lines: Table<LineRef, Vec<u8>>,
    /// For each message identifier, the transactions in which it appears.
    pub message_ids: Table<Vec<u8>, Group<Vec<u8>>>,
    /// For each queue identifier, the block of the transaction.
    pub blocks: Table<Vec<u8>, Block>,
}

impl View for State {
    type V = StateView;

    open spec fn view(&self) -> StateView {
        StateView {
            lines: store_view(self.lines),
            blocks: blocks_view(self.blocks),
            message_ids: index_view(self.message_ids),
        }
    }
}

impl State {
    /// The tables are in order.
    pub open spec fn tidy(&self) -> bool {
        &&& self.lines.wf()
        &&& blocks_wf(self.blocks)
        &&& index_wf(self.message_ids)
    }

    /// The tables are in order, and what they hold is consistent.
    pub open spec fn wf(&self) -> bool {
        &&& self.tidy()
        &&& consistent(self@)
    }

    /// The state that holds nothing.
    pub fn new() -> (r: State)
        ensures
            r.wf(),
            r@ == empty_state(),
    {
        let r = State { lines: Table::new(), message_ids: Table::new(), blocks: Table::new() };
        assert(r@.lines =~= Map::empty());
        assert(r@.blocks =~= Map::empty());
        assert(r@.message_ids =~= Map::empty());
        proof {
            lemma_empty_consistent();
        }
        r
    }

    /// Whether every place of `refs` has a stored line.
    fn all_stored(&self, refs: &Group<LineRef>) -> (r: bool)
        requires
            self.lines.wf(),
        ensures
            r == forall|p: LineRef| #[trigger] refs.has(p) ==> self.lines.has(p),
    {
        let mut i: usize = 0;
        while i < refs.entries.len()
            invariant
                i <= refs.entries@.len(),
                self.lines.wf(),
                forall|j: int| 0 <= j < i ==> self.lines.has(#[trigger] refs.entries@[j].0@),
            decreases refs.entries@.len() - i,
        {
            if !self.lines.contains(&refs.entries[i].0) {
                assert(refs.has(refs.entries@[i as int].0@));
                return false;
            }
            i += 1;
        }
        assert forall|p: LineRef| #[trigger] refs.has(p) implies self.lines.has(p) by {
            let j = refs.slot(p);
            assert(self.lines.has(refs.entries@[j].0@));
        }
        true
    }

    /// Whether every identifier of `ids` has a block.
    fn all_known(&self, ids: &Group<Vec<u8>>) -> (r: bool)
        requires
            self.blocks.wf(),
        ensures
            r == forall|id: Seq<u8>| #[trigger] ids.has(id) ==> self.blocks.has(id),
    {
        let mut i: usize = 0;
        while i < ids.entries.len()
            invariant
                i <= ids.entries@.len(),
                self.blocks.wf(),
                forall|j: int| 0 <= j < i ==> self.blocks.has(#[trigger] ids.entries@[j].0@),
            decreases ids.entries@.len() - i,
        {
            if !self.blocks.contains(&ids.entries[i].0) {
                assert(ids.has(ids.entries@[i as int].0@));
                return false;
            }
            i += 1;
        }
        assert forall|id: Seq<u8>| #[trigger] ids.has(id) implies self.blocks.has(id) by {
            let j = ids.slot(id);
            assert(self.blocks.has(ids.entries@[j].0@));
        }
        true
    }

    /// The block is in order, has a line, and has all its lines stored.
    pub open spec fn sound_block(&self, block: Block) -> bool {
        &&& block.wf()
        &&& exists|p: LineRef| #[trigger] block.lines.has(p)
        &&& forall|p: LineRef| #[trigger] block.lines.has(p) ==> self.lines.has(p)
    }

    /// Whether each block is in order, has a line, and has all its lines
    /// stored.
    fn blocks_sound(&self) -> (r: bool)
        requires
            self.lines.wf(),
            self.blocks.wf(),
        ensures
            r == forall|id: Seq<u8>| #[trigger]
                self.blocks.has(id) ==> self.sound_block(self.blocks.value(id)),
    {
        let mut i: usize = 0;
        while i < self.blocks.entries.len()
            invariant
                i <= self.blocks.entries@.len(),
                self.lines.wf(),
                self.blocks.wf(),
                forall|j: int| 0 <= j < i ==> self.sound_block(#[trigger] self.blocks.entries@[j].1),
            decreases self.blocks.entries@.len() - i,
        {
            proof {
                self.blocks.lemma_slot(i as int);
            }
            let block = &self.blocks.entries[i].1;
            if !block.is_well_formed() || block.lines.len() == 0 || !self.all_stored(&block.lines) {
                return false;
            }
            proof {
                let here = self.blocks.entries@[i as int].1;
                assert(here.lines.has(here.lines.entries@[0].0@));
            }
            i += 1;
        }
        assert forall|id: Seq<u8>| #[trigger] self.blocks.has(id) implies self.sound_block(
            self.blocks.value(id),
        ) by {
            let j = self.blocks.slot(id);
            self.blocks.lemma_slot(j);
            assert(self.sound_block(self.blocks.entries@[j].1));
        }
        true
    }

    /// The entry of the message index is in order and names transactions
    /// with a block only.
    pub open spec fn sound_carriers(&self, ids: Group<Vec<u8>>) -> bool {
        &&& ids.wf()
        &&& forall|id: Seq<u8>| #[trigger] ids.has(id) ==> self.blocks.has(id)
    }

    /// Whether each entry of the message index is in order and names
    /// transactions with a block only.
    fn index_sound(&self) -> (r: bool)
        requires
            self.blocks.wf(),
            self.message_ids.wf(),
        ensures
            r == forall|m: Seq<u8>| #[trigger]
                self.message_ids.has(m) ==> self.sound_carriers(self.message_ids.value(m)),
    {
        let mut i: usize = 0;
        while i < self.message_ids.entries.len()
            invariant
                i <= self.message_ids.entries@.len(),
                self.blocks.wf(),
                self.message_ids.wf(),
                forall|j: int|
                    0 <= j < i ==> self.sound_carriers(#[trigger] self.message_ids.entries@[j].1),
            decreases self.message_ids.entries@.len() - i,
        {
            proof {
                self.message_ids.lemma_slot(i as int);
            }
            let ids = &self.message_ids.entries[i].1;
            if !ids.is_ascending() || !self.all_known(ids) {
                return false;
            }
            i += 1;
        }
        assert forall|m: Seq<u8>| #[trigger] self.message_ids.has(m) implies self.sound_carriers(
            self.message_ids.value(m),
        ) by {
            let j = self.message_ids.slot(m);
            self.message_ids.lemma_slot(j);
            assert(self.sound_carriers(self.message_ids.entries@[j].1));
        }
        true
    }

    /// Whether the state is well formed. Every state that this library
    /// hands out is; one that was put together by hand may not be.
    pub fn is_well_formed(&self) -> (r: bool)
        ensures
            r == self.wf(),
    {
        if !self.lines.is_ascending() || !self.blocks.is_ascending()
            || !self.message_ids.is_ascending() {
            return false;
        }
        let blocks = self.blocks_sound();
        let index = self.index_sound();
        proof {
            reveal(consistent);
            self.blocks.lemma_keys();
            assert(self@.blocks.dom() =~= self.blocks.dom());
            if blocks && index {
                assert forall|id: Seq<u8>| #[trigger] self@.blocks.contains_key(id) implies {
                    &&& self@.blocks[id].lines.finite()
                    &&& self@.blocks[id].previous.finite()
                    &&& self@.blocks[id].next.finite()
                    &&& !self@.blocks[id].lines.is_empty()
                } by {
                    let block = self.blocks.value(id);
                    assert(self.blocks.has(id));
                    block.lines.lemma_keys();
                    block.previous_ids.lemma_keys();
                    block.next_ids.lemma_keys();
                    let p = choose|p: LineRef| #[trigger] block.lines.has(p);
                    assert(self@.blocks[id].lines.contains(p));
                }
                assert forall|m: Seq<u8>| #[trigger]
                    self@.message_ids.contains_key(m) implies self@.message_ids[m].finite() by {
                    assert(self.message_ids.has(m));
                    self.message_ids.value(m).lemma_keys();
                }
                assert(consistent(self@));
            } else if !blocks {
                let id = choose|id: Seq<u8>| #[trigger]
                    self.blocks.has(id) && !self.sound_block(self.blocks.value(id));
                let block = self.blocks.value(id);
                if block.wf() && consistent(self@) {
                    assert(self@.blocks.contains_key(id));
                    if exists|p: LineRef| #[trigger] block.lines.has(p) {
                        let p = choose|p: LineRef| #[trigger]
                            block.lines.has(p) && !self.lines.has(p);
                        assert(self@.blocks[id].lines.contains(p));
                        assert(self@.lines.contains_key(p));
                    } else {
                        assert(self@.blocks[id].lines =~= Set::empty());
                    }
                }
            } else {
                let m = choose|m: Seq<u8>| #[trigger]
                    self.message_ids.has(m) && !self.sound_carriers(self.message_ids.value(m));
                let ids = self.message_ids.value(m);
                if ids.wf() && consistent(self@) {
                    assert(self@.message_ids.contains_key(m));
                    let id = choose|id: Seq<u8>| #[trigger] ids.has(id) && !self.blocks.has(id);
                    assert(self@.message_ids[m].contains(id));
                    assert(self@.blocks.contains_key(id));
                }
            }
        }
        blocks && index
    }

    /// Takes in what one line of a transaction tells: its text, the block
    /// that it makes alone, and the message that it names.
    fn note(
        &mut self,
        place: LineRef,
        text: Vec<u8>,
        id: &Vec<u8>,
        block: &Block,
        message_id: &Option<Vec<u8>>,
    )
        requires
            old(self).tidy(),
            block.wf(),
        ensures
            final(self).tidy(),
            final(self)@ == merge_view(
                old(self)@,
                StateView {
                    lines: map![place => text@],
                    blocks: map![id@ => block@],
                    message_ids: match bytes_view(*message_id) {
                        Some(m) => map![m => set![id@]],
                        None => Map::empty(),
                    },
                },
            ),
    {
        let ghost told = StateView {
            lines: map![place => text@],
            blocks: map![id@ => block@],
            message_ids: match bytes_view(*message_id) {
                Some(m) => map![m => set![id@]],
                None => Map::empty(),
            },
        };
        merge_block(&mut self.blocks, id, block);
        assert(self@.blocks =~= merge_blocks(old(self)@.blocks, told.blocks)) by {
            assert forall|k: Seq<u8>| old(self)@.blocks.contains_key(k) implies join(
                #[trigger] old(self)@.blocks[k],
                empty_block(),
            ) == old(self)@.blocks[k] by {
                lemma_join_empty(old(self)@.blocks[k]);
            }
        }
        match message_id {
            Some(m) => {
                let mut carrier: Group<Vec<u8>> = Table::new();
                carrier.add(id);
                assert(carrier.dom() =~= set![id@]);
                merge_carriers(&mut self.message_ids, m, &carrier);
            },
            None => {},
        }
        assert(self@.message_ids =~= merge_index(old(self)@.message_ids, told.message_ids)) by {
            let l = self@.message_ids;
            let r = merge_index(old(self)@.message_ids, told.message_ids);
            assert(l.dom() =~= r.dom());
            assert forall|k: Seq<u8>| l.contains_key(k) implies l[k] =~= r[k] by {}
        }
        store_line(&mut self.lines, place, text);
        assert(self@.lines =~= old(self)@.lines.union_prefer_right(told.lines));
    }

    /// Reads one line, given with its newline and the place where it stands.
    ///
    /// A line of a transaction is stored and joins the block of its
    /// transaction, with the links it reveals. Any other line leaves the
    /// state as it was; one of no known shape is answered with `Err`.
    pub fn eat(&mut self, place: LineRef, line: &[u8]) -> (r: Result<(), ()>)
        requires
            old(self).wf(),
        ensures
            final(self).wf(),
            final(self)@ == merge_view(old(self)@, line_view(place, line@)),
            r is Err <==> classify(line@) is Unrecognized,
    {
        proof {
            lemma_line_consistent(place, line@);
            lemma_merge_consistent(self@, line_view(place, line@));
            lemma_merge_empty(self@);
        }
        match ParsedLine::parse(line) {
            ParsedLine::Postfix { id, message_id, previous_id, next_id } => {
                let block = Block::single(place, &previous_id, &next_id);
                self.note(place, stored(line), &id, &block, &message_id);
                Ok(())
            },
            ParsedLine::Useless => Ok(()),
            ParsedLine::Unknown => Err(()),
        }
    }
}

/// The blocks of the first `n` entries of a block table.
pub open spec fn blocks_upto(t: Table<Vec<u8>, Block>, n: int) -> Map<Seq<u8>, BlockView> {
    Map::new(
        |id: Seq<u8>| exists|j: int| 0 <= j < n && t.entries@[j].0@ == id,
        |id: Seq<u8>| t.value(id)@,
    )
}

/// The first `n` entries of a message index.
pub open spec fn index_upto(t: Table<Vec<u8>, Group<Vec<u8>>>, n: int) -> Map<
    Seq<u8>,
    Set<Seq<u8>>,
> {
    Map::new(
        |m: Seq<u8>| exists|j: int| 0 <= j < n && t.entries@[j].0@ == m,
        |m: Seq<u8>| t.value(m).dom(),
    )
}

/// The first `n` entries of a line store.
pub open spec fn store_upto(t: Table<LineRef, Vec<u8>>, n: int) -> Map<LineRef, Seq<u8>> {
    Map::new(
        |p: LineRef| exists|j: int| 0 <= j < n && t.entries@[j].0@ == p,
        |p: LineRef| t.value(p)@,
    )
}

fn merge_all_blocks(into: &mut Table<Vec<u8>, Block>, from: &Table<Vec<u8>, Block>)
    requires
        blocks_wf(*old(into)),
        blocks_wf(*from),
    ensures
        blocks_wf(*final(into)),
        blocks_view(*final(into)) == merge_blocks(blocks_view(*old(into)), blocks_view(*from)),
{
    let mut i: usize = 0;
    assert(blocks_view(*into) =~= merge_blocks(blocks_view(*old(into)), blocks_upto(*from, 0)))
        by {
        assert forall|id: Seq<u8>| into.has(id) implies blocks_view(*into)[id] == merge_blocks(
            blocks_view(*old(into)),
            blocks_upto(*from, 0),
        )[id] by {
            lemma_join_empty(blocks_view(*into)[id]);
        }
    }
    while i < from.entries.len()
        invariant
            i <= from.entries@.len(),
            blocks_wf(*into),
            blocks_wf(*from),
            blocks_view(*into) == merge_blocks(
                blocks_view(*old(into)),
                blocks_upto(*from, i as int),
            ),
        decreases from.entries@.len() - i,
    {
        proof {
            from.lemma_slot(i as int);
            let id = from.entries@[i as int].0@;
            let done = blocks_upto(*from, i as int);
            assert(!done.contains_key(id)) by {
                if done.contains_key(id) {
                    let j = choose|j: int| 0 <= j < i && from.entries@[j].0@ == id;
                    from.lemma_slot(j);
                }
            }
            lemma_merge_blocks_step(
                blocks_view(*old(into)),
                done,
                id,
                from.entries@[i as int].1@,
            );
            assert(blocks_upto(*from, i + 1) =~= done.insert(id, from.entries@[i as int].1@));
        }
        merge_block(into, &from.entries[i].0, &from.entries[i].1);
        i += 1;
    }
    assert(blocks_upto(*from, from.entries@.len() as int) =~= blocks_view(*from)) by {
        assert forall|id: Seq<u8>| from.has(id) implies blocks_upto(
            *from,
            from.entries@.len() as int,
        ).contains_key(id) by {
            let j = from.slot(id);
            assert(from.entries@[j].0@ == id);
        }
    }
}

fn merge_all_carriers(
    into: &mut Table<Vec<u8>, Group<Vec<u8>>>,
    from: &Table<Vec<u8>, Group<Vec<u8>>>,
)
    requires
        index_wf(*old(into)),
        index_wf(*from),
    ensures
        index_wf(*final(into)),
        index_view(*final(into)) == merge_index(index_view(*old(into)), index_view(*from)),
{
    let mut i: usize = 0;
    assert(index_view(*into) =~= merge_index(index_view(*old(into)), index_upto(*from, 0))) by {
        let l = index_view(*into);
        let r = merge_index(index_view(*old(into)), index_upto(*from, 0));
        assert(l.dom() =~= r.dom());
        assert forall|m: Seq<u8>| l.contains_key(m) implies l[m] =~= r[m] by {}
    }
    while i < from.entries.len()
        invariant
            i <= from.entries@.len(),
            index_wf(*into),
            index_wf(*from),
            index_view(*into) == merge_index(index_view(*old(into)), index_upto(*from, i as int)),
        decreases from.entries@.len() - i,
    {
        proof {
            from.lemma_slot(i as int);
            let m = from.entries@[i as int].0@;
            let done = index_upto(*from, i as int);
            assert(!done.contains_key(m)) by {
                if done.contains_key(m) {
                    let j = choose|j: int| 0 <= j < i && from.entries@[j].0@ == m;
                    from.lemma_slot(j);
                }
            }
            lemma_merge_index_step(
                index_view(*old(into)),
                done,
                m,
                from.entries@[i as int].1.dom(),
            );
            assert(index_upto(*from, i + 1) =~= done.insert(m, from.entries@[i as int].1.dom()));
        }
        merge_carriers(into, &from.entries[i].0, &from.entries[i].1);
        i += 1;
    }
    assert(index_upto(*from, from.entries@.len() as int) =~= index_view(*from)) by {
        assert forall|m: Seq<u8>| from.has(m) implies index_upto(
            *from,
            from.entries@.len() as int,
        ).contains_key(m) by {
            let j = from.slot(m);
            assert(from.entries@[j].0@ == m);
        }
    }
}

fn merge_all_lines(into: &mut Table<LineRef, Vec<u8>>, from: &Table<LineRef, Vec<u8>>)
    requires
        old(into).wf(),
        from.wf(),
    ensures
        final(into).wf(),
        store_view(*final(into)) == store_view(*old(into)).union_prefer_right(store_view(*from)),
{
    let mut i: usize = 0;
    assert(store_view(*into) =~= store_view(*old(into)).union_prefer_right(
        store_upto(*from, 0),
    ));
    while i < from.entries.len()
        invariant
            i <= from.entries@.len(),
            into.wf(),
            from.wf(),
            store_view(*into) == store_view(*old(into)).union_prefer_right(
                store_upto(*from, i as int),
            ),
        decreases from.entries@.len() - i,
    {
        proof {
            from.lemma_slot(i as int);
            let p = from.entries@[i as int].0@;
            let done = store_upto(*from, i as int);
            assert(store_upto(*from, i + 1) =~= done.insert(p, from.entries@[i as int].1@));
            assert(store_view(*old(into)).union_prefer_right(done.insert(p, from.entries@[i as int].1@))
                =~= store_view(*old(into)).union_prefer_right(done).insert(
                p,
                from.entries@[i as int].1@,
            ));
        }
        let text = from.entries[i].1.duplicate();
        store_line(into, from.entries[i].0, text);
        i += 1;
    }
    assert(store_upto(*from, from.entries@.len() as int) =~= store_view(*from)) by {
        assert forall|p: LineRef| from.has(p) implies store_upto(
            *from,
            from.entries@.len() as int,
        ).contains_key(p) by {
            let j = from.slot(p);
            assert(from.entries@[j].0@ == p);
        }
    }
}

/// The merge of two states: the lines, blocks and message index entries of
/// both. What the result holds does not depend on the order of the two, but
/// for a line that both hold with different texts, which has the text of
/// `b`.
pub fn merge(a: State, b: &State) -> (r: State)
    requires
        a.wf(),
        b.wf(),
    ensures
        r.wf(),
        r@ == merge_view(a@, b@),
{
    let mut r = a;
    merge_all_lines(&mut r.lines, &b.lines);
    merge_all_blocks(&mut r.blocks, &b.blocks);
    merge_all_carriers(&mut r.message_ids, &b.message_ids);
    proof {
        lemma_merge_consistent(a@, b@);
    }
    r
}

/// What was read from one shard.
#[derive(Clone, PartialEq, Eq, Debug)]
pub struct Shard {
    /// What the lines of the shard tell.
    pub state: State,
    /// The index, among the lines of the shard, of the first line of no
    /// known shape.
    pub unrecognized: Option<usize>,
    /// The number of lines of no known shape.
    pub dropped: usize,
}

/// Reads the lines of one shard, from first to last. A line of no known
/// shape is left out; such lines are counted, and the first is reported.
pub fn parse_shard(lines: &Vec<LogLine>) -> (r: Shard)
    ensures
        r.state.wf(),
        r.state@ == shard_view(lines_of(lines@)),
        match r.unrecognized {
            Some(i) => first_unrecognized(lines_of(lines@)) == Some(i as int),
            None => first_unrecognized(lines_of(lines@)) is None,
        },
        r.dropped == unrecognized_count(lines_of(lines@)),
{
    let mut state = State::new();
    let mut unrecognized: Option<usize> = None;
    let mut dropped: usize = 0;
    let mut i: usize = 0;
    while i < lines.len()
        invariant
            i <= lines@.len(),
            state.wf(),
            state@ == shard_view(lines_of(lines@).take(i as int)),
            match unrecognized {
                Some(k) => first_unrecognized(lines_of(lines@).take(i as int)) == Some(k as int),
                None => first_unrecognized(lines_of(lines@).take(i as int)) is None,
            },
            dropped <= i,
            dropped == unrecognized_count(lines_of(lines@).take(i as int)),
        decreases lines@.len() - i,
    {
        proof {
            let all = lines_of(lines@);
            assert(all.take(i + 1).drop_last() =~= all.take(i as int));
            assert(all.take(i + 1).last() == lines@[i as int]@);
        }
        let answer = state.eat(lines[i].place, lines[i].text.as_slice());
        if answer.is_err() {
            dropped += 1;
            if unrecognized.is_none() {
                unrecognized = Some(i);
            }
        }
        i += 1;
    }
    proof {
        let all = lines_of(lines@);
        assert(all.take(lines@.len() as int) =~= all);
    }
    Shard { state, unrecognized, dropped }
}

} // verus!
