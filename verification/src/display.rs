//! From a message identifier to the text of its threads.

use crate::graph::bracketed;
use crate::graph::known_as;
use crate::graph::predecessors;
use crate::graph::resolve_view;
use crate::graph::successors;
use crate::graph::Tour;
use crate::graph::Trouble;
use crate::graph::Visit;
use crate::model::block_of;
use crate::model::StateView;
use crate::order::Key;
use crate::order::LineRef;
use crate::render::framed;
use crate::render::put_bytes;
use crate::render::render_frame;
use crate::render::texts_view;
use crate::render::Frame;
use crate::render::FrameView;
use crate::resolve::notes_view;
use crate::resolve::steps_view;
use crate::resolve::Failure;
use crate::resolve::Notice;
use crate::resolve::Step;
use crate::state::State;
use crate::table::lemma_sorted;
use crate::table::sorted;
use crate::table::Group;
use vstd::prelude::*;

verus! {

/// The text stored at a place, empty where nothing is stored there.
pub open spec fn text_at(lines: Map<LineRef, Seq<u8>>, place: LineRef) -> Seq<u8> {
    if lines.contains_key(place) {
        lines[place]
    } else {
        Seq::empty()
    }
}

/// The transaction of a visit as it is shown: its lines in the order of
/// their places, and its predecessors and successors in ascending order.
pub open spec fn frame_view(s: StateView, visit: Visit) -> FrameView {
    let places = sorted::<LineRef>(block_of(s.blocks, visit.id).lines);
    FrameView {
        id: visit.id,
        depth: visit.depth,
        lines: Seq::new(places.len(), |i: int| text_at(s.lines, places[i])),
        predecessors: sorted::<Vec<u8>>(predecessors(s.blocks, visit.id)),
        successors: sorted::<Vec<u8>>(successors(s.blocks, visit.id)),
    }
}

/// The frames of a sequence of visits.
pub open spec fn frames_view(s: StateView, visits: Seq<Visit>) -> Seq<FrameView> {
    Seq::new(visits.len(), |i: int| frame_view(s, visits[i]))
}

/// The views of a sequence of frames.
pub open spec fn views_of(frames: Seq<Frame>) -> Seq<FrameView> {
    Seq::new(frames.len(), |i: int| frames[i]@)
}

/// The start and the end of bold text on a terminal.
pub open spec fn bold_on() -> Seq<u8> {
    seq![0x1bu8, 0x5bu8, 0x31u8, 0x6du8]
}

/// The escape sequence that ends bold text on a terminal.
pub open spec fn bold_off() -> Seq<u8> {
    seq![0x1bu8, 0x5bu8, 0x30u8, 0x6du8]
}

/// `label` is `text`, as it is or set in bold.
pub open spec fn is_emphasis(label: Seq<u8>, text: Seq<u8>) -> bool {
    label == text || label == bold_on() + text + bold_off()
}

/// Every byte of the text is an ASCII character.
pub open spec fn is_ascii_text(text: Seq<u8>) -> bool {
    forall|i: int| 0 <= i < text.len() ==> text[i] < 0x80
}

/// The label of the frame at `i`: the label given for it, or the identifier
/// of the frame where none is given.
pub open spec fn label_at(frames: Seq<FrameView>, labels: Seq<Seq<u8>>, i: int) -> Seq<u8> {
    if i < labels.len() {
        labels[i]
    } else {
        frames[i].id
    }
}

/// The boxes of the first `n` frames, one after the other.
pub open spec fn rendered_upto(frames: Seq<FrameView>, labels: Seq<Seq<u8>>, n: int) -> Seq<u8>
    decreases n,
{
    if n <= 0 {
        Seq::empty()
    } else {
        rendered_upto(frames, labels, n - 1) + framed(
            frames[n - 1],
            label_at(frames, labels, n - 1),
        )
    }
}

/// The boxes of all the frames, one after the other.
pub open spec fn rendered(frames: Seq<FrameView>, labels: Seq<Seq<u8>>) -> Seq<u8> {
    rendered_upto(frames, labels, frames.len() as int)
}

/// There is one label for each frame, and each is the identifier of its
/// frame, as it is or set in bold.
pub open spec fn labels_fit(frames: Seq<FrameView>, labels: Seq<Seq<u8>>) -> bool {
    &&& labels.len() == frames.len()
    &&& forall|i: int| 0 <= i < frames.len() ==> is_emphasis(#[trigger] labels[i], frames[i].id)
}

/// The text sets the identifiers of its frames in bold or leaves them as
/// they are, each for itself.
pub open spec fn is_rendering(text: Seq<u8>, frames: Seq<FrameView>) -> bool {
    exists|labels: Seq<Seq<u8>>| labels_fit(frames, labels) && text == rendered(frames, labels)
}

/// Sets a text in bold by `console::style(..).bold()`. The result is the
/// text itself, or the text between the escape sequences that switch bold
/// on and off; which of the two it is depends on whether the standard
/// output shows colours, which nothing here decides.
#[verifier::external_body]
fn emphasized(text: &[u8]) -> (r: Vec<u8>)
    requires
        is_ascii_text(text@),
    ensures
        is_emphasis(r@, text@),
{
    console::style(String::from_utf8_lossy(text)).bold().to_string().into_bytes()
}

/// Whether every byte of the text is an ASCII character.
pub fn all_ascii(text: &[u8]) -> (r: bool)
    ensures
        r == is_ascii_text(text@),
{
    let mut i: usize = 0;
    while i < text.len()
        invariant
            i <= text@.len(),
            forall|j: int| 0 <= j < i ==> text@[j] < 0x80,
        decreases text@.len() - i,
    {
        if text[i] >= 0x80 {
            return false;
        }
        i += 1;
    }
    true
}

/// The label of a transaction in the rules of its box: its identifier, set
/// in bold where the terminal shows that. An identifier that is not ASCII
/// text stays as it is.
pub fn label_of(id: &[u8]) -> (r: Vec<u8>)
    ensures
        is_emphasis(r@, id@),
{
    if all_ascii(id) {
        emphasized(id)
    } else {
        let mut r: Vec<u8> = Vec::new();
        put_bytes(&mut r, id);
        assert(r@ =~= id@);
        r
    }
}

/// The boxes of the frames, one after the other, each with its label.
pub fn render_with(frames: &Vec<Frame>, labels: &Vec<Vec<u8>>) -> (r: Vec<u8>)
    ensures
        r@ == rendered(views_of(frames@), texts_view(labels@)),
{
    let mut r: Vec<u8> = Vec::new();
    let mut i: usize = 0;
    while i < frames.len()
        invariant
            i <= frames@.len(),
            r@ == rendered_upto(views_of(frames@), texts_view(labels@), i as int),
        decreases frames@.len() - i,
    {
        let text = if i < labels.len() {
            render_frame(&frames[i], labels[i].as_slice())
        } else {
            render_frame(&frames[i], frames[i].id.as_slice())
        };
        put_bytes(&mut r, text.as_slice());
        i += 1;
    }
    r
}

/// The labels of the frames.
pub fn labels_of(frames: &Vec<Frame>) -> (r: Vec<Vec<u8>>)
    ensures
        labels_fit(views_of(frames@), texts_view(r@)),
{
    let mut r: Vec<Vec<u8>> = Vec::new();
    let mut i: usize = 0;
    while i < frames.len()
        invariant
            i <= frames@.len(),
            r@.len() == i,
            forall|j: int| 0 <= j < i ==> is_emphasis(#[trigger] r@[j]@, frames@[j].id@),
        decreases frames@.len() - i,
    {
        r.push(label_of(frames[i].id.as_slice()));
        i += 1;
    }
    assert forall|j: int| 0 <= j < frames@.len() implies is_emphasis(
        #[trigger] texts_view(r@)[j],
        views_of(frames@)[j].id,
    ) by {
        assert(is_emphasis(r@[j]@, frames@[j].id@));
    }
    r
}

/// The boxes of the frames, one after the other, as they are shown on the
/// terminal.
pub fn render(frames: &Vec<Frame>) -> (r: Vec<u8>)
    ensures
        is_rendering(r@, views_of(frames@)),
{
    let labels = labels_of(frames);
    let r = render_with(frames, &labels);
    assert(labels_fit(views_of(frames@), texts_view(labels@)) && r@ == rendered(
        views_of(frames@),
        texts_view(labels@),
    ));
    r
}

/// Copies the keys of a set.
fn keys_of(group: &Group<Vec<u8>>) -> (r: Vec<Vec<u8>>)
    ensures
        texts_view(r@) == group.keys(),
{
    let mut r: Vec<Vec<u8>> = Vec::new();
    let mut i: usize = 0;
    while i < group.entries.len()
        invariant
            i <= group.entries@.len(),
            r@.len() == i,
            forall|j: int| 0 <= j < i ==> r@[j]@ == group.entries@[j].0@,
        decreases group.entries@.len() - i,
    {
        r.push(group.entries[i].0.duplicate());
        i += 1;
    }
    assert(texts_view(r@) =~= group.keys());
    r
}

impl State {
    /// The lines of a transaction, in the order of their places.
    pub fn lines_of(&self, id: &Vec<u8>) -> (r: Vec<Vec<u8>>)
        requires
            self.wf(),
        ensures
            texts_view(r@) == frame_view(self@, Visit { id: id@, depth: 0 }).lines,
    {
        let mut r: Vec<Vec<u8>> = Vec::new();
        let ghost places = sorted::<LineRef>(block_of(self@.blocks, id@).lines);
        match self.blocks.find(id) {
            None => {
                proof {
                    let none = Seq::<LineRef>::empty();
                    assert(none.to_set() =~= Set::empty());
                    lemma_sorted::<LineRef>(none);
                }
                assert(texts_view(r@) =~= Seq::new(
                    places.len(),
                    |i: int| text_at(self@.lines, places[i]),
                ));
            },
            Some(at) => {
                proof {
                    self.blocks.lemma_slot(at as int);
                    self.blocks.entries@[at as int].1.lines.lemma_keys();
                    lemma_sorted::<LineRef>(self.blocks.entries@[at as int].1.lines.keys());
                }
                let refs = &self.blocks.entries[at].1.lines;
                let mut i: usize = 0;
                while i < refs.entries.len()
                    invariant
                        i <= refs.entries@.len(),
                        self.wf(),
                        places == refs.keys(),
                        r@.len() == i,
                        forall|j: int|
                            0 <= j < i ==> (#[trigger] r@[j])@ == text_at(self@.lines, places[j]),
                    decreases refs.entries@.len() - i,
                {
                    let mut text: Vec<u8> = Vec::new();
                    match self.lines.find(&refs.entries[i].0) {
                        Some(k) => {
                            proof {
                                self.lines.lemma_slot(k as int);
                            }
                            put_bytes(&mut text, self.lines.entries[k].1.as_slice());
                            assert(text@ =~= self.lines.entries@[k as int].1@);
                        },
                        None => {},
                    }
                    r.push(text);
                    i += 1;
                }
                assert(texts_view(r@) =~= Seq::new(
                    places.len(),
                    |i: int| text_at(self@.lines, places[i]),
                ));
            },
        }
        r
    }

    /// The transaction of a step as it is shown.
    pub fn frame(&self, step: &Step) -> (r: Frame)
        requires
            self.wf(),
        ensures
            r@ == frame_view(self@, step@),
    {
        let above = self.neighbours(&step.id, true);
        let below = self.neighbours(&step.id, false);
        proof {
            above.lemma_keys();
            below.lemma_keys();
            lemma_sorted::<Vec<u8>>(above.keys());
            lemma_sorted::<Vec<u8>>(below.keys());
        }
        Frame {
            id: step.id.duplicate(),
            depth: step.depth,
            lines: self.lines_of(&step.id),
            predecessors: keys_of(&above),
            successors: keys_of(&below),
        }
    }

    /// The transactions of the steps as they are shown.
    pub fn frames(&self, steps: &Vec<Step>) -> (r: Vec<Frame>)
        requires
            self.wf(),
        ensures
            views_of(r@) == frames_view(self@, steps_view(steps@)),
    {
        let mut r: Vec<Frame> = Vec::new();
        let mut i: usize = 0;
        while i < steps.len()
            invariant
                i <= steps@.len(),
                self.wf(),
                r@.len() == i,
                forall|j: int| 0 <= j < i ==> (#[trigger] r@[j])@ == frame_view(self@, steps@[j]@),
            decreases steps@.len() - i,
        {
            r.push(self.frame(&steps[i]));
            i += 1;
        }
        assert(views_of(r@) =~= frames_view(self@, steps_view(steps@)));
        r
    }
}

/// The threads of a message as text, and what was noted on the way.
#[derive(Clone, PartialEq, Eq, Debug)]
pub struct Report {
    /// The identifier under which the message was found.
    pub message_id: Vec<u8>,
    /// The boxes of the transactions, in the order in which they are shown.
    pub text: Vec<u8>,
    /// What is worth telling the user besides.
    pub notices: Vec<Notice>,
}

/// The answer says what is known of the message under the identifier
/// `known_as`: nothing, the trouble that the walk met, or the text of what
/// the walk found and its notes.
pub open spec fn displays(
    r: Result<Option<Report>, Failure>,
    s: StateView,
    known_as: Seq<u8>,
) -> bool {
    match r {
        Ok(None) => resolve_view(s, known_as) is None,
        Ok(Some(report)) => {
            &&& resolve_view(s, known_as) matches Some(Ok(tour))
            &&& report.message_id@ == known_as
            &&& is_rendering(report.text@, frames_view(s, tour.visits))
            &&& notes_view(report.notices@) == tour.notes
        },
        Err(failure) => resolve_view(s, known_as) == Some(Err::<Tour, Trouble>(failure@)),
    }
}

/// The threads of the message as text: one box for each transaction that
/// belongs to a thread of it, the root of each thread first.
///
/// `Ok(None)` says that no transaction is known to have carried the message,
/// `Err` that the walk met a cycle or an ancestor shown without its child.
pub fn display(message_id: &Vec<u8>, state: &State) -> (r: Result<Option<Report>, Failure>)
    requires
        state.wf(),
    ensures
        displays(r, state@, message_id@),
{
    match state.resolve(message_id) {
        Ok(None) => Ok(None),
        Ok(Some(trace)) => {
            let frames = state.frames(&trace.steps);
            let text = render(&frames);
            Ok(Some(Report { message_id: message_id.duplicate(), text, notices: trace.notices }))
        },
        Err(failure) => Err(failure),
    }
}

/// The message identifier between angle brackets.
pub fn in_brackets(message_id: &Vec<u8>) -> (r: Vec<u8>)
    ensures
        r@ == bracketed(message_id@),
{
    let mut r: Vec<u8> = Vec::new();
    r.push(0x3c);
    put_bytes(&mut r, message_id.as_slice());
    r.push(0x3e);
    assert(r@ =~= bracketed(message_id@));
    r
}

/// Shows the message as [`display`] does, and where it is not known under
/// the identifier as it is given, under the identifier between angle
/// brackets. The answer is `Ok(None)` where it is known under neither.
pub fn run(message_id: &Vec<u8>, state: &State) -> (r: Result<Option<Report>, Failure>)
    requires
        state.wf(),
    ensures
        displays(r, state@, known_as(state@, message_id@)),
{
    match display(message_id, state) {
        Ok(None) => display(&in_brackets(message_id), state),
        shown => shown,
    }
}

} // verus!
