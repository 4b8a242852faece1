//! The wire value model: one `Frame` per protocol message.

use vstd::prelude::*;
use vstd::slice::slice_to_vec;

verus! {

/// The mathematical model of a [`Frame`]: text as a sequence of characters,
/// a payload as a sequence of bytes, an array as a sequence of models.
pub enum FrameView {
    Simple(Seq<char>),
    Error(Seq<char>),
    Integer(u64),
    Bulk(Seq<u8>),
    Null,
    Array(Seq<FrameView>),
}

/// One self-delimiting unit of the wire protocol.
#[derive(Debug, PartialEq, Eq)]
pub enum Frame {
    /// A short status line.
    Simple(String),
    /// An error message line.
    Error(String),
    /// A numeric reply.
    Integer(u64),
    /// A length-prefixed binary payload.
    Bulk(Vec<u8>),
    /// The absence of a value.
    Null,
    /// A sequence of frames; commands arrive in this shape.
    Array(Vec<Frame>),
}

impl View for Frame {
    type V = FrameView;

    open spec fn view(&self) -> FrameView
        decreases self,
    {
        match self {
            Frame::Simple(s) => FrameView::Simple(s@),
            Frame::Error(s) => FrameView::Error(s@),
            Frame::Integer(n) => FrameView::Integer(*n),
            Frame::Bulk(b) => FrameView::Bulk(b@),
            Frame::Null => FrameView::Null,
            Frame::Array(items) => FrameView::Array(
                Seq::new(
                    items@.len(),
                    |i: int|
                        if 0 <= i < items@.len() {
                            items@[i].view()
                        } else {
                            FrameView::Null
                        },
                ),
            ),
        }
    }
}

impl Clone for Frame {
    /// A frame with the same view.
    fn clone(&self) -> (copy: Frame)
        ensures
            copy@ == self@,
        decreases self,
    {
        match self {
            Frame::Simple(text) => Frame::Simple(text.clone()),
            Frame::Error(text) => Frame::Error(text.clone()),
            Frame::Integer(n) => Frame::Integer(*n),
            Frame::Bulk(data) => Frame::Bulk(slice_to_vec(data.as_slice())),
            Frame::Null => Frame::Null,
            Frame::Array(items) => {
                let mut copies: Vec<Frame> = Vec::new();
                let mut i: usize = 0;
                while i < items.len()
                    invariant
                        i <= items@.len(),
                        copies@.len() == i,
                        *self == Frame::Array(*items),
                        forall|j: int| 0 <= j < i ==> (#[trigger] copies@[j])@ == items@[j]@,
                    decreases items@.len() - i,
                {
                    proof {
                        assert(self->Array_0 == *items);
                        assert(decreases_to!(*self => self->Array_0));
                        vstd::std_specs::vec::axiom_vec_index_decreases(*items, i as int);
                        assert(decreases_to!(*items => items[i as int]));
                    }
                    let copy = items[i].clone();
                    copies.push(copy);
                    i = i + 1;
                }
                proof {
                    lemma_array_items(*items);
                    lemma_array_view(copies, Frame::Array(*items)@->Array_0);
                }
                Frame::Array(copies)
            },
        }
    }
}

/// An array frame whose items have the views `frames` has the view
/// `Array(frames)`.
pub proof fn lemma_array_view(items: Vec<Frame>, frames: Seq<FrameView>)
    requires
        items@.len() == frames.len(),
        forall|j: int| 0 <= j < frames.len() ==> (#[trigger] items@[j])@ == frames[j],
    ensures
        Frame::Array(items)@ == FrameView::Array(frames),
{
    assert(Frame::Array(items)@->Array_0 =~= frames);
}

/// The view of an array frame holds the views of its items, in their order.
pub proof fn lemma_array_items(items: Vec<Frame>)
    ensures
        Frame::Array(items)@ is Array,
        Frame::Array(items)@->Array_0.len() == items@.len(),
        forall|j: int|
            0 <= j < items@.len() ==> (#[trigger] Frame::Array(items)@->Array_0[j])
                == items@[j]@,
{
    let frames = Seq::new(items@.len(), |i: int| items@[i]@);
    lemma_array_view(items, frames);
}

} // verus!
