//! The semantic form of one message, and its conversions to and from tokens.

use crate::resp::bulk::bytes_contents;
use crate::resp::parser::{tokens_view, valid_message, RESPMessage};
use crate::resp::token::{RESPToken, TokenView};
use bytes::Bytes;
use vstd::prelude::*;

verus! {

/// One RESP message as a value: a scalar, or an array of scalars.
#[derive(Debug)]
pub enum RESPFrame {
    Simple(String),
    Error(String),
    Integer(i64),
    Bulk(Bytes),
    Null,
    Array(Vec<RESPFrame>),
}

/// What a frame stands for: text as characters, a bulk payload as bytes.
pub ghost enum FrameView {
    Simple(Seq<char>),
    Error(Seq<char>),
    Integer(i64),
    Bulk(Seq<u8>),
    Null,
    Array(Seq<FrameView>),
}

impl RESPFrame {
    /// What the frame stands for.
    pub open spec fn model(self) -> FrameView
        decreases self,
    {
        match self {
            RESPFrame::Simple(s) => FrameView::Simple(s@),
            RESPFrame::Error(s) => FrameView::Error(s@),
            RESPFrame::Integer(n) => FrameView::Integer(n),
            RESPFrame::Bulk(b) => FrameView::Bulk(bytes_contents(b)),
            RESPFrame::Null => FrameView::Null,
            RESPFrame::Array(items) => FrameView::Array(
                Seq::new(
                    items.len() as nat,
                    |i: int|
                        if 0 <= i < items.len() {
                            items[i].model()
                        } else {
                            FrameView::Null
                        },
                ),
            ),
        }
    }
}

impl View for RESPFrame {
    type V = FrameView;

    open spec fn view(&self) -> FrameView {
        self.model()
    }
}

/// An array frame stands for the array of what its items stand for.
pub proof fn lemma_array_view(items: Vec<RESPFrame>)
    ensures
        RESPFrame::Array(items)@ is Array,
        RESPFrame::Array(items)@->Array_0.len() == items.len(),
        forall|i: int|
            0 <= i < items.len() ==> (#[trigger] RESPFrame::Array(items)@->Array_0[i])
                == items[i]@,
{
}

impl FrameView {
    /// Whether the frame is a scalar whose payload, if it has one, has a
    /// length that a bulk string can declare.
    pub open spec fn valid_scalar(self) -> bool {
        match self {
            FrameView::Array(_) => false,
            FrameView::Bulk(data) => data.len() <= u32::MAX,
            _ => true,
        }
    }

    /// Whether the frame is a scalar, or an array of scalars with a length
    /// that an array header can declare.
    pub open spec fn valid(self) -> bool {
        match self {
            FrameView::Array(items) => {
                &&& items.len() <= u32::MAX
                &&& forall|i: int| 0 <= i < items.len() ==> (#[trigger] items[i]).valid_scalar()
            },
            _ => self.valid_scalar(),
        }
    }
}

/// The token that a scalar frame lowers to. An array has none; for one, this
/// is the header that would open it.
pub open spec fn scalar_token(frame: FrameView) -> TokenView {
    match frame {
        FrameView::Simple(text) => TokenView::SimpleString(text),
        FrameView::Error(text) => TokenView::Error(text),
        FrameView::Integer(n) => TokenView::Integer(n),
        FrameView::Bulk(data) => TokenView::BulkString(data.len() as u32, data),
        FrameView::Null => TokenView::Null,
        FrameView::Array(items) => TokenView::ArraySize(items.len() as u32),
    }
}

/// The frame that a scalar token lifts to. An array header has none; for one,
/// this is the empty array.
pub open spec fn token_frame(token: TokenView) -> FrameView {
    match token {
        TokenView::SimpleString(text) => FrameView::Simple(text),
        TokenView::Error(text) => FrameView::Error(text),
        TokenView::Integer(n) => FrameView::Integer(n),
        TokenView::BulkString(_, data) => FrameView::Bulk(data),
        TokenView::Null => FrameView::Null,
        TokenView::ArraySize(_) => FrameView::Array(Seq::empty()),
    }
}

/// The message that a frame lowers to: for an array its header, then the
/// token of each item; for a scalar its one token.
pub open spec fn frame_message(frame: FrameView) -> Seq<TokenView> {
    match frame {
        FrameView::Array(items) => seq![TokenView::ArraySize(items.len() as u32)]
            + items.map_values(|item: FrameView| scalar_token(item)),
        _ => seq![scalar_token(frame)],
    }
}

/// The frame that a message lifts to: behind an array header the array of
/// the tokens that follow, else the frame of the first token.
pub open spec fn message_frame(message: Seq<TokenView>) -> FrameView {
    if message[0] is ArraySize {
        FrameView::Array(message.drop_first().map_values(|token: TokenView| token_frame(token)))
    } else {
        token_frame(message[0])
    }
}

/// Whether the tokens can be lifted to a frame: there is a first token, and
/// behind an array header there is no second header. Every valid message is
/// of this kind.
pub open spec fn liftable(message: Seq<TokenView>) -> bool {
    &&& message.len() >= 1
    &&& message[0] is ArraySize ==> forall|i: int|
        1 <= i < message.len() ==> !((#[trigger] message[i]) is ArraySize)
}

/// Lifting undoes lowering: the message of a valid frame lifts to that frame.
pub proof fn lemma_frame_round_trip(frame: FrameView)
    requires
        frame.valid(),
    ensures
        valid_message(frame_message(frame)),
        message_frame(frame_message(frame)) == frame,
{
    let message = frame_message(frame);
    match frame {
        FrameView::Array(items) => {
            let tokens = items.map_values(|item: FrameView| scalar_token(item));
            assert(message.drop_first() =~= tokens);
            assert(message.drop_first().map_values(|token: TokenView| token_frame(token))
                =~= items);
            assert forall|i: int| 1 <= i < message.len() implies !((
            #[trigger] message[i]) is ArraySize) && message[i].wf() by {
                assert(message[i] == scalar_token(items[i - 1]));
                assert(items[i - 1].valid_scalar());
            }
        },
        _ => {},
    }
}

/// Lowering undoes lifting: the frame of a valid message lowers to that
/// message, and is itself valid.
pub proof fn lemma_message_round_trip(message: Seq<TokenView>)
    requires
        valid_message(message),
    ensures
        message_frame(message).valid(),
        frame_message(message_frame(message)) == message,
{
    let frame = message_frame(message);
    match message[0] {
        TokenView::ArraySize(n) => {
            let items = message.drop_first().map_values(|token: TokenView| token_frame(token));
            assert forall|i: int| 0 <= i < items.len() implies (#[trigger] items[i]).valid_scalar()
                && scalar_token(items[i]) == message[i + 1] by {
                assert(items[i] == token_frame(message[i + 1]));
                assert(message[i + 1].wf());
                assert(!(message[i + 1] is ArraySize));
            }
            assert(frame_message(frame) =~= message);
        },
        _ => {
            assert(message[0].wf());
            assert(frame_message(frame) =~= message);
        },
    }
}

/// The items of `items` in the opposite order.
fn reversed<T>(items: Vec<T>) -> (result: Vec<T>)
    ensures
        result@.len() == items@.len(),
        forall|i: int| 0 <= i < items@.len() ==> result@[i] == items@[items@.len() - 1 - i],
{
    let mut items = items;
    let ghost given = items@;
    let mut result: Vec<T> = Vec::new();
    while items.len() > 0
        invariant
            items@.len() + result@.len() == given.len(),
            items@ == given.subrange(0, items@.len() as int),
            forall|i: int| 0 <= i < result@.len() ==> result@[i] == given[given.len() - 1 - i],
        decreases items@.len(),
    {
        match items.pop() {
            Some(item) => result.push(item),
            None => {},
        }
    }
    result
}

impl RESPToken {
    /// Lowers a scalar frame to its token.
    pub fn from(frame: RESPFrame) -> (token: RESPToken)
        requires
            frame@.valid_scalar(),
        ensures
            token@ == scalar_token(frame@),
            token@.wf(),
    {
        match frame {
            RESPFrame::Simple(s) => RESPToken::SimpleString(s),
            RESPFrame::Error(s) => RESPToken::Error(s),
            RESPFrame::Integer(n) => RESPToken::Integer(n),
            RESPFrame::Bulk(b) => {
                let len: usize = b.len();
                RESPToken::BulkString(len as u32, b)
            },
            RESPFrame::Null => RESPToken::Null,
            RESPFrame::Array(_) => RESPToken::Null,
        }
    }
}

impl RESPFrame {
    /// Whether the frame is a scalar that a token can hold.
    pub fn is_valid_scalar(&self) -> (valid: bool)
        ensures
            valid == self@.valid_scalar(),
    {
        match self {
            RESPFrame::Array(_) => false,
            RESPFrame::Bulk(data) => data.len() <= 0xffff_ffff,
            _ => true,
        }
    }

    /// Whether the frame can be lowered to a message: a scalar, or an array
    /// of scalars, with lengths that the wire form can declare.
    pub fn is_valid(&self) -> (valid: bool)
        ensures
            valid == self@.valid(),
    {
        match self {
            RESPFrame::Array(items) => {
                proof {
                    lemma_array_view(*items);
                }
                if items.len() > 0xffff_ffff {
                    return false;
                }
                let mut i: usize = 0;
                while i < items.len()
                    invariant
                        0 <= i <= items@.len(),
                        items@.len() <= u32::MAX,
                        self@ is Array,
                        self@->Array_0.len() == items@.len(),
                        forall|j: int|
                            0 <= j < items@.len() ==> (#[trigger] self@->Array_0[j]) == items[j]@,
                        forall|j: int| 0 <= j < i ==> (#[trigger] items[j])@.valid_scalar(),
                    decreases items@.len() - i,
                {
                    if !items[i].is_valid_scalar() {
                        assert(!(self@->Array_0[i as int]).valid_scalar());
                        return false;
                    }
                    i = i + 1;
                }
                true
            },
            scalar => scalar.is_valid_scalar(),
        }
    }

    /// Lifts a scalar token to its frame.
    pub fn from_token(token: RESPToken) -> (frame: RESPFrame)
        requires
            !(token@ is ArraySize),
        ensures
            frame@ == token_frame(token@),
    {
        match token {
            RESPToken::SimpleString(s) => RESPFrame::Simple(s),
            RESPToken::Error(s) => RESPFrame::Error(s),
            RESPToken::Integer(n) => RESPFrame::Integer(n),
            RESPToken::BulkString(_, b) => RESPFrame::Bulk(b),
            RESPToken::Null => RESPFrame::Null,
            RESPToken::ArraySize(_) => RESPFrame::Null,
        }
    }

    /// Lifts a message to its frame. The message has at least one token, and
    /// behind an array header no second one.
    pub fn from(message: RESPMessage) -> (frame: RESPFrame)
        requires
            liftable(tokens_view(message@)),
        ensures
            frame@ == message_frame(tokens_view(message@)),
    {
        let ghost tokens = tokens_view(message@);
        let ghost count = message@.len();
        assert forall|i: int| 0 <= i < count implies tokens[i] == (#[trigger] message@[i])@ by {}
        let mut rest = reversed(message);
        let head = match rest.pop() {
            Some(token) => token,
            None => RESPToken::Null,
        };
        assert(head@ == tokens[0]);
        match head {
            RESPToken::ArraySize(_) => {
                let mut items: Vec<RESPFrame> = Vec::new();
                while rest.len() > 0
                    invariant
                        rest@.len() + items@.len() + 1 == count,
                        count == tokens.len(),
                        forall|i: int|
                            0 <= i < rest@.len() ==> (#[trigger] rest@[i])@ == tokens[count - 1
                                - i],
                        forall|i: int| 1 <= i < count ==> !((#[trigger] tokens[i]) is ArraySize),
                        forall|i: int|
                            0 <= i < items@.len() ==> (#[trigger] items[i])@ == token_frame(
                                tokens[i + 1],
                            ),
                    decreases rest@.len(),
                {
                    match rest.pop() {
                        Some(token) => {
                            let item = RESPFrame::from_token(token);
                            items.push(item);
                        },
                        None => {},
                    }
                }
                proof {
                    lemma_array_view(items);
                }
                let frame = RESPFrame::Array(items);
                assert(frame@->Array_0 =~= message_frame(tokens)->Array_0);
                frame
            },
            scalar => RESPFrame::from_token(scalar),
        }
    }

    /// Lowers a frame to its message: for an array the header and the token
    /// of each item, for a scalar its one token.
    pub fn into_message(self) -> (message: RESPMessage)
        requires
            self@.valid(),
        ensures
            tokens_view(message@) == frame_message(self@),
    {
        match self {
            RESPFrame::Array(items) => {
                proof {
                    lemma_array_view(items);
                }
                let ghost views = self@->Array_0;
                let count: usize = items.len();
                let mut message: RESPMessage = Vec::new();
                message.push(RESPToken::ArraySize(count as u32));
                let mut rest = reversed(items);
                while rest.len() > 0
                    invariant
                        rest@.len() + message@.len() == count + 1,
                        message@.len() >= 1,
                        count == views.len(),
                        message@[0]@ == TokenView::ArraySize(count as u32),
                        forall|i: int| 0 <= i < count ==> (#[trigger] views[i]).valid_scalar(),
                        forall|i: int|
                            0 <= i < rest@.len() ==> (#[trigger] rest@[i])@ == views[count - 1 - i],
                        forall|i: int|
                            1 <= i < message@.len() ==> (#[trigger] message@[i])@ == scalar_token(
                                views[i - 1],
                            ),
                    decreases rest@.len(),
                {
                    match rest.pop() {
                        Some(item) => {
                            let token = RESPToken::from(item);
                            message.push(token);
                        },
                        None => {},
                    }
                }
                assert(tokens_view(message@) =~= frame_message(self@));
                message
            },
            scalar => {
                let mut message: RESPMessage = Vec::new();
                let token = RESPToken::from(scalar);
                message.push(token);
                assert(tokens_view(message@) =~= frame_message(self@));
                message
            },
        }
    }
}

impl Clone for RESPFrame {
    /// A copy that stands for the same frame.
    fn clone(&self) -> (copy: RESPFrame)
        ensures
            copy@ == self@,
        decreases self,
    {
        match self {
            RESPFrame::Simple(s) => RESPFrame::Simple(s.clone()),
            RESPFrame::Error(s) => RESPFrame::Error(s.clone()),
            RESPFrame::Integer(n) => RESPFrame::Integer(*n),
            RESPFrame::Bulk(b) => RESPFrame::Bulk(b.clone()),
            RESPFrame::Null => RESPFrame::Null,
            RESPFrame::Array(items) => {
                let mut copies: Vec<RESPFrame> = Vec::new();
                let mut i: usize = 0;
                while i < items.len()
                    invariant
                        0 <= i <= items@.len(),
                        copies@.len() == i,
                        forall|j: int| 0 <= j < items.len() ==> decreases_to!(self => #[trigger] items[j]),
                        forall|j: int| 0 <= j < i ==> (#[trigger] copies[j])@ == items[j]@,
                    decreases items@.len() - i,
                {
                    assert(decreases_to!(self => items[i as int]));
                    let item = items[i].clone();
                    copies.push(item);
                    i = i + 1;
                }
                proof {
                    lemma_array_view(copies);
                    lemma_array_view(*items);
                }
                let copy = RESPFrame::Array(copies);
                assert(copy@->Array_0 =~= self@->Array_0);
                copy
            },
        }
    }
}

} // verus!
