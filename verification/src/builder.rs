//! What the value is that frames make up: a frame that heads an aggregate is
//! followed by the values that the aggregate is made of.

use crate::decode::{frame_at, lemma_frame_within};
use crate::error::RespError;
use crate::frame::{FrameView, RespFrame};
use crate::primitive::{PrimitiveView, RespPrimitive};
use crate::scan::Parsed;
use crate::value::{RespValue, ValueView};
use vstd::prelude::*;
use vstd::std_specs::convert::TryFromSpecImpl;

verus! {

impl DeepView for RespValue {
    type V = ValueView;

    open spec fn deep_view(&self) -> ValueView {
        self.view()
    }
}

/// The value that a frame without children stands for. Both kinds of error make
/// an error, both kinds of string a string.
pub open spec fn leaf(frame: FrameView) -> ValueView {
    match frame {
        FrameView::Bignum(digits) => ValueView::Bignum(digits),
        FrameView::BlobError(message) => ValueView::Error(message),
        FrameView::BlobString(bytes) => ValueView::String(bytes),
        FrameView::Boolean(value) => ValueView::Boolean(value),
        FrameView::Double(text) => ValueView::Double(text),
        FrameView::Integer(value) => ValueView::Integer(value),
        FrameView::SimpleError(message) => ValueView::Error(message),
        FrameView::SimpleString(text) => ValueView::String(text),
        FrameView::Verbatim(format, text) => ValueView::Verbatim(format, text),
        _ => ValueView::Nil,
    }
}

/// The primitive that a value is, if it is one.
pub open spec fn primitive_of(value: ValueView) -> Option<PrimitiveView> {
    match value {
        ValueView::Integer(number) => Some(PrimitiveView::Integer(number)),
        ValueView::Nil => Some(PrimitiveView::Nil),
        ValueView::String(bytes) => Some(PrimitiveView::String(bytes)),
        _ => None,
    }
}

/// The value at `pos`: `None` where the source has ended there, else what the
/// frame at `pos` stands for, together with the values behind it where it heads
/// an aggregate.
pub open spec fn value_at(
    buf: Seq<u8>,
    pos: nat,
    blob_limit: usize,
    inline_limit: usize,
    eof: bool,
) -> Parsed<Option<ValueView>>
    decreases buf.len() - pos, 0nat,
{
    match frame_at(buf, pos, blob_limit, inline_limit, eof) {
        Parsed::Done(Some(frame), next) => {
            proof {
                lemma_frame_within(buf, pos, blob_limit, inline_limit, eof);
            }
            match frame {
                FrameView::Array(count) => match list_at(
                    buf,
                    next,
                    count as nat,
                    Seq::empty(),
                    blob_limit,
                    inline_limit,
                    eof,
                ) {
                    Parsed::Done(items, end) => Parsed::Done(Some(ValueView::Array(items)), end),
                    other => other.carry(),
                },
                FrameView::Push(count) => match list_at(
                    buf,
                    next,
                    count as nat,
                    Seq::empty(),
                    blob_limit,
                    inline_limit,
                    eof,
                ) {
                    Parsed::Done(items, end) => Parsed::Done(Some(ValueView::Push(items)), end),
                    other => other.carry(),
                },
                FrameView::Mapping(count) => match pairs_at(
                    buf,
                    next,
                    count as nat,
                    Map::empty(),
                    blob_limit,
                    inline_limit,
                    eof,
                ) {
                    Parsed::Done(pairs, end) => Parsed::Done(
                        Some(ValueView::Mapping(pairs)),
                        end,
                    ),
                    other => other.carry(),
                },
                FrameView::Attribute(count) => match pairs_at(
                    buf,
                    next,
                    count as nat,
                    Map::empty(),
                    blob_limit,
                    inline_limit,
                    eof,
                ) {
                    Parsed::Done(pairs, end) => Parsed::Done(
                        Some(ValueView::Attribute(pairs)),
                        end,
                    ),
                    other => other.carry(),
                },
                FrameView::Members(count) => match members_at(
                    buf,
                    next,
                    count as nat,
                    Set::empty(),
                    blob_limit,
                    inline_limit,
                    eof,
                ) {
                    Parsed::Done(members, end) => Parsed::Done(
                        Some(ValueView::Members(members)),
                        end,
                    ),
                    other => other.carry(),
                },
                scalar => Parsed::Done(Some(leaf(scalar)), next),
            }
        },
        Parsed::Done(None, _) => Parsed::Done(None, pos),
        other => other.carry(),
    }
}

/// The value at `pos`, where one is owed: the end of the input in its place is an
/// error.
pub open spec fn required_at(
    buf: Seq<u8>,
    pos: nat,
    blob_limit: usize,
    inline_limit: usize,
    eof: bool,
) -> Parsed<ValueView>
    decreases buf.len() - pos, 1nat,
{
    match value_at(buf, pos, blob_limit, inline_limit, eof) {
        Parsed::Done(Some(value), next) => Parsed::Done(value, next),
        Parsed::Done(None, at) => Parsed::Fail(RespError::EndOfInput, at),
        other => other.carry(),
    }
}

/// The `count` values from `pos` on, put behind `acc`. (A value always ends behind
/// the place where it starts: `lemma_value_within`.)
pub open spec fn list_at(
    buf: Seq<u8>,
    pos: nat,
    count: nat,
    acc: Seq<ValueView>,
    blob_limit: usize,
    inline_limit: usize,
    eof: bool,
) -> Parsed<Seq<ValueView>>
    decreases buf.len() - pos, 2nat,
{
    if count == 0 {
        Parsed::Done(acc, pos)
    } else {
        match required_at(buf, pos, blob_limit, inline_limit, eof) {
            Parsed::Done(item, next) if pos < next <= buf.len() => list_at(
                buf,
                next,
                (count - 1) as nat,
                acc.push(item),
                blob_limit,
                inline_limit,
                eof,
            ),
            other => other.carry(),
        }
    }
}

/// The `count` members from `pos` on, put into `acc`. Each must be a primitive
/// that was not there before.
pub open spec fn members_at(
    buf: Seq<u8>,
    pos: nat,
    count: nat,
    acc: Set<PrimitiveView>,
    blob_limit: usize,
    inline_limit: usize,
    eof: bool,
) -> Parsed<Set<PrimitiveView>>
    decreases buf.len() - pos, 2nat,
{
    if count == 0 {
        Parsed::Done(acc, pos)
    } else {
        match required_at(buf, pos, blob_limit, inline_limit, eof) {
            Parsed::Done(item, next) if pos < next <= buf.len() => match primitive_of(item) {
                Some(member) => if acc.contains(member) {
                    Parsed::Fail(RespError::InvalidSet, next)
                } else {
                    members_at(
                        buf,
                        next,
                        (count - 1) as nat,
                        acc.insert(member),
                        blob_limit,
                        inline_limit,
                        eof,
                    )
                },
                None => Parsed::Fail(RespError::RespPrimitive, next),
            },
            other => other.carry(),
        }
    }
}

/// The `count` pairs of a key and a value from `pos` on, put into `acc`. Each key
/// must be a primitive that was not there before.
pub open spec fn pairs_at(
    buf: Seq<u8>,
    pos: nat,
    count: nat,
    acc: Map<PrimitiveView, ValueView>,
    blob_limit: usize,
    inline_limit: usize,
    eof: bool,
) -> Parsed<Map<PrimitiveView, ValueView>>
    decreases buf.len() - pos, 2nat,
{
    if count == 0 {
        Parsed::Done(acc, pos)
    } else {
        match required_at(buf, pos, blob_limit, inline_limit, eof) {
            Parsed::Done(first, middle) if pos < middle <= buf.len() => match primitive_of(first) {
                Some(key) => match required_at(buf, middle, blob_limit, inline_limit, eof) {
                    Parsed::Done(value, next) if middle < next <= buf.len() => if acc.contains_key(key) {
                        Parsed::Fail(RespError::InvalidMap, next)
                    } else {
                        pairs_at(
                            buf,
                            next,
                            (count - 1) as nat,
                            acc.insert(key, value),
                            blob_limit,
                            inline_limit,
                            eof,
                        )
                    },
                    other => other.carry(),
                },
                None => Parsed::Fail(RespError::RespPrimitive, middle),
            },
            other => other.carry(),
        }
    }
}

/// A value ends between its start and the end of the bytes, and behind its start
/// where there is a value.
pub(crate) proof fn lemma_value_within(
    buf: Seq<u8>,
    pos: nat,
    blob_limit: usize,
    inline_limit: usize,
    eof: bool,
)
    requires
        pos <= buf.len(),
    ensures
        value_at(buf, pos, blob_limit, inline_limit, eof).within(pos, buf.len()),
        value_at(buf, pos, blob_limit, inline_limit, eof) matches Parsed::Done(Some(_), next)
            ==> pos < next,
    decreases buf.len() - pos, 0nat,
{
    lemma_frame_within(buf, pos, blob_limit, inline_limit, eof);
    match frame_at(buf, pos, blob_limit, inline_limit, eof) {
        Parsed::Done(Some(frame), next) => {
            match frame {
                FrameView::Array(count) => {
                    lemma_list_within(
                        buf,
                        next,
                        count as nat,
                        Seq::empty(),
                        blob_limit,
                        inline_limit,
                        eof,
                    );
                },
                FrameView::Push(count) => {
                    lemma_list_within(
                        buf,
                        next,
                        count as nat,
                        Seq::empty(),
                        blob_limit,
                        inline_limit,
                        eof,
                    );
                },
                FrameView::Mapping(count) => {
                    lemma_pairs_within(
                        buf,
                        next,
                        count as nat,
                        Map::empty(),
                        blob_limit,
                        inline_limit,
                        eof,
                    );
                },
                FrameView::Attribute(count) => {
                    lemma_pairs_within(
                        buf,
                        next,
                        count as nat,
                        Map::empty(),
                        blob_limit,
                        inline_limit,
                        eof,
                    );
                },
                FrameView::Members(count) => {
                    lemma_members_within(
                        buf,
                        next,
                        count as nat,
                        Set::empty(),
                        blob_limit,
                        inline_limit,
                        eof,
                    );
                },
                _ => {},
            }
        },
        _ => {},
    }
}

/// A value that is owed ends behind its start and not behind the end of the bytes.
pub(crate) proof fn lemma_required_within(
    buf: Seq<u8>,
    pos: nat,
    blob_limit: usize,
    inline_limit: usize,
    eof: bool,
)
    requires
        pos <= buf.len(),
    ensures
        required_at(buf, pos, blob_limit, inline_limit, eof).within(pos, buf.len()),
        required_at(buf, pos, blob_limit, inline_limit, eof) matches Parsed::Done(_, next) ==> pos
            < next,
    decreases buf.len() - pos, 1nat,
{
    lemma_value_within(buf, pos, blob_limit, inline_limit, eof);
}

/// Values in a row end between their start and the end of the bytes.
pub(crate) proof fn lemma_list_within(
    buf: Seq<u8>,
    pos: nat,
    count: nat,
    acc: Seq<ValueView>,
    blob_limit: usize,
    inline_limit: usize,
    eof: bool,
)
    requires
        pos <= buf.len(),
    ensures
        list_at(buf, pos, count, acc, blob_limit, inline_limit, eof).within(pos, buf.len()),
    decreases buf.len() - pos, 2nat,
{
    if count > 0 {
        lemma_required_within(buf, pos, blob_limit, inline_limit, eof);
        match required_at(buf, pos, blob_limit, inline_limit, eof) {
            Parsed::Done(item, next) => {
                lemma_list_within(
                    buf,
                    next,
                    (count - 1) as nat,
                    acc.push(item),
                    blob_limit,
                    inline_limit,
                    eof,
                );
            },
            _ => {},
        }
    }
}

/// Members in a row end between their start and the end of the bytes.
pub(crate) proof fn lemma_members_within(
    buf: Seq<u8>,
    pos: nat,
    count: nat,
    acc: Set<PrimitiveView>,
    blob_limit: usize,
    inline_limit: usize,
    eof: bool,
)
    requires
        pos <= buf.len(),
    ensures
        members_at(buf, pos, count, acc, blob_limit, inline_limit, eof).within(pos, buf.len()),
    decreases buf.len() - pos, 2nat,
{
    if count > 0 {
        lemma_required_within(buf, pos, blob_limit, inline_limit, eof);
        match required_at(buf, pos, blob_limit, inline_limit, eof) {
            Parsed::Done(item, next) => {
                match primitive_of(item) {
                    Some(member) => {
                        lemma_members_within(
                            buf,
                            next,
                            (count - 1) as nat,
                            acc.insert(member),
                            blob_limit,
                            inline_limit,
                            eof,
                        );
                    },
                    None => {},
                }
            },
            _ => {},
        }
    }
}

/// Pairs in a row end between their start and the end of the bytes.
pub(crate) proof fn lemma_pairs_within(
    buf: Seq<u8>,
    pos: nat,
    count: nat,
    acc: Map<PrimitiveView, ValueView>,
    blob_limit: usize,
    inline_limit: usize,
    eof: bool,
)
    requires
        pos <= buf.len(),
    ensures
        pairs_at(buf, pos, count, acc, blob_limit, inline_limit, eof).within(pos, buf.len()),
    decreases buf.len() - pos, 2nat,
{
    if count > 0 {
        lemma_required_within(buf, pos, blob_limit, inline_limit, eof);
        match required_at(buf, pos, blob_limit, inline_limit, eof) {
            Parsed::Done(first, middle) => {
                match primitive_of(first) {
                    Some(key) => {
                        lemma_required_within(buf, middle, blob_limit, inline_limit, eof);
                        match required_at(buf, middle, blob_limit, inline_limit, eof) {
                            Parsed::Done(value, next) => {
                                lemma_pairs_within(
                                    buf,
                                    next,
                                    (count - 1) as nat,
                                    acc.insert(key, value),
                                    blob_limit,
                                    inline_limit,
                                    eof,
                                );
                            },
                            _ => {},
                        }
                    },
                    None => {},
                }
            },
            _ => {},
        }
    }
}

/// A member that is read twice makes an invalid set, whatever stands between the
/// two and behind them.
pub proof fn lemma_repeated_member(
    buf: Seq<u8>,
    pos: nat,
    count: nat,
    acc: Set<PrimitiveView>,
    blob_limit: usize,
    inline_limit: usize,
    eof: bool,
)
    requires
        count > 0,
        required_at(buf, pos, blob_limit, inline_limit, eof) matches Parsed::Done(item, _)
            && primitive_of(item) matches Some(member) && acc.contains(member),
    ensures
        members_at(buf, pos, count, acc, blob_limit, inline_limit, eof) == Parsed::<
            Set<PrimitiveView>,
        >::Fail(
            RespError::InvalidSet,
            required_at(buf, pos, blob_limit, inline_limit, eof)->Done_1,
        ),
{
    if pos <= buf.len() {
        lemma_required_within(buf, pos, blob_limit, inline_limit, eof);
    }
}

/// A key that is read twice makes an invalid map, whatever the values are that
/// follow the two.
pub proof fn lemma_repeated_key(
    buf: Seq<u8>,
    pos: nat,
    count: nat,
    acc: Map<PrimitiveView, ValueView>,
    blob_limit: usize,
    inline_limit: usize,
    eof: bool,
)
    requires
        count > 0,
        required_at(buf, pos, blob_limit, inline_limit, eof) matches Parsed::Done(first, middle)
            && primitive_of(first) matches Some(key) && acc.contains_key(key) && required_at(
            buf,
            middle,
            blob_limit,
            inline_limit,
            eof,
        ) is Done,
    ensures
        pairs_at(buf, pos, count, acc, blob_limit, inline_limit, eof) == Parsed::<
            Map<PrimitiveView, ValueView>,
        >::Fail(
            RespError::InvalidMap,
            required_at(
                buf,
                required_at(buf, pos, blob_limit, inline_limit, eof)->Done_1,
                blob_limit,
                inline_limit,
                eof,
            )->Done_1,
        ),
{
    if pos <= buf.len() {
        lemma_required_within(buf, pos, blob_limit, inline_limit, eof);
        let middle = required_at(buf, pos, blob_limit, inline_limit, eof)->Done_1;
        lemma_required_within(buf, middle, blob_limit, inline_limit, eof);
    }
}

/// A map or an attribute whose first two pairs have the same key is an invalid
/// map, whether or not the two values are the same, and whatever follows.
pub proof fn lemma_map_with_equal_keys(
    buf: Seq<u8>,
    pos: nat,
    blob_limit: usize,
    inline_limit: usize,
    eof: bool,
)
    requires
        ({
            &&& frame_at(buf, pos, blob_limit, inline_limit, eof) matches Parsed::Done(
                Some(frame),
                start,
            )
            &&& match frame {
                FrameView::Mapping(count) => count >= 2,
                FrameView::Attribute(count) => count >= 2,
                _ => false,
            }
            &&& required_at(buf, start, blob_limit, inline_limit, eof) matches Parsed::Done(
                first_key,
                a,
            )
            &&& required_at(buf, a, blob_limit, inline_limit, eof) matches Parsed::Done(_, b)
            &&& required_at(buf, b, blob_limit, inline_limit, eof) matches Parsed::Done(
                second_key,
                c,
            )
            &&& required_at(buf, c, blob_limit, inline_limit, eof) is Done
            &&& primitive_of(first_key) is Some
            &&& primitive_of(first_key) == primitive_of(second_key)
        }),
    ensures
        value_at(buf, pos, blob_limit, inline_limit, eof) matches Parsed::Fail(
            RespError::InvalidMap,
            _,
        ),
{
    if pos <= buf.len() {
        lemma_frame_within(buf, pos, blob_limit, inline_limit, eof);
        let start = frame_at(buf, pos, blob_limit, inline_limit, eof)->Done_1;
        let count: nat = match frame_at(buf, pos, blob_limit, inline_limit, eof)->Done_0->Some_0 {
            FrameView::Mapping(count) => count as nat,
            FrameView::Attribute(count) => count as nat,
            _ => 0,
        };
        lemma_required_within(buf, start, blob_limit, inline_limit, eof);
        let first_key = required_at(buf, start, blob_limit, inline_limit, eof)->Done_0;
        let a = required_at(buf, start, blob_limit, inline_limit, eof)->Done_1;
        lemma_required_within(buf, a, blob_limit, inline_limit, eof);
        let value = required_at(buf, a, blob_limit, inline_limit, eof)->Done_0;
        let b = required_at(buf, a, blob_limit, inline_limit, eof)->Done_1;
        let acc = Map::<PrimitiveView, ValueView>::empty().insert(
            primitive_of(first_key)->Some_0,
            value,
        );
        lemma_repeated_key(buf, b, (count - 1) as nat, acc, blob_limit, inline_limit, eof);
    }
}

/// A set whose first two members are the same is an invalid set, whatever
/// follows.
pub proof fn lemma_set_with_equal_members(
    buf: Seq<u8>,
    pos: nat,
    blob_limit: usize,
    inline_limit: usize,
    eof: bool,
)
    requires
        ({
            &&& frame_at(buf, pos, blob_limit, inline_limit, eof) matches Parsed::Done(
                Some(FrameView::Members(count)),
                start,
            )
            &&& count >= 2
            &&& required_at(buf, start, blob_limit, inline_limit, eof) matches Parsed::Done(
                first,
                a,
            )
            &&& required_at(buf, a, blob_limit, inline_limit, eof) matches Parsed::Done(second, _)
            &&& primitive_of(first) is Some
            &&& primitive_of(first) == primitive_of(second)
        }),
    ensures
        value_at(buf, pos, blob_limit, inline_limit, eof) matches Parsed::Fail(
            RespError::InvalidSet,
            _,
        ),
{
    if pos <= buf.len() {
        lemma_frame_within(buf, pos, blob_limit, inline_limit, eof);
        let start = frame_at(buf, pos, blob_limit, inline_limit, eof)->Done_1;
        let count = frame_at(buf, pos, blob_limit, inline_limit, eof)->Done_0->Some_0->Members_0;
        lemma_required_within(buf, start, blob_limit, inline_limit, eof);
        let first = required_at(buf, start, blob_limit, inline_limit, eof)->Done_0;
        let a = required_at(buf, start, blob_limit, inline_limit, eof)->Done_1;
        let acc = Set::<PrimitiveView>::empty().insert(primitive_of(first)->Some_0);
        lemma_repeated_member(buf, a, (count - 1) as nat, acc, blob_limit, inline_limit, eof);
    }
}

/// A set that was read has a member for each value that was read for it: none
/// was there before, and none was read twice.
pub proof fn lemma_members_distinct(
    buf: Seq<u8>,
    pos: nat,
    count: nat,
    acc: Set<PrimitiveView>,
    blob_limit: usize,
    inline_limit: usize,
    eof: bool,
)
    requires
        acc.finite(),
    ensures
        members_at(buf, pos, count, acc, blob_limit, inline_limit, eof) matches Parsed::Done(
            members,
            _,
        ) ==> members.finite() && members.len() == acc.len() + count && acc.subset_of(members),
    decreases buf.len() - pos, 2nat,
{
    if pos <= buf.len() {
        if count > 0 {
            lemma_required_within(buf, pos, blob_limit, inline_limit, eof);
            match required_at(buf, pos, blob_limit, inline_limit, eof) {
                Parsed::Done(item, next) => {
                    match primitive_of(item) {
                        Some(member) => {
                            if !acc.contains(member) {
                                lemma_members_distinct(
                                    buf,
                                    next,
                                    (count - 1) as nat,
                                    acc.insert(member),
                                    blob_limit,
                                    inline_limit,
                                    eof,
                                );
                            }
                        },
                        None => {},
                    }
                },
                _ => {},
            }
        }
    }
}

/// Whether `later` maps each key of `earlier` to what `earlier` maps it to.
pub open spec fn keeps(
    earlier: Map<PrimitiveView, ValueView>,
    later: Map<PrimitiveView, ValueView>,
) -> bool {
    forall|key: PrimitiveView| #[trigger]
        earlier.dom().contains(key) ==> later.dom().contains(key) && later[key] == earlier[key]
}

/// A map that was read has a key for each pair that was read for it: none was
/// there before, none was read twice, and no value was replaced.
pub proof fn lemma_pairs_distinct(
    buf: Seq<u8>,
    pos: nat,
    count: nat,
    acc: Map<PrimitiveView, ValueView>,
    blob_limit: usize,
    inline_limit: usize,
    eof: bool,
)
    requires
        acc.dom().finite(),
    ensures
        pairs_at(buf, pos, count, acc, blob_limit, inline_limit, eof) matches Parsed::Done(pairs, _)
            ==> pairs.dom().finite() && pairs.dom().len() == acc.dom().len() + count && keeps(
            acc,
            pairs,
        ),
    decreases buf.len() - pos, 2nat,
{
    if pos <= buf.len() {
        if count > 0 {
            lemma_required_within(buf, pos, blob_limit, inline_limit, eof);
            match required_at(buf, pos, blob_limit, inline_limit, eof) {
                Parsed::Done(first, middle) => {
                    match primitive_of(first) {
                        Some(key) => {
                            lemma_required_within(buf, middle, blob_limit, inline_limit, eof);
                            match required_at(buf, middle, blob_limit, inline_limit, eof) {
                                Parsed::Done(value, next) => {
                                    if !acc.contains_key(key) {
                                        let grown = acc.insert(key, value);
                                        assert(grown.dom() =~= acc.dom().insert(key));
                                        lemma_pairs_distinct(
                                            buf,
                                            next,
                                            (count - 1) as nat,
                                            grown,
                                            blob_limit,
                                            inline_limit,
                                            eof,
                                        );
                                        assert forall|k: PrimitiveView| #[trigger]
                                            acc.dom().contains(k) implies grown.dom().contains(k)
                                            && grown[k] == acc[k] by {}
                                    }
                                },
                                _ => {},
                            }
                        },
                        None => {},
                    }
                },
                _ => {},
            }
        }
    }
}

/// The value that a frame without children stands for.
pub(crate) fn leaf_value(frame: RespFrame) -> (value: RespValue)
    ensures
        value@ == leaf(frame@),
{
    match frame {
        RespFrame::Bignum(digits) => RespValue::Bignum(digits),
        RespFrame::BlobError(message) => RespValue::Error(message),
        RespFrame::BlobString(bytes) => RespValue::String(bytes),
        RespFrame::Boolean(value) => RespValue::Boolean(value),
        RespFrame::Double(text) => RespValue::Double(text),
        RespFrame::Integer(value) => RespValue::Integer(value),
        RespFrame::SimpleError(message) => RespValue::Error(message),
        RespFrame::SimpleString(text) => RespValue::String(text),
        RespFrame::Verbatim(format, text) => RespValue::Verbatim(format, text),
        _ => RespValue::Nil,
    }
}

/// The primitive that `value` is, or the error that it is none.
pub open spec fn as_primitive(value: RespValue) -> Result<RespPrimitive, RespError> {
    match value {
        RespValue::Integer(number) => Ok(RespPrimitive::Integer(number)),
        RespValue::Nil => Ok(RespPrimitive::Nil),
        RespValue::String(bytes) => Ok(RespPrimitive::String(bytes)),
        _ => Err(RespError::RespPrimitive),
    }
}

/// The primitive that `value` is, or the error that it is none.
pub fn primitive(value: RespValue) -> (converted: Result<RespPrimitive, RespError>)
    ensures
        converted == as_primitive(value),
        match converted {
            Ok(primitive) => primitive_of(value@) == Some(primitive@),
            Err(error) => primitive_of(value@).is_none() && error == RespError::RespPrimitive,
        },
{
    match value {
        RespValue::Integer(number) => Ok(RespPrimitive::Integer(number)),
        RespValue::Nil => Ok(RespPrimitive::Nil),
        RespValue::String(bytes) => Ok(RespPrimitive::String(bytes)),
        _ => Err(RespError::RespPrimitive),
    }
}

impl TryFrom<RespValue> for RespPrimitive {
    type Error = RespError;

    fn try_from(value: RespValue) -> (converted: Result<RespPrimitive, RespError>)
        ensures
            match converted {
                Ok(primitive) => primitive_of(value@) == Some(primitive@),
                Err(error) => primitive_of(value@).is_none() && error == RespError::RespPrimitive,
            },
    {
        primitive(value)
    }
}

impl TryFromSpecImpl<RespValue> for RespPrimitive {
    open spec fn obeys_try_from_spec() -> bool {
        true
    }

    open spec fn try_from_spec(value: RespValue) -> Result<RespPrimitive, RespError> {
        as_primitive(value)
    }
}

} // verus!
