//! Reading a value without recursion.
//!
//! A value is read frame by frame. The aggregates that are begun and not yet
//! complete lie on a pile, the innermost on top, and each value that is complete
//! goes into the one on top. So the depth to which values are nested costs memory
//! on the heap and none on the call stack.

use crate::builder::{
    leaf, leaf_value, lemma_required_within, lemma_value_within, list_at, members_at, pairs_at,
    primitive, primitive_of, required_at, value_at,
};
use crate::decode::{frame_at, lemma_frame_within, read_frame};
use crate::error::RespError;
use crate::frame::{FrameView, RespFrame};
use crate::primitive::{PrimitiveView, RespPrimitive};
use crate::scan::{Parsed, Scan};
use crate::value::{item_views, RespMap, RespSet, RespValue, ValueView};
use vstd::prelude::*;

verus! {

/// An aggregate that is begun and not yet complete.
enum Open {
    /// An array, or a push, that lacks `left` values.
    List { push: bool, left: usize, items: Vec<RespValue> },
    /// A set that lacks `left` members.
    Members { left: usize, members: RespSet },
    /// A map, or an attribute, that lacks `left` pairs. Of the first of them the
    /// key may have been read.
    Pairs { attribute: bool, left: usize, pairs: RespMap, key: Option<RespPrimitive> },
}

/// What an open aggregate holds.
enum OpenView {
    List { push: bool, left: nat, items: Seq<ValueView> },
    Members { left: nat, members: Set<PrimitiveView> },
    Pairs {
        attribute: bool,
        left: nat,
        pairs: Map<PrimitiveView, ValueView>,
        key: Option<PrimitiveView>,
    },
}

impl View for Open {
    type V = OpenView;

    closed spec fn view(&self) -> OpenView {
        match self {
            Open::List { push, left, items } => OpenView::List {
                push: *push,
                left: *left as nat,
                items: item_views(items@),
            },
            Open::Members { left, members } => OpenView::Members {
                left: *left as nat,
                members: members@,
            },
            Open::Pairs { attribute, left, pairs, key } => OpenView::Pairs {
                attribute: *attribute,
                left: *left as nat,
                pairs: pairs@,
                key: match key {
                    Some(primitive) => Some(primitive@),
                    None => None,
                },
            },
        }
    }
}

impl OpenView {
    /// The number of values or pairs that the aggregate lacks.
    spec fn left(self) -> nat {
        match self {
            OpenView::List { left, .. } => left,
            OpenView::Members { left, .. } => left,
            OpenView::Pairs { left, .. } => left,
        }
    }
}

/// What each of the open aggregates `pile` holds.
spec fn pile_views(pile: Seq<Open>) -> Seq<OpenView> {
    Seq::new(pile.len(), |i: int| pile[i]@)
}

/// Whether each of the open aggregates lacks something.
spec fn all_lack(pile: Seq<OpenView>) -> bool {
    forall|i: int| 0 <= i < pile.len() ==> (#[trigger] pile[i]).left() > 0
}

/// The list that `items` make: a push or an array.
spec fn list_of(push: bool, items: Seq<ValueView>) -> ValueView {
    if push {
        ValueView::Push(items)
    } else {
        ValueView::Array(items)
    }
}

/// The map that `pairs` make: an attribute or a map.
spec fn map_of(attribute: bool, pairs: Map<PrimitiveView, ValueView>) -> ValueView {
    if attribute {
        ValueView::Attribute(pairs)
    } else {
        ValueView::Mapping(pairs)
    }
}

/// What reading comes to once `value` is complete at `at`, with the aggregates of
/// `pile` open: the value goes into the innermost of them, which is read to its
/// end and then goes into the next in turn. With nothing open, the value is what
/// was read.
spec fn settle(
    buf: Seq<u8>,
    pile: Seq<OpenView>,
    value: ValueView,
    at: nat,
    blob_limit: usize,
    inline_limit: usize,
    eof: bool,
) -> Parsed<ValueView>
    decreases pile.len(), 0nat,
{
    if pile.len() == 0 {
        Parsed::Done(value, at)
    } else {
        let outer = pile.drop_last();
        match pile.last() {
            OpenView::List { push, left, items } => match list_at(
                buf,
                at,
                (left - 1) as nat,
                items.push(value),
                blob_limit,
                inline_limit,
                eof,
            ) {
                Parsed::Done(all, end) => settle(
                    buf,
                    outer,
                    list_of(push, all),
                    end,
                    blob_limit,
                    inline_limit,
                    eof,
                ),
                other => other.carry(),
            },
            OpenView::Members { left, members } => match primitive_of(value) {
                Some(member) => if members.contains(member) {
                    Parsed::Fail(RespError::InvalidSet, at)
                } else {
                    match members_at(
                        buf,
                        at,
                        (left - 1) as nat,
                        members.insert(member),
                        blob_limit,
                        inline_limit,
                        eof,
                    ) {
                        Parsed::Done(all, end) => settle(
                            buf,
                            outer,
                            ValueView::Members(all),
                            end,
                            blob_limit,
                            inline_limit,
                            eof,
                        ),
                        other => other.carry(),
                    }
                },
                None => Parsed::Fail(RespError::RespPrimitive, at),
            },
            OpenView::Pairs { attribute, left, pairs, key: Some(key) } => with_pair(
                buf,
                outer,
                attribute,
                left,
                pairs,
                key,
                value,
                at,
                blob_limit,
                inline_limit,
                eof,
            ),
            OpenView::Pairs { attribute, left, pairs, key: None } => match primitive_of(value) {
                Some(key) => match required_at(buf, at, blob_limit, inline_limit, eof) {
                    Parsed::Done(second, next) if at < next <= buf.len() => with_pair(
                        buf,
                        outer,
                        attribute,
                        left,
                        pairs,
                        key,
                        second,
                        next,
                        blob_limit,
                        inline_limit,
                        eof,
                    ),
                    other => other.carry(),
                },
                None => Parsed::Fail(RespError::RespPrimitive, at),
            },
        }
    }
}

/// What reading comes to once the pair of `key` and `value` is complete at `at`
/// for a map that has `pairs` and lacks `left` pairs with this one, with the
/// aggregates of `outer` open around it.
spec fn with_pair(
    buf: Seq<u8>,
    outer: Seq<OpenView>,
    attribute: bool,
    left: nat,
    pairs: Map<PrimitiveView, ValueView>,
    key: PrimitiveView,
    value: ValueView,
    at: nat,
    blob_limit: usize,
    inline_limit: usize,
    eof: bool,
) -> Parsed<ValueView>
    decreases outer.len(), 1nat,
{
    if pairs.contains_key(key) {
        Parsed::Fail(RespError::InvalidMap, at)
    } else {
        match pairs_at(
            buf,
            at,
            (left - 1) as nat,
            pairs.insert(key, value),
            blob_limit,
            inline_limit,
            eof,
        ) {
            Parsed::Done(all, end) => settle(
                buf,
                outer,
                map_of(attribute, all),
                end,
                blob_limit,
                inline_limit,
                eof,
            ),
            other => other.carry(),
        }
    }
}

/// What reading comes to where the next value is owed at `at`, with the
/// aggregates of `pile` open.
spec fn ahead(
    buf: Seq<u8>,
    pile: Seq<OpenView>,
    at: nat,
    blob_limit: usize,
    inline_limit: usize,
    eof: bool,
) -> Parsed<ValueView> {
    match required_at(buf, at, blob_limit, inline_limit, eof) {
        Parsed::Done(value, next) => settle(buf, pile, value, next, blob_limit, inline_limit, eof),
        other => other.carry(),
    }
}

/// The outcome of reading a value that is there, as that of reading a value that
/// may be lacking.
spec fn found(parsed: Parsed<ValueView>) -> Parsed<Option<ValueView>> {
    match parsed {
        Parsed::Done(value, next) => Parsed::Done(Some(value), next),
        other => other.carry(),
    }
}

/// What the pile is after `frame` has been read with `pile` open: a frame that
/// heads an aggregate which lacks something opens it.
spec fn opened(pile: Seq<OpenView>, frame: FrameView) -> Seq<OpenView> {
    match frame {
        FrameView::Array(count) => pile.push(
            OpenView::List { push: false, left: count as nat, items: Seq::empty() },
        ),
        FrameView::Push(count) => pile.push(
            OpenView::List { push: true, left: count as nat, items: Seq::empty() },
        ),
        FrameView::Mapping(count) => pile.push(
            OpenView::Pairs {
                attribute: false,
                left: count as nat,
                pairs: Map::empty(),
                key: None,
            },
        ),
        FrameView::Attribute(count) => pile.push(
            OpenView::Pairs { attribute: true, left: count as nat, pairs: Map::empty(), key: None },
        ),
        FrameView::Members(count) => pile.push(
            OpenView::Members { left: count as nat, members: Set::empty() },
        ),
        _ => pile,
    }
}

/// The value that `frame` is by itself: what a frame without children stands
/// for, and an aggregate of nothing for a frame that heads one.
spec fn alone(frame: FrameView) -> ValueView {
    match frame {
        FrameView::Array(_) => ValueView::Array(Seq::empty()),
        FrameView::Push(_) => ValueView::Push(Seq::empty()),
        FrameView::Mapping(_) => ValueView::Mapping(Map::empty()),
        FrameView::Attribute(_) => ValueView::Attribute(Map::empty()),
        FrameView::Members(_) => ValueView::Members(Set::empty()),
        other => leaf(other),
    }
}

/// The number of values or pairs that `frame` announces.
spec fn announced(frame: FrameView) -> nat {
    match frame {
        FrameView::Array(count) => count as nat,
        FrameView::Push(count) => count as nat,
        FrameView::Mapping(count) => count as nat,
        FrameView::Attribute(count) => count as nat,
        FrameView::Members(count) => count as nat,
        _ => 0,
    }
}

/// A frame that was read where a value is owed is that value by itself, or opens
/// an aggregate whose first value is owed next.
proof fn lemma_frame_read(
    buf: Seq<u8>,
    pile: Seq<OpenView>,
    at: nat,
    blob_limit: usize,
    inline_limit: usize,
    eof: bool,
)
    requires
        at <= buf.len(),
        frame_at(buf, at, blob_limit, inline_limit, eof) matches Parsed::Done(Some(_), _),
    ensures
        ({
            let frame = frame_at(buf, at, blob_limit, inline_limit, eof)->Done_0->Some_0;
            let next = frame_at(buf, at, blob_limit, inline_limit, eof)->Done_1;
            let before = ahead(buf, pile, at, blob_limit, inline_limit, eof);
            if announced(frame) == 0 {
                before == settle(buf, pile, alone(frame), next, blob_limit, inline_limit, eof)
            } else {
                before == ahead(buf, opened(pile, frame), next, blob_limit, inline_limit, eof)
            }
        }),
{
    reveal_with_fuel(settle, 2);
    reveal_with_fuel(with_pair, 2);
    let frame = frame_at(buf, at, blob_limit, inline_limit, eof)->Done_0->Some_0;
    let next = frame_at(buf, at, blob_limit, inline_limit, eof)->Done_1;
    lemma_frame_within(buf, at, blob_limit, inline_limit, eof);
    lemma_required_within(buf, next, blob_limit, inline_limit, eof);
    let after = opened(pile, frame);
    if announced(frame) > 0 {
        assert(after.drop_last() =~= pile);
        match required_at(buf, next, blob_limit, inline_limit, eof) {
            Parsed::Done(first, middle) => {
                lemma_required_within(buf, middle, blob_limit, inline_limit, eof);
                assert(Seq::<ValueView>::empty().push(first) =~= seq![first]);
            },
            _ => {},
        }
    }
}

/// What comes of a value that goes into the innermost open aggregate.
enum Put {
    /// The aggregate is complete with it, and is the value to go on with.
    Up(RespValue),
    /// The aggregate lacks more: its next value is owed.
    Next,
    /// The value cannot go into the aggregate.
    Fail(RespError),
}

/// A value that goes into a list completes it, or leaves a list that lacks one
/// value less.
proof fn lemma_into_list(
    buf: Seq<u8>,
    outer: Seq<OpenView>,
    push: bool,
    left: nat,
    items: Seq<ValueView>,
    value: ValueView,
    at: nat,
    blob_limit: usize,
    inline_limit: usize,
    eof: bool,
)
    requires
        at <= buf.len(),
        left > 0,
    ensures
        ({
            let before = settle(
                buf,
                outer.push(OpenView::List { push, left, items }),
                value,
                at,
                blob_limit,
                inline_limit,
                eof,
            );
            if left == 1 {
                before == settle(
                    buf,
                    outer,
                    list_of(push, items.push(value)),
                    at,
                    blob_limit,
                    inline_limit,
                    eof,
                )
            } else {
                before == ahead(
                    buf,
                    outer.push(
                        OpenView::List { push, left: (left - 1) as nat, items: items.push(value) },
                    ),
                    at,
                    blob_limit,
                    inline_limit,
                    eof,
                )
            }
        }),
{
    let pile = outer.push(OpenView::List { push, left, items });
    assert(pile.drop_last() =~= outer);
    let less = outer.push(
        OpenView::List { push, left: (left - 1) as nat, items: items.push(value) },
    );
    assert(less.drop_last() =~= outer);
    lemma_required_within(buf, at, blob_limit, inline_limit, eof);
}

/// A member that goes into a set completes it, or leaves a set that lacks one
/// member less, unless it is there already or is no primitive.
proof fn lemma_into_members(
    buf: Seq<u8>,
    outer: Seq<OpenView>,
    left: nat,
    members: Set<PrimitiveView>,
    value: ValueView,
    at: nat,
    blob_limit: usize,
    inline_limit: usize,
    eof: bool,
)
    requires
        at <= buf.len(),
        left > 0,
    ensures
        ({
            let before = settle(
                buf,
                outer.push(OpenView::Members { left, members }),
                value,
                at,
                blob_limit,
                inline_limit,
                eof,
            );
            match primitive_of(value) {
                None => before == Parsed::<ValueView>::Fail(RespError::RespPrimitive, at),
                Some(member) => if members.contains(member) {
                    before == Parsed::<ValueView>::Fail(RespError::InvalidSet, at)
                } else if left == 1 {
                    before == settle(
                        buf,
                        outer,
                        ValueView::Members(members.insert(member)),
                        at,
                        blob_limit,
                        inline_limit,
                        eof,
                    )
                } else {
                    before == ahead(
                        buf,
                        outer.push(
                            OpenView::Members {
                                left: (left - 1) as nat,
                                members: members.insert(member),
                            },
                        ),
                        at,
                        blob_limit,
                        inline_limit,
                        eof,
                    )
                },
            }
        }),
{
    let pile = outer.push(OpenView::Members { left, members });
    assert(pile.drop_last() =~= outer);
    lemma_required_within(buf, at, blob_limit, inline_limit, eof);
    match primitive_of(value) {
        Some(member) => {
            let less = outer.push(
                OpenView::Members { left: (left - 1) as nat, members: members.insert(member) },
            );
            assert(less.drop_last() =~= outer);
        },
        None => {},
    }
}

/// A key that goes into a map leaves the map with that key, whose value is owed
/// next, unless it is no primitive.
proof fn lemma_into_pairs_key(
    buf: Seq<u8>,
    outer: Seq<OpenView>,
    attribute: bool,
    left: nat,
    pairs: Map<PrimitiveView, ValueView>,
    value: ValueView,
    at: nat,
    blob_limit: usize,
    inline_limit: usize,
    eof: bool,
)
    requires
        at <= buf.len(),
        left > 0,
    ensures
        ({
            let before = settle(
                buf,
                outer.push(OpenView::Pairs { attribute, left, pairs, key: None }),
                value,
                at,
                blob_limit,
                inline_limit,
                eof,
            );
            match primitive_of(value) {
                None => before == Parsed::<ValueView>::Fail(RespError::RespPrimitive, at),
                Some(key) => before == ahead(
                    buf,
                    outer.push(OpenView::Pairs { attribute, left, pairs, key: Some(key) }),
                    at,
                    blob_limit,
                    inline_limit,
                    eof,
                ),
            }
        }),
{
    let pile = outer.push(OpenView::Pairs { attribute, left, pairs, key: None });
    assert(pile.drop_last() =~= outer);
    lemma_required_within(buf, at, blob_limit, inline_limit, eof);
    match primitive_of(value) {
        Some(key) => {
            let keyed = outer.push(OpenView::Pairs { attribute, left, pairs, key: Some(key) });
            assert(keyed.drop_last() =~= outer);
        },
        None => {},
    }
}

/// A value that goes into a map with the key that was read for it completes the
/// map, or leaves a map that lacks one pair less, unless the key is there
/// already.
proof fn lemma_into_pairs_value(
    buf: Seq<u8>,
    outer: Seq<OpenView>,
    attribute: bool,
    left: nat,
    pairs: Map<PrimitiveView, ValueView>,
    key: PrimitiveView,
    value: ValueView,
    at: nat,
    blob_limit: usize,
    inline_limit: usize,
    eof: bool,
)
    requires
        at <= buf.len(),
        left > 0,
    ensures
        ({
            let before = settle(
                buf,
                outer.push(OpenView::Pairs { attribute, left, pairs, key: Some(key) }),
                value,
                at,
                blob_limit,
                inline_limit,
                eof,
            );
            if pairs.contains_key(key) {
                before == Parsed::<ValueView>::Fail(RespError::InvalidMap, at)
            } else if left == 1 {
                before == settle(
                    buf,
                    outer,
                    map_of(attribute, pairs.insert(key, value)),
                    at,
                    blob_limit,
                    inline_limit,
                    eof,
                )
            } else {
                before == ahead(
                    buf,
                    outer.push(
                        OpenView::Pairs {
                            attribute,
                            left: (left - 1) as nat,
                            pairs: pairs.insert(key, value),
                            key: None,
                        },
                    ),
                    at,
                    blob_limit,
                    inline_limit,
                    eof,
                )
            }
        }),
{
    reveal_with_fuel(settle, 2);
    reveal_with_fuel(with_pair, 2);
    let pile = outer.push(OpenView::Pairs { attribute, left, pairs, key: Some(key) });
    assert(pile.drop_last() =~= outer);
    let less = outer.push(
        OpenView::Pairs {
            attribute,
            left: (left - 1) as nat,
            pairs: pairs.insert(key, value),
            key: None,
        },
    );
    assert(less.drop_last() =~= outer);
    lemma_required_within(buf, at, blob_limit, inline_limit, eof);
    match required_at(buf, at, blob_limit, inline_limit, eof) {
        Parsed::Done(_, middle) => {
            lemma_required_within(buf, middle, blob_limit, inline_limit, eof);
        },
        _ => {},
    }
}

/// Takes the frame that was read where a value was owed. A frame that is a value
/// by itself is handed back as that value, and a frame that heads an aggregate
/// which lacks something opens it.
fn begin(pile: &mut Vec<Open>, frame: RespFrame) -> (whole: Option<RespValue>)
    ensures
        match whole {
            Some(value) => announced(frame@) == 0 && value@ == alone(frame@) && final(pile)@
                == old(pile)@,
            None => announced(frame@) > 0 && pile_views(final(pile)@) == opened(
                pile_views(old(pile)@),
                frame@,
            ),
        },
{
    let ghost before = pile_views(pile@);
    match frame {
        RespFrame::Array(count) => {
            let items: Vec<RespValue> = Vec::new();
            assert(item_views(items@) =~= Seq::<ValueView>::empty());
            if count == 0 {
                return Some(RespValue::Array(items));
            }
            pile.push(Open::List { push: false, left: count, items });
        },
        RespFrame::Push(count) => {
            let items: Vec<RespValue> = Vec::new();
            assert(item_views(items@) =~= Seq::<ValueView>::empty());
            if count == 0 {
                return Some(RespValue::Push(items));
            }
            pile.push(Open::List { push: true, left: count, items });
        },
        RespFrame::Mapping(count) => {
            if count == 0 {
                return Some(RespValue::Mapping(RespMap::new()));
            }
            pile.push(
                Open::Pairs { attribute: false, left: count, pairs: RespMap::new(), key: None },
            );
        },
        RespFrame::Attribute(count) => {
            if count == 0 {
                return Some(RespValue::Attribute(RespMap::new()));
            }
            pile.push(
                Open::Pairs { attribute: true, left: count, pairs: RespMap::new(), key: None },
            );
        },
        RespFrame::Members(count) => {
            if count == 0 {
                return Some(RespValue::Members(RespSet::new()));
            }
            pile.push(Open::Members { left: count, members: RespSet::new() });
        },
        other => {
            return Some(leaf_value(other));
        },
    }
    assert(pile_views(pile@) =~= opened(before, frame@));
    None
}

/// Puts `value`, which is complete at `at`, into the innermost open aggregate.
fn put(
    pile: &mut Vec<Open>,
    value: RespValue,
    Ghost(buf): Ghost<Seq<u8>>,
    Ghost(at): Ghost<nat>,
    Ghost(blob_limit): Ghost<usize>,
    Ghost(inline_limit): Ghost<usize>,
    Ghost(eof): Ghost<bool>,
) -> (put: Put)
    requires
        old(pile)@.len() > 0,
        all_lack(pile_views(old(pile)@)),
        at <= buf.len(),
    ensures
        all_lack(pile_views(final(pile)@)),
        match put {
            Put::Up(whole) => final(pile)@.len() + 1 == old(pile)@.len() && settle(
                buf,
                pile_views(old(pile)@),
                value@,
                at,
                blob_limit,
                inline_limit,
                eof,
            ) == settle(
                buf,
                pile_views(final(pile)@),
                whole@,
                at,
                blob_limit,
                inline_limit,
                eof,
            ),
            Put::Next => settle(
                buf,
                pile_views(old(pile)@),
                value@,
                at,
                blob_limit,
                inline_limit,
                eof,
            ) == ahead(buf, pile_views(final(pile)@), at, blob_limit, inline_limit, eof),
            Put::Fail(error) => settle(
                buf,
                pile_views(old(pile)@),
                value@,
                at,
                blob_limit,
                inline_limit,
                eof,
            ) == Parsed::<ValueView>::Fail(error, at),
        },
{
    let ghost before = pile_views(pile@);
    let top = match pile.pop() {
        Some(top) => top,
        None => {
            return Put::Next;
        },
    };
    let ghost outer = pile_views(pile@);
    proof {
        assert(before =~= outer.push(top@));
        assert(before[before.len() - 1].left() > 0);
        assert forall|i: int| 0 <= i < outer.len() implies (#[trigger] outer[i]).left() > 0 by {
            assert(outer[i] == before[i]);
        }
    }
    match top {
        Open::List { push, left, items } => {
            let ghost had = item_views(items@);
            let mut items = items;
            items.push(value);
            proof {
                assert(item_views(items@) =~= had.push(value@));
                lemma_into_list(
                    buf,
                    outer,
                    push,
                    left as nat,
                    had,
                    value@,
                    at,
                    blob_limit,
                    inline_limit,
                    eof,
                );
            }
            if left == 1 {
                if push {
                    Put::Up(RespValue::Push(items))
                } else {
                    Put::Up(RespValue::Array(items))
                }
            } else {
                pile.push(Open::List { push, left: left - 1, items });
                proof {
                    let less = OpenView::List {
                        push,
                        left: (left - 1) as nat,
                        items: had.push(value@),
                    };
                    assert(pile_views(pile@) =~= outer.push(less));
                }
                Put::Next
            }
        },
        Open::Members { left, members } => {
            let ghost had = members@;
            let mut members = members;
            proof {
                lemma_into_members(
                    buf,
                    outer,
                    left as nat,
                    had,
                    value@,
                    at,
                    blob_limit,
                    inline_limit,
                    eof,
                );
            }
            let member = match primitive(value) {
                Ok(member) => member,
                Err(error) => {
                    return Put::Fail(error);
                },
            };
            let ghost seen = member@;
            if !members.insert(member) {
                return Put::Fail(RespError::InvalidSet);
            }
            if left == 1 {
                Put::Up(RespValue::Members(members))
            } else {
                pile.push(Open::Members { left: left - 1, members });
                proof {
                    let less = OpenView::Members {
                        left: (left - 1) as nat,
                        members: had.insert(seen),
                    };
                    assert(pile_views(pile@) =~= outer.push(less));
                }
                Put::Next
            }
        },
        Open::Pairs { attribute, left, pairs, key: None } => {
            proof {
                lemma_into_pairs_key(
                    buf,
                    outer,
                    attribute,
                    left as nat,
                    pairs@,
                    value@,
                    at,
                    blob_limit,
                    inline_limit,
                    eof,
                );
            }
            let key = match primitive(value) {
                Ok(key) => key,
                Err(error) => {
                    return Put::Fail(error);
                },
            };
            let ghost keyed = OpenView::Pairs {
                attribute,
                left: left as nat,
                pairs: pairs@,
                key: Some(key@),
            };
            pile.push(Open::Pairs { attribute, left, pairs, key: Some(key) });
            assert(pile_views(pile@) =~= outer.push(keyed));
            Put::Next
        },
        Open::Pairs { attribute, left, pairs, key: Some(key) } => {
            let ghost had = pairs@;
            let ghost seen = key@;
            let ghost held = value@;
            let mut pairs = pairs;
            proof {
                lemma_into_pairs_value(
                    buf,
                    outer,
                    attribute,
                    left as nat,
                    had,
                    seen,
                    held,
                    at,
                    blob_limit,
                    inline_limit,
                    eof,
                );
            }
            if pairs.insert(key, value).is_some() {
                return Put::Fail(RespError::InvalidMap);
            }
            if left == 1 {
                if attribute {
                    Put::Up(RespValue::Attribute(pairs))
                } else {
                    Put::Up(RespValue::Mapping(pairs))
                }
            } else {
                pile.push(Open::Pairs { attribute, left: left - 1, pairs, key: None });
                proof {
                    let less = OpenView::Pairs {
                        attribute,
                        left: (left - 1) as nat,
                        pairs: had.insert(seen, held),
                        key: None,
                    };
                    assert(pile_views(pile@) =~= outer.push(less));
                }
                Put::Next
            }
        },
    }
}

/// Reads the value at `pos` of `buf`, the bytes that were received and not yet
/// consumed. `eof` says that the source has ended, so that no more bytes will
/// follow those of `buf`.
pub fn read_value(buf: &[u8], pos: usize, blob_limit: usize, inline_limit: usize, eof: bool) -> (scan:
    Scan<Option<RespValue>>)
    ensures
        scan.deep_view() == value_at(buf@, pos as nat, blob_limit, inline_limit, eof),
        pos <= buf.len() ==> scan.deep_view().within(pos as nat, buf@.len()),
        scan matches Scan::Done(Some(_), next) ==> pos < next,
{
    if pos >= buf.len() {
        return if eof {
            Scan::Done(None, pos)
        } else {
            Scan::More
        };
    }
    proof {
        lemma_value_within(buf@, pos as nat, blob_limit, inline_limit, eof);
    }
    let mut pile: Vec<Open> = Vec::new();
    let mut ready: Option<RespValue> = None;
    let mut at = pos;
    assert(pile_views(pile@) =~= Seq::<OpenView>::empty());
    loop
        invariant
            pos <= at <= buf.len(),
            all_lack(pile_views(pile@)),
            value_at(buf@, pos as nat, blob_limit, inline_limit, eof).within(
                pos as nat,
                buf@.len(),
            ),
            value_at(buf@, pos as nat, blob_limit, inline_limit, eof) matches Parsed::Done(
                Some(_),
                next,
            ) ==> pos < next,
            value_at(buf@, pos as nat, blob_limit, inline_limit, eof) == found(
                match ready {
                    Some(value) => settle(
                        buf@,
                        pile_views(pile@),
                        value@,
                        at as nat,
                        blob_limit,
                        inline_limit,
                        eof,
                    ),
                    None => ahead(
                        buf@,
                        pile_views(pile@),
                        at as nat,
                        blob_limit,
                        inline_limit,
                        eof,
                    ),
                },
            ),
        decreases
                buf.len() - at,
                match ready {
                    Some(_) => pile@.len() + 1,
                    None => 0,
                },
    {
        match ready {
            Some(value) => {
                if pile.len() == 0 {
                    return Scan::Done(Some(value), at);
                }
                match put(
                    &mut pile,
                    value,
                    Ghost(buf@),
                    Ghost(at as nat),
                    Ghost(blob_limit),
                    Ghost(inline_limit),
                    Ghost(eof),
                ) {
                    Put::Up(whole) => {
                        ready = Some(whole);
                    },
                    Put::Next => {
                        ready = None;
                    },
                    Put::Fail(error) => {
                        return Scan::Fail(error, at);
                    },
                }
            },
            None => {
                let (frame, next) = match read_frame(buf, at, blob_limit, inline_limit, eof) {
                    Scan::Done(Some(frame), next) => (frame, next),
                    Scan::Done(None, end) => {
                        return Scan::Fail(RespError::EndOfInput, end);
                    },
                    Scan::Fail(error, place) => {
                        return Scan::Fail(error, place);
                    },
                    Scan::More => {
                        return Scan::More;
                    },
                };
                proof {
                    lemma_frame_read(
                        buf@,
                        pile_views(pile@),
                        at as nat,
                        blob_limit,
                        inline_limit,
                        eof,
                    );
                }
                let ghost before = pile_views(pile@);
                let ghost head = frame@;
                ready = begin(&mut pile, frame);
                proof {
                    if announced(head) > 0 {
                        assert(opened(before, head).last().left() > 0);
                        assert forall|i: int| 0 <= i < pile_views(pile@).len() implies (
                        #[trigger] pile_views(pile@)[i]).left() > 0 by {
                            if i < before.len() {
                                assert(pile_views(pile@)[i] == before[i]);
                            }
                        }
                    }
                }
                at = next;
            },
        }
    }
}

} // verus!
