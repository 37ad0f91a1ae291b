//! Values built from one or more frames.

use crate::octets::{bytes_as_slice, bytes_from_slice, contents};
use crate::primitive::{
    lemma_precedes_total, lemma_precedes_transitive, precedes, Place, PrimitiveView, RespPrimitive,
};
use bytes::Bytes;
use vstd::prelude::*;
use vstd::std_specs::convert::FromSpecImpl;
use vstd::string::StringSliceAdditionalSpecFns;
use vstd::utf8::{encode_utf8, valid_utf8};

verus! {

/// A map from primitives to values, with its keys in order.
#[derive(Debug, Eq, Hash, Ord, PartialEq, PartialOrd)]
pub struct RespMap {
    /// The pairs, each key before the next.
    entries: Vec<(RespPrimitive, RespValue)>,
}

/// A set of primitives, in order.
#[derive(Debug, Eq, Hash, Ord, PartialEq, PartialOrd)]
pub struct RespSet {
    /// The members, each before the next.
    members: Vec<RespPrimitive>,
}

/// A RESP value, possibly built from many frames.
///
/// These values are meant to be used for testing, and thus can be hashed and
/// compared. Comparing, cloning, printing and dropping a value goes as deep on
/// the call stack as the value is nested.
#[derive(Debug, Eq, Hash, Ord, PartialEq, PartialOrd)]
pub enum RespValue {
    /// Pairs of a key and a value that come with another value.
    Attribute(RespMap),
    /// Values in order.
    Array(Vec<RespValue>),
    /// The digits of a big number.
    Bignum(Bytes),
    /// A boolean.
    Boolean(bool),
    /// The text of a double.
    Double(Bytes),
    /// An error message.
    Error(Bytes),
    /// A signed integer.
    Integer(i64),
    /// Pairs of a key and a value.
    Mapping(RespMap),
    /// The absent value.
    Nil,
    /// Values in order that the peer sent unasked.
    Push(Vec<RespValue>),
    /// Primitives without repetition.
    Members(RespSet),
    /// A string of any bytes.
    String(Bytes),
    /// A format of three bytes and a string of any bytes.
    Verbatim(Bytes, Bytes),
}

/// What a value holds.
pub enum ValueView {
    Attribute(Map<PrimitiveView, ValueView>),
    Array(Seq<ValueView>),
    Bignum(Seq<u8>),
    Boolean(bool),
    Double(Seq<u8>),
    Error(Seq<u8>),
    Integer(i64),
    Mapping(Map<PrimitiveView, ValueView>),
    Nil,
    Push(Seq<ValueView>),
    Members(Set<PrimitiveView>),
    String(Seq<u8>),
    Verbatim(Seq<u8>, Seq<u8>),
}

/// What each of the primitives `members` holds.
pub open spec fn views(members: Seq<RespPrimitive>) -> Seq<PrimitiveView> {
    Seq::new(members.len(), |i: int| members[i]@)
}

/// Whether each of `keys` comes before the next.
pub open spec fn ascending(keys: Seq<PrimitiveView>) -> bool {
    forall|i: int, j: int| 0 <= i < j < keys.len() ==> precedes(keys[i], keys[j])
}

impl View for RespSet {
    type V = Set<PrimitiveView>;

    closed spec fn view(&self) -> Set<PrimitiveView> {
        views(self.members@).to_set()
    }
}

/// What the key of each of the pairs `entries` holds.
pub open spec fn keys(entries: Seq<(RespPrimitive, RespValue)>) -> Seq<PrimitiveView> {
    Seq::new(entries.len(), |i: int| entries[i].0@)
}

impl View for RespMap {
    type V = Map<PrimitiveView, ValueView>;

    closed spec fn view(&self) -> Map<PrimitiveView, ValueView>
        decreases self,
    {
        Map::new(
            |key: PrimitiveView| keys(self.entries@).contains(key),
            |key: PrimitiveView|
                {
                    let i = keys(self.entries@).index_of(key);
                    if 0 <= i < self.entries@.len() {
                        self.entries@[i].1.view()
                    } else {
                        ValueView::Nil
                    }
                },
        )
    }
}

/// What each of the values `items` holds.
pub open spec fn item_views(items: Seq<RespValue>) -> Seq<ValueView>
    decreases items,
{
    Seq::new(
        items.len(),
        |i: int|
            if 0 <= i < items.len() {
                items[i].view()
            } else {
                ValueView::Nil
            },
    )
}

impl View for RespValue {
    type V = ValueView;

    open spec fn view(&self) -> ValueView
        decreases self,
    {
        match self {
            RespValue::Attribute(pairs) => ValueView::Attribute(pairs.view()),
            RespValue::Array(items) => ValueView::Array(item_views(items@)),
            RespValue::Bignum(digits) => ValueView::Bignum(contents(*digits)),
            RespValue::Boolean(value) => ValueView::Boolean(*value),
            RespValue::Double(text) => ValueView::Double(contents(*text)),
            RespValue::Error(message) => ValueView::Error(contents(*message)),
            RespValue::Integer(value) => ValueView::Integer(*value),
            RespValue::Mapping(pairs) => ValueView::Mapping(pairs.view()),
            RespValue::Nil => ValueView::Nil,
            RespValue::Push(items) => ValueView::Push(item_views(items@)),
            RespValue::Members(members) => ValueView::Members(members.view()),
            RespValue::String(bytes) => ValueView::String(contents(*bytes)),
            RespValue::Verbatim(format, text) => ValueView::Verbatim(
                contents(*format),
                contents(*text),
            ),
        }
    }
}

/// No key occurs twice among keys of which each comes before the next.
proof fn lemma_ascending_distinct(keys: Seq<PrimitiveView>)
    requires
        ascending(keys),
    ensures
        keys.no_duplicates(),
{
    assert forall|i: int, j: int| 0 <= i < keys.len() && 0 <= j < keys.len() && i != j implies keys[i]
        != keys[j] by {
        lemma_precedes_total(keys[i], keys[j]);
    }
}

/// The place of `member` among `members`, of which each comes before the next:
/// the number of those that come before it, and whether it is among them.
fn locate(members: &Vec<RespPrimitive>, member: &RespPrimitive) -> (found: (usize, bool))
    requires
        ascending(views(members@)),
    ensures
        found.0 <= members@.len(),
        forall|i: int| 0 <= i < found.0 ==> precedes(#[trigger] members@[i]@, member@),
        forall|i: int| found.0 <= i < members@.len() ==> !precedes(#[trigger] members@[i]@, member@),
        found.1 == (found.0 < members@.len() && members@[found.0 as int]@ == member@),
        found.1 == views(members@).contains(member@),
{
    let ghost keys = views(members@);
    let mut low: usize = 0;
    let mut high: usize = members.len();
    while low < high
        invariant
            low <= high <= members@.len(),
            keys == views(members@),
            ascending(keys),
            forall|i: int| 0 <= i < low ==> precedes(#[trigger] members@[i]@, member@),
            forall|i: int| high <= i < members@.len() ==> !precedes(#[trigger] members@[i]@, member@),
        decreases high - low,
    {
        let middle = low + (high - low) / 2;
        match members[middle].place(member) {
            Place::Before => {
                assert forall|i: int| 0 <= i < middle + 1 implies precedes(
                    #[trigger] members@[i]@,
                    member@,
                ) by {
                    if i < middle {
                        assert(precedes(keys[i], keys[middle as int]));
                        lemma_precedes_transitive(keys[i], keys[middle as int], member@);
                    }
                }
                low = middle + 1;
            },
            _ => {
                assert forall|i: int| middle <= i < members@.len() implies !precedes(
                    #[trigger] members@[i]@,
                    member@,
                ) by {
                    lemma_precedes_total(keys[middle as int], member@);
                    if i > middle && precedes(keys[i], member@) {
                        assert(precedes(keys[middle as int], keys[i]));
                        lemma_precedes_transitive(keys[middle as int], keys[i], member@);
                    }
                }
                high = middle;
            },
        }
    }
    let here = low < members.len() && match members[low].place(member) {
        Place::Same => true,
        _ => false,
    };
    proof {
        if here {
            assert(keys[low as int] == member@);
        } else if keys.contains(member@) {
            let i = choose|i: int| 0 <= i < keys.len() && keys[i] == member@;
            lemma_precedes_total(keys[i], member@);
            if i > low {
                assert(precedes(keys[low as int], keys[i]));
                lemma_precedes_total(keys[low as int], member@);
            }
        }
    }
    (low, here)
}

impl RespSet {
    #[verifier::type_invariant]
    spec fn inv(&self) -> bool {
        ascending(views(self.members@))
    }

    /// A set without members.
    pub fn new() -> (set: Self)
        ensures
            set@ == Set::<PrimitiveView>::empty(),
    {
        let set = RespSet { members: Vec::new() };
        assert(set@ =~= Set::<PrimitiveView>::empty());
        set
    }

    /// The number of members.
    pub fn len(&self) -> (n: usize)
        ensures
            self@.finite(),
            n == self@.len(),
    {
        proof {
            use_type_invariant(self);
            lemma_ascending_distinct(views(self.members@));
            views(self.members@).unique_seq_to_set();
        }
        self.members.len()
    }

    /// Whether `member` is in the set.
    pub fn contains(&self, member: &RespPrimitive) -> (yes: bool)
        ensures
            yes == self@.contains(member@),
    {
        proof {
            use_type_invariant(self);
        }
        locate(&self.members, member).1
    }

    /// Puts `member` into the set, and says whether it was not in it before.
    pub fn insert(&mut self, member: RespPrimitive) -> (fresh: bool)
        ensures
            final(self)@ == old(self)@.insert(member@),
            fresh == !old(self)@.contains(member@),
    {
        proof {
            use_type_invariant(&*self);
        }
        let (at, here) = locate(&self.members, &member);
        if here {
            assert(self@ =~= old(self)@.insert(member@));
            return false;
        }
        let mut members: Vec<RespPrimitive> = Vec::new();
        core::mem::swap(&mut self.members, &mut members);
        let ghost before = views(members@);
        members.insert(at, member);
        proof {
            let after = views(members@);
            assert(after =~= before.insert(at as int, member@));
            assert forall|i: int, j: int| 0 <= i < j < after.len() implies precedes(
                after[i],
                after[j],
            ) by {
                if i == at {
                    assert(!precedes(before[j - 1], member@));
                    lemma_precedes_total(before[j - 1], member@);
                } else if j == at {
                } else {
                    let a = if i < at { i } else { i - 1 };
                    let b = if j < at { j } else { j - 1 };
                    assert(precedes(before[a], before[b]));
                }
            }
        }
        self.members = members;
        proof {
            let after = views(self.members@);
            assert forall|member_: PrimitiveView| #[trigger]
                after.contains(member_) <==> (before.contains(member_) || member_
                    == member@) by {
                if after.contains(member_) {
                    let i = choose|i: int| 0 <= i < after.len() && after[i] == member_;
                    if i < at {
                        assert(before[i] == member_);
                    } else if i > at {
                        assert(before[i - 1] == member_);
                    }
                }
                if before.contains(member_) {
                    let i = choose|i: int| 0 <= i < before.len() && before[i] == member_;
                    if i < at {
                        assert(after[i] == member_);
                    } else {
                        assert(after[i + 1] == member_);
                    }
                }
                if member_ == member@ {
                    assert(after[at as int] == member_);
                }
            }
            assert(self@ =~= old(self)@.insert(member@));
        }
        true
    }

    /// Takes the set apart into its members, in order.
    pub fn into_members(self) -> (members: Vec<RespPrimitive>)
        ensures
            views(members@).to_set() == self@,
            ascending(views(members@)),
    {
        proof {
            use_type_invariant(&self);
        }
        self.members
    }

    /// The members in order.
    pub fn members(&self) -> (members: &Vec<RespPrimitive>)
        ensures
            views(members@).to_set() == self@,
            ascending(views(members@)),
    {
        proof {
            use_type_invariant(self);
        }
        &self.members
    }
}

/// The place of `key` among the keys of `entries`, of which each comes before the
/// next: the number of those that come before it, and whether it is among them.
fn locate_key(entries: &Vec<(RespPrimitive, RespValue)>, key: &RespPrimitive) -> (found: (
    usize,
    bool,
))
    requires
        ascending(keys(entries@)),
    ensures
        found.0 <= entries@.len(),
        forall|i: int| 0 <= i < found.0 ==> precedes(#[trigger] entries@[i].0@, key@),
        forall|i: int| found.0 <= i < entries@.len() ==> !precedes(#[trigger] entries@[i].0@, key@),
        found.1 == (found.0 < entries@.len() && entries@[found.0 as int].0@ == key@),
        found.1 == keys(entries@).contains(key@),
{
    let ghost all = keys(entries@);
    let mut low: usize = 0;
    let mut high: usize = entries.len();
    while low < high
        invariant
            low <= high <= entries@.len(),
            all == keys(entries@),
            ascending(all),
            forall|i: int| 0 <= i < low ==> precedes(#[trigger] entries@[i].0@, key@),
            forall|i: int| high <= i < entries@.len() ==> !precedes(#[trigger] entries@[i].0@, key@),
        decreases high - low,
    {
        let middle = low + (high - low) / 2;
        match entries[middle].0.place(key) {
            Place::Before => {
                assert forall|i: int| 0 <= i < middle + 1 implies precedes(
                    #[trigger] entries@[i].0@,
                    key@,
                ) by {
                    if i < middle {
                        assert(precedes(all[i], all[middle as int]));
                        lemma_precedes_transitive(all[i], all[middle as int], key@);
                    }
                }
                low = middle + 1;
            },
            _ => {
                assert forall|i: int| middle <= i < entries@.len() implies !precedes(
                    #[trigger] entries@[i].0@,
                    key@,
                ) by {
                    lemma_precedes_total(all[middle as int], key@);
                    if i > middle && precedes(all[i], key@) {
                        assert(precedes(all[middle as int], all[i]));
                        lemma_precedes_transitive(all[middle as int], all[i], key@);
                    }
                }
                high = middle;
            },
        }
    }
    let here = low < entries.len() && match entries[low].0.place(key) {
        Place::Same => true,
        _ => false,
    };
    proof {
        if here {
            assert(all[low as int] == key@);
        } else if all.contains(key@) {
            let i = choose|i: int| 0 <= i < all.len() && all[i] == key@;
            lemma_precedes_total(all[i], key@);
            if i > low {
                assert(precedes(all[low as int], all[i]));
                lemma_precedes_total(all[low as int], key@);
            }
        }
    }
    (low, here)
}

impl RespMap {
    #[verifier::type_invariant]
    spec fn inv(&self) -> bool {
        ascending(keys(self.entries@))
    }

    /// The map holds each pair of its entries and no other key.
    proof fn lemma_pairs(&self)
        requires
            ascending(keys(self.entries@)),
        ensures
            self@.dom() == keys(self.entries@).to_set(),
            forall|i: int|
                0 <= i < self.entries@.len() ==> self@.contains_key(
                    #[trigger] self.entries@[i].0@,
                ) && self@[self.entries@[i].0@] == self.entries@[i].1@,
    {
        let all = keys(self.entries@);
        lemma_ascending_distinct(all);
        assert(self@.dom() =~= all.to_set());
        assert forall|i: int| 0 <= i < self.entries@.len() implies self@.contains_key(
            #[trigger] self.entries@[i].0@,
        ) && self@[self.entries@[i].0@] == self.entries@[i].1@ by {
            assert(all[i] == self.entries@[i].0@);
            assert(all.contains(all[i]));
            let j = all.index_of(all[i]);
            assert(all[j] == all[i]);
        }
    }

    /// A map without pairs.
    pub fn new() -> (map: Self)
        ensures
            map@ == Map::<PrimitiveView, ValueView>::empty(),
    {
        let map = RespMap { entries: Vec::new() };
        assert(map@ =~= Map::<PrimitiveView, ValueView>::empty());
        map
    }

    /// The number of pairs.
    pub fn len(&self) -> (n: usize)
        ensures
            self@.dom().finite(),
            n == self@.len(),
    {
        proof {
            use_type_invariant(self);
            self.lemma_pairs();
            lemma_ascending_distinct(keys(self.entries@));
            keys(self.entries@).unique_seq_to_set();
        }
        self.entries.len()
    }

    /// The value that `key` maps to, if it maps to one.
    pub fn get(&self, key: &RespPrimitive) -> (value: Option<&RespValue>)
        ensures
            match value {
                Some(found) => self@.contains_key(key@) && found@ == self@[key@],
                None => !self@.contains_key(key@),
            },
    {
        proof {
            use_type_invariant(self);
            self.lemma_pairs();
        }
        let (at, here) = locate_key(&self.entries, key);
        if here {
            Some(&self.entries[at].1)
        } else {
            None
        }
    }

    /// Maps `key` to `value`, and hands back the value that it mapped to before, if
    /// it mapped to one.
    pub fn insert(&mut self, key: RespPrimitive, value: RespValue) -> (previous: Option<RespValue>)
        ensures
            final(self)@ == old(self)@.insert(key@, value@),
            match previous {
                Some(replaced) => old(self)@.contains_key(key@) && replaced@ == old(self)@[key@],
                None => !old(self)@.contains_key(key@),
            },
    {
        proof {
            use_type_invariant(&*self);
            self.lemma_pairs();
        }
        let (at, here) = locate_key(&self.entries, &key);
        let mut entries: Vec<(RespPrimitive, RespValue)> = Vec::new();
        core::mem::swap(&mut self.entries, &mut entries);
        let ghost before = entries@;
        let ghost key_view = key@;
        let ghost value_view = value@;
        let previous = if here {
            let (_, replaced) = entries.remove(at);
            entries.insert(at, (key, value));
            Some(replaced)
        } else {
            entries.insert(at, (key, value));
            None
        };
        proof {
            let old_keys = keys(before);
            let new_keys = keys(entries@);
            if here {
                assert(new_keys =~= old_keys);
            } else {
                assert(new_keys =~= old_keys.insert(at as int, key_view));
                assert forall|i: int, j: int| 0 <= i < j < new_keys.len() implies precedes(
                    new_keys[i],
                    new_keys[j],
                ) by {
                    if i == at {
                        assert(!precedes(old_keys[j - 1], key_view));
                        lemma_precedes_total(old_keys[j - 1], key_view);
                    } else if j == at {
                    } else {
                        let a = if i < at {
                            i
                        } else {
                            i - 1
                        };
                        let b = if j < at {
                            j
                        } else {
                            j - 1
                        };
                        assert(precedes(old_keys[a], old_keys[b]));
                    }
                }
            }
        }
        self.entries = entries;
        proof {
            self.lemma_pairs();
            let old_keys = keys(before);
            let new_keys = keys(self.entries@);
            let wanted = old(self)@.insert(key_view, value_view);
            lemma_ascending_distinct(new_keys);
            lemma_ascending_distinct(old_keys);
            assert forall|k: PrimitiveView| #[trigger] self@.contains_key(k) <==> wanted.contains_key(
                k,
            ) by {
                if self@.contains_key(k) {
                    let i = choose|i: int| 0 <= i < new_keys.len() && new_keys[i] == k;
                    if !here {
                        if i < at {
                            assert(old_keys[i] == k);
                        } else if i > at {
                            assert(old_keys[i - 1] == k);
                        }
                    } else {
                        assert(old_keys[i] == k);
                    }
                }
                if wanted.contains_key(k) {
                    if k == key_view {
                        assert(new_keys[at as int] == k);
                    } else {
                        let i = choose|i: int| 0 <= i < old_keys.len() && old_keys[i] == k;
                        if here || i < at {
                            assert(new_keys[i] == k);
                        } else {
                            assert(new_keys[i + 1] == k);
                        }
                    }
                }
            }
            assert forall|k: PrimitiveView| #[trigger] self@.contains_key(k) implies self@[k]
                == wanted[k] by {
                let i = choose|i: int| 0 <= i < new_keys.len() && new_keys[i] == k;
                assert(self.entries@[i].0@ == k);
                assert(self@[k] == self.entries@[i].1@);
                assert(new_keys[at as int] == key_view);
                if i == at {
                    assert(self.entries@[i].1@ == value_view);
                } else {
                    assert(k != key_view);
                    let j = if here || i < at {
                        i
                    } else {
                        i - 1
                    };
                    assert(before[j] == self.entries@[i]);
                    assert(before[j].0@ == k);
                    assert(old(self)@[before[j].0@] == before[j].1@);
                }
            }
            assert(self@ =~= wanted);
        }
        previous
    }

    /// Takes the map apart into its pairs, in the order of their keys.
    pub fn into_entries(self) -> (entries: Vec<(RespPrimitive, RespValue)>)
        ensures
            keys(entries@).to_set() == self@.dom(),
            ascending(keys(entries@)),
            forall|i: int|
                0 <= i < entries@.len() ==> self@[#[trigger] entries@[i].0@] == entries@[i].1@,
    {
        proof {
            use_type_invariant(&self);
            self.lemma_pairs();
        }
        self.entries
    }

    /// The pairs, in the order of their keys.
    pub fn entries(&self) -> (entries: &Vec<(RespPrimitive, RespValue)>)
        ensures
            keys(entries@).to_set() == self@.dom(),
            ascending(keys(entries@)),
            forall|i: int|
                0 <= i < entries@.len() ==> self@[#[trigger] entries@[i].0@] == entries@[i].1@,
    {
        proof {
            use_type_invariant(self);
            self.lemma_pairs();
        }
        &self.entries
    }
}

/// `std::str::from_utf8`: `bytes` as text, where they are valid UTF-8.
#[verifier::external_body]
fn utf8(bytes: &[u8]) -> (text: Option<&str>)
    ensures
        match text {
            Some(valid) => valid_utf8(bytes@) && valid.spec_bytes() == bytes@,
            None => !valid_utf8(bytes@),
        },
{
    std::str::from_utf8(bytes).ok()
}

impl RespValue {
    /// Extract a [`Vec`] of values, if this value is an array.
    pub fn array(&mut self) -> (items: Option<&mut Vec<RespValue>>)
        ensures
            match items {
                Some(found) => *old(self) is Array && *found == (*old(self))->Array_0
                    && *final(self) == RespValue::Array(*final(found)),
                None => !(*old(self) is Array) && *final(self) == *old(self),
            },
    {
        if let RespValue::Array(value) = self {
            Some(value)
        } else {
            None
        }
    }

    /// The bytes of the message, if this value is an error.
    pub open spec fn error_bytes(self) -> Option<Seq<u8>> {
        match self@ {
            ValueView::Error(message) => Some(message),
            _ => None,
        }
    }

    /// The bytes of the text, if this value is a string or a verbatim string.
    pub open spec fn text_bytes(self) -> Option<Seq<u8>> {
        match self@ {
            ValueView::String(text) => Some(text),
            ValueView::Verbatim(_, text) => Some(text),
            _ => None,
        }
    }

    /// Extract an error message if this value is an error, and the message is
    /// valid UTF-8.
    pub fn error(&self) -> (message: Option<&str>)
        ensures
            match message {
                Some(text) => self.error_bytes() == Some(text.spec_bytes()) && valid_utf8(
                    text.spec_bytes(),
                ),
                None => match self.error_bytes() {
                    Some(bytes) => !valid_utf8(bytes),
                    None => true,
                },
            },
    {
        if let RespValue::Error(value) = self {
            utf8(bytes_as_slice(value))
        } else {
            None
        }
    }

    /// Extract an [`i64`] if this value is an integer.
    pub fn integer(&self) -> (number: Option<i64>)
        ensures
            match number {
                Some(value) => self@ == ValueView::Integer(value),
                None => !(self@ is Integer),
            },
    {
        if let RespValue::Integer(i) = self {
            Some(*i)
        } else {
            None
        }
    }

    /// Extract the text value of this value if it has one, and the text is valid
    /// UTF-8.
    pub fn text(&self) -> (found: Option<&str>)
        ensures
            match found {
                Some(text) => self.text_bytes() == Some(text.spec_bytes()) && valid_utf8(
                    text.spec_bytes(),
                ),
                None => match self.text_bytes() {
                    Some(bytes) => !valid_utf8(bytes),
                    None => true,
                },
            },
    {
        match self {
            RespValue::String(text) => utf8(bytes_as_slice(text)),
            RespValue::Verbatim(_, text) => utf8(bytes_as_slice(text)),
            _ => None,
        }
    }
}

impl From<bool> for RespValue {
    fn from(value: bool) -> (converted: RespValue)
        ensures
            converted@ == ValueView::Boolean(value),
    {
        RespValue::Boolean(value)
    }
}

impl FromSpecImpl<bool> for RespValue {
    open spec fn obeys_from_spec() -> bool {
        true
    }

    open spec fn from_spec(value: bool) -> RespValue {
        RespValue::Boolean(value)
    }
}

impl From<i32> for RespValue {
    fn from(value: i32) -> (converted: RespValue)
        ensures
            converted@ == ValueView::Integer(value as i64),
    {
        RespValue::Integer(value as i64)
    }
}

impl FromSpecImpl<i32> for RespValue {
    open spec fn obeys_from_spec() -> bool {
        true
    }

    open spec fn from_spec(value: i32) -> RespValue {
        RespValue::Integer(value as i64)
    }
}

impl From<i64> for RespValue {
    fn from(value: i64) -> (converted: RespValue)
        ensures
            converted@ == ValueView::Integer(value),
    {
        RespValue::Integer(value)
    }
}

impl FromSpecImpl<i64> for RespValue {
    open spec fn obeys_from_spec() -> bool {
        true
    }

    open spec fn from_spec(value: i64) -> RespValue {
        RespValue::Integer(value)
    }
}

impl From<String> for RespValue {
    fn from(value: String) -> (converted: RespValue)
        ensures
            converted@ == ValueView::String(encode_utf8(value@)),
    {
        RespValue::String(bytes_from_slice(value.as_str().as_bytes()))
    }
}

impl FromSpecImpl<String> for RespValue {
    open spec fn obeys_from_spec() -> bool {
        false
    }

    open spec fn from_spec(value: String) -> RespValue {
        RespValue::Nil
    }
}

impl From<&'static str> for RespValue {
    fn from(value: &'static str) -> (converted: RespValue)
        ensures
            converted@ == ValueView::String(value.spec_bytes()),
    {
        RespValue::String(bytes_from_slice(value.as_bytes()))
    }
}

impl FromSpecImpl<&'static str> for RespValue {
    open spec fn obeys_from_spec() -> bool {
        false
    }

    open spec fn from_spec(value: &'static str) -> RespValue {
        RespValue::Nil
    }
}

impl<const N: usize> From<&'static [u8; N]> for RespValue {
    fn from(value: &'static [u8; N]) -> (converted: RespValue)
        ensures
            converted@ == ValueView::String(value@),
    {
        RespValue::String(bytes_from_slice(value.as_slice()))
    }
}

impl<const N: usize> FromSpecImpl<&'static [u8; N]> for RespValue {
    open spec fn obeys_from_spec() -> bool {
        false
    }

    open spec fn from_spec(value: &'static [u8; N]) -> RespValue {
        RespValue::Nil
    }
}

impl From<Vec<u8>> for RespValue {
    fn from(value: Vec<u8>) -> (converted: RespValue)
        ensures
            converted@ == ValueView::String(value@),
    {
        RespValue::String(bytes_from_slice(value.as_slice()))
    }
}

impl FromSpecImpl<Vec<u8>> for RespValue {
    open spec fn obeys_from_spec() -> bool {
        false
    }

    open spec fn from_spec(value: Vec<u8>) -> RespValue {
        RespValue::Nil
    }
}

impl Clone for RespSet {
    fn clone(&self) -> (copy: RespSet)
        ensures
            copy@ == self@,
    {
        proof {
            use_type_invariant(self);
        }
        let mut members: Vec<RespPrimitive> = Vec::new();
        let mut i: usize = 0;
        while i < self.members.len()
            invariant
                i <= self.members@.len(),
                members@.len() == i,
                forall|j: int| 0 <= j < i ==> members@[j]@ == self.members@[j]@,
            decreases self.members@.len() - i,
        {
            members.push(self.members[i].clone());
            i += 1;
        }
        assert(views(members@) =~= views(self.members@));
        RespSet { members }
    }
}

impl Clone for RespMap {
    fn clone(&self) -> (copy: RespMap)
        ensures
            copy@ == self@,
        decreases self,
    {
        proof {
            use_type_invariant(self);
        }
        let mut entries: Vec<(RespPrimitive, RespValue)> = Vec::new();
        let mut i: usize = 0;
        while i < self.entries.len()
            invariant
                i <= self.entries@.len(),
                entries@.len() == i,
                forall|j: int|
                    0 <= j < i ==> entries@[j].0@ == self.entries@[j].0@ && entries@[j].1@
                        == self.entries@[j].1@,
            decreases self.entries@.len() - i,
        {
            proof {
                assert(decreases_to!(self => self.entries));
                assert(decreases_to!(self.entries => self.entries[i as int]));
                assert(decreases_to!(self.entries[i as int] => self.entries[i as int].1));
            }
            let key = self.entries[i].0.clone();
            let value = self.entries[i].1.clone();
            entries.push((key, value));
            i += 1;
        }
        assert(keys(entries@) =~= keys(self.entries@));
        let copy = RespMap { entries };
        proof {
            self.lemma_pairs();
            copy.lemma_pairs();
            assert forall|key: PrimitiveView| #[trigger] copy@.contains_key(key) implies copy@[key]
                == self@[key] by {
                let j = choose|j: int| 0 <= j < keys(entries@).len() && keys(entries@)[j] == key;
                assert(copy.entries@[j].0@ == key);
                assert(self.entries@[j].0@ == key);
            }
            assert(copy@ =~= self@);
        }
        copy
    }
}

/// A copy of each of the values `items`.
fn clone_items(items: &Vec<RespValue>) -> (copy: Vec<RespValue>)
    ensures
        item_views(copy@) == item_views(items@),
    decreases items,
{
    let mut copy: Vec<RespValue> = Vec::new();
    let mut i: usize = 0;
    while i < items.len()
        invariant
            i <= items@.len(),
            copy@.len() == i,
            forall|j: int| 0 <= j < i ==> copy@[j]@ == items@[j]@,
        decreases items@.len() - i,
    {
        proof {
            assert(decreases_to!(items => items[i as int]));
        }
        copy.push(items[i].clone());
        i += 1;
    }
    assert(item_views(copy@) =~= item_views(items@));
    copy
}

impl Clone for RespValue {
    fn clone(&self) -> (copy: RespValue)
        ensures
            copy@ == self@,
        decreases self,
    {
        match self {
            RespValue::Attribute(pairs) => RespValue::Attribute(pairs.clone()),
            RespValue::Array(items) => RespValue::Array(clone_items(items)),
            RespValue::Bignum(digits) => RespValue::Bignum(digits.clone()),
            RespValue::Boolean(value) => RespValue::Boolean(*value),
            RespValue::Double(text) => RespValue::Double(text.clone()),
            RespValue::Error(message) => RespValue::Error(message.clone()),
            RespValue::Integer(value) => RespValue::Integer(*value),
            RespValue::Mapping(pairs) => RespValue::Mapping(pairs.clone()),
            RespValue::Nil => RespValue::Nil,
            RespValue::Push(items) => RespValue::Push(clone_items(items)),
            RespValue::Members(members) => RespValue::Members(members.clone()),
            RespValue::String(bytes) => RespValue::String(bytes.clone()),
            RespValue::Verbatim(format, text) => RespValue::Verbatim(format.clone(), text.clone()),
        }
    }
}

} // verus!
