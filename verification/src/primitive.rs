//! The values that can be the key of a map or the member of a set, and their order.

use crate::octets::{bytes_as_slice, bytes_from_slice, contents};
use bytes::Bytes;
use vstd::prelude::*;
use vstd::std_specs::convert::FromSpecImpl;
use vstd::string::StringSliceAdditionalSpecFns;
use vstd::utf8::encode_utf8;

verus! {

/// A primitive value that can be used as the key of a map or the member of a set.
#[derive(Debug, Eq, Hash, Ord, PartialEq, PartialOrd)]
pub enum RespPrimitive {
    /// A signed integer.
    Integer(i64),
    /// The absent value.
    Nil,
    /// A string of any bytes.
    String(Bytes),
}

/// What a primitive holds.
pub enum PrimitiveView {
    Integer(i64),
    Nil,
    String(Seq<u8>),
}

impl View for RespPrimitive {
    type V = PrimitiveView;

    open spec fn view(&self) -> PrimitiveView {
        match self {
            RespPrimitive::Integer(value) => PrimitiveView::Integer(*value),
            RespPrimitive::Nil => PrimitiveView::Nil,
            RespPrimitive::String(bytes) => PrimitiveView::String(contents(*bytes)),
        }
    }
}

impl DeepView for RespPrimitive {
    type V = PrimitiveView;

    open spec fn deep_view(&self) -> PrimitiveView {
        self.view()
    }
}

/// Where one value stands with respect to another in an order.
#[derive(Clone, Copy, Debug, PartialEq, Eq, Structural)]
pub enum Place {
    /// The first comes before the second.
    Before,
    /// The two are the same.
    Same,
    /// The first comes after the second.
    After,
}

/// Whether `a` comes before `b` byte by byte: at the first place where they
/// differ `a` has the smaller byte, or `a` ends there and `b` does not.
pub open spec fn bytes_before(a: Seq<u8>, b: Seq<u8>) -> bool
    decreases a.len(),
{
    if b.len() == 0 {
        false
    } else if a.len() == 0 {
        true
    } else if a[0] != b[0] {
        a[0] < b[0]
    } else {
        bytes_before(a.skip(1), b.skip(1))
    }
}

/// Whether `a` comes before `b`: integers by their value come first, then nil,
/// then strings byte by byte.
pub open spec fn precedes(a: PrimitiveView, b: PrimitiveView) -> bool {
    match (a, b) {
        (PrimitiveView::Integer(x), PrimitiveView::Integer(y)) => x < y,
        (PrimitiveView::Integer(_), _) => true,
        (PrimitiveView::Nil, PrimitiveView::String(_)) => true,
        (PrimitiveView::String(x), PrimitiveView::String(y)) => bytes_before(x, y),
        _ => false,
    }
}

/// Of two byte strings exactly one comes before the other, unless they are the
/// same.
pub proof fn lemma_bytes_before_total(a: Seq<u8>, b: Seq<u8>)
    ensures
        a == b || bytes_before(a, b) || bytes_before(b, a),
        !(bytes_before(a, b) && bytes_before(b, a)),
        a == b ==> !bytes_before(a, b),
    decreases a.len(),
{
    if a.len() == 0 || b.len() == 0 {
        if a.len() == 0 && b.len() == 0 {
            assert(a =~= b);
        }
    } else if a[0] == b[0] {
        lemma_bytes_before_total(a.skip(1), b.skip(1));
        if a.skip(1) == b.skip(1) {
            assert(a =~= seq![a[0]] + a.skip(1));
            assert(b =~= seq![b[0]] + b.skip(1));
        }
    }
}

/// The order of byte strings is transitive.
pub proof fn lemma_bytes_before_transitive(a: Seq<u8>, b: Seq<u8>, c: Seq<u8>)
    requires
        bytes_before(a, b),
        bytes_before(b, c),
    ensures
        bytes_before(a, c),
    decreases a.len(),
{
    if a.len() > 0 && a[0] == b[0] && b[0] == c[0] {
        lemma_bytes_before_transitive(a.skip(1), b.skip(1), c.skip(1));
    }
}

/// Of two primitives exactly one comes before the other, unless they are the same.
pub proof fn lemma_precedes_total(a: PrimitiveView, b: PrimitiveView)
    ensures
        a == b || precedes(a, b) || precedes(b, a),
        !(precedes(a, b) && precedes(b, a)),
        a == b ==> !precedes(a, b),
{
    match (a, b) {
        (PrimitiveView::String(x), PrimitiveView::String(y)) => {
            lemma_bytes_before_total(x, y);
        },
        _ => {},
    }
}

/// The order of primitives is transitive.
pub proof fn lemma_precedes_transitive(a: PrimitiveView, b: PrimitiveView, c: PrimitiveView)
    requires
        precedes(a, b),
        precedes(b, c),
    ensures
        precedes(a, c),
{
    match (a, b, c) {
        (PrimitiveView::String(x), PrimitiveView::String(y), PrimitiveView::String(z)) => {
            lemma_bytes_before_transitive(x, y, z);
        },
        _ => {},
    }
}

/// Where `a` stands with respect to `b`, byte by byte.
pub fn place_bytes(a: &[u8], b: &[u8]) -> (place: Place)
    ensures
        place == Place::Before <==> bytes_before(a@, b@),
        place == Place::Same <==> a@ == b@,
        place == Place::After <==> bytes_before(b@, a@),
{
    proof {
        lemma_bytes_before_total(a@, b@);
    }
    let n = if a.len() < b.len() {
        a.len()
    } else {
        b.len()
    };
    let mut i: usize = 0;
    assert(a@.skip(0) =~= a@ && b@.skip(0) =~= b@);
    while i < n
        invariant
            i <= n,
            n <= a.len(),
            n <= b.len(),
            n == a.len() || n == b.len(),
            forall|j: int| 0 <= j < i ==> a@[j] == b@[j],
            bytes_before(a@, b@) == bytes_before(a@.skip(i as int), b@.skip(i as int)),
            bytes_before(b@, a@) == bytes_before(b@.skip(i as int), a@.skip(i as int)),
        decreases n - i,
    {
        proof {
            assert(a@.skip(i as int).skip(1) =~= a@.skip(i + 1));
            assert(b@.skip(i as int).skip(1) =~= b@.skip(i + 1));
        }
        if a[i] < b[i] {
            return Place::Before;
        }
        if a[i] > b[i] {
            return Place::After;
        }
        i += 1;
    }
    if a.len() < b.len() {
        Place::Before
    } else if a.len() > b.len() {
        Place::After
    } else {
        assert(a@ =~= b@);
        Place::Same
    }
}

impl RespPrimitive {
    /// Where this primitive stands with respect to `other`.
    pub fn place(&self, other: &RespPrimitive) -> (place: Place)
        ensures
            place == Place::Before <==> precedes(self@, other@),
            place == Place::Same <==> self@ == other@,
            place == Place::After <==> precedes(other@, self@),
    {
        proof {
            lemma_precedes_total(self@, other@);
        }
        match (self, other) {
            (RespPrimitive::Integer(x), RespPrimitive::Integer(y)) => {
                if *x < *y {
                    Place::Before
                } else if *x > *y {
                    Place::After
                } else {
                    Place::Same
                }
            },
            (RespPrimitive::Integer(_), _) => Place::Before,
            (RespPrimitive::Nil, RespPrimitive::Integer(_)) => Place::After,
            (RespPrimitive::Nil, RespPrimitive::Nil) => Place::Same,
            (RespPrimitive::Nil, RespPrimitive::String(_)) => Place::Before,
            (RespPrimitive::String(x), RespPrimitive::String(y)) => place_bytes(
                bytes_as_slice(x),
                bytes_as_slice(y),
            ),
            (RespPrimitive::String(_), _) => Place::After,
        }
    }
}

impl Clone for RespPrimitive {
    fn clone(&self) -> (copy: RespPrimitive)
        ensures
            copy@ == self@,
    {
        match self {
            RespPrimitive::Integer(value) => RespPrimitive::Integer(*value),
            RespPrimitive::Nil => RespPrimitive::Nil,
            RespPrimitive::String(bytes) => RespPrimitive::String(bytes.clone()),
        }
    }
}

impl From<i64> for RespPrimitive {
    fn from(value: i64) -> (primitive: RespPrimitive)
        ensures
            primitive@ == PrimitiveView::Integer(value),
    {
        RespPrimitive::Integer(value)
    }
}

impl FromSpecImpl<i64> for RespPrimitive {
    open spec fn obeys_from_spec() -> bool {
        true
    }

    open spec fn from_spec(value: i64) -> RespPrimitive {
        RespPrimitive::Integer(value)
    }
}

impl From<&'static str> for RespPrimitive {
    fn from(value: &'static str) -> (primitive: RespPrimitive)
        ensures
            primitive@ == PrimitiveView::String(value.spec_bytes()),
    {
        RespPrimitive::String(bytes_from_slice(value.as_bytes()))
    }
}

impl FromSpecImpl<&'static str> for RespPrimitive {
    open spec fn obeys_from_spec() -> bool {
        false
    }

    open spec fn from_spec(value: &'static str) -> RespPrimitive {
        RespPrimitive::Nil
    }
}

impl From<String> for RespPrimitive {
    fn from(value: String) -> (primitive: RespPrimitive)
        ensures
            primitive@ == PrimitiveView::String(encode_utf8(value@)),
    {
        RespPrimitive::String(bytes_from_slice(value.as_str().as_bytes()))
    }
}

impl FromSpecImpl<String> for RespPrimitive {
    open spec fn obeys_from_spec() -> bool {
        false
    }

    open spec fn from_spec(value: String) -> RespPrimitive {
        RespPrimitive::Nil
    }
}

} // verus!
