//! The protocol value model: binary-safe strings and the tagged union of
//! RESP protocol values, with their mathematical views.
use vstd::prelude::*;
use vstd::std_specs::vecdeque::VecDequeAdditionalSpecFns;
use std::collections::VecDeque;

verus! {

broadcast use vstd::std_specs::vecdeque::group_vec_dequeue_axioms;

/// An owned, arbitrary-length byte string. Not assumed to be valid text;
/// equality is byte-exact. Used for keys, stored values, and bulk-string
/// payloads.
#[derive(PartialEq, Eq, Hash, Debug)]
pub struct BulkString(pub Vec<u8>);

impl Clone for BulkString {
    /// An independent copy of the same bytes.
    fn clone(&self) -> (r: Self)
        ensures
            r@ == self@,
    {
        let n = self.0.len();
        let mut v: Vec<u8> = Vec::new();
        let mut i: usize = 0;
        while i < n
            invariant
                0 <= i <= n,
                n == self.0@.len(),
                v@ == self.0@.take(i as int),
            decreases n - i,
        {
            v.push(self.0[i]);
            proof {
                assert(self.0@.take(i + 1) =~= self.0@.take(i as int).push(self.0@[i as int]));
            }
            i = i + 1;
        }
        proof {
            assert(self.0@.take(n as int) =~= self.0@);
        }
        BulkString(v)
    }
}

impl View for BulkString {
    type V = Seq<u8>;

    open spec fn view(&self) -> Seq<u8> {
        self.0@
    }
}

impl BulkString {
    /// Moves the bytes of `other` onto the end of `self`, leaving `other`
    /// empty. Used by the APPEND command to accumulate without copying the
    /// whole history.
    pub fn append(&mut self, other: &mut BulkString)
        ensures
            final(self)@ == old(self)@ + old(other)@,
            final(other)@ == Seq::<u8>::empty(),
    {
        self.0.append(&mut other.0);
        proof {
            assert(other@ =~= Seq::<u8>::empty());
        }
    }
}

/// The mathematical model of a protocol value: the same tagged union with
/// every payload replaced by its abstract sequence.
pub enum SpecValue {
    Simple(Seq<char>),
    Error(Seq<char>, Option<Seq<char>>),
    Int(i64),
    Bulk(Seq<u8>),
    Arr(Seq<SpecValue>),
    Null,
}

/// A RESP protocol value: either a client request (arrays of bulk strings,
/// or what an inline command was tokenized into) or a server reply.
#[derive(Debug)]
pub enum RespValue {
    SimpleString(String),
    Error(String, Option<String>),
    Integer(i64),
    BulkString(BulkString),
    Array(VecDeque<RespValue>),
    Null,
}

/// The model of a protocol value: every payload replaced by its view, the
/// elements of an array modelled in order.
pub open spec fn val_model(v: RespValue) -> SpecValue
    decreases v,
{
    match v {
        RespValue::SimpleString(s) => SpecValue::Simple(s@),
        RespValue::Error(m, d) => SpecValue::Error(
            m@,
            match d {
                Option::Some(x) => Option::Some(x@),
                Option::None => Option::None,
            },
        ),
        RespValue::Integer(i) => SpecValue::Int(i),
        RespValue::BulkString(b) => SpecValue::Bulk(b@),
        RespValue::Array(a) => SpecValue::Arr(
            Seq::new(
                a@.len(),
                |i: int|
                    if 0 <= i < a@.len() {
                        val_model(a[i])
                    } else {
                        SpecValue::Null
                    },
            ),
        ),
        RespValue::Null => SpecValue::Null,
    }
}

impl View for RespValue {
    type V = SpecValue;

    open spec fn view(&self) -> SpecValue {
        val_model(*self)
    }
}

/// The model of a sequence of protocol values, elementwise.
pub open spec fn views_of(s: Seq<RespValue>) -> Seq<SpecValue> {
    Seq::new(s.len(), |i: int| s[i]@)
}

/// Byte strings wrapped as bulk-string values, in order.
pub open spec fn bulks_of(ks: Seq<Seq<u8>>) -> Seq<SpecValue> {
    Seq::new(ks.len(), |i: int| SpecValue::Bulk(ks[i]))
}

/// What the model of an array value is: its elements' models in order.
pub proof fn lemma_model_array(d: VecDeque<RespValue>)
    ensures
        val_model(RespValue::Array(d)) == SpecValue::Arr(views_of(d@)),
{
    let w = val_model(RespValue::Array(d));
    assert(w is Arr);
    let em = w->Arr_0;
    assert(em.len() == d@.len());
    assert forall|i: int| 0 <= i < em.len() implies em[i] == views_of(d@)[i] by {
        assert(em[i] == val_model(d@[i]));
    }
    assert(em =~= views_of(d@));
}

/// Relies on `String::from_utf8`: it succeeds exactly on valid UTF-8 input,
/// and then returns the character sequence whose UTF-8 encoding is that
/// input.
#[verifier::external_body]
pub(crate) fn bytes_to_string(b: &[u8]) -> (r: Option<String>)
    ensures
        r is Some <==> vstd::utf8::valid_utf8(b@),
        r is Some ==> vstd::utf8::encode_utf8(r.unwrap()@) == b@,
{
    String::from_utf8(b.to_vec()).ok()
}

impl RespValue {
    /// The text carried by a value, when it carries any: a simple string's
    /// own text, or a bulk string's bytes read as UTF-8.
    pub fn to_string(&self) -> (r: Option<String>)
        ensures
            match self {
                RespValue::SimpleString(s) => r is Some && r.unwrap()@ == s@,
                RespValue::BulkString(b) => {
                    &&& (r is Some <==> vstd::utf8::valid_utf8(b@))
                    &&& (r is Some ==> vstd::utf8::encode_utf8(r.unwrap()@) == b@)
                },
                _ => r is None,
            },
    {
        match self {
            RespValue::SimpleString(s) => Some(s.as_str().to_owned()),
            RespValue::BulkString(b) => bytes_to_string(b.0.as_slice()),
            _ => None,
        }
    }
}

} // verus!
