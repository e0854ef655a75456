//! Results of operations on floating point numbers, which are computed outside of the library.

use vstd::prelude::*;

use crate::expr_eval::{Arithmetic, NumericValue};

verus! {

/// How two floats are ordered.
#[derive(Clone, Copy, Debug, PartialEq, Eq, Structural)]
pub enum FloatOrder {
    Less,
    Equal,
    Greater,
    /// One of them is no number.
    Unordered,
}

/// An operation on two numbers of which one is a float; the other is taken as a float too.
#[derive(Clone, Copy, Debug, PartialEq, Eq, Structural)]
pub enum FloatCall {
    /// Arithmetic.
    Compute(Arithmetic, NumericValue, NumericValue),
    /// How the numbers are ordered.
    Order(NumericValue, NumericValue),
}

/// What operations on floats give, by the bits of the floats.
pub struct FloatMath {
    pub numbers: Map<FloatCall, u64>,
    pub orders: Map<FloatCall, FloatOrder>,
}

impl FloatMath {
    /// No operation has a result.
    pub open spec fn none() -> FloatMath {
        FloatMath { numbers: Map::empty(), orders: Map::empty() }
    }

    /// An operation has a result.
    pub open spec fn answers(self, call: FloatCall) -> bool {
        match call {
            FloatCall::Compute(_, _, _) => self.numbers.dom().contains(call),
            FloatCall::Order(_, _) => self.orders.dom().contains(call),
        }
    }

    /// Every operation has a result.
    pub open spec fn is_total(self) -> bool {
        forall|call: FloatCall| #[trigger] self.answers(call)
    }

    /// What has a result here has the same one there.
    pub open spec fn within(self, more: FloatMath) -> bool {
        &&& forall|call: FloatCall| #[trigger]
            self.numbers.dom().contains(call) ==> more.numbers.dom().contains(call)
                && more.numbers[call] == self.numbers[call]
        &&& forall|call: FloatCall| #[trigger]
            self.orders.dom().contains(call) ==> more.orders.dom().contains(call)
                && more.orders[call] == self.orders[call]
    }
}

/// A float is zero, of either sign.
pub open spec fn is_zero_float(bits: u64) -> bool {
    bits == 0 || bits == 0x8000_0000_0000_0000
}

/// A float with the other sign.
pub open spec fn negated_float(bits: u64) -> u64 {
    if bits >= 0x8000_0000_0000_0000 {
        (bits - 0x8000_0000_0000_0000) as u64
    } else {
        (bits + 0x8000_0000_0000_0000) as u64
    }
}

/// A float with the other sign.
pub(crate) fn negate_float(bits: u64) -> (negated: u64)
    ensures
        negated == negated_float(bits),
{
    if bits >= 0x8000_0000_0000_0000 {
        bits - 0x8000_0000_0000_0000
    } else {
        bits + 0x8000_0000_0000_0000
    }
}

/// Results by their operations; a later one stands for an earlier one of the same operation.
pub open spec fn by_call<T>(entries: Seq<(FloatCall, T)>) -> Map<FloatCall, T>
    decreases entries.len(),
{
    if entries.len() == 0 {
        Map::empty()
    } else {
        by_call(entries.drop_last()).insert(entries.last().0, entries.last().1)
    }
}

/// The result of an operation among the first `n` is that among all, where no later one is of it.
proof fn lemma_by_call<T>(entries: Seq<(FloatCall, T)>, call: FloatCall, n: int)
    requires
        0 <= n <= entries.len(),
        forall|i: int| n <= i < entries.len() ==> (#[trigger] entries[i]).0 != call,
    ensures
        by_call(entries).dom().contains(call) == by_call(entries.take(n)).dom().contains(call),
        by_call(entries).dom().contains(call) ==> by_call(entries)[call] == by_call(
            entries.take(n),
        )[call],
    decreases entries.len(),
{
    if n == entries.len() {
        assert(entries.take(n) =~= entries);
    } else {
        let front = entries.drop_last();
        assert forall|i: int| n <= i < front.len() implies (#[trigger] front[i]).0 != call by {
            assert(entries[i].0 != call);
        }
        lemma_by_call(front, call, n);
        assert(front.take(n) =~= entries.take(n));
        assert(entries[entries.len() - 1].0 != call);
    }
}

/// The position of the last result of an operation.
fn last_of<T>(entries: &Vec<(FloatCall, T)>, call: FloatCall) -> (at: Option<usize>)
    ensures
        match at {
            Some(i) => {
                &&& i < entries@.len()
                &&& by_call(entries@).dom().contains(call)
                &&& by_call(entries@)[call] == entries@[i as int].1
            },
            None => !by_call(entries@).dom().contains(call),
        },
{
    let mut i: usize = entries.len();
    while i > 0
        invariant
            i <= entries@.len(),
            forall|j: int| i <= j < entries@.len() ==> (#[trigger] entries@[j]).0 != call,
        decreases i,
    {
        i = i - 1;
        if entries[i].0 == call {
            proof {
                let upto = entries@.take(i + 1);
                lemma_by_call(entries@, call, i + 1);
                assert(upto.last() == entries@[i as int]);
            }
            return Some(i);
        }
    }
    proof {
        lemma_by_call(entries@, call, 0);
        assert(entries@.take(0) =~= Seq::empty());
    }
    None
}

/// The results that were computed so far.
#[derive(Debug)]
pub struct FloatResults {
    numbers: Vec<(FloatCall, u64)>,
    orders: Vec<(FloatCall, FloatOrder)>,
}

impl View for FloatResults {
    type V = FloatMath;

    closed spec fn view(&self) -> FloatMath {
        FloatMath { numbers: by_call(self.numbers@), orders: by_call(self.orders@) }
    }
}

impl FloatResults {
    /// Nothing was computed.
    pub fn new() -> (results: Self)
        ensures
            results@ == FloatMath::none(),
    {
        let results = FloatResults { numbers: Vec::new(), orders: Vec::new() };
        assert(by_call(results.numbers@) =~= Map::<FloatCall, u64>::empty());
        assert(by_call(results.orders@) =~= Map::<FloatCall, FloatOrder>::empty());
        results
    }

    /// Notes the bits that an operation gave.
    pub fn note_number(&mut self, call: FloatCall, bits: u64)
        ensures
            final(self)@ == (FloatMath {
                numbers: old(self)@.numbers.insert(call, bits),
                ..old(self)@
            }),
    {
        let ghost before = self.numbers@;
        self.numbers.push((call, bits));
        assert(self.numbers@.drop_last() =~= before);
    }

    /// Notes how an operation found two numbers to be ordered.
    pub fn note_order(&mut self, call: FloatCall, order: FloatOrder)
        ensures
            final(self)@ == (FloatMath {
                orders: old(self)@.orders.insert(call, order),
                ..old(self)@
            }),
    {
        let ghost before = self.orders@;
        self.orders.push((call, order));
        assert(self.orders@.drop_last() =~= before);
    }

    /// The bits that an operation gave.
    pub fn number_of(&self, call: FloatCall) -> (bits: Option<u64>)
        ensures
            match bits {
                Some(found) => self@.numbers.dom().contains(call) && self@.numbers[call] == found,
                None => !self@.numbers.dom().contains(call),
            },
    {
        match last_of(&self.numbers, call) {
            Some(at) => Some(self.numbers[at].1),
            None => None,
        }
    }

    /// How an operation found two numbers to be ordered.
    pub fn order_of(&self, call: FloatCall) -> (order: Option<FloatOrder>)
        ensures
            match order {
                Some(found) => self@.orders.dom().contains(call) && self@.orders[call] == found,
                None => !self@.orders.dom().contains(call),
            },
    {
        match last_of(&self.orders, call) {
            Some(at) => Some(self.orders[at].1),
            None => None,
        }
    }
}

/// Negating a float turns its sign and nothing else, and negating it again gives it back; the
/// floats that are zero are those without any bit but the sign.
pub proof fn law_negation_turns_the_sign(bits: u64)
    ensures
        negated_float(negated_float(bits)) == bits,
        negated_float(bits) % 0x8000_0000_0000_0000 == bits % 0x8000_0000_0000_0000,
        negated_float(bits) != bits,
        is_zero_float(bits) <==> bits % 0x8000_0000_0000_0000 == 0,
        is_zero_float(negated_float(bits)) == is_zero_float(bits),
{
}

} // verus!
