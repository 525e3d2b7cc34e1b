//! A customer, compared and ordered by the number of purchases alone.

use crate::text::{decimal, push_decimal};
use std::cmp::Ordering;
use vstd::prelude::*;
use vstd::std_specs::cmp::{PartialEqSpecImpl, PartialOrdSpecImpl};
use vstd::string::StringExecFns;

verus! {

/// A customer with an identifier and a number of purchases.
#[derive(Debug)]
pub struct Customer {
    pub id: String,
    pub num_purchases: i32,
}

/// A customer as text: the identifier and the number of purchases, in
/// parentheses.
pub open spec fn customer_text(c: Customer) -> Seq<char> {
    seq!['('] + c.id@ + seq![',', ' '] + decimal(c.num_purchases as int) + seq![')']
}

impl Customer {
    /// The customer as text, such as `(C7, 12)`.
    pub fn to_text(&self) -> (text: String)
        ensures
            text@ == customer_text(*self),
    {
        proof {
            reveal_strlit("(");
            reveal_strlit(", ");
            reveal_strlit(")");
        }
        let mut text = String::new();
        text.append("(");
        text.append(self.id.as_str());
        text.append(", ");
        push_decimal(&mut text, self.num_purchases as i64);
        text.append(")");
        assert(text@ =~= customer_text(*self));
        text
    }
}

impl Clone for Customer {
    fn clone(&self) -> (res: Self)
        ensures
            res == *self,
    {
        Customer { id: self.id.clone(), num_purchases: self.num_purchases }
    }
}

impl Default for Customer {
    fn default() -> (res: Self)
        ensures
            res.id@ == Seq::<char>::empty(),
            res.num_purchases == 0,
    {
        Customer { id: String::new(), num_purchases: 0 }
    }
}

impl PartialEq for Customer {
    fn eq(&self, other: &Self) -> (res: bool) {
        self.num_purchases == other.num_purchases
    }
}

impl PartialEqSpecImpl for Customer {
    open spec fn obeys_eq_spec() -> bool {
        true
    }

    open spec fn eq_spec(&self, other: &Self) -> bool {
        self.num_purchases == other.num_purchases
    }
}

impl PartialOrd for Customer {
    fn partial_cmp(&self, other: &Self) -> (res: Option<Ordering>) {
        if self.num_purchases < other.num_purchases {
            Some(Ordering::Less)
        } else if self.num_purchases > other.num_purchases {
            Some(Ordering::Greater)
        } else {
            Some(Ordering::Equal)
        }
    }
}

impl PartialOrdSpecImpl for Customer {
    open spec fn obeys_partial_cmp_spec() -> bool {
        true
    }

    open spec fn partial_cmp_spec(&self, other: &Self) -> Option<Ordering> {
        if self.num_purchases < other.num_purchases {
            Some(Ordering::Less)
        } else if self.num_purchases > other.num_purchases {
            Some(Ordering::Greater)
        } else {
            Some(Ordering::Equal)
        }
    }
}

/// The first `n` customers of `s` as text, a space before each.
pub open spec fn customers_joined(s: Seq<Customer>, n: int) -> Seq<char>
    decreases n,
{
    if n <= 0 {
        Seq::empty()
    } else {
        customers_joined(s, n - 1) + seq![' '] + customer_text(s[n - 1])
    }
}

/// At most `limit` customers from the front of `s` as a list in brackets.
pub open spec fn customer_list_text(s: Seq<Customer>, limit: int) -> Seq<char> {
    seq!['['] + customers_joined(
        s,
        if s.len() > limit {
            limit
        } else {
            s.len() as int
        },
    ) + seq![']']
}

/// At most `num_items` customers from the front of `vec` as text: in
/// brackets, a space before each.
pub fn customers_text(vec: &[Customer], num_items: usize) -> (text: String)
    ensures
        text@ == customer_list_text(vec@, num_items as int),
{
    proof {
        reveal_strlit("[");
        reveal_strlit(" ");
        reveal_strlit("]");
    }
    let mut max: usize = vec.len();
    if max > num_items {
        max = num_items;
    }
    let mut text = String::new();
    text.append("[");
    let mut i: usize = 0;
    assert(text@ =~= seq!['['] + customers_joined(vec@, 0));
    while i < max
        invariant
            i <= max <= vec@.len(),
            " "@ == seq![' '],
            text@ == seq!['['] + customers_joined(vec@, i as int),
        decreases max - i,
    {
        text.append(" ");
        let item = vec[i].to_text();
        text.append(item.as_str());
        i += 1;
        assert(text@ =~= seq!['['] + customers_joined(vec@, i as int));
    }
    text.append("]");
    assert(text@ =~= customer_list_text(vec@, num_items as int));
    text
}

} // verus!
