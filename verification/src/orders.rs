//! A sample query on a tree of orders: which orders hold an amount above
//! one hundred.
//!
//! An order is an element with an `id` attribute; its children hold amounts
//! as their text.

use vstd::prelude::*;
use crate::element::refs_view;
use crate::element::ElementView;
use crate::element::XMLElement;
use crate::lexer::LineBuffer;
use crate::query::path_segments;
use crate::query::query;
use crate::query::split_path;
use crate::tree::XMLTree;

verus! {

/// The amount above which an order is relevant.
pub const RELEVANT_ABOVE: i32 = 100;

/// Why the relevant orders could not be listed.
#[derive(Clone, Copy, Debug, PartialEq, Eq, Structural)]
pub enum OrderError {
    /// The tree has no root.
    EmptyTree,
    /// The path leads to no element.
    NoMatch,
    /// The text of a child of an order is not a number.
    NotANumber,
    /// A relevant order has no `id` attribute.
    MissingId,
}

/// An entry of the list of relevant orders as a mathematical value: the id
/// of the order, and the amount as it is written.
pub type EntryView = (Seq<char>, Seq<char>);

/// Whether `c` is a decimal digit.
pub open spec fn is_digit(c: char) -> bool {
    '0' <= c && c <= '9'
}

/// Whether `s` holds decimal digits only.
pub open spec fn all_digits(s: Seq<char>) -> bool {
    forall|i: int| 0 <= i < s.len() ==> is_digit(#[trigger] s[i])
}

/// The number that the decimal digits `s` stand for.
pub open spec fn decimal(s: Seq<char>) -> int
    decreases s.len(),
{
    if s.len() == 0 {
        0
    } else {
        decimal(s.drop_last()) * 10 + (s.last() as u32 - '0' as u32)
    }
}

/// The number written as `s`: an optional sign, `+` or `-`, and at least one
/// decimal digit, with nothing before, between or after. `None` if `s` is
/// not written so, or if the number does not fit in 32 bits.
pub open spec fn amount_of(s: Seq<char>) -> Option<i32> {
    let signed = s.len() > 0 && (s[0] == '-' || s[0] == '+');
    let digits = if signed {
        s.drop_first()
    } else {
        s
    };
    let value = if s.len() > 0 && s[0] == '-' {
        -decimal(digits)
    } else {
        decimal(digits)
    };
    if digits.len() > 0 && all_digits(digits) && i32::MIN <= value <= i32::MAX {
        Some(value as i32)
    } else {
        None
    }
}

/// The entries of the first `n` children of `order`, or the first error
/// among them. A child whose text is not a number is an error. A child with
/// an amount above one hundred yields an entry, and then `order` must have
/// an id.
pub open spec fn relevant_children(order: ElementView, n: nat) -> Result<
    Seq<EntryView>,
    OrderError,
>
    decreases n,
{
    if n == 0 || n > order.children.len() {
        Ok(Seq::empty())
    } else {
        match relevant_children(order, (n - 1) as nat) {
            Err(error) => Err(error),
            Ok(before) => {
                let child = order.children[n - 1];
                match amount_of(child.text) {
                    None => Err(OrderError::NotANumber),
                    Some(amount) => if amount > RELEVANT_ABOVE {
                        match order.prop("id"@) {
                            None => Err(OrderError::MissingId),
                            Some(id) => Ok(before.push((id.1, child.text))),
                        }
                    } else {
                        Ok(before)
                    },
                }
            },
        }
    }
}

/// The entries of the first `n` of `orders`, one order after the other, or
/// the first error among them.
pub open spec fn relevant_orders(orders: Seq<ElementView>, n: nat) -> Result<
    Seq<EntryView>,
    OrderError,
>
    decreases n,
{
    if n == 0 || n > orders.len() {
        Ok(Seq::empty())
    } else {
        match relevant_orders(orders, (n - 1) as nat) {
            Err(error) => Err(error),
            Ok(before) => match relevant_children(orders[n - 1], orders[n - 1].children.len()) {
                Err(error) => Err(error),
                Ok(entries) => Ok(before + entries),
            },
        }
    }
}

/// The mathematical values of a list of entries.
pub open spec fn entries_view(entries: Seq<(String, String)>) -> Seq<EntryView> {
    Seq::new(entries.len(), |i: int| (entries[i].0@, entries[i].1@))
}

/// Whether `listed` is the outcome `expected`.
pub open spec fn is_listing(
    expected: Result<Seq<EntryView>, OrderError>,
    listed: Result<Vec<(String, String)>, OrderError>,
) -> bool {
    match (expected, listed) {
        (Ok(entries), Ok(list)) => entries == entries_view(list@),
        (Err(expected_error), Err(error)) => expected_error == error,
        _ => false,
    }
}

/// Digits stand for a number that is not negative, and not less than the
/// number that fewer of them stand for.
pub proof fn lemma_decimal_grows(s: Seq<char>, k: int)
    requires
        all_digits(s),
        0 <= k <= s.len(),
    ensures
        0 <= decimal(s.take(k)) <= decimal(s),
    decreases s.len(),
{
    if s.len() == 0 {
        assert(s.take(k) =~= s);
    } else if k == s.len() {
        assert(s.take(k) =~= s);
        lemma_decimal_grows(s.drop_last(), s.len() - 1);
    } else {
        assert(s.drop_last().take(k) =~= s.take(k));
        lemma_decimal_grows(s.drop_last(), k);
    }
}

/// An error among the children of an order stays the outcome when more
/// children are looked at.
pub proof fn lemma_children_error_stays(order: ElementView, k: nat, n: nat)
    requires
        relevant_children(order, k) is Err,
        k <= n <= order.children.len(),
    ensures
        relevant_children(order, n) == relevant_children(order, k),
    decreases n,
{
    if k < n {
        lemma_children_error_stays(order, k, (n - 1) as nat);
    }
}

/// An error among orders stays the outcome when more orders are looked at.
pub proof fn lemma_orders_error_stays(orders: Seq<ElementView>, k: nat, n: nat)
    requires
        relevant_orders(orders, k) is Err,
        k <= n <= orders.len(),
    ensures
        relevant_orders(orders, n) == relevant_orders(orders, k),
    decreases n,
{
    if k < n {
        lemma_orders_error_stays(orders, k, (n - 1) as nat);
    }
}

/// Reads the number written as `text`.
pub fn parse_amount(text: &str) -> (amount: Option<i32>)
    ensures
        amount == amount_of(text@),
{
    let line = LineBuffer::new(text);
    let n = line.len();
    if n == 0 {
        return None;
    }
    let first = line.char_at(0);
    let negative = first == '-';
    let start: usize = if first == '-' || first == '+' {
        1
    } else {
        0
    };
    let ghost digits = text@.subrange(start as int, n as int);
    if start == n {
        return None;
    }
    let limit: i64 = 2147483648;
    let mut value: i64 = 0;
    let mut i: usize = start;
    while i < n
        invariant
            start <= i <= n,
            0 < n == text@.len(),
            line@ == text@,
            negative == (text@[0] == '-'),
            start == (if text@[0] == '-' || text@[0] == '+' {
                1int
            } else {
                0int
            }),
            digits == (if start == 1 {
                text@.drop_first()
            } else {
                text@
            }),
            digits.len() == n - start,
            limit == 2147483648,
            all_digits(digits.take(i - start)),
            value == decimal(digits.take(i - start)),
            0 <= value <= limit,
        decreases n - i,
    {
        let c = line.char_at(i);
        assert(digits.take(i + 1 - start).drop_last() =~= digits.take(i - start));
        if !('0' <= c && c <= '9') {
            return None;
        }
        let digit: i64 = (c as u32 - '0' as u32) as i64;
        value = value * 10 + digit;
        if value > limit {
            proof {
                if all_digits(digits) {
                    lemma_decimal_grows(digits, i + 1 - start);
                }
            }
            return None;
        }
        i = i + 1;
    }
    assert(digits.take(n - start) =~= digits);
    if negative {
        Some((-value) as i32)
    } else if value == limit {
        None
    } else {
        Some(value as i32)
    }
}

/// Lists the relevant entries of `orders`: for each order in turn, and for
/// each of its children in turn that holds an amount above one hundred, the
/// id of the order and the amount as it is written.
pub fn list_relevant(orders: &Vec<&XMLElement>) -> (listed: Result<
    Vec<(String, String)>,
    OrderError,
>)
    ensures
        is_listing(relevant_orders(refs_view(orders@), orders@.len()), listed),
{
    let mut relevant: Vec<(String, String)> = Vec::new();
    let ghost all = refs_view(orders@);
    let mut i: usize = 0;
    assert(entries_view(relevant@) =~= Seq::empty());
    while i < orders.len()
        invariant
            i <= orders.len(),
            all == refs_view(orders@),
            relevant_orders(all, i as nat) == Ok::<Seq<EntryView>, OrderError>(
                entries_view(relevant@),
            ),
        decreases orders.len() - i,
    {
        let order = orders[i];
        let ghost before = entries_view(relevant@);
        let children = order.get_children();
        let mut k: usize = 0;
        while k < children.len()
            invariant
                k <= children.len(),
                i < orders.len(),
                all == refs_view(orders@),
                order@ == all[i as int],
                refs_view(children@) == order@.children,
                relevant_orders(all, i as nat) == Ok::<Seq<EntryView>, OrderError>(before),
                match relevant_children(order@, k as nat) {
                    Ok(entries) => before + entries == entries_view(relevant@),
                    Err(_) => false,
                },
            decreases children.len() - k,
        {
            let child = children[k];
            let ghost found = relevant_children(order@, k as nat)->Ok_0;
            match parse_amount(child.get_inner_text().as_str()) {
                None => {
                    proof {
                        lemma_children_error_stays(
                            order@,
                            (k + 1) as nat,
                            order@.children.len(),
                        );
                        lemma_orders_error_stays(all, (i + 1) as nat, all.len());
                    }
                    return Err(OrderError::NotANumber);
                },
                Some(amount) => {
                    if amount > RELEVANT_ABOVE {
                        match order.get_prop("id".to_owned()) {
                            None => {
                                proof {
                                    lemma_children_error_stays(
                                        order@,
                                        (k + 1) as nat,
                                        order@.children.len(),
                                    );
                                    lemma_orders_error_stays(all, (i + 1) as nat, all.len());
                                }
                                return Err(OrderError::MissingId);
                            },
                            Some(id) => {
                                let entry = (id.1, child.get_inner_text().clone());
                                relevant.push(entry);
                                proof {
                                    let e = (entry.0@, entry.1@);
                                    assert((before + found).push(e) =~= before + found.push(e));
                                }
                            },
                        }
                    }
                },
            }
            k = k + 1;
        }
        i = i + 1;
    }
    Ok(relevant)
}

/// Lists the relevant entries of the orders of `tree`: the children of its
/// root.
pub fn get_relevant_orders_by_tree(tree: &XMLTree) -> (listed: Result<
    Vec<(String, String)>,
    OrderError,
>)
    ensures
        match tree@.root {
            Some(root) => is_listing(relevant_orders(root.children, root.children.len()), listed),
            None => listed == Err::<Vec<(String, String)>, OrderError>(OrderError::EmptyTree),
        },
{
    match tree.get_root() {
        Err(_) => Err(OrderError::EmptyTree),
        Ok(root) => {
            let orders = root.get_children();
            list_relevant(&orders)
        },
    }
}

/// Lists the relevant entries of the orders of `tree` that `path` leads
/// to. `path` is written with slashes, as in `/root/order`.
///
/// A path that leads to no element is an error, where a root without
/// children has an empty listing by the tree.
pub fn get_relevant_orders_by_path(tree: &XMLTree, path: String) -> (listed: Result<
    Vec<(String, String)>,
    OrderError,
>)
    ensures
        ({
            let orders = query(tree@, path_segments(path@, 0));
            if orders.len() == 0 {
                listed == Err::<Vec<(String, String)>, OrderError>(OrderError::NoMatch)
            } else {
                is_listing(relevant_orders(orders, orders.len()), listed)
            }
        }),
{
    let segments = split_path(path.as_str());
    match tree.get_elements_at_path(&segments) {
        None => Err(OrderError::NoMatch),
        Some(orders) => list_relevant(&orders),
    }
}

} // verus!
