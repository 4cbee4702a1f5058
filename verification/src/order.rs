//! The order of the dictionary on texts.

use crate::chars::chars_of;
use vstd::prelude::*;

verus! {

/// How one text stands to another in the order of the dictionary.
#[derive(Debug, Clone, Copy, PartialEq, Eq, Structural)]
pub enum Order {
    Before,
    Same,
    After,
}

/// Whether `a` stands before `b` in the order of the dictionary: at the first
/// place where they differ `a` has the smaller character, or `a` ends there.
pub open spec fn text_before(a: Seq<char>, b: Seq<char>) -> bool
    decreases a.len(),
{
    if b.len() == 0 {
        false
    } else if a.len() == 0 {
        true
    } else if a[0] != b[0] {
        (a[0] as int) < (b[0] as int)
    } else {
        text_before(a.drop_first(), b.drop_first())
    }
}

/// How `a` stands to `b`.
pub open spec fn order_of(a: Seq<char>, b: Seq<char>) -> Order {
    if text_before(a, b) {
        Order::Before
    } else if a == b {
        Order::Same
    } else {
        Order::After
    }
}

/// Of two texts one stands before the other, or they are the same; and never
/// two of these at once.
pub proof fn lemma_order_is_total(a: Seq<char>, b: Seq<char>)
    ensures
        text_before(a, b) || a == b || text_before(b, a),
        !(text_before(a, b) && a == b),
        !(text_before(a, b) && text_before(b, a)),
    decreases a.len(),
{
    if a.len() > 0 && b.len() > 0 && a[0] == b[0] {
        lemma_order_is_total(a.drop_first(), b.drop_first());
        if a.drop_first() == b.drop_first() {
            assert(a =~= seq![a[0]] + a.drop_first());
            assert(b =~= seq![b[0]] + b.drop_first());
        }
    } else if a.len() == 0 && b.len() == 0 {
        assert(a =~= b);
    }
}

/// What stands before something that stands before a third stands before the
/// third.
pub proof fn lemma_order_is_transitive(a: Seq<char>, b: Seq<char>, c: Seq<char>)
    requires
        text_before(a, b),
        text_before(b, c),
    ensures
        text_before(a, c),
    decreases a.len(),
{
    if a.len() > 0 && b.len() > 0 && c.len() > 0 && a[0] == b[0] && b[0] == c[0] {
        lemma_order_is_transitive(a.drop_first(), b.drop_first(), c.drop_first());
    }
}

/// The texts stand in strictly ascending order.
pub open spec fn ascending(names: Seq<Seq<char>>) -> bool {
    forall|i: int, j: int|
        0 <= i < j < names.len() ==> text_before(#[trigger] names[i], #[trigger] names[j])
}

/// How many of the texts stand before `name`.
pub open spec fn count_before(names: Seq<Seq<char>>, name: Seq<char>) -> nat
    decreases names.len(),
{
    if names.len() > 0 && text_before(names[0], name) {
        1 + count_before(names.drop_first(), name)
    } else {
        0
    }
}

/// Ascending texts with `name` among them: in its place if it was missing, as
/// they were if it was there.
pub open spec fn with_name(names: Seq<Seq<char>>, name: Seq<char>) -> Seq<Seq<char>> {
    let place = count_before(names, name) as int;
    if place < names.len() && names[place] == name {
        names
    } else {
        names.insert(place, name)
    }
}

/// How the text `a` stands to the text `b`.
pub fn compare_texts(a: &str, b: &str) -> (order: Order)
    ensures
        order == order_of(a@, b@),
{
    let left = chars_of(a);
    let right = chars_of(b);
    let mut i: usize = 0;
    assert(a@.skip(0) =~= a@);
    assert(b@.skip(0) =~= b@);
    while i < left.len() && i < right.len()
        invariant
            left@ == a@,
            right@ == b@,
            i <= left.len(),
            i <= right.len(),
            order_of(a@, b@) == order_of(a@.skip(i as int), b@.skip(i as int)),
        decreases left.len() - i,
    {
        let ghost x = a@.skip(i as int);
        let ghost y = b@.skip(i as int);
        assert(x.drop_first() =~= a@.skip(i + 1));
        assert(y.drop_first() =~= b@.skip(i + 1));
        if left[i] != right[i] {
            return if left[i] < right[i] {
                Order::Before
            } else {
                Order::After
            };
        }
        proof {
            if x.drop_first() == y.drop_first() {
                assert(x =~= seq![x[0]] + x.drop_first());
                assert(y =~= seq![y[0]] + y.drop_first());
            }
        }
        i += 1;
    }
    let ghost x = a@.skip(i as int);
    let ghost y = b@.skip(i as int);
    if i < right.len() {
        assert(x.len() == 0);
        Order::Before
    } else if i < left.len() {
        assert(y.len() == 0);
        Order::After
    } else {
        assert(x =~= y);
        Order::Same
    }
}

} // verus!
