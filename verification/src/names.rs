//! The order of directory names, and sorting by it.

use vstd::prelude::*;
use vstd::std_specs::iter::IteratorSpec;

verus! {

/// Whether `a` comes strictly before `b` when both are compared from
/// position `i` on, code point by code point; a proper prefix comes first.
pub open spec fn precedes_from(a: Seq<char>, b: Seq<char>, i: int) -> bool
    decreases a.len() - i,
{
    if i < 0 || i >= b.len() {
        false
    } else if i >= a.len() {
        true
    } else if a[i] != b[i] {
        (a[i] as int) < (b[i] as int)
    } else {
        precedes_from(a, b, i + 1)
    }
}

/// The strict lexicographic order of names. On UTF-8 text it is the order of
/// the encoded bytes.
pub open spec fn precedes(a: Seq<char>, b: Seq<char>) -> bool {
    precedes_from(a, b, 0)
}

/// `a` does not come after `b`.
pub open spec fn not_after(a: Seq<char>, b: Seq<char>) -> bool {
    !precedes(b, a)
}

/// The characters of a text.
pub fn chars_of(text: &str) -> (r: Vec<char>)
    ensures
        r@ == text@,
{
    broadcast use vstd::string::axiom_spec_iter, vstd::string::next_postcondition;

    let mut rest = text.chars();
    let mut r: Vec<char> = Vec::new();
    assert(r@ + IteratorSpec::remaining(&rest) =~= text@);
    loop
        invariant
            r@ + IteratorSpec::remaining(&rest) == text@,
            IteratorSpec::obeys_prophetic_iter_laws(&rest),
        ensures
            r@ == text@,
        decreases text@.len() - r@.len(),
    {
        match rest.next() {
            Some(c) => {
                r.push(c);
                assert(r@ + IteratorSpec::remaining(&rest) =~= text@);
            },
            None => {
                assert(r@ =~= text@);
                break ;
            },
        }
    }
    r
}

/// Compares two names.
pub fn name_precedes(a: &str, b: &str) -> (r: bool)
    ensures
        r == precedes(a@, b@),
{
    let x = chars_of(a);
    let y = chars_of(b);
    let mut i: usize = 0;
    while i < x.len() && i < y.len()
        invariant
            i <= x@.len(),
            i <= y@.len(),
            x@ == a@,
            y@ == b@,
            precedes(a@, b@) == precedes_from(a@, b@, i as int),
        decreases x@.len() - i,
    {
        let ca: char = x[i];
        let cb: char = y[i];
        if ca != cb {
            return ca < cb;
        }
        i += 1;
    }
    i < y.len()
}

/// No name comes before itself.
pub proof fn lemma_precedes_irreflexive(a: Seq<char>, i: int)
    ensures
        !precedes_from(a, a, i),
    decreases a.len() - i,
{
    if 0 <= i < a.len() {
        lemma_precedes_irreflexive(a, i + 1);
    }
}

/// Of two names at most one comes before the other.
pub proof fn lemma_precedes_asymmetric(a: Seq<char>, b: Seq<char>, i: int)
    ensures
        !(precedes_from(a, b, i) && precedes_from(b, a, i)),
    decreases a.len() - i,
{
    if 0 <= i < a.len() && i < b.len() && a[i] == b[i] {
        lemma_precedes_asymmetric(a, b, i + 1);
    }
}

/// Two names of which neither comes before the other are the same name.
pub proof fn lemma_precedes_total(a: Seq<char>, b: Seq<char>, i: int)
    requires
        0 <= i,
        i <= a.len(),
        i <= b.len(),
        a.subrange(0, i) == b.subrange(0, i),
        !precedes_from(a, b, i),
        !precedes_from(b, a, i),
    ensures
        a == b,
    decreases a.len() - i,
{
    if i < a.len() && i < b.len() {
        assert(a.subrange(0, i + 1) =~= a.subrange(0, i).push(a[i]));
        assert(b.subrange(0, i + 1) =~= b.subrange(0, i).push(b[i]));
        lemma_precedes_total(a, b, i + 1);
    } else {
        assert(a =~= a.subrange(0, i));
        assert(b =~= b.subrange(0, i));
    }
}

/// "Does not come after" is transitive.
pub proof fn lemma_not_after_transitive(a: Seq<char>, b: Seq<char>, c: Seq<char>, i: int)
    requires
        0 <= i,
        !precedes_from(b, a, i),
        !precedes_from(c, b, i),
    ensures
        !precedes_from(c, a, i),
    decreases a.len() + b.len() + c.len() - i,
{
    if i < a.len() && i < b.len() && i < c.len() && a[i] == b[i] && b[i] == c[i] {
        lemma_not_after_transitive(a, b, c, i + 1);
    }
}

/// The order of names is a strict total order: no name comes before
/// itself, of two different names exactly one comes before the other, and
/// a name that comes before a second, which comes before a third, comes
/// before the third.
pub proof fn lemma_names_totally_ordered(a: Seq<char>, b: Seq<char>, c: Seq<char>)
    ensures
        !precedes(a, a),
        !(precedes(a, b) && precedes(b, a)),
        a != b ==> precedes(a, b) || precedes(b, a),
        precedes(a, b) && precedes(b, c) ==> precedes(a, c),
{
    lemma_precedes_irreflexive(a, 0);
    lemma_precedes_asymmetric(a, b, 0);
    if !precedes(a, b) && !precedes(b, a) {
        assert(a.subrange(0, 0) =~= b.subrange(0, 0));
        lemma_precedes_total(a, b, 0);
    }
    if precedes(a, b) && precedes(b, c) && !precedes(a, c) {
        lemma_precedes_asymmetric(b, c, 0);
        lemma_not_after_transitive(c, a, b, 0);
    }
}

/// `order` with `x` put in behind the last item whose name does not come
/// after the name of `x`. The items are positions in `names`.
pub open spec fn insert_by_name(names: Seq<Seq<char>>, order: Seq<usize>, x: usize) -> Seq<usize>
    decreases order.len(),
{
    if order.len() > 0 && precedes(names[x as int], names[order.last() as int]) {
        insert_by_name(names, order.drop_last(), x).push(order.last())
    } else {
        order.push(x)
    }
}

/// `items` in ascending order of their names; items of the same name keep
/// their order.
pub open spec fn sort_by_name(names: Seq<Seq<char>>, items: Seq<usize>) -> Seq<usize>
    decreases items.len(),
{
    if items.len() == 0 {
        Seq::empty()
    } else {
        insert_by_name(names, sort_by_name(names, items.drop_last()), items.last())
    }
}

/// No item of `order` has a name that comes before the name of an item
/// in front of it.
pub open spec fn ascending(names: Seq<Seq<char>>, order: Seq<usize>) -> bool {
    forall|i: int, j: int|
        0 <= i < j < order.len() ==> not_after(names[#[trigger] order[i] as int], names[#[trigger] order[j] as int])
}

/// Putting `x` in by name is putting it in at position `p`, where every item
/// from `p` on has a name that comes after that of `x` and the item in front
/// of `p` has not.
pub proof fn lemma_insert_at(names: Seq<Seq<char>>, order: Seq<usize>, x: usize, p: int)
    requires
        0 <= p <= order.len(),
        forall|j: int| p <= j < order.len() ==> precedes(names[x as int], names[#[trigger] order[j] as int]),
        p > 0 ==> !precedes(names[x as int], names[order[p - 1] as int]),
    ensures
        insert_by_name(names, order, x) == order.insert(p, x),
    decreases order.len(),
{
    if p == order.len() {
        assert(order.push(x) =~= order.insert(p, x));
    } else {
        lemma_insert_at(names, order.drop_last(), x, p);
        assert(order.drop_last().insert(p, x).push(order.last()) =~= order.insert(p, x));
    }
}

/// Where `x` goes when it is put into `order` by name.
pub open spec fn insert_position(names: Seq<Seq<char>>, order: Seq<usize>, x: usize) -> int
    decreases order.len(),
{
    if order.len() > 0 && precedes(names[x as int], names[order.last() as int]) {
        insert_position(names, order.drop_last(), x)
    } else {
        order.len() as int
    }
}

/// Putting `x` in by name puts it in front of the items whose names come
/// after its own, and of no others.
pub proof fn lemma_insert_position(names: Seq<Seq<char>>, order: Seq<usize>, x: usize)
    ensures
        0 <= insert_position(names, order, x) <= order.len(),
        insert_by_name(names, order, x) == order.insert(insert_position(names, order, x), x),
        forall|j: int|
            insert_position(names, order, x) <= j < order.len() ==> precedes(
                names[x as int],
                names[#[trigger] order[j] as int],
            ),
        insert_position(names, order, x) > 0 ==> !precedes(
            names[x as int],
            names[order[insert_position(names, order, x) - 1] as int],
        ),
    decreases order.len(),
{
    let p = insert_position(names, order, x);
    if order.len() > 0 && precedes(names[x as int], names[order.last() as int]) {
        lemma_insert_position(names, order.drop_last(), x);
        assert(order.drop_last().insert(p, x).push(order.last()) =~= order.insert(p, x));
        assert forall|j: int| p <= j < order.len() implies precedes(
            names[x as int],
            names[#[trigger] order[j] as int],
        ) by {
            if j < order.len() - 1 {
                assert(order.drop_last()[j] == order[j]);
            }
        }
        if p > 0 {
            assert(order.drop_last()[p - 1] == order[p - 1]);
        }
    } else {
        assert(order.push(x) =~= order.insert(p, x));
    }
}

/// An ascending order stays ascending when an item is put in by name.
pub proof fn lemma_insert_ascending(names: Seq<Seq<char>>, order: Seq<usize>, x: usize)
    requires
        ascending(names, order),
    ensures
        ascending(names, insert_by_name(names, order, x)),
{
    let p = insert_position(names, order, x);
    let out = insert_by_name(names, order, x);
    lemma_insert_position(names, order, x);
    assert forall|i: int, j: int| 0 <= i < j < out.len() implies not_after(
        names[#[trigger] out[i] as int],
        names[#[trigger] out[j] as int],
    ) by {
        if i == p {
            assert(out[j] == order[j - 1]);
            lemma_precedes_asymmetric(names[x as int], names[order[j - 1] as int], 0);
        } else if j == p {
            assert(out[i] == order[i]);
            if i < p - 1 {
                lemma_not_after_transitive(
                    names[order[i] as int],
                    names[order[p - 1] as int],
                    names[x as int],
                    0,
                );
            }
        } else {
            let oi = if i < p {
                i
            } else {
                i - 1
            };
            let oj = if j < p {
                j
            } else {
                j - 1
            };
            assert(out[i] == order[oi]);
            assert(out[j] == order[oj]);
        }
    }
}

/// Sorting by name gives the same items, each as often as before, in
/// ascending order of their names.
pub proof fn lemma_sort_by_name(names: Seq<Seq<char>>, items: Seq<usize>)
    ensures
        ascending(names, sort_by_name(names, items)),
        sort_by_name(names, items).to_multiset() == items.to_multiset(),
        sort_by_name(names, items).len() == items.len(),
    decreases items.len(),
{
    if items.len() == 0 {
        assert(items =~= Seq::empty());
    } else {
        let front = sort_by_name(names, items.drop_last());
        lemma_sort_by_name(names, items.drop_last());
        lemma_insert_ascending(names, front, items.last());
        lemma_insert_position(names, front, items.last());
        vstd::seq_lib::to_multiset_insert(front, insert_position(names, front, items.last()), items.last());
        vstd::seq_lib::to_multiset_build(items.drop_last(), items.last());
        assert(items.drop_last().push(items.last()) =~= items);
    }
}

/// The names that stand at the positions `order`.
pub open spec fn names_at(names: Seq<Seq<char>>, order: Seq<usize>) -> Seq<Seq<char>> {
    Seq::new(order.len(), |i: int| names[order[i] as int])
}

/// No name of `s` comes before a name in front of it.
pub open spec fn ascending_names(s: Seq<Seq<char>>) -> bool {
    forall|i: int, j: int| 0 <= i < j < s.len() ==> not_after(#[trigger] s[i], #[trigger] s[j])
}

/// Sorting by name keeps the names, each as often as before.
pub proof fn lemma_sort_keeps_names(names: Seq<Seq<char>>, items: Seq<usize>)
    ensures
        names_at(names, sort_by_name(names, items)).to_multiset() == names_at(names, items).to_multiset(),
        ascending_names(names_at(names, sort_by_name(names, items))),
    decreases items.len(),
{
    lemma_sort_by_name(names, items);
    if items.len() == 0 {
        assert(names_at(names, sort_by_name(names, items)) =~= names_at(names, items));
    } else {
        let x = items.last();
        let front = sort_by_name(names, items.drop_last());
        let p = insert_position(names, front, x);
        lemma_sort_keeps_names(names, items.drop_last());
        lemma_insert_position(names, front, x);
        assert(names_at(names, front.insert(p, x)) =~= names_at(names, front).insert(p, names[x as int]));
        assert(names_at(names, items) =~= names_at(names, items.drop_last()).push(names[x as int]));
        vstd::seq_lib::to_multiset_insert(names_at(names, front), p, names[x as int]);
        vstd::seq_lib::to_multiset_build(names_at(names, items.drop_last()), names[x as int]);
    }
}

/// There is one ascending order only: two ascending sequences that hold the
/// same names, each as often in the one as in the other, are the same.
pub proof fn lemma_ascending_unique(s: Seq<Seq<char>>, t: Seq<Seq<char>>)
    requires
        ascending_names(s),
        ascending_names(t),
        s.to_multiset() == t.to_multiset(),
    ensures
        s == t,
    decreases s.len(),
{
    vstd::seq_lib::to_multiset_len(s);
    vstd::seq_lib::to_multiset_len(t);
    if s.len() == 0 {
        assert(s =~= t);
    } else {
        let a = s.last();
        let b = t.last();
        assert(!precedes(b, a)) by {
            vstd::seq_lib::to_multiset_contains(s, a);
            vstd::seq_lib::to_multiset_contains(t, a);
            assert(s.contains(a));
            let j = choose|j: int| 0 <= j < t.len() && t[j] == a;
            lemma_precedes_irreflexive(a, 0);
        }
        assert(!precedes(a, b)) by {
            vstd::seq_lib::to_multiset_contains(s, b);
            vstd::seq_lib::to_multiset_contains(t, b);
            assert(t.contains(b));
            let j = choose|j: int| 0 <= j < s.len() && s[j] == b;
            lemma_precedes_irreflexive(b, 0);
        }
        assert(a.subrange(0, 0) =~= b.subrange(0, 0));
        lemma_precedes_total(a, b, 0);
        vstd::seq_lib::to_multiset_remove(s, s.len() - 1);
        vstd::seq_lib::to_multiset_remove(t, t.len() - 1);
        assert(s.remove(s.len() - 1) =~= s.drop_last());
        assert(t.remove(t.len() - 1) =~= t.drop_last());
        lemma_ascending_unique(s.drop_last(), t.drop_last());
        assert(s =~= s.drop_last().push(a));
        assert(t =~= t.drop_last().push(b));
    }
}

/// Every name of `s` comes before the names behind it.
pub open spec fn strictly_ascending(s: Seq<Seq<char>>) -> bool {
    forall|i: int, j: int| 0 <= i < j < s.len() ==> precedes(#[trigger] s[i], #[trigger] s[j])
}

/// Two strictly ascending sequences that hold the same names are the same.
pub proof fn lemma_strictly_ascending_unique(s: Seq<Seq<char>>, t: Seq<Seq<char>>)
    requires
        strictly_ascending(s),
        strictly_ascending(t),
        forall|x: Seq<char>| s.contains(x) <==> t.contains(x),
    ensures
        s == t,
    decreases s.len(),
{
    if s.len() == 0 {
        if t.len() > 0 {
            assert(t.contains(t[0]));
        }
        assert(s =~= t);
    } else {
        let a = s.last();
        assert(s.contains(a));
        assert(t.contains(a));
        let b = t.last();
        assert(t.contains(b));
        assert(s.contains(b));
        let j = choose|j: int| 0 <= j < t.len() && t[j] == a;
        let i = choose|i: int| 0 <= i < s.len() && s[i] == b;
        lemma_precedes_asymmetric(a, b, 0);
        assert(a == b);
        let s0 = s.drop_last();
        let t0 = t.drop_last();
        assert forall|x: Seq<char>| s0.contains(x) <==> t0.contains(x) by {
            lemma_precedes_irreflexive(a, 0);
            if s0.contains(x) {
                let k = choose|k: int| 0 <= k < s0.len() && s0[k] == x;
                assert(s[k] == x);
                assert(s.contains(x));
                let m = choose|m: int| 0 <= m < t.len() && t[m] == x;
                assert(t0[m] == x);
            }
            if t0.contains(x) {
                let k = choose|k: int| 0 <= k < t0.len() && t0[k] == x;
                assert(t[k] == x);
                assert(t.contains(x));
                let m = choose|m: int| 0 <= m < s.len() && s[m] == x;
                assert(s0[m] == x);
            }
        }
        assert forall|i: int, j: int| 0 <= i < j < s0.len() implies precedes(#[trigger] s0[i], #[trigger] s0[j]) by {
            assert(s0[i] == s[i] && s0[j] == s[j]);
        }
        assert forall|i: int, j: int| 0 <= i < j < t0.len() implies precedes(#[trigger] t0[i], #[trigger] t0[j]) by {
            assert(t0[i] == t[i] && t0[j] == t[j]);
        }
        lemma_strictly_ascending_unique(s0, t0);
        assert(s =~= s0.push(a));
        assert(t =~= t0.push(b));
    }
}

} // verus!
