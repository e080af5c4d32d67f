//! Orders and stable sorting.

use vstd::prelude::*;

verus! {

/// Things with a place in a list.
pub trait Placed: Sized {
    /// Whether `self` must stand in front of `other`.
    spec fn before(self, other: Self) -> bool;

    /// No two things stand in front of each other, and whatever stands between
    /// two others keeps them apart.
    proof fn lemma_places(a: Self, b: Self, c: Self)
        ensures
            a.before(b) ==> !b.before(a),
            a.before(c) ==> a.before(b) || b.before(c),
    ;

    /// Computes [`Placed::before`].
    fn goes_before(&self, other: &Self) -> (r: bool)
        ensures
            r == (*self).before(*other),
    ;
}

/// Whether `at` says, for each place in `to`, where in `from` its item stood,
/// and `to` is in order, with items that tie in the order they had.
pub open spec fn arranges<T: Placed>(from: Seq<T>, to: Seq<T>, at: Seq<int>) -> bool {
    &&& to.len() == from.len()
    &&& at.len() == from.len()
    &&& forall|i: int|
        0 <= i < at.len() ==> 0 <= #[trigger] at[i] < from.len() && to[i] == from[at[i]]
    &&& forall|i: int, j: int| 0 <= i < j < at.len() ==> #[trigger] at[i] != #[trigger] at[j]
    &&& forall|i: int, j: int|
        0 <= i < j < to.len() ==> !(#[trigger] to[j]).before(#[trigger] to[i]) && (to[i].before(
            to[j],
        ) || at[i] < at[j])
}

/// Whether `to` is `from`, stably sorted.
pub open spec fn sorts<T: Placed>(from: Seq<T>, to: Seq<T>) -> bool {
    &&& exists|at: Seq<int>| #[trigger] arranges(from, to, at)
    &&& to.to_multiset() == from.to_multiset()
}

/// What the sort keeps while its first `n` items are in order.
spec fn arranged_up_to<T: Placed>(from: Seq<T>, to: Seq<T>, at: Seq<int>, n: int) -> bool {
    &&& 0 <= n <= from.len()
    &&& to.len() == from.len()
    &&& at.len() == from.len()
    &&& forall|i: int|
        0 <= i < at.len() ==> 0 <= #[trigger] at[i] < from.len() && to[i] == from[at[i]]
    &&& forall|i: int| 0 <= i < n ==> #[trigger] at[i] < n
    &&& forall|i: int| n <= i < at.len() ==> #[trigger] at[i] == i
    &&& forall|i: int, j: int| 0 <= i < j < at.len() ==> #[trigger] at[i] != #[trigger] at[j]
    &&& forall|i: int, j: int|
        0 <= i < j < n ==> !(#[trigger] to[j]).before(#[trigger] to[i]) && (to[i].before(to[j])
            || at[i] < at[j])
}

/// Moving the item at `n` down to `j` keeps the order.
proof fn lemma_insert<T: Placed>(from: Seq<T>, to: Seq<T>, at: Seq<int>, n: int, j: int)
    requires
        arranged_up_to(from, to, at, n),
        0 <= j <= n < from.len(),
        j > 0 ==> !to[n].before(to[j - 1]),
        forall|k: int| j <= k < n ==> to[n].before(#[trigger] to[k]),
    ensures
        arranged_up_to(
            from,
            to.remove(n).insert(j, to[n]),
            at.remove(n).insert(j, n),
            n + 1,
        ),
        to.remove(n).insert(j, to[n]).to_multiset() == to.to_multiset(),
{
    let x = to[n];
    let to2 = to.remove(n).insert(j, x);
    let at2 = at.remove(n).insert(j, n);
    assert(at[n] == n);
    assert forall|k: int| 0 <= k < j implies !x.before(#[trigger] to[k]) by {
        if k < j - 1 {
            T::lemma_places(x, to[j - 1], to[k]);
        }
    }
    assert forall|k: int| j <= k < n implies !(#[trigger] to[k]).before(x) by {
        T::lemma_places(x, to[k], x);
    }
    assert forall|i: int, k: int| 0 <= i < k < n + 1 implies !(#[trigger] to2[k]).before(
        #[trigger] to2[i],
    ) && (to2[i].before(to2[k]) || at2[i] < at2[k]) by {
        let old_i = if i < j {
            i
        } else {
            i - 1
        };
        let old_k = if k < j {
            k
        } else {
            k - 1
        };
        if i == j {
            assert(to2[k] == to[old_k]);
        } else if k == j {
            assert(to2[i] == to[i]);
            assert(at2[i] == at[i]);
        } else {
            assert(to2[i] == to[old_i]);
            assert(to2[k] == to[old_k]);
            assert(at2[i] == at[old_i]);
            assert(at2[k] == at[old_k]);
        }
    }
    assert(to =~= to.remove(n).insert(n, x));
    vstd::seq_lib::to_multiset_remove(to, n);
    vstd::seq_lib::to_multiset_insert(to.remove(n), j, x);
    vstd::seq_lib::to_multiset_insert(to.remove(n), n, x);
}

/// Sort stably: the items that must stand in front come first, and items that
/// tie keep their order.
pub fn sort_stably<T: Placed>(items: &mut Vec<T>)
    ensures
        sorts(old(items)@, final(items)@),
{
    let ghost from = items@;
    let ghost mut at = Seq::new(items@.len(), |i: int| i);
    let mut n: usize = 0;
    let len: usize = items.len();
    while n < len
        invariant
            n <= len,
            len == items@.len(),
            from == old(items)@,
            arranged_up_to(from, items@, at, n as int),
            items@.to_multiset() == from.to_multiset(),
        decreases len - n,
    {
        let mut j: usize = n;
        while j > 0 && items[n].goes_before(&items[j - 1])
            invariant
                j <= n < len,
                len == items@.len(),
                forall|k: int| j <= k < n ==> items@[n as int].before(#[trigger] items@[k]),
            ensures
                j > 0 ==> !items@[n as int].before(items@[j - 1]),
            decreases j,
        {
            j = j - 1;
        }
        proof {
            lemma_insert(from, items@, at, n as int, j as int);
            at = at.remove(n as int).insert(j as int, n as int);
        }
        let x = items.remove(n);
        items.insert(j, x);
        n = n + 1;
    }
    assert(arranges(from, items@, at));
}

/// The item that sorting puts in front of another does not have to stand
/// behind it.
pub proof fn lemma_sorted<T: Placed>(from: Seq<T>, to: Seq<T>)
    requires
        sorts(from, to),
    ensures
        to.len() == from.len(),
        forall|i: int, j: int| 0 <= i < j < to.len() ==> !(#[trigger] to[j]).before(#[trigger] to[i]),
        forall|i: int| 0 <= i < to.len() ==> from.contains(#[trigger] to[i]),
        forall|i: int| 0 <= i < from.len() ==> to.contains(#[trigger] from[i]),
{
    let at = choose|at: Seq<int>| #[trigger] arranges(from, to, at);
    assert forall|i: int| 0 <= i < to.len() implies from.contains(#[trigger] to[i]) by {
        assert(from[at[i]] == to[i]);
    }
    assert forall|i: int| 0 <= i < from.len() implies to.contains(#[trigger] from[i]) by {
        from.to_multiset_ensures();
        to.to_multiset_ensures();
        assert(from.contains(from[i]));
        assert(from.to_multiset().count(from[i]) > 0);
    }
}

/// As [`arranges`], with the order given by a relation.
pub open spec fn arranges_by<T>(
    from: Seq<T>,
    to: Seq<T>,
    at: Seq<int>,
    before: spec_fn(T, T) -> bool,
) -> bool {
    &&& to.len() == from.len()
    &&& at.len() == from.len()
    &&& forall|i: int|
        0 <= i < at.len() ==> 0 <= #[trigger] at[i] < from.len() && to[i] == from[at[i]]
    &&& forall|i: int, j: int| 0 <= i < j < at.len() ==> #[trigger] at[i] != #[trigger] at[j]
    &&& forall|i: int, j: int|
        0 <= i < j < to.len() ==> !before(#[trigger] to[j], #[trigger] to[i]) && (before(
            to[i],
            to[j],
        ) || at[i] < at[j])
}

/// Whether `to` is `from`, stably sorted by a relation.
pub open spec fn sorts_by<T>(from: Seq<T>, to: Seq<T>, before: spec_fn(T, T) -> bool) -> bool {
    exists|at: Seq<int>| #[trigger] arranges_by(from, to, at, before)
}

/// A sequence that takes each item of another once holds the same items.
pub proof fn lemma_permutation<T>(from: Seq<T>, to: Seq<T>, at: Seq<int>)
    requires
        to.len() == from.len(),
        at.len() == from.len(),
        forall|i: int|
            0 <= i < at.len() ==> 0 <= #[trigger] at[i] < from.len() && to[i] == from[at[i]],
        forall|i: int, j: int| 0 <= i < j < at.len() ==> #[trigger] at[i] != #[trigger] at[j],
    ensures
        to.to_multiset() == from.to_multiset(),
    decreases from.len(),
{
    if from.len() == 0 {
        assert(to =~= from);
    } else {
        let p = at.last();
        let rest = from.remove(p);
        let front = to.drop_last();
        let places = Seq::new(
            front.len(),
            |i: int|
                if at[i] < p {
                    at[i]
                } else {
                    at[i] - 1
                },
        );
        assert(at[at.len() - 1] == p);
        assert forall|i: int| 0 <= i < places.len() implies 0 <= #[trigger] places[i] < rest.len()
            && front[i] == rest[places[i]] by {
            assert(at[i] != p);
            assert(to[i] == from[at[i]]);
        }
        assert forall|i: int, j: int| 0 <= i < j < places.len() implies #[trigger] places[i]
            != #[trigger] places[j] by {
            assert(at[i] != at[j]);
            assert(at[i] != p);
            assert(at[j] != p);
        }
        lemma_permutation(rest, front, places);
        vstd::seq_lib::to_multiset_remove(from, p);
        assert(to =~= front.push(to.last()));
        to.to_multiset_ensures();
        front.to_multiset_ensures();
        assert(from[p] == to.last());
        from.to_multiset_ensures();
        assert(from.to_multiset().count(from[p]) > 0);
        assert(from.to_multiset() =~= rest.to_multiset().insert(from[p]));
    }
}

/// The items of a sorted sequence are those it was sorted from.
pub proof fn lemma_sorting_keeps_items<T>(
    from: Seq<T>,
    to: Seq<T>,
    before: spec_fn(T, T) -> bool,
)
    requires
        sorts_by(from, to, before),
    ensures
        to.to_multiset() == from.to_multiset(),
        to.len() == from.len(),
{
    let at = choose|at: Seq<int>| #[trigger] arranges_by(from, to, at, before);
    lemma_permutation(from, to, at);
}

/// What sorting does to values it does to what they stand for.
pub proof fn lemma_sorted_values<T: Placed, V>(
    from: Seq<T>,
    to: Seq<T>,
    value: spec_fn(T) -> V,
    before: spec_fn(V, V) -> bool,
)
    requires
        sorts(from, to),
        forall|a: T, b: T| #![trigger before(value(a), value(b))] a.before(b) == before(value(a), value(b)),
    ensures
        sorts_by(from.map_values(value), to.map_values(value), before),
{
    let at = choose|at: Seq<int>| #[trigger] arranges(from, to, at);
    let vf = from.map_values(value);
    let vt = to.map_values(value);
    assert forall|i: int| 0 <= i < at.len() implies 0 <= #[trigger] at[i] < vf.len() && vt[i]
        == vf[at[i]] by {
        assert(to[i] == from[at[i]]);
    }
    assert forall|i: int, j: int| 0 <= i < j < vt.len() implies !before(
        #[trigger] vt[j],
        #[trigger] vt[i],
    ) && (before(vt[i], vt[j]) || at[i] < at[j]) by {
        assert(vt[i] == value(to[i]) && vt[j] == value(to[j]));
        assert(to[j].before(to[i]) == before(value(to[j]), value(to[i])));
        assert(to[i].before(to[j]) == before(value(to[i]), value(to[j])));
    }
    assert(arranges_by(vf, vt, at, before));
}

/// Lexicographic order on numbers: the first difference decides, and a
/// sequence stands in front of its extensions.
pub open spec fn lex_below(a: Seq<int>, b: Seq<int>) -> bool
    decreases a.len(),
{
    if b.len() == 0 {
        false
    } else if a.len() == 0 {
        true
    } else if a[0] != b[0] {
        a[0] < b[0]
    } else {
        lex_below(a.skip(1), b.skip(1))
    }
}

/// The lexicographic order is a total order.
pub proof fn lemma_lex_order(a: Seq<int>, b: Seq<int>, c: Seq<int>)
    ensures
        lex_below(a, b) ==> !lex_below(b, a),
        lex_below(a, c) ==> lex_below(a, b) || lex_below(b, c),
        a != b ==> lex_below(a, b) || lex_below(b, a),
        !lex_below(a, a),
    decreases a.len() + b.len() + c.len(),
{
    if a.len() > 0 && b.len() > 0 && c.len() > 0 {
        lemma_lex_order(a.skip(1), b.skip(1), c.skip(1));
        if a[0] == b[0] && a.skip(1) == b.skip(1) {
            assert(a =~= b) by {
                assert(a =~= seq![a[0]] + a.skip(1));
                assert(b =~= seq![b[0]] + b.skip(1));
            }
        }
    } else if a.len() > 0 && b.len() > 0 {
        lemma_lex_order(a.skip(1), b.skip(1), c);
        if a[0] == b[0] && a.skip(1) == b.skip(1) {
            assert(a =~= b) by {
                assert(a =~= seq![a[0]] + a.skip(1));
                assert(b =~= seq![b[0]] + b.skip(1));
            }
        }
    } else {
        assert(a.len() == 0 && b.len() == 0 ==> a =~= b);
        if a.len() > 0 {
            lemma_lex_order(a.skip(1), b, c);
        }
    }
}

/// The order of byte strings.
pub open spec fn bytes_below(a: Seq<u8>, b: Seq<u8>) -> bool {
    lex_below(a.map_values(|x: u8| x as int), b.map_values(|x: u8| x as int))
}

/// The order of texts, which goes by their characters.
pub open spec fn text_below(a: Seq<char>, b: Seq<char>) -> bool {
    lex_below(a.map_values(|x: char| x as int), b.map_values(|x: char| x as int))
}

/// The byte order is a total order.
pub proof fn lemma_bytes_order(a: Seq<u8>, b: Seq<u8>, c: Seq<u8>)
    ensures
        bytes_below(a, b) ==> !bytes_below(b, a),
        bytes_below(a, c) ==> bytes_below(a, b) || bytes_below(b, c),
        a != b ==> bytes_below(a, b) || bytes_below(b, a),
{
    let f = |x: u8| x as int;
    lemma_lex_order(a.map_values(f), b.map_values(f), c.map_values(f));
    if a.map_values(f) == b.map_values(f) {
        assert(a =~= b) by {
            assert forall|i: int| 0 <= i < a.len() implies a[i] == b[i] by {
                assert(a.map_values(f)[i] == b.map_values(f)[i]);
            }
            assert(a.map_values(f).len() == b.map_values(f).len());
        }
    }
}

/// The text order is a total order.
pub proof fn lemma_text_order(a: Seq<char>, b: Seq<char>, c: Seq<char>)
    ensures
        text_below(a, b) ==> !text_below(b, a),
        text_below(a, c) ==> text_below(a, b) || text_below(b, c),
        a != b ==> text_below(a, b) || text_below(b, a),
{
    let f = |x: char| x as int;
    lemma_lex_order(a.map_values(f), b.map_values(f), c.map_values(f));
    if a.map_values(f) == b.map_values(f) {
        assert(a =~= b) by {
            assert forall|i: int| 0 <= i < a.len() implies a[i] == b[i] by {
                assert(a.map_values(f)[i] == b.map_values(f)[i]);
            }
            assert(a.map_values(f).len() == b.map_values(f).len());
        }
    }
}

/// Computes [`bytes_below`].
pub fn bytes_less(a: &Vec<u8>, b: &Vec<u8>) -> (r: bool)
    ensures
        r == bytes_below(a@, b@),
{
    let ghost f = |x: u8| x as int;
    let ghost sa = a@.map_values(f);
    let ghost sb = b@.map_values(f);
    let mut i: usize = 0;
    assert(sa.skip(0) =~= sa && sb.skip(0) =~= sb);
    while i < a.len() && i < b.len() && a[i] == b[i]
        invariant
            i <= a@.len(),
            i <= b@.len(),
            sa == a@.map_values(f),
            sb == b@.map_values(f),
            f == |x: u8| x as int,
            lex_below(sa, sb) == lex_below(sa.skip(i as int), sb.skip(i as int)),
        decreases a@.len() - i,
    {
        proof {
            assert(sa.skip(i as int).skip(1) =~= sa.skip(i + 1));
            assert(sb.skip(i as int).skip(1) =~= sb.skip(i + 1));
            assert(sa.skip(i as int)[0] == sb.skip(i as int)[0]);
        }
        i = i + 1;
    }
    if i >= b.len() {
        false
    } else if i >= a.len() {
        true
    } else {
        assert(sa.skip(i as int)[0] == a@[i as int] as int);
        assert(sb.skip(i as int)[0] == b@[i as int] as int);
        a[i] < b[i]
    }
}

/// Computes [`text_below`].
pub fn text_less(a: &str, b: &str) -> (r: bool)
    ensures
        r == text_below(a@, b@),
{
    let ghost f = |x: char| x as int;
    let ghost sa = a@.map_values(f);
    let ghost sb = b@.map_values(f);
    let a_len: usize = a.unicode_len();
    let b_len: usize = b.unicode_len();
    let mut i: usize = 0;
    assert(sa.skip(0) =~= sa && sb.skip(0) =~= sb);
    while i < a_len && i < b_len && a.get_char(i) == b.get_char(i)
        invariant
            a_len == a@.len(),
            b_len == b@.len(),
            i <= a_len,
            i <= b_len,
            sa == a@.map_values(f),
            sb == b@.map_values(f),
            f == |x: char| x as int,
            lex_below(sa, sb) == lex_below(sa.skip(i as int), sb.skip(i as int)),
        decreases a_len - i,
    {
        proof {
            assert(sa.skip(i as int).skip(1) =~= sa.skip(i + 1));
            assert(sb.skip(i as int).skip(1) =~= sb.skip(i + 1));
            assert(sa.skip(i as int)[0] == sb.skip(i as int)[0]);
        }
        i = i + 1;
    }
    if i >= b_len {
        false
    } else if i >= a_len {
        true
    } else {
        assert(sa.skip(i as int)[0] == a@[i as int] as int);
        assert(sb.skip(i as int)[0] == b@[i as int] as int);
        a.get_char(i) < b.get_char(i)
    }
}

/// Whether two byte strings are the same.
pub fn same_bytes(a: &Vec<u8>, b: &Vec<u8>) -> (r: bool)
    ensures
        r == (a@ == b@),
{
    if a.len() != b.len() {
        return false;
    }
    let mut i: usize = 0;
    while i < a.len()
        invariant
            a@.len() == b@.len(),
            i <= a@.len(),
            forall|j: int| 0 <= j < i ==> a@[j] == b@[j],
        decreases a@.len() - i,
    {
        if a[i] != b[i] {
            assert(a@[i as int] != b@[i as int]);
            return false;
        }
        i = i + 1;
    }
    assert(a@ =~= b@);
    true
}

/// Whether two texts are the same.
pub fn same_text(a: &str, b: &str) -> (r: bool)
    ensures
        r == (a@ == b@),
{
    let len: usize = a.unicode_len();
    if len != b.unicode_len() {
        return false;
    }
    let mut i: usize = 0;
    while i < len
        invariant
            len == a@.len(),
            len == b@.len(),
            i <= len,
            forall|j: int| 0 <= j < i ==> a@[j] == b@[j],
        decreases len - i,
    {
        if a.get_char(i) != b.get_char(i) {
            assert(a@[i as int] != b@[i as int]);
            return false;
        }
        i = i + 1;
    }
    assert(a@ =~= b@);
    true
}

} // verus!
