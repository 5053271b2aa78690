//! Sorting, as the diagnostic pages and the configuration need it.
use itertools::Itertools;
use std::collections::HashMap;
use std::hash::BuildHasher;
use vstd::prelude::*;

verus! {

broadcast use vstd::std_specs::hash::group_hash_axioms;

/// Sorts identifiers with `itertools::Itertools::sorted`: the result holds the same
/// identifiers, each as often as before, in ascending order.
#[verifier::external_body]
fn sorted_ids(ids: Vec<u64>) -> (r: Vec<u64>)
    ensures
        r@.to_multiset() == ids@.to_multiset(),
        forall|i: int, j: int| 0 <= i < j < r@.len() ==> r@[i] <= r@[j],
{
    ids.into_iter().sorted().collect()
}

/// Whether `s` lists the members of `set`, each once, in ascending order.
pub open spec fn is_ascending_listing(s: Seq<u64>, set: Set<u64>) -> bool {
    &&& forall|i: int, j: int| 0 <= i < j < s.len() ==> s[i] < s[j]
    &&& s.to_set() == set
}

/// The members of a finite set in ascending order.
pub open spec fn ascending(set: Set<u64>) -> Seq<u64> {
    choose|s: Seq<u64>| is_ascending_listing(s, set)
}

/// There is only one way to list a set in ascending order.
pub proof fn lemma_ascending_unique(s: Seq<u64>, t: Seq<u64>, set: Set<u64>)
    requires
        is_ascending_listing(s, set),
        is_ascending_listing(t, set),
    ensures
        s == t,
    decreases s.len(),
{
    if s.len() == 0 {
        if t.len() > 0 {
            assert(t.to_set().contains(t[0]));
            assert(s.to_set().contains(t[0]));
        }
        assert(s =~= t);
    } else {
        assert(s.to_set().contains(s.last()));
        assert(t.to_set().contains(s.last()));
        assert(t.to_set().contains(t.last()));
        assert(s.to_set().contains(t.last()));
        let i = choose|i: int| 0 <= i < t.len() && t[i] == s.last();
        let j = choose|j: int| 0 <= j < s.len() && s[j] == t.last();
        assert(s.last() == t.last());
        let smaller = set.remove(s.last());
        lemma_drop_greatest(s, set);
        lemma_drop_greatest(t, set);
        lemma_ascending_unique(s.drop_last(), t.drop_last(), smaller);
        assert(s =~= s.drop_last().push(s.last()));
        assert(t =~= t.drop_last().push(t.last()));
    }
}

/// Without its last element, a listing lists the set without its greatest member.
proof fn lemma_drop_greatest(s: Seq<u64>, set: Set<u64>)
    requires
        is_ascending_listing(s, set),
        s.len() > 0,
    ensures
        is_ascending_listing(s.drop_last(), set.remove(s.last())),
{
    let front = s.drop_last();
    assert forall|x: u64| front.to_set().contains(x) <==> set.remove(s.last()).contains(x) by {
        if front.contains(x) {
            let i = choose|i: int| 0 <= i < front.len() && front[i] == x;
            assert(s[i] == x);
            assert(s.to_set().contains(x));
        }
        if set.contains(x) && x != s.last() {
            assert(s.to_set().contains(x));
            let i = choose|i: int| 0 <= i < s.len() && s[i] == x;
            assert(front[i] == x);
        }
    }
    assert(front.to_set() =~= set.remove(s.last()));
}

/// A set that has a listing has its ascending listing.
pub proof fn lemma_ascending(s: Seq<u64>, set: Set<u64>)
    requires
        is_ascending_listing(s, set),
    ensures
        ascending(set) == s,
        is_ascending_listing(ascending(set), set),
{
    lemma_ascending_unique(s, ascending(set), set);
}

/// The members below a bound can be listed in ascending order.
proof fn lemma_listing_below(set: Set<u64>, bound: nat) -> (s: Seq<u64>)
    ensures
        is_ascending_listing(s, set.filter(|x: u64| x < bound)),
    decreases bound,
{
    let below = set.filter(|x: u64| x < bound);
    if bound == 0 {
        let s = Seq::<u64>::empty();
        assert(s.to_set() =~= below);
        s
    } else {
        let front = lemma_listing_below(set, (bound - 1) as nat);
        let smaller = set.filter(|x: u64| x < (bound - 1) as nat);
        let x = (bound - 1) as u64;
        assert forall|i: int| 0 <= i < front.len() implies front[i] < bound - 1 by {
            assert(front.to_set().contains(front[i]));
            assert(smaller.contains(front[i]));
        }
        if bound - 1 <= u64::MAX && set.contains(x) {
            let s = front.push(x);
            assert forall|y: u64| s.to_set().contains(y) <==> below.contains(y) by {
                assert(s[front.len() as int] == x);
                if below.contains(y) && y != x {
                    assert(front.to_set().contains(y));
                    let i = choose|i: int| 0 <= i < front.len() && front[i] == y;
                    assert(s[i] == y);
                }
                if s.contains(y) && y != x {
                    let i = choose|i: int| 0 <= i < s.len() && s[i] == y;
                    assert(front[i] == y);
                    assert(front.to_set().contains(y));
                    assert(smaller.contains(y));
                }
            }
            assert(s.to_set() =~= below);
            s
        } else {
            assert(smaller =~= below);
            front
        }
    }
}

/// Every set of identifiers has its ascending listing.
pub proof fn lemma_ascending_lists(set: Set<u64>)
    ensures
        is_ascending_listing(ascending(set), set),
{
    let s = lemma_listing_below(set, 0x1_0000_0000_0000_0000);
    assert(set.filter(|x: u64| x < 0x1_0000_0000_0000_0000nat) =~= set);
    lemma_ascending(s, set);
}

/// Puts distinct identifiers into ascending order.
pub(crate) fn ascending_ids(ids: Vec<u64>) -> (r: Vec<u64>)
    requires
        ids@.no_duplicates(),
    ensures
        r@ == ascending(ids@.to_set()),
        is_ascending_listing(r@, ids@.to_set()),
{
    let ghost all = ids@;
    let ghost set = ids@.to_set();
    let r = sorted_ids(ids);
    proof {
        broadcast use vstd::seq_lib::group_to_multiset_ensures;

        assert forall|x: u64| r@.to_set().contains(x) <==> set.contains(x) by {
            assert(r@.to_multiset().count(x) == all.to_multiset().count(x));
            assert(r@.contains(x) <==> r@.to_multiset().count(x) > 0);
            assert(all.contains(x) <==> all.to_multiset().count(x) > 0);
            assert(all.to_set().contains(x) <==> all.contains(x));
        }
        assert(r@.to_set() =~= set);
        all.lemma_multiset_has_no_duplicates();
        r@.lemma_multiset_has_no_duplicates_conv();
        lemma_ascending(r@, set);
    }
    r
}

/// Whether name `a` comes before name `b`: characters are compared by their code points, and
/// a name comes before its continuations.
pub open spec fn name_before(a: Seq<char>, b: Seq<char>) -> bool
    decreases a.len(),
{
    if b.len() == 0 {
        false
    } else if a.len() == 0 {
        true
    } else if a[0] != b[0] {
        (a[0] as u32) < (b[0] as u32)
    } else {
        name_before(a.drop_first(), b.drop_first())
    }
}

/// Whether the pair is a module in `modules` with its name.
pub open spec fn is_module(pair: (Seq<char>, Seq<u8>), modules: Map<String, Vec<u8>>) -> bool {
    exists|k: String| #[trigger] modules.contains_key(k) && pair == (k@, modules[k]@)
}

/// Whether `s` lists the modules in `modules`, each once, by name in ascending order.
pub open spec fn is_module_listing(
    s: Seq<(Seq<char>, Seq<u8>)>,
    modules: Map<String, Vec<u8>>,
) -> bool {
    &&& forall|i: int, j: int| 0 <= i < j < s.len() ==> name_before(s[i].0, s[j].0)
    &&& forall|i: int| 0 <= i < s.len() ==> is_module(#[trigger] s[i], modules)
    &&& forall|k: String| #[trigger]
        modules.contains_key(k) ==> s.contains((k@, modules[k]@))
}

/// The models of a sequence of named modules.
pub open spec fn module_views(s: Seq<(String, Vec<u8>)>) -> Seq<(Seq<char>, Seq<u8>)> {
    s.map_values(|m: (String, Vec<u8>)| (m.0@, m.1@))
}

/// Sorts named modules with `itertools::Itertools::sorted`: the result holds each entry of
/// the map once, in the order of pairs of a string and a vector. As names are distinct and
/// strings are ordered by their characters' code points, that is the order of the names.
/// This is claimed where the map has a proper hasher; with another one it may hold a name
/// twice.
#[verifier::external_body]
pub(crate) fn sorted_modules<S: BuildHasher>(modules: HashMap<String, Vec<u8>, S>) -> (r: Vec<
    (String, Vec<u8>),
>)
    ensures
        vstd::std_specs::hash::builds_valid_hashers::<S>() ==> is_module_listing(
            module_views(r@),
            modules@,
        ),
{
    modules.into_iter().sorted().collect()
}

/// No two names come before each other.
proof fn lemma_name_before_asymmetric(a: Seq<char>, b: Seq<char>)
    ensures
        !(name_before(a, b) && name_before(b, a)),
    decreases a.len(),
{
    if a.len() > 0 && b.len() > 0 && a[0] == b[0] {
        lemma_name_before_asymmetric(a.drop_first(), b.drop_first());
    }
}

/// Whether two maps hold the same modules under the same names.
pub open spec fn same_modules(m: Map<String, Vec<u8>>, n: Map<String, Vec<u8>>) -> bool {
    forall|pair: (Seq<char>, Seq<u8>)| #[trigger] is_module(pair, m) <==> is_module(pair, n)
}

/// Every pair in one listing of some modules is in every other.
pub proof fn lemma_same_pairs(
    a: Seq<(Seq<char>, Seq<u8>)>,
    b: Seq<(Seq<char>, Seq<u8>)>,
    m: Map<String, Vec<u8>>,
    n: Map<String, Vec<u8>>,
)
    requires
        is_module_listing(a, m),
        is_module_listing(b, n),
        same_modules(m, n),
    ensures
        forall|i: int| 0 <= i < a.len() ==> b.contains(#[trigger] a[i]),
{
    assert forall|i: int| 0 <= i < a.len() implies b.contains(#[trigger] a[i]) by {
        assert(is_module(a[i], m));
        assert(is_module(a[i], n));
    }
}

/// Two sequences of the same pairs, both strictly by name, are equal.
pub proof fn lemma_by_name_unique(
    a: Seq<(Seq<char>, Seq<u8>)>,
    b: Seq<(Seq<char>, Seq<u8>)>,
)
    requires
        forall|i: int, j: int| 0 <= i < j < a.len() ==> name_before(a[i].0, a[j].0),
        forall|i: int, j: int| 0 <= i < j < b.len() ==> name_before(b[i].0, b[j].0),
        forall|i: int| 0 <= i < a.len() ==> b.contains(#[trigger] a[i]),
        forall|i: int| 0 <= i < b.len() ==> a.contains(#[trigger] b[i]),
    ensures
        a == b,
    decreases a.len(),
{
    if a.len() == 0 {
        if b.len() > 0 {
            assert(a.contains(b[0]));
        }
        assert(a =~= b);
    } else {
        assert(b.contains(a[a.len() - 1]));
        let x = a.last();
        let y = b.last();
        let j = choose|j: int| 0 <= j < b.len() && b[j] == x;
        assert(a.contains(b[b.len() - 1]));
        let i = choose|i: int| 0 <= i < a.len() && a[i] == y;
        if x != y {
            assert(name_before(b[j].0, b[b.len() - 1].0));
            assert(name_before(a[i].0, a[a.len() - 1].0));
            lemma_name_before_asymmetric(x.0, y.0);
        }
        let front_a = a.drop_last();
        let front_b = b.drop_last();
        assert forall|k: int| 0 <= k < front_a.len() implies front_b.contains(
            #[trigger] front_a[k],
        ) by {
            assert(front_a[k] == a[k]);
            let l = choose|l: int| 0 <= l < b.len() && b[l] == a[k];
            assert(name_before(a[k].0, a[a.len() - 1].0));
            lemma_name_before_asymmetric(a[k].0, a[k].0);
            assert(l < b.len() - 1);
            assert(front_b[l] == a[k]);
        }
        assert forall|k: int| 0 <= k < front_b.len() implies front_a.contains(
            #[trigger] front_b[k],
        ) by {
            assert(front_b[k] == b[k]);
            let l = choose|l: int| 0 <= l < a.len() && a[l] == b[k];
            assert(name_before(b[k].0, b[b.len() - 1].0));
            lemma_name_before_asymmetric(b[k].0, b[k].0);
            assert(l < a.len() - 1);
            assert(front_a[l] == b[k]);
        }
        lemma_by_name_unique(front_a, front_b);
        assert(a =~= front_a.push(x));
        assert(b =~= front_b.push(y));
    }
}

/// Different characters have different code points.
proof fn lemma_code_points_differ(x: char, y: char)
    requires
        x != y,
    ensures
        x as u32 != y as u32,
{
}

/// Names are in a strict order: none comes before itself, of two different ones exactly one
/// comes first, and what comes before a name that comes before a third comes before that.
pub proof fn law_names_are_ordered(a: Seq<char>, b: Seq<char>, c: Seq<char>)
    ensures
        !name_before(a, a),
        a != b ==> (name_before(a, b) <==> !name_before(b, a)),
        name_before(a, b) && name_before(b, c) ==> name_before(a, c),
    decreases a.len(),
{
    if a.len() > 0 {
        law_names_are_ordered(a.drop_first(), a.drop_first(), a.drop_first());
        if b.len() > 0 {
            law_names_are_ordered(a.drop_first(), b.drop_first(), c.drop_first());
            if a[0] == b[0] {
                assert(a =~= seq![a[0]] + a.drop_first());
                assert(b =~= seq![b[0]] + b.drop_first());
                assert(a != b ==> a.drop_first() != b.drop_first());
                assert(name_before(b, a) == name_before(b.drop_first(), a.drop_first()));
            } else {
                lemma_code_points_differ(a[0], b[0]);
                assert(name_before(b, a) == ((b[0] as u32) < (a[0] as u32)));
            }
        }
    } else if b.len() == 0 {
        assert(a =~= b);
    }
}

/// The first character that differs decides which of two names comes first, by its code
/// point, and a name comes before its continuations.
pub proof fn law_first_difference_decides(a: Seq<char>, b: Seq<char>, i: int)
    requires
        0 <= i < b.len(),
        i <= a.len(),
        a.take(i) == b.take(i),
        i < a.len() ==> a[i] != b[i],
    ensures
        i == a.len() ==> name_before(a, b),
        i < a.len() ==> (name_before(a, b) <==> (a[i] as u32) < (b[i] as u32)),
    decreases i,
{
    if i > 0 {
        assert(a.take(i)[0] == a[0] && b.take(i)[0] == b[0]);
        assert(a.drop_first().take(i - 1) =~= a.take(i).drop_first());
        assert(b.drop_first().take(i - 1) =~= b.take(i).drop_first());
        law_first_difference_decides(a.drop_first(), b.drop_first(), i - 1);
    }
}

} // verus!
