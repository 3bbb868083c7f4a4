//! The order of terms, which is the order of their bytes, and the
//! vocabulary of a list of terms: its distinct terms in ascending order.

use vstd::prelude::*;
use vstd::utf8::*;

verus! {

/// Whether `a` comes before `b` when byte strings are ordered
/// lexicographically by the values of their bytes.
pub open spec fn bytes_lt(a: Seq<u8>, b: Seq<u8>) -> bool
    decreases a.len(),
{
    if b.len() == 0 {
        false
    } else if a.len() == 0 {
        true
    } else if a[0] != b[0] {
        a[0] < b[0]
    } else {
        bytes_lt(a.drop_first(), b.drop_first())
    }
}

/// Whether the term `a` comes before the term `b`: the order of their UTF-8
/// encodings.
pub open spec fn term_lt(a: Seq<char>, b: Seq<char>) -> bool {
    bytes_lt(encode_utf8(a), encode_utf8(b))
}

/// The terms that a list of strings holds.
pub open spec fn term_views(terms: Seq<String>) -> Seq<Seq<char>> {
    Seq::new(terms.len(), |i: int| terms[i]@)
}

/// Whether no term of `terms` comes before an earlier one.
pub open spec fn ascending(terms: Seq<Seq<char>>) -> bool {
    forall|i: int, j: int| 0 <= i < j < terms.len() ==> !term_lt(terms[j], terms[i])
}

/// Whether every term of `terms` comes before all later ones.
pub open spec fn strictly_ascending(terms: Seq<Seq<char>>) -> bool {
    forall|i: int, j: int| 0 <= i < j < terms.len() ==> term_lt(terms[i], terms[j])
}

/// Whether `terms` is the vocabulary of `source`: the distinct terms of
/// `source` in ascending order.
pub open spec fn vocabulary_of(terms: Seq<Seq<char>>, source: Seq<Seq<char>>) -> bool {
    &&& strictly_ascending(terms)
    &&& forall|term: Seq<char>| terms.contains(term) <==> source.contains(term)
}

pub proof fn lemma_bytes_lt_irreflexive(a: Seq<u8>)
    ensures
        !bytes_lt(a, a),
    decreases a.len(),
{
    if a.len() > 0 {
        lemma_bytes_lt_irreflexive(a.drop_first());
    }
}

pub proof fn lemma_bytes_lt_transitive(a: Seq<u8>, b: Seq<u8>, c: Seq<u8>)
    requires
        bytes_lt(a, b),
        bytes_lt(b, c),
    ensures
        bytes_lt(a, c),
    decreases a.len(),
{
    if a.len() > 0 && a[0] == b[0] && b[0] == c[0] {
        lemma_bytes_lt_transitive(a.drop_first(), b.drop_first(), c.drop_first());
    }
}

pub proof fn lemma_bytes_lt_total(a: Seq<u8>, b: Seq<u8>)
    ensures
        a == b || bytes_lt(a, b) || bytes_lt(b, a),
    decreases a.len(),
{
    if a.len() == 0 || b.len() == 0 {
        if a.len() == 0 && b.len() == 0 {
            assert(a =~= b);
        }
    } else if a[0] == b[0] {
        lemma_bytes_lt_total(a.drop_first(), b.drop_first());
        if a.drop_first() == b.drop_first() {
            assert(a =~= seq![a[0]] + a.drop_first());
            assert(b =~= seq![b[0]] + b.drop_first());
        }
    }
}

/// Terms are totally ordered: no term comes before itself, the order is
/// transitive, and of two different terms one comes before the other.
pub proof fn lemma_term_lt_irreflexive(a: Seq<char>)
    ensures
        !term_lt(a, a),
{
    lemma_bytes_lt_irreflexive(encode_utf8(a));
}

pub proof fn lemma_term_lt_transitive(a: Seq<char>, b: Seq<char>, c: Seq<char>)
    requires
        term_lt(a, b),
        term_lt(b, c),
    ensures
        term_lt(a, c),
{
    lemma_bytes_lt_transitive(encode_utf8(a), encode_utf8(b), encode_utf8(c));
}

pub proof fn lemma_term_lt_total(a: Seq<char>, b: Seq<char>)
    ensures
        a == b || term_lt(a, b) || term_lt(b, a),
{
    lemma_bytes_lt_total(encode_utf8(a), encode_utf8(b));
    if encode_utf8(a) == encode_utf8(b) {
        encode_utf8_decode_utf8(a);
        encode_utf8_decode_utf8(b);
    }
}

/// A list in strictly ascending order holds no term twice.
pub proof fn lemma_strictly_ascending_distinct(terms: Seq<Seq<char>>, i: int, j: int)
    requires
        strictly_ascending(terms),
        0 <= i < terms.len(),
        0 <= j < terms.len(),
        terms[i] == terms[j],
    ensures
        i == j,
{
    lemma_term_lt_irreflexive(terms[i]);
}

/// A source has one vocabulary only.
pub proof fn lemma_vocabulary_unique(
    first: Seq<Seq<char>>,
    second: Seq<Seq<char>>,
    source: Seq<Seq<char>>,
)
    requires
        vocabulary_of(first, source),
        vocabulary_of(second, source),
    ensures
        first == second,
    decreases first.len(),
{
    if first.len() == 0 {
        if second.len() > 0 {
            assert(second.contains(second[0]));
            assert(first.contains(second[0]));
        }
        assert(first =~= second);
    } else {
        assert(first.contains(first[0]));
        assert(second.contains(first[0]));
        let k = choose|k: int| 0 <= k < second.len() && second[k] == first[0];
        assert(second.contains(second[0]));
        let m = choose|m: int| 0 <= m < first.len() && first[m] == second[0];
        if k > 0 {
            // second[0] < second[k] == first[0] <= first[m] == second[0]
            if m > 0 {
                lemma_term_lt_transitive(second[0], first[0], first[m]);
            }
            lemma_term_lt_irreflexive(second[0]);
        }
        assert(second[0] == first[0]);
        let rest_first = first.drop_first();
        let rest_second = second.drop_first();
        assert(strictly_ascending(rest_first)) by {
            assert forall|i: int, j: int| 0 <= i < j < rest_first.len() implies term_lt(
                rest_first[i],
                rest_first[j],
            ) by {
                assert(term_lt(first[i + 1], first[j + 1]));
            }
        }
        assert(strictly_ascending(rest_second)) by {
            assert forall|i: int, j: int| 0 <= i < j < rest_second.len() implies term_lt(
                rest_second[i],
                rest_second[j],
            ) by {
                assert(term_lt(second[i + 1], second[j + 1]));
            }
        }
        assert forall|term: Seq<char>| rest_first.contains(term) <==> rest_second.contains(
            term,
        ) by {
            lemma_term_lt_irreflexive(first[0]);
            if rest_first.contains(term) {
                let i = choose|i: int| 0 <= i < rest_first.len() && rest_first[i] == term;
                assert(first[i + 1] == term);
                assert(term_lt(first[0], first[i + 1]));
                assert(first.contains(term));
                assert(second.contains(term));
                let j = choose|j: int| 0 <= j < second.len() && second[j] == term;
                assert(j > 0);
                assert(rest_second[j - 1] == term);
            }
            if rest_second.contains(term) {
                let i = choose|i: int| 0 <= i < rest_second.len() && rest_second[i] == term;
                assert(second[i + 1] == term);
                assert(term_lt(second[0], second[i + 1]));
                assert(second.contains(term));
                assert(first.contains(term));
                let j = choose|j: int| 0 <= j < first.len() && first[j] == term;
                assert(j > 0);
                assert(rest_first[j - 1] == term);
            }
        }
        assert(vocabulary_of(rest_first, rest_first));
        assert(vocabulary_of(rest_second, rest_first));
        lemma_vocabulary_unique(rest_first, rest_second, rest_first);
        assert(first =~= seq![first[0]] + rest_first);
        assert(second =~= seq![second[0]] + rest_second);
    }
}

/// No term comes before one that does not come before it: where `a` does
/// not come after `b`, nor `b` after `c`, `a` does not come after `c`.
pub proof fn lemma_term_order_chains(a: Seq<char>, b: Seq<char>, c: Seq<char>)
    requires
        !term_lt(b, a),
        !term_lt(c, b),
    ensures
        !term_lt(c, a),
{
    if term_lt(c, a) {
        lemma_term_lt_total(a, b);
        if term_lt(a, b) {
            lemma_term_lt_transitive(c, a, b);
        }
    }
}

/// Whether the string `a` comes before the string `b` in the order of terms.
pub fn term_before(a: &str, b: &str) -> (before: bool)
    ensures
        before == term_lt(a@, b@),
{
    let x = a.as_bytes();
    let y = b.as_bytes();
    let mut k: usize = 0;
    proof {
        assert(x@.skip(0) =~= x@);
        assert(y@.skip(0) =~= y@);
    }
    while k < x.len() && k < y.len()
        invariant
            k <= x@.len(),
            k <= y@.len(),
            x@ == vstd::utf8::encode_utf8(a@),
            y@ == vstd::utf8::encode_utf8(b@),
            bytes_lt(x@, y@) == bytes_lt(x@.skip(k as int), y@.skip(k as int)),
        decreases x@.len() - k,
    {
        proof {
            assert(x@.skip(k as int)[0] == x@[k as int]);
            assert(y@.skip(k as int)[0] == y@[k as int]);
            assert(x@.skip(k as int).drop_first() =~= x@.skip(k + 1));
            assert(y@.skip(k as int).drop_first() =~= y@.skip(k + 1));
        }
        if x[k] != y[k] {
            return x[k] < y[k];
        }
        k += 1;
    }
    proof {
        assert(x@.skip(k as int).len() == x@.len() - k);
        assert(y@.skip(k as int).len() == y@.len() - k);
    }
    k < y.len()
}

/// The terms of `terms` at the positions `order`, in the order of `order`.
pub open spec fn picked(terms: Seq<Seq<char>>, order: Seq<usize>) -> Seq<Seq<char>> {
    Seq::new(order.len(), |k: int| terms[order[k] as int])
}

/// Whether every position of `order` is a position of a list of `len` terms.
pub open spec fn within(order: Seq<usize>, len: nat) -> bool {
    forall|k: int| 0 <= k < order.len() ==> (#[trigger] order[k]) < len
}

/// Merges two runs of positions, each in ascending order of its terms, into
/// one.
fn merge(terms: &Vec<String>, first: &Vec<usize>, second: &Vec<usize>) -> (merged: Vec<usize>)
    requires
        within(first@, terms@.len()),
        within(second@, terms@.len()),
        ascending(picked(term_views(terms@), first@)),
        ascending(picked(term_views(terms@), second@)),
    ensures
        within(merged@, terms@.len()),
        ascending(picked(term_views(terms@), merged@)),
        picked(term_views(terms@), merged@).to_multiset() == picked(
            term_views(terms@),
            first@,
        ).to_multiset().add(picked(term_views(terms@), second@).to_multiset()),
{
    broadcast use vstd::seq_lib::to_multiset_build;
    broadcast use vstd::multiset::group_multiset_axioms;

    let ghost views = term_views(terms@);
    let ghost a = picked(views, first@);
    let ghost b = picked(views, second@);
    let mut merged: Vec<usize> = Vec::new();
    let mut i: usize = 0;
    let mut j: usize = 0;
    proof {
        assert(picked(views, merged@) =~= Seq::<Seq<char>>::empty());
        assert(a.take(0) =~= Seq::<Seq<char>>::empty());
        assert(b.take(0) =~= Seq::<Seq<char>>::empty());
        Seq::<Seq<char>>::empty().to_multiset_ensures();
    }
    while i < first.len() || j < second.len()
        invariant
            views == term_views(terms@),
            a == picked(views, first@),
            b == picked(views, second@),
            within(first@, terms@.len()),
            within(second@, terms@.len()),
            ascending(a),
            ascending(b),
            i <= first@.len(),
            j <= second@.len(),
            merged@.len() == i + j,
            within(merged@, terms@.len()),
            ascending(picked(views, merged@)),
            merged@.len() > 0 && i < first@.len() ==> !term_lt(
                a[i as int],
                picked(views, merged@).last(),
            ),
            merged@.len() > 0 && j < second@.len() ==> !term_lt(
                b[j as int],
                picked(views, merged@).last(),
            ),
            picked(views, merged@).to_multiset() == a.take(i as int).to_multiset().add(
                b.take(j as int).to_multiset(),
            ),
        decreases first@.len() - i + second@.len() - j,
    {
        let ghost before = picked(views, merged@);
        let from_first = if i == first.len() {
            false
        } else if j == second.len() {
            true
        } else {
            !term_before(terms[second[j]].as_str(), terms[first[i]].as_str())
        };
        let ghost next: Seq<char>;
        let ghost taken_first = a.take(i as int);
        let ghost taken_second = b.take(j as int);
        if from_first {
            proof {
                next = a[i as int];
                assert(a.take(i + 1) =~= a.take(i as int).push(next));
                if i + 1 < first@.len() {
                    assert(!term_lt(a[i + 1], a[i as int]));
                }
            }
            merged.push(first[i]);
            i += 1;
        } else {
            proof {
                next = b[j as int];
                assert(b.take(j + 1) =~= b.take(j as int).push(next));
                if j + 1 < second@.len() {
                    assert(!term_lt(b[j + 1], b[j as int]));
                }
                if i < first@.len() {
                    // the term of the second run comes before that of the first
                    if term_lt(a[i as int], next) {
                        lemma_term_lt_transitive(a[i as int], next, a[i as int]);
                        lemma_term_lt_irreflexive(a[i as int]);
                    }
                }
            }
            merged.push(second[j]);
            j += 1;
        }
        proof {
            let now = picked(views, merged@);
            assert(now =~= before.push(next));
            vstd::seq_lib::to_multiset_build(before, next);
            assert(now.to_multiset() =~= before.to_multiset().insert(next));
            if from_first {
                vstd::seq_lib::to_multiset_build(taken_first, next);
                assert(a.take(i as int) =~= taken_first.push(next));
            } else {
                vstd::seq_lib::to_multiset_build(taken_second, next);
                assert(b.take(j as int) =~= taken_second.push(next));
            }
            assert(now.to_multiset() =~= a.take(i as int).to_multiset().add(
                b.take(j as int).to_multiset(),
            ));
            assert forall|p: int, q: int| 0 <= p < q < now.len() implies !term_lt(
                now[q],
                now[p],
            ) by {
                if q == now.len() - 1 {
                    if p < q - 1 {
                        assert(!term_lt(before[q - 1], before[p]));
                        lemma_term_order_chains(before[p], before.last(), next);
                    }
                } else {
                    assert(!term_lt(before[q], before[p]));
                }
            }
        }
    }
    proof {
        assert(a.take(i as int) =~= a);
        assert(b.take(j as int) =~= b);
    }
    merged
}

/// The positions from `from` up to `to` in ascending order of the terms that
/// `terms` holds there.
fn sorted_positions(terms: &Vec<String>, from: usize, to: usize) -> (order: Vec<usize>)
    requires
        from <= to <= terms@.len(),
    ensures
        within(order@, terms@.len()),
        ascending(picked(term_views(terms@), order@)),
        picked(term_views(terms@), order@).to_multiset() == term_views(terms@).subrange(
            from as int,
            to as int,
        ).to_multiset(),
    decreases to - from,
{
    broadcast use vstd::seq_lib::to_multiset_build;

    let ghost views = term_views(terms@);
    if to - from <= 1 {
        let mut order: Vec<usize> = Vec::new();
        proof {
            Seq::<Seq<char>>::empty().to_multiset_ensures();
            assert(picked(views, order@) =~= Seq::<Seq<char>>::empty());
        }
        if to - from == 1 {
            order.push(from);
            proof {
                assert(picked(views, order@) =~= Seq::<Seq<char>>::empty().push(views[from as int]));
                assert(views.subrange(from as int, to as int) =~= Seq::<Seq<char>>::empty().push(
                    views[from as int],
                ));
            }
        } else {
            proof {
                assert(views.subrange(from as int, to as int) =~= Seq::<Seq<char>>::empty());
            }
        }
        return order;
    }
    let middle = from + (to - from) / 2;
    let first = sorted_positions(terms, from, middle);
    let second = sorted_positions(terms, middle, to);
    proof {
        vstd::seq_lib::lemma_multiset_commutative(
            views.subrange(from as int, middle as int),
            views.subrange(middle as int, to as int),
        );
        assert(views.subrange(from as int, middle as int) + views.subrange(
            middle as int,
            to as int,
        ) =~= views.subrange(from as int, to as int));
    }
    merge(terms, &first, &second)
}

/// The strings of `terms` in ascending order: the same strings, each as
/// often as before.
pub fn sorted(terms: &Vec<String>) -> (ordered: Vec<String>)
    ensures
        ascending(term_views(ordered@)),
        term_views(ordered@).to_multiset() == term_views(terms@).to_multiset(),
{
    let order = sorted_positions(terms, 0, terms.len());
    let ghost views = term_views(terms@);
    let mut ordered: Vec<String> = Vec::new();
    let mut k: usize = 0;
    while k < order.len()
        invariant
            k <= order@.len(),
            views == term_views(terms@),
            within(order@, terms@.len()),
            term_views(ordered@) == picked(views, order@).take(k as int),
        decreases order@.len() - k,
    {
        let ghost before = term_views(ordered@);
        let term = terms[order[k]].clone();
        ordered.push(term);
        proof {
            assert(term_views(ordered@) =~= before.push(term@));
            assert(picked(views, order@).take(k + 1) =~= picked(views, order@).take(k as int).push(
                term@,
            ));
        }
        k += 1;
    }
    proof {
        assert(picked(views, order@).take(k as int) =~= picked(views, order@));
        assert(views.subrange(0, terms@.len() as int) =~= views);
    }
    ordered
}

/// The vocabulary of `terms`: its distinct terms in ascending order.
pub fn vocabulary(terms: Vec<String>) -> (distinct: Vec<String>)
    ensures
        vocabulary_of(term_views(distinct@), term_views(terms@)),
{
    broadcast use vstd::seq_lib::to_multiset_contains;

    let sorted = sorted(&terms);
    let ghost source = term_views(terms@);
    let ghost all = term_views(sorted@);
    assert forall|term: Seq<char>| all.contains(term) <==> source.contains(term) by {
        assert(all.to_multiset().count(term) == source.to_multiset().count(term));
    }
    let mut distinct: Vec<String> = Vec::new();
    let len = sorted.len();
    let mut j: usize = 0;
    while j < len
        invariant
            len == sorted@.len(),
            j <= len,
            all == term_views(sorted@),
            ascending(all),
            strictly_ascending(term_views(distinct@)),
            j == 0 ==> distinct@.len() == 0,
            j > 0 ==> distinct@.len() > 0 && distinct@.last()@ == all[j - 1],
            forall|term: Seq<char>|
                term_views(distinct@).contains(term) <==> all.take(j as int).contains(term),
        decreases len - j,
    {
        let term = &sorted[j];
        let ghost kept = term_views(distinct@);
        let fresh = if distinct.len() == 0 {
            true
        } else {
            !(distinct[distinct.len() - 1] == *term)
        };
        proof {
            assert(all[j as int] == term@);
            assert(all.take(j + 1) =~= all.take(j as int).push(term@));
        }
        if fresh {
            distinct.push(term.clone());
            proof {
                let now = term_views(distinct@);
                assert(now =~= kept.push(term@));
                assert forall|a: int, b: int| 0 <= a < b < now.len() implies term_lt(
                    now[a],
                    now[b],
                ) by {
                    if b == now.len() - 1 {
                        // every kept term is met in the sorted prefix, at or before its last
                        let last = kept.last();
                        assert(last == all[j - 1]);
                        assert(!term_lt(all[j as int], all[j - 1]));
                        lemma_term_lt_total(last, term@);
                        if a < b - 1 {
                            assert(term_lt(kept[a], kept[b - 1]));
                            lemma_term_lt_transitive(kept[a], last, term@);
                        }
                    } else {
                        assert(term_lt(kept[a], kept[b]));
                    }
                }
                assert forall|t: Seq<char>| now.contains(t) <==> all.take(j + 1).contains(t) by {
                    vstd::seq_lib::lemma_seq_contains_after_push(kept, term@, t);
                    vstd::seq_lib::lemma_seq_contains_after_push(all.take(j as int), term@, t);
                }
            }
        } else {
            proof {
                assert(term_views(distinct@) == kept);
                assert(kept.contains(term@)) by {
                    assert(kept[kept.len() - 1] == term@);
                }
                assert forall|t: Seq<char>| kept.contains(t) <==> all.take(j + 1).contains(t) by {
                    vstd::seq_lib::lemma_seq_contains_after_push(all.take(j as int), term@, t);
                }
            }
        }
        j += 1;
    }
    proof {
        assert(all.take(len as int) =~= all);
    }
    distinct
}

} // verus!
