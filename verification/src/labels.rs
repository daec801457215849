//! Hint labels: the letter sequences typed to pick a control.
use vstd::prelude::*;
use std::collections::VecDeque;
use crate::geometry::ScannedElement;
use crate::text::{char_string, is_prefix, str_starts_with, string_push, utf8_len, utf8_width};

verus! {

broadcast use vstd::std_specs::vecdeque::group_vec_dequeue_axioms;

/// The characters of each string.
pub open spec fn views(s: Seq<String>) -> Seq<Seq<char>> {
    s.map_values(|x: String| x@)
}

/// `x` extends `y` by at least one character.
pub open spec fn strictly_extends(x: Seq<char>, y: Seq<char>) -> bool {
    is_prefix(y, x) && x.len() > y.len()
}

/// `cand` strictly extends one of `assigned`, or one of them strictly extends `cand`.
pub open spec fn conflicts(assigned: Seq<Seq<char>>, cand: Seq<char>) -> bool {
    exists|i: int|
        0 <= i < assigned.len() && (strictly_extends(cand, #[trigger] assigned[i])
            || strictly_extends(assigned[i], cand))
}

/// How many letters of `a`, taken as one-letter labels, conflict with none of `assigned`.
pub open spec fn free_letters(assigned: Seq<Seq<char>>, a: Seq<char>) -> nat
    decreases a.len(),
{
    if a.len() == 0 {
        0
    } else {
        free_letters(assigned, a.drop_last()) + if conflicts(assigned, seq![a.last()]) {
            0nat
        } else {
            1nat
        }
    }
}

/// One-letter labels, one per letter of `s`.
pub open spec fn single_labels(s: Seq<char>) -> Seq<Seq<char>> {
    Seq::new(s.len(), |i: int| seq![s[i]])
}

/// Two-letter labels: each letter of `ext` followed by each letter of `a`, in order.
pub open spec fn pair_labels(ext: Seq<char>, a: Seq<char>) -> Seq<Seq<char>> {
    Seq::new(ext.len() * a.len(), |i: int| seq![ext[i / a.len() as int], a[i % a.len() as int]])
}

/// The first pass over the alphabet `a` (a prefix of the whole alphabet, whose length
/// is `k`) when `count` labels are wanted: a letter is kept as a label of its own,
/// unless more than `k` labels would still be missing and the letter is a single
/// byte, in which case it is extended into two-letter labels. Gives the kept
/// letters and the extended letters, each in order.
pub open spec fn first_level(a: Seq<char>, count: int, k: int) -> (Seq<char>, Seq<char>)
    decreases a.len(),
{
    if a.len() == 0 {
        (Seq::empty(), Seq::empty())
    } else {
        let (kept, ext) = first_level(a.drop_last(), count, k);
        let c = a.last();
        if count - kept.len() > k && utf8_width(c) == 1 {
            (kept, ext.push(c))
        } else {
            (kept.push(c), ext)
        }
    }
}

/// A two-letter label that does not start with a letter kept whole.
pub open spec fn keeps_pair(kept: Seq<char>) -> spec_fn(Seq<char>) -> bool {
    |x: Seq<char>| !kept.contains(x[0])
}

/// Every label the search can hand out for `count` targets over `a`, in order: the
/// letters kept whole, then the two-letter extensions of the extended letters,
/// skipping those that start with a letter kept whole.
pub open spec fn label_pool(count: nat, a: Seq<char>) -> Seq<Seq<char>> {
    let (kept, ext) = first_level(a, count as int, a.len() as int);
    single_labels(kept) + pair_labels(ext, a).filter(keeps_pair(kept))
}

/// The labels for `count` targets over `a`.
pub open spec fn labels_for(count: nat, a: Seq<char>) -> Seq<Seq<char>> {
    if a.len() == 0 {
        Seq::empty()
    } else {
        label_pool(count, a).take(count as int)
    }
}

/// The search finds `count` labels over `a` (otherwise it runs out of candidates,
/// or keeps extending candidates that can never be used).
pub open spec fn labels_fit(count: nat, a: Seq<char>) -> bool {
    a.len() == 0 || count <= label_pool(count, a).len()
}

/// The character takes one byte in UTF-8.
fn char_width_is_one(c: char) -> (r: bool)
    ensures
        r == (utf8_width(c) == 1),
{
    (c as u32) < 0x80
}

fn labels_conflict(assigned: &[String], cand: &str) -> (r: bool)
    ensures
        r == conflicts(views(assigned@), cand@),
{
    let mut i: usize = 0;
    while i < assigned.len()
        invariant
            i <= assigned@.len(),
            forall|j: int|
                0 <= j < i ==> !(strictly_extends(cand@, #[trigger] assigned@[j]@)
                    || strictly_extends(assigned@[j]@, cand@)),
        decreases assigned.len() - i,
    {
        let a = assigned[i].as_str();
        if (str_starts_with(cand, a) && cand.unicode_len() > a.unicode_len()) || (str_starts_with(
            a,
            cand,
        ) && a.unicode_len() > cand.unicode_len()) {
            assert(views(assigned@)[i as int] == assigned@[i as int]@);
            return true;
        }
        i = i + 1;
    }
    assert forall|j: int|
        0 <= j < views(assigned@).len() implies !(strictly_extends(
        cand@,
        #[trigger] views(assigned@)[j],
    ) || strictly_extends(views(assigned@)[j], cand@)) by {
        assert(views(assigned@)[j] == assigned@[j]@);
    }
    false
}

fn available_single_slots(assigned: &[String], alphabet: &[char]) -> (r: usize)
    ensures
        r == free_letters(views(assigned@), alphabet@),
{
    let mut n: usize = 0;
    let mut i: usize = 0;
    while i < alphabet.len()
        invariant
            i <= alphabet@.len(),
            n == free_letters(views(assigned@), alphabet@.subrange(0, i as int)),
            n <= i,
        decreases alphabet.len() - i,
    {
        let s = char_string(alphabet[i]);
        assert(alphabet@.subrange(0, i + 1).drop_last() =~= alphabet@.subrange(0, i as int));
        if !labels_conflict(assigned, s.as_str()) {
            n = n + 1;
        }
        i = i + 1;
    }
    assert(alphabet@.subrange(0, alphabet@.len() as int) =~= alphabet@);
    n
}

fn extend_queue(queue: &mut VecDeque<String>, prefix: &str, alphabet: &[char])
    ensures
        views(final(queue)@) == views(old(queue)@) + Seq::new(
            alphabet@.len(),
            |j: int| prefix@.push(alphabet@[j]),
        ),
{
    let mut i: usize = 0;
    while i < alphabet.len()
        invariant
            i <= alphabet@.len(),
            views(queue@) == views(old(queue)@) + Seq::new(
                i as nat,
                |j: int| prefix@.push(alphabet@[j]),
            ),
        decreases alphabet.len() - i,
    {
        let mut s = String::from_str(prefix);
        string_push(&mut s, alphabet[i]);
        let ghost before = queue@;
        queue.push_back(s);
        assert(views(queue@) =~= views(before).push(s@));
        assert(views(queue@) =~= views(old(queue)@) + Seq::new(
            (i + 1) as nat,
            |j: int| prefix@.push(alphabet@[j]),
        ));
        i = i + 1;
    }
}

/// The string is one byte long in UTF-8.
fn is_single_byte(s: &str) -> (r: bool)
    ensures
        r == (utf8_len(s@) == 1),
{
    proof {
        lemma_utf8_len_at_least_len(s@);
    }
    if s.unicode_len() != 1 {
        return false;
    }
    let c = s.get_char(0);
    proof {
        let e = s@.drop_last();
        assert(e.len() == 0);
        assert(utf8_len(e) == 0);
        assert(s@.last() == c);
    }
    (c as u32) < 0x80
}

proof fn lemma_utf8_len_at_least_len(s: Seq<char>)
    ensures
        utf8_len(s) >= s.len(),
    decreases s.len(),
{
    if s.len() > 0 {
        lemma_utf8_len_at_least_len(s.drop_last());
    }
}

proof fn lemma_first_level_len(a: Seq<char>, count: int, k: int)
    ensures
        first_level(a, count, k).0.len() + first_level(a, count, k).1.len() == a.len(),
    decreases a.len(),
{
    if a.len() > 0 {
        lemma_first_level_len(a.drop_last(), count, k);
    }
}

/// With no more targets than letters, every letter is kept whole.
proof fn lemma_first_level_small(a: Seq<char>, count: int, k: int)
    requires
        count <= k,
    ensures
        first_level(a, count, k).0 == a,
        first_level(a, count, k).1 == Seq::<char>::empty(),
    decreases a.len(),
{
    if a.len() > 0 {
        lemma_first_level_small(a.drop_last(), count, k);
        assert(a.drop_last().push(a.last()) =~= a);
    } else {
        assert(a =~= Seq::<char>::empty());
    }
}

proof fn lemma_pair_labels_push(ext: Seq<char>, e: char, a: Seq<char>)
    requires
        a.len() > 0,
    ensures
        pair_labels(ext.push(e), a) == pair_labels(ext, a) + Seq::new(
            a.len(),
            |j: int| seq![e].push(a[j]),
        ),
{
    let k = a.len() as int;
    let n = ext.len() as int;
    let lhs = pair_labels(ext.push(e), a);
    let rhs = pair_labels(ext, a) + Seq::new(a.len(), |j: int| seq![e].push(a[j]));
    assert((n + 1) * k == n * k + k) by (nonlinear_arith);
    assert forall|i: int| 0 <= i < lhs.len() implies lhs[i] == rhs[i] by {
        if i < n * k {
            assert(0 <= i / k < n) by (nonlinear_arith)
                requires
                    0 <= i < n * k,
                    k > 0,
            ;
            assert(0 <= i % k < k) by (nonlinear_arith)
                requires
                    k > 0,
            ;
        } else {
            assert(i / k == n && i % k == i - n * k) by (nonlinear_arith)
                requires
                    n * k <= i < n * k + k,
                    k > 0,
            ;
            assert(seq![e].push(a[i - n * k]) =~= seq![e, a[i - n * k]]);
        }
    }
    assert(lhs =~= rhs);
}

/// Among one-letter labels, no one-letter candidate conflicts.
proof fn lemma_singles_never_conflict(assigned: Seq<Seq<char>>, cand: Seq<char>)
    requires
        forall|i: int| 0 <= i < assigned.len() ==> (#[trigger] assigned[i]).len() == 1,
        cand.len() == 1,
    ensures
        !conflicts(assigned, cand),
{
    assert forall|i: int| 0 <= i < assigned.len() implies !(strictly_extends(
        cand,
        #[trigger] assigned[i],
    ) || strictly_extends(assigned[i], cand)) by {}
}

proof fn lemma_free_letters_all(assigned: Seq<Seq<char>>, a: Seq<char>)
    requires
        forall|i: int| 0 <= i < assigned.len() ==> (#[trigger] assigned[i]).len() == 1,
    ensures
        free_letters(assigned, a) == a.len(),
    decreases a.len(),
{
    if a.len() > 0 {
        lemma_free_letters_all(assigned, a.drop_last());
        lemma_singles_never_conflict(assigned, seq![a.last()]);
    }
}

/// Against the letters kept whole followed by two-letter labels, a two-letter
/// candidate conflicts exactly when its first letter was kept whole.
proof fn lemma_pair_conflict(kept: Seq<char>, pairs: Seq<Seq<char>>, cand: Seq<char>)
    requires
        forall|i: int| 0 <= i < pairs.len() ==> (#[trigger] pairs[i]).len() == 2,
        cand.len() == 2,
    ensures
        conflicts(single_labels(kept) + pairs, cand) == kept.contains(cand[0]),
{
    let assigned = single_labels(kept) + pairs;
    if kept.contains(cand[0]) {
        let j = choose|j: int| 0 <= j < kept.len() && kept[j] == cand[0];
        assert(assigned[j] == seq![kept[j]]);
        assert(cand.subrange(0, 1) =~= seq![kept[j]]);
        assert(strictly_extends(cand, assigned[j]));
    } else {
        assert forall|i: int| 0 <= i < assigned.len() implies !(strictly_extends(
            cand,
            #[trigger] assigned[i],
        ) || strictly_extends(assigned[i], cand)) by {
            if i < kept.len() {
                assert(assigned[i] == seq![kept[i]]);
                if strictly_extends(cand, assigned[i]) {
                    assert(cand.subrange(0, 1)[0] == cand[0]);
                    assert(kept.contains(cand[0]));
                }
            } else {
                assert(assigned[i] == pairs[i - kept.len()]);
            }
        }
    }
}

proof fn lemma_utf8_len_single(c: char)
    ensures
        utf8_len(seq![c]) == utf8_width(c),
{
    let s = seq![c];
    assert(s.drop_last() =~= Seq::<char>::empty());
    assert(utf8_len(s.drop_last()) == 0);
    assert(s.last() == c);
}

proof fn lemma_filter_pairs_len(s: Seq<Seq<char>>, pred: spec_fn(Seq<char>) -> bool)
    requires
        forall|i: int| 0 <= i < s.len() ==> (#[trigger] s[i]).len() == 2,
    ensures
        forall|i: int|
            0 <= i < s.filter(pred).len() ==> (#[trigger] s.filter(pred)[i]).len() == 2,
{
    assert forall|i: int| 0 <= i < s.filter(pred).len() implies (#[trigger] s.filter(
        pred,
    )[i]).len() == 2 by {
        assert(s.filter(pred).contains(s.filter(pred)[i]));
        s.lemma_filter_contains_rev(pred, s.filter(pred)[i]);
    }
}

proof fn lemma_pair_labels_len2(ext: Seq<char>, a: Seq<char>)
    ensures
        forall|i: int|
            0 <= i < pair_labels(ext, a).len() ==> (#[trigger] pair_labels(ext, a)[i]).len() == 2,
{
}

/// One step of the first pass: the letter at `p` is either extended or kept whole.
proof fn lemma_first_level_step(a: Seq<char>, count: int, k: int, p: int)
    requires
        0 <= p < a.len(),
    ensures
        ({
            let f = first_level(a.take(p), count, k);
            let g = first_level(a.take(p + 1), count, k);
            if count - f.0.len() > k && utf8_width(a[p]) == 1 {
                g.0 == f.0 && g.1 == f.1.push(a[p])
            } else {
                g.0 == f.0.push(a[p]) && g.1 == f.1
            }
        }),
{
    assert(a.take(p + 1).drop_last() =~= a.take(p));
    assert(a.take(p + 1).last() == a[p]);
}

proof fn lemma_single_labels_push(s: Seq<char>, c: char)
    ensures
        single_labels(s.push(c)) == single_labels(s).push(seq![c]),
{
    assert(single_labels(s.push(c)) =~= single_labels(s).push(seq![c]));
}

proof fn lemma_single_labels_skip(a: Seq<char>, p: int)
    requires
        0 <= p < a.len(),
    ensures
        single_labels(a.skip(p))[0] == seq![a[p]],
        single_labels(a.skip(p)).drop_first() == single_labels(a.skip(p + 1)),
{
    assert(single_labels(a.skip(p)).drop_first() =~= single_labels(a.skip(p + 1)));
}

proof fn lemma_filter_step(s: Seq<Seq<char>>, pred: spec_fn(Seq<char>) -> bool, q: int)
    requires
        0 <= q < s.len(),
    ensures
        s.take(q + 1).filter(pred) == if pred(s[q]) {
            s.take(q).filter(pred).push(s[q])
        } else {
            s.take(q).filter(pred)
        },
{
    reveal(Seq::filter);
    assert(s.take(q + 1).drop_last() =~= s.take(q));
    assert(s.take(q + 1).last() == s[q]);
}

/// When the first pass is over, the two-letter labels begin.
proof fn lemma_enter_pairs(a: Seq<char>, count: int, k: int, labels: Seq<Seq<char>>, queue: Seq<Seq<char>>)
    requires
        k == a.len(),
        ({
            let f = first_level(a.take(k), count, k);
            labels == single_labels(f.0) && queue == single_labels(a.skip(k)) + pair_labels(f.1, a)
        }),
    ensures
        ({
            let f = first_level(a, count, k);
            let l2 = pair_labels(f.1, a);
            &&& labels == single_labels(f.0) + l2.take(0).filter(keeps_pair(f.0))
            &&& queue.len() >= l2.len()
            &&& queue.take(l2.len() as int) == l2.skip(0)
        }),
{
    assert(a.take(k) =~= a);
    let f = first_level(a, count, k);
    let l2 = pair_labels(f.1, a);
    reveal(Seq::filter);
    assert(l2.take(0) =~= Seq::<Seq<char>>::empty());
    assert(l2.take(0).filter(keeps_pair(f.0)) =~= Seq::<Seq<char>>::empty());
    assert(labels =~= single_labels(f.0) + l2.take(0).filter(keeps_pair(f.0)));
    assert(single_labels(a.skip(k)) =~= Seq::<Seq<char>>::empty());
    assert(queue =~= l2);
    assert(queue.take(l2.len() as int) =~= l2.skip(0));
}

/// What the search holds when it stops is the first `count` labels of the pool.
proof fn lemma_labels_result(a: Seq<char>, count: nat, k: int, p: int, labels: Seq<Seq<char>>)
    requires
        k == a.len(),
        k > 0,
        labels.len() == count,
        0 <= p,
        p <= k ==> labels == single_labels(first_level(a.take(p), count as int, k).0),
        p >= k ==> ({
            let f = first_level(a, count as int, k);
            let l2 = pair_labels(f.1, a);
            p - k <= l2.len() && labels == single_labels(f.0) + l2.take(p - k).filter(keeps_pair(f.0))
        }),
    ensures
        labels == labels_for(count, a),
{
    let f = first_level(a, count as int, k);
    let l2 = pair_labels(f.1, a);
    let pred = keeps_pair(f.0);
    if p <= k {
        lemma_first_level_len(a.take(p), count as int, k);
        if count <= k {
            lemma_first_level_small(a.take(p), count as int, k);
            lemma_first_level_small(a, count as int, k);
            reveal(Seq::filter);
            assert(pair_labels(Seq::<char>::empty(), a) =~= Seq::<Seq<char>>::empty());
            assert(labels_for(count, a) =~= single_labels(a).take(count as int));
            assert(labels =~= single_labels(a).take(count as int));
        } else {
            assert(false);
        }
    } else {
        let q = p - k;
        assert(l2 =~= l2.take(q) + l2.skip(q));
        Seq::filter_distributes_over_add(l2.take(q), l2.skip(q), pred);
        assert(labels_for(count, a) =~= (single_labels(f.0) + l2.take(q).filter(pred) + l2.skip(q).filter(pred)).take(count as int));
        assert(labels_for(count, a) =~= labels);
    }
}

/// Hands out `count` labels over `alphabet`, breadth first: one-letter labels while
/// they suffice, otherwise two-letter labels, never one that extends another.
pub fn generate_labels(count: usize, alphabet: &[char]) -> (r: Vec<String>)
    requires
        labels_fit(count as nat, alphabet@),
    ensures
        views(r@) == labels_for(count as nat, alphabet@),
{
    if alphabet.len() == 0 || count == 0 {
        assert(labels_for(count as nat, alphabet@) =~= Seq::<Seq<char>>::empty());
        return Vec::new();
    }
    let k = alphabet.len();
    let ghost a = alphabet@;
    let ghost kept = first_level(a, count as int, k as int).0;
    let ghost ext = first_level(a, count as int, k as int).1;
    let ghost l2 = pair_labels(ext, a);
    let ghost pred = keeps_pair(kept);
    proof {
        lemma_first_level_len(a, count as int, k as int);
        assert(l2.len() == ext.len() * k);
        assert(ext.len() * k <= k * k) by (nonlinear_arith)
            requires
                ext.len() <= k,
        ;
    }
    let mut labels: Vec<String> = Vec::new();
    let mut queue: VecDeque<String> = VecDeque::new();
    let mut i: usize = 0;
    while i < k
        invariant
            k == alphabet@.len(),
            i <= k,
            views(queue@) == single_labels(alphabet@.take(i as int)),
        decreases k - i,
    {
        let ghost before = queue@;
        let one = char_string(alphabet[i]);
        queue.push_back(one);
        assert(views(queue@) =~= views(before).push(one@));
        assert(views(queue@) =~= single_labels(alphabet@.take(i + 1)));
        i = i + 1;
    }
    assert(alphabet@.take(0) =~= Seq::<char>::empty());
    assert(a.skip(0) =~= a.take(k as int));
    assert(pair_labels(Seq::<char>::empty(), a) =~= Seq::<Seq<char>>::empty());
    assert(single_labels(Seq::<char>::empty()) =~= Seq::<Seq<char>>::empty());
    assert(views(labels@) =~= Seq::<Seq<char>>::empty());
    assert(views(queue@) =~= single_labels(a.skip(0)) + pair_labels(
        first_level(a.take(0), count as int, k as int).1,
        a,
    ));
    let ghost mut p: int = 0;
    while labels.len() < count
        invariant
            a == alphabet@,
            k == a.len(),
            k > 0,
            count > 0,
            labels_fit(count as nat, a),
            kept == first_level(a, count as int, k as int).0,
            ext == first_level(a, count as int, k as int).1,
            l2 == pair_labels(ext, a),
            l2.len() <= k * k,
            pred == keeps_pair(kept),
            0 <= p <= k + l2.len(),
            labels@.len() <= count,
            p <= k ==> ({
                let f = first_level(a.take(p), count as int, k as int);
                &&& views(labels@) == single_labels(f.0)
                &&& views(queue@) == single_labels(a.skip(p)) + pair_labels(f.1, a)
            }),
            p >= k ==> {
                &&& p - k <= l2.len()
                &&& views(labels@) == single_labels(kept) + l2.take(p - k).filter(pred)
                &&& queue@.len() >= l2.len() - (p - k)
                &&& views(queue@).take(l2.len() - (p - k)) == l2.skip(p - k)
            },
        decreases k + l2.len() - p,
    {
        proof {
            if p < k {
                lemma_first_level_len(a.take(p), count as int, k as int);
            } else {
                if p - k == l2.len() {
                    assert(l2.take(p - k) =~= l2);
                    assert(views(labels@).len() == labels@.len());
                }
            }
        }
        let ghost q = p - k;
        let ghost old_labels = views(labels@);
        let ghost old_queue = views(queue@);
        let ghost f = first_level(a.take(p), count as int, k as int);
        let cand = queue.pop_front().unwrap();
        let ghost rest = views(queue@);
        proof {
            assert(rest =~= old_queue.drop_first());
            assert(cand@ == old_queue[0]);
            if p < k {
                lemma_single_labels_skip(a, p);
                assert(old_queue[0] == seq![a[p]]);
                lemma_singles_never_conflict(old_labels, cand@);
                lemma_free_letters_all(old_labels, a);
                lemma_utf8_len_single(a[p]);
                lemma_first_level_step(a, count as int, k as int, p);
                assert(rest =~= single_labels(a.skip(p + 1)) + pair_labels(f.1, a));
            } else {
                assert(old_queue.take(l2.len() - q)[0] == l2.skip(q)[0]);
                assert(cand@ == l2[q]);
                lemma_pair_labels_len2(ext, a);
                lemma_filter_pairs_len(l2.take(q), pred);
                lemma_pair_conflict(kept, l2.take(q).filter(pred), cand@);
                lemma_utf8_len_at_least_len(cand@);
                lemma_filter_step(l2, pred, q);
                assert forall|j: int| 0 <= j < l2.len() - (q + 1) implies rest[j] == l2[q + 1 + j] by {
                    assert(old_queue.take(l2.len() - q)[j + 1] == l2.skip(q)[j + 1]);
                }
                assert(rest.take(l2.len() - (q + 1)) =~= l2.skip(q + 1));
            }
        }
        if labels_conflict(labels.as_slice(), cand.as_str()) {
            extend_queue(&mut queue, cand.as_str(), alphabet);
            proof {
                assert(p >= k);
                assert(kept.contains(cand@[0]));
                assert(!pred(l2[q]));
                assert(views(labels@) == single_labels(kept) + l2.take(q + 1).filter(pred));
                assert(views(queue@).take(l2.len() - (q + 1)) =~= l2.skip(q + 1));
                assert(q < l2.len());
                assert(views(queue@).len() == queue@.len());
                assert(queue@.len() >= l2.len() - (q + 1));
                p = p + 1;
            }
            continue;
        }
        let remaining = count - labels.len();
        if remaining > 1 && is_single_byte(cand.as_str()) && remaining > available_single_slots(
            labels.as_slice(),
            alphabet,
        ) {
            extend_queue(&mut queue, cand.as_str(), alphabet);
            proof {
                lemma_pair_labels_push(f.1, a[p], a);
                assert(seq![a[p]] =~= cand@);
                assert(views(queue@) =~= single_labels(a.skip(p + 1)) + pair_labels(f.1.push(a[p]), a));
                if p + 1 == k {
                    lemma_enter_pairs(a, count as int, k as int, views(labels@), views(queue@));
                }
                p = p + 1;
            }
            continue;
        }
        labels.push(cand);
        proof {
            if p < k {
                lemma_single_labels_push(f.0, a[p]);
                assert(views(labels@) =~= old_labels.push(seq![a[p]]));
                if p + 1 == k {
                    lemma_enter_pairs(a, count as int, k as int, views(labels@), views(queue@));
                }
            } else {
                assert(views(labels@) =~= old_labels.push(l2[q]));
            }
            p = p + 1;
        }
    }
    proof {
        lemma_labels_result(a, count as nat, k as int, p, views(labels@));
    }
    labels
}

/// How many letters of `ext` were not also kept whole.
pub open spec fn clean_count(ext: Seq<char>, kept: Seq<char>) -> nat
    decreases ext.len(),
{
    if ext.len() == 0 {
        0
    } else {
        clean_count(ext.drop_last(), kept) + if kept.contains(ext.last()) {
            0nat
        } else {
            1nat
        }
    }
}

proof fn lemma_kept_pairs_len(ext: Seq<char>, kept: Seq<char>, a: Seq<char>)
    requires
        a.len() > 0,
    ensures
        pair_labels(ext, a).filter(keeps_pair(kept)).len() == clean_count(ext, kept) * a.len(),
    decreases ext.len(),
{
    let pred = keeps_pair(kept);
    let k = a.len();
    if ext.len() == 0 {
        reveal(Seq::filter);
        assert(pair_labels(ext, a) =~= Seq::<Seq<char>>::empty());
    } else {
        let d = ext.drop_last();
        let e = ext.last();
        lemma_kept_pairs_len(d, kept, a);
        assert(d.push(e) =~= ext);
        lemma_pair_labels_push(d, e, a);
        let block = Seq::new(k, |j: int| seq![e].push(a[j]));
        Seq::filter_distributes_over_add(pair_labels(d, a), block, pred);
        lemma_block_filter(e, kept, a, block.len());
        assert(block.filter(pred).len() == if kept.contains(e) { 0 } else { k });
        assert((clean_count(d, kept) + 1) * k == clean_count(d, kept) * k + k) by (nonlinear_arith);
    }
}

/// The extensions of one letter pass the filter all together or not at all.
proof fn lemma_block_filter(e: char, kept: Seq<char>, a: Seq<char>, n: nat)
    requires
        n <= a.len(),
    ensures
        Seq::new(n, |j: int| seq![e].push(a[j])).filter(keeps_pair(kept)).len() == if kept.contains(e) {
            0
        } else {
            n
        },
    decreases n,
{
    reveal(Seq::filter);
    let block = Seq::new(n, |j: int| seq![e].push(a[j]));
    if n > 0 {
        lemma_block_filter(e, kept, a, (n - 1) as nat);
        assert(block.drop_last() =~= Seq::new((n - 1) as nat, |j: int| seq![e].push(a[j])));
        assert(block.last()[0] == e);
    }
}

/// A control together with the label that picks it.
#[derive(Debug)]
pub struct HintTarget {
    pub element: ScannedElement,
    pub label: String,
}

impl Clone for HintTarget {
    fn clone(&self) -> (r: Self)
        ensures
            r == *self,
    {
        HintTarget { element: self.element.clone(), label: self.label.clone() }
    }
}

/// Gives each element, in order, the label that `generate_labels` hands out for it.
pub fn assign_hints(elements: Vec<ScannedElement>, alphabet: &[char]) -> (r: Vec<HintTarget>)
    requires
        labels_fit(elements@.len(), alphabet@),
    ensures
        r@.len() == labels_for(elements@.len(), alphabet@).len(),
        forall|i: int|
            0 <= i < r@.len() ==> (#[trigger] r@[i]).element == elements@[i] && r@[i].label@
                == labels_for(elements@.len(), alphabet@)[i],
{
    if elements.len() == 0 {
        assert(labels_for(0, alphabet@) =~= Seq::<Seq<char>>::empty());
        return Vec::new();
    }
    let labels = generate_labels(elements.len(), alphabet);
    let ghost want = labels_for(elements@.len(), alphabet@);
    proof {
        if alphabet@.len() > 0 {
            lemma_labels_count(elements@.len(), alphabet@);
        }
    }
    let n = labels.len();
    assert(views(labels@).len() == labels@.len());
    let mut out: Vec<HintTarget> = Vec::new();
    let mut i: usize = 0;
    while i < n
        invariant
            n == labels@.len(),
            n <= elements@.len(),
            views(labels@) == want,
            i <= n,
            out@.len() == i,
            forall|j: int|
                0 <= j < i ==> (#[trigger] out@[j]).element == elements@[j] && out@[j].label@
                    == want[j],
        decreases n - i,
    {
        assert(views(labels@)[i as int] == labels@[i as int]@);
        out.push(HintTarget { element: elements[i].clone(), label: labels[i].clone() });
        i = i + 1;
    }
    out
}

/// Whether `count` labels can be found over `alphabet`, which `generate_labels`
/// needs (the search itself would otherwise never finish).
pub fn can_generate_labels(count: usize, alphabet: &[char]) -> (r: bool)
    ensures
        r == labels_fit(count as nat, alphabet@),
{
    let k = alphabet.len();
    if k == 0 {
        return true;
    }
    let ghost a = alphabet@;
    let mut kept: Vec<char> = Vec::new();
    let mut ext: Vec<char> = Vec::new();
    let mut i: usize = 0;
    while i < k
        invariant
            k == a.len(),
            a == alphabet@,
            i <= k,
            (kept@, ext@) == first_level(a.take(i as int), count as int, k as int),
            kept@.len() + ext@.len() == i,
        decreases k - i,
    {
        proof {
            lemma_first_level_step(a, count as int, k as int, i as int);
            lemma_first_level_len(a.take(i + 1), count as int, k as int);
        }
        let c = alphabet[i];
        if count > kept.len() && count - kept.len() > k && char_width_is_one(c) {
            ext.push(c);
        } else {
            kept.push(c);
        }
        i = i + 1;
    }
    assert(a.take(k as int) =~= a);
    let mut clean: usize = 0;
    let mut j: usize = 0;
    while j < ext.len()
        invariant
            j <= ext@.len(),
            clean == clean_count(ext@.take(j as int), kept@),
            clean <= j,
        decreases ext.len() - j,
    {
        assert(ext@.take(j + 1).drop_last() =~= ext@.take(j as int));
        let e = ext[j];
        let mut found = false;
        let mut m: usize = 0;
        while m < kept.len()
            invariant
                m <= kept@.len(),
                found == kept@.take(m as int).contains(e),
            decreases kept.len() - m,
        {
            proof {
                let t = kept@.take(m + 1);
                if found {
                    let w = choose|w: int| 0 <= w < m && kept@.take(m as int)[w] == e;
                    assert(t[w] == e);
                }
                if kept@[m as int] == e {
                    assert(t[m as int] == e);
                }
                if t.contains(e) {
                    let w = choose|w: int| 0 <= w < t.len() && t[w] == e;
                    if w < m {
                        assert(kept@.take(m as int)[w] == e);
                    }
                }
            }
            if kept[m] == e {
                found = true;
            }
            m = m + 1;
        }
        assert(kept@.take(kept@.len() as int) =~= kept@);
        if !found {
            clean = clean + 1;
        }
        j = j + 1;
    }
    assert(ext@.take(ext@.len() as int) =~= ext@);
    proof {
        lemma_kept_pairs_len(ext@, kept@, a);
        assert(clean * k <= k * k) by (nonlinear_arith)
            requires
                clean <= k,
        ;
        assert((k as u128) * (k as u128) <= 0xffff_ffff_ffff_fffe_0000_0000_0000_0001) by (nonlinear_arith)
            requires
                k <= 0xffff_ffff_ffff_ffff,
        ;
    }
    let pool = kept.len() as u128 + (clean as u128) * (k as u128);
    count as u128 <= pool
}

/// No label is a prefix of another (nor equal to another).
pub open spec fn prefix_free(ls: Seq<Seq<char>>) -> bool {
    forall|i: int, j: int|
        0 <= i < ls.len() && 0 <= j < ls.len() && i != j ==> !is_prefix(
            #[trigger] ls[i],
            #[trigger] ls[j],
        )
}

proof fn lemma_first_level_parts(a: Seq<char>, count: int, k: int)
    ensures
        ({
            let f = first_level(a, count, k);
            &&& forall|c: char| #[trigger] f.0.contains(c) ==> a.contains(c)
            &&& forall|c: char| #[trigger] f.1.contains(c) ==> a.contains(c)
            &&& a.no_duplicates() ==> {
                &&& f.0.no_duplicates()
                &&& f.1.no_duplicates()
                &&& forall|c: char| #[trigger] f.0.contains(c) ==> !f.1.contains(c)
            }
        }),
    decreases a.len(),
{
    if a.len() > 0 {
        let d = a.drop_last();
        lemma_first_level_parts(d, count, k);
        let f = first_level(a, count, k);
        let g = first_level(d, count, k);
        let c = a.last();
        assert forall|x: char| #[trigger] g.0.contains(x) implies a.contains(x) by {
            let i = choose|i: int| 0 <= i < d.len() && d[i] == x;
            assert(a[i] == x);
        }
        assert forall|x: char| #[trigger] g.1.contains(x) implies a.contains(x) by {
            let i = choose|i: int| 0 <= i < d.len() && d[i] == x;
            assert(a[i] == x);
        }
        assert(a[a.len() - 1] == c);
        assert forall|x: char| #[trigger] f.0.contains(x) implies a.contains(x) by {
            if x == c {
                assert(a[a.len() - 1] == x);
            } else {
                let i = choose|i: int| 0 <= i < f.0.len() && f.0[i] == x;
                if i < g.0.len() {
                    assert(g.0[i] == x);
                    assert(g.0.contains(x));
                }
            }
        }
        assert forall|x: char| #[trigger] f.1.contains(x) implies a.contains(x) by {
            if x == c {
                assert(a[a.len() - 1] == x);
            } else {
                let i = choose|i: int| 0 <= i < f.1.len() && f.1[i] == x;
                if i < g.1.len() {
                    assert(g.1[i] == x);
                    assert(g.1.contains(x));
                }
            }
        }
        if a.no_duplicates() {
            assert(d.no_duplicates());
            assert(!d.contains(c)) by {
                if d.contains(c) {
                    let i = choose|i: int| 0 <= i < d.len() && d[i] == c;
                    assert(a[i] == a[a.len() - 1]);
                }
            }
            assert(!g.0.contains(c));
            assert(!g.1.contains(c));
            assert forall|x: char| #[trigger] f.0.contains(x) implies !f.1.contains(x) by {
                let i = choose|i: int| 0 <= i < f.0.len() && f.0[i] == x;
                if f.1.contains(x) {
                    let j = choose|j: int| 0 <= j < f.1.len() && f.1[j] == x;
                    if i < g.0.len() {
                        assert(g.0.contains(x));
                        if j < g.1.len() {
                            assert(g.1.contains(x));
                        }
                    } else {
                        if j < g.1.len() {
                            assert(g.1.contains(x));
                        }
                    }
                }
            }
        }
    }
}

proof fn lemma_filter_no_duplicates(s: Seq<Seq<char>>, pred: spec_fn(Seq<char>) -> bool)
    requires
        s.no_duplicates(),
    ensures
        s.filter(pred).no_duplicates(),
    decreases s.len(),
{
    reveal(Seq::filter);
    if s.len() > 0 {
        let d = s.drop_last();
        assert(d.no_duplicates());
        lemma_filter_no_duplicates(d, pred);
        if pred(s.last()) {
            if d.filter(pred).contains(s.last()) {
                d.lemma_filter_contains_rev(pred, s.last());
                let i = choose|i: int| 0 <= i < d.len() && d[i] == s.last();
                assert(s[i] == s[s.len() - 1]);
            }
        }
    }
}

proof fn lemma_pairs_no_duplicates(ext: Seq<char>, a: Seq<char>)
    requires
        ext.no_duplicates(),
        a.no_duplicates(),
        a.len() > 0,
    ensures
        pair_labels(ext, a).no_duplicates(),
{
    let k = a.len() as int;
    let l2 = pair_labels(ext, a);
    assert forall|i: int, j: int| 0 <= i < l2.len() && 0 <= j < l2.len() && i != j implies l2[i]
        != l2[j] by {
        assert(0 <= i / k < ext.len() && 0 <= i % k < k) by (nonlinear_arith)
            requires
                0 <= i < ext.len() * k,
                k > 0,
        ;
        assert(0 <= j / k < ext.len() && 0 <= j % k < k) by (nonlinear_arith)
            requires
                0 <= j < ext.len() * k,
                k > 0,
        ;
        if l2[i] == l2[j] {
            assert(l2[i][0] == l2[j][0] && l2[i][1] == l2[j][1]);
            assert(i / k == j / k);
            assert(i % k == j % k);
            assert(i == j) by (nonlinear_arith)
                requires
                    i / k == j / k,
                    i % k == j % k,
                    k > 0,
            {
                assert(i == k * (i / k) + i % k);
                assert(j == k * (j / k) + j % k);
            }
        }
    }
}

/// Law: the labels for `count` targets are exactly `count` labels.
pub proof fn lemma_labels_count(count: nat, a: Seq<char>)
    requires
        labels_fit(count, a),
        a.len() > 0,
    ensures
        labels_for(count, a).len() == count,
{
}

proof fn lemma_first_level_all_extended(a: Seq<char>, count: int, k: int)
    requires
        count > k,
        forall|i: int| 0 <= i < a.len() ==> utf8_width(#[trigger] a[i]) == 1,
    ensures
        first_level(a, count, k).0 == Seq::<char>::empty(),
        first_level(a, count, k).1 == a,
    decreases a.len(),
{
    if a.len() > 0 {
        let d = a.drop_last();
        assert forall|i: int| 0 <= i < d.len() implies utf8_width(#[trigger] d[i]) == 1 by {
            assert(d[i] == a[i]);
        }
        lemma_first_level_all_extended(d, count, k);
        assert(utf8_width(a[a.len() - 1]) == 1);
        assert(d.push(a.last()) =~= a);
    } else {
        assert(a =~= Seq::<char>::empty());
    }
}

proof fn lemma_filter_keeps_all(s: Seq<Seq<char>>, pred: spec_fn(Seq<char>) -> bool)
    requires
        forall|i: int| 0 <= i < s.len() ==> pred(#[trigger] s[i]),
    ensures
        s.filter(pred) == s,
    decreases s.len(),
{
    reveal(Seq::filter);
    if s.len() > 0 {
        let d = s.drop_last();
        assert forall|i: int| 0 <= i < d.len() implies pred(#[trigger] d[i]) by {
            assert(d[i] == s[i]);
        }
        lemma_filter_keeps_all(d, pred);
        assert(pred(s[s.len() - 1]));
        assert(d.push(s.last()) =~= s);
    }
}

/// Law: an alphabet of `k` single-byte letters labels up to `k * k` targets, and no
/// more: with more targets the search never finishes.
pub proof fn lemma_single_byte_capacity(count: nat, a: Seq<char>)
    requires
        a.len() > 0,
        forall|i: int| 0 <= i < a.len() ==> utf8_width(#[trigger] a[i]) == 1,
    ensures
        labels_fit(count, a) <==> count <= a.len() * a.len(),
{
    let k = a.len() as int;
    assert(k <= k * k) by (nonlinear_arith)
        requires
            k > 0,
    ;
    if count <= k {
        lemma_first_level_small(a, count as int, k);
        assert(label_pool(count, a).len() >= k);
    } else {
        lemma_first_level_all_extended(a, count as int, k);
        let pred = keeps_pair(Seq::<char>::empty());
        let l2 = pair_labels(a, a);
        assert forall|i: int| 0 <= i < l2.len() implies pred(#[trigger] l2[i]) by {}
        lemma_filter_keeps_all(l2, pred);
        assert(single_labels(Seq::<char>::empty()) =~= Seq::<Seq<char>>::empty());
        assert(label_pool(count, a) =~= l2);
    }
}

/// Law: every label has one or two letters.
pub proof fn lemma_labels_short(count: nat, a: Seq<char>)
    requires
        labels_fit(count, a),
    ensures
        forall|i: int|
            0 <= i < labels_for(count, a).len() ==> 1 <= (#[trigger] labels_for(count, a)[i]).len()
                <= 2,
{
    if a.len() > 0 {
        let k = a.len() as int;
        let f = first_level(a, count as int, k);
        let l2 = pair_labels(f.1, a);
        let pred = keeps_pair(f.0);
        lemma_pair_labels_len2(f.1, a);
        lemma_filter_pairs_len(l2, pred);
        let pool = single_labels(f.0) + l2.filter(pred);
        assert forall|i: int| 0 <= i < labels_for(count, a).len() implies 1 <= (
        #[trigger] labels_for(count, a)[i]).len() <= 2 by {
            assert(labels_for(count, a)[i] == pool[i]);
            if i >= f.0.len() {
                assert(pool[i] == l2.filter(pred)[i - f.0.len()]);
            }
        }
    }
}

/// Law: with no more targets than letters, the labels are the first `count`
/// letters, each on its own.
pub proof fn lemma_labels_few_targets(count: nat, a: Seq<char>)
    requires
        count <= a.len(),
    ensures
        labels_for(count, a) == single_labels(a.take(count as int)),
{
    if a.len() > 0 {
        lemma_first_level_small(a, count as int, a.len() as int);
        reveal(Seq::filter);
        assert(pair_labels(Seq::<char>::empty(), a) =~= Seq::<Seq<char>>::empty());
        assert(labels_for(count, a) =~= single_labels(a.take(count as int)));
    } else {
        assert(labels_for(count, a) =~= single_labels(a.take(count as int)));
    }
}

/// Law: over an alphabet without repeated letters, no label is a prefix of another,
/// so typing a whole label never leaves another label possible.
pub proof fn lemma_labels_prefix_free(count: nat, a: Seq<char>)
    requires
        a.no_duplicates(),
        labels_fit(count, a),
    ensures
        prefix_free(labels_for(count, a)),
{
    if a.len() == 0 {
        return;
    }
    let k = a.len() as int;
    let f = first_level(a, count as int, k);
    let kept = f.0;
    let ext = f.1;
    let pred = keeps_pair(kept);
    let l2 = pair_labels(ext, a);
    let pairs = l2.filter(pred);
    let pool = single_labels(kept) + pairs;
    lemma_first_level_parts(a, count as int, k);
    lemma_pairs_no_duplicates(ext, a);
    lemma_filter_no_duplicates(l2, pred);
    lemma_pair_labels_len2(ext, a);
    lemma_filter_pairs_len(l2, pred);
    assert forall|i: int, j: int|
        0 <= i < pool.len() && 0 <= j < pool.len() && i != j implies !is_prefix(
        #[trigger] pool[i],
        #[trigger] pool[j],
    ) by {
        let n = kept.len() as int;
        if i < n && j < n {
            assert(pool[i] == seq![kept[i]]);
            assert(pool[j] == seq![kept[j]]);
            if is_prefix(pool[i], pool[j]) {
                assert(pool[j].subrange(0, 1)[0] == kept[j]);
            }
        } else if i < n {
            assert(pool[i] == seq![kept[i]]);
            assert(pool[j] == pairs[j - n]);
            assert(pairs.contains(pairs[j - n]));
            l2.lemma_filter_pred(pred, j - n);
            if is_prefix(pool[i], pool[j]) {
                assert(pool[j].subrange(0, 1)[0] == pool[j][0]);
                assert(kept.contains(pool[j][0]));
            }
        } else if j < n {
            assert(pool[i] == pairs[i - n]);
            assert(pool[i].len() == 2);
        } else {
            assert(pool[i] == pairs[i - n]);
            assert(pool[j] == pairs[j - n]);
            assert(pool[i].len() == 2 && pool[j].len() == 2);
            if is_prefix(pool[i], pool[j]) {
                assert(pool[j].subrange(0, 2) =~= pool[j]);
            }
        }
    }
    let ls = labels_for(count, a);
    assert forall|i: int, j: int|
        0 <= i < ls.len() && 0 <= j < ls.len() && i != j implies !is_prefix(
        #[trigger] ls[i],
        #[trigger] ls[j],
    ) by {
        assert(ls[i] == pool[i] && ls[j] == pool[j]);
    }
}

} // verus!
