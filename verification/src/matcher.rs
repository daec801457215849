//! Narrowing the hints down as the user types.
use vstd::prelude::*;
use crate::labels::{prefix_free, HintTarget};
use crate::text::{is_prefix, str_eq, str_starts_with, string_pop, string_push};

verus! {

/// What the typed prefix selects.
#[derive(Debug, Clone)]
pub enum MatchResult {
    /// Still narrowing; show only matching hints.
    Partial,
    /// Exactly one hint matches the typed prefix.
    Unique(HintTarget),
    /// No hints match.
    NoMatch,
}

/// The letters typed so far.
#[derive(Debug)]
pub struct HintMatcher {
    prefix: String,
}

/// The targets whose label starts with `prefix`, in order.
pub open spec fn matching(targets: Seq<HintTarget>, prefix: Seq<char>) -> Seq<HintTarget> {
    targets.filter(|t: HintTarget| is_prefix(prefix, t.label@))
}

/// What typing `prefix` selects among `targets`: nothing typed yet, or several
/// candidates, or one candidate that is not yet fully typed, is `Partial`; no
/// candidate is `NoMatch`; a single candidate whose label has been typed in full is
/// `Unique`.
pub open spec fn match_outcome(targets: Seq<HintTarget>, prefix: Seq<char>) -> MatchResult {
    let m = matching(targets, prefix);
    if prefix.len() == 0 {
        MatchResult::Partial
    } else if m.len() == 0 {
        MatchResult::NoMatch
    } else if m.len() == 1 && m[0].label@ == prefix {
        MatchResult::Unique(m[0])
    } else {
        MatchResult::Partial
    }
}

impl View for HintMatcher {
    type V = Seq<char>;

    closed spec fn view(&self) -> Seq<char> {
        self.prefix@
    }
}

impl HintMatcher {
    pub fn new() -> (r: Self)
        ensures
            r@ == Seq::<char>::empty(),
    {
        HintMatcher { prefix: String::new() }
    }

    pub fn prefix(&self) -> (r: &str)
        ensures
            r@ == self@,
    {
        self.prefix.as_str()
    }

    /// Adds a typed letter; there being no targets to look at, the outcome is `NoMatch`.
    pub fn push_char(&mut self, ch: char) -> (r: MatchResult)
        ensures
            final(self)@ == old(self)@.push(ch),
            r == match_outcome(Seq::empty(), final(self)@),
            r is NoMatch,
    {
        string_push(&mut self.prefix, ch);
        self.evaluate()
    }

    /// Forgets the last typed letter, if any.
    pub fn pop_char(&mut self)
        ensures
            final(self)@ == if old(self)@.len() == 0 {
                old(self)@
            } else {
                old(self)@.drop_last()
            },
    {
        let _ = string_pop(&mut self.prefix);
    }

    pub fn clear(&mut self)
        ensures
            final(self)@ == Seq::<char>::empty(),
    {
        self.prefix = String::new();
    }

    /// The outcome against no targets at all.
    pub fn evaluate(&self) -> (r: MatchResult)
        ensures
            r == match_outcome(Seq::empty(), self@),
            self@.len() == 0 ==> r is Partial,
            self@.len() > 0 ==> r is NoMatch,
    {
        let empty: Vec<HintTarget> = Vec::new();
        let r = self.evaluate_against(empty.as_slice());
        proof {
            reveal(Seq::filter);
        }
        r
    }

    /// The outcome of the typed prefix against `targets`.
    pub fn evaluate_against(&self, targets: &[HintTarget]) -> (r: MatchResult)
        ensures
            r == match_outcome(targets@, self@),
    {
        let ghost pred = |t: HintTarget| is_prefix(self@, t.label@);
        let prefix = self.prefix.as_str();
        if prefix.unicode_len() == 0 {
            return MatchResult::Partial;
        }
        let mut found: usize = 0;
        let mut first: usize = 0;
        let mut i: usize = 0;
        while i < targets.len()
            invariant
                prefix@ == self@,
                i <= targets@.len(),
                pred == (|t: HintTarget| is_prefix(self@, t.label@)),
                found == targets@.take(i as int).filter(pred).len(),
                found <= i,
                found > 0 ==> first < i && targets@.take(i as int).filter(pred)[0]
                    == targets@[first as int],
            decreases targets.len() - i,
        {
            proof {
                reveal(Seq::filter);
                assert(targets@.take(i + 1).drop_last() =~= targets@.take(i as int));
                let f = targets@.take(i as int).filter(pred);
                if found > 0 {
                    assert(f.push(targets@[i as int])[0] == f[0]);
                }
            }
            if str_starts_with(targets[i].label.as_str(), prefix) {
                if found == 0 {
                    first = i;
                }
                found = found + 1;
            }
            i = i + 1;
        }
        assert(targets@.take(targets@.len() as int) =~= targets@);
        if found == 0 {
            MatchResult::NoMatch
        } else if found == 1 && str_eq(targets[first].label.as_str(), prefix) {
            MatchResult::Unique(targets[first].clone())
        } else {
            MatchResult::Partial
        }
    }
}

/// Law: among targets whose labels are prefix-free, typing a target's whole label
/// selects exactly that target.
pub proof fn lemma_full_label_selects(targets: Seq<HintTarget>, i: int)
    requires
        0 <= i < targets.len(),
        prefix_free(targets.map_values(|t: HintTarget| t.label@)),
        targets[i].label@.len() > 0,
    ensures
        match_outcome(targets, targets[i].label@) == MatchResult::Unique(targets[i]),
{
    let p = targets[i].label@;
    let pred = |t: HintTarget| is_prefix(p, t.label@);
    let labels = targets.map_values(|t: HintTarget| t.label@);
    assert forall|j: int| 0 <= j < targets.len() implies (pred(#[trigger] targets[j]) <==> j == i) by {
        assert(labels[i] == p && labels[j] == targets[j].label@);
        if j == i {
            assert(targets[j].label@.subrange(0, p.len() as int) =~= p);
        }
    }
    lemma_filter_single(targets, pred, i);
}

/// A filter that keeps exactly one position keeps exactly that element.
proof fn lemma_filter_single(s: Seq<HintTarget>, pred: spec_fn(HintTarget) -> bool, i: int)
    requires
        0 <= i < s.len(),
        forall|j: int| 0 <= j < s.len() ==> (pred(#[trigger] s[j]) <==> j == i),
    ensures
        s.filter(pred) == seq![s[i]],
    decreases s.len(),
{
    reveal(Seq::filter);
    let d = s.drop_last();
    if i == s.len() - 1 {
        lemma_filter_none(d, pred);
        assert(s.filter(pred) =~= seq![s[i]]);
    } else {
        assert forall|j: int| 0 <= j < d.len() implies (pred(#[trigger] d[j]) <==> j == i) by {
            assert(d[j] == s[j]);
        }
        lemma_filter_single(d, pred, i);
        assert(!pred(s[s.len() - 1]));
    }
}

proof fn lemma_filter_none(s: Seq<HintTarget>, pred: spec_fn(HintTarget) -> bool)
    requires
        forall|j: int| 0 <= j < s.len() ==> !pred(#[trigger] s[j]),
    ensures
        s.filter(pred) == Seq::<HintTarget>::empty(),
    decreases s.len(),
{
    reveal(Seq::filter);
    if s.len() > 0 {
        let d = s.drop_last();
        assert forall|j: int| 0 <= j < d.len() implies !pred(#[trigger] d[j]) by {
            assert(d[j] == s[j]);
        }
        lemma_filter_none(d, pred);
        assert(!pred(s[s.len() - 1]));
    }
    assert(s.filter(pred) =~= Seq::<HintTarget>::empty());
}

/// Law: typing a letter and then backspacing leaves the typed prefix as it was.
pub proof fn lemma_push_pop(prefix: Seq<char>, ch: char)
    ensures
        prefix.push(ch).len() > 0,
        prefix.push(ch).drop_last() == prefix,
{
    assert(prefix.push(ch).drop_last() =~= prefix);
}

} // verus!
