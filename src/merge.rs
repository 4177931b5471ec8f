//! The merge engine: contracts the adjacent pair with the earliest learned
//! rule until no rule applies.
use crate::tables::{get_pair, pair_entries, PairMap};
use ahash::AHashMap;
use vstd::prelude::*;

verus! {

/// A rule applies to the pair starting at position `i`.
pub open spec fn rule_at(rules: PairMap, s: Seq<u16>, i: int) -> bool {
    0 <= i && i + 1 < s.len() && rules.dom().contains((s[i], s[i + 1]))
}

/// The token that the rule at position `i` produces.
pub open spec fn result_at(rules: PairMap, s: Seq<u16>, i: int) -> u16 {
    rules[(s[i], s[i + 1])]
}

/// Among the pairs starting before `n`, the first position whose rule
/// produces the smallest token.
pub open spec fn best_pair(rules: PairMap, s: Seq<u16>, n: int) -> Option<int>
    decreases n,
{
    if n <= 0 {
        None
    } else {
        let prev = best_pair(rules, s, n - 1);
        if rule_at(rules, s, n - 1) && (prev is None || result_at(rules, s, n - 1) < result_at(
            rules,
            s,
            prev->0,
        )) {
            Some(n - 1)
        } else {
            prev
        }
    }
}

/// Replaces, left to right, every non-overlapping occurrence of the pair
/// `(a, b)` with `r`.
pub open spec fn replace_pair(s: Seq<u16>, a: u16, b: u16, r: u16) -> Seq<u16>
    decreases s.len(),
{
    if s.len() < 2 {
        s
    } else if s[0] == a && s[1] == b {
        seq![r] + replace_pair(s.skip(2), a, b, r)
    } else {
        seq![s[0]] + replace_pair(s.skip(1), a, b, r)
    }
}

/// The result of merging `s` until no rule applies.
pub open spec fn merged(rules: PairMap, s: Seq<u16>) -> Seq<u16>
    decreases s.len(),
{
    match best_pair(rules, s, s.len() - 1) {
        None => s,
        Some(i) => {
            let t = replace_pair(s, s[i], s[i + 1], result_at(rules, s, i));
            if t.len() < s.len() {
                merged(rules, t)
            } else {
                s
            }
        },
    }
}

/// The chosen pair has a rule, and no applicable pair has a rule whose
/// result is smaller; when none is chosen, no rule applies at all.
pub proof fn lemma_best_pair_is_earliest_rule(rules: PairMap, s: Seq<u16>, n: int)
    requires
        n <= s.len() - 1,
    ensures
        best_pair(rules, s, n) matches Some(i) ==> {
            &&& 0 <= i < n
            &&& rule_at(rules, s, i)
            &&& forall|j: int|
                0 <= j < n && #[trigger] rule_at(rules, s, j) ==> result_at(rules, s, i)
                    <= result_at(rules, s, j)
            &&& forall|j: int|
                0 <= j < i && #[trigger] rule_at(rules, s, j) ==> result_at(rules, s, i)
                    < result_at(rules, s, j)
        },
        best_pair(rules, s, n) is None ==> forall|j: int|
            0 <= j < n ==> !#[trigger] rule_at(rules, s, j),
    decreases n,
{
    if n > 0 {
        lemma_best_pair_is_earliest_rule(rules, s, n - 1);
    }
}

/// Replacing a pair that occurs in `s` makes it shorter, and never longer
/// in any case.
pub proof fn lemma_replace_shrinks(s: Seq<u16>, a: u16, b: u16, r: u16, i: int)
    ensures
        replace_pair(s, a, b, r).len() <= s.len(),
        0 <= i && i + 1 < s.len() && s[i] == a && s[i + 1] == b ==> replace_pair(s, a, b, r).len()
            < s.len(),
    decreases s.len(),
{
    if s.len() >= 2 {
        if s[0] == a && s[1] == b {
            lemma_replace_shrinks(s.skip(2), a, b, r, i - 2);
        } else {
            if 1 <= i && i + 1 < s.len() {
                assert(s.skip(1)[i - 1] == s[i]);
                assert(s.skip(1)[i] == s[i + 1]);
            }
            lemma_replace_shrinks(s.skip(1), a, b, r, i - 1);
        }
    }
}

/// Every token of `s` lies below `bound`.
pub open spec fn all_below(s: Seq<u16>, bound: int) -> bool {
    forall|i: int| 0 <= i < s.len() ==> #[trigger] s[i] < bound
}

/// Every rule produces a token below `bound`.
pub open spec fn results_below(rules: PairMap, bound: int) -> bool {
    forall|p: (u16, u16)| #[trigger] rules.dom().contains(p) ==> rules[p] < bound
}

/// Replacing a pair by a token below `bound` keeps every token below it.
pub proof fn lemma_replace_below(s: Seq<u16>, a: u16, b: u16, r: u16, bound: int)
    requires
        all_below(s, bound),
        r < bound,
    ensures
        all_below(replace_pair(s, a, b, r), bound),
    decreases s.len(),
{
    if s.len() >= 2 {
        if s[0] == a && s[1] == b {
            lemma_replace_below(s.skip(2), a, b, r, bound);
            let t = replace_pair(s.skip(2), a, b, r);
            assert(forall|i: int| 0 <= i < t.len() ==> (seq![r] + t)[i + 1] == t[i]);
        } else {
            lemma_replace_below(s.skip(1), a, b, r, bound);
            let t = replace_pair(s.skip(1), a, b, r);
            assert(forall|i: int| 0 <= i < t.len() ==> (seq![s[0]] + t)[i + 1] == t[i]);
        }
    }
}

/// Merging never produces a token that neither the input nor a rule holds:
/// when both lie below `bound`, so does the result.
pub proof fn lemma_merged_below(rules: PairMap, s: Seq<u16>, bound: int)
    requires
        all_below(s, bound),
        results_below(rules, bound),
    ensures
        all_below(merged(rules, s), bound),
    decreases s.len(),
{
    if s.len() >= 1 {
        lemma_best_pair_is_earliest_rule(rules, s, s.len() - 1);
        if let Some(i) = best_pair(rules, s, s.len() - 1) {
            let t = replace_pair(s, s[i], s[i + 1], result_at(rules, s, i));
            lemma_replace_below(s, s[i], s[i + 1], result_at(rules, s, i), bound);
            if t.len() < s.len() {
                lemma_merged_below(rules, t, bound);
            }
        }
    }
}

/// Finds the position of the pair to merge next, if any rule applies.
fn find_best_pair(rules: &AHashMap<(u16, u16), u16>, tokens: &Vec<u16>) -> (r: Option<(usize, u16)>)
    ensures
        tokens@.len() > 0 ==> (r matches Some((i, t)) ==> best_pair(
            pair_entries(*rules),
            tokens@,
            tokens@.len() - 1,
        ) == Some(i as int) && t == result_at(pair_entries(*rules), tokens@, i as int)),
        tokens@.len() > 0 ==> (r is None ==> best_pair(
            pair_entries(*rules),
            tokens@,
            tokens@.len() - 1,
        ) is None),
        tokens@.len() == 0 ==> r is None,
        r matches Some((i, t)) ==> i + 1 < tokens@.len(),
{
    let ghost m = pair_entries(*rules);
    let mut best: Option<(usize, u16)> = None;
    let mut i: usize = 0;
    while tokens.len() > 0 && i < tokens.len() - 1
        invariant
            tokens@.len() > 0 ==> i + 1 <= tokens@.len(),
            best matches Some((j, t)) ==> j < i,
            tokens@.len() == 0 ==> i == 0 && best is None,
            best matches Some((j, t)) ==> best_pair(m, tokens@, i as int) == Some(j as int) && t
                == result_at(m, tokens@, j as int),
            best is None ==> best_pair(m, tokens@, i as int) is None,
            m == pair_entries(*rules),
        decreases tokens@.len() - i,
    {
        proof {
            lemma_best_pair_is_earliest_rule(m, tokens@, i as int);
        }
        let found = get_pair(rules, (tokens[i], tokens[i + 1]));
        if let Some(t) = found {
            let better = match best {
                None => true,
                Some((_, bt)) => t < bt,
            };
            if better {
                best = Some((i, t));
            }
        }
        i = i + 1;
    }
    best
}

/// Replaces every non-overlapping occurrence of `(a, b)` with `r`, in place.
fn replace_in_place(tokens: &mut Vec<u16>, a: u16, b: u16, r: u16)
    ensures
        final(tokens)@ == replace_pair(old(tokens)@, a, b, r),
{
    let ghost orig = tokens@;
    let mut i: usize = 0;
    assert(orig.skip(0) =~= orig);
    assert(orig.subrange(0, 0) + replace_pair(orig, a, b, r) =~= replace_pair(orig, a, b, r));
    while tokens.len() > 0 && i < tokens.len() - 1
        invariant
            i <= tokens@.len(),
            tokens@.subrange(0, i as int) + replace_pair(tokens@.skip(i as int), a, b, r)
                == replace_pair(orig, a, b, r),
        decreases tokens@.len() - i,
    {
        let ghost before = tokens@;
        if tokens[i] == a && tokens[i + 1] == b {
            tokens.set(i, r);
            tokens.remove(i + 1);
            assert(before.skip(i as int).skip(2) =~= tokens@.skip(i + 1));
            assert(tokens@.subrange(0, i + 1) =~= before.subrange(0, i as int) + seq![r]);
        } else {
            assert(before.skip(i as int).skip(1) =~= tokens@.skip(i + 1));
            assert(tokens@.subrange(0, i + 1) =~= before.subrange(0, i as int) + seq![
                before[i as int],
            ]);
        }
        i = i + 1;
    }
    assert(tokens@.subrange(0, i as int) =~= tokens@.subrange(0, i as int));
    assert(replace_pair(tokens@.skip(i as int), a, b, r) == tokens@.skip(i as int));
    assert(tokens@.subrange(0, i as int) + tokens@.skip(i as int) =~= tokens@);
}

/// Applies the merge rules to the tokens of one word until no rule applies.
pub fn apply_merge_rules(rules: &AHashMap<(u16, u16), u16>, tokens: &mut Vec<u16>)
    ensures
        final(tokens)@ == merged(pair_entries(*rules), old(tokens)@),
{
    let ghost m = pair_entries(*rules);
    loop
        invariant
            merged(m, tokens@) == merged(m, old(tokens)@),
            m == pair_entries(*rules),
        decreases tokens@.len(),
    {
        let found = find_best_pair(rules, tokens);
        match found {
            None => {
                return;
            },
            Some((i, t)) => {
                let n = tokens.len();
                assert(i + 1 < n);
                let a = tokens[i];
                let b = tokens[i + 1];
                proof {
                    lemma_best_pair_is_earliest_rule(m, tokens@, tokens@.len() - 1);
                    lemma_replace_shrinks(tokens@, a, b, t, i as int);
                }
                replace_in_place(tokens, a, b, t);
            },
        }
    }
}

} // verus!
