//! Ranking of keywords by how often they occur.
//!
//! A ranking lists every distinct keyword once: the most frequent first,
//! and keywords of equal frequency in alphabetical order. The digest of a
//! page is the head of the ranking of its keywords.
//!
//! The ranking is computed on runs: a run names a keyword by the position
//! of one of its occurrences and carries a count. One run of count 1 for
//! each token is sorted by keyword, neighbouring runs of one keyword are
//! joined, and the joined runs are sorted by count. Throughout, the runs
//! account for every occurrence of every keyword.

use crate::text::{
    char_views, chars_of, join, lemma_lex_le_antisymmetric, lemma_lex_le_total,
    lemma_lex_le_transitive, lex_le, lex_le_chars, lex_lt, same_chars, string_views,
};
use vstd::prelude::*;
use vstd::relations::total_ordering;
use vstd::string::StringExecFns;

verus! {

/// How often `t` occurs in `tokens`.
pub open spec fn occurrences(tokens: Seq<Seq<char>>, t: Seq<char>) -> nat
    decreases tokens.len(),
{
    if tokens.len() == 0 {
        0
    } else {
        occurrences(tokens.drop_last(), t) + if tokens.last() == t {
            1nat
        } else {
            0nat
        }
    }
}

/// `a` ranks before `b` among `tokens`: it occurs more often, or as often
/// and comes first in alphabetical order.
pub open spec fn ranks_before(tokens: Seq<Seq<char>>, a: Seq<char>, b: Seq<char>) -> bool {
    ||| occurrences(tokens, a) > occurrences(tokens, b)
    ||| occurrences(tokens, a) == occurrences(tokens, b) && lex_lt(a, b)
}

/// `ranking` lists exactly the keywords that occur in `tokens`, each before
/// all those that it ranks before. (So none is listed twice.)
pub open spec fn is_ranking(tokens: Seq<Seq<char>>, ranking: Seq<Seq<char>>) -> bool {
    &&& forall|t: Seq<char>| #[trigger] ranking.contains(t) <==> tokens.contains(t)
    &&& forall|i: int, j: int|
        0 <= i < j < ranking.len() ==> ranks_before(
            tokens,
            #[trigger] ranking[i],
            #[trigger] ranking[j],
        )
}

/// `occurrences` counts what the multiset of the tokens counts.
pub proof fn lemma_occurrences_is_count(tokens: Seq<Seq<char>>, t: Seq<char>)
    ensures
        occurrences(tokens, t) == tokens.to_multiset().count(t),
    decreases tokens.len(),
{
    broadcast use vstd::seq_lib::group_to_multiset_ensures;

    if tokens.len() > 0 {
        lemma_occurrences_is_count(tokens.drop_last(), t);
        assert(tokens == tokens.drop_last().push(tokens.last()));
    }
}

/// A keyword occurs at least once exactly if the tokens contain it.
pub proof fn lemma_occurrences_positive(tokens: Seq<Seq<char>>, t: Seq<char>)
    ensures
        occurrences(tokens, t) > 0 <==> tokens.contains(t),
    decreases tokens.len(),
{
    if tokens.len() > 0 {
        let front = tokens.drop_last();
        lemma_occurrences_positive(front, t);
        if tokens.contains(t) {
            let i = choose|i: int| 0 <= i < tokens.len() && tokens[i] == t;
            if i < tokens.len() - 1 {
                assert(front[i] == t);
            }
        }
        if front.contains(t) {
            let i = choose|i: int| 0 <= i < front.len() && front[i] == t;
            assert(tokens[i] == t);
        }
        if tokens.last() == t {
            assert(tokens[tokens.len() - 1] == t);
        }
    }
}

/// No keyword ranks before itself, and of two keywords at most one ranks
/// before the other.
pub proof fn lemma_ranks_before_asymmetric(tokens: Seq<Seq<char>>, a: Seq<char>, b: Seq<char>)
    requires
        ranks_before(tokens, a, b),
    ensures
        !ranks_before(tokens, b, a),
        a != b,
{
    if lex_le(a, b) && lex_le(b, a) {
        lemma_lex_le_antisymmetric(a, b);
    }
}

/// Two lists that are each in strict rank order and hold the same keywords
/// are the same list.
pub proof fn lemma_rank_order_unique(tokens: Seq<Seq<char>>, x: Seq<Seq<char>>, y: Seq<Seq<char>>)
    requires
        forall|i: int, j: int|
            0 <= i < j < x.len() ==> ranks_before(tokens, #[trigger] x[i], #[trigger] x[j]),
        forall|i: int, j: int|
            0 <= i < j < y.len() ==> ranks_before(tokens, #[trigger] y[i], #[trigger] y[j]),
        forall|t: Seq<char>| #[trigger] x.contains(t) <==> y.contains(t),
    ensures
        x == y,
    decreases x.len(),
{
    if x.len() == 0 {
        if y.len() > 0 {
            assert(y.contains(y[0]));
            assert(x.contains(y[0]));
        }
        assert(x =~= y);
    } else {
        assert(x.contains(x[0]));
        assert(y.contains(x[0]));
        let p = choose|p: int| 0 <= p < y.len() && y[p] == x[0];
        assert(y.contains(y[0]));
        assert(x.contains(y[0]));
        let q = choose|q: int| 0 <= q < x.len() && x[q] == y[0];
        if p > 0 {
            assert(ranks_before(tokens, y[0], y[p]));
            lemma_ranks_before_asymmetric(tokens, y[0], y[p]);
            assert(q > 0);
            assert(ranks_before(tokens, x[0], x[q]));
        }
        assert(x[0] == y[0]);
        let xs = x.skip(1);
        let ys = y.skip(1);
        assert forall|t: Seq<char>| #[trigger] xs.contains(t) <==> ys.contains(t) by {
            if xs.contains(t) {
                let i = choose|i: int| 0 <= i < xs.len() && xs[i] == t;
                assert(x[i + 1] == t);
                assert(ranks_before(tokens, x[0], x[i + 1]));
                lemma_ranks_before_asymmetric(tokens, x[0], x[i + 1]);
                assert(x.contains(t));
                let k = choose|k: int| 0 <= k < y.len() && y[k] == t;
                assert(ys[k - 1] == t);
            }
            if ys.contains(t) {
                let i = choose|i: int| 0 <= i < ys.len() && ys[i] == t;
                assert(y[i + 1] == t);
                assert(ranks_before(tokens, y[0], y[i + 1]));
                lemma_ranks_before_asymmetric(tokens, y[0], y[i + 1]);
                assert(y.contains(t));
                assert(x.contains(t));
                let k = choose|k: int| 0 <= k < x.len() && x[k] == t;
                assert(xs[k - 1] == t);
            }
        }
        assert forall|i: int, j: int| 0 <= i < j < xs.len() implies ranks_before(
            tokens,
            #[trigger] xs[i],
            #[trigger] xs[j],
        ) by {
            assert(ranks_before(tokens, x[i + 1], x[j + 1]));
        }
        assert forall|i: int, j: int| 0 <= i < j < ys.len() implies ranks_before(
            tokens,
            #[trigger] ys[i],
            #[trigger] ys[j],
        ) by {
            assert(ranks_before(tokens, y[i + 1], y[j + 1]));
        }
        lemma_rank_order_unique(tokens, xs, ys);
        assert(x =~= seq![x[0]] + xs);
        assert(y =~= seq![y[0]] + ys);
    }
}

/// The ranking depends on nothing but how often each keyword occurs: token
/// lists with the same multiset have the same ranking, and a token list has
/// no two rankings.
pub proof fn lemma_ranking_unique(
    a: Seq<Seq<char>>,
    b: Seq<Seq<char>>,
    ranking_a: Seq<Seq<char>>,
    ranking_b: Seq<Seq<char>>,
)
    requires
        a.to_multiset() == b.to_multiset(),
        is_ranking(a, ranking_a),
        is_ranking(b, ranking_b),
    ensures
        ranking_a == ranking_b,
{
    assert forall|t: Seq<char>| occurrences(a, t) == occurrences(b, t) by {
        lemma_occurrences_is_count(a, t);
        lemma_occurrences_is_count(b, t);
    }
    assert forall|t: Seq<char>| a.contains(t) <==> b.contains(t) by {
        lemma_occurrences_positive(a, t);
        lemma_occurrences_positive(b, t);
    }
    assert forall|i: int, j: int| 0 <= i < j < ranking_b.len() implies ranks_before(
        a,
        #[trigger] ranking_b[i],
        #[trigger] ranking_b[j],
    ) by {
        assert(ranks_before(b, ranking_b[i], ranking_b[j]));
    }
    lemma_rank_order_unique(a, ranking_a, ranking_b);
}

/// The distinct strings of `tokens`, each where it occurs first.
spec fn distinct(tokens: Seq<Seq<char>>) -> Seq<Seq<char>>
    decreases tokens.len(),
{
    if tokens.len() == 0 {
        Seq::empty()
    } else {
        let front = distinct(tokens.drop_last());
        if front.contains(tokens.last()) {
            front
        } else {
            front.push(tokens.last())
        }
    }
}

proof fn lemma_distinct(tokens: Seq<Seq<char>>)
    ensures
        distinct(tokens).no_duplicates(),
        forall|t: Seq<char>| #[trigger] distinct(tokens).contains(t) <==> tokens.contains(t),
    decreases tokens.len(),
{
    if tokens.len() > 0 {
        let front = tokens.drop_last();
        let last = tokens.last();
        lemma_distinct(front);
        let before = distinct(front);
        let all = distinct(tokens);
        assert forall|t: Seq<char>| #[trigger] all.contains(t) <==> tokens.contains(t) by {
            if all.contains(t) {
                let k = choose|k: int| 0 <= k < all.len() && all[k] == t;
                if k < before.len() {
                    assert(before[k] == t);
                    assert(before.contains(t));
                    let i = choose|i: int| 0 <= i < front.len() && front[i] == t;
                    assert(tokens[i] == t);
                } else {
                    assert(tokens[tokens.len() - 1] == t);
                }
            }
            if tokens.contains(t) {
                let i = choose|i: int| 0 <= i < tokens.len() && tokens[i] == t;
                if i < front.len() {
                    assert(front[i] == t);
                    assert(before.contains(t));
                    let k = choose|k: int| 0 <= k < before.len() && before[k] == t;
                    assert(all[k] == t);
                } else if !before.contains(last) {
                    assert(all[all.len() - 1] == t);
                }
            }
        }
    }
}

/// The order of a ranking, made reflexive.
spec fn rank_le(tokens: Seq<Seq<char>>) -> spec_fn(Seq<char>, Seq<char>) -> bool {
    |a: Seq<char>, b: Seq<char>| a == b || ranks_before(tokens, a, b)
}

proof fn lemma_rank_le_is_total(tokens: Seq<Seq<char>>)
    ensures
        total_ordering(rank_le(tokens)),
{
    let leq = rank_le(tokens);
    assert forall|a: Seq<char>, b: Seq<char>| #[trigger] leq(a, b) && #[trigger] leq(b, a) implies a
        == b by {
        if ranks_before(tokens, a, b) {
            lemma_ranks_before_asymmetric(tokens, a, b);
        }
    }
    assert forall|a: Seq<char>, b: Seq<char>, c: Seq<char>| #[trigger]
        leq(a, b) && #[trigger] leq(b, c) implies leq(a, c) by {
        if lex_le(a, b) && lex_le(b, c) {
            lemma_lex_le_transitive(a, b, c);
            if a == c {
                lemma_lex_le_antisymmetric(a, b);
            }
        }
    }
    assert forall|a: Seq<char>, b: Seq<char>| #[trigger] leq(a, b) || #[trigger] leq(b, a) by {
        lemma_lex_le_total(a, b);
    }
}

/// Every list of tokens has a ranking.
pub proof fn lemma_ranking_exists(tokens: Seq<Seq<char>>)
    ensures
        exists|ranking: Seq<Seq<char>>| is_ranking(tokens, ranking),
{
    broadcast use vstd::seq_lib::group_to_multiset_ensures;

    let each = distinct(tokens);
    let leq = rank_le(tokens);
    let ranking = each.sort_by(leq);
    lemma_distinct(tokens);
    lemma_rank_le_is_total(tokens);
    each.lemma_sort_by_ensures(leq);
    each.lemma_multiset_has_no_duplicates();
    ranking.lemma_multiset_has_no_duplicates_conv();
    assert forall|t: Seq<char>| #[trigger] ranking.contains(t) <==> tokens.contains(t) by {
        assert(ranking.to_multiset().count(t) == each.to_multiset().count(t));
        assert(each.contains(t) <==> tokens.contains(t));
    }
    assert forall|i: int, j: int| 0 <= i < j < ranking.len() implies ranks_before(
        tokens,
        #[trigger] ranking[i],
        #[trigger] ranking[j],
    ) by {
        assert(leq(ranking[i], ranking[j]));
    }
    assert(is_ranking(tokens, ranking));
}

/// The ranking of `tokens`: its distinct keywords, the most frequent
/// first, and those of equal frequency in alphabetical order.
pub open spec fn ranking_of(tokens: Seq<Seq<char>>) -> Seq<Seq<char>> {
    choose|ranking: Seq<Seq<char>>| is_ranking(tokens, ranking)
}

/// `ranking_of` gives the ranking, and there is no other.
pub proof fn lemma_ranking_of(tokens: Seq<Seq<char>>, ranking: Seq<Seq<char>>)
    ensures
        is_ranking(tokens, ranking_of(tokens)),
        is_ranking(tokens, ranking) ==> ranking == ranking_of(tokens),
{
    lemma_ranking_exists(tokens);
    if is_ranking(tokens, ranking) {
        lemma_ranking_unique(tokens, tokens, ranking, ranking_of(tokens));
    }
}

/// A keyword, named by the position of one of its occurrences, together
/// with a number of occurrences.
#[derive(Clone, Copy)]
struct Run {
    count: usize,
    index: usize,
}

/// Whether every run names a position of `keys`.
spec fn in_range(keys: Seq<Seq<char>>, runs: Seq<Run>) -> bool {
    forall|k: int| 0 <= k < runs.len() ==> (#[trigger] runs[k]).index < keys.len()
}

/// The keyword that `r` stands for.
spec fn key_of(keys: Seq<Seq<char>>, r: Run) -> Seq<char> {
    keys[r.index as int]
}

/// What `r` adds to the number of occurrences of `t`.
spec fn share(keys: Seq<Seq<char>>, r: Run, t: Seq<char>) -> nat {
    if key_of(keys, r) == t {
        r.count as nat
    } else {
        0
    }
}

/// The number of occurrences of `t` that `runs` account for.
spec fn weight(keys: Seq<Seq<char>>, runs: Seq<Run>, t: Seq<char>) -> nat
    decreases runs.len(),
{
    if runs.len() == 0 {
        0
    } else {
        weight(keys, runs.drop_last(), t) + share(keys, runs.last(), t)
    }
}

/// The order that a ranking follows: the larger count first, and keywords
/// in alphabetical order where the counts are equal.
spec fn run_le(keys: Seq<Seq<char>>, a: Run, b: Run) -> bool {
    a.count > b.count || (a.count == b.count && lex_le(key_of(keys, a), key_of(keys, b)))
}

/// Whether `runs` follow that order.
spec fn sorted(keys: Seq<Seq<char>>, runs: Seq<Run>) -> bool {
    forall|i: int, j: int|
        0 <= i < j < runs.len() ==> run_le(keys, #[trigger] runs[i], #[trigger] runs[j])
}

/// Whether the keywords of `runs` are in strictly ascending alphabetical
/// order.
spec fn ascending(keys: Seq<Seq<char>>, runs: Seq<Run>) -> bool {
    forall|i: int, j: int|
        0 <= i < j < runs.len() ==> lex_lt(
            key_of(keys, #[trigger] runs[i]),
            key_of(keys, #[trigger] runs[j]),
        )
}

/// The keywords that `runs` stand for.
spec fn keys_of(keys: Seq<Seq<char>>, runs: Seq<Run>) -> Seq<Seq<char>> {
    Seq::new(runs.len(), |k: int| key_of(keys, runs[k]))
}

proof fn lemma_run_le_transitive(keys: Seq<Seq<char>>, a: Run, b: Run, c: Run)
    requires
        run_le(keys, a, b),
        run_le(keys, b, c),
    ensures
        run_le(keys, a, c),
{
    if a.count == b.count && b.count == c.count {
        lemma_lex_le_transitive(key_of(keys, a), key_of(keys, b), key_of(keys, c));
    }
}

proof fn lemma_run_le_total(keys: Seq<Seq<char>>, a: Run, b: Run)
    ensures
        run_le(keys, a, b) || run_le(keys, b, a),
{
    lemma_lex_le_total(key_of(keys, a), key_of(keys, b));
}

proof fn lemma_weight_push(keys: Seq<Seq<char>>, runs: Seq<Run>, r: Run, t: Seq<char>)
    ensures
        weight(keys, runs.push(r), t) == weight(keys, runs, t) + share(keys, r, t),
{
    assert(runs.push(r).drop_last() == runs);
}

proof fn lemma_weight_concat(keys: Seq<Seq<char>>, a: Seq<Run>, b: Seq<Run>, t: Seq<char>)
    ensures
        weight(keys, a + b, t) == weight(keys, a, t) + weight(keys, b, t),
    decreases b.len(),
{
    if b.len() == 0 {
        assert(a + b == a);
    } else {
        lemma_weight_concat(keys, a, b.drop_last(), t);
        assert((a + b).drop_last() == a + b.drop_last());
    }
}

/// Runs of which none stands for `t` account for no occurrence of it.
proof fn lemma_weight_absent(keys: Seq<Seq<char>>, runs: Seq<Run>, t: Seq<char>)
    requires
        forall|k: int| 0 <= k < runs.len() ==> key_of(keys, #[trigger] runs[k]) != t,
    ensures
        weight(keys, runs, t) == 0,
    decreases runs.len(),
{
    if runs.len() > 0 {
        let front = runs.drop_last();
        assert forall|k: int| 0 <= k < front.len() implies key_of(keys, #[trigger] front[k])
            != t by {
            assert(front[k] == runs[k]);
        }
        lemma_weight_absent(keys, front, t);
        assert(runs.last() == runs[runs.len() - 1]);
    }
}

/// A run for `t` accounts for at least its own count.
proof fn lemma_weight_one(keys: Seq<Seq<char>>, runs: Seq<Run>, a: int, t: Seq<char>)
    requires
        0 <= a < runs.len(),
        key_of(keys, runs[a]) == t,
    ensures
        weight(keys, runs, t) >= runs[a].count,
    decreases runs.len(),
{
    if a < runs.len() - 1 {
        lemma_weight_one(keys, runs.drop_last(), a, t);
    }
}

/// Two runs for `t` account for at least the sum of their counts.
proof fn lemma_weight_two(keys: Seq<Seq<char>>, runs: Seq<Run>, a: int, b: int, t: Seq<char>)
    requires
        0 <= a < b < runs.len(),
        key_of(keys, runs[a]) == t,
        key_of(keys, runs[b]) == t,
    ensures
        weight(keys, runs, t) >= runs[a].count + runs[b].count,
    decreases runs.len(),
{
    if b < runs.len() - 1 {
        lemma_weight_two(keys, runs.drop_last(), a, b, t);
    } else {
        lemma_weight_one(keys, runs.drop_last(), a, t);
    }
}

/// Among runs for distinct keywords, each accounts for all occurrences of
/// its keyword.
proof fn lemma_weight_ascending(keys: Seq<Seq<char>>, runs: Seq<Run>, k: int)
    requires
        ascending(keys, runs),
        0 <= k < runs.len(),
    ensures
        weight(keys, runs, key_of(keys, runs[k])) == runs[k].count,
    decreases runs.len(),
{
    let t = key_of(keys, runs[k]);
    let front = runs.drop_last();
    let last = runs.len() - 1;
    assert(ascending(keys, front)) by {
        assert forall|i: int, j: int| 0 <= i < j < front.len() implies lex_lt(
            key_of(keys, #[trigger] front[i]),
            key_of(keys, #[trigger] front[j]),
        ) by {
            assert(front[i] == runs[i] && front[j] == runs[j]);
        }
    }
    if k == last {
        assert forall|i: int| 0 <= i < front.len() implies key_of(keys, #[trigger] front[i])
            != t by {
            assert(front[i] == runs[i]);
            assert(lex_lt(key_of(keys, runs[i]), key_of(keys, runs[last])));
        }
        lemma_weight_absent(keys, front, t);
    } else {
        assert(lex_lt(key_of(keys, runs[k]), key_of(keys, runs[last])));
        assert(front[k] == runs[k]);
        lemma_weight_ascending(keys, front, k);
    }
}

/// Whether `a` comes no later than `b` in the order of a ranking.
fn run_le_exec(keys: &Vec<Vec<char>>, a: Run, b: Run) -> (r: bool)
    requires
        a.index < keys.len(),
        b.index < keys.len(),
    ensures
        r == run_le(char_views(keys@), a, b),
{
    a.count > b.count || (a.count == b.count && lex_le_chars(&keys[a.index], &keys[b.index]))
}

/// Merges two sorted lists of runs into one.
fn merge_runs(keys: &Vec<Vec<char>>, left: &Vec<Run>, right: &Vec<Run>) -> (out: Vec<Run>)
    requires
        in_range(char_views(keys@), left@),
        in_range(char_views(keys@), right@),
        sorted(char_views(keys@), left@),
        sorted(char_views(keys@), right@),
    ensures
        in_range(char_views(keys@), out@),
        sorted(char_views(keys@), out@),
        out.len() == left.len() + right.len(),
        forall|t: Seq<char>| #[trigger]
            weight(char_views(keys@), out@, t) == weight(char_views(keys@), left@, t) + weight(
                char_views(keys@),
                right@,
                t,
            ),
        forall|k: int|
            0 <= k < out.len() ==> left@.contains(#[trigger] out@[k]) || right@.contains(out@[k]),
{
    let ghost ks = char_views(keys@);
    let mut out: Vec<Run> = Vec::new();
    let mut i: usize = 0;
    let mut j: usize = 0;
    while i < left.len() || j < right.len()
        invariant
            ks == char_views(keys@),
            in_range(ks, left@),
            in_range(ks, right@),
            sorted(ks, left@),
            sorted(ks, right@),
            i <= left.len(),
            j <= right.len(),
            out.len() == i + j,
            in_range(ks, out@),
            sorted(ks, out@),
            forall|k: int|
                0 <= k < out.len() && i < left.len() ==> run_le(
                    ks,
                    #[trigger] out@[k],
                    left@[i as int],
                ),
            forall|k: int|
                0 <= k < out.len() && j < right.len() ==> run_le(
                    ks,
                    #[trigger] out@[k],
                    right@[j as int],
                ),
            forall|t: Seq<char>| #[trigger]
                weight(ks, out@, t) == weight(ks, left@.take(i as int), t) + weight(
                    ks,
                    right@.take(j as int),
                    t,
                ),
            forall|k: int|
                0 <= k < out.len() ==> left@.contains(#[trigger] out@[k]) || right@.contains(
                    out@[k],
                ),
        decreases left.len() - i + right.len() - j,
    {
        let from_left: bool = if j >= right.len() {
            true
        } else if i >= left.len() {
            false
        } else {
            run_le_exec(keys, left[i], right[j])
        };
        let ghost before = out@;
        if from_left {
            let r: Run = left[i];
            out.push(r);
            proof {
                assert(left@.take(i + 1) == left@.take(i as int).push(r));
                assert forall|t: Seq<char>| #[trigger]
                    weight(ks, out@, t) == weight(ks, left@.take(i + 1), t) + weight(
                        ks,
                        right@.take(j as int),
                        t,
                    ) by {
                    lemma_weight_push(ks, before, r, t);
                    lemma_weight_push(ks, left@.take(i as int), r, t);
                }
                assert forall|k: int| 0 <= k < out.len() && i + 1 < left.len() implies run_le(
                    ks,
                    #[trigger] out@[k],
                    left@[i + 1],
                ) by {
                    assert(run_le(ks, left@[i as int], left@[i + 1]));
                    if k < before.len() {
                        lemma_run_le_transitive(ks, before[k], left@[i as int], left@[i + 1]);
                    }
                }
                assert(left@[i as int] == r);
            }
            i = i + 1;
        } else {
            let r: Run = right[j];
            out.push(r);
            proof {
                if i < left.len() {
                    lemma_run_le_total(ks, left@[i as int], r);
                }
                assert(right@.take(j + 1) == right@.take(j as int).push(r));
                assert forall|t: Seq<char>| #[trigger]
                    weight(ks, out@, t) == weight(ks, left@.take(i as int), t) + weight(
                        ks,
                        right@.take(j + 1),
                        t,
                    ) by {
                    lemma_weight_push(ks, before, r, t);
                    lemma_weight_push(ks, right@.take(j as int), r, t);
                }
                assert forall|k: int| 0 <= k < out.len() && j + 1 < right.len() implies run_le(
                    ks,
                    #[trigger] out@[k],
                    right@[j + 1],
                ) by {
                    assert(run_le(ks, right@[j as int], right@[j + 1]));
                    if k < before.len() {
                        lemma_run_le_transitive(ks, before[k], right@[j as int], right@[j + 1]);
                    }
                }
                assert(right@[j as int] == r);
            }
            j = j + 1;
        }
    }
    proof {
        assert(left@.take(left.len() as int) == left@);
        assert(right@.take(right.len() as int) == right@);
    }
    out
}

/// Sorts the runs at the positions from `lo` up to `hi` into the order of a
/// ranking.
fn sort_runs(keys: &Vec<Vec<char>>, runs: &Vec<Run>, lo: usize, hi: usize) -> (out: Vec<Run>)
    requires
        lo <= hi <= runs.len(),
        in_range(char_views(keys@), runs@),
    ensures
        in_range(char_views(keys@), out@),
        sorted(char_views(keys@), out@),
        out.len() == hi - lo,
        forall|t: Seq<char>| #[trigger]
            weight(char_views(keys@), out@, t) == weight(
                char_views(keys@),
                runs@.subrange(lo as int, hi as int),
                t,
            ),
        forall|k: int|
            0 <= k < out.len() ==> runs@.subrange(lo as int, hi as int).contains(
                #[trigger] out@[k],
            ),
    decreases hi - lo,
{
    let ghost ks = char_views(keys@);
    let ghost whole = runs@.subrange(lo as int, hi as int);
    if hi - lo <= 1 {
        let mut out: Vec<Run> = Vec::new();
        if hi > lo {
            out.push(runs[lo]);
        }
        proof {
            assert(out@ == whole);
            assert forall|k: int| 0 <= k < out.len() implies whole.contains(#[trigger] out@[k]) by {
                assert(whole[k] == out@[k]);
            }
        }
        out
    } else {
        let mid: usize = lo + (hi - lo) / 2;
        let left = sort_runs(keys, runs, lo, mid);
        let right = sort_runs(keys, runs, mid, hi);
        let out = merge_runs(keys, &left, &right);
        proof {
            let first = runs@.subrange(lo as int, mid as int);
            let second = runs@.subrange(mid as int, hi as int);
            assert(whole == first + second);
            assert forall|t: Seq<char>| #[trigger]
                weight(ks, out@, t) == weight(ks, whole, t) by {
                lemma_weight_concat(ks, first, second, t);
            }
            assert forall|k: int| 0 <= k < out.len() implies whole.contains(#[trigger] out@[k]) by {
                let r = out@[k];
                if left@.contains(r) {
                    let a = choose|a: int| 0 <= a < left.len() && left@[a] == r;
                    assert(first.contains(left@[a]));
                    let b = choose|b: int| 0 <= b < first.len() && first[b] == r;
                    assert(whole[b] == r);
                } else {
                    let a = choose|a: int| 0 <= a < right.len() && right@[a] == r;
                    assert(second.contains(right@[a]));
                    let b = choose|b: int| 0 <= b < second.len() && second[b] == r;
                    assert(whole[b + (mid - lo)] == r);
                }
            }
        }
        out
    }
}

/// One run of count 1 for each position of `keys`.
fn single_runs(keys: &Vec<Vec<char>>) -> (out: Vec<Run>)
    ensures
        in_range(char_views(keys@), out@),
        out.len() == keys.len(),
        forall|k: int| 0 <= k < out.len() ==> (#[trigger] out@[k]).count == 1,
        forall|t: Seq<char>| #[trigger]
            weight(char_views(keys@), out@, t) == occurrences(char_views(keys@), t),
{
    let ghost ks = char_views(keys@);
    let mut out: Vec<Run> = Vec::new();
    let mut i: usize = 0;
    while i < keys.len()
        invariant
            ks == char_views(keys@),
            i <= keys.len(),
            out.len() == i,
            in_range(ks, out@),
            forall|k: int| 0 <= k < out.len() ==> (#[trigger] out@[k]).count == 1,
            forall|t: Seq<char>| #[trigger]
                weight(ks, out@, t) == occurrences(ks.take(i as int), t),
        decreases keys.len() - i,
    {
        let ghost before = out@;
        let r = Run { count: 1, index: i };
        out.push(r);
        proof {
            assert(ks.take(i + 1).drop_last() == ks.take(i as int));
            assert forall|t: Seq<char>| #[trigger]
                weight(ks, out@, t) == occurrences(ks.take(i + 1), t) by {
                lemma_weight_push(ks, before, r, t);
            }
        }
        i = i + 1;
    }
    proof {
        assert(ks.take(keys.len() as int) == ks);
    }
    out
}

/// Joins neighbouring runs for the same keyword into one, adding up their
/// counts.
fn count_runs(keys: &Vec<Vec<char>>, runs: &Vec<Run>) -> (out: Vec<Run>)
    requires
        in_range(char_views(keys@), runs@),
        sorted(char_views(keys@), runs@),
        forall|k: int| 0 <= k < runs.len() ==> (#[trigger] runs@[k]).count == 1,
    ensures
        in_range(char_views(keys@), out@),
        ascending(char_views(keys@), out@),
        forall|k: int| 0 <= k < out.len() ==> (#[trigger] out@[k]).count >= 1,
        forall|t: Seq<char>| #[trigger]
            weight(char_views(keys@), out@, t) == weight(char_views(keys@), runs@, t),
{
    let ghost ks = char_views(keys@);
    let mut out: Vec<Run> = Vec::new();
    let mut i: usize = 0;
    while i < runs.len()
        invariant
            ks == char_views(keys@),
            in_range(ks, runs@),
            sorted(ks, runs@),
            forall|k: int| 0 <= k < runs.len() ==> (#[trigger] runs@[k]).count == 1,
            i <= runs.len(),
            in_range(ks, out@),
            ascending(ks, out@),
            forall|k: int| 0 <= k < out.len() ==> 1 <= (#[trigger] out@[k]).count <= i,
            i > 0 ==> out.len() > 0 && key_of(ks, out@[out.len() - 1]) == key_of(
                ks,
                runs@[i - 1],
            ),
            forall|t: Seq<char>| #[trigger]
                weight(ks, out@, t) == weight(ks, runs@.take(i as int), t),
        decreases runs.len() - i,
    {
        let r: Run = runs[i];
        let ghost before = out@;
        let n: usize = out.len();
        proof {
            assert(runs@.take(i + 1) == runs@.take(i as int).push(r));
            if i > 0 {
                assert(run_le(ks, runs@[i - 1], runs@[i as int]));
            }
        }
        if n > 0 && same_chars(&keys[out[n - 1].index], &keys[r.index]) {
            let last: Run = out[n - 1];
            let joined = Run { count: last.count + 1, index: last.index };
            out.set(n - 1, joined);
            proof {
                assert(out@ == before.drop_last().push(joined));
                assert(before.last() == last);
                assert(runs@[i as int].count == 1);
                assert(key_of(ks, last) == key_of(ks, r));
                assert forall|t: Seq<char>| #[trigger]
                    weight(ks, out@, t) == weight(ks, runs@.take(i + 1), t) by {
                    lemma_weight_push(ks, before.drop_last(), joined, t);
                    lemma_weight_push(ks, runs@.take(i as int), r, t);
                    assert(weight(ks, before, t) == weight(ks, before.drop_last(), t) + share(
                        ks,
                        last,
                        t,
                    ));
                }
                assert forall|a: int, b: int| 0 <= a < b < out.len() implies lex_lt(
                    key_of(ks, #[trigger] out@[a]),
                    key_of(ks, #[trigger] out@[b]),
                ) by {
                    assert(key_of(ks, out@[a]) == key_of(ks, before[a]));
                    assert(key_of(ks, out@[b]) == key_of(ks, before[b]));
                }
            }
        } else {
            let fresh = Run { count: 1, index: r.index };
            out.push(fresh);
            proof {
                assert forall|t: Seq<char>| #[trigger]
                    weight(ks, out@, t) == weight(ks, runs@.take(i + 1), t) by {
                    lemma_weight_push(ks, before, fresh, t);
                    lemma_weight_push(ks, runs@.take(i as int), r, t);
                }
                assert forall|a: int, b: int| 0 <= a < b < out.len() implies lex_lt(
                    key_of(ks, #[trigger] out@[a]),
                    key_of(ks, #[trigger] out@[b]),
                ) by {
                    if b == n {
                        let top = key_of(ks, before[n - 1]);
                        assert(lex_le(top, key_of(ks, fresh)));
                        if a < n - 1 {
                            assert(lex_lt(key_of(ks, before[a]), top));
                            lemma_lex_le_transitive(key_of(ks, before[a]), top, key_of(ks, fresh));
                            if key_of(ks, before[a]) == key_of(ks, fresh) {
                                lemma_lex_le_antisymmetric(key_of(ks, before[a]), top);
                            }
                        }
                    }
                }
            }
        }
        i = i + 1;
    }
    proof {
        assert(runs@.take(runs.len() as int) == runs@);
    }
    out
}

/// Runs that account for the occurrences of every keyword, one run for
/// each, give a ranking once they are sorted.
proof fn lemma_sorted_runs_rank(keys: Seq<Seq<char>>, runs: Seq<Run>, ranked: Seq<Run>)
    requires
        in_range(keys, runs),
        ascending(keys, runs),
        forall|k: int| 0 <= k < runs.len() ==> (#[trigger] runs[k]).count >= 1,
        forall|t: Seq<char>| #[trigger] weight(keys, runs, t) == occurrences(keys, t),
        in_range(keys, ranked),
        sorted(keys, ranked),
        forall|t: Seq<char>| #[trigger] weight(keys, ranked, t) == weight(keys, runs, t),
        forall|k: int| 0 <= k < ranked.len() ==> runs.contains(#[trigger] ranked[k]),
    ensures
        is_ranking(keys, keys_of(keys, ranked)),
{
    let ranking = keys_of(keys, ranked);
    assert forall|k: int| 0 <= k < ranked.len() implies (#[trigger] ranked[k]).count >= 1
        && ranked[k].count == occurrences(keys, key_of(keys, ranked[k])) by {
        let m = choose|m: int| 0 <= m < runs.len() && runs[m] == ranked[k];
        lemma_weight_ascending(keys, runs, m);
        assert(weight(keys, ranked, key_of(keys, ranked[k])) == weight(
            keys,
            runs,
            key_of(keys, ranked[k]),
        ));
    }
    assert forall|i: int, j: int| 0 <= i < j < ranking.len() implies ranks_before(
        keys,
        #[trigger] ranking[i],
        #[trigger] ranking[j],
    ) by {
        assert(run_le(keys, ranked[i], ranked[j]));
        if ranking[i] == ranking[j] {
            lemma_weight_two(keys, ranked, i, j, ranking[i]);
        }
    }
    lemma_runs_cover(keys, ranked);
}

/// Runs that account for the occurrences of every keyword stand for
/// exactly the keywords that occur.
proof fn lemma_runs_cover(keys: Seq<Seq<char>>, runs: Seq<Run>)
    requires
        forall|k: int| 0 <= k < runs.len() ==> (#[trigger] runs[k]).count >= 1,
        forall|t: Seq<char>| #[trigger] weight(keys, runs, t) == occurrences(keys, t),
    ensures
        forall|t: Seq<char>| #[trigger] keys_of(keys, runs).contains(t) <==> keys.contains(t),
{
    let list = keys_of(keys, runs);
    assert forall|t: Seq<char>| #[trigger] list.contains(t) <==> keys.contains(t) by {
        lemma_occurrences_positive(keys, t);
        if list.contains(t) {
            let k = choose|k: int| 0 <= k < list.len() && list[k] == t;
            assert(runs[k].count >= 1);
            lemma_weight_one(keys, runs, k, t);
        }
        if keys.contains(t) {
            if forall|k: int| 0 <= k < runs.len() ==> key_of(keys, #[trigger] runs[k]) != t {
                lemma_weight_absent(keys, runs, t);
            } else {
                let k = choose|k: int| 0 <= k < runs.len() && key_of(keys, #[trigger] runs[k]) == t;
                assert(list[k] == t);
            }
        }
    }
}

/// The keywords of `tokens` at the positions `order`.
pub(crate) open spec fn picks(tokens: Seq<Seq<char>>, order: Seq<usize>) -> Seq<Seq<char>> {
    Seq::new(order.len(), |k: int| tokens[order[k] as int])
}

/// Ranks the keywords in `keys`. What comes back names each distinct
/// keyword once, by the position of one of its occurrences, in the order
/// of the ranking.
pub(crate) fn rank_indices(keys: &Vec<Vec<char>>) -> (order: Vec<usize>)
    ensures
        forall|k: int| 0 <= k < order.len() ==> #[trigger] order@[k] < keys.len(),
        is_ranking(char_views(keys@), picks(char_views(keys@), order@)),
{
    let ghost ks = char_views(keys@);
    let singles = single_runs(keys);
    let by_keyword = sort_runs(keys, &singles, 0, singles.len());
    proof {
        assert(singles@.subrange(0, singles.len() as int) == singles@);
        assert forall|k: int| 0 <= k < by_keyword.len() implies (#[trigger] by_keyword@[k]).count
            == 1 by {
            assert(singles@.contains(by_keyword@[k]));
        }
    }
    let runs = count_runs(keys, &by_keyword);
    let ranked = sort_runs(keys, &runs, 0, runs.len());
    proof {
        assert(runs@.subrange(0, runs.len() as int) == runs@);
        lemma_sorted_runs_rank(ks, runs@, ranked@);
    }
    let mut order: Vec<usize> = Vec::new();
    let mut i: usize = 0;
    while i < ranked.len()
        invariant
            ks == char_views(keys@),
            in_range(ks, ranked@),
            i <= ranked.len(),
            order.len() == i,
            forall|k: int| 0 <= k < i ==> #[trigger] order@[k] == ranked@[k].index,
        decreases ranked.len() - i,
    {
        order.push(ranked[i].index);
        i = i + 1;
    }
    proof {
        assert(picks(ks, order@) == keys_of(ks, ranked@));
    }
    order
}

/// `list` holds exactly the strings that occur in `tokens`, in strictly
/// ascending alphabetical order. (So none is listed twice.)
pub open spec fn is_sorted_set(tokens: Seq<Seq<char>>, list: Seq<Seq<char>>) -> bool {
    &&& forall|t: Seq<char>| #[trigger] list.contains(t) <==> tokens.contains(t)
    &&& forall|i: int, j: int|
        0 <= i < j < list.len() ==> lex_lt(#[trigger] list[i], #[trigger] list[j])
}

/// In a list without repetition every entry occurs once.
proof fn lemma_occurs_once(list: Seq<Seq<char>>, k: int)
    requires
        list.no_duplicates(),
        0 <= k < list.len(),
    ensures
        occurrences(list, list[k]) == 1,
    decreases list.len(),
{
    let front = list.drop_last();
    if k == list.len() - 1 {
        if front.contains(list[k]) {
            let i = choose|i: int| 0 <= i < front.len() && front[i] == list[k];
            assert(list[i] == list[k]);
        }
        lemma_occurrences_positive(front, list[k]);
    } else {
        assert(front[k] == list[k]);
        lemma_occurs_once(front, k);
    }
}

/// The strings of a token list have one sorted set only.
pub proof fn lemma_sorted_set_unique(tokens: Seq<Seq<char>>, x: Seq<Seq<char>>, y: Seq<Seq<char>>)
    requires
        is_sorted_set(tokens, x),
        is_sorted_set(tokens, y),
    ensures
        x == y,
{
    assert(x.no_duplicates());
    assert forall|i: int, j: int| 0 <= i < j < x.len() implies ranks_before(
        x,
        #[trigger] x[i],
        #[trigger] x[j],
    ) by {
        lemma_occurs_once(x, i);
        lemma_occurs_once(x, j);
    }
    assert forall|i: int, j: int| 0 <= i < j < y.len() implies ranks_before(
        x,
        #[trigger] y[i],
        #[trigger] y[j],
    ) by {
        assert(y.contains(y[i]) && y.contains(y[j]));
        assert(x.contains(y[i]) && x.contains(y[j]));
        let a = choose|a: int| 0 <= a < x.len() && x[a] == y[i];
        let b = choose|b: int| 0 <= b < x.len() && x[b] == y[j];
        lemma_occurs_once(x, a);
        lemma_occurs_once(x, b);
    }
    assert forall|t: Seq<char>| #[trigger] x.contains(t) <==> y.contains(t) by {
        assert(y.contains(t) <==> tokens.contains(t));
    }
    lemma_rank_order_unique(x, x, y);
}

/// The sorted set of `tokens`: its distinct strings in ascending
/// alphabetical order.
pub open spec fn sorted_set_of(tokens: Seq<Seq<char>>) -> Seq<Seq<char>> {
    choose|list: Seq<Seq<char>>| is_sorted_set(tokens, list)
}

/// `sorted_set_of` gives the sorted set, and there is no other.
pub proof fn lemma_sorted_set_of(tokens: Seq<Seq<char>>, list: Seq<Seq<char>>)
    ensures
        is_sorted_set(tokens, sorted_set_of(tokens)),
        is_sorted_set(tokens, list) ==> list == sorted_set_of(tokens),
{
    let each = distinct(tokens);
    let found = ranking_of(each);
    lemma_distinct(tokens);
    lemma_ranking_of(each, found);
    assert forall|t: Seq<char>| #[trigger] found.contains(t) <==> tokens.contains(t) by {
        assert(each.contains(t) <==> tokens.contains(t));
    }
    assert forall|i: int, j: int| 0 <= i < j < found.len() implies lex_lt(
        #[trigger] found[i],
        #[trigger] found[j],
    ) by {
        assert(ranks_before(each, found[i], found[j]));
        assert(found.contains(found[i]) && found.contains(found[j]));
        let a = choose|a: int| 0 <= a < each.len() && each[a] == found[i];
        let b = choose|b: int| 0 <= b < each.len() && each[b] == found[j];
        lemma_occurs_once(each, a);
        lemma_occurs_once(each, b);
    }
    assert(is_sorted_set(tokens, found));
    if is_sorted_set(tokens, list) {
        lemma_sorted_set_unique(tokens, list, sorted_set_of(tokens));
    }
}

/// Sorts the strings in `keys` and drops repetitions. What comes back
/// names each distinct string once, by the position of one of its
/// occurrences, in ascending alphabetical order.
pub(crate) fn distinct_indices(keys: &Vec<Vec<char>>) -> (order: Vec<usize>)
    ensures
        forall|k: int| 0 <= k < order.len() ==> #[trigger] order@[k] < keys.len(),
        is_sorted_set(char_views(keys@), picks(char_views(keys@), order@)),
{
    let ghost ks = char_views(keys@);
    let singles = single_runs(keys);
    let by_keyword = sort_runs(keys, &singles, 0, singles.len());
    proof {
        assert(singles@.subrange(0, singles.len() as int) == singles@);
        assert forall|k: int| 0 <= k < by_keyword.len() implies (#[trigger] by_keyword@[k]).count
            == 1 by {
            assert(singles@.contains(by_keyword@[k]));
        }
    }
    let runs = count_runs(keys, &by_keyword);
    proof {
        lemma_runs_cover(ks, runs@);
    }
    let mut order: Vec<usize> = Vec::new();
    let mut i: usize = 0;
    while i < runs.len()
        invariant
            ks == char_views(keys@),
            in_range(ks, runs@),
            i <= runs.len(),
            order.len() == i,
            forall|k: int| 0 <= k < i ==> #[trigger] order@[k] == runs@[k].index,
        decreases runs.len() - i,
    {
        order.push(runs[i].index);
        i = i + 1;
    }
    proof {
        let list = picks(ks, order@);
        assert(list == keys_of(ks, runs@));
        assert forall|a: int, b: int| 0 <= a < b < list.len() implies lex_lt(
            #[trigger] list[a],
            #[trigger] list[b],
        ) by {
            assert(lex_lt(key_of(ks, runs@[a]), key_of(ks, runs@[b])));
        }
    }
    order
}

/// The largest number of keywords in a digest.
pub const DIGEST_LIMIT: usize = 100;

/// The first `DIGEST_LIMIT` entries of `ranking`, or all of it if it has
/// no more.
pub open spec fn top(ranking: Seq<Seq<char>>) -> Seq<Seq<char>> {
    if ranking.len() <= DIGEST_LIMIT {
        ranking
    } else {
        ranking.take(DIGEST_LIMIT as int)
    }
}

/// The keyword digest of `tokens`: the head of their ranking.
pub open spec fn digest_of(tokens: Seq<Seq<char>>) -> Seq<Seq<char>> {
    top(ranking_of(tokens))
}

/// The text of a digest: its keywords with one space between neighbours.
pub open spec fn digest_text_of(digest: Seq<Seq<char>>) -> Seq<char> {
    join(digest, seq![' '])
}

/// The digest is a function of the multiset of the tokens: whatever the
/// order in which the same tokens were extracted, the digest is the same,
/// keyword by keyword.
pub proof fn lemma_digest_of_multiset(a: Seq<Seq<char>>, b: Seq<Seq<char>>)
    requires
        a.to_multiset() == b.to_multiset(),
    ensures
        ranking_of(a) == ranking_of(b),
        digest_of(a) == digest_of(b),
{
    lemma_ranking_of(a, ranking_of(a));
    lemma_ranking_of(b, ranking_of(b));
    lemma_ranking_unique(a, b, ranking_of(a), ranking_of(b));
}

/// A digest holds at most `DIGEST_LIMIT` keywords, none of them twice.
/// Each of them is one of the tokens, and stands before all those that
/// it ranks before.
pub proof fn lemma_digest_shape(tokens: Seq<Seq<char>>)
    ensures
        digest_of(tokens).len() <= DIGEST_LIMIT,
        digest_of(tokens).no_duplicates(),
        forall|k: int|
            0 <= k < digest_of(tokens).len() ==> tokens.contains(#[trigger] digest_of(tokens)[k]),
        forall|i: int, j: int|
            0 <= i < j < digest_of(tokens).len() ==> ranks_before(
                tokens,
                #[trigger] digest_of(tokens)[i],
                #[trigger] digest_of(tokens)[j],
            ),
{
    let r = ranking_of(tokens);
    let digest = digest_of(tokens);
    lemma_ranking_of(tokens, r);
    assert forall|k: int| 0 <= k < digest.len() implies tokens.contains(#[trigger] digest[k]) by {
        assert(digest[k] == r[k]);
        assert(r.contains(r[k]));
    }
    assert forall|i: int, j: int| 0 <= i < j < digest.len() implies ranks_before(
        tokens,
        #[trigger] digest[i],
        #[trigger] digest[j],
    ) by {
        assert(ranks_before(tokens, r[i], r[j]));
    }
    assert forall|i: int, j: int| 0 <= i < digest.len() && 0 <= j < digest.len() && i
        != j implies digest[i] != digest[j] by {
        if i < j {
            lemma_ranks_before_asymmetric(tokens, digest[i], digest[j]);
        } else {
            lemma_ranks_before_asymmetric(tokens, digest[j], digest[i]);
        }
    }
}

/// The keyword digest of `content`: its distinct keywords, the most
/// frequent first and those of equal frequency in alphabetical order, cut
/// off after `DIGEST_LIMIT` keywords.
pub fn keyword_digest(content: &Vec<String>) -> (digest: Vec<String>)
    ensures
        string_views(digest@) == digest_of(string_views(content@)),
        digest.len() <= DIGEST_LIMIT,
        string_views(digest@).no_duplicates(),
{
    let ghost tokens = string_views(content@);
    let mut keys: Vec<Vec<char>> = Vec::new();
    let mut i: usize = 0;
    while i < content.len()
        invariant
            i <= content.len(),
            keys.len() == i,
            forall|k: int| 0 <= k < i ==> (#[trigger] keys@[k])@ == content@[k]@,
        decreases content.len() - i,
    {
        keys.push(chars_of(content[i].as_str()));
        i = i + 1;
    }
    proof {
        assert(char_views(keys@) == tokens);
    }
    let order = rank_indices(&keys);
    let ghost ranking = picks(tokens, order@);
    let limit: usize = if order.len() <= DIGEST_LIMIT {
        order.len()
    } else {
        DIGEST_LIMIT
    };
    let mut digest: Vec<String> = Vec::new();
    let mut k: usize = 0;
    while k < limit
        invariant
            k <= limit <= order.len(),
            keys.len() == content.len(),
            digest.len() == k,
            forall|m: int| 0 <= m < order.len() ==> #[trigger] order@[m] < keys.len(),
            forall|m: int| 0 <= m < k ==> (#[trigger] digest@[m])@ == content@[order@[m] as int]@,
        decreases limit - k,
    {
        digest.push(content[order[k]].clone());
        k = k + 1;
    }
    proof {
        lemma_ranking_of(tokens, ranking);
        assert(string_views(digest@) == top(ranking));
        lemma_digest_shape(tokens);
    }
    digest
}

/// The text of `digest`: its keywords with one space between neighbours.
pub fn digest_text(digest: &Vec<String>) -> (text: String)
    ensures
        text@ == digest_text_of(string_views(digest@)),
{
    let ghost parts = string_views(digest@);
    let mut text = String::new();
    let mut i: usize = 0;
    while i < digest.len()
        invariant
            parts == string_views(digest@),
            i <= digest.len(),
            text@ == join(parts.take(i as int), seq![' ']),
        decreases digest.len() - i,
    {
        proof {
            reveal_strlit(" ");
            assert(" "@ == seq![' ']);
            assert(parts.take(i + 1).drop_last() == parts.take(i as int));
        }
        if i > 0 {
            text.append(" ");
        }
        text.append(digest[i].as_str());
        i = i + 1;
    }
    proof {
        assert(parts.take(digest.len() as int) == parts);
    }
    text
}

} // verus!
