//! Recipe scoring and selection: rank candidates by the sum of their tags'
//! accumulated preference scores and pick the highest.

use vstd::prelude::*;
use crate::catalog::{Recipe, RecipeView};
use crate::store::Tag;

verus! {

/// The persisted preference of a tag id: its first entry's score, or zero
/// for a tag never seen.
pub open spec fn likes_of(table: Seq<Tag>, id: i64) -> int
    decreases table.len(),
{
    if table.len() == 0 {
        0
    } else if table[0].id == id {
        table[0].likes as int
    } else {
        likes_of(table.drop_first(), id)
    }
}

/// Sum of the preferences of a recipe's tags.
pub open spec fn sum_likes(tags: Seq<crate::catalog::Tag>, table: Seq<Tag>) -> int
    decreases tags.len(),
{
    if tags.len() == 0 {
        0
    } else {
        likes_of(table, tags[0].id) + sum_likes(tags.drop_first(), table)
    }
}

/// A recipe's score: the sum over its tags of each tag's persisted score.
pub open spec fn score_of(r: RecipeView, table: Seq<Tag>) -> int {
    sum_likes(r.tags, table)
}

/// Looks one tag id up in the preference table.
fn lookup_likes(table: &Vec<Tag>, id: i64) -> (r: i64)
    ensures
        r as int == likes_of(table@, id),
{
    let mut k: usize = 0;
    proof {
        assert(table@.skip(0) =~= table@);
    }
    while k < table.len()
        invariant
            k <= table@.len(),
            likes_of(table@, id) == likes_of(table@.skip(k as int), id),
        decreases table@.len() - k,
    {
        proof {
            assert(table@.skip(k as int)[0] == table@[k as int]);
            assert(table@.skip(k as int).drop_first() =~= table@.skip(k + 1));
        }
        if table[k].id == id {
            return table[k].likes;
        }
        k = k + 1;
    }
    proof {
        assert(table@.skip(table@.len() as int) =~= Seq::<Tag>::empty());
    }
    0
}

/// Sums the preferences of one recipe's tags, exactly, in 128-bit space.
fn score_recipe(r: &Recipe, table: &Vec<Tag>) -> (s: i128)
    ensures
        s as int == score_of(r@, table@),
{
    let mut acc: i128 = 0;
    let mut k: usize = 0;
    proof {
        assert(r@.tags.skip(0) =~= r@.tags);
    }
    while k < r.tags.len()
        invariant
            k <= r@.tags.len(),
            r@.tags == r.tags@,
            -(k as int) * 0x8000_0000_0000_0000 <= acc as int,
            acc as int <= (k as int) * 0x8000_0000_0000_0000,
            score_of(r@, table@) == acc + sum_likes(r@.tags.skip(k as int), table@),
        decreases r@.tags.len() - k,
    {
        proof {
            assert(r@.tags.skip(k as int)[0] == r@.tags[k as int]);
            assert(r@.tags.skip(k as int).drop_first() =~= r@.tags.skip(k + 1));
        }
        let l = lookup_likes(table, r.tags[k].id);
        acc = acc + l as i128;
        k = k + 1;
    }
    proof {
        assert(r@.tags.skip(r@.tags.len() as int) =~= Seq::<crate::catalog::Tag>::empty());
    }
    acc
}

/// Inserts a scored recipe into an ascending list, after every entry of
/// equal or lower score: the stable-insertion step.
pub open spec fn insert_sorted(sorted: Seq<(RecipeView, int)>, x: (RecipeView, int)) -> Seq<
    (RecipeView, int),
>
    decreases sorted.len(),
{
    if sorted.len() == 0 {
        seq![x]
    } else if sorted[0].1 <= x.1 {
        seq![sorted[0]] + insert_sorted(sorted.drop_first(), x)
    } else {
        seq![x] + sorted
    }
}

/// Stable ascending sort by score.
pub open spec fn sort_by_score(s: Seq<(RecipeView, int)>) -> Seq<(RecipeView, int)>
    decreases s.len(),
{
    if s.len() == 0 {
        Seq::empty()
    } else {
        insert_sorted(sort_by_score(s.drop_last()), s.last())
    }
}

/// Each candidate paired with its score.
pub open spec fn pairs_of(rs: Seq<RecipeView>, table: Seq<Tag>) -> Seq<(RecipeView, int)> {
    rs.map_values(|r: RecipeView| (r, score_of(r, table)))
}

/// The selection: stable-sort the candidates by ascending score, reverse,
/// and take the first `n` — the `n` highest-scoring recipes in descending
/// score order, or all of them when fewer exist.
pub open spec fn spec_matching(rs: Seq<RecipeView>, n: int, table: Seq<Tag>) -> Seq<RecipeView> {
    let sorted = sort_by_score(pairs_of(rs, table));
    let picked = sorted.reverse().take(
        if n <= sorted.len() {
            n
        } else {
            sorted.len() as int
        },
    );
    picked.map_values(|p: (RecipeView, int)| p.0)
}

/// Scanning to the first higher-scored entry finds the stable insertion
/// point.
proof fn lemma_insert_at(sorted: Seq<(RecipeView, int)>, x: (RecipeView, int), j: int)
    requires
        0 <= j <= sorted.len(),
        forall|k: int| 0 <= k < j ==> (#[trigger] sorted[k]).1 <= x.1,
        j < sorted.len() ==> sorted[j].1 > x.1,
    ensures
        insert_sorted(sorted, x) == sorted.take(j) + seq![x] + sorted.skip(j),
    decreases j,
{
    if j == 0 {
        if sorted.len() == 0 {
            assert(insert_sorted(sorted, x) =~= sorted.take(0) + seq![x] + sorted.skip(0));
        } else {
            assert(sorted[0].1 > x.1);
            assert(insert_sorted(sorted, x) =~= sorted.take(0) + seq![x] + sorted.skip(0));
        }
    } else {
        assert(sorted[0].1 <= x.1);
        let tail = sorted.drop_first();
        assert(forall|k: int| 0 <= k < j - 1 ==> (#[trigger] tail[k]).1 <= x.1) by {
            assert(forall|k: int| 0 <= k < j - 1 ==> tail[k] == (#[trigger] sorted[k + 1]));
        }
        if j - 1 < tail.len() {
            assert(tail[j - 1] == sorted[j]);
        }
        lemma_insert_at(tail, x, j - 1);
        assert(insert_sorted(sorted, x) == seq![sorted[0]] + (tail.take(j - 1) + seq![x]
            + tail.skip(j - 1)));
        assert(seq![sorted[0]] + (tail.take(j - 1) + seq![x] + tail.skip(j - 1)) =~= sorted.take(j)
            + seq![x] + sorted.skip(j));
    }
}

/// Ranks the candidates by their accumulated tag preferences and returns the
/// `n_recipes` best, best first; all of them when fewer exist.
pub fn get_matching_recipes(recipes: Vec<Recipe>, n_recipes: usize, tags: &Vec<Tag>) -> (r: Vec<
    Recipe,
>)
    ensures
        r@.map_values(|x: Recipe| x@) == spec_matching(
            recipes@.map_values(|x: Recipe| x@),
            n_recipes as int,
            tags@,
        ),
{
    let ghost orig = recipes@;
    let ghost fv = |x: Recipe| x@;
    let ghost pairs = pairs_of(orig.map_values(fv), tags@);
    proof {
        assert(pairs.len() == orig.len());
        assert forall|k: int| 0 <= k < orig.len() implies #[trigger] pairs[k] == (
            orig[k]@,
            score_of(orig[k]@, tags@),
        ) by {
            assert(orig.map_values(fv)[k] == orig[k]@);
        }
    }
    // Pair every candidate with its score, in order.
    let mut rest = recipes;
    let mut scored: Vec<(Recipe, i128)> = Vec::new();
    proof {
        assert(orig.skip(0) =~= orig);
    }
    while rest.len() > 0
        invariant
            scored@.len() + rest@.len() == orig.len(),
            fv == (|x: Recipe| x@),
            pairs == pairs_of(orig.map_values(fv), tags@),
            pairs.len() == orig.len(),
            forall|k: int| 0 <= k < pairs.len() ==> #[trigger] pairs[k] == (
                orig[k]@,
                score_of(orig[k]@, tags@),
            ),
            rest@ == orig.skip(scored@.len() as int),
            forall|k: int| 0 <= k < scored@.len() ==> (#[trigger] scored@[k]).0@ == pairs[k].0 && (
            scored@[k]).1 as int == pairs[k].1,
        decreases rest@.len(),
    {
        let ghost done = scored@.len() as int;
        proof {
            assert(rest@[0] == orig[done]);
        }
        let r0 = rest.remove(0);
        proof {
            assert(rest@ =~= orig.skip(done).subrange(1, orig.skip(done).len() as int));
            assert(rest@ =~= orig.skip(done + 1));
        }
        let sc = score_recipe(&r0, tags);
        scored.push((r0, sc));
    }
    // Stable insertion sort, ascending by score.
    let mut sorted_v: Vec<(Recipe, i128)> = Vec::new();
    proof {
        assert(pairs.take(0) =~= Seq::<(RecipeView, int)>::empty());
    }
    while scored.len() > 0
        invariant
            scored@.len() <= pairs.len(),
            fv == (|x: Recipe| x@),
            pairs.len() == orig.len(),
            forall|k: int| 0 <= k < scored@.len() ==> (#[trigger] scored@[k]).0@ == pairs[(
            pairs.len() - scored@.len()) + k].0 && (scored@[k]).1 as int == pairs[(pairs.len()
                - scored@.len()) + k].1,
            sorted_v@.map_values(|p: (Recipe, i128)| (p.0@, p.1 as int)) == sort_by_score(
                pairs.take((pairs.len() - scored@.len()) as int),
            ),
        decreases scored@.len(),
    {
        let ghost done = (pairs.len() - scored@.len()) as int;
        let ghost pv = |p: (Recipe, i128)| (p.0@, p.1 as int);
        let ghost smap = sorted_v@.map_values(pv);
        proof {
            assert(scored@[0].0@ == pairs[done].0 && scored@[0].1 as int == pairs[done].1);
        }
        let p = scored.remove(0);
        proof {
            assert(pv(p) == pairs[done]);
        }
        let mut j: usize = 0;
        while j < sorted_v.len() && sorted_v[j].1 <= p.1
            invariant
                j <= sorted_v@.len(),
                forall|k: int| 0 <= k < j ==> (#[trigger] sorted_v@[k]).1 <= p.1,
            decreases sorted_v@.len() - j,
        {
            j = j + 1;
        }
        proof {
            assert forall|k: int| 0 <= k < j implies (#[trigger] smap[k]).1 <= pv(p).1 by {
                assert(smap[k] == pv(sorted_v@[k]));
            }
            if j < sorted_v@.len() {
                assert(smap[j as int] == pv(sorted_v@[j as int]));
            }
            lemma_insert_at(smap, pv(p), j as int);
        }
        sorted_v.insert(j, p);
        proof {
            assert(sorted_v@.map_values(pv) =~= smap.take(j as int) + seq![pv(p)] + smap.skip(
                j as int,
            ));
            assert(pairs.take(done + 1).drop_last() =~= pairs.take(done));
            assert(pairs.take(done + 1).last() == pairs[done]);
            assert(sort_by_score(pairs.take(done + 1)) == insert_sorted(
                sort_by_score(pairs.take(done)),
                pairs[done],
            ));
            assert(sorted_v@.map_values(|p2: (Recipe, i128)| (p2.0@, p2.1 as int))
                =~= sorted_v@.map_values(pv));
        }
    }
    proof {
        assert(pairs.take(pairs.len() as int) =~= pairs);
    }
    let ghost full = sort_by_score(pairs);
    proof {
        lemma_sort_len(pairs);
    }
    // Highest first: pop from the ascending order.
    let mut result: Vec<Recipe> = Vec::new();
    while result.len() < n_recipes && sorted_v.len() > 0
        invariant
            fv == (|x: Recipe| x@),
            full == sort_by_score(pairs),
            full.len() == pairs.len(),
            result@.len() + sorted_v@.len() == full.len(),
            result@.len() <= n_recipes,
            n_recipes < full.len() ==> result@.len() <= n_recipes,
            sorted_v@.map_values(|p: (Recipe, i128)| (p.0@, p.1 as int)) == full.take(
                sorted_v@.len() as int,
            ),
            forall|k: int| 0 <= k < result@.len() ==> (#[trigger] result@[k])@ == full[full.len()
                - 1 - k].0,
        decreases sorted_v@.len(),
    {
        let ghost pv = |p: (Recipe, i128)| (p.0@, p.1 as int);
        let ghost oldlen = sorted_v@.len() as int;
        let p = match sorted_v.pop() {
            Some(p) => p,
            None => {
                proof {
                    assert(false);
                }
                return result;
            },
        };
        proof {
            assert(full.take(oldlen)[oldlen - 1] == full[oldlen - 1]);
            assert(sorted_v@.map_values(pv) =~= full.take(oldlen - 1));
            assert(pv(p) == full[oldlen - 1]);
        }
        result.push(p.0);
    }
    proof {
        let n = n_recipes as int;
        let m = if n <= full.len() {
            n
        } else {
            full.len() as int
        };
        assert(result@.len() == m);
        assert forall|k: int| 0 <= k < m implies #[trigger] result@.map_values(fv)[k]
            == spec_matching(orig.map_values(fv), n, tags@)[k] by {
            assert(result@.map_values(fv)[k] == result@[k]@);
            assert(full.reverse()[k] == full[full.len() - 1 - k]);
            assert(spec_matching(orig.map_values(fv), n, tags@)[k] == full.reverse().take(m)[k].0);
        }
        assert(result@.map_values(fv) =~= spec_matching(orig.map_values(fv), n, tags@));
        assert(result@.map_values(|x: Recipe| x@) =~= result@.map_values(fv));
        assert(orig.map_values(|x: Recipe| x@) =~= orig.map_values(fv));
    }
    result
}

/// The sort keeps the number of candidates.
pub proof fn lemma_sort_len(s: Seq<(RecipeView, int)>)
    ensures
        sort_by_score(s).len() == s.len(),
    decreases s.len(),
{
    if s.len() > 0 {
        lemma_sort_len(s.drop_last());
        lemma_insert_len(sort_by_score(s.drop_last()), s.last());
    }
}

proof fn lemma_insert_len(sorted: Seq<(RecipeView, int)>, x: (RecipeView, int))
    ensures
        insert_sorted(sorted, x).len() == sorted.len() + 1,
    decreases sorted.len(),
{
    if sorted.len() > 0 && sorted[0].1 <= x.1 {
        lemma_insert_len(sorted.drop_first(), x);
    }
}

proof fn lemma_insert_members(sorted: Seq<(RecipeView, int)>, x: (RecipeView, int))
    ensures
        forall|y: (RecipeView, int)| #[trigger]
            insert_sorted(sorted, x).contains(y) ==> y == x || sorted.contains(y),
    decreases sorted.len(),
{
    if sorted.len() == 0 {
        assert forall|y: (RecipeView, int)| #[trigger]
            insert_sorted(sorted, x).contains(y) implies y == x || sorted.contains(y) by {
            assert(insert_sorted(sorted, x) == seq![x]);
        }
    } else if sorted[0].1 <= x.1 {
        lemma_insert_members(sorted.drop_first(), x);
        assert forall|y: (RecipeView, int)| #[trigger]
            insert_sorted(sorted, x).contains(y) implies y == x || sorted.contains(y) by {
            let ins = insert_sorted(sorted, x);
            let k = choose|k: int| 0 <= k < ins.len() && ins[k] == y;
            if k == 0 {
                assert(y == sorted[0]);
                assert(sorted.contains(y));
            } else {
                let tail_ins = insert_sorted(sorted.drop_first(), x);
                assert(ins[k] == tail_ins[k - 1]);
                assert(tail_ins.contains(y));
                if sorted.drop_first().contains(y) {
                    let m = choose|m: int|
                        0 <= m < sorted.drop_first().len() && sorted.drop_first()[m] == y;
                    assert(sorted[m + 1] == y);
                    assert(sorted.contains(y));
                }
            }
        }
    } else {
        assert forall|y: (RecipeView, int)| #[trigger]
            insert_sorted(sorted, x).contains(y) implies y == x || sorted.contains(y) by {
            let ins = insert_sorted(sorted, x);
            let k = choose|k: int| 0 <= k < ins.len() && ins[k] == y;
            if k > 0 {
                assert(ins[k] == sorted[k - 1]);
                assert(sorted.contains(y));
            }
        }
    }
}

proof fn lemma_sort_members(s: Seq<(RecipeView, int)>)
    ensures
        forall|y: (RecipeView, int)| #[trigger] sort_by_score(s).contains(y) ==> s.contains(y),
    decreases s.len(),
{
    if s.len() > 0 {
        lemma_sort_members(s.drop_last());
        lemma_insert_members(sort_by_score(s.drop_last()), s.last());
        assert forall|y: (RecipeView, int)| #[trigger]
            sort_by_score(s).contains(y) implies s.contains(y) by {
            if y == s.last() {
                assert(s[s.len() - 1] == y);
            } else {
                assert(sort_by_score(s.drop_last()).contains(y));
                assert(s.drop_last().contains(y));
                let m = choose|m: int| 0 <= m < s.drop_last().len() && s.drop_last()[m] == y;
                assert(s[m] == y);
            }
        }
    }
}

/// Law: the selection serves only candidates — every selected recipe is one
/// of the offered ones.
pub proof fn lemma_matching_members(rs: Seq<RecipeView>, n: int, table: Seq<Tag>)
    requires
        n >= 0,
    ensures
        forall|k: int|
            0 <= k < spec_matching(rs, n, table).len() ==> rs.contains(
                #[trigger] spec_matching(rs, n, table)[k],
            ),
{
    let pairs = pairs_of(rs, table);
    let sorted = sort_by_score(pairs);
    lemma_sort_len(pairs);
    lemma_sort_members(pairs);
    let picked = spec_matching(rs, n, table);
    assert forall|k: int| 0 <= k < picked.len() implies rs.contains(#[trigger] picked[k]) by {
        let m = if n <= sorted.len() {
            n
        } else {
            sorted.len() as int
        };
        let p = sorted.reverse().take(m)[k];
        assert(picked[k] == p.0);
        assert(sorted.reverse()[k] == sorted[sorted.len() - 1 - k]);
        assert(p == sorted[sorted.len() - 1 - k]);
        assert(sorted.contains(p));
        assert(pairs.contains(p));
        let i = choose|i: int| 0 <= i < pairs.len() && pairs[i] == p;
        assert(pairs[i] == (rs[i], score_of(rs[i], table)));
        assert(rs[i] == p.0);
    }
}

/// Law: when fewer candidates exist than were asked for, every candidate is
/// selected; in general the selection holds the smaller of the two counts.
pub proof fn lemma_matching_len(rs: Seq<RecipeView>, n: int, table: Seq<Tag>)
    requires
        n >= 0,
    ensures
        spec_matching(rs, n, table).len() == if n <= rs.len() {
            n
        } else {
            rs.len() as int
        },
{
    lemma_sort_len(pairs_of(rs, table));
}

/// An ascending run stays ascending through a stable insertion.
proof fn lemma_insert_keeps_ascending(sorted: Seq<(RecipeView, int)>, x: (RecipeView, int))
    requires
        forall|i: int, j: int| 0 <= i <= j < sorted.len() ==> sorted[i].1 <= sorted[j].1,
    ensures
        forall|i: int, j: int|
            0 <= i <= j < insert_sorted(sorted, x).len() ==> insert_sorted(sorted, x)[i].1
                <= insert_sorted(sorted, x)[j].1,
    decreases sorted.len(),
{
    if sorted.len() == 0 {
    } else if sorted[0].1 <= x.1 {
        let tail = sorted.drop_first();
        assert(forall|i: int, j: int| 0 <= i <= j < tail.len() ==> tail[i].1 <= tail[j].1) by {
            assert(forall|k: int| 0 <= k < tail.len() ==> tail[k] == (#[trigger] sorted[k + 1]));
        }
        lemma_insert_keeps_ascending(tail, x);
        let ins = insert_sorted(sorted, x);
        let tins = insert_sorted(tail, x);
        lemma_insert_len(tail, x);
        assert forall|i: int, j: int| 0 <= i <= j < ins.len() implies ins[i].1 <= ins[j].1 by {
            if i == 0 && j > 0 {
                assert(ins[j] == tins[j - 1]);
                // The head is no larger than anything inserted after it.
                if tins[j - 1] == x {
                } else {
                    lemma_insert_members(tail, x);
                    assert(tins.contains(tins[j - 1]));
                    if tail.contains(tins[j - 1]) {
                        let m = choose|m: int| 0 <= m < tail.len() && tail[m] == tins[j - 1];
                        assert(sorted[m + 1] == tins[j - 1]);
                        assert(sorted[0].1 <= sorted[m + 1].1);
                    }
                }
            } else if i > 0 {
                assert(ins[i] == tins[i - 1]);
                assert(ins[j] == tins[j - 1]);
            }
        }
    } else {
        let ins = insert_sorted(sorted, x);
        assert forall|i: int, j: int| 0 <= i <= j < ins.len() implies ins[i].1 <= ins[j].1 by {
            if i == 0 && j > 0 {
                assert(ins[j] == sorted[j - 1]);
                assert(sorted[0].1 <= sorted[j - 1].1);
            } else if i > 0 {
                assert(ins[i] == sorted[i - 1]);
                assert(ins[j] == sorted[j - 1]);
            }
        }
    }
}

/// The sort output ascends by score.
proof fn lemma_sort_ascending(s: Seq<(RecipeView, int)>)
    ensures
        forall|i: int, j: int|
            0 <= i <= j < sort_by_score(s).len() ==> sort_by_score(s)[i].1 <= sort_by_score(
                s,
            )[j].1,
    decreases s.len(),
{
    if s.len() > 0 {
        lemma_sort_ascending(s.drop_last());
        lemma_insert_keeps_ascending(sort_by_score(s.drop_last()), s.last());
    }
}

/// Every pair of the sorted run still carries its recipe's score.
proof fn lemma_sort_pairs_scored(rs: Seq<RecipeView>, table: Seq<Tag>)
    ensures
        forall|k: int|
            0 <= k < sort_by_score(pairs_of(rs, table)).len() ==> (#[trigger] sort_by_score(
                pairs_of(rs, table),
            )[k]).1 == score_of(sort_by_score(pairs_of(rs, table))[k].0, table),
{
    let pairs = pairs_of(rs, table);
    let sorted = sort_by_score(pairs);
    lemma_sort_members(pairs);
    assert forall|k: int| 0 <= k < sorted.len() implies (#[trigger] sorted[k]).1 == score_of(
        sorted[k].0,
        table,
    ) by {
        assert(sorted.contains(sorted[k]));
        assert(pairs.contains(sorted[k]));
        let i = choose|i: int| 0 <= i < pairs.len() && pairs[i] == sorted[k];
        assert(pairs[i] == (rs[i], score_of(rs[i], table)));
    }
}

/// Law: the selection comes out in descending score order — the first
/// selected recipe scores at least as high as every later one.
pub proof fn lemma_matching_descending(rs: Seq<RecipeView>, n: int, table: Seq<Tag>)
    requires
        n >= 0,
    ensures
        forall|i: int, j: int|
            0 <= i <= j < spec_matching(rs, n, table).len() ==> score_of(
                spec_matching(rs, n, table)[j],
                table,
            ) <= score_of(spec_matching(rs, n, table)[i], table),
{
    let pairs = pairs_of(rs, table);
    let sorted = sort_by_score(pairs);
    lemma_sort_len(pairs);
    lemma_sort_ascending(pairs);
    lemma_sort_pairs_scored(rs, table);
    let picked = spec_matching(rs, n, table);
    assert forall|i: int, j: int| 0 <= i <= j < picked.len() implies score_of(
        picked[j],
        table,
    ) <= score_of(picked[i], table) by {
        let m = if n <= sorted.len() {
            n
        } else {
            sorted.len() as int
        };
        assert(sorted.reverse()[i] == sorted[sorted.len() - 1 - i]);
        assert(sorted.reverse()[j] == sorted[sorted.len() - 1 - j]);
        assert(picked[i] == sorted[sorted.len() - 1 - i].0);
        assert(picked[j] == sorted[sorted.len() - 1 - j].0);
        assert(sorted[sorted.len() - 1 - j].1 <= sorted[sorted.len() - 1 - i].1);
    }
}

/// Both directions of sorted membership: the sort loses nothing.
proof fn lemma_insert_members_full(sorted: Seq<(RecipeView, int)>, x: (RecipeView, int))
    ensures
        forall|y: (RecipeView, int)| #[trigger]
            sorted.contains(y) ==> insert_sorted(sorted, x).contains(y),
        insert_sorted(sorted, x).contains(x),
    decreases sorted.len(),
{
    if sorted.len() == 0 {
        assert(insert_sorted(sorted, x)[0] == x);
    } else if sorted[0].1 <= x.1 {
        let tail = sorted.drop_first();
        lemma_insert_members_full(tail, x);
        let ins = insert_sorted(sorted, x);
        let tins = insert_sorted(tail, x);
        assert forall|y: (RecipeView, int)| #[trigger] sorted.contains(y) implies ins.contains(
            y,
        ) by {
            let k = choose|k: int| 0 <= k < sorted.len() && sorted[k] == y;
            if k == 0 {
                assert(ins[0] == y);
            } else {
                assert(tail[k - 1] == y);
                assert(tail.contains(y));
                assert(tins.contains(y));
                let m = choose|m: int| 0 <= m < tins.len() && tins[m] == y;
                assert(ins[m + 1] == y);
            }
        }
        assert(tins.contains(x));
        let m = choose|m: int| 0 <= m < tins.len() && tins[m] == x;
        assert(insert_sorted(sorted, x)[m + 1] == x);
    } else {
        let ins = insert_sorted(sorted, x);
        assert(ins[0] == x);
        assert forall|y: (RecipeView, int)| #[trigger] sorted.contains(y) implies ins.contains(
            y,
        ) by {
            let k = choose|k: int| 0 <= k < sorted.len() && sorted[k] == y;
            assert(ins[k + 1] == y);
        }
    }
}

proof fn lemma_sort_members_full(s: Seq<(RecipeView, int)>)
    ensures
        forall|k: int| 0 <= k < s.len() ==> sort_by_score(s).contains(#[trigger] s[k]),
    decreases s.len(),
{
    if s.len() > 0 {
        lemma_sort_members_full(s.drop_last());
        lemma_insert_members_full(sort_by_score(s.drop_last()), s.last());
        assert forall|k: int| 0 <= k < s.len() implies sort_by_score(s).contains(
            #[trigger] s[k],
        ) by {
            if k < s.len() - 1 {
                assert(s.drop_last()[k] == s[k]);
                assert(sort_by_score(s.drop_last()).contains(s[k]));
            } else {
                assert(s[k] == s.last());
            }
        }
    }
}

/// Law: asking for at least as many recipes as were offered selects every
/// candidate (in descending score order, not the offered order).
pub proof fn lemma_matching_all_when_enough(rs: Seq<RecipeView>, n: int, table: Seq<Tag>)
    requires
        n >= rs.len(),
    ensures
        spec_matching(rs, n, table).len() == rs.len(),
        forall|k: int|
            0 <= k < rs.len() ==> spec_matching(rs, n, table).contains(#[trigger] rs[k]),
{
    let pairs = pairs_of(rs, table);
    let sorted = sort_by_score(pairs);
    lemma_sort_len(pairs);
    lemma_sort_members_full(pairs);
    let picked = spec_matching(rs, n, table);
    assert forall|k: int| 0 <= k < rs.len() implies picked.contains(#[trigger] rs[k]) by {
        assert(pairs[k] == (rs[k], score_of(rs[k], table)));
        assert(sorted.contains(pairs[k]));
        let m = choose|m: int| 0 <= m < sorted.len() && sorted[m] == pairs[k];
        let pos = sorted.len() - 1 - m;
        assert(sorted.reverse()[pos] == sorted[m]);
        assert(sorted.reverse().take(sorted.len() as int)[pos] == sorted[m]);
        assert(picked[pos] == sorted[m].0);
        assert(picked[pos] == rs[k]);
    }
}

} // verus!
