use vstd::prelude::*;
use vstd::string::*;

use rand::seq::SliceRandom;

use crate::costs::{CostTables, SLOTS};
use crate::layout::{Layout, scored};
use crate::score::{Score, sat, wins};
use crate::xgrams::Xgrams;

verus! {

/// The largest number of seed layouts a run accepts.
pub const MAX_SEEDS: usize = 10;

/// The characters a random layout is made of: one per slot.
pub open spec fn alphabet() -> Seq<char> {
    seq![
        'a', 'b', 'c', 'd', 'e', 'f', 'g', 'h', 'i', 'j', 'k', 'l', 'm', 'n', 'o', 'p',
        'q', 'r', 's', 't', 'u', 'v', 'w', 'x', 'y', 'z', 'ä', 'ö', 'ü', 'ß', '_', '#',
    ]
}

fn alphabet_vec() -> (r: Vec<char>)
    ensures
        r@ == alphabet(),
{
    let r = vec![
        'a', 'b', 'c', 'd', 'e', 'f', 'g', 'h', 'i', 'j', 'k', 'l', 'm', 'n', 'o', 'p',
        'q', 'r', 's', 't', 'u', 'v', 'w', 'x', 'y', 'z', 'ä', 'ö', 'ü', 'ß', '_', '#',
    ];
    assert(r@ =~= alphabet());
    r
}

/// Relies on `rand::seq::SliceRandom::shuffle` with `rand::thread_rng`: the
/// elements come back in a random order, each of them once.
#[verifier::external_body]
fn shuffled(v: Vec<char>) -> (r: Vec<char>)
    ensures
        r@.len() == v@.len(),
        r@.to_multiset() == v@.to_multiset(),
{
    let mut v = v;
    v.shuffle(&mut rand::thread_rng());
    v
}

/// A layout of the characters of `alphabet` in a random order, with a zero score.
pub fn random_layout() -> (r: Layout)
    ensures
        r.wf(),
        r.line@.to_multiset() == alphabet().to_multiset(),
        r.score.is_zero(),
{
    let line = shuffled(alphabet_vec());
    Layout { line, score: Score::new() }
}

/// Appends random layouts until the generation holds `upto` of them; a generation
/// that already holds as many is left as it is.
pub fn grow_generation(generation: &mut Vec<Layout>, upto: usize)
    ensures
        final(generation)@.len() == if old(generation)@.len() < upto {
            upto as int
        } else {
            old(generation)@.len() as int
        },
        final(generation)@.subrange(0, old(generation)@.len() as int) == old(generation)@,
        forall|i: int|
            old(generation)@.len() <= i < final(generation)@.len() ==> (#[trigger] final(generation)@[i]).wf()
                && final(generation)@[i].line@.to_multiset() == alphabet().to_multiset()
                && final(generation)@[i].score.is_zero(),
{
    while generation.len() < upto
        invariant
            generation@.len() <= if old(generation)@.len() < upto {
                upto as int
            } else {
                old(generation)@.len() as int
            },
            generation@.len() >= old(generation)@.len(),
            generation@.subrange(0, old(generation)@.len() as int) == old(generation)@,
            forall|i: int|
                old(generation)@.len() <= i < generation@.len() ==> (#[trigger] generation@[i]).wf()
                    && generation@[i].line@.to_multiset() == alphabet().to_multiset()
                    && generation@[i].score.is_zero(),
        decreases upto - generation@.len(),
    {
        let l = random_layout();
        let ghost before = generation@;
        generation.push(l);
        assert(generation@.subrange(0, old(generation)@.len() as int) =~= before.subrange(0, old(generation)@.len() as int));
    }
}

/// Sum of the metric wins of `a` against each of `all`.
pub open spec fn points_from(a: Score, all: Seq<Score>) -> int
    decreases all.len(),
{
    if all.len() == 0 {
        0
    } else {
        points_from(a, all.drop_last()) + wins(a, all.last())
    }
}

/// The scores of the layouts of `g` once each is scored against `xgrams`.
pub open spec fn scored_all(g: Seq<Layout>, xgrams: Xgrams, costs: CostTables) -> Seq<Score> {
    Seq::new(g.len(), |i: int| scored(g[i], xgrams.x1.entries@, xgrams.x2.entries@, costs))
}

/// Scores every layout once against `xgrams`, then lets every layout defend
/// against every layout of the generation, itself included, which gives no point.
///
/// Each layout ends with the score that scoring gives it, plus one point for each
/// metric it wins over each layout; the points do not depend on the order in which
/// the pairs are compared.
pub fn score_generation(generation: &mut Vec<Layout>, xgrams: &Xgrams, costs: &CostTables)
    requires
        forall|i: int| 0 <= i < old(generation)@.len() ==> (#[trigger] old(generation)@[i]).wf(),
        costs.wf(),
    ensures
        final(generation)@.len() == old(generation)@.len(),
        forall|i: int|
            0 <= i < final(generation)@.len() ==> {
                let all = scored_all(old(generation)@, *xgrams, *costs);
                &&& (#[trigger] final(generation)@[i]).line@ == old(generation)@[i].line@
                &&& final(generation)@[i].score == (Score {
                    points: sat(all[i].points + points_from(all[i], all)) as u128,
                    ..all[i]
                })
            },
{
    let ghost start = generation@;
    let ghost all = scored_all(start, *xgrams, *costs);
    let n = generation.len();
    let mut i: usize = 0;
    while i < n
        invariant
            n == generation@.len(),
            n == start.len(),
            all == scored_all(start, *xgrams, *costs),
            costs.wf(),
            forall|j: int| 0 <= j < n ==> (#[trigger] start[j]).wf(),
            i <= n,
            forall|j: int|
                0 <= j < i ==> (#[trigger] generation@[j]).line@ == start[j].line@
                    && generation@[j].score == all[j],
            forall|j: int| i <= j < n ==> #[trigger] generation@[j] == start[j],
        decreases n - i,
    {
        let mut l = generation.remove(i);
        l.score(xgrams, costs);
        generation.insert(i, l);
        i = i + 1;
    }
    let mut scores: Vec<Score> = Vec::new();
    let mut k: usize = 0;
    while k < n
        invariant
            n == generation@.len(),
            k <= n,
            n == all.len(),
            forall|j: int| 0 <= j < n ==> (#[trigger] generation@[j]).score == all[j],
            scores@ == all.subrange(0, k as int),
        decreases n - k,
    {
        scores.push(generation[k].score);
        k = k + 1;
        assert(scores@ =~= all.subrange(0, k as int));
    }
    assert(scores@ =~= all);
    let mut g: usize = 0;
    while g < n
        invariant
            n == generation@.len(),
            n == start.len(),
            n == all.len(),
            scores@ == all,
            g <= n,
            forall|j: int|
                0 <= j < g ==> (#[trigger] generation@[j]).line@ == start[j].line@
                    && generation@[j].score == (Score {
                    points: sat(all[j].points + points_from(all[j], all)) as u128,
                    ..all[j]
                }),
            forall|j: int|
                g <= j < n ==> (#[trigger] generation@[j]).line@ == start[j].line@
                    && generation@[j].score == all[j],
        decreases n - g,
    {
        let mut l = generation.remove(g);
        let ghost mine = all[g as int];
        let mut h: usize = 0;
        while h < n
            invariant
                n == all.len(),
                scores@ == all,
                h <= n,
                l.line@ == start[g as int].line@,
                points_from(mine, all.subrange(0, h as int)) >= 0,
                l.score == (Score {
                    points: sat(mine.points + points_from(mine, all.subrange(0, h as int))) as u128,
                    ..mine
                }),
            decreases n - h,
        {
            proof {
                assert(all.subrange(0, h + 1).drop_last() =~= all.subrange(0, h as int));
                assert(wins(l.score, all[h as int]) == wins(mine, all[h as int]));
            }
            l.award(scores[h]);
            h = h + 1;
        }
        assert(all.subrange(0, n as int) =~= all);
        generation.insert(g, l);
        g = g + 1;
    }
}

/// `ix` lists the positions of `g` once each, in ascending order of points and,
/// among equal points, in the order the layouts stand in `g`.
pub open spec fn stable_order(g: Seq<Layout>, ix: Seq<int>) -> bool {
    &&& ix.len() == g.len()
    &&& forall|k: int| 0 <= k < ix.len() ==> 0 <= #[trigger] ix[k] < g.len()
    &&& forall|a: int, b: int| 0 <= a < b < ix.len() ==> #[trigger] ix[a] != #[trigger] ix[b]
    &&& forall|a: int, b: int|
        0 <= a < b < ix.len() ==> g[#[trigger] ix[a]].score.points <= g[#[trigger] ix[b]].score.points
    &&& forall|a: int, b: int|
        0 <= a < b < ix.len() && g[#[trigger] ix[a]].score.points == g[#[trigger] ix[b]].score.points
            ==> ix[a] < ix[b]
}

/// Puts the layouts in ascending order of points; layouts with equal points keep
/// their order.
fn sort_by_points(generation: &mut Vec<Layout>)
    ensures
        exists|ix: Seq<int>|
            {
                &&& stable_order(old(generation)@, ix)
                &&& final(generation)@.len() == old(generation)@.len()
                &&& forall|k: int|
                    0 <= k < ix.len() ==> #[trigger] final(generation)@[k] == old(generation)@[ix[k]]
            },
{
    let ghost start = generation@;
    let n = generation.len();
    let ghost mut ix: Seq<int> = Seq::new(n as nat, |k: int| k);
    if n == 0 {
        assert(stable_order(start, ix));
        return;
    }
    let mut i: usize = 1;
    while i < n
        invariant
            n == generation@.len(),
            n == start.len(),
            1 <= i <= n,
            ix.len() == n,
            forall|k: int| 0 <= k < n ==> 0 <= #[trigger] ix[k] < n,
            forall|k: int| 0 <= k < n ==> #[trigger] generation@[k] == start[ix[k]],
            forall|a: int, b: int| 0 <= a < b < n ==> #[trigger] ix[a] != #[trigger] ix[b],
            forall|k: int| i <= k < n ==> #[trigger] ix[k] == k,
            forall|k: int| 0 <= k < i ==> #[trigger] ix[k] < i,
            forall|a: int, b: int|
                0 <= a < b < i ==> (#[trigger] generation@[a]).score.points
                    <= (#[trigger] generation@[b]).score.points,
            forall|a: int, b: int|
                0 <= a < b < i && (#[trigger] generation@[a]).score.points
                    == (#[trigger] generation@[b]).score.points ==> ix[a] < ix[b],
        decreases n - i,
    {
        let ghost before = generation@;
        let x = generation.remove(i);
        let mut p: usize = i;
        while p > 0 && generation[p - 1].score.points > x.score.points
            invariant
                generation@ == before.remove(i as int),
                before.len() == n,
                p <= i,
                i < n,
                forall|a: int, b: int|
                    0 <= a < b < i ==> (#[trigger] before[a]).score.points
                        <= (#[trigger] before[b]).score.points,
                forall|k: int| p <= k < i ==> (#[trigger] before[k]).score.points > x.score.points,
            decreases p,
        {
            p = p - 1;
        }
        generation.insert(p, x);
        proof {
            let old_ix = ix;
            ix = old_ix.remove(i as int).insert(p as int, i as int);
            let g = generation@;
            assert(x == before[i as int]);
            assert forall|k: int| 0 <= k < n implies {
                &&& (k < p ==> g[k] == before[k] && ix[k] == old_ix[k])
                &&& (k == p ==> g[k] == x && ix[k] == i)
                &&& (p < k <= i ==> g[k] == before[k - 1] && ix[k] == old_ix[k - 1])
                &&& (i < k ==> g[k] == before[k] && ix[k] == old_ix[k])
            } by {}
            if p > 0 {
                assert(before[p - 1].score.points <= x.score.points);
            }
            assert forall|k: int| 0 <= k < n implies 0 <= #[trigger] ix[k] < n by {}
            assert forall|k: int| 0 <= k < n implies #[trigger] g[k] == start[ix[k]] by {}
            assert forall|a: int, b: int| 0 <= a < b < n implies #[trigger] ix[a] != #[trigger] ix[b] by {
                if b < p {
                    assert(old_ix[a] != old_ix[b]);
                } else if a < p && b == p {
                    assert(old_ix[a] < i);
                } else if a == p && b <= i {
                    assert(old_ix[b - 1] < i);
                } else if a == p {
                    assert(old_ix[b] == b);
                } else if a < p && b <= i {
                    assert(a < b - 1);
                    assert(old_ix[a] != old_ix[b - 1]);
                } else if a < p {
                    assert(old_ix[a] != old_ix[b]);
                } else if b <= i {
                    assert(old_ix[a - 1] != old_ix[b - 1]);
                } else if a <= i {
                    assert(old_ix[a - 1] != old_ix[b]);
                } else {
                    assert(old_ix[a] != old_ix[b]);
                }
            }
            assert forall|k: int| i + 1 <= k < n implies #[trigger] ix[k] == k by {}
            assert forall|k: int| 0 <= k < i + 1 implies #[trigger] ix[k] < i + 1 by {
                if k < p {
                    assert(old_ix[k] < i);
                } else if p < k {
                    assert(old_ix[k - 1] < i);
                }
            }
            assert forall|a: int, b: int| 0 <= a < b < i + 1 implies (#[trigger] g[a]).score.points
                <= (#[trigger] g[b]).score.points by {
                if a < p && b == p {
                    assert(before[a].score.points <= before[p - 1].score.points);
                } else if a < p && b > p {
                    assert(before[a].score.points <= before[b - 1].score.points);
                } else if a > p {
                    assert(before[a - 1].score.points <= before[b - 1].score.points);
                }
            }
            assert forall|a: int, b: int|
                0 <= a < b < i + 1 && (#[trigger] g[a]).score.points == (#[trigger] g[b]).score.points
                    implies ix[a] < ix[b] by {
                if a < p && b == p {
                    assert(old_ix[a] < i);
                } else if a < p && b > p {
                    assert(before[a].score.points <= before[b - 1].score.points);
                } else if a > p {
                    assert(before[a - 1].score.points <= before[b - 1].score.points);
                }
            }
        }
        i = i + 1;
    }
    assert forall|a: int, b: int| 0 <= a < b < ix.len() implies start[#[trigger] ix[a]].score.points
        <= start[#[trigger] ix[b]].score.points && (start[ix[a]].score.points
        == start[ix[b]].score.points ==> ix[a] < ix[b]) by {
        assert(generation@[a] == start[ix[a]]);
        assert(generation@[b] == start[ix[b]]);
    }
    assert(stable_order(start, ix));
}

/// Keeps the `survivors` layouts with the most points and drops the others: the
/// layouts are put in ascending order of points, equal points keeping their order,
/// and the last `survivors` of that order stay, in that order.
pub fn shrink_generation(generation: &mut Vec<Layout>, survivors: usize)
    ensures
        final(generation)@.len() == if old(generation)@.len() < survivors {
            old(generation)@.len() as int
        } else {
            survivors as int
        },
        exists|ix: Seq<int>|
            {
                &&& stable_order(old(generation)@, ix)
                &&& forall|k: int|
                    0 <= k < final(generation)@.len() ==> #[trigger] final(generation)@[k]
                        == old(generation)@[ix[old(generation)@.len() - final(generation)@.len()
                        + k]]
            },
{
    sort_by_points(generation);
    let n = generation.len();
    if n > survivors {
        let ghost sorted = generation@;
        let kept = generation.split_off(n - survivors);
        *generation = kept;
        assert forall|k: int| 0 <= k < generation@.len() implies #[trigger] generation@[k] == sorted[
            n - survivors + k] by {}
    }
}

/// The lines of `text`, split at each line feed; a text without one is one line.
pub open spec fn lines_of(text: Seq<char>) -> Seq<Seq<char>>
    decreases text.len(),
{
    if text.len() == 0 {
        seq![Seq::empty()]
    } else if text.last() == '\n' {
        lines_of(text.drop_last()).push(Seq::empty())
    } else {
        let ls = lines_of(text.drop_last());
        ls.update(ls.len() - 1, ls.last().push(text.last()))
    }
}

proof fn lemma_lines_nonempty(text: Seq<char>)
    ensures
        lines_of(text).len() >= 1,
    decreases text.len(),
{
    if text.len() > 0 {
        lemma_lines_nonempty(text.drop_last());
    }
}

/// The lines of `lines` that hold exactly one character per slot, in order.
pub open spec fn seed_lines(lines: Seq<Seq<char>>) -> Seq<Seq<char>>
    decreases lines.len(),
{
    if lines.len() == 0 {
        Seq::empty()
    } else if lines.last().len() == SLOTS {
        seed_lines(lines.drop_last()).push(lines.last())
    } else {
        seed_lines(lines.drop_last())
    }
}

/// The seed layouts of a list with one layout per line.
///
/// `None` where the list has more than `MAX_SEEDS` lines; otherwise a layout with a
/// zero score for each line that holds exactly one character per slot, in order,
/// and nothing for the other lines.
pub fn get_initial_layouts(text: &str) -> (r: Option<Vec<Layout>>)
    ensures
        r is None <==> lines_of(text@).len() > MAX_SEEDS,
        r matches Some(v) ==> v@.len() == seed_lines(lines_of(text@)).len() && forall|i: int|
            0 <= i < v@.len() ==> (#[trigger] v@[i]).wf() && v@[i].line@ == seed_lines(
                lines_of(text@),
            )[i] && v@[i].score.is_zero(),
{
    let n = text.unicode_len();
    let mut lines: Vec<Vec<char>> = Vec::new();
    let mut current: Vec<char> = Vec::new();
    let mut i: usize = 0;
    while i < n
        invariant
            n == text@.len(),
            i <= n,
            lines_of(text@.subrange(0, i as int)) == lines@.map_values(|l: Vec<char>| l@).push(
                current@,
            ),
        decreases n - i,
    {
        let c = text.get_char(i);
        let ghost prefix = text@.subrange(0, i + 1);
        proof {
            assert(prefix.drop_last() =~= text@.subrange(0, i as int));
        }
        if c == '\n' {
            let done = current;
            lines.push(done);
            current = Vec::new();
            assert(lines_of(prefix) =~= lines@.map_values(|l: Vec<char>| l@).push(current@));
        } else {
            current.push(c);
            assert(lines_of(prefix) =~= lines@.map_values(|l: Vec<char>| l@).push(current@));
        }
        i = i + 1;
    }
    assert(text@.subrange(0, n as int) =~= text@);
    lines.push(current);
    let ghost all = lines@.map_values(|l: Vec<char>| l@);
    assert(all == lines_of(text@));
    if lines.len() > MAX_SEEDS {
        return None;
    }
    let mut out: Vec<Layout> = Vec::new();
    let mut rest = lines;
    let mut j: usize = 0;
    let total = rest.len();
    while rest.len() > 0
        invariant
            total == all.len(),
            j <= total,
            j + rest@.len() == total,
            rest@.map_values(|l: Vec<char>| l@) == all.subrange(j as int, total as int),
            out@.len() == seed_lines(all.subrange(0, j as int)).len(),
            forall|k: int|
                0 <= k < out@.len() ==> (#[trigger] out@[k]).wf() && out@[k].line@ == seed_lines(
                    all.subrange(0, j as int),
                )[k] && out@[k].score.is_zero(),
        decreases rest@.len(),
    {
        let ghost rest_before = rest@;
        let line = rest.remove(0);
        proof {
            assert(rest_before.map_values(|l: Vec<char>| l@).len() == rest_before.len());
            assert(all.subrange(j as int, total as int)[0] == all[j as int]);
            assert(line@ == rest_before.map_values(|l: Vec<char>| l@)[0]);
            assert(line@ == all[j as int]);
            assert(all.subrange(0, j + 1).drop_last() =~= all.subrange(0, j as int));
            assert forall|k: int| 0 <= k < rest@.len() implies (#[trigger] rest@[k])@ == all.subrange(
                j + 1,
                total as int,
            )[k] by {
                assert(rest@[k] == rest_before[k + 1]);
                assert(rest_before.map_values(|l: Vec<char>| l@)[k + 1] == all.subrange(
                    j as int,
                    total as int,
                )[k + 1]);
            }
            assert(rest@.map_values(|l: Vec<char>| l@) =~= all.subrange(j + 1, total as int));
        }
        match Layout::from_chars(line) {
            Some(l) => {
                out.push(l);
            },
            None => {},
        }
        j = j + 1;
    }
    assert(all.subrange(0, total as int) =~= all);
    Some(out)
}

} // verus!
