use vstd::prelude::*;

use crate::pattern::accepts;
use crate::pattern::run_from;
use crate::pattern::step;
use crate::pattern::lemma_par_children_reject_unchanged;
use crate::pattern::step_any_children;
use crate::pattern::step_par_children;
use crate::pattern::step_seq_children;
use crate::pattern::MatchOutcome;
use crate::pattern::Pat;

verus! {

/// The identifiers of a trace, each as a single-call pattern.
pub open spec fn ids_pats(t: Seq<Seq<char>>) -> Seq<Pat> {
    Seq::new(t.len(), |i: int| Pat::Id(t[i]))
}

/// The nothing-more-expected pattern every matched node decays into.
pub open spec fn done_pat() -> Pat {
    Pat::Sequence(Seq::<Pat>::empty())
}

/// A sequence node ignores a fully matched front: stepping it with the
/// front in place gives the same outcome as stepping it without, and on
/// acceptance also the same advanced list.
proof fn lemma_done_prefix_children(l: Seq<Pat>, e: Option<Seq<char>>)
    ensures
        step_seq_children(seq![done_pat()] + l, e).1 == step_seq_children(l, e).1,
        step_seq_children(l, e).1 is Consumed ==> step_seq_children(seq![done_pat()] + l, e).0
            == step_seq_children(l, e).0,
{
    let full = seq![done_pat()] + l;
    assert(full[0] == done_pat());
    assert(step(done_pat(), e) == (done_pat(), MatchOutcome::Rejected(
        Seq::<Seq<char>>::empty(),
    )));
    assert(full.drop_first() =~= l);
}

/// Same, at the level of whole patterns.
proof fn lemma_done_prefix_step(l: Seq<Pat>, e: Option<Seq<char>>)
    ensures
        step(Pat::Sequence(seq![done_pat()] + l), e).1 == step(Pat::Sequence(l), e).1,
        step(Pat::Sequence(l), e).1 is Consumed ==> step(
            Pat::Sequence(seq![done_pat()] + l),
            e,
        ).0 == step(Pat::Sequence(l), e).0,
{
    lemma_done_prefix_children(l, e);
}

/// And at the level of whole runs: the outcomes agree step by step, and
/// the states agree as soon as a step is accepted.
proof fn lemma_done_prefix_run(l: Seq<Pat>, t: Seq<Seq<char>>, i: int)
    ensures
        run_from(Pat::Sequence(seq![done_pat()] + l), t, i) == run_from(Pat::Sequence(l), t, i),
{
    if i < t.len() {
        lemma_done_prefix_step(l, Some(t[i]));
    } else {
        lemma_done_prefix_step(l, None);
    }
}

/// Core induction behind the sequence laws: a sequence of single-call
/// patterns, run against the rest of a trace it equals, accepts.
proof fn lemma_seq_ids_accepts(rest: Seq<Seq<char>>, t: Seq<Seq<char>>, i: int)
    requires
        0 <= i <= t.len(),
        rest == t.subrange(i, t.len() as int),
    ensures
        run_from(Pat::Sequence(ids_pats(rest)), t, i) is Ok,
    decreases t.len() - i,
{
    if i == t.len() {
        assert(ids_pats(rest).len() == 0);
    } else {
        assert(rest[0] == t[i]);
        assert(ids_pats(rest)[0] == Pat::Id(t[i]));
        let stepped = step(Pat::Sequence(ids_pats(rest)), Some(t[i]));
        let rest2 = rest.drop_first();
        assert(ids_pats(rest).drop_first() =~= ids_pats(rest2));
        assert(ids_pats(rest).len() == rest.len());
        assert(step(Pat::Id(t[i]), Some(t[i])) == (done_pat(), MatchOutcome::Consumed));
        assert(step_seq_children(ids_pats(rest), Some(t[i])) == (
            seq![done_pat()] + ids_pats(rest).drop_first(),
            MatchOutcome::Consumed,
        ));
        assert(stepped == (
            Pat::Sequence(seq![done_pat()] + ids_pats(rest2)),
            MatchOutcome::Consumed,
        ));
        lemma_done_prefix_run(ids_pats(rest2), t, i + 1);
        assert(rest2 =~= t.subrange(i + 1, t.len() as int));
        lemma_seq_ids_accepts(rest2, t, i + 1);
    }
}

/// A trace verified against itself, identifier for identifier, succeeds.
pub proof fn seq_of_ids_accepts_its_trace(t: Seq<Seq<char>>)
    ensures
        accepts(Pat::Sequence(ids_pats(t)), t),
{
    assert(t.subrange(0, t.len() as int) =~= t);
    lemma_seq_ids_accepts(t, t, 0);
}

/// Core induction behind the mismatch law: against a trace that first
/// diverges at position `k`, the run fails exactly there, expecting the
/// pattern's identifier at `k` (or nothing, when the pattern has ended).
proof fn lemma_seq_ids_mismatch(expect: Seq<Seq<char>>, t: Seq<Seq<char>>, i: int, k: int)
    requires
        0 <= i <= k,
        k <= i + expect.len(),
        k <= t.len(),
        expect.subrange(0, k - i) == t.subrange(i, k),
        k < t.len() || k - i < expect.len(),
        k < t.len() && k - i < expect.len() ==> expect[k - i] != t[k],
    ensures
        run_from(Pat::Sequence(ids_pats(expect)), t, i) == (if k - i < expect.len() {
            Err::<(), _>((k, seq![expect[k - i]]))
        } else {
            Err::<(), _>((k, Seq::<Seq<char>>::empty()))
        }),
    decreases t.len() - i,
{
    if i < k {
        assert(expect[0] == t[i]) by {
            assert(expect.subrange(0, k - i)[0] == t.subrange(i, k)[0]);
        }
        let rest = expect.drop_first();
        assert(ids_pats(expect)[0] == Pat::Id(t[i]));
        assert(ids_pats(expect).drop_first() =~= ids_pats(rest));
        assert(ids_pats(expect).len() == expect.len());
        assert(step(Pat::Id(t[i]), Some(t[i])) == (done_pat(), MatchOutcome::Consumed));
        assert(step_seq_children(ids_pats(expect), Some(t[i])) == (
            seq![done_pat()] + ids_pats(expect).drop_first(),
            MatchOutcome::Consumed,
        ));
        assert(step(Pat::Sequence(ids_pats(expect)), Some(t[i])) == (
            Pat::Sequence(seq![done_pat()] + ids_pats(rest)),
            MatchOutcome::Consumed,
        ));
        lemma_done_prefix_run(ids_pats(rest), t, i + 1);
        assert(rest.subrange(0, k - i - 1) =~= t.subrange(i + 1, k)) by {
            assert forall|x: int| 0 <= x < k - i - 1 implies #[trigger] rest.subrange(
                0,
                k - i - 1,
            )[x] == t.subrange(i + 1, k)[x] by {
                assert(rest[x] == expect[x + 1]);
                assert(expect.subrange(0, k - i)[x + 1] == t.subrange(i, k)[x + 1]);
            }
        }
        lemma_seq_ids_mismatch(rest, t, i + 1, k);
    } else {
        // i == k: this is the point of divergence
        if k - i < expect.len() {
            assert(ids_pats(expect)[0] == Pat::Id(expect[0]));
            if k < t.len() {
                assert(expect[0] != t[k]);
                assert(step(Pat::Id(expect[0]), Some(t[k])).1 == MatchOutcome::Rejected(
                    seq![expect[0]],
                ));
            } else {
                assert(step(Pat::Id(expect[0]), None).1 == MatchOutcome::Rejected(
                    seq![expect[0]],
                ));
            }
        } else {
            assert(expect.len() == 0);
            assert(ids_pats(expect).len() == 0);
            assert(k < t.len());
        }
    }
}

/// A trace verified against a sequence of identifiers that first differs
/// from it at position `k` — a changed identifier, a missing call, or an
/// extra call — fails with mismatch position `k`, expecting exactly the
/// identifier the pattern holds there, or nothing where the pattern ended.
pub proof fn seq_of_ids_mismatch_index(expect: Seq<Seq<char>>, t: Seq<Seq<char>>, k: int)
    requires
        0 <= k,
        k <= expect.len(),
        k <= t.len(),
        expect.subrange(0, k) == t.subrange(0, k),
        k < t.len() || k < expect.len(),
        k < t.len() && k < expect.len() ==> expect[k] != t[k],
    ensures
        run_from(Pat::Sequence(ids_pats(expect)), t, 0) == (if k < expect.len() {
            Err::<(), _>((k, seq![expect[k]]))
        } else {
            Err::<(), _>((k, Seq::<Seq<char>>::empty()))
        }),
        !accepts(Pat::Sequence(ids_pats(expect)), t),
{
    lemma_seq_ids_mismatch(expect, t, 0, k);
}

/// `t` is an interleaving of `a` and `b`: a merge that keeps the internal
/// order of each.
pub open spec fn is_interleaving(
    a: Seq<Seq<char>>,
    b: Seq<Seq<char>>,
    t: Seq<Seq<char>>,
) -> bool
    decreases t.len(),
{
    if t.len() == 0 {
        a.len() == 0 && b.len() == 0
    } else {
        ||| (a.len() > 0 && a[0] == t[0] && is_interleaving(a.drop_first(), b, t.drop_first()))
        ||| (b.len() > 0 && b[0] == t[0] && is_interleaving(a, b.drop_first(), t.drop_first()))
    }
}

/// No identifier occurs in both branches.
pub open spec fn disjoint_ids(a: Seq<Seq<char>>, b: Seq<Seq<char>>) -> bool {
    forall|i: int, j: int| 0 <= i < a.len() && 0 <= j < b.len() ==> a[i] != b[j]
}

/// The states a sequence-of-identifiers child passes through: its pending
/// identifiers, possibly behind one already-matched front.
spec fn seq_ids_state(c: Pat, w: Seq<Seq<char>>) -> bool {
    c == Pat::Sequence(ids_pats(w)) || c == Pat::Sequence(seq![done_pat()] + ids_pats(w))
}

/// How such a child answers one step: acceptance advances it, and any
/// rejection leaves it exactly as it was.
proof fn lemma_child_step(c: Pat, w: Seq<Seq<char>>, e: Option<Seq<char>>)
    requires
        seq_ids_state(c, w),
    ensures
        w.len() > 0 && e == Some(w[0]) ==> step(c, e) == (
            Pat::Sequence(seq![done_pat()] + ids_pats(w.drop_first())),
            MatchOutcome::Consumed,
        ),
        w.len() > 0 && e != Some(w[0]) ==> step(c, e) == (
            c,
            MatchOutcome::Rejected(seq![w[0]]),
        ),
        w.len() == 0 ==> step(c, e) == (
            c,
            MatchOutcome::Rejected(Seq::<Seq<char>>::empty()),
        ),
{
    if c == Pat::Sequence(seq![done_pat()] + ids_pats(w)) {
        lemma_done_prefix_step(ids_pats(w), e);
    }
    crate::pattern::lemma_step_reject_unchanged(c, e);
    assert(ids_pats(w).len() == w.len());
    if w.len() > 0 {
        assert(ids_pats(w)[0] == Pat::Id(w[0]));
        assert(ids_pats(w).drop_first() =~= ids_pats(w.drop_first()));
        if e == Some(w[0]) {
            assert(step(Pat::Id(w[0]), e) == (done_pat(), MatchOutcome::Consumed));
            assert(step_seq_children(ids_pats(w), e) == (
                seq![done_pat()] + ids_pats(w).drop_first(),
                MatchOutcome::Consumed,
            ));
        } else {
            assert(step(Pat::Id(w[0]), e) == (
                Pat::Id(w[0]),
                MatchOutcome::Rejected(seq![w[0]]),
            ));
            assert(step_seq_children(ids_pats(w), e).1 == MatchOutcome::Rejected(
                seq![w[0]],
            ));
        }
    } else {
        assert(ids_pats(w) =~= Seq::<Pat>::empty());
    }
}

/// Core induction behind the interleaving law.
proof fn lemma_par_run(
    a: Seq<Seq<char>>,
    b: Seq<Seq<char>>,
    t: Seq<Seq<char>>,
    i: int,
    c1: Pat,
    c2: Pat,
)
    requires
        0 <= i <= t.len(),
        seq_ids_state(c1, a),
        seq_ids_state(c2, b),
        is_interleaving(a, b, t.subrange(i, t.len() as int)),
        disjoint_ids(a, b),
    ensures
        run_from(Pat::Par(seq![c1, c2]), t, i) is Ok,
    decreases t.len() - i,
{
    let children = seq![c1, c2];
    assert(children[0] == c1);
    assert(children.drop_first() =~= seq![c2]);
    assert(seq![c2][0] == c2);
    assert(seq![c2].drop_first() =~= Seq::<Pat>::empty());
    let rest = t.subrange(i, t.len() as int);
    if i == t.len() {
        assert(rest.len() == 0);
        lemma_child_step(c1, a, None);
        lemma_child_step(c2, b, None);
        assert(step_par_children(Seq::<Pat>::empty(), None) == (
            Seq::<Pat>::empty(),
            MatchOutcome::Rejected(Seq::<Seq<char>>::empty()),
        ));
        assert(step_par_children(seq![c2], None).1 == MatchOutcome::Rejected(
            Seq::<Seq<char>>::empty() + Seq::<Seq<char>>::empty(),
        ));
        assert(Seq::<Seq<char>>::empty() + Seq::<Seq<char>>::empty()
            =~= Seq::<Seq<char>>::empty());
        assert(step(Pat::Par(children), None).1 == MatchOutcome::Rejected(
            Seq::<Seq<char>>::empty() + Seq::<Seq<char>>::empty(),
        ));
    } else {
        assert(rest[0] == t[i]);
        assert(rest.drop_first() =~= t.subrange(i + 1, t.len() as int));
        let take_a = a.len() > 0 && a[0] == t[i] && is_interleaving(
            a.drop_first(),
            b,
            rest.drop_first(),
        );
        if take_a {
            lemma_child_step(c1, a, Some(t[i]));
            let c1n = Pat::Sequence(seq![done_pat()] + ids_pats(a.drop_first()));
            assert(step_par_children(children, Some(t[i])) == (
                seq![c1n] + children.drop_first(),
                MatchOutcome::Consumed,
            ));
            assert(seq![c1n] + children.drop_first() =~= seq![c1n, c2]);
            assert forall|x: int, y: int|
                0 <= x < a.drop_first().len() && 0 <= y < b.len() implies a.drop_first()[x]
                != b[y] by {
                assert(a.drop_first()[x] == a[x + 1]);
            }
            lemma_par_run(a.drop_first(), b, t, i + 1, c1n, c2);
        } else {
            // the event belongs to `b`
            assert(b.len() > 0 && b[0] == t[i] && is_interleaving(
                a,
                b.drop_first(),
                rest.drop_first(),
            ));
            if a.len() > 0 && a[0] == t[i] {
                // both branches would start with the same identifier
                assert(a[0] == b[0]);
                assert(false);
            }
            lemma_child_step(c1, a, Some(t[i]));
            lemma_child_step(c2, b, Some(t[i]));
            let c2n = Pat::Sequence(seq![done_pat()] + ids_pats(b.drop_first()));
            assert(step_par_children(seq![c2], Some(t[i])) == (
                seq![c2n] + Seq::<Pat>::empty(),
                MatchOutcome::Consumed,
            ));
            assert(step_par_children(children, Some(t[i])) == (
                seq![c1] + (seq![c2n] + Seq::<Pat>::empty()),
                MatchOutcome::Consumed,
            ));
            assert(seq![c1] + (seq![c2n] + Seq::<Pat>::empty()) =~= seq![c1, c2n]);
            assert forall|x: int, y: int|
                0 <= x < a.len() && 0 <= y < b.drop_first().len() implies a[x]
                != b.drop_first()[y] by {
                assert(b.drop_first()[y] == b[y + 1]);
            }
            lemma_par_run(a, b.drop_first(), t, i + 1, c1, c2n);
        }
    }
}

/// A parallel group of two identifier sequences over disjoint identifiers
/// accepts every interleaving of the two that keeps each one's own order.
/// Disjointness matters: with a shared identifier the matcher routes it
/// greedily to the first branch and may then refuse a valid interleaving.
pub proof fn par_of_two_seqs_accepts_interleavings(
    a: Seq<Seq<char>>,
    b: Seq<Seq<char>>,
    t: Seq<Seq<char>>,
)
    requires
        is_interleaving(a, b, t),
        disjoint_ids(a, b),
    ensures
        accepts(
            Pat::Par(seq![Pat::Sequence(ids_pats(a)), Pat::Sequence(ids_pats(b))]),
            t,
        ),
{
    assert(t.subrange(0, t.len() as int) =~= t);
    lemma_par_run(a, b, t, 0, Pat::Sequence(ids_pats(a)), Pat::Sequence(ids_pats(b)));
}

/// The step a single alternation child takes, by position.
spec fn child_res(cs: Seq<Pat>, e: Option<Seq<char>>, j: int) -> (Pat, MatchOutcome) {
    step(cs[j], e)
}

/// `p` is the post-state of some child of `cs` that consumed `e`.
spec fn consumed_from(cs: Seq<Pat>, e: Option<Seq<char>>, p: Pat) -> bool {
    exists|j: int|
        0 <= j < cs.len() && #[trigger] child_res(cs, e, j) == (p, MatchOutcome::Consumed)
}

/// What one alternation step is made of: a child consuming, a child
/// signalling completion, a child expecting something — each mirrored
/// exactly in the combined outcome, and the retained list holding exactly
/// the consuming children's new states.
proof fn lemma_any_children_char(cs: Seq<Pat>, e: Option<Seq<char>>)
    ensures
        ({
            let (rl, ok, end, es) = step_any_children(cs, e);
            &&& ok == exists|j: int|
                0 <= j < cs.len() && (#[trigger] child_res(cs, e, j)).1 is Consumed
            &&& end == exists|j: int|
                0 <= j < cs.len() && (#[trigger] child_res(cs, e, j)).1 == MatchOutcome::Rejected(
                    Seq::<Seq<char>>::empty(),
                )
            &&& (es.len() == 0) == !(exists|j: int|
                0 <= j < cs.len() && ((#[trigger] child_res(cs, e, j)).1 matches
                MatchOutcome::Rejected(es0) && es0.len() > 0))
            &&& forall|k: int|
                0 <= k < rl.len() ==> consumed_from(cs, e, #[trigger] rl[k])
            &&& forall|j: int|
                0 <= j < cs.len() && (#[trigger] child_res(cs, e, j)).1 is Consumed
                    ==> rl.contains(child_res(cs, e, j).0)
        }),
    decreases cs,
{
    if cs.len() > 0 {
        let rest = cs.drop_first();
        lemma_any_children_char(rest, e);
        assert forall|j: int| 0 <= j < rest.len() implies #[trigger] child_res(rest, e, j)
            == child_res(cs, e, j + 1) by {
            assert(rest[j] == cs[j + 1]);
        }
        assert forall|j: int| 1 <= j < cs.len() implies #[trigger] child_res(cs, e, j)
            == child_res(rest, e, j - 1) by {
            assert(rest[j - 1] == cs[j]);
        }
        let (rl, ok, end, es) = step_any_children(cs, e);
        let (rl2, ok2, end2, es2) = step_any_children(rest, e);
        let h = child_res(cs, e, 0);
        assert(h == step(cs[0], e));
        match h.1 {
            MatchOutcome::Consumed => {
                assert(rl =~= seq![h.0] + rl2);
                assert(rl[0] == h.0);
                assert(rl.contains(h.0)) by {
                    assert(rl[0] == h.0);
                }
                assert forall|j: int|
                    0 <= j < cs.len() && (#[trigger] child_res(cs, e, j)).1 is Consumed implies
                    rl.contains(child_res(cs, e, j).0) by {
                    if j > 0 {
                        assert(child_res(rest, e, j - 1) == child_res(cs, e, j));
                        assert(rl2.contains(child_res(rest, e, j - 1).0));
                        let k = choose|k: int|
                            0 <= k < rl2.len() && rl2[k] == child_res(rest, e, j - 1).0;
                        assert(rl[k + 1] == rl2[k]);
                    }
                }
                assert forall|k: int| 0 <= k < rl.len() implies consumed_from(
                    cs,
                    e,
                    #[trigger] rl[k],
                ) by {
                    if k == 0 {
                        assert(child_res(cs, e, 0) == (rl[0], MatchOutcome::Consumed));
                    } else {
                        assert(rl[k] == rl2[k - 1]);
                        assert(consumed_from(rest, e, rl2[k - 1]));
                        let j = choose|j: int|
                            0 <= j < rest.len() && #[trigger] child_res(rest, e, j) == (
                                rl2[k - 1],
                                MatchOutcome::Consumed,
                            );
                        assert(child_res(cs, e, j + 1) == (rl[k], MatchOutcome::Consumed));
                    }
                }
            },
            MatchOutcome::Rejected(es0) => {
                assert(rl == rl2);
                assert(es =~= es0 + es2);
                assert(end == (end2 || es0.len() == 0));
                if es0.len() == 0 {
                    assert(es0 =~= Seq::<Seq<char>>::empty());
                    assert(child_res(cs, e, 0).1 == MatchOutcome::Rejected(
                        Seq::<Seq<char>>::empty(),
                    ));
                }
                assert forall|k: int| 0 <= k < rl.len() implies consumed_from(
                    cs,
                    e,
                    #[trigger] rl[k],
                ) by {
                    assert(consumed_from(rest, e, rl2[k]));
                    let j = choose|j: int|
                        0 <= j < rest.len() && #[trigger] child_res(rest, e, j) == (
                            rl2[k],
                            MatchOutcome::Consumed,
                        );
                    assert(child_res(cs, e, j + 1) == (rl[k], MatchOutcome::Consumed));
                }
                assert forall|j: int|
                    0 <= j < cs.len() && (#[trigger] child_res(cs, e, j)).1 is Consumed implies
                    rl.contains(child_res(cs, e, j).0) by {
                    assert(j > 0);
                    assert(child_res(rest, e, j - 1) == child_res(cs, e, j));
                }
            },
        }
    }
}

/// Core induction behind the alternation law.
proof fn lemma_any_run(cs: Seq<Pat>, t: Seq<Seq<char>>, i: int)
    requires
        cs.len() > 0,
        0 <= i <= t.len(),
    ensures
        (run_from(Pat::Any(cs), t, i) is Ok) == exists|j: int|
            0 <= j < cs.len() && (#[trigger] run_from(cs[j], t, i)) is Ok,
    decreases t.len() - i,
{
    let e: Option<Seq<char>> = if i < t.len() {
        Some(t[i])
    } else {
        None
    };
    lemma_any_children_char(cs, e);
    let (rl, ok, end, es) = step_any_children(cs, e);
    if i == t.len() {
        if ok {
            let j = choose|j: int|
                0 <= j < cs.len() && (#[trigger] child_res(cs, e, j)).1 is Consumed;
            assert(run_from(cs[j], t, i) is Ok);
        } else if end {
            let j = choose|j: int|
                0 <= j < cs.len() && (#[trigger] child_res(cs, e, j)).1 == MatchOutcome::Rejected(
                    Seq::<Seq<char>>::empty(),
                );
            assert(run_from(cs[j], t, i) is Ok);
        } else {
            assert forall|j: int| 0 <= j < cs.len() implies ((#[trigger] child_res(
                cs,
                e,
                j,
            )).1 matches MatchOutcome::Rejected(es0) && es0.len() > 0) by {
                let r0 = child_res(cs, e, j).1;
                assert(!(r0 is Consumed));
                match r0 {
                    MatchOutcome::Consumed => {
                        assert(false);
                    },
                    MatchOutcome::Rejected(es0) => {
                        if es0.len() == 0 {
                            assert(es0 =~= Seq::<Seq<char>>::empty());
                        }
                    },
                }
            }
            assert(child_res(cs, e, 0) == step(cs[0], e));
            assert(es.len() > 0);
            assert forall|j: int| 0 <= j < cs.len() implies !((#[trigger] run_from(
                cs[j],
                t,
                i,
            )) is Ok) by {
                assert((child_res(cs, e, j)).1 matches MatchOutcome::Rejected(es0) && es0.len()
                    > 0);
            }
        }
    } else {
        if !ok {
            assert forall|j: int| 0 <= j < cs.len() implies !((#[trigger] run_from(
                cs[j],
                t,
                i,
            )) is Ok) by {
                assert(!((child_res(cs, e, j)).1 is Consumed));
            }
        } else {
            assert(rl.len() > 0) by {
                let j = choose|j: int|
                    0 <= j < cs.len() && (#[trigger] child_res(cs, e, j)).1 is Consumed;
                assert(rl.contains(child_res(cs, e, j).0));
            }
            lemma_any_run(rl, t, i + 1);
            assert((run_from(Pat::Any(cs), t, i) is Ok) == (run_from(Pat::Any(rl), t, i + 1)
                is Ok));
            if run_from(Pat::Any(rl), t, i + 1) is Ok {
                let k = choose|k: int|
                    0 <= k < rl.len() && (#[trigger] run_from(rl[k], t, i + 1)) is Ok;
                assert(consumed_from(cs, e, rl[k]));
                let j = choose|j: int|
                    0 <= j < cs.len() && #[trigger] child_res(cs, e, j) == (
                        rl[k],
                        MatchOutcome::Consumed,
                    );
                assert(run_from(cs[j], t, i) is Ok);
            }
            if exists|j: int| 0 <= j < cs.len() && (#[trigger] run_from(cs[j], t, i)) is Ok {
                let j = choose|j: int|
                    0 <= j < cs.len() && (#[trigger] run_from(cs[j], t, i)) is Ok;
                assert((child_res(cs, e, j)).1 is Consumed);
                assert(rl.contains(child_res(cs, e, j).0));
                let k = choose|k: int|
                    0 <= k < rl.len() && rl[k] == child_res(cs, e, j).0;
                assert(run_from(rl[k], t, i + 1) is Ok);
                assert(run_from(Pat::Any(rl), t, i + 1) is Ok);
            }
        }
    }
}

/// An alternation accepts a trace exactly when one of its branches,
/// verified alone, accepts it; with no branch able to go on, the step that
/// fails collects every branch's expectations.
pub proof fn any_accepts_iff_a_branch_accepts(cs: Seq<Pat>, t: Seq<Seq<char>>)
    requires
        cs.len() > 0,
    ensures
        accepts(Pat::Any(cs), t) == exists|j: int|
            0 <= j < cs.len() && accepts(#[trigger] cs[j], t),
{
    lemma_any_run(cs, t, 0);
    assert forall|j: int| 0 <= j < cs.len() implies accepts(#[trigger] cs[j], t)
        == (run_from(cs[j], t, 0) is Ok) by {}
}

/// The shape of an accepted parallel step: child `j` consumed the event
/// and was advanced, no earlier child could have, and every sibling is
/// exactly as it was.
pub open spec fn par_commit_shape(l: Seq<Pat>, e: Option<Seq<char>>, j: int) -> bool {
    &&& 0 <= j < l.len()
    &&& step(l[j], e).1 is Consumed
    &&& step_par_children(l, e).0 == l.update(j, step(l[j], e).0)
    &&& forall|k: int| 0 <= k < j ==> !((#[trigger] step(l[k], e)).1 is Consumed)
}

/// A parallel commit touches exactly one child: the first that consumes
/// the event is advanced and every sibling keeps its state, so the
/// siblings' accepted traces are unchanged by the commit.
pub proof fn par_commit_leaves_siblings_untouched(l: Seq<Pat>, e: Option<Seq<char>>)
    requires
        step_par_children(l, e).1 is Consumed,
    ensures
        exists|j: int| par_commit_shape(l, e, j),
    decreases l,
{
    let (h2, r) = step(l[0], e);
    match r {
        MatchOutcome::Consumed => {
            assert(seq![h2] + l.drop_first() =~= l.update(0, h2));
            assert(par_commit_shape(l, e, 0));
        },
        MatchOutcome::Rejected(es0) => {
            let rest = l.drop_first();
            lemma_par_children_reject_unchanged(rest, e);
            par_commit_leaves_siblings_untouched(rest, e);
            let j = choose|j: int| par_commit_shape(rest, e, j);
            assert(rest[j] == l[j + 1]);
            assert(seq![l[0]] + rest.update(j, step(rest[j], e).0) =~= l.update(
                j + 1,
                step(l[j + 1], e).0,
            ));
            assert forall|k: int| 0 <= k < j + 1 implies !((#[trigger] step(l[k], e)).1
                is Consumed) by {
                if k > 0 {
                    assert(rest[k - 1] == l[k]);
                }
            }
            assert(par_commit_shape(l, e, j + 1));
        },
    }
}

/// When neither branch of a two-way alternation consumes the event, the
/// collected expectation is the first branch's expectations followed by
/// the second's; if either branch signals completion instead of expecting
/// anything, the whole alternation signals completion.  Either way the
/// node itself is left as it was.
pub proof fn any_of_two_collects_both_expectations(a: Pat, b: Pat, e: Option<Seq<char>>)
    requires
        step(a, e).1 is Rejected,
        step(b, e).1 is Rejected,
    ensures
        ({
            let ea = step(a, e).1->Rejected_0;
            let eb = step(b, e).1->Rejected_0;
            step(Pat::Any(seq![a, b]), e).1 == (if ea.len() == 0 || eb.len() == 0 {
                MatchOutcome::Rejected(Seq::<Seq<char>>::empty())
            } else {
                MatchOutcome::Rejected(ea + eb)
            })
        }),
        step(Pat::Any(seq![a, b]), e).0 == Pat::Any(seq![a, b]),
{
    let cs = seq![a, b];
    assert(cs[0] == a);
    assert(cs.drop_first() =~= seq![b]);
    assert(seq![b][0] == b);
    assert(seq![b].drop_first() =~= Seq::<Pat>::empty());
    let ea = step(a, e).1->Rejected_0;
    let eb = step(b, e).1->Rejected_0;
    assert(step(a, e).1 == MatchOutcome::Rejected(ea));
    assert(step(b, e).1 == MatchOutcome::Rejected(eb));
    assert(step_any_children(Seq::<Pat>::empty(), e) == (
        Seq::<Pat>::empty(),
        false,
        false,
        Seq::<Seq<char>>::empty(),
    ));
    assert(step_any_children(seq![b], e) == (
        Seq::<Pat>::empty(),
        false,
        eb.len() == 0,
        eb + Seq::<Seq<char>>::empty(),
    ));
    assert(step_any_children(cs, e) == (
        Seq::<Pat>::empty(),
        false,
        (eb.len() == 0) || ea.len() == 0,
        ea + (eb + Seq::<Seq<char>>::empty()),
    ));
    assert(eb + Seq::<Seq<char>>::empty() =~= eb);
    assert(ea + (eb + Seq::<Seq<char>>::empty()) =~= ea + eb);
}

/// The state a pattern reaches by consuming the trace positions `i` up to
/// `k`; `None` when one of those steps rejects.
pub open spec fn advance(p: Pat, t: Seq<Seq<char>>, i: int, k: int) -> Option<Pat>
    decreases k - i,
{
    if i >= k {
        Some(p)
    } else {
        let (p2, r) = step(p, Some(t[i]));
        match r {
            MatchOutcome::Consumed => advance(p2, t, i + 1, k),
            MatchOutcome::Rejected(_) => None::<Pat>,
        }
    }
}

/// Core induction behind the joint-failure law.
proof fn lemma_any2_union_run(ai: Pat, bi: Pat, t: Seq<Seq<char>>, i: int, k: int)
    requires
        0 <= i <= k <= t.len(),
        advance(ai, t, i, k) is Some,
        advance(bi, t, i, k) is Some,
        ({
            let ek: Option<Seq<char>> = if k < t.len() {
                Some(t[k])
            } else {
                None
            };
            &&& step(advance(ai, t, i, k)->0, ek).1 is Rejected
            &&& (step(advance(ai, t, i, k)->0, ek).1->Rejected_0).len() > 0
            &&& step(advance(bi, t, i, k)->0, ek).1 is Rejected
            &&& (step(advance(bi, t, i, k)->0, ek).1->Rejected_0).len() > 0
        }),
    ensures
        ({
            let ek: Option<Seq<char>> = if k < t.len() {
                Some(t[k])
            } else {
                None
            };
            let ea = step(advance(ai, t, i, k)->0, ek).1->Rejected_0;
            let eb = step(advance(bi, t, i, k)->0, ek).1->Rejected_0;
            run_from(Pat::Any(seq![ai, bi]), t, i) == Err::<(), (int, Seq<Seq<char>>)>(
                (k, ea + eb),
            )
        }),
    decreases k - i,
{
    let ek: Option<Seq<char>> = if k < t.len() {
        Some(t[k])
    } else {
        None
    };
    if i == k {
        assert(advance(ai, t, i, k)->0 == ai);
        assert(advance(bi, t, i, k)->0 == bi);
        any_of_two_collects_both_expectations(ai, bi, ek);
    } else {
        let (a2, ra) = step(ai, Some(t[i]));
        let (b2, rb) = step(bi, Some(t[i]));
        assert(ra is Consumed && advance(ai, t, i, k) == advance(a2, t, i + 1, k));
        assert(rb is Consumed && advance(bi, t, i, k) == advance(b2, t, i + 1, k));
        let cs = seq![ai, bi];
        assert(cs[0] == ai);
        assert(cs.drop_first() =~= seq![bi]);
        assert(seq![bi][0] == bi);
        assert(seq![bi].drop_first() =~= Seq::<Pat>::empty());
        assert(step_any_children(Seq::<Pat>::empty(), Some(t[i])) == (
            Seq::<Pat>::empty(),
            false,
            false,
            Seq::<Seq<char>>::empty(),
        ));
        assert(step_any_children(seq![bi], Some(t[i])) == (
            seq![b2] + Seq::<Pat>::empty(),
            true,
            false,
            Seq::<Seq<char>>::empty(),
        ));
        assert(step_any_children(cs, Some(t[i])) == (
            seq![a2] + (seq![b2] + Seq::<Pat>::empty()),
            true,
            false,
            Seq::<Seq<char>>::empty(),
        ));
        assert(seq![a2] + (seq![b2] + Seq::<Pat>::empty()) =~= seq![a2, b2]);
        assert(step(Pat::Any(cs), Some(t[i])) == (
            Pat::Any(seq![a2, b2]),
            MatchOutcome::Consumed,
        ));
        lemma_any2_union_run(a2, b2, t, i + 1, k);
    }
}

/// The expectation half of the alternation law, for two branches: against
/// a trace both branches follow up to position `k` and both refuse there —
/// each expecting something — the alternation fails at exactly `k`,
/// reporting the first branch's expectations followed by the second's:
/// the union of both, before sorting and deduplication.
pub proof fn any_of_two_reports_union_at_joint_failure(
    a: Pat,
    b: Pat,
    t: Seq<Seq<char>>,
    k: int,
)
    requires
        0 <= k <= t.len(),
        advance(a, t, 0, k) is Some,
        advance(b, t, 0, k) is Some,
        ({
            let ek: Option<Seq<char>> = if k < t.len() {
                Some(t[k])
            } else {
                None
            };
            &&& step(advance(a, t, 0, k)->0, ek).1 is Rejected
            &&& (step(advance(a, t, 0, k)->0, ek).1->Rejected_0).len() > 0
            &&& step(advance(b, t, 0, k)->0, ek).1 is Rejected
            &&& (step(advance(b, t, 0, k)->0, ek).1->Rejected_0).len() > 0
        }),
    ensures
        ({
            let ek: Option<Seq<char>> = if k < t.len() {
                Some(t[k])
            } else {
                None
            };
            let ea = step(advance(a, t, 0, k)->0, ek).1->Rejected_0;
            let eb = step(advance(b, t, 0, k)->0, ek).1->Rejected_0;
            run_from(Pat::Any(seq![a, b]), t, 0) == Err::<(), (int, Seq<Seq<char>>)>(
                (k, ea + eb),
            )
        }),
{
    lemma_any2_union_run(a, b, t, 0, k);
}

} // verus!
