use std::collections::VecDeque;
use vstd::prelude::*;
use vstd::std_specs::vecdeque::VecDequeAdditionalSpecFns;

use crate::records::Records;
use crate::report::CallMismatchError;
use crate::strutil::dec_str;
use crate::strutil::same_elements;
use crate::strutil::sort_dedup;
use crate::strutil::strictly_sorted;
use crate::strutil::u64_to_dec;

verus! {

broadcast use
    vstd::seq::axiom_seq_index_decreases,
    vstd::seq::axiom_seq_subrange_decreases,
    vstd::std_specs::vec::axiom_vec_index_decreases,
    vstd::std_specs::vecdeque::axiom_vec_dequeue_index_decreases;

/// Mathematical model of a pattern tree: identifiers are character
/// sequences, children are mathematical sequences.
pub enum Pat {
    Id(Seq<char>),
    Sequence(Seq<Pat>),
    Par(Seq<Pat>),
    Any(Seq<Pat>),
}

/// Outcome of one transition step: the event was accepted, or it was
/// rejected with the list of identifiers that were expected instead.
/// An empty expected list is the completion signal: the node has nothing
/// left to expect.
pub enum MatchOutcome {
    Consumed,
    Rejected(Seq<Seq<char>>),
}

/// Single-step transition of a pattern on an incoming event (`None` is the
/// end-of-trace sentinel).  Returns the advanced pattern and the outcome.
pub open spec fn step(p: Pat, e: Option<Seq<char>>) -> (Pat, MatchOutcome)
    decreases p,
{
    match p {
        Pat::Id(x) => {
            if e == Some(x) {
                (Pat::Sequence(Seq::empty()), MatchOutcome::Consumed)
            } else {
                (Pat::Id(x), MatchOutcome::Rejected(seq![x]))
            }
        },
        Pat::Sequence(l) => {
            let (l2, r) = step_seq_children(l, e);
            (Pat::Sequence(l2), r)
        },
        Pat::Par(l) => {
            let (l2, r) = step_par_children(l, e);
            (Pat::Par(l2), r)
        },
        Pat::Any(l) => {
            let (l2, ok, end, es) = step_any_children(l, e);
            if ok {
                (Pat::Any(l2), MatchOutcome::Consumed)
            } else if end {
                (Pat::Any(l), MatchOutcome::Rejected(Seq::empty()))
            } else {
                (Pat::Any(l), MatchOutcome::Rejected(es))
            }
        },
    }
}

/// Sequencing: delegate to the front child; a front that rejects with the
/// completion signal is popped and the event is retried on the new front.
/// The pops commit only together with an acceptance: a rejected step leaves
/// the list as it was.
pub open spec fn step_seq_children(l: Seq<Pat>, e: Option<Seq<char>>) -> (Seq<Pat>, MatchOutcome)
    decreases l,
{
    if l.len() == 0 {
        (l, MatchOutcome::Rejected(Seq::empty()))
    } else {
        let (h2, r) = step(l[0], e);
        match r {
            MatchOutcome::Consumed => (seq![h2] + l.drop_first(), MatchOutcome::Consumed),
            MatchOutcome::Rejected(es) => {
                if es.len() == 0 {
                    let (l2, r2) = step_seq_children(l.drop_first(), e);
                    match r2 {
                        MatchOutcome::Consumed => (l2, MatchOutcome::Consumed),
                        MatchOutcome::Rejected(es2) => (l, MatchOutcome::Rejected(es2)),
                    }
                } else {
                    (l, MatchOutcome::Rejected(es))
                }
            },
        }
    }
}

/// Parallel composition: the first child to consume the event commits, and
/// only its own mutation is kept — the tried siblings stay untouched;
/// otherwise the expectations of all children are collected and the list
/// stays as it was.
pub open spec fn step_par_children(l: Seq<Pat>, e: Option<Seq<char>>) -> (Seq<Pat>, MatchOutcome)
    decreases l,
{
    if l.len() == 0 {
        (l, MatchOutcome::Rejected(Seq::empty()))
    } else {
        let (h2, r) = step(l[0], e);
        match r {
            MatchOutcome::Consumed => (seq![h2] + l.drop_first(), MatchOutcome::Consumed),
            MatchOutcome::Rejected(es0) => {
                let (rest2, r2) = step_par_children(l.drop_first(), e);
                match r2 {
                    MatchOutcome::Consumed => (seq![l[0]] + rest2, MatchOutcome::Consumed),
                    MatchOutcome::Rejected(es1) => (l, MatchOutcome::Rejected(es0 + es1)),
                }
            },
        }
    }
}

/// Alternation: every child is stepped; consumers are retained, rejecters
/// are dropped.  Returns the retained children, whether any child consumed,
/// whether any dropped child signalled completion, and the collected
/// expectations of the dropped children.
pub open spec fn step_any_children(l: Seq<Pat>, e: Option<Seq<char>>) -> (
    Seq<Pat>,
    bool,
    bool,
    Seq<Seq<char>>,
)
    decreases l,
{
    if l.len() == 0 {
        (l, false, false, Seq::empty())
    } else {
        let (h2, r) = step(l[0], e);
        let (rest2, ok, end, es) = step_any_children(l.drop_first(), e);
        match r {
            MatchOutcome::Consumed => (seq![h2] + rest2, true, end, es),
            MatchOutcome::Rejected(es0) => (rest2, ok, end || es0.len() == 0, es0 + es),
        }
    }
}

/// Runs a pattern over the trace suffix starting at position `i`, one step
/// per event, then one final step with the end sentinel.  `Ok` means the
/// trace matches; `Err` carries the first mismatch position and the
/// expectations collected there, in the order the step produced them.
pub open spec fn run_from(p: Pat, t: Seq<Seq<char>>, i: int) -> Result<(), (int, Seq<Seq<char>>)>
    decreases t.len() - i,
{
    if i < t.len() {
        let (p2, r) = step(p, Some(t[i]));
        match r {
            MatchOutcome::Consumed => run_from(p2, t, i + 1),
            MatchOutcome::Rejected(es) => Err((i, es)),
        }
    } else {
        let (p2, r) = step(p, None);
        match r {
            MatchOutcome::Consumed => Ok(()),
            MatchOutcome::Rejected(es) => {
                if es.len() == 0 {
                    Ok(())
                } else {
                    Err((t.len() as int, es))
                }
            },
        }
    }
}

/// A pattern accepts a trace when the run over the whole trace succeeds.
pub open spec fn accepts(p: Pat, t: Seq<Seq<char>>) -> bool {
    run_from(p, t, 0) is Ok
}

/// Pattern of expected calls: a single identifier, an ordered sequence,
/// an unordered (interleaved) group, or a set of alternatives of which
/// exactly one must match.
///
/// An empty `Sequence`, `Par` or `Any` is the canonical "nothing more
/// expected" pattern.
pub enum Call {
    Id(String),
    Sequence(VecDeque<Call>),
    Par(Vec<Call>),
    Any(Vec<Call>),
}

/// The mathematical pattern a `Call` tree stands for.
pub open spec fn model(c: Call) -> Pat
    decreases c,
{
    match c {
        Call::Id(s) => Pat::Id(s@),
        Call::Sequence(l) => {
            proof {
                assert forall|i: int| 0 <= i < l@.len() implies decreases_to!(c => l@[i]) by {
                    assert(decreases_to!(c => c->Sequence_0));
                    assert(c->Sequence_0 == l);
                    assert(decreases_to!(l => l[i]));
                }
            }
            Pat::Sequence(
                Seq::new(
                    l@.len(),
                    |i: int|
                        if 0 <= i < l@.len() {
                            model(l@[i])
                        } else {
                            arbitrary()
                        },
                ),
            )
        },
        Call::Par(v) => {
            proof {
                assert forall|i: int| 0 <= i < v@.len() implies decreases_to!(c => v@[i]) by {
                    assert(decreases_to!(c => c->Par_0));
                    assert(c->Par_0 == v);
                    assert(decreases_to!(v => v[i]));
                }
            }
            Pat::Par(
                Seq::new(
                    v@.len(),
                    |i: int|
                        if 0 <= i < v@.len() {
                            model(v@[i])
                        } else {
                            arbitrary()
                        },
                ),
            )
        },
        Call::Any(v) => {
            proof {
                assert forall|i: int| 0 <= i < v@.len() implies decreases_to!(c => v@[i]) by {
                    assert(decreases_to!(c => c->Any_0));
                    assert(c->Any_0 == v);
                    assert(decreases_to!(v => v[i]));
                }
            }
            Pat::Any(
                Seq::new(
                    v@.len(),
                    |i: int|
                        if 0 <= i < v@.len() {
                            model(v@[i])
                        } else {
                            arbitrary()
                        },
                ),
            )
        },
    }
}

/// The models of a sequence of `Call` trees, pointwise.
pub open spec fn cmodels(s: Seq<Call>) -> Seq<Pat> {
    Seq::new(s.len(), |i: int| model(s[i]))
}

/// The incoming event a step works on: an identifier, or the end sentinel.
pub open spec fn ev(e: Option<&String>) -> Option<Seq<char>> {
    match e {
        Some(s) => Some(s@),
        None => None::<Seq<char>>,
    }
}

proof fn lemma_cmodels_push(pre: Seq<Call>, c: Call, source: Seq<Call>, i: int)
    requires
        0 <= i < source.len(),
        cmodels(pre) == cmodels(source.subrange(0, i)),
        model(c) == model(source[i]),
    ensures
        cmodels(pre.push(c)) =~= cmodels(source.subrange(0, i + 1)),
{
    assert(cmodels(pre).len() == pre.len());
    assert(cmodels(source.subrange(0, i)).len() == source.subrange(0, i).len());
    assert(pre.len() == i);
    assert(cmodels(pre.push(c)).len() == i + 1);
    assert(cmodels(source.subrange(0, i + 1)).len() == i + 1);
    assert forall|k: int| 0 <= k < i + 1 implies cmodels(pre.push(c))[k] == cmodels(
        source.subrange(0, i + 1),
    )[k] by {
        assert(cmodels(pre.push(c))[k] == model(pre.push(c)[k]));
        assert(cmodels(source.subrange(0, i + 1))[k] == model(source.subrange(0, i + 1)[k]));
        if k < i {
            assert(pre.push(c)[k] == pre[k]);
            assert(cmodels(pre)[k] == model(pre[k]));
            assert(cmodels(source.subrange(0, i))[k] == model(source.subrange(0, i)[k]));
            assert(cmodels(pre)[k] == cmodels(source.subrange(0, i))[k]);
            assert(source.subrange(0, i)[k] == source[k]);
            assert(source.subrange(0, i + 1)[k] == source[k]);
        } else {
            assert(pre.push(c)[k] == c);
            assert(source.subrange(0, i + 1)[k] == source[i]);
        }
    }
}

pub broadcast proof fn lemma_model_unfold(c: Call)
    ensures
        #[trigger] model(c) == (match c {
            Call::Id(s) => Pat::Id(s@),
            Call::Sequence(l) => Pat::Sequence(cmodels(l@)),
            Call::Par(v) => Pat::Par(cmodels(v@)),
            Call::Any(v) => Pat::Any(cmodels(v@)),
        }),
{
    match c {
        Call::Id(s) => {},
        Call::Sequence(l) => {
            assert(model(c)->Sequence_0 =~= cmodels(l@));
        },
        Call::Par(v) => {
            assert(model(c)->Par_0 =~= cmodels(v@));
        },
        Call::Any(v) => {
            assert(model(c)->Any_0 =~= cmodels(v@));
        },
    }
}


/// A rejected step changes nothing: the returned list equals the input.
pub proof fn lemma_seq_children_reject_unchanged(l: Seq<Pat>, e: Option<Seq<char>>)
    ensures
        step_seq_children(l, e).1 is Rejected ==> step_seq_children(l, e).0 == l,
{
}

/// A rejected step changes nothing: the returned list equals the input.
pub proof fn lemma_par_children_reject_unchanged(l: Seq<Pat>, e: Option<Seq<char>>)
    ensures
        step_par_children(l, e).1 is Rejected ==> step_par_children(l, e).0 == l,
{
}

/// A step that rejects its event leaves the pattern exactly as it was:
/// only acceptance commits a mutation, anywhere in the tree.
pub proof fn lemma_step_reject_unchanged(p: Pat, e: Option<Seq<char>>)
    ensures
        step(p, e).1 is Rejected ==> step(p, e).0 == p,
{
    match p {
        Pat::Id(_) => {},
        Pat::Sequence(l) => {
            lemma_seq_children_reject_unchanged(l, e);
        },
        Pat::Par(l) => {
            lemma_par_children_reject_unchanged(l, e);
        },
        Pat::Any(_) => {},
    }
}

/// Puts popped fronts back in front of the list, newest first, restoring
/// the order they were popped in.
fn unpop_fronts(l: &mut VecDeque<Call>, done: Vec<Call>)
    ensures
        final(l)@ == done@ + old(l)@,
{
    let mut stack = done;
    loop
        invariant
            stack@ + l@ =~= done@ + old(l)@,
        decreases stack.len(),
    {
        match stack.pop() {
            Some(f) => {
                l.push_front(f);
            },
            None => {
                proof {
                    assert(stack@ + l@ =~= l@);
                    assert(l@ =~= done@ + old(l)@);
                }
                return ;
            },
        }
    }
}

impl Call {
    /// One transition step: feed `e` (or the end sentinel) to this pattern.
    /// The returned pattern is the advanced tree; the result mirrors the
    /// model-level step outcome exactly.
    fn next(self, e: Option<&String>) -> (res: (Call, Result<(), Vec<String>>))
        ensures
            ({
                let (p2, r) = step(model(self), ev(e));
                &&& model(res.0) == p2
                &&& match res.1 {
                    Ok(_) => r == MatchOutcome::Consumed,
                    Err(v) => r == MatchOutcome::Rejected(v.deep_view()),
                }
            }),
        decreases self,
    {
        let ghost self0 = self;
        match self {
            Call::Id(id) => {
                let matched = match e {
                    Some(s) => id.eq(s),
                    None => false,
                };
                if matched {
                    let done: VecDeque<Call> = VecDeque::new();
                    proof {
                        assert(cmodels(done@) =~= Seq::<Pat>::empty());
                        lemma_model_unfold(Call::Sequence(done));
                    }
                    (Call::Sequence(done), Ok(()))
                } else {
                    let mut es: Vec<String> = Vec::new();
                    es.push(id.clone());
                    proof {
                        assert(es.deep_view() =~= seq![id@]);
                    }
                    (Call::Id(id), Err(es))
                }
            },
            Call::Sequence(mut l) => {
                let ghost l0 = l;
                let mut done: Vec<Call> = Vec::new();
                let ghost mut k: int = 0;
                proof {
                    assert(l@ =~= l0@.subrange(0, l0@.len() as int));
                    assert(cmodels(done@) =~= cmodels(l0@.subrange(0, 0)));
                    lemma_seq_children_reject_unchanged(cmodels(l0@), ev(e));
                }
                loop
                    invariant
                        0 <= k <= l0@.len(),
                        k == done@.len(),
                        l@ =~= l0@.subrange(k, l0@.len() as int),
                        cmodels(done@) == cmodels(l0@.subrange(0, k)),
                        ({
                            let (l2, r2) = step_seq_children(cmodels(l@), ev(e));
                            step_seq_children(cmodels(l0@), ev(e)) == (match r2 {
                                MatchOutcome::Consumed => (l2, MatchOutcome::Consumed),
                                MatchOutcome::Rejected(es2) => (
                                    cmodels(l0@),
                                    MatchOutcome::Rejected(es2),
                                ),
                            })
                        }),
                        self0 == Call::Sequence(l0),
                        self0 == self,
                    decreases l.len(),
                {
                    let ghost l_pre = l@;
                    match l.pop_front() {
                        None => {
                            // every front was already finished: the step is the
                            // completion signal and the list stays as it was
                            unpop_fronts(&mut l, done);
                            let empty_es: Vec<String> = Vec::new();
                            proof {
                                assert(cmodels(l_pre).len() == 0);
                                assert(empty_es.deep_view() =~= Seq::<Seq<char>>::empty());
                                assert(l@ =~= done@ + l_pre);
                                assert(cmodels(l@) =~= cmodels(l0@)) by {
                                    assert(l0@.subrange(0, k) =~= l0@);
                                }
                                lemma_model_unfold(self0);
                                lemma_model_unfold(Call::Sequence(l));
                            }
                            return (Call::Sequence(l), Err(empty_es));
                        },
                        Some(front) => {
                            proof {
                                assert(front == l0@[k]);
                                assert(decreases_to!(l0 => l0[k]));
                                assert(decreases_to!(self0 => self0->Sequence_0));
                                assert(self0->Sequence_0 == l0);
                                assert(decreases_to!(self0 => front));
                            }
                            let (front2, r) = front.next(e);
                            proof {
                                assert(cmodels(l_pre)[0] == model(front));
                                assert(cmodels(l_pre).drop_first() =~= cmodels(l_pre.drop_first()));
                                assert(l@ =~= l_pre.drop_first());
                                lemma_step_reject_unchanged(model(front), ev(e));
                            }
                            match r {
                                Ok(_) => {
                                    l.push_front(front2);
                                    proof {
                                        assert(cmodels(l@) =~= seq![model(front2)] + cmodels(
                                            l_pre,
                                        ).drop_first());
                                        lemma_model_unfold(self0);
                                        lemma_model_unfold(Call::Sequence(l));
                                    }
                                    return (Call::Sequence(l), Ok(()));
                                },
                                Err(es) => {
                                    if es.is_empty() {
                                        // a finished front: set it aside and retry the
                                        // same event on the new front
                                        let ghost done_pre = done@;
                                        done.push(front2);
                                        proof {
                                            assert(es.deep_view().len() == 0);
                                            assert(model(front2) == model(front));
                                            lemma_cmodels_push(done_pre, front2, l0@, k);
                                            assert(l@ =~= l0@.subrange(k + 1, l0@.len() as int));
                                            lemma_seq_children_reject_unchanged(
                                                cmodels(l_pre),
                                                ev(e),
                                            );
                                            lemma_seq_children_reject_unchanged(
                                                cmodels(l@),
                                                ev(e),
                                            );
                                            k = k + 1;
                                        }
                                    } else {
                                        // the step failed: restore the list untouched
                                        l.push_front(front2);
                                        unpop_fronts(&mut l, done);
                                        proof {
                                            assert(es.deep_view().len() > 0);
                                            assert(model(front2) == model(front));
                                            assert(cmodels(l@) =~= cmodels(l0@)) by {
                                                assert(l@ =~= done@ + (seq![front2] + l_pre.drop_first()));
                                                assert forall|x: int|
                                                    0 <= x < l0@.len() implies cmodels(l@)[x]
                                                    == cmodels(l0@)[x] by {
                                                    if x < k {
                                                        assert(l@[x] == done@[x]);
                                                        assert(cmodels(done@)[x] == cmodels(
                                                            l0@.subrange(0, k),
                                                        )[x]);
                                                    } else if x == k {
                                                        assert(l@[x] == front2);
                                                    } else {
                                                        assert(l@[x] == l_pre.drop_first()[x - k
                                                            - 1]);
                                                        assert(l_pre[x - k] == l0@.subrange(
                                                            k,
                                                            l0@.len() as int,
                                                        )[x - k]);
                                                    }
                                                }
                                            }
                                            lemma_model_unfold(self0);
                                            lemma_model_unfold(Call::Sequence(l));
                                        }
                                        return (Call::Sequence(l), Err(es));
                                    }
                                },
                            }
                        },
                    }
                }
            },
            Call::Par(mut v) => {
                let ghost v0 = v;
                let mut es: Vec<String> = Vec::new();
                let mut i: usize = 0;
                proof {
                    assert(v@.subrange(0, v@.len() as int) =~= v0@);
                    assert(cmodels(v0@.subrange(0, 0)) =~= Seq::<Pat>::empty());
                    assert(es.deep_view() =~= Seq::<Seq<char>>::empty());
                    let (rl, rr) = step_par_children(cmodels(v0@), ev(e));
                    assert(cmodels(v0@.subrange(0, 0)) + rl =~= rl);
                    match rr {
                        MatchOutcome::Consumed => {},
                        MatchOutcome::Rejected(es1) => {
                            assert(es.deep_view() + es1 =~= es1);
                            lemma_par_children_reject_unchanged(cmodels(v0@), ev(e));
                        },
                    }
                }
                while i < v.len()
                    invariant
                        i <= v.len(),
                        v@.len() == v0@.len(),
                        v@.subrange(i as int, v@.len() as int) =~= v0@.subrange(
                            i as int,
                            v0@.len() as int,
                        ),
                        cmodels(v@) == cmodels(v0@),
                        ({
                            let (rl, rr) = step_par_children(
                                cmodels(v0@.subrange(i as int, v0@.len() as int)),
                                ev(e),
                            );
                            step_par_children(cmodels(v0@), ev(e)) == (match rr {
                                MatchOutcome::Consumed => (
                                    cmodels(v0@.subrange(0, i as int)) + rl,
                                    MatchOutcome::Consumed,
                                ),
                                MatchOutcome::Rejected(es1) => (
                                    cmodels(v0@),
                                    MatchOutcome::Rejected(es.deep_view() + es1),
                                ),
                            })
                        }),
                        self0 == Call::Par(v0),
                        self0 == self,
                    decreases v.len() - i,
                {
                    let ghost v_pre = v@;
                    let c = v.remove(i);
                    proof {
                        assert(c == v_pre[i as int]);
                        assert(v_pre.subrange(i as int, v_pre.len() as int)[0] == c);
                        assert(c == v0@[i as int]);
                        assert(decreases_to!(v0 => v0[i as int]));
                        assert(decreases_to!(self0 => self0->Par_0));
                        assert(self0->Par_0 == v0);
                        assert(decreases_to!(self0 => c));
                    }
                    let (c2, r) = c.next(e);
                    v.insert(i, c2);
                    let ghost suf = v0@.subrange(i as int, v0@.len() as int);
                    let ghost nxt = v0@.subrange(i as int + 1, v0@.len() as int);
                    proof {
                        assert(v@ =~= v_pre.update(i as int, c2));
                        assert(cmodels(suf)[0] == model(c));
                        assert(cmodels(suf).drop_first() =~= cmodels(nxt));
                        lemma_step_reject_unchanged(model(c), ev(e));
                    }
                    match r {
                        Ok(_) => {
                            proof {
                                let (rest2, r2) = step_par_children(cmodels(nxt), ev(e));
                                assert(step_par_children(cmodels(suf), ev(e)) == (
                                    seq![model(c2)] + cmodels(nxt),
                                    MatchOutcome::Consumed,
                                ));
                                assert(cmodels(v@) =~= cmodels(v0@.subrange(0, i as int)) + (
                                seq![model(c2)] + cmodels(nxt))) by {
                                    assert forall|x: int|
                                        0 <= x < v@.len() implies cmodels(v@)[x] == (cmodels(
                                        v0@.subrange(0, i as int),
                                    ) + (seq![model(c2)] + cmodels(nxt)))[x] by {
                                        if x < i {
                                            assert(v@[x] == v_pre[x]);
                                            assert(cmodels(v_pre)[x] == cmodels(v0@)[x]);
                                        } else if x == i {
                                            assert(v@[x] == c2);
                                        } else {
                                            assert(v@[x] == v_pre[x]);
                                            assert(v_pre.subrange(i as int, v_pre.len() as int)[x
                                                - i] == v0@.subrange(
                                                i as int,
                                                v0@.len() as int,
                                            )[x - i]);
                                        }
                                    }
                                }
                                lemma_model_unfold(self0);
                                lemma_model_unfold(Call::Par(v));
                            }
                            return (Call::Par(v), Ok(()));
                        },
                        Err(mut es0) => {
                            let ghost es_old = es;
                            let ghost es0_old = es0;
                            es.append(&mut es0);
                            proof {
                                assert(model(c2) == model(c));
                                assert(cmodels(v@) =~= cmodels(v_pre));
                                assert(es.deep_view() =~= es_old.deep_view()
                                    + es0_old.deep_view());
                                assert(v@.subrange(i as int + 1, v@.len() as int) =~= nxt) by {
                                    assert forall|x: int|
                                        0 <= x < v@.len() - i - 1 implies v@.subrange(
                                        i as int + 1,
                                        v@.len() as int,
                                    )[x] == nxt[x] by {
                                        assert(v@[i + 1 + x] == v_pre[i + 1 + x]);
                                        assert(v_pre.subrange(i as int, v_pre.len() as int)[x + 1]
                                            == v0@.subrange(i as int, v0@.len() as int)[x + 1]);
                                    }
                                }
                                let (rest2, r2) = step_par_children(cmodels(nxt), ev(e));
                                match r2 {
                                    MatchOutcome::Consumed => {
                                        assert(step_par_children(cmodels(suf), ev(e)) == (
                                            seq![model(c)] + rest2,
                                            MatchOutcome::Consumed,
                                        ));
                                        assert(cmodels(v0@.subrange(0, i as int)) + (seq![model(
                                            c,
                                        )] + rest2) =~= cmodels(v0@.subrange(0, i as int + 1))
                                            + rest2) by {
                                            assert(cmodels(v0@.subrange(0, i as int + 1)) =~= cmodels(
                                                v0@.subrange(0, i as int),
                                            ) + seq![model(c)]);
                                        }
                                    },
                                    MatchOutcome::Rejected(es1) => {
                                        assert(step_par_children(cmodels(suf), ev(e)) == (
                                            cmodels(suf),
                                            MatchOutcome::Rejected(es0_old.deep_view() + es1),
                                        ));
                                        assert(es_old.deep_view() + (es0_old.deep_view() + es1)
                                            =~= es.deep_view() + es1);
                                    },
                                }
                            }
                            i = i + 1;
                        },
                    }
                }
                proof {
                    assert(cmodels(v0@.subrange(i as int, v0@.len() as int)).len() == 0);
                    let (rl, rr) = step_par_children(
                        cmodels(v0@.subrange(i as int, v0@.len() as int)),
                        ev(e),
                    );
                    assert(es.deep_view() + Seq::<Seq<char>>::empty() =~= es.deep_view());
                    lemma_model_unfold(self0);
                    lemma_model_unfold(Call::Par(v));
                }
                (Call::Par(v), Err(es))
            },
            Call::Any(v) => {
                let ghost v0 = v;
                let mut v = v;
                let mut kept: Vec<Call> = Vec::new();
                let mut rest: Vec<Call> = Vec::new();
                let mut es: Vec<String> = Vec::new();
                let mut is_ok = false;
                let mut is_end = false;
                let ghost mut j: int = 0;
                proof {
                    assert(v@ =~= v0@.subrange(0, v0@.len() as int));
                    assert(cmodels(kept@) =~= Seq::<Pat>::empty());
                    assert(cmodels(rest@) =~= cmodels(v0@.subrange(0, 0)));
                    assert(es.deep_view() =~= Seq::<Seq<char>>::empty());
                    let (rl, rok, rend, res) = step_any_children(cmodels(v0@), ev(e));
                    assert(cmodels(kept@) + rl =~= rl);
                    assert(es.deep_view() + res =~= res);
                }
                while v.len() > 0
                    invariant
                        0 <= j <= v0@.len(),
                        j == v0@.len() - v@.len(),
                        v@ =~= v0@.subrange(j, v0@.len() as int),
                        is_ok == (kept@.len() > 0),
                        !is_ok ==> cmodels(rest@) == cmodels(v0@.subrange(0, j)),
                        ({
                            let (rl, rok, rend, res) = step_any_children(
                                cmodels(v0@.subrange(j, v0@.len() as int)),
                                ev(e),
                            );
                            step_any_children(cmodels(v0@), ev(e)) == (
                                cmodels(kept@) + rl,
                                is_ok || rok,
                                is_end || rend,
                                es.deep_view() + res,
                            )
                        }),
                        self0 == Call::Any(v0),
                        self0 == self,
                    decreases v.len(),
                {
                    let ghost v_pre = v@;
                    let c = v.remove(0);
                    proof {
                        assert(c == v_pre[0]);
                        assert(c == v0@[j]);
                        assert(decreases_to!(v0 => v0[j]));
                        assert(decreases_to!(self0 => self0->Any_0));
                        assert(self0->Any_0 == v0);
                        assert(decreases_to!(self0 => c));
                    }
                    let (c2, r) = c.next(e);
                    let ghost suf = v0@.subrange(j, v0@.len() as int);
                    proof {
                        assert(cmodels(suf)[0] == model(c));
                        assert(cmodels(suf).drop_first() =~= cmodels(
                            v0@.subrange(j + 1, v0@.len() as int),
                        ));
                        assert(v@ =~= v_pre.drop_first());
                        assert(v@ =~= v0@.subrange(j + 1, v0@.len() as int));
                        lemma_step_reject_unchanged(model(c), ev(e));
                    }
                    match r {
                        Ok(_) => {
                            let ghost kept_pre = kept@;
                            kept.push(c2);
                            is_ok = true;
                            proof {
                                assert(kept@ =~= kept_pre.push(c2));
                                let (rl2, rok2, rend2, res2) = step_any_children(
                                    cmodels(v0@.subrange(j + 1, v0@.len() as int)),
                                    ev(e),
                                );
                                assert(cmodels(kept@) =~= cmodels(kept_pre) + seq![model(c2)]);
                                assert((cmodels(kept_pre) + seq![model(c2)]) + rl2 =~= cmodels(
                                    kept_pre,
                                ) + (seq![model(c2)] + rl2));
                                j = j + 1;
                            }
                        },
                        Err(mut es0) => {
                            let is_done = es0.is_empty();
                            let ghost es_old = es;
                            let ghost es0_old = es0;
                            let ghost rest_pre = rest@;
                            es.append(&mut es0);
                            rest.push(c2);
                            is_end = is_end || is_done;
                            proof {
                                assert(model(c2) == model(c));
                                assert((es0_old.deep_view().len() == 0) == is_done);
                                assert(es.deep_view() =~= es_old.deep_view()
                                    + es0_old.deep_view());
                                if kept@.len() == 0 {
                                    lemma_cmodels_push(rest_pre, c2, v0@, j);
                                }
                                let (rl2, rok2, rend2, res2) = step_any_children(
                                    cmodels(v0@.subrange(j + 1, v0@.len() as int)),
                                    ev(e),
                                );
                                assert(es_old.deep_view() + (es0_old.deep_view() + res2)
                                    =~= es.deep_view() + res2);
                                j = j + 1;
                            }
                        },
                    }
                }
                proof {
                    assert(j == v0@.len());
                    assert(cmodels(v0@.subrange(j, v0@.len() as int)).len() == 0);
                    let (rl, rok, rend, res) = step_any_children(
                        cmodels(v0@.subrange(j, v0@.len() as int)),
                        ev(e),
                    );
                    assert(cmodels(kept@) + rl =~= cmodels(kept@));
                    assert(es.deep_view() + res =~= es.deep_view());
                    lemma_model_unfold(self0);
                    if !is_ok {
                        assert(v0@.subrange(0, j) =~= v0@);
                        assert(cmodels(rest@) == cmodels(v0@));
                    }
                }
                if is_ok {
                    proof {
                        lemma_model_unfold(Call::Any(kept));
                    }
                    (Call::Any(kept), Ok(()))
                } else if is_end {
                    let empty_es: Vec<String> = Vec::new();
                    proof {
                        assert(empty_es.deep_view() =~= Seq::<Seq<char>>::empty());
                        lemma_model_unfold(Call::Any(rest));
                    }
                    (Call::Any(rest), Err(empty_es))
                } else {
                    proof {
                        lemma_model_unfold(Call::Any(rest));
                    }
                    (Call::Any(rest), Err(es))
                }
            },
        }
    }

    /// Runs this pattern over the drained trace: every event is fed to one
    /// transition step in trace order, then one final step gets the end
    /// sentinel.  `Ok` exactly when the model accepts the trace; otherwise
    /// the structured report carries the first mismatch position and the
    /// expected identifiers there, sorted and deduplicated.
    pub fn verify(self, actual: Records, msg: &str, thread_id: u64) -> (r: Result<
        (),
        CallMismatchError,
    >)
        ensures
            r is Ok <==> accepts(model(self), actual.ids()),
            r matches Err(e) ==> {
                &&& run_from(model(self), actual.ids(), 0) matches Err(m)
                    && e.mismatch_index == m.0
                    && same_elements(e.expect.deep_view(), m.1)
                &&& strictly_sorted(e.expect.deep_view())
                &&& e.actual == actual
                &&& e.mismatch_index <= actual.0@.len()
                &&& e.msg@ == msg@
                &&& e.thread_id == thread_id
            },
    {
        let ghost t = actual.ids();
        let ghost p0 = model(self);
        let mut pat = self;
        let mut index: usize = 0;
        while index < actual.0.len()
            invariant
                index <= actual.0@.len(),
                t == actual.ids(),
                p0 == model(self),
                run_from(p0, t, 0) == run_from(model(pat), t, index as int),
            decreases actual.0@.len() - index,
        {
            let rec_id: &String = &actual.0[index].id;
            proof {
                assert(t[index as int] == rec_id@);
            }
            let (p2, r) = pat.next(Some(rec_id));
            match r {
                Ok(_) => {
                    pat = p2;
                    index = index + 1;
                },
                Err(es) => {
                    return Err(
                        CallMismatchError {
                            msg: msg.to_owned(),
                            actual,
                            expect: sort_dedup(es),
                            mismatch_index: index,
                            thread_id,
                        },
                    );
                },
            }
        }
        let (_p2, r) = pat.next(None);
        match r {
            Ok(_) => Ok(()),
            Err(es) => {
                if es.is_empty() {
                    Ok(())
                } else {
                    Err(
                        CallMismatchError {
                            msg: msg.to_owned(),
                            actual,
                            expect: sort_dedup(es),
                            mismatch_index: index,
                            thread_id,
                        },
                    )
                }
            },
        }
    }
}

impl Call {
    /// A pattern that matches exactly one call of the given identifier.
    pub fn id(id: &str) -> (r: Call)
        ensures
            model(r) == Pat::Id(id@),
    {
        Call::Id(id.to_owned())
    }

    /// The pattern that expects no call at all.
    pub fn empty() -> (r: Call)
        ensures
            model(r) == Pat::Sequence(Seq::<Pat>::empty()),
    {
        let l: VecDeque<Call> = VecDeque::new();
        proof {
            lemma_model_unfold(Call::Sequence(l));
            assert(cmodels(l@) =~= Seq::<Pat>::empty());
        }
        Call::Sequence(l)
    }

    /// All given patterns, one after another, left to right.
    pub fn seq(p: Vec<Call>) -> (r: Call)
        ensures
            model(r) == Pat::Sequence(cmodels(p@)),
    {
        let ghost p0 = p@;
        let mut l: VecDeque<Call> = VecDeque::new();
        let mut p = p;
        let mut i: usize = 0;
        proof {
            assert(cmodels(l@) =~= cmodels(p0.subrange(0, 0)));
        }
        while i < p.len()
            invariant
                i <= p@.len(),
                p@ == p0,
                cmodels(l@) == cmodels(p0.subrange(0, i as int)),
            decreases p@.len() - i,
        {
            let c = (&p[i]).duplicate();
            let ghost pre_l = l@;
            l.push_back(c);
            proof {
                lemma_cmodels_push(pre_l, c, p0, i as int);
            }
            i = i + 1;
        }
        proof {
            assert(p0.subrange(0, p0.len() as int) =~= p0);
            lemma_model_unfold(Call::Sequence(l));
        }
        Call::Sequence(l)
    }

    /// All given patterns in parallel: any interleaving that keeps each
    /// branch's own order.
    pub fn par(p: Vec<Call>) -> (r: Call)
        ensures
            model(r) == Pat::Par(cmodels(p@)),
    {
        proof {
            lemma_model_unfold(Call::Par(p));
        }
        Call::Par(p)
    }

    /// Exactly one of the given patterns, whichever matches the calls seen.
    pub fn any(p: Vec<Call>) -> (r: Call)
        ensures
            model(r) == Pat::Any(cmodels(p@)),
    {
        proof {
            lemma_model_unfold(Call::Any(p));
        }
        Call::Any(p)
    }

    /// A fresh tree with the same model, for callers that keep a pattern
    /// around: `verify` consumes the tree it is given.
    pub fn duplicate(&self) -> (r: Call)
        ensures
            model(r) == model(*self),
        decreases self,
    {
        match self {
            Call::Id(s) => Call::Id(s.clone()),
            Call::Sequence(l) => {
                let mut out: VecDeque<Call> = VecDeque::new();
                let mut i: usize = 0;
                proof {
                    assert(cmodels(out@) =~= cmodels(l@.subrange(0, 0)));
                }
                while i < l.len()
                    invariant
                        i <= l@.len(),
                        *self == Call::Sequence(*l),
                        cmodels(out@) == cmodels(l@.subrange(0, i as int)),
                    decreases l@.len() - i,
                {
                    proof {
                        assert(decreases_to!(self => self->Sequence_0));
                        assert(decreases_to!(l => l[i as int]));
                    }
                    let c = l[i].duplicate();
                    let ghost pre_out = out@;
                    out.push_back(c);
                    proof {
                        lemma_cmodels_push(pre_out, c, l@, i as int);
                    }
                    i = i + 1;
                }
                proof {
                    assert(l@.subrange(0, l@.len() as int) =~= l@);
                    lemma_model_unfold(Call::Sequence(out));
                    lemma_model_unfold(*self);
                }
                Call::Sequence(out)
            },
            Call::Par(v) => {
                let out = duplicate_vec(self, v);
                proof {
                    lemma_model_unfold(Call::Par(out));
                    lemma_model_unfold(*self);
                }
                Call::Par(out)
            },
            Call::Any(v) => {
                let out = duplicate_vec(self, v);
                proof {
                    lemma_model_unfold(Call::Any(out));
                    lemma_model_unfold(*self);
                }
                Call::Any(out)
            },
        }
    }
}

/// Copies the children of a `Par` or `Any` node, model for model.
fn duplicate_vec(parent: &Call, v: &Vec<Call>) -> (r: Vec<Call>)
    requires
        *parent == Call::Par(*v) || *parent == Call::Any(*v),
    ensures
        cmodels(r@) == cmodels(v@),
    decreases *parent, 0int,
{
    let mut out: Vec<Call> = Vec::new();
    let mut i: usize = 0;
    proof {
        assert(cmodels(out@) =~= cmodels(v@.subrange(0, 0)));
    }
    while i < v.len()
        invariant
            i <= v@.len(),
            *parent == Call::Par(*v) || *parent == Call::Any(*v),
            cmodels(out@) == cmodels(v@.subrange(0, i as int)),
        decreases v@.len() - i,
    {
        proof {
            if *parent == Call::Par(*v) {
                assert(decreases_to!(parent => parent->Par_0));
            } else {
                assert(decreases_to!(parent => parent->Any_0));
            }
            assert(decreases_to!(v => v[i as int]));
        }
        let c = v[i].duplicate();
        let ghost pre_out = out@;
        out.push(c);
        proof {
            lemma_cmodels_push(pre_out, c, v@, i as int);
        }
        i = i + 1;
    }
    proof {
        assert(v@.subrange(0, v@.len() as int) =~= v@);
    }
    out
}

/// Types a caller may hand to `verify` in place of an explicit pattern
/// tree; each carries the pattern it stands for.
pub trait ToCall {
    /// The pattern this value stands for.
    spec fn call_model(&self) -> Pat;

    /// Builds a fresh pattern tree with that model.
    fn to_call(&self) -> (r: Call)
        ensures
            model(r) == self.call_model(),
    ;
}

impl ToCall for Call {
    open spec fn call_model(&self) -> Pat {
        model(*self)
    }

    fn to_call(&self) -> (r: Call) {
        self.duplicate()
    }
}

/// A string is the pattern of one call with that identifier.
impl ToCall for str {
    open spec fn call_model(&self) -> Pat {
        Pat::Id(self@)
    }

    fn to_call(&self) -> (r: Call) {
        Call::Id(self.to_owned())
    }
}

/// A string is the pattern of one call with that identifier.
impl ToCall for String {
    open spec fn call_model(&self) -> Pat {
        Pat::Id(self@)
    }

    fn to_call(&self) -> (r: Call) {
        Call::Id(self.clone())
    }
}

/// A number is the pattern of one call whose identifier is its decimal
/// rendering.
impl ToCall for usize {
    open spec fn call_model(&self) -> Pat {
        Pat::Id(dec_str(*self as nat))
    }

    fn to_call(&self) -> (r: Call) {
        Call::Id(u64_to_dec(*self as u64))
    }
}

/// The unit value is the pattern that expects no call.
impl ToCall for () {
    open spec fn call_model(&self) -> Pat {
        Pat::Sequence(Seq::<Pat>::empty())
    }

    fn to_call(&self) -> (r: Call) {
        Call::empty()
    }
}

/// A list of patterns is their sequence, left to right.
impl ToCall for Vec<Call> {
    open spec fn call_model(&self) -> Pat {
        Pat::Sequence(cmodels(self@))
    }

    fn to_call(&self) -> (r: Call) {
        let copy = duplicate_children(self);
        Call::seq(copy)
    }
}

/// Copies a free-standing list of patterns, model for model.
fn duplicate_children(v: &Vec<Call>) -> (r: Vec<Call>)
    ensures
        cmodels(r@) == cmodels(v@),
{
    let mut out: Vec<Call> = Vec::new();
    let mut i: usize = 0;
    proof {
        assert(cmodels(out@) =~= cmodels(v@.subrange(0, 0)));
    }
    while i < v.len()
        invariant
            i <= v@.len(),
            cmodels(out@) == cmodels(v@.subrange(0, i as int)),
        decreases v@.len() - i,
    {
        let c = v[i].duplicate();
        let ghost pre_out = out@;
        out.push(c);
        proof {
            lemma_cmodels_push(pre_out, c, v@, i as int);
        }
        i = i + 1;
    }
    proof {
        assert(v@.subrange(0, v@.len() as int) =~= v@);
    }
    out
}

} // verus!
