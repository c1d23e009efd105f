use vstd::prelude::*;

use crate::ast::RegexAst;
use crate::asttonfa::built_from;
use crate::nfa::{target_of, targets_ok, Transition, NFA};

verus! {

/// One match found in a text: code-point offsets, start inclusive, end
/// exclusive.
#[derive(Debug, Clone, PartialEq, Eq)]
pub struct Match {
    pub start: usize,
    pub end: usize,
}

// ---------------------------------------------------------------------
// Sets of state indices, and epsilon reachability.
// ---------------------------------------------------------------------

/// The set of indices a membership vector marks true.
pub open spec fn marks_set(v: Seq<bool>) -> Set<int> {
    Set::new(|q: int| 0 <= q < v.len() && v[q])
}

/// The set of indices a vector of indices holds.
pub open spec fn idx_set(v: Seq<usize>) -> Set<int> {
    Set::new(|q: int| exists|e: int| 0 <= e < v.len() && (#[trigger] v[e]) as int == q)
}

/// The set holds no state at all.
pub open spec fn set_is_empty(s: Set<int>) -> bool {
    forall|q: int| !s.contains(q)
}

/// Whether `tr` is an epsilon transition leading to `q`.
pub open spec fn is_eps_to(tr: Transition, q: int) -> bool {
    match tr {
        Transition::Epsilon(tg) => tg as int == q,
        _ => false,
    }
}

/// There is an epsilon transition from state `p` to state `q`.
pub open spec fn eps_edge(t: Seq<Seq<Transition>>, p: int, q: int) -> bool {
    &&& 0 <= p < t.len()
    &&& exists|k: int| 0 <= k < t[p].len() && is_eps_to(#[trigger] t[p][k], q)
}

/// `path` is a walk along epsilon transitions.
pub open spec fn eps_path(t: Seq<Seq<Transition>>, path: Seq<int>) -> bool {
    &&& path.len() >= 1
    &&& forall|i: int| 0 <= i < path.len() - 1 ==> eps_edge(t, #[trigger] path[i], path[i + 1])
}

/// State `q` can be reached from a state of `init` by epsilon
/// transitions alone.
pub open spec fn eps_reach(t: Seq<Seq<Transition>>, init: Set<int>, q: int) -> bool {
    exists|path: Seq<int>|
        eps_path(t, path) && init.contains(path[0]) && path.last() == q
}

/// The epsilon closure of `init`: everything epsilon-reachable from it.
pub open spec fn closure_of(t: Seq<Seq<Transition>>, init: Set<int>) -> Set<int> {
    Set::new(|q: int| eps_reach(t, init, q))
}

/// A member of `init` is in its own closure (the one-state walk).
proof fn lemma_reach_base(t: Seq<Seq<Transition>>, init: Set<int>, q: int)
    requires
        init.contains(q),
    ensures
        eps_reach(t, init, q),
{
    let path = seq![q];
    assert(eps_path(t, path));
    assert(init.contains(path[0]) && path.last() == q);
}

/// Reachability extends along one more epsilon edge.
proof fn lemma_reach_step(t: Seq<Seq<Transition>>, init: Set<int>, p: int, q: int)
    requires
        eps_reach(t, init, p),
        eps_edge(t, p, q),
    ensures
        eps_reach(t, init, q),
{
    let path = choose|path: Seq<int>|
        eps_path(t, path) && init.contains(path[0]) && #[trigger] path.last() == p;
    let path2 = path.push(q);
    assert forall|i: int| 0 <= i < path2.len() - 1 implies eps_edge(
        t,
        #[trigger] path2[i],
        path2[i + 1],
    ) by {
        if i < path.len() - 1 {
            assert(path2[i] == path[i] && path2[i + 1] == path[i + 1]);
        } else {
            assert(path2[i] == path.last() && path2[i + 1] == q);
        }
    }
    assert(eps_path(t, path2));
    assert(init.contains(path2[0]) && path2.last() == q);
}

/// A walk that starts inside an epsilon-closed set ends inside it.
proof fn lemma_path_stays_in_closed(t: Seq<Seq<Transition>>, v: Set<int>, path: Seq<int>)
    requires
        eps_path(t, path),
        v.contains(path[0]),
        forall|p: int, q: int| v.contains(p) && #[trigger] eps_edge(t, p, q) ==> v.contains(q),
    ensures
        v.contains(path.last()),
    decreases path.len(),
{
    if path.len() > 1 {
        assert(eps_edge(t, path[0], path[1]));
        let tail = path.subrange(1, path.len() as int);
        assert forall|i: int| 0 <= i < tail.len() - 1 implies eps_edge(
            t,
            #[trigger] tail[i],
            tail[i + 1],
        ) by {
            assert(tail[i] == path[i + 1] && tail[i + 1] == path[i + 2]);
        }
        assert(eps_path(t, tail));
        assert(v.contains(tail[0]));
        lemma_path_stays_in_closed(t, v, tail);
        assert(tail.last() == path.last());
    }
}

/// An epsilon-closed superset of `init` contains the whole closure of
/// `init`.
proof fn lemma_closed_contains_closure(t: Seq<Seq<Transition>>, init: Set<int>, v: Set<int>)
    requires
        init.subset_of(v),
        forall|p: int, q: int| v.contains(p) && #[trigger] eps_edge(t, p, q) ==> v.contains(q),
    ensures
        forall|q: int| #[trigger] eps_reach(t, init, q) ==> v.contains(q),
{
    assert forall|q: int| #[trigger] eps_reach(t, init, q) implies v.contains(q) by {
        let path = choose|path: Seq<int>|
            eps_path(t, path) && init.contains(path[0]) && #[trigger] path.last() == q;
        lemma_path_stays_in_closed(t, v, path);
    }
}

/// How many entries of a membership vector are marked true.
pub open spec fn count_marks(v: Seq<bool>) -> int
    decreases v.len(),
{
    if v.len() == 0 {
        0
    } else {
        count_marks(v.drop_last()) + if v.last() {
            1int
        } else {
            0int
        }
    }
}

/// The count of marks lies between zero and the vector's length.
proof fn lemma_count_marks_bounds(v: Seq<bool>)
    ensures
        0 <= count_marks(v) <= v.len(),
    decreases v.len(),
{
    if v.len() > 0 {
        lemma_count_marks_bounds(v.drop_last());
    }
}

/// Marking one unmarked entry raises the count by exactly one.
proof fn lemma_count_marks_update(v: Seq<bool>, i: int)
    requires
        0 <= i < v.len(),
        !v[i],
    ensures
        count_marks(v.update(i, true)) == count_marks(v) + 1,
    decreases v.len(),
{
    let w = v.update(i, true);
    if i == v.len() - 1 {
        assert(w.drop_last() =~= v.drop_last());
    } else {
        assert(w.drop_last() =~= v.drop_last().update(i, true));
        lemma_count_marks_update(v.drop_last(), i);
    }
}

/// Epsilon edges of state `p` among its first `k` transitions only.
pub open spec fn eps_edge_upto(t: Seq<Seq<Transition>>, p: int, q: int, k: int) -> bool {
    exists|k2: int| 0 <= k2 < k && k2 < t[p].len() && is_eps_to(#[trigger] t[p][k2], q)
}

// ---------------------------------------------------------------------
// One matching step, and the scan over a text.
// ---------------------------------------------------------------------

/// Whether `tr` consumes the character `c` and leads to `q`.
pub open spec fn is_step_to(tr: Transition, c: char, q: int) -> bool {
    match tr {
        Transition::Char(e, tg) => e == c && tg as int == q,
        Transition::Any(tg) => tg as int == q,
        Transition::Epsilon(_) => false,
    }
}

/// `q` is the target of a transition that consumes `c` out of an active
/// state, looking only at states below `pbound`.
pub open spec fn step_targets_upto(
    t: Seq<Seq<Transition>>,
    cur: Set<int>,
    c: char,
    q: int,
    pbound: int,
) -> bool {
    exists|p: int, k: int|
        0 <= p < pbound && cur.contains(p) && 0 <= k < t[p].len() && is_step_to(
            #[trigger] t[p][k],
            c,
            q,
        )
}

/// `q` is the target of a consuming transition among the first `kbound`
/// transitions of state `p`.
pub open spec fn step_row_upto(t: Seq<Seq<Transition>>, c: char, p: int, q: int, kbound: int) -> bool {
    exists|k: int| 0 <= k < kbound && k < t[p].len() && is_step_to(#[trigger] t[p][k], c, q)
}

/// All targets of transitions that consume `c` out of a state of `cur`.
pub open spec fn step_targets(t: Seq<Seq<Transition>>, cur: Set<int>, c: char) -> Set<int> {
    Set::new(|q: int| step_targets_upto(t, cur, c, q, t.len() as int))
}

/// One matching step: from the active (epsilon-closed) set `cur`,
/// consume `c` over every matching `Char` and every `Any` transition and
/// take the epsilon closure of the targets. Epsilon transitions are not
/// consulted directly; closures have already folded them in.
pub open spec fn step_set(t: Seq<Seq<Transition>>, cur: Set<int>, c: char) -> Set<int> {
    closure_of(t, step_targets(t, cur, c))
}

/// Everything in one vector of indices is also in the one it was grown
/// into by a push, which adds exactly the pushed index.
proof fn lemma_idx_set_push(v: Seq<usize>, x: usize)
    ensures
        forall|q: int| idx_set(v).contains(q) ==> idx_set(v.push(x)).contains(q),
        idx_set(v.push(x)).contains(x as int),
        forall|q: int|
            idx_set(v.push(x)).contains(q) ==> idx_set(v).contains(q) || q == x as int,
{
    let w = v.push(x);
    assert forall|q: int| idx_set(v).contains(q) implies idx_set(w).contains(q) by {
        let e = choose|e: int| 0 <= e < v.len() && (#[trigger] v[e]) as int == q;
        assert((w[e]) as int == q);
    }
    assert((w[v.len() as int]) as int == x as int);
    assert forall|q: int| idx_set(w).contains(q) implies idx_set(v).contains(q) || q == x
        as int by {
        let e = choose|e: int| 0 <= e < w.len() && (#[trigger] w[e]) as int == q;
        if e < v.len() {
            assert((v[e]) as int == q);
        }
    }
}

/// The view of the active set after a call: the position just past the
/// last character consumed into a successful match, if any yet.
pub open spec fn opt_end(o: Option<usize>) -> Option<int> {
    match o {
        Some(e) => Some(e as int),
        None => None,
    }
}

/// The greedy forward scan: from position `i` with active set `cur`,
/// step through each character; whenever the accept state is active
/// after consuming a character, remember the position just past it (a
/// later, longer match overwrites an earlier one); stop early only when
/// the active set empties.
pub open spec fn sp_scan(
    t: Seq<Seq<Transition>>,
    accept: int,
    s: Seq<char>,
    i: int,
    cur: Set<int>,
    best: Option<int>,
) -> Option<int>
    decreases s.len() - i,
{
    if i < 0 || i >= s.len() {
        best
    } else {
        let next = step_set(t, cur, s[i]);
        if set_is_empty(next) {
            best
        } else {
            let best2 = if next.contains(accept) {
                Some(i + 1)
            } else {
                best
            };
            sp_scan(t, accept, s, i + 1, next, best2)
        }
    }
}

/// The epsilon closure of the start state alone.
pub open spec fn start_closure(t: Seq<Seq<Transition>>, start: int) -> Set<int> {
    closure_of(t, Set::empty().insert(start))
}

/// The best match beginning exactly at `i`: what the greedy scan yields,
/// or the zero-length match at `i` when the scan found nothing but the
/// initial closure already holds the accept state.
pub open spec fn sp_match_at(
    t: Seq<Seq<Transition>>,
    start: int,
    accept: int,
    s: Seq<char>,
    i: int,
) -> Option<int> {
    let cur0 = start_closure(t, start);
    let m = sp_scan(t, accept, s, i, cur0, None);
    if m is None && cur0.contains(accept) {
        Some(i)
    } else {
        m
    }
}

/// The leftmost match: candidate start positions are tried in increasing
/// order, up to and including the text's length; the first that matches
/// at all wins, with its greedy end.
pub open spec fn sp_find_from(
    t: Seq<Seq<Transition>>,
    start: int,
    accept: int,
    s: Seq<char>,
    i: int,
) -> Option<Match>
    decreases s.len() + 1 - i,
{
    if i < 0 || i > s.len() {
        None
    } else {
        match sp_match_at(t, start, accept, s, i) {
            Some(e) => Some(Match { start: i as usize, end: e as usize }),
            None => sp_find_from(t, start, accept, s, i + 1),
        }
    }
}

/// See [`sp_find_from`]: the search starts at position zero.
pub open spec fn sp_find(t: Seq<Seq<Transition>>, start: int, accept: int, s: Seq<char>) -> Option<
    Match,
> {
    sp_find_from(t, start, accept, s, 0)
}

/// All non-overlapping matches in order: the cursor matches anchored at
/// its position, jumps to each found match's end, and moves one step
/// forward past a zero-length match or a position without one.
pub open spec fn sp_find_all_from(
    t: Seq<Seq<Transition>>,
    start: int,
    accept: int,
    s: Seq<char>,
    i: int,
) -> Seq<Match>
    decreases s.len() + 1 - i,
{
    if i < 0 || i > s.len() {
        Seq::empty()
    } else {
        match sp_match_at(t, start, accept, s, i) {
            Some(e) => {
                let m = Match { start: i as usize, end: e as usize };
                let next = if i < e <= s.len() {
                    e
                } else {
                    i + 1
                };
                seq![m] + sp_find_all_from(t, start, accept, s, next)
            },
            None => sp_find_all_from(t, start, accept, s, i + 1),
        }
    }
}

/// See [`sp_find_all_from`]: the cursor starts at position zero.
pub open spec fn sp_find_all(
    t: Seq<Seq<Transition>>,
    start: int,
    accept: int,
    s: Seq<char>,
) -> Seq<Match> {
    sp_find_all_from(t, start, accept, s, 0)
}

/// True when no state at all is marked.
fn no_marks(v: &Vec<bool>) -> (b: bool)
    ensures
        b == set_is_empty(marks_set(v@)),
{
    let mut i: usize = 0;
    while i < v.len()
        invariant
            i <= v@.len(),
            forall|q: int| 0 <= q < i ==> !v@[q],
        decreases v@.len() - i,
    {
        if v[i] {
            proof {
                assert(marks_set(v@).contains(i as int));
            }
            return false;
        }
        i = i + 1;
    }
    true
}

impl NFA {
    /// The set of states reachable from the given ones by epsilon
    /// transitions alone, as a membership vector over the state table.
    /// Depth-first traversal over a visited set, so it terminates on the
    /// cyclic epsilon graphs that `KleeneStar` wiring produces.
    fn epsilon_closure(&self, init: &Vec<usize>) -> (r: Vec<bool>)
        requires
            self.wf(),
            forall|e: int| 0 <= e < init@.len() ==> (#[trigger] init@[e]) < self.states@.len(),
        ensures
            r@.len() == self.states@.len(),
            marks_set(r@) == closure_of(self.trans(), idx_set(init@)),
    {
        let ghost t = self.trans();
        let ghost init_set = idx_set(init@);
        let n = self.states.len();
        let mut visited: Vec<bool> = Vec::new();
        let mut j: usize = 0;
        while j < n
            invariant
                j <= n,
                visited@.len() == j,
                forall|q: int| 0 <= q < j ==> !visited@[q],
            decreases n - j,
        {
            visited.push(false);
            j = j + 1;
        }
        let mut stack: Vec<usize> = Vec::new();
        let mut e: usize = 0;
        while e < init.len()
            invariant
                e <= init@.len(),
                stack@.len() == e,
                forall|x: int| 0 <= x < e ==> stack@[x] == init@[x],
            decreases init@.len() - e,
        {
            stack.push(init[e]);
            e = e + 1;
        }
        proof {
            assert(stack@ =~= init@);
            assert forall|x: int| 0 <= x < stack@.len() implies eps_reach(
                t,
                init_set,
                (#[trigger] stack@[x]) as int,
            ) by {
                assert((init@[x]) as int == (stack@[x]) as int);
                assert(init_set.contains((stack@[x]) as int));
                lemma_reach_base(t, init_set, (stack@[x]) as int);
            }
        }
        while stack.len() > 0
            invariant
                self.wf(),
                t == self.trans(),
                init_set == idx_set(init@),
                n == self.states@.len(),
                visited@.len() == n,
                forall|x: int| 0 <= x < stack@.len() ==> (#[trigger] stack@[x]) < n,
                forall|q: int| 0 <= q < n && visited@[q] ==> eps_reach(t, init_set, q),
                forall|x: int|
                    0 <= x < stack@.len() ==> eps_reach(t, init_set, (#[trigger] stack@[x]) as int),
                forall|q: int|
                    #[trigger] init_set.contains(q) ==> (0 <= q < n && visited@[q]) || idx_set(
                        stack@,
                    ).contains(q),
                forall|p: int, q: int|
                    0 <= p < n && visited@[p] && #[trigger] eps_edge(t, p, q) ==> (0 <= q < n
                        && visited@[q]) || idx_set(stack@).contains(q),
            decreases n - count_marks(visited@), stack@.len(),
        {
            proof {
                lemma_count_marks_bounds(visited@);
            }
            let ghost stack0 = stack@;
            let s = stack.pop().unwrap();
            proof {
                assert forall|q: int| idx_set(stack0).contains(q) implies q == s as int || idx_set(
                    stack@,
                ).contains(q) by {
                    let x = choose|x: int|
                        0 <= x < stack0.len() && (#[trigger] stack0[x]) as int == q;
                    if x < stack0.len() - 1 {
                        assert((stack@[x]) as int == q);
                    }
                }
            }
            if !visited[s] {
                let ghost visited0 = visited@;
                visited[s] = true;
                proof {
                    lemma_count_marks_update(visited0, s as int);
                    lemma_count_marks_bounds(visited@);
                    assert(eps_reach(t, init_set, s as int));
                    assert forall|q: int| 0 <= q < n && visited@[q] implies eps_reach(
                        t,
                        init_set,
                        q,
                    ) by {
                        if q != s as int {
                            assert(visited0[q]);
                        }
                    }
                }
                let ts = &self.states[s].transitions;
                let mut k: usize = 0;
                while k < ts.len()
                    invariant
                        self.wf(),
                        t == self.trans(),
                        init_set == idx_set(init@),
                        n == self.states@.len(),
                        visited@.len() == n,
                        s < n,
                        k <= ts@.len(),
                        ts@ == self.states@[s as int].transitions@,
                        visited@[s as int],
                        eps_reach(t, init_set, s as int),
                        forall|x: int| 0 <= x < stack@.len() ==> (#[trigger] stack@[x]) < n,
                        forall|q: int| 0 <= q < n && visited@[q] ==> eps_reach(t, init_set, q),
                        forall|x: int|
                            0 <= x < stack@.len() ==> eps_reach(
                                t,
                                init_set,
                                (#[trigger] stack@[x]) as int,
                            ),
                        forall|q: int|
                            #[trigger] init_set.contains(q) ==> (0 <= q < n && visited@[q])
                                || idx_set(stack@).contains(q),
                        forall|p: int, q: int|
                            0 <= p < n && visited@[p] && p != s as int && #[trigger] eps_edge(
                                t,
                                p,
                                q,
                            ) ==> (0 <= q < n && visited@[q]) || idx_set(stack@).contains(q),
                        forall|q: int|
                            eps_edge_upto(t, s as int, q, k as int) ==> (0 <= q < n && visited@[q])
                                || idx_set(stack@).contains(q),
                    decreases ts@.len() - k,
                {
                    let ghost stack1 = stack@;
                    match ts[k] {
                        Transition::Epsilon(tg) => {
                            proof {
                                assert(t[s as int][k as int] == ts@[k as int]);
                                assert(is_eps_to(t[s as int][k as int], tg as int));
                                assert(eps_edge(t, s as int, tg as int));
                                assert(target_of(t[s as int][k as int]) < t.len());
                                lemma_reach_step(t, init_set, s as int, tg as int);
                            }
                            stack.push(tg);
                            proof {
                                assert forall|q: int| idx_set(stack1).contains(q) implies idx_set(
                                    stack@,
                                ).contains(q) by {
                                    let x = choose|x: int|
                                        0 <= x < stack1.len() && (#[trigger] stack1[x]) as int == q;
                                    assert((stack@[x]) as int == q);
                                }
                                assert((stack@[stack1.len() as int]) as int == tg as int);
                                assert(idx_set(stack@).contains(tg as int));
                            }
                        },
                        _ => {},
                    }
                    k = k + 1;
                    proof {
                        assert forall|q: int|
                            eps_edge_upto(t, s as int, q, k as int) implies (0 <= q < n
                            && visited@[q]) || idx_set(stack@).contains(q) by {
                            let k2 = choose|k2: int|
                                0 <= k2 < k && k2 < t[s as int].len() && is_eps_to(
                                    #[trigger] t[s as int][k2],
                                    q,
                                );
                            if k2 < k - 1 {
                                assert(eps_edge_upto(t, s as int, q, k - 1));
                            }
                        }
                    }
                }
                proof {
                    assert forall|p: int, q: int|
                        0 <= p < n && visited@[p] && #[trigger] eps_edge(t, p, q) implies (0 <= q
                        < n && visited@[q]) || idx_set(stack@).contains(q) by {
                        if p == s as int {
                            let k2 = choose|k2: int|
                                0 <= k2 < t[p].len() && is_eps_to(#[trigger] t[p][k2], q);
                            assert(eps_edge_upto(t, s as int, q, ts@.len() as int));
                        }
                    }
                }
            }
        }
        proof {
            assert(stack@.len() == 0);
            assert forall|q: int| !idx_set(stack@).contains(q) by {}
            let vset = marks_set(visited@);
            assert(init_set.subset_of(vset));
            assert forall|p: int, q: int|
                vset.contains(p) && #[trigger] eps_edge(t, p, q) implies vset.contains(q) by {
                assert(0 <= p < n && visited@[p]);
            }
            lemma_closed_contains_closure(t, init_set, vset);
            assert(marks_set(visited@) =~= closure_of(t, init_set));
        }
        visited
    }

    /// Advance the active set over one input character; see [`step_set`].
    fn step(&self, current: &Vec<bool>, input: char) -> (r: Vec<bool>)
        requires
            self.wf(),
            current@.len() == self.states@.len(),
        ensures
            r@.len() == self.states@.len(),
            marks_set(r@) == step_set(self.trans(), marks_set(current@), input),
    {
        let ghost t = self.trans();
        let ghost cur = marks_set(current@);
        let n = self.states.len();
        let mut targets: Vec<usize> = Vec::new();
        let mut p: usize = 0;
        while p < n
            invariant
                self.wf(),
                t == self.trans(),
                cur == marks_set(current@),
                n == self.states@.len(),
                current@.len() == n,
                p <= n,
                forall|x: int| 0 <= x < targets@.len() ==> (#[trigger] targets@[x]) < n,
                forall|q: int|
                    #[trigger] idx_set(targets@).contains(q) ==> step_targets_upto(
                        t,
                        cur,
                        input,
                        q,
                        n as int,
                    ),
                forall|q: int|
                    #[trigger] step_targets_upto(t, cur, input, q, p as int) ==> idx_set(
                        targets@,
                    ).contains(q),
            decreases n - p,
        {
            if current[p] {
                proof {
                    assert(cur.contains(p as int));
                }
                let ts = &self.states[p].transitions;
                let mut k: usize = 0;
                while k < ts.len()
                    invariant
                        self.wf(),
                        t == self.trans(),
                        cur == marks_set(current@),
                        n == self.states@.len(),
                        current@.len() == n,
                        p < n,
                        cur.contains(p as int),
                        k <= ts@.len(),
                        ts@ == self.states@[p as int].transitions@,
                        forall|x: int| 0 <= x < targets@.len() ==> (#[trigger] targets@[x]) < n,
                        forall|q: int|
                            #[trigger] idx_set(targets@).contains(q) ==> step_targets_upto(
                                t,
                                cur,
                                input,
                                q,
                                n as int,
                            ),
                        forall|q: int|
                            #[trigger] step_targets_upto(t, cur, input, q, p as int) ==> idx_set(
                                targets@,
                            ).contains(q),
                        forall|q: int|
                            #[trigger] step_row_upto(t, input, p as int, q, k as int) ==> idx_set(
                                targets@,
                            ).contains(q),
                    decreases ts@.len() - k,
                {
                    let ghost targets0 = targets@;
                    let ghost k0 = k as int;
                    match ts[k] {
                        Transition::Char(e, tg) => {
                            if e == input {
                                proof {
                                    assert(t[p as int][k0] == ts@[k0]);
                                    assert(is_step_to(t[p as int][k0], input, tg as int));
                                    assert(target_of(t[p as int][k0]) < t.len());
                                    lemma_idx_set_push(targets0, tg);
                                    assert(step_targets_upto(t, cur, input, tg as int, n as int));
                                }
                                targets.push(tg);
                                proof {
                                    assert forall|q: int|
                                        #[trigger] idx_set(targets@).contains(
                                        q,
                                    ) implies step_targets_upto(t, cur, input, q, n as int) by {
                                        if q != tg as int {
                                            assert(idx_set(targets0).contains(q));
                                        }
                                    }
                                }
                            }
                        },
                        Transition::Any(tg) => {
                            proof {
                                assert(t[p as int][k0] == ts@[k0]);
                                assert(is_step_to(t[p as int][k0], input, tg as int));
                                assert(target_of(t[p as int][k0]) < t.len());
                                lemma_idx_set_push(targets0, tg);
                                assert(step_targets_upto(t, cur, input, tg as int, n as int));
                            }
                            targets.push(tg);
                            proof {
                                assert forall|q: int|
                                    #[trigger] idx_set(targets@).contains(
                                    q,
                                ) implies step_targets_upto(t, cur, input, q, n as int) by {
                                    if q != tg as int {
                                        assert(idx_set(targets0).contains(q));
                                    }
                                }
                            }
                        },
                        Transition::Epsilon(_) => {},
                    }
                    k = k + 1;
                    proof {
                        assert forall|q: int|
                            #[trigger] step_row_upto(t, input, p as int, q, k as int) implies
                            idx_set(targets@).contains(q) by {
                            let k2 = choose|k2: int|
                                0 <= k2 < k && k2 < t[p as int].len() && is_step_to(
                                    #[trigger] t[p as int][k2],
                                    input,
                                    q,
                                );
                            if k2 < k0 {
                                assert(step_row_upto(t, input, p as int, q, k0));
                            } else {
                                assert(k2 == k0);
                                assert(idx_set(targets@).contains(q));
                            }
                        }
                        assert forall|q: int|
                            #[trigger] step_targets_upto(t, cur, input, q, p as int) implies
                            idx_set(targets@).contains(q) by {
                            assert(idx_set(targets0).contains(q));
                            if targets0 != targets@ {
                                lemma_idx_set_push(targets0, targets@[targets0.len() as int]);
                                assert(targets@ == targets0.push(targets@[targets0.len() as int]));
                            }
                        }
                    }
                }
                proof {
                    assert forall|q: int|
                        #[trigger] step_targets_upto(t, cur, input, q, p as int + 1) implies
                        idx_set(targets@).contains(q) by {
                        let (p2, k2): (int, int) = choose|p2: int, k2: int|
                            0 <= p2 < p as int + 1 && cur.contains(p2) && 0 <= k2 < t[p2].len()
                                && is_step_to(#[trigger] t[p2][k2], input, q);
                        if p2 < p as int {
                            assert(step_targets_upto(t, cur, input, q, p as int));
                        } else {
                            assert(step_row_upto(t, input, p as int, q, ts@.len() as int));
                        }
                    }
                }
            } else {
                proof {
                    assert(!cur.contains(p as int));
                    assert forall|q: int|
                        #[trigger] step_targets_upto(t, cur, input, q, p as int + 1) implies
                        idx_set(targets@).contains(q) by {
                        let (p2, k2): (int, int) = choose|p2: int, k2: int|
                            0 <= p2 < p as int + 1 && cur.contains(p2) && 0 <= k2 < t[p2].len()
                                && is_step_to(#[trigger] t[p2][k2], input, q);
                        assert(p2 < p as int);
                        assert(step_targets_upto(t, cur, input, q, p as int));
                    }
                }
            }
            p = p + 1;
        }
        proof {
            assert(idx_set(targets@) =~= step_targets(t, cur, input));
        }
        let r = self.epsilon_closure(&targets);
        r
    }


    /// The single-position matching logic shared by [`NFA::find`] and
    /// [`NFA::find_all`]: the best (greedy) match end for a match
    /// anchored at `start`, or `None` when nothing matches there.
    fn match_at(&self, chars: &Vec<char>, start: usize) -> (r: Option<usize>)
        requires
            self.wf(),
            start <= chars@.len(),
        ensures
            match r {
                Some(end) => sp_match_at(
                    self.trans(),
                    self.start as int,
                    self.accept as int,
                    chars@,
                    start as int,
                ) == Some(end as int) && start <= end <= chars@.len(),
                None => sp_match_at(
                    self.trans(),
                    self.start as int,
                    self.accept as int,
                    chars@,
                    start as int,
                ) is None,
            },
    {
        let ghost t = self.trans();
        let ghost acc = self.accept as int;
        let init: Vec<usize> = vec![self.start];
        proof {
            assert((init@[0]) as int == self.start as int);
            assert(idx_set(init@) =~= Set::empty().insert(self.start as int));
        }
        let mut current = self.epsilon_closure(&init);
        let ghost cur0 = start_closure(t, self.start as int);
        proof {
            assert(marks_set(current@) == cur0);
        }
        let zero_ok = current[self.accept];
        proof {
            assert(zero_ok == cur0.contains(acc));
        }
        let mut matched: Option<usize> = None;
        let mut i: usize = start;
        let mut stop = false;
        while i < chars.len() && !stop
            invariant
                self.wf(),
                t == self.trans(),
                acc == self.accept as int,
                cur0 == start_closure(t, self.start as int),
                start <= i <= chars@.len(),
                current@.len() == self.states@.len(),
                (match matched {
                    Some(e) => start < e <= i,
                    None => true,
                }),
                !stop ==> sp_scan(t, acc, chars@, i as int, marks_set(current@), opt_end(matched))
                    == sp_scan(t, acc, chars@, start as int, cur0, None),
                stop ==> sp_scan(t, acc, chars@, start as int, cur0, None) == opt_end(matched),
            decreases chars@.len() - i + (if stop {
                0int
            } else {
                1int
            }),
        {
            let ghost cur_prev = marks_set(current@);
            let next = self.step(&current, chars[i]);
            if no_marks(&next) {
                proof {
                    assert(set_is_empty(step_set(t, cur_prev, chars@[i as int])));
                    assert(sp_scan(t, acc, chars@, i as int, cur_prev, opt_end(matched))
                        == opt_end(matched));
                }
                stop = true;
            } else {
                current = next;
                let hit = current[self.accept];
                proof {
                    assert(hit == marks_set(current@).contains(acc));
                    assert(sp_scan(t, acc, chars@, i as int, cur_prev, opt_end(matched))
                        == sp_scan(
                        t,
                        acc,
                        chars@,
                        i as int + 1,
                        marks_set(current@),
                        if marks_set(current@).contains(acc) {
                            Some(i as int + 1)
                        } else {
                            opt_end(matched)
                        },
                    ));
                }
                if hit {
                    matched = Some(i + 1);
                }
                i = i + 1;
            }
        }
        proof {
            assert(sp_scan(t, acc, chars@, start as int, cur0, None) == opt_end(matched));
        }
        match matched {
            Some(e) => Some(e),
            None => {
                if zero_ok {
                    Some(start)
                } else {
                    None
                }
            },
        }
    }

    /// Find the leftmost match: the earliest start position with any
    /// match, with the longest (greedy) end from that position. A
    /// zero-length match counts.
    pub fn find(&self, input: &str) -> (m: Option<Match>)
        requires
            self.wf(),
        ensures
            m == sp_find(self.trans(), self.start as int, self.accept as int, input@),
    {
        let ghost t = self.trans();
        let ghost st = self.start as int;
        let ghost acc = self.accept as int;
        let chars = crate::parser::chars_vec(input);
        let n = chars.len();
        let mut start: usize = 0;
        while start < n
            invariant
                self.wf(),
                t == self.trans(),
                st == self.start as int,
                acc == self.accept as int,
                chars@ == input@,
                n == chars@.len(),
                start <= n,
                sp_find_from(t, st, acc, chars@, 0) == sp_find_from(t, st, acc, chars@, start as int),
            decreases n - start,
        {
            match self.match_at(&chars, start) {
                Some(end) => {
                    proof {
                        assert(sp_find_from(t, st, acc, chars@, start as int) == Some(
                            Match { start, end },
                        ));
                    }
                    return Some(Match { start, end });
                },
                None => {
                    proof {
                        assert(sp_find_from(t, st, acc, chars@, start as int) == sp_find_from(
                            t,
                            st,
                            acc,
                            chars@,
                            start as int + 1,
                        ));
                    }
                    start = start + 1;
                },
            }
        }
        match self.match_at(&chars, n) {
            Some(end) => Some(Match { start: n, end }),
            None => {
                proof {
                    assert(sp_find_from(t, st, acc, chars@, n as int + 1) is None);
                    assert(sp_find_from(t, st, acc, chars@, n as int) is None);
                }
                None
            },
        }
    }

    /// Find every non-overlapping match, in order of position. The
    /// cursor resumes at each match's end, and moves one step forward
    /// past zero-length matches so that it always makes progress.
    pub fn find_all(&self, input: &str) -> (ms: Vec<Match>)
        requires
            self.wf(),
        ensures
            ms@ == sp_find_all(self.trans(), self.start as int, self.accept as int, input@),
    {
        let ghost t = self.trans();
        let ghost st = self.start as int;
        let ghost acc = self.accept as int;
        let chars = crate::parser::chars_vec(input);
        let n = chars.len();
        let mut results: Vec<Match> = Vec::new();
        let mut index: usize = 0;
        let mut done = false;
        while !done
            invariant
                self.wf(),
                t == self.trans(),
                st == self.start as int,
                acc == self.accept as int,
                chars@ == input@,
                n == chars@.len(),
                index <= n,
                !done ==> sp_find_all_from(t, st, acc, chars@, 0) == results@ + sp_find_all_from(
                    t,
                    st,
                    acc,
                    chars@,
                    index as int,
                ),
                done ==> sp_find_all_from(t, st, acc, chars@, 0) == results@,
            decreases n - index + (if done {
                0int
            } else {
                1int
            }),
        {
            let ghost results0 = results@;
            match self.match_at(&chars, index) {
                Some(end) => {
                    let m = Match { start: index, end };
                    results.push(m);
                    proof {
                        let ghost next = if (index as int) < end as int <= chars@.len() {
                            end as int
                        } else {
                            index as int + 1
                        };
                        assert(sp_find_all_from(t, st, acc, chars@, index as int) == seq![m]
                            + sp_find_all_from(t, st, acc, chars@, next));
                        assert(results0 + (seq![m] + sp_find_all_from(t, st, acc, chars@, next))
                            =~= results@ + sp_find_all_from(t, st, acc, chars@, next));
                    }
                    if end > index {
                        index = end;
                    } else {
                        if index == n {
                            proof {
                                assert(sp_find_all_from(t, st, acc, chars@, n as int + 1)
                                    =~= Seq::<Match>::empty());
                                assert(results@ + Seq::<Match>::empty() =~= results@);
                            }
                            done = true;
                        } else {
                            index = index + 1;
                        }
                    }
                },
                None => {
                    proof {
                        assert(sp_find_all_from(t, st, acc, chars@, index as int)
                            == sp_find_all_from(t, st, acc, chars@, index as int + 1));
                    }
                    if index == n {
                        proof {
                            assert(sp_find_all_from(t, st, acc, chars@, n as int + 1)
                                =~= Seq::<Match>::empty());
                            assert(results@ + Seq::<Match>::empty() =~= results@);
                        }
                        done = true;
                    } else {
                        index = index + 1;
                    }
                },
            }
        }
        results
    }
}

/// Compilation and matching are deterministic: two automatons compiled
/// from the same tree have identical state tables, the same start and
/// accept indices, and yield the same match results on every text.
pub proof fn lemma_compile_deterministic(ast: RegexAst, n1: NFA, n2: NFA, text: Seq<char>)
    requires
        built_from(n1, ast),
        built_from(n2, ast),
    ensures
        n1.trans() == n2.trans(),
        n1.start == n2.start,
        n1.accept == n2.accept,
        sp_find(n1.trans(), n1.start as int, n1.accept as int, text) == sp_find(
            n2.trans(),
            n2.start as int,
            n2.accept as int,
            text,
        ),
        sp_find_all(n1.trans(), n1.start as int, n1.accept as int, text) == sp_find_all(
            n2.trans(),
            n2.start as int,
            n2.accept as int,
            text,
        ),
{
}

} // verus!
