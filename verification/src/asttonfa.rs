use vstd::prelude::*;

use crate::ast::RegexAst;
use crate::nfa;
use crate::nfa::{states_model, targets_ok, Transition};

verus! {

/// A state table with one transition appended to the row of state `from`.
pub open spec fn link_t(t: Seq<Seq<Transition>>, from: int, tr: Transition) -> Seq<
    Seq<Transition>,
> {
    t.update(from, t[from].push(tr))
}

/// Thompson's construction, one rule per node kind, as a function from a
/// tree and the table built so far to the grown table and the start and
/// accept indices of the new fragment. States are only appended; existing
/// states are never renumbered, only wired to by new epsilon transitions.
pub open spec fn sp_build(ast: RegexAst, t: Seq<Seq<Transition>>) -> (
    Seq<Seq<Transition>>,
    int,
    int,
)
    decreases ast,
{
    match ast {
        RegexAst::Literal(c) => {
            let s = t.len() as int;
            let a = s + 1;
            let t1 = t.push(seq![Transition::Char(c, a as usize)]).push(
                Seq::<Transition>::empty(),
            );
            (t1, s, a)
        },
        RegexAst::Dot => {
            let s = t.len() as int;
            let a = s + 1;
            let t1 = t.push(seq![Transition::Any(a as usize)]).push(Seq::<Transition>::empty());
            (t1, s, a)
        },
        RegexAst::Concat(l, r) => {
            let bl = sp_build(*l, t);
            let br = sp_build(*r, bl.0);
            let t2 = link_t(br.0, bl.2, Transition::Epsilon(br.1 as usize));
            (t2, bl.1, br.2)
        },
        RegexAst::Alternate(l, r) => {
            let s = t.len() as int;
            let bl = sp_build(*l, t.push(Seq::<Transition>::empty()));
            let br = sp_build(*r, bl.0);
            let a = br.0.len() as int;
            let t2 = br.0.push(Seq::<Transition>::empty());
            let t3 = link_t(t2, s, Transition::Epsilon(bl.1 as usize));
            let t4 = link_t(t3, s, Transition::Epsilon(br.1 as usize));
            let t5 = link_t(t4, bl.2, Transition::Epsilon(a as usize));
            let t6 = link_t(t5, br.2, Transition::Epsilon(a as usize));
            (t6, s, a)
        },
        RegexAst::KleeneStar(x) => {
            let s = t.len() as int;
            let b = sp_build(*x, t.push(Seq::<Transition>::empty()));
            let a = b.0.len() as int;
            let t2 = b.0.push(Seq::<Transition>::empty());
            let t3 = link_t(t2, s, Transition::Epsilon(b.1 as usize));
            let t4 = link_t(t3, s, Transition::Epsilon(a as usize));
            let t5 = link_t(t4, b.2, Transition::Epsilon(b.1 as usize));
            let t6 = link_t(t5, b.2, Transition::Epsilon(a as usize));
            (t6, s, a)
        },
        RegexAst::Plus(x) => {
            let b = sp_build(*x, t);
            let a = b.0.len() as int;
            let t2 = b.0.push(Seq::<Transition>::empty());
            let t3 = link_t(t2, b.2, Transition::Epsilon(b.1 as usize));
            let t4 = link_t(t3, b.2, Transition::Epsilon(a as usize));
            (t4, b.1, a)
        },
        RegexAst::Qmark(x) => {
            let s = t.len() as int;
            let b = sp_build(*x, t.push(Seq::<Transition>::empty()));
            let a = b.0.len() as int;
            let t2 = b.0.push(Seq::<Transition>::empty());
            let t3 = link_t(t2, s, Transition::Epsilon(b.1 as usize));
            let t4 = link_t(t3, s, Transition::Epsilon(a as usize));
            let t5 = link_t(t4, b.2, Transition::Epsilon(a as usize));
            (t5, s, a)
        },
    }
}

/// Growing a table by one fragment appends at least one state, keeps
/// every transition target valid, and hands back fragment endpoints that
/// lie among the appended states.
pub proof fn lemma_sp_build_wf(ast: RegexAst, t: Seq<Seq<Transition>>)
    requires
        targets_ok(t),
    ensures
        ({
            let b = sp_build(ast, t);
            &&& t.len() < b.0.len()
            &&& t.len() <= b.1 < b.0.len()
            &&& t.len() <= b.2 < b.0.len()
            &&& targets_ok(b.0)
        }),
    decreases ast,
{
    match ast {
        RegexAst::Literal(c) => {
            let b = sp_build(ast, t);
            assert(targets_ok(b.0));
        },
        RegexAst::Dot => {
            let b = sp_build(ast, t);
            assert(targets_ok(b.0));
        },
        RegexAst::Concat(l, r) => {
            lemma_sp_build_wf(*l, t);
            let bl = sp_build(*l, t);
            lemma_sp_build_wf(*r, bl.0);
            let br = sp_build(*r, bl.0);
            let t2 = link_t(br.0, bl.2, Transition::Epsilon(br.1 as usize));
            assert(targets_ok(t2));
        },
        RegexAst::Alternate(l, r) => {
            let t0 = t.push(Seq::<Transition>::empty());
            assert(targets_ok(t0));
            lemma_sp_build_wf(*l, t0);
            let bl = sp_build(*l, t0);
            lemma_sp_build_wf(*r, bl.0);
            let br = sp_build(*r, bl.0);
            let t2 = br.0.push(Seq::<Transition>::empty());
            assert(targets_ok(t2));
            let b = sp_build(ast, t);
            assert(targets_ok(b.0));
        },
        RegexAst::KleeneStar(x) => {
            let t0 = t.push(Seq::<Transition>::empty());
            assert(targets_ok(t0));
            lemma_sp_build_wf(*x, t0);
            let bx = sp_build(*x, t0);
            let t2 = bx.0.push(Seq::<Transition>::empty());
            assert(targets_ok(t2));
            let b = sp_build(ast, t);
            assert(targets_ok(b.0));
        },
        RegexAst::Plus(x) => {
            lemma_sp_build_wf(*x, t);
            let bx = sp_build(*x, t);
            let t2 = bx.0.push(Seq::<Transition>::empty());
            assert(targets_ok(t2));
            let b = sp_build(ast, t);
            assert(targets_ok(b.0));
        },
        RegexAst::Qmark(x) => {
            let t0 = t.push(Seq::<Transition>::empty());
            assert(targets_ok(t0));
            lemma_sp_build_wf(*x, t0);
            let bx = sp_build(*x, t0);
            let t2 = bx.0.push(Seq::<Transition>::empty());
            assert(targets_ok(t2));
            let b = sp_build(ast, t);
            assert(targets_ok(b.0));
        },
    }
}

/// An automaton whose table, start and accept are exactly what
/// [`sp_build`] yields for `ast` on an empty table.
pub open spec fn built_from(n: nfa::NFA, ast: RegexAst) -> bool {
    let b = sp_build(ast, Seq::<Seq<Transition>>::empty());
    &&& n.trans() == b.0
    &&& n.start as int == b.1
    &&& n.accept as int == b.2
}

/// Compile a syntax tree into an automaton. Always succeeds; the result
/// is exactly the table of [`sp_build`], and well formed.
pub fn from_ast(ast: &RegexAst) -> (n: nfa::NFA)
    ensures
        built_from(n, *ast),
        n.wf(),
{
    let mut builder = NfaBuilder::new();
    let frag = builder.build(ast);
    proof {
        lemma_sp_build_wf(*ast, Seq::<Seq<Transition>>::empty());
    }
    nfa::NFA { states: builder.states, start: frag.start, accept: frag.accept }
}

/// Owns the state table while a tree is compiled; the table is handed
/// off, frozen, once composition finishes.
struct NfaBuilder {
    states: Vec<nfa::State>,
}

impl NfaBuilder {
    /// The model of the table built so far.
    spec fn model(self) -> Seq<Seq<Transition>> {
        states_model(self.states@)
    }

    fn new() -> (b: NfaBuilder)
        ensures
            b.model() == Seq::<Seq<Transition>>::empty(),
    {
        let b = NfaBuilder { states: Vec::new() };
        proof {
            assert(b.model() =~= Seq::<Seq<Transition>>::empty());
        }
        b
    }

    /// Append one state with no transitions yet; yield its index.
    fn add_state(&mut self) -> (idx: usize)
        ensures
            idx == old(self).states@.len(),
            final(self).states@.len() == old(self).states@.len() + 1,
            final(self).model() == old(self).model().push(Seq::<Transition>::empty()),
    {
        let idx = self.states.len();
        self.states.push(nfa::State { transitions: Vec::new() });
        proof {
            assert(self.model() =~= old(self).model().push(Seq::<Transition>::empty()));
        }
        idx
    }

    /// Append one transition to the row of state `from`.
    fn link(&mut self, from: usize, trans: Transition)
        requires
            from < old(self).states@.len(),
        ensures
            final(self).states@.len() == old(self).states@.len(),
            final(self).model() == link_t(old(self).model(), from as int, trans),
    {
        self.states[from].transitions.push(trans);
        proof {
            assert(self.model() =~= link_t(old(self).model(), from as int, trans));
        }
    }

    /// Fragment for a single literal character.
    fn build_literal(&mut self, c: char) -> (f: nfa::NfaFragment)
        ensures
            ({
                let b = sp_build(RegexAst::Literal(c), old(self).model());
                &&& final(self).model() == b.0
                &&& f.start as int == b.1
                &&& f.accept as int == b.2
                &&& old(self).states@.len() <= f.start < final(self).states@.len()
                &&& old(self).states@.len() <= f.accept < final(self).states@.len()
                &&& old(self).states@.len() < final(self).states@.len()
            }),
    {
        let start = self.add_state();
        let accept = self.add_state();
        self.link(start, Transition::Char(c, accept));
        proof {
            let b = sp_build(RegexAst::Literal(c), old(self).model());
            assert(self.model() =~= b.0);
        }
        nfa::NfaFragment { start, accept }
    }

    /// Fragment for the wildcard `.`.
    fn build_dot(&mut self) -> (f: nfa::NfaFragment)
        ensures
            ({
                let b = sp_build(RegexAst::Dot, old(self).model());
                &&& final(self).model() == b.0
                &&& f.start as int == b.1
                &&& f.accept as int == b.2
                &&& old(self).states@.len() <= f.start < final(self).states@.len()
                &&& old(self).states@.len() <= f.accept < final(self).states@.len()
                &&& old(self).states@.len() < final(self).states@.len()
            }),
    {
        let start = self.add_state();
        let accept = self.add_state();
        self.link(start, Transition::Any(accept));
        proof {
            let b = sp_build(RegexAst::Dot, old(self).model());
            assert(self.model() =~= b.0);
        }
        nfa::NfaFragment { start, accept }
    }

    /// Build the fragment of one tree node, appending its states to the
    /// table and wiring it per Thompson's rules.
    fn build(&mut self, ast: &RegexAst) -> (f: nfa::NfaFragment)
        ensures
            ({
                let b = sp_build(*ast, old(self).model());
                &&& final(self).model() == b.0
                &&& f.start as int == b.1
                &&& f.accept as int == b.2
                &&& old(self).states@.len() <= f.start < final(self).states@.len()
                &&& old(self).states@.len() <= f.accept < final(self).states@.len()
                &&& old(self).states@.len() < final(self).states@.len()
            }),
        decreases ast,
    {
        match ast {
            RegexAst::Literal(c) => self.build_literal(*c),
            RegexAst::Dot => self.build_dot(),
            RegexAst::Concat(a, b) => {
                let left = self.build(&**a);
                let right = self.build(&**b);
                self.link(left.accept, Transition::Epsilon(right.start));
                nfa::NfaFragment { start: left.start, accept: right.accept }
            },
            RegexAst::Alternate(a, b) => {
                let s = self.add_state();
                let left = self.build(&**a);
                let right = self.build(&**b);
                let accept = self.add_state();
                self.link(s, Transition::Epsilon(left.start));
                self.link(s, Transition::Epsilon(right.start));
                self.link(left.accept, Transition::Epsilon(accept));
                self.link(right.accept, Transition::Epsilon(accept));
                nfa::NfaFragment { start: s, accept }
            },
            RegexAst::KleeneStar(a) => {
                let s = self.add_state();
                let frag = self.build(&**a);
                let accept = self.add_state();
                self.link(s, Transition::Epsilon(frag.start));
                self.link(s, Transition::Epsilon(accept));
                self.link(frag.accept, Transition::Epsilon(frag.start));
                self.link(frag.accept, Transition::Epsilon(accept));
                nfa::NfaFragment { start: s, accept }
            },
            RegexAst::Plus(a) => {
                let frag = self.build(&**a);
                let accept = self.add_state();
                self.link(frag.accept, Transition::Epsilon(frag.start));
                self.link(frag.accept, Transition::Epsilon(accept));
                nfa::NfaFragment { start: frag.start, accept }
            },
            RegexAst::Qmark(a) => {
                let s = self.add_state();
                let frag = self.build(&**a);
                let accept = self.add_state();
                self.link(s, Transition::Epsilon(frag.start));
                self.link(s, Transition::Epsilon(accept));
                self.link(frag.accept, Transition::Epsilon(accept));
                nfa::NfaFragment { start: s, accept }
            },
        }
    }
}

} // verus!
