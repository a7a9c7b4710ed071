//! The join engine: a per-substream state machine that decides whether each
//! data record belongs to an ongoing merged group, driven by up to three
//! boundary trees (`start`, `while`, `end`) compiled into one shared arena.
//!
//! Exactly one of three combinations is legal: `{start, end}`,
//! `{start, while}`, or `{while}`.

use crate::filter::{
    and_eval, arena_view, arena_wf, eval_node, init_tree, seeds_valid, FilterSeed, Node, NodeV,
};
use crate::load::LoadError;
use vstd::prelude::*;

verus! {

/// Which state machine a join set runs, with the arena roots of its trees.
#[derive(Clone, Copy)]
pub enum JoinInner {
    StartEnd(usize, usize),
    StartWhile(usize, usize),
    While(usize),
}

/// The compiled join configuration: the shared arena and the machine kind.
pub struct JoinSet {
    store: Vec<Node>,
    set: JoinInner,
}

/// The three legal `(start, while, end)` presence combinations.
pub open spec fn legal_combination(target: (bool, bool, bool)) -> bool {
    target == (true, false, true) || target == (true, true, false) || target == (
        false,
        true,
        false,
    )
}

impl JoinSet {
    /// The arena is well formed and every root is present.
    pub closed spec fn wf(self) -> bool {
        &&& arena_wf(arena_view(self.store@))
        &&& match self.set {
            JoinInner::StartEnd(s, e) => (s as int) < self.store@.len() && (e as int)
                < self.store@.len(),
            JoinInner::StartWhile(s, w) => (s as int) < self.store@.len() && (w as int)
                < self.store@.len(),
            JoinInner::While(w) => (w as int) < self.store@.len(),
        }
    }

    /// Which machine this set runs, as its presence triple.
    pub closed spec fn kind(self) -> (bool, bool, bool) {
        match self.set {
            JoinInner::StartEnd(_, _) => (true, false, true),
            JoinInner::StartWhile(_, _) => (true, true, false),
            JoinInner::While(_) => (false, true, false),
        }
    }

    /// Whether the `start` tree matches `text` (meaningless if absent).
    pub closed spec fn start_matches(self, text: Seq<char>) -> bool {
        match self.set {
            JoinInner::StartEnd(s, _) => eval_node(arena_view(self.store@), s as int, text),
            JoinInner::StartWhile(s, _) => eval_node(arena_view(self.store@), s as int, text),
            JoinInner::While(_) => false,
        }
    }

    /// Whether the `while` tree matches `text` (meaningless if absent).
    pub closed spec fn while_matches(self, text: Seq<char>) -> bool {
        match self.set {
            JoinInner::StartEnd(_, _) => false,
            JoinInner::StartWhile(_, w) => eval_node(arena_view(self.store@), w as int, text),
            JoinInner::While(w) => eval_node(arena_view(self.store@), w as int, text),
        }
    }

    /// Whether the `end` tree matches `text` (meaningless if absent).
    pub closed spec fn end_matches(self, text: Seq<char>) -> bool {
        match self.set {
            JoinInner::StartEnd(_, e) => eval_node(arena_view(self.store@), e as int, text),
            JoinInner::StartWhile(_, _) => false,
            JoinInner::While(_) => false,
        }
    }

    /// One step of the machine: from `awaiting` (true while no group is
    /// open) and the record text, to the next state and whether the record
    /// belongs to an ongoing merged group.
    ///
    /// - start/end: a matching start opens a group; inside one, every record
    ///   belongs to it, and a matching end closes it.
    /// - start/while: a matching start opens a group; it stays open exactly
    ///   while the `while` tree matches.
    /// - while: stateless membership by the `while` tree.
    pub open spec fn spec_step(self, awaiting: bool, text: Seq<char>) -> (bool, bool) {
        if self.kind() == (true, false, true) {
            if awaiting {
                if self.start_matches(text) {
                    (false, true)
                } else {
                    (true, false)
                }
            } else {
                if self.end_matches(text) {
                    (true, true)
                } else {
                    (false, true)
                }
            }
        } else if self.kind() == (true, true, false) {
            if awaiting {
                if self.start_matches(text) {
                    (false, true)
                } else {
                    (true, false)
                }
            } else {
                if self.while_matches(text) {
                    (false, true)
                } else {
                    (true, false)
                }
            }
        } else {
            (awaiting, self.while_matches(text))
        }
    }

    /// Compile a join configuration. Exactly the three legal combinations
    /// are accepted; every present tree must compile.
    pub fn new_filter(
        start: Option<Vec<FilterSeed>>,
        cont: Option<Vec<FilterSeed>>,
        end: Option<Vec<FilterSeed>>,
    ) -> (r: Result<JoinSet, LoadError>)
        ensures
            r is Ok <==> legal_combination((start is Some, cont is Some, end is Some)) && (
            start matches Some(s) ==> seeds_valid(s@)) && (cont matches Some(s) ==> seeds_valid(
                s@,
            )) && (end matches Some(s) ==> seeds_valid(s@)),
            r matches Ok(js) ==> {
                &&& js.wf()
                &&& js.kind() == (start is Some, cont is Some, end is Some)
                &&& start matches Some(s) ==> forall|text: Seq<char>|
                    #[trigger] js.start_matches(text) == and_eval(s@, false, text)
                &&& cont matches Some(s) ==> forall|text: Seq<char>|
                    #[trigger] js.while_matches(text) == and_eval(s@, false, text)
                &&& end matches Some(s) ==> forall|text: Seq<char>|
                    #[trigger] js.end_matches(text) == and_eval(s@, false, text)
            },
            r matches Err(e) ==> match e {
                LoadError::JoinInvalidInput(t) => t == (start is Some, cont is Some, end is Some)
                    && !legal_combination(t),
                LoadError::InvalidRegex(p) => !crate::filter::rx_valid(p@),
                _ => false,
            },
    {
        let mut store: Vec<Node> = Vec::new();
        match (start, cont, end) {
            (Some(s), None, Some(e)) => {
                let s_root = match init_tree(&mut store, &s) {
                    Ok(root) => root,
                    Err(err) => {
                        return Err(err);
                    },
                };
                let ghost ns_a = arena_view(store@);
                let e_root = match init_tree(&mut store, &e) {
                    Ok(root) => root,
                    Err(err) => {
                        return Err(err);
                    },
                };
                let js = JoinSet { store, set: JoinInner::StartEnd(s_root, e_root) };
                proof {
                    let ns_b = arena_view(js.store@);
                    assert forall|text: Seq<char>| #[trigger]
                        js.start_matches(text) == and_eval(s@, false, text) by {
                        crate::filter::lemma_eval_node_prefix(ns_a, ns_b, s_root as int, text);
                    }
                }
                Ok(js)
            },
            (Some(s), Some(w), None) => {
                let s_root = match init_tree(&mut store, &s) {
                    Ok(root) => root,
                    Err(err) => {
                        return Err(err);
                    },
                };
                let ghost ns_a = arena_view(store@);
                let w_root = match init_tree(&mut store, &w) {
                    Ok(root) => root,
                    Err(err) => {
                        return Err(err);
                    },
                };
                let js = JoinSet { store, set: JoinInner::StartWhile(s_root, w_root) };
                proof {
                    let ns_b = arena_view(js.store@);
                    assert forall|text: Seq<char>| #[trigger]
                        js.start_matches(text) == and_eval(s@, false, text) by {
                        crate::filter::lemma_eval_node_prefix(ns_a, ns_b, s_root as int, text);
                    }
                }
                Ok(js)
            },
            (None, Some(w), None) => {
                let w_root = match init_tree(&mut store, &w) {
                    Ok(root) => root,
                    Err(err) => {
                        return Err(err);
                    },
                };
                Ok(JoinSet { store, set: JoinInner::While(w_root) })
            },
            (s, c, e) => Err(LoadError::JoinInvalidInput((s.is_some(), c.is_some(), e.is_some()))),
        }
    }

    /// A fresh per-substream handle, in the awaiting-start state.
    pub fn new_handle(&self) -> (h: JoinSetHandle<'_>)
        ensures
            h.parent() == *self,
            h.awaiting(),
    {
        JoinSetHandle { set: self, state: true }
    }
}

/// Per-substream mutable state over a shared, immutable join set.
pub struct JoinSetHandle<'j> {
    set: &'j JoinSet,
    state: bool,
}

impl<'j> JoinSetHandle<'j> {
    /// The join set this handle runs.
    pub closed spec fn parent(self) -> JoinSet {
        *self.set
    }

    /// True while no merged group is open.
    pub closed spec fn awaiting(self) -> bool {
        self.state
    }

    /// Advance the state machine on one record text and report whether that
    /// record belongs to an ongoing merged group.
    pub fn should_join(&mut self, on: &str) -> (b: bool)
        requires
            old(self).parent().wf(),
        ensures
            final(self).parent() == old(self).parent(),
            (final(self).awaiting(), b) == old(self).parent().spec_step(
                old(self).awaiting(),
                on@,
            ),
    {
        match self.set.set {
            JoinInner::StartEnd(s, e) => {
                if self.state {
                    if crate::filter::recursive_match(&self.set.store, s, on) {
                        self.state = false;
                        true
                    } else {
                        false
                    }
                } else {
                    if crate::filter::recursive_match(&self.set.store, e, on) {
                        self.state = true;
                    }
                    true
                }
            },
            JoinInner::StartWhile(s, w) => {
                if self.state {
                    if crate::filter::recursive_match(&self.set.store, s, on) {
                        self.state = false;
                        true
                    } else {
                        false
                    }
                } else {
                    if crate::filter::recursive_match(&self.set.store, w, on) {
                        true
                    } else {
                        self.state = true;
                        false
                    }
                }
            },
            JoinInner::While(w) => crate::filter::recursive_match(&self.set.store, w, on),
        }
    }
}

/// The answers over a whole input sequence, from a given initial state.
pub open spec fn join_outputs(set: JoinSet, awaiting: bool, inputs: Seq<Seq<char>>) -> Seq<bool>
    decreases inputs.len(),
{
    if inputs.len() == 0 {
        Seq::empty()
    } else {
        let sb = set.spec_step(awaiting, inputs[0]);
        seq![sb.1] + join_outputs(set, sb.0, inputs.drop_first())
    }
}

/// `should_join` is deterministic given the initial state: two handles over
/// join sets that step alike, started in the same state and fed the same
/// records, answer identically on the whole sequence.
pub proof fn lemma_should_join_deterministic(
    a: JoinSet,
    b: JoinSet,
    st: bool,
    inputs: Seq<Seq<char>>,
)
    requires
        forall|s: bool, text: Seq<char>| #[trigger] a.spec_step(s, text) == b.spec_step(s, text),
    ensures
        join_outputs(a, st, inputs) == join_outputs(b, st, inputs),
    decreases inputs.len(),
{
    if inputs.len() > 0 {
        let sb = a.spec_step(st, inputs[0]);
        lemma_should_join_deterministic(a, b, sb.0, inputs.drop_first());
    }
}

} // verus!
