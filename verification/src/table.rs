//! The transition table: node arena and pattern compiler.

use crate::error::TableError;
use crate::model::{
    add_spec, aut_wf, blank_node, bytes_of, compile_atoms, dedup, dedup_from, extend_frontier,
    extend_one, extend_range, first_taken, frontier_ok, initial_automaton, lemma_extend_one,
    lemma_pos_of, loop_frontier, loop_range, parse_class, parse_pat, parse_tail, pos_of, range_ok,
    set_values, upd_child, upd_value, walk, AddOutcome, Automaton, ParseOutcome,
    SpecAtom, SpecNode, WalkOutcome, CLOSE_BRACKET, OPEN_BRACKET, PLUS_BYTE,
};
use vstd::prelude::*;
use vstd::string::{StrSliceExecFns, StringSliceAdditionalSpecFns};

verus! {

/// Lifts a sequence of machine indexes to the model's integers.
pub open spec fn ints(s: Seq<usize>) -> Seq<int> {
    Seq::new(s.len(), |i: int| s[i] as int)
}

/// Lifts an optional machine index to the model's integers.
pub open spec fn opt_int(o: Option<usize>) -> Option<int> {
    match o {
        Some(v) => Some(v as int),
        None => None,
    }
}

/// One arena node: a child link per alphabet position, and the optional
/// index of its accept value in the table's value store.
pub(crate) struct Node {
    pub(crate) children: Vec<Option<usize>>,
    pub(crate) value: Option<usize>,
}

impl View for Node {
    type V = SpecNode;

    closed spec fn view(&self) -> SpecNode {
        SpecNode {
            children: Seq::new(self.children@.len(), |i: int| opt_int(self.children@[i])),
            value: opt_int(self.value),
        }
    }
}

impl Node {
    /// A fresh node with `capacity` absent child links and no value.
    pub(crate) fn new(capacity: usize) -> (r: Node)
        ensures
            r@.children.len() == capacity,
            forall|i: int| 0 <= i < capacity ==> r@.children[i] is None,
            r@.value is None,
    {
        Node { children: vec![None; capacity], value: None }
    }

    /// Reads one child slot.
    pub(crate) fn get_children(&self, index: usize) -> (r: Option<usize>)
        requires
            index < self@.children.len(),
        ensures
            opt_int(r) == self@.children[index as int],
    {
        self.children[index]
    }

    /// Writes one child slot. An empty slot is written; a slot already
    /// holding `child` is left alone; a slot holding a different node is
    /// left alone and reported as a conflict (`false`) when `strict`.
    pub(crate) fn set_children(&mut self, index: usize, child: usize, strict: bool) -> (ok: bool)
        requires
            index < old(self)@.children.len(),
        ensures
            match old(self)@.children[index as int] {
                None => ok && final(self)@ == (SpecNode {
                    children: old(self)@.children.update(index as int, Some(child as int)),
                    value: old(self)@.value,
                }),
                Some(c) => final(self)@ == old(self)@ && ok == (c == child as int || !strict),
            },
    {
        match self.children[index] {
            None => {
                self.children[index] = Some(child);
                proof {
                    assert(final(self)@.children =~= old(self)@.children.update(
                        index as int,
                        Some(child as int),
                    ));
                }
                true
            },
            Some(existing) => existing == child || !strict,
        }
    }

    /// Installs the accept value index, unless one is already present.
    pub(crate) fn set_value(&mut self, vi: usize) -> (ok: bool)
        ensures
            match old(self)@.value {
                None => ok && final(self)@ == (SpecNode {
                    children: old(self)@.children,
                    value: Some(vi as int),
                }),
                Some(_) => final(self)@ == old(self)@ && !ok,
            },
    {
        match self.value {
            None => {
                self.value = Some(vi);
                true
            },
            Some(_) => false,
        }
    }

    /// Reads the accept value index.
    pub(crate) fn get_value(&self) -> (r: Option<usize>)
        ensures
            opt_int(r) == self@.value,
    {
        self.value
    }

    /// Whether this node accepts.
    pub(crate) fn has_value(&self) -> (r: bool)
        ensures
            r == (self@.value is Some),
    {
        self.value.is_some()
    }
}

/// A compiled transition table over a fixed alphabet, mapping patterns to
/// accept values of type `T`.
pub struct Table<T> {
    alphabet: Vec<u8>,
    strict: bool,
    nodes: Vec<Node>,
    values: Vec<T>,
}

impl<T> Table<T> {
    /// The model automaton of this table: alphabet, node structure, and how
    /// many values are installed.
    pub closed spec fn aut(&self) -> Automaton {
        Automaton {
            alphabet: self.alphabet@,
            nodes: Seq::new(self.nodes@.len(), |i: int| self.nodes@[i]@),
            nvals: self.values@.len() as int,
        }
    }

    /// The accept values installed so far, in installation order.
    pub closed spec fn vals(&self) -> Seq<T> {
        self.values@
    }

    /// Whether this table rejects ambiguous links rather than keeping the
    /// first target.
    pub closed spec fn strict_mode(&self) -> bool {
        self.strict
    }

    /// Well-formedness: the model automaton is well formed.
    pub open spec fn wf(&self) -> bool {
        aut_wf(self.aut())
    }

    /// An empty table over `alphabet` under the permissive policy: links
    /// that would diverge keep their first target.
    pub fn new(alphabet: String) -> (r: Table<T>)
        ensures
            r.wf(),
            !r.strict_mode(),
            r.vals() == Seq::<T>::empty(),
            r.aut() == initial_automaton(vstd::utf8::encode_utf8(alphabet@)),
    {
        Self::with_policy(alphabet, false)
    }

    /// An empty table over `alphabet` under the strict policy: links that
    /// would diverge fail the `add` with `AmbiguousPattern`.
    pub fn new_strict(alphabet: String) -> (r: Table<T>)
        ensures
            r.wf(),
            r.strict_mode(),
            r.vals() == Seq::<T>::empty(),
            r.aut() == initial_automaton(vstd::utf8::encode_utf8(alphabet@)),
    {
        Self::with_policy(alphabet, true)
    }

    /// An empty table over `alphabet` with the given link policy.
    pub fn with_policy(alphabet: String, strict: bool) -> (r: Table<T>)
        ensures
            r.wf(),
            r.strict_mode() == strict,
            r.vals() == Seq::<T>::empty(),
            r.aut() == initial_automaton(vstd::utf8::encode_utf8(alphabet@)),
    {
        let bytes = alphabet.as_str().as_bytes_vec();
        let root = Node::new(bytes.len());
        let r = Table { alphabet: bytes, strict, nodes: vec![root], values: Vec::new() };
        proof {
            assert(r.aut().nodes =~= initial_automaton(vstd::utf8::encode_utf8(alphabet@)).nodes) by {
                assert(r.aut().nodes[0].children =~= initial_automaton(
                    vstd::utf8::encode_utf8(alphabet@),
                ).nodes[0].children);
            }
        }
        r
    }

    /// How many nodes the arena holds.
    pub fn node_count(&self) -> (r: usize)
        ensures
            r as int == self.aut().nodes.len(),
    {
        self.nodes.len()
    }

    /// Reads the transition of node `n` on alphabet position `pos`. An
    /// out-of-range node or position reads as absent.
    pub fn transition(&self, n: usize, pos: usize) -> (r: Option<usize>)
        requires
            self.wf(),
        ensures
            opt_int(r) == (if n < self.aut().nodes.len() && pos < self.aut().alphabet.len() {
                self.aut().nodes[n as int].children[pos as int]
            } else {
                Option::<int>::None
            }),
    {
        if n < self.nodes.len() && pos < self.alphabet.len() {
            proof {
                assert(crate::model::node_wf(self.aut(), self.aut().nodes[n as int]));
            }
            self.nodes[n].children[pos]
        } else {
            None
        }
    }

    /// The alphabet position of byte `ch`, or `InvalidInput` when `ch` is
    /// not in the alphabet.
    pub fn calculate_position(&self, ch: u8) -> (r: Result<usize, TableError<T>>)
        ensures
            match r {
                Ok(p) => pos_of(self.aut().alphabet, ch) == Some(p as int) && p
                    < self.aut().alphabet.len(),
                Err(e) => pos_of(self.aut().alphabet, ch) is None && e == TableError::<
                    T,
                >::InvalidInput(ch as char),
            },
    {
        let mut i: usize = 0;
        while i < self.alphabet.len()
            invariant
                i <= self.alphabet@.len(),
                forall|j: int| 0 <= j < i ==> self.alphabet@[j] != ch,
            decreases self.alphabet@.len() - i,
        {
            if self.alphabet[i] == ch {
                proof {
                    lemma_pos_of(self.aut().alphabet, ch);
                    assert(pos_of(self.aut().alphabet, ch) == Some(i as int));
                }
                return Ok(i);
            }
            i += 1;
        }
        proof {
            lemma_pos_of(self.aut().alphabet, ch);
        }
        Err(TableError::InvalidInput(ch as char))
    }

    /// Follows the transition of `current` on position `child`, allocating
    /// and linking a fresh node when it is absent.
    pub(crate) fn append_node(&mut self, current: usize, child: usize) -> (r: usize)
        requires
            old(self).wf(),
            current < old(self).aut().nodes.len(),
            child < old(self).aut().alphabet.len(),
        ensures
            final(self).wf(),
            (final(self).aut(), r as int) == extend_one(
                old(self).aut(),
                current as int,
                child as int,
            ),
            final(self).vals() == old(self).vals(),
            final(self).strict_mode() == old(self).strict_mode(),
            r < final(self).aut().nodes.len(),
    {
        proof {
            assert(crate::model::node_wf(old(self).aut(), old(self).aut().nodes[current as int]));
        }
        match self.nodes[current].get_children(child) {
            Some(next) => next,
            None => {
                let new_node = Node::new(self.alphabet.len());
                self.nodes.push(new_node);
                let new_child = self.nodes.len() - 1;
                let ghost mid = *self;
                proof {
                    assert(mid.aut().nodes =~= Automaton {
                        nodes: old(self).aut().nodes.push(blank_node(old(self).aut())),
                        ..old(self).aut()
                    }.nodes) by {
                        assert(mid.aut().nodes[new_child as int].children =~= blank_node(
                            old(self).aut(),
                        ).children);
                        assert(forall|i: int|
                            0 <= i < old(self).nodes@.len() ==> mid.aut().nodes[i]
                                == old(self).aut().nodes[i]);
                    }
                }
                let node_ref = &mut self.nodes[current];
                let ok = node_ref.set_children(child, new_child, self.strict);
                proof {
                    assert(final(self).aut().nodes =~= upd_child(
                        mid.aut(),
                        current as int,
                        child as int,
                        new_child as int,
                    ).nodes) by {
                        assert(final(self).aut().nodes[current as int].children =~= upd_child(
                            mid.aut(),
                            current as int,
                            child as int,
                            new_child as int,
                        ).nodes[current as int].children);
                    }
                    assert(aut_wf(final(self).aut())) by {
                        let a = final(self).aut();
                        assert(forall|n: int|
                            0 <= n < a.nodes.len() ==> crate::model::node_wf(
                                a,
                                #[trigger] a.nodes[n],
                            ));
                    }
                }
                new_child
            },
        }
    }

    /// Extends every node of `currents` over every position of `range`, in
    /// order, reusing present transitions and allocating fresh nodes
    /// otherwise. Returns the next frontier, one node per pair.
    #[verifier::loop_isolation(false)]
    pub(crate) fn add_from_range(&mut self, range: &Vec<usize>, currents: &Vec<usize>) -> (r: Vec<
        usize,
    >)
        requires
            old(self).wf(),
            frontier_ok(old(self).aut(), ints(currents@)),
            range_ok(old(self).aut(), ints(range@)),
        ensures
            final(self).wf(),
            final(self).vals() == old(self).vals(),
            final(self).strict_mode() == old(self).strict_mode(),
            (final(self).aut(), ints(r@)) == extend_frontier(
                old(self).aut(),
                ints(currents@),
                ints(range@),
            ),
            frontier_ok(final(self).aut(), ints(r@)),
            final(self).aut().alphabet == old(self).aut().alphabet,
    {
        let ghost a0 = old(self).aut();
        let ghost cc = ints(currents@);
        let ghost rr = ints(range@);
        let mut out: Vec<usize> = Vec::new();
        let mut i: usize = 0;
        proof {
            assert(cc.skip(0) =~= cc);
            assert(ints(out@) =~= Seq::<int>::empty());
            assert(Seq::<int>::empty() + extend_frontier(a0, cc, rr).1 =~= extend_frontier(
                a0,
                cc,
                rr,
            ).1);
        }
        while i < currents.len()
            invariant
                i <= currents@.len(),
                self.wf(),
                self.vals() == old(self).vals(),
                self.strict_mode() == old(self).strict_mode(),
                self.aut().alphabet == old(self).aut().alphabet,
                frontier_ok(self.aut(), cc),
                range_ok(self.aut(), rr),
                frontier_ok(self.aut(), ints(out@)),
                extend_frontier(self.aut(), cc.skip(i as int), rr).0 == extend_frontier(
                    a0,
                    cc,
                    rr,
                ).0,
                ints(out@) + extend_frontier(self.aut(), cc.skip(i as int), rr).1
                    == extend_frontier(a0, cc, rr).1,
            decreases currents@.len() - i,
        {
            let cur = currents[i];
            let ghost a_i = self.aut();
            let ghost out_i = out@;
            let mut j: usize = 0;
            proof {
                assert(rr.skip(0) =~= rr);
            }
            while j < range.len()
                invariant
                    j <= range@.len(),
                    self.wf(),
                    self.vals() == old(self).vals(),
                    self.strict_mode() == old(self).strict_mode(),
                    self.aut().alphabet == old(self).aut().alphabet,
                    frontier_ok(self.aut(), cc),
                    range_ok(self.aut(), rr),
                    frontier_ok(self.aut(), ints(out@)),
                    extend_range(self.aut(), cur as int, rr.skip(j as int)).0 == extend_range(
                        a_i,
                        cur as int,
                        rr,
                    ).0,
                    ints(out@) + extend_range(self.aut(), cur as int, rr.skip(j as int)).1
                        == ints(out_i) + extend_range(a_i, cur as int, rr).1,
                decreases range@.len() - j,
            {
                let pos = range[j];
                let ghost a_j = self.aut();
                let ghost out_j = out@;
                let c = self.append_node(cur, pos);
                out.push(c);
                proof {
                    lemma_extend_one(a_j, cur as int, pos as int);
                    assert(rr.skip(j as int)[0] == pos as int);
                    assert(rr.skip(j as int).drop_first() =~= rr.skip(j as int + 1));
                    assert(ints(out@) =~= ints(out_j) + seq![c as int]);
                    let cs = extend_range(self.aut(), cur as int, rr.skip(j as int + 1)).1;
                    assert((ints(out_j) + seq![c as int]) + cs =~= ints(out_j) + (seq![
                        c as int,
                    ] + cs));
                }
                j += 1;
            }
            proof {
                assert(rr.skip(range@.len() as int) =~= Seq::<int>::empty());
                assert(ints(out@) + Seq::<int>::empty() =~= ints(out@));
                assert(cc.skip(i as int)[0] == cur as int);
                assert(cc.skip(i as int).drop_first() =~= cc.skip(i as int + 1));
                assert(ints(out_i) + extend_frontier(self.aut(), cc.skip(i as int + 1), rr).1
                    =~= ints(out_i) + extend_frontier(self.aut(), cc.skip(i as int + 1), rr).1);
                let cs0 = extend_range(a_i, cur as int, rr).1;
                let rest = extend_frontier(
                    extend_range(a_i, cur as int, rr).0,
                    cc.skip(i as int).drop_first(),
                    rr,
                ).1;
                assert((ints(out_i) + cs0) + rest =~= ints(out_i) + (cs0 + rest));
            }
            i += 1;
        }
        proof {
            assert(cc.skip(currents@.len() as int) =~= Seq::<int>::empty());
            assert(ints(out@) + Seq::<int>::empty() =~= ints(out@));
        }
        out
    }

    /// Installs self-loops on every node of `currents` for every position
    /// of `range`. Under the strict policy, a slot already linked elsewhere
    /// fails with `AmbiguousPattern` carrying the transition's symbol.
    #[verifier::loop_isolation(false)]
    pub(crate) fn install_loops(&mut self, range: &Vec<usize>, currents: &Vec<usize>) -> (r:
        Result<(), TableError<T>>)
        requires
            old(self).wf(),
            frontier_ok(old(self).aut(), ints(currents@)),
            range_ok(old(self).aut(), ints(range@)),
        ensures
            final(self).wf(),
            final(self).vals() == old(self).vals(),
            final(self).strict_mode() == old(self).strict_mode(),
            match loop_frontier(
                old(self).aut(),
                ints(currents@),
                ints(range@),
                old(self).strict_mode(),
            ) {
                Ok(a1) => r == Ok::<(), TableError<T>>(()) && final(self).aut() == a1,
                Err((ae, p)) => {
                    &&& final(self).aut() == ae
                    &&& r matches Err(e) && e == TableError::<T>::AmbiguousPattern(
                        ae.alphabet[p] as char,
                    )
                },
            },
            final(self).aut().alphabet == old(self).aut().alphabet,
    {
        let ghost a0 = old(self).aut();
        let ghost cc = ints(currents@);
        let ghost rr = ints(range@);
        let ghost st = old(self).strict_mode();
        let strict_flag = self.strict;
        let mut i: usize = 0;
        proof {
            assert(cc.skip(0) =~= cc);
        }
        while i < currents.len()
            invariant
                i <= currents@.len(),
                self.wf(),
                self.vals() == old(self).vals(),
                self.strict_mode() == old(self).strict_mode(),
                self.aut().alphabet == old(self).aut().alphabet,
                frontier_ok(self.aut(), cc),
                range_ok(self.aut(), rr),
                loop_frontier(a0, cc, rr, st) == loop_frontier(
                    self.aut(),
                    cc.skip(i as int),
                    rr,
                    st,
                ),
            decreases currents@.len() - i,
        {
            let cur = currents[i];
            let ghost a_i = self.aut();
            let mut j: usize = 0;
            proof {
                assert(rr.skip(0) =~= rr);
                assert(cc.skip(i as int)[0] == cur as int);
                assert(cc.skip(i as int).drop_first() =~= cc.skip(i as int + 1));
            }
            while j < range.len()
                invariant
                    j <= range@.len(),
                    self.wf(),
                    self.vals() == old(self).vals(),
                    self.strict_mode() == old(self).strict_mode(),
                    self.aut().alphabet == old(self).aut().alphabet,
                    frontier_ok(self.aut(), cc),
                    range_ok(self.aut(), rr),
                    loop_frontier(a0, cc, rr, st) == (match loop_range(
                        self.aut(),
                        cur as int,
                        rr.skip(j as int),
                        st,
                    ) {
                        Ok(a1) => loop_frontier(a1, cc.skip(i as int + 1), rr, st),
                        Err(e) => Err(e),
                    }),
                decreases range@.len() - j,
            {
                let pos = range[j];
                let ghost a_j = self.aut();
                proof {
                    assert(crate::model::node_wf(a_j, a_j.nodes[cur as int]));
                    assert(rr.skip(j as int)[0] == pos as int);
                    assert(rr.skip(j as int).drop_first() =~= rr.skip(j as int + 1));
                }
                let node_ref = &mut self.nodes[cur];
                let ok = node_ref.set_children(pos, cur, strict_flag);
                proof {
                    match a_j.nodes[cur as int].children[pos as int] {
                        None => {
                            assert(self.aut().nodes =~= upd_child(
                                a_j,
                                cur as int,
                                pos as int,
                                cur as int,
                            ).nodes) by {
                                assert(self.aut().nodes[cur as int].children =~= upd_child(
                                    a_j,
                                    cur as int,
                                    pos as int,
                                    cur as int,
                                ).nodes[cur as int].children);
                            }
                            assert(self.aut() == upd_child(a_j, cur as int, pos as int, cur as int));
                            crate::model::lemma_upd_child(a_j, cur as int, pos as int, cur as int);
                        },
                        Some(c) => {
                            assert(self.aut().nodes =~= a_j.nodes) by {
                                assert(self.aut().nodes[cur as int].children =~= a_j.nodes[
                                    cur as int
                                ].children);
                            }
                            assert(self.aut() == a_j);
                        },
                    }
                }
                if !ok {
                    proof {
                        assert(loop_range(a_j, cur as int, rr.skip(j as int), st) == Err::<
                            Automaton,
                            (Automaton, int),
                        >((a_j, pos as int)));
                    }
                    return Err(TableError::AmbiguousPattern(self.alphabet[pos] as char));
                }
                j += 1;
            }
            proof {
                assert(rr.skip(range@.len() as int) =~= Seq::<int>::empty());
            }
            i += 1;
        }
        proof {
            assert(cc.skip(currents@.len() as int) =~= Seq::<int>::empty());
        }
        Ok(())
    }

    /// Parses an ASCII pattern into atoms, or reports the first error:
    /// `InvalidInput` for a byte outside the alphabet, `InvalidRange` for an
    /// empty or unterminated class.
    #[verifier::loop_isolation(false)]
    pub(crate) fn parse_pattern(&self, s: &str) -> (r: Result<Vec<Atom>, TableError<T>>)
        requires
            s.is_ascii(),
        ensures
            match parse_pat(self.aut().alphabet, bytes_of(s@)) {
                ParseOutcome::Parsed(atoms) => r matches Ok(v) && atoms_view(v@) == atoms,
                ParseOutcome::BadByte(b) => r matches Err(e) && e == TableError::<T>::InvalidInput(
                    b as char,
                ),
                ParseOutcome::BadRange => r matches Err(e) && e == TableError::<T>::InvalidRange,
            },
    {
        let ghost alpha = self.aut().alphabet;
        let ghost bb = bytes_of(s@);
        let n = s.unicode_len();
        let mut out: Vec<Atom> = Vec::new();
        let mut i: usize = 0;
        proof {
            assert(bb.skip(0) =~= bb);
            assert(atoms_view(out@) =~= Seq::<SpecAtom>::empty());
        }
        while i < n
            invariant
                i <= n,
                n == s@.len(),
                parse_pat(alpha, bb) == (match parse_pat(alpha, bb.skip(i as int)) {
                    ParseOutcome::Parsed(rest) => ParseOutcome::Parsed(atoms_view(out@) + rest),
                    e => e,
                }),
            decreases n - i,
        {
            let b = s.get_ascii(i);
            proof {
                assert(b == bb[i as int]);
                assert(bb.skip(i as int)[0] == b);
            }
            let mut range: Vec<usize> = Vec::new();
            let mid: usize;
            if b == OPEN_BRACKET {
                let mut i2 = i + 1;
                proof {
                    assert(bb.skip(i as int).drop_first() =~= bb.skip(i as int + 1));
                    assert(ints(range@) =~= Seq::<int>::empty());
                }
                while i2 < n && s.get_ascii(i2) != CLOSE_BRACKET
                    invariant
                        i + 1 <= i2 <= n,
                        n == s@.len(),
                        parse_class(alpha, bb.skip(i as int + 1), Seq::empty()) == parse_class(
                            alpha,
                            bb.skip(i2 as int),
                            ints(range@),
                        ),
                    decreases n - i2,
                {
                    let c = s.get_ascii(i2);
                    proof {
                        assert(c == bb[i2 as int]);
                        assert(bb.skip(i2 as int)[0] == c);
                        assert(bb.skip(i2 as int).drop_first() =~= bb.skip(i2 as int + 1));
                    }
                    match self.calculate_position(c) {
                        Err(e) => {
                            return Err(e);
                        },
                        Ok(pos) => {
                            let ghost range_old = range@;
                            if !vec_contains(&range, pos) {
                                range.push(pos);
                            }
                            proof {
                                lemma_pos_of(alpha, c);
                                assert(pos_of(alpha, c) == Some(pos as int));
                                lemma_ints_contains(range_old, pos);
                                if !range_old.contains(pos) {
                                    assert(ints(range@) =~= ints(range_old) + seq![pos as int]);
                                    assert(ints(range_old).push(pos as int) =~= ints(range_old)
                                        + seq![pos as int]);
                                }
                            }
                            i2 += 1;
                        },
                    }
                }
                if i2 >= n {
                    proof {
                        assert(bb.skip(i2 as int) =~= Seq::<u8>::empty());
                    }
                    return Err(TableError::InvalidRange);
                }
                proof {
                    assert(bb.skip(i2 as int)[0] == CLOSE_BRACKET);
                    assert(bb.skip(i2 as int).drop_first() =~= bb.skip(i2 as int + 1));
                }
                if range.len() == 0 {
                    return Err(TableError::InvalidRange);
                }
                mid = i2 + 1;
            } else {
                match self.calculate_position(b) {
                    Err(e) => {
                        return Err(e);
                    },
                    Ok(pos) => {
                        range.push(pos);
                        proof {
                            assert(ints(range@) =~= seq![pos as int]);
                            assert(bb.skip(i as int).drop_first() =~= bb.skip(i as int + 1));
                        }
                        mid = i + 1;
                    },
                }
            }
            // the optional `+` after a completed atom
            let plus: bool;
            let next_i: usize;
            if mid < n && s.get_ascii(mid) == PLUS_BYTE {
                plus = true;
                next_i = mid + 1;
            } else {
                plus = false;
                next_i = mid;
            }
            proof {
                if plus {
                    assert(bb.skip(mid as int)[0] == PLUS_BYTE);
                    assert(bb.skip(mid as int).drop_first() =~= bb.skip(mid as int + 1));
                } else {
                    if mid < n {
                        assert(bb.skip(mid as int)[0] == bb[mid as int]);
                    }
                }
            }
            let ghost out_prev = out@;
            let ghost rv = ints(range@);
            out.push(Atom { range, plus });
            proof {
                assert(parse_pat(alpha, bb.skip(i as int)) == parse_tail(
                    alpha,
                    rv,
                    bb.skip(mid as int),
                ));
                assert(parse_tail(alpha, rv, bb.skip(mid as int)) == (match parse_pat(
                    alpha,
                    bb.skip(next_i as int),
                ) {
                    ParseOutcome::Parsed(rest2) => ParseOutcome::Parsed(
                        seq![SpecAtom { range: rv, plus }] + rest2,
                    ),
                    e => e,
                }));
                assert(atoms_view(out@) =~= atoms_view(out_prev) + seq![
                    SpecAtom { range: rv, plus },
                ]);
                match parse_pat(alpha, bb.skip(next_i as int)) {
                    ParseOutcome::Parsed(rest) => {
                        assert((atoms_view(out_prev) + seq![SpecAtom { range: rv, plus }]) + rest
                            =~= atoms_view(out_prev) + (seq![SpecAtom { range: rv, plus }] + rest));
                    },
                    _ => {},
                }
            }
            i = next_i;
        }
        proof {
            assert(bb.skip(n as int) =~= Seq::<u8>::empty());
            assert(atoms_view(out@) + Seq::<SpecAtom>::empty() =~= atoms_view(out@));
        }
        Ok(out)
    }
}


/// Whether `x` occurs in `v`.
fn vec_contains(v: &Vec<usize>, x: usize) -> (r: bool)
    ensures
        r == v@.contains(x),
{
    let mut k: usize = 0;
    while k < v.len()
        invariant
            k <= v@.len(),
            forall|j: int| 0 <= j < k ==> v@[j] != x,
        decreases v@.len() - k,
    {
        if v[k] == x {
            return true;
        }
        k += 1;
    }
    false
}


/// A compiled pattern atom: alphabet positions and the repetition flag.
pub(crate) struct Atom {
    pub(crate) range: Vec<usize>,
    pub(crate) plus: bool,
}

impl View for Atom {
    type V = SpecAtom;

    closed spec fn view(&self) -> SpecAtom {
        SpecAtom { range: ints(self.range@), plus: self.plus }
    }
}

/// The model atoms of a parsed pattern.
pub open spec fn atoms_view(s: Seq<Atom>) -> Seq<SpecAtom> {
    Seq::new(s.len(), |i: int| s[i]@)
}

/// Membership is preserved when lifting indexes to integers.
proof fn lemma_ints_contains(v: Seq<usize>, x: usize)
    ensures
        ints(v).contains(x as int) == v.contains(x),
{
    if v.contains(x) {
        let k = choose|k: int| 0 <= k < v.len() && #[trigger] v[k] == x;
        assert(ints(v)[k] == x as int);
    }
    if ints(v).contains(x as int) {
        let k = choose|k: int| 0 <= k < ints(v).len() && #[trigger] ints(v)[k] == x as int;
        assert(v[k] == x);
    }
}


/// The distinct elements of `v`, first occurrences first.
#[verifier::loop_isolation(false)]
fn dedup_nodes(v: &Vec<usize>) -> (r: Vec<usize>)
    ensures
        ints(r@) == dedup(ints(v@)),
{
    let ghost vv = ints(v@);
    let mut out: Vec<usize> = Vec::new();
    let mut i: usize = 0;
    proof {
        assert(ints(out@) =~= Seq::<int>::empty());
        assert(Seq::<int>::empty() + dedup_from(vv, 0) =~= dedup_from(vv, 0));
    }
    while i < v.len()
        invariant
            i <= v@.len(),
            dedup(vv) == ints(out@) + dedup_from(vv, i as int),
        decreases v@.len() - i,
    {
        let x = v[i];
        let mut dup = false;
        let mut j: usize = 0;
        while j < i
            invariant
                j <= i,
                i < v@.len(),
                dup == (exists|k: int| 0 <= k < j && vv[k] == x as int),
            decreases i - j,
        {
            if v[j] == x {
                dup = true;
                proof {
                    assert(vv[j as int] == x as int);
                }
            } else {
                proof {
                    assert(vv[j as int] != x as int);
                }
            }
            j += 1;
        }
        proof {
            assert(dup == vv.subrange(0, i as int).contains(x as int)) by {
                if dup {
                    let k = choose|k: int| 0 <= k < i && vv[k] == x as int;
                    assert(vv.subrange(0, i as int)[k] == x as int);
                }
                if vv.subrange(0, i as int).contains(x as int) {
                    let k = choose|k: int|
                        0 <= k < i && #[trigger] vv.subrange(0, i as int)[k] == x as int;
                    assert(vv[k] == x as int);
                }
            }
        }
        let ghost out_prev = out@;
        if !dup {
            out.push(x);
        }
        proof {
            if !dup {
                assert(ints(out@) =~= ints(out_prev) + seq![x as int]);
                assert((ints(out_prev) + seq![x as int]) + dedup_from(vv, i as int + 1) =~= ints(
                    out_prev,
                ) + (seq![x as int] + dedup_from(vv, i as int + 1)));
            }
        }
        i += 1;
    }
    proof {
        assert(ints(out@) + dedup_from(vv, v@.len() as int) =~= ints(out@));
    }
    out
}


impl<T: Clone> Table<T> {
    /// Installs `value` on every node of `currents`, as the next value
    /// index. If any of those nodes already accepts, nothing is installed
    /// and `ValueAlreadyDefined` reports the present and the requested
    /// payloads.
    #[verifier::loop_isolation(false)]
    pub(crate) fn install_value(&mut self, currents: &Vec<usize>, value: T) -> (r: Result<
        (),
        TableError<T>,
    >)
        requires
            old(self).wf(),
            frontier_ok(old(self).aut(), ints(currents@)),
        ensures
            final(self).wf(),
            final(self).strict_mode() == old(self).strict_mode(),
            match first_taken(old(self).aut(), ints(currents@)) {
                None => {
                    &&& r == Ok::<(), TableError<T>>(())
                    &&& final(self).aut() == (Automaton {
                        nvals: old(self).aut().nvals + 1,
                        ..set_values(old(self).aut(), ints(currents@), old(self).aut().nvals)
                    })
                    &&& final(self).vals() == old(self).vals().push(value)
                },
                Some(nid) => {
                    &&& final(self).aut() == old(self).aut()
                    &&& final(self).vals() == old(self).vals()
                    &&& match r {
                        Err(TableError::ValueAlreadyDefined { current, requested }) => {
                            &&& requested == value
                            &&& old(self).aut().nodes[nid].value matches Some(vi) && cloned(
                                old(self).vals()[vi],
                                current,
                            )
                        },
                        _ => false,
                    }
                },
            },
    {
        let ghost a0 = old(self).aut();
        let ghost cc = ints(currents@);
        // first pass: find a node that already accepts
        let mut k: usize = 0;
        proof {
            assert(cc.skip(0) =~= cc);
        }
        while k < currents.len()
            invariant
                k <= currents@.len(),
                *self == *old(self),
                first_taken(a0, cc) == first_taken(a0, cc.skip(k as int)),
            decreases currents@.len() - k,
        {
            let cur = currents[k];
            proof {
                assert(cc.skip(k as int)[0] == cur as int);
                assert(cc.skip(k as int).drop_first() =~= cc.skip(k as int + 1));
            }
            if self.nodes[cur].has_value() {
                proof {
                    assert(first_taken(a0, cc) == Some(cur as int));
                    assert(crate::model::node_wf(a0, a0.nodes[cur as int]));
                }
                let vi = match self.nodes[cur].get_value() {
                    Some(vi) => vi,
                    None => unreached(),
                };
                let current = self.values[vi].clone();
                return Err(TableError::ValueAlreadyDefined { current, requested: value });
            }
            k += 1;
        }
        proof {
            assert(cc.skip(currents@.len() as int) =~= Seq::<int>::empty());
            crate::model::lemma_first_taken_none(a0, cc);
        }
        // second pass: install the new value index everywhere
        let vi: usize = self.values.len();
        let mut k2: usize = 0;
        while k2 < currents.len()
            invariant
                k2 <= currents@.len(),
                self.vals() == old(self).vals(),
                self.strict_mode() == old(self).strict_mode(),
                self.aut().alphabet == a0.alphabet,
                self.aut().nvals == a0.nvals,
                self.aut().nodes.len() == a0.nodes.len(),
                vi as int == a0.nvals,
                forall|n: int|
                    0 <= n < a0.nodes.len() ==> (#[trigger] self.aut().nodes[n]).children
                        == a0.nodes[n].children,
                forall|n: int|
                    0 <= n < a0.nodes.len() ==> (#[trigger] self.aut().nodes[n]).value
                        == a0.nodes[n].value || self.aut().nodes[n].value == Some(vi as int),
                set_values(a0, cc, vi as int) == set_values(
                    self.aut(),
                    cc.skip(k2 as int),
                    vi as int,
                ),
            decreases currents@.len() - k2,
        {
            let cur = currents[k2];
            let ghost a_k = self.aut();
            proof {
                assert(cc.skip(k2 as int)[0] == cur as int);
                assert(cc.skip(k2 as int).drop_first() =~= cc.skip(k2 as int + 1));
            }
            let node_ref = &mut self.nodes[cur];
            let ok = node_ref.set_value(vi);
            proof {
                assert(self.aut().nodes =~= upd_value(a_k, cur as int, vi as int).nodes) by {
                    if a_k.nodes[cur as int].value is Some {
                        assert(a_k.nodes[cur as int].value == Some(vi as int));
                        assert(self.aut().nodes[cur as int] == upd_value(
                            a_k,
                            cur as int,
                            vi as int,
                        ).nodes[cur as int]);
                    }
                }
                assert(self.aut() == upd_value(a_k, cur as int, vi as int));
            }
            k2 += 1;
        }
        proof {
            assert(cc.skip(currents@.len() as int) =~= Seq::<int>::empty());
        }
        let ghost a_set = self.aut();
        self.values.push(value);
        proof {
            assert(self.aut().nodes =~= a_set.nodes);
            assert(self.aut() == (Automaton { nvals: a_set.nvals + 1, ..a_set }));
            crate::model::lemma_set_values(a0, cc, vi as int);
            assert(aut_wf(self.aut())) by {
                let af = self.aut();
                assert forall|n: int|
                    0 <= n < af.nodes.len() implies crate::model::node_wf(
                    af,
                    #[trigger] af.nodes[n],
                ) by {
                    assert(crate::model::node_wf(a0, a0.nodes[n]));
                }
            }
        }
        Ok(())
    }

    /// Compiles `s` as a pattern and installs `value` as its accept
    /// payload. Returns `InvalidString` for non-ASCII patterns,
    /// `InvalidInput` for a pattern byte outside the alphabet,
    /// `InvalidRange` for an empty or unterminated class,
    /// `AmbiguousPattern` under the strict policy when a link would
    /// diverge, and `ValueAlreadyDefined` when a terminal node already
    /// accepts. A failed call may leave nodes and links that compiled
    /// before the failure; it never installs the value.
    #[verifier::loop_isolation(false)]
    pub fn add(&mut self, s: &str, value: T) -> (r: Result<(), TableError<T>>)
        requires
            old(self).wf(),
        ensures
            final(self).wf(),
            final(self).strict_mode() == old(self).strict_mode(),
            !s.is_ascii() ==> {
                &&& final(self).aut() == old(self).aut()
                &&& final(self).vals() == old(self).vals()
                &&& match r {
                    Err(TableError::InvalidString(m)) => m@ == s@,
                    _ => false,
                }
            },
            s.is_ascii() ==> match add_spec(
                old(self).aut(),
                bytes_of(s@),
                old(self).strict_mode(),
            ) {
                AddOutcome::Added { aut, installed } => {
                    &&& r == Ok::<(), TableError<T>>(())
                    &&& final(self).aut() == aut
                    &&& final(self).vals() == old(self).vals().push(value)
                },
                AddOutcome::BadByte(b) => {
                    &&& final(self).aut() == old(self).aut()
                    &&& final(self).vals() == old(self).vals()
                    &&& r matches Err(e) && e == TableError::<T>::InvalidInput(b as char)
                },
                AddOutcome::BadRange => {
                    &&& final(self).aut() == old(self).aut()
                    &&& final(self).vals() == old(self).vals()
                    &&& r matches Err(e) && e == TableError::<T>::InvalidRange
                },
                AddOutcome::Conflict { aut, pos } => {
                    &&& final(self).aut() == aut
                    &&& final(self).vals() == old(self).vals()
                    &&& r matches Err(e) && e == TableError::<T>::AmbiguousPattern(
                        aut.alphabet[pos] as char,
                    )
                },
                AddOutcome::Taken { aut, node } => {
                    &&& final(self).aut() == aut
                    &&& final(self).vals() == old(self).vals()
                    &&& match r {
                        Err(TableError::ValueAlreadyDefined { current, requested }) => {
                            &&& requested == value
                            &&& aut.nodes[node].value matches Some(vi) && cloned(
                                old(self).vals()[vi],
                                current,
                            )
                        },
                        _ => false,
                    }
                },
            },
    {
        if !s.is_ascii() {
            return Err(TableError::InvalidString(s.to_owned()));
        }
        let ghost a0 = old(self).aut();
        let ghost bb = bytes_of(s@);
        let ghost st = old(self).strict_mode();
        let atoms = match self.parse_pattern(s) {
            Ok(a) => a,
            Err(e) => {
                return Err(e);
            },
        };
        let ghost satoms = (match parse_pat(a0.alphabet, bb) {
            ParseOutcome::Parsed(x) => x,
            _ => Seq::empty(),
        });
        proof {
            crate::model::lemma_parse_pat_ranges(a0.alphabet, bb);
            assert(satoms.skip(0) =~= satoms);
        }
        let mut currents: Vec<usize> = vec![0];
        proof {
            assert(ints(currents@) =~= seq![0int]);
        }
        let mut k: usize = 0;
        while k < atoms.len()
            invariant
                k <= atoms@.len(),
                self.wf(),
                self.vals() == old(self).vals(),
                self.strict_mode() == old(self).strict_mode(),
                self.aut().alphabet == a0.alphabet,
                atoms_view(atoms@) == satoms,
                frontier_ok(self.aut(), ints(currents@)),
                compile_atoms(a0, seq![0int], satoms, st) == compile_atoms(
                    self.aut(),
                    ints(currents@),
                    satoms.skip(k as int),
                    st,
                ),
            decreases atoms@.len() - k,
        {
            proof {
                assert(satoms.skip(k as int)[0] == satoms[k as int]);
                assert(satoms[k as int] == atoms@[k as int]@);
                assert(satoms.skip(k as int).drop_first() =~= satoms.skip(k as int + 1));
                assert(range_ok(self.aut(), satoms[k as int].range));
            }
            let plus = atoms[k].plus;
            let next = self.add_from_range(&atoms[k].range, &currents);
            let ghost a_ext = self.aut();
            if plus {
                match self.install_loops(&atoms[k].range, &next) {
                    Ok(()) => {
                        proof {
                            crate::model::lemma_loop_frontier(
                                a_ext,
                                ints(next@),
                                satoms[k as int].range,
                                st,
                            );
                        }
                    },
                    Err(e) => {
                        return Err(e);
                    },
                }
            }
            currents = next;
            k += 1;
        }
        proof {
            assert(satoms.skip(atoms@.len() as int) =~= Seq::<SpecAtom>::empty());
        }
        let uniq = dedup_nodes(&currents);
        proof {
            crate::model::lemma_dedup_from(ints(currents@), 0);
            assert forall|j: int|
                0 <= j < ints(uniq@).len() implies 0 <= #[trigger] ints(uniq@)[j]
                < self.aut().nodes.len() by {
                assert(ints(uniq@).contains(ints(uniq@)[j]));
                assert(ints(currents@).subrange(0, ints(currents@).len() as int) =~= ints(
                    currents@,
                ));
            }
        }
        self.install_value(&uniq, value)
    }
}


impl<T> Table<T> {
    /// Looks up an exact key: `Some` of the accept value when the whole key
    /// walks to an accepting node, `None` when it walks to a plain node or
    /// dead-ends, `InvalidString` for non-ASCII keys, and `InvalidInput`
    /// when a key byte read during the walk is not in the alphabet.
    #[verifier::loop_isolation(false)]
    pub fn get(&self, s: &str) -> (r: Result<Option<&T>, TableError<T>>)
        requires
            self.wf(),
        ensures
            !s.is_ascii() ==> match r {
                Err(TableError::InvalidString(m)) => m@ == s@,
                _ => false,
            },
            s.is_ascii() ==> match walk(self.aut(), 0, bytes_of(s@)) {
                WalkOutcome::Accept { node } => match self.aut().nodes[node].value {
                    Some(vi) => match r {
                        Ok(Some(v)) => *v == self.vals()[vi],
                        _ => false,
                    },
                    None => r == Ok::<Option<&T>, TableError<T>>(None),
                },
                WalkOutcome::Reject => r == Ok::<Option<&T>, TableError<T>>(None),
                WalkOutcome::BadByte(b) => match r {
                    Err(e) => e == TableError::<T>::InvalidInput(b as char),
                    _ => false,
                },
            },
    {
        if !s.is_ascii() {
            return Err(TableError::InvalidString(s.to_owned()));
        }
        let ghost bb = bytes_of(s@);
        let n = s.unicode_len();
        let mut current: usize = 0;
        let mut i: usize = 0;
        proof {
            assert(bb.skip(0) =~= bb);
        }
        while i < n
            invariant
                i <= n,
                n == s@.len(),
                current < self.aut().nodes.len(),
                walk(self.aut(), 0, bb) == walk(self.aut(), current as int, bb.skip(i as int)),
            decreases n - i,
        {
            let b = s.get_ascii(i);
            proof {
                assert(bb.skip(i as int)[0] == b);
                assert(bb.skip(i as int).drop_first() =~= bb.skip(i as int + 1));
            }
            let pos = match self.calculate_position(b) {
                Ok(p) => p,
                Err(e) => {
                    return Err(e);
                },
            };
            proof {
                assert(crate::model::node_wf(self.aut(), self.aut().nodes[current as int]));
            }
            match self.nodes[current].get_children(pos) {
                Some(next) => {
                    proof {
                        assert(crate::model::child_ok(
                            self.aut().nodes.len() as int,
                            self.aut().nodes[current as int].children[pos as int],
                        ));
                    }
                    current = next;
                },
                None => {
                    return Ok(None);
                },
            }
            i += 1;
        }
        proof {
            assert(bb.skip(n as int) =~= Seq::<u8>::empty());
            assert(crate::model::node_wf(self.aut(), self.aut().nodes[current as int]));
        }
        match self.nodes[current].get_value() {
            Some(vi) => Ok(Some(&self.values[vi])),
            None => Ok(None),
        }
    }

    /// Reads the accept value index of node `n`.
    pub(crate) fn node_value(&self, n: usize) -> (r: Option<usize>)
        requires
            self.wf(),
            n < self.aut().nodes.len(),
        ensures
            opt_int(r) == self.aut().nodes[n as int].value,
            r matches Some(vi) ==> vi < self.vals().len(),
    {
        proof {
            assert(crate::model::node_wf(self.aut(), self.aut().nodes[n as int]));
        }
        self.nodes[n].get_value()
    }

    /// Reads the accept value stored at index `vi`.
    pub(crate) fn value_at(&self, vi: usize) -> (r: &T)
        requires
            vi < self.vals().len(),
        ensures
            *r == self.vals()[vi as int],
    {
        &self.values[vi]
    }
}

} // verus!
