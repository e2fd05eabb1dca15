//! Laws of the table and the scanner, proved over the model in
//! [`crate::model`].
//!
//! Together with the contracts of [`crate::table::Table::add`],
//! [`crate::table::Table::get`] and
//! [`crate::scanner::TableIterator::next`], which pin the executable code
//! to `add_spec`, `walk` and `scan_token`, these lemmas state the
//! behavioural guarantees of the library: monotone growth of the automaton
//! under `add`, preservation of accepted keys, self-loop existence for
//! repeated atoms, language soundness of compilation, maximal-munch
//! scanning, and total consumption on an error-free scan.

use crate::model::{
    add_spec, aut_extends, aut_wf, blank_node, compile_atoms, dedup, dedup_from, extend_frontier,
    extend_one, extend_range, first_taken, frontier_ok, in_lang, lemma_compile_atoms,
    lemma_dedup_from, lemma_extend_frontier, lemma_extend_one, lemma_extends_trans,
    lemma_first_taken_none, lemma_loop_frontier, lemma_parse_pat_ranges, lemma_scan_from_bounds,
    lemma_set_values, loop_frontier, loop_range, parse_pat, pos_of, range_ok, scan_from, scan_seq,
    scan_token, set_values, tokens_concat, upd_child, walk, AddOutcome, Automaton, CompileOutcome,
    ParseOutcome, ScanOutcome, SpecAtom, WalkOutcome,
};
use vstd::prelude::*;

verus! {

/// The atoms of a pattern that parses, and the empty sequence otherwise.
pub open spec fn pattern_atoms(alpha: Seq<u8>, pat: Seq<u8>) -> Seq<SpecAtom> {
    match parse_pat(alpha, pat) {
        ParseOutcome::Parsed(atoms) => atoms,
        _ => Seq::empty(),
    }
}

/// Walking a concatenation walks the first part, then the second.
pub proof fn lemma_walk_append(a: Automaton, n: int, x: Seq<u8>, y: Seq<u8>)
    ensures
        walk(a, n, x + y) == (match walk(a, n, x) {
            WalkOutcome::Accept { node } => walk(a, node, y),
            e => e,
        }),
    decreases x.len(),
{
    if x.len() == 0 {
        assert(x + y =~= y);
    } else {
        assert((x + y)[0] == x[0]);
        match pos_of(a.alphabet, x[0]) {
            None => {},
            Some(p) => {
                match a.nodes[n].children[p] {
                    None => {},
                    Some(c) => {
                        assert((x + y).drop_first() =~= x.drop_first() + y);
                        lemma_walk_append(a, c, x.drop_first(), y);
                    },
                }
            },
        }
    }
}

/// A walk that accepts is preserved by any monotone extension of the
/// automaton, and so is the accept value of the node it ends at.
pub proof fn lemma_walk_monotone(a2: Automaton, a1: Automaton, n: int, s: Seq<u8>)
    requires
        aut_wf(a1),
        aut_extends(a2, a1),
        0 <= n < a1.nodes.len(),
    ensures
        (walk(a1, n, s) matches WalkOutcome::Accept { node } ==> walk(a2, n, s)
            == WalkOutcome::Accept { node } && 0 <= node < a1.nodes.len()),
    decreases s.len(),
{
    if s.len() > 0 {
        assert(crate::model::node_wf(a1, a1.nodes[n]));
        crate::model::lemma_pos_of(a1.alphabet, s[0]);
        match pos_of(a1.alphabet, s[0]) {
            None => {},
            Some(p) => {
                match a1.nodes[n].children[p] {
                    None => {},
                    Some(c) => {
                        assert(crate::model::child_ok(
                            a1.nodes.len() as int,
                            a1.nodes[n].children[p],
                        ));
                        assert(a2.nodes[n].children[p] == Some(c));
                        lemma_walk_monotone(a2, a1, c, s.drop_first());
                    },
                }
            },
        }
    }
}

/// Walks depend only on the alphabet and the links, not on accept values.
pub proof fn lemma_walk_same_children(a2: Automaton, a1: Automaton, n: int, s: Seq<u8>)
    requires
        a2.alphabet == a1.alphabet,
        a2.nodes.len() == a1.nodes.len(),
        forall|m: int|
            0 <= m < a1.nodes.len() ==> (#[trigger] a2.nodes[m]).children == a1.nodes[m].children,
        0 <= n < a1.nodes.len(),
        aut_wf(a1),
    ensures
        walk(a2, n, s) == walk(a1, n, s),
    decreases s.len(),
{
    if s.len() > 0 {
        assert(crate::model::node_wf(a1, a1.nodes[n]));
        crate::model::lemma_pos_of(a1.alphabet, s[0]);
        match pos_of(a1.alphabet, s[0]) {
            None => {},
            Some(p) => {
                match a1.nodes[n].children[p] {
                    None => {},
                    Some(c) => {
                        assert(crate::model::child_ok(
                            a1.nodes.len() as int,
                            a1.nodes[n].children[p],
                        ));
                        lemma_walk_same_children(a2, a1, c, s.drop_first());
                    },
                }
            },
        }
    }
}

/// Node-id stability: a successful `add` only grows the automaton. Every
/// existing node keeps its index, every present link keeps its target, and
/// every installed accept value stays; the same holds for the partial
/// state a failed `add` leaves behind.
pub proof fn lemma_add_monotone(a: Automaton, pat: Seq<u8>, strict: bool)
    requires
        aut_wf(a),
    ensures
        match add_spec(a, pat, strict) {
            AddOutcome::Added { aut, installed } => aut_extends(aut, a) && aut_wf(aut),
            AddOutcome::Taken { aut, node } => aut_extends(aut, a) && aut_wf(aut),
            AddOutcome::Conflict { aut, pos } => aut_extends(aut, a) && aut_wf(aut),
            _ => true,
        },
{
    lemma_parse_pat_ranges(a.alphabet, pat);
    match parse_pat(a.alphabet, pat) {
        ParseOutcome::Parsed(atoms) => {
            lemma_compile_atoms(a, seq![0int], atoms, strict);
            match compile_atoms(a, seq![0int], atoms, strict) {
                CompileOutcome::Done { aut, frontier } => {
                    let f = dedup(frontier);
                    lemma_dedup_from(frontier, 0);
                    assert(frontier.subrange(0, frontier.len() as int) =~= frontier);
                    assert(frontier_ok(aut, f)) by {
                        assert forall|k: int| 0 <= k < f.len() implies 0 <= #[trigger] f[k]
                            < aut.nodes.len() by {
                            assert(f.contains(f[k]));
                        }
                    }
                    match first_taken(aut, f) {
                        Some(_) => {},
                        None => {
                            lemma_first_taken_none(aut, f);
                            lemma_set_values(aut, f, aut.nvals);
                            let asv = set_values(aut, f, aut.nvals);
                            let af = Automaton { nvals: aut.nvals + 1, ..asv };
                            assert(aut_extends(af, aut));
                            lemma_extends_trans(af, aut, a);
                            assert(aut_wf(af)) by {
                                assert forall|m: int|
                                    0 <= m < af.nodes.len() implies crate::model::node_wf(
                                    af,
                                    #[trigger] af.nodes[m],
                                ) by {
                                    assert(crate::model::node_wf(aut, aut.nodes[m]));
                                }
                            }
                        },
                    }
                },
                CompileOutcome::Conflict { aut, pos } => {},
            }
        },
        _ => {},
    }
}

/// A key accepted before an `add` is accepted afterwards, with the same
/// node and the same value — ids never change meaning.
pub proof fn lemma_add_preserves_keys(a: Automaton, pat: Seq<u8>, strict: bool, s: Seq<u8>)
    requires
        aut_wf(a),
    ensures
        match add_spec(a, pat, strict) {
            AddOutcome::Added { aut, installed } => walk(a, 0, s)
                matches WalkOutcome::Accept { node } ==> walk(aut, 0, s) == WalkOutcome::Accept {
                node,
            } && (a.nodes[node].value matches Some(vi) ==> aut.nodes[node].value == Some(vi)),
            _ => true,
        },
{
    lemma_add_monotone(a, pat, strict);
    match add_spec(a, pat, strict) {
        AddOutcome::Added { aut, installed } => {
            lemma_walk_monotone(aut, a, 0, s);
        },
        _ => {},
    }
}

/// Language soundness of compilation, main induction: under the strict
/// policy, a string of the remaining pattern's language walks from any
/// frontier node to some node of the final frontier.
pub proof fn lemma_compile_lang(
    a: Automaton,
    f: Seq<int>,
    atoms: Seq<SpecAtom>,
    s: Seq<u8>,
    k: int,
)
    requires
        aut_wf(a),
        frontier_ok(a, f),
        forall|i: int| 0 <= i < atoms.len() ==> range_ok(a, (#[trigger] atoms[i]).range),
        compile_atoms(a, f, atoms, true) matches CompileOutcome::Done { .. },
        in_lang(a.alphabet, atoms, s),
        0 <= k < f.len(),
    ensures
        match compile_atoms(a, f, atoms, true) {
            CompileOutcome::Done { aut, frontier } => exists|m: int|
                0 <= m < frontier.len() && walk(aut, f[k], s) == (WalkOutcome::Accept {
                    node: frontier[m],
                }),
            _ => false,
        },
    decreases atoms.len(), s.len(),
{
    if atoms.len() == 0 {
        assert(walk(a, f[k], s) == (WalkOutcome::Accept { node: f[k] }));
        match compile_atoms(a, f, atoms, true) {
            CompileOutcome::Done { aut, frontier } => {
                assert(0 <= k < frontier.len() && walk(aut, f[k], s) == (WalkOutcome::Accept {
                    node: frontier[k],
                }));
            },
            _ => {},
        }
    } else {
        let r = atoms[0].range;
        let (a1, f1) = extend_frontier(a, f, r);
        lemma_extend_frontier(a, f, r);
        crate::model::lemma_pos_of(a.alphabet, s[0]);
        let q = choose|q: int| pos_of(a.alphabet, s[0]) == Some(q);
        assert(r.contains(q));
        let j = choose|j: int| 0 <= j < r.len() && #[trigger] r[j] == q;
        assert((a1.nodes[f[k]].children[r[j]]) matches Some(c) && f1.contains(c));
        let c = choose|c: int| a1.nodes[f[k]].children[q] == Some(c) && f1.contains(c);
        let m1 = choose|m: int| 0 <= m < f1.len() && #[trigger] f1[m] == c;
        assert(forall|i: int|
            0 <= i < atoms.drop_first().len() ==> range_ok(
                a1,
                (#[trigger] atoms.drop_first()[i]).range,
            ));
        if !atoms[0].plus {
            lemma_compile_atoms(a1, f1, atoms.drop_first(), true);
            match compile_atoms(a1, f1, atoms.drop_first(), true) {
                CompileOutcome::Done { aut, frontier } => {
                    lemma_compile_lang(a1, f1, atoms.drop_first(), s.drop_first(), m1);
                    let m = choose|m: int|
                        0 <= m < frontier.len() && walk(aut, c, s.drop_first())
                            == (WalkOutcome::Accept { node: frontier[m] });
                    assert(aut.nodes[f[k]].children[q] == Some(c));
                    assert(walk(aut, f[k], s) == walk(aut, c, s.drop_first()));
                    assert(0 <= m < frontier.len() && walk(aut, f[k], s) == (WalkOutcome::Accept {
                        node: frontier[m],
                    }));
                },
                _ => {},
            }
        } else {
            lemma_loop_frontier(a1, f1, r, true);
            match loop_frontier(a1, f1, r, true) {
                Ok(a2) => {
                    lemma_compile_atoms(a2, f1, atoms.drop_first(), true);
                    match compile_atoms(a2, f1, atoms.drop_first(), true) {
                        CompileOutcome::Done { aut, frontier } => {
                            assert(a2.nodes[f[k]].children[q] == Some(c));
                            assert(aut.nodes[f[k]].children[q] == Some(c));
                            assert(walk(aut, f[k], s) == walk(aut, c, s.drop_first()));
                            if in_lang(a.alphabet, atoms.drop_first(), s.drop_first()) {
                                lemma_compile_lang(
                                    a2,
                                    f1,
                                    atoms.drop_first(),
                                    s.drop_first(),
                                    m1,
                                );
                            } else {
                                lemma_compile_lang_plus(a2, f1, atoms, s.drop_first(), m1);
                            }
                            let m = choose|m: int|
                                0 <= m < frontier.len() && walk(aut, c, s.drop_first())
                                    == (WalkOutcome::Accept { node: frontier[m] });
                            assert(0 <= m < frontier.len() && walk(aut, f[k], s)
                                == (WalkOutcome::Accept { node: frontier[m] }));
                        },
                        _ => {},
                    }
                },
                Err(_) => {},
            }
        }
    }
}

/// Language soundness of compilation, repetition helper: once inside the
/// frontier of a plus atom whose self-loops are installed, any further
/// string of the (still repeating) language walks to the final frontier.
pub proof fn lemma_compile_lang_plus(
    a2: Automaton,
    f1: Seq<int>,
    atoms: Seq<SpecAtom>,
    s: Seq<u8>,
    m: int,
)
    requires
        aut_wf(a2),
        frontier_ok(a2, f1),
        forall|i: int| 0 <= i < atoms.len() ==> range_ok(a2, (#[trigger] atoms[i]).range),
        atoms.len() > 0,
        atoms[0].plus,
        forall|mi: int, j: int|
            0 <= mi < f1.len() && 0 <= j < atoms[0].range.len() ==> a2.nodes[#[trigger] f1[mi]].children[
                #[trigger] atoms[0].range[j]
            ] == Some(f1[mi]),
        compile_atoms(a2, f1, atoms.drop_first(), true) matches CompileOutcome::Done { .. },
        in_lang(a2.alphabet, atoms, s),
        0 <= m < f1.len(),
    ensures
        match compile_atoms(a2, f1, atoms.drop_first(), true) {
            CompileOutcome::Done { aut, frontier } => exists|m2: int|
                0 <= m2 < frontier.len() && walk(aut, f1[m], s) == (WalkOutcome::Accept {
                    node: frontier[m2],
                }),
            _ => false,
        },
    decreases atoms.len(), s.len(),
{
    let r = atoms[0].range;
    crate::model::lemma_pos_of(a2.alphabet, s[0]);
    let q = choose|q: int| pos_of(a2.alphabet, s[0]) == Some(q);
    assert(r.contains(q));
    let j = choose|j: int| 0 <= j < r.len() && #[trigger] r[j] == q;
    assert(a2.nodes[f1[m]].children[q] == Some(f1[m]));
    lemma_compile_atoms(a2, f1, atoms.drop_first(), true);
    match compile_atoms(a2, f1, atoms.drop_first(), true) {
        CompileOutcome::Done { aut, frontier } => {
            assert(aut.nodes[f1[m]].children[q] == Some(f1[m]));
            assert(walk(aut, f1[m], s) == walk(aut, f1[m], s.drop_first()));
            if in_lang(a2.alphabet, atoms.drop_first(), s.drop_first()) {
                lemma_compile_lang(a2, f1, atoms.drop_first(), s.drop_first(), m);
            } else {
                lemma_compile_lang_plus(a2, f1, atoms, s.drop_first(), m);
            }
            let m2 = choose|m2: int|
                0 <= m2 < frontier.len() && walk(aut, f1[m], s.drop_first())
                    == (WalkOutcome::Accept { node: frontier[m2] });
            assert(0 <= m2 < frontier.len() && walk(aut, f1[m], s) == (WalkOutcome::Accept {
                node: frontier[m2],
            }));
        },
        _ => {},
    }
}

/// `get` consistency: after a successful strict `add` of a pattern with a
/// fresh value, every string of the pattern's language walks from the root
/// to a node holding that value (whose index is the table's previous value
/// count). Strings outside every added pattern's language may still be
/// accepted where compiled paths converge, so only this direction holds.
#[verifier::rlimit(50)]
pub proof fn lemma_get_consistency(a: Automaton, pat: Seq<u8>, s: Seq<u8>)
    requires
        aut_wf(a),
        add_spec(a, pat, true) matches AddOutcome::Added { .. },
        in_lang(a.alphabet, pattern_atoms(a.alphabet, pat), s),
    ensures
        (add_spec(a, pat, true) matches AddOutcome::Added { aut, installed } ==> exists|n: int|
            walk(aut, 0, s) == (WalkOutcome::Accept { node: n }) && aut.nodes[n].value == Some(
                a.nvals,
            )),
{
    lemma_parse_pat_ranges(a.alphabet, pat);
    match parse_pat(a.alphabet, pat) {
        ParseOutcome::Parsed(atoms) => {
            lemma_compile_atoms(a, seq![0int], atoms, true);
            match compile_atoms(a, seq![0int], atoms, true) {
                CompileOutcome::Done { aut: ac, frontier } => {
                    lemma_compile_lang(a, seq![0int], atoms, s, 0);
                    let m = choose|m: int|
                        0 <= m < frontier.len() && walk(ac, 0, s) == (WalkOutcome::Accept {
                            node: frontier[m],
                        });
                    let fd = dedup(frontier);
                    lemma_dedup_from(frontier, 0);
                    assert(frontier.subrange(0, frontier.len() as int) =~= frontier);
                    assert(fd.contains(frontier[m])) by {
                        assert(frontier.contains(frontier[m]));
                    }
                    assert(frontier_ok(ac, fd)) by {
                        assert forall|kk: int| 0 <= kk < fd.len() implies 0 <= #[trigger] fd[kk]
                            < ac.nodes.len() by {
                            assert(fd.contains(fd[kk]));
                        }
                    }
                    match first_taken(ac, fd) {
                        Some(_) => {
                            assert(false);
                        },
                        None => {
                            lemma_set_values(ac, fd, ac.nvals);
                            let asv = set_values(ac, fd, ac.nvals);
                            let af = Automaton { nvals: ac.nvals + 1, ..asv };
                            lemma_walk_same_children(af, ac, 0, s);
                            assert(af.nodes[frontier[m]].value == Some(a.nvals));
                            assert(walk(af, 0, s) == (WalkOutcome::Accept { node: frontier[m] })
                                && af.nodes[frontier[m]].value == Some(a.nvals));
                            assert(add_spec(a, pat, true) == (AddOutcome::Added {
                                aut: af,
                                installed: fd,
                            }));
                            assert(exists|n: int|
                                walk(af, 0, s) == (WalkOutcome::Accept { node: n })
                                    && af.nodes[n].value == Some(a.nvals));
                            assert(add_spec(a, pat, true) matches AddOutcome::Added {
                                aut,
                                installed,
                            } ==> exists|n: int|
                                walk(aut, 0, s) == (WalkOutcome::Accept { node: n })
                                    && aut.nodes[n].value == Some(a.nvals));
                        },
                    }
                },
                _ => {
                    assert(false);
                },
            }
        },
        _ => {
            assert(false);
        },
    }
}


/// Compiling a pattern splits at any point: the first `i` atoms, then the
/// rest from the frontier they produced.
pub proof fn lemma_compile_split(
    a: Automaton,
    f: Seq<int>,
    atoms: Seq<SpecAtom>,
    strict: bool,
    i: int,
)
    requires
        0 <= i <= atoms.len(),
    ensures
        compile_atoms(a, f, atoms, strict) == (match compile_atoms(a, f, atoms.take(i), strict) {
            CompileOutcome::Done { aut, frontier } => compile_atoms(
                aut,
                frontier,
                atoms.skip(i),
                strict,
            ),
            c => c,
        }),
    decreases i,
{
    if i == 0 {
        assert(atoms.take(0) =~= Seq::<SpecAtom>::empty());
        assert(atoms.skip(0) =~= atoms);
    } else {
        let (a1, f1) = extend_frontier(a, f, atoms[0].range);
        assert(atoms.take(i)[0] == atoms[0]);
        assert(atoms.take(i).drop_first() =~= atoms.drop_first().take(i - 1));
        assert(atoms.drop_first().skip(i - 1) =~= atoms.skip(i));
        if atoms[0].plus {
            match loop_frontier(a1, f1, atoms[0].range, strict) {
                Ok(a2) => {
                    lemma_compile_split(a2, f1, atoms.drop_first(), strict, i - 1);
                },
                Err(_) => {},
            }
        } else {
            lemma_compile_split(a1, f1, atoms.drop_first(), strict, i - 1);
        }
    }
}

/// Self-loop existence: under the strict policy, after a successful `add`
/// of a pattern whose atom `i` is repeated with `+`, every node of the
/// frontier just after that atom loops back to itself on every position of
/// the atom's range, in the final automaton.
pub proof fn lemma_self_loop_existence(a: Automaton, pat: Seq<u8>, i: int)
    requires
        aut_wf(a),
        add_spec(a, pat, true) matches AddOutcome::Added { .. },
        0 <= i < pattern_atoms(a.alphabet, pat).len(),
        pattern_atoms(a.alphabet, pat)[i].plus,
    ensures
        ({
            let atoms = pattern_atoms(a.alphabet, pat);
            let r = atoms[i].range;
            match (add_spec(a, pat, true), compile_atoms(a, seq![0int], atoms.take(i + 1), true)) {
                (
                    AddOutcome::Added { aut, installed },
                    CompileOutcome::Done { aut: bi, frontier: fi },
                ) => forall|k: int, j: int|
                    0 <= k < fi.len() && 0 <= j < r.len() ==> aut.nodes[#[trigger] fi[k]].children[
                        #[trigger] r[j]
                    ] == Some(fi[k]),
                _ => false,
            }
        }),
{
    lemma_parse_pat_ranges(a.alphabet, pat);
    let atoms = pattern_atoms(a.alphabet, pat);
    let r = atoms[i].range;
    lemma_compile_split(a, seq![0int], atoms, true, i + 1);
    lemma_compile_split(a, seq![0int], atoms.take(i + 1), true, i);
    assert(atoms.take(i + 1).take(i) =~= atoms.take(i));
    assert(atoms.take(i + 1).skip(i) =~= seq![atoms[i]]);
    assert(forall|ii: int|
        0 <= ii < atoms.take(i).len() ==> range_ok(a, (#[trigger] atoms.take(i)[ii]).range));
    lemma_compile_atoms(a, seq![0int], atoms.take(i), true);
    match compile_atoms(a, seq![0int], atoms.take(i), true) {
        CompileOutcome::Done { aut: b0, frontier: f0 } => {
            // one repeated atom: extend, then strict self-loops
            assert(range_ok(b0, r));
            let (b1, f1) = extend_frontier(b0, f0, r);
            lemma_extend_frontier(b0, f0, r);
            assert(seq![atoms[i]][0] == atoms[i]);
            match loop_frontier(b1, f1, r, true) {
                Ok(b2) => {
                    lemma_loop_frontier(b1, f1, r, true);
                    assert(seq![atoms[i]].drop_first() =~= Seq::<SpecAtom>::empty());
                    assert(compile_atoms(b2, f1, Seq::<SpecAtom>::empty(), true)
                        == (CompileOutcome::Done { aut: b2, frontier: f1 }));
                    assert(compile_atoms(b0, f0, seq![atoms[i]], true) == (CompileOutcome::Done {
                        aut: b2,
                        frontier: f1,
                    }));
                    assert(compile_atoms(a, seq![0int], atoms.take(i + 1), true)
                        == (CompileOutcome::Done { aut: b2, frontier: f1 }));
                    // the remaining atoms only extend the automaton
                    assert(forall|ii: int|
                        0 <= ii < atoms.skip(i + 1).len() ==> range_ok(
                            b2,
                            (#[trigger] atoms.skip(i + 1)[ii]).range,
                        ));
                    lemma_compile_atoms(b2, f1, atoms.skip(i + 1), true);
                    match compile_atoms(b2, f1, atoms.skip(i + 1), true) {
                        CompileOutcome::Done { aut: ac, frontier: ff } => {
                            let fd = dedup(ff);
                            lemma_dedup_from(ff, 0);
                            assert(ff.subrange(0, ff.len() as int) =~= ff);
                            assert(frontier_ok(ac, fd)) by {
                                assert forall|kk: int|
                                    0 <= kk < fd.len() implies 0 <= #[trigger] fd[kk]
                                    < ac.nodes.len() by {
                                    assert(fd.contains(fd[kk]));
                                }
                            }
                            match first_taken(ac, fd) {
                                Some(_) => {
                                    assert(false);
                                },
                                None => {
                                    lemma_set_values(ac, fd, ac.nvals);
                                    let asv = set_values(ac, fd, ac.nvals);
                                    let af = Automaton { nvals: ac.nvals + 1, ..asv };
                                    assert forall|k: int, j: int|
                                        0 <= k < f1.len() && 0 <= j
                                            < r.len() implies af.nodes[#[trigger] f1[k]].children[
                                        #[trigger] r[j]
                                    ] == Some(f1[k]) by {
                                        assert(b2.nodes[f1[k]].children[r[j]] == Some(f1[k]));
                                        assert(ac.nodes[f1[k]].children[r[j]] == Some(f1[k]));
                                        assert(af.nodes[f1[k]].children == ac.nodes[f1[k]].children);
                                    }
                                    assert(add_spec(a, pat, true) == (AddOutcome::Added {
                                        aut: af,
                                        installed: fd,
                                    }));
                                },
                            }
                        },
                        _ => {
                            assert(false);
                        },
                    }
                },
                Err(_) => {
                    assert(false);
                },
            }
        },
        _ => {
            assert(false);
        },
    }
}


/// Whether the `len`-byte prefix of the input at `start` walks from the
/// root to an accepting node.
pub open spec fn accepts_prefix(a: Automaton, s: Seq<u8>, start: int, len: int) -> bool {
    &&& len >= 1
    &&& start + len <= s.len()
    &&& match walk(a, 0, s.subrange(start, start + len)) {
        WalkOutcome::Accept { node } => a.nodes[node].value is Some,
        _ => false,
    }
}

/// Maximal munch, main induction over one scanning attempt.
proof fn lemma_scan_from_munch(
    a: Automaton,
    s: Seq<u8>,
    start: int,
    node: int,
    p: int,
    best: Option<(int, int)>,
)
    requires
        aut_wf(a),
        0 <= start <= p <= s.len(),
        0 <= node < a.nodes.len(),
        walk(a, 0, s.subrange(start, p)) == (WalkOutcome::Accept { node }),
        match best {
            Some((e, vi)) => {
                &&& start <= e < p
                &&& accepts_prefix(a, s, start, e + 1 - start)
                &&& match walk(a, 0, s.subrange(start, e + 1)) {
                    WalkOutcome::Accept { node: ne } => a.nodes[ne].value == Some(vi),
                    _ => false,
                }
                &&& forall|l: int|
                    1 <= l <= p - start && accepts_prefix(a, s, start, l) ==> l <= e + 1 - start
            },
            None => forall|l: int| 1 <= l <= p - start ==> !accepts_prefix(a, s, start, l),
        },
    ensures
        match scan_from(a, s, node, p, best) {
            ScanOutcome::Token { end, vi } => {
                &&& start <= end < s.len()
                &&& accepts_prefix(a, s, start, end + 1 - start)
                &&& match walk(a, 0, s.subrange(start, end + 1)) {
                    WalkOutcome::Accept { node: ne } => a.nodes[ne].value == Some(vi),
                    _ => false,
                }
                &&& forall|l: int| accepts_prefix(a, s, start, l) ==> l <= end + 1 - start
            },
            ScanOutcome::Unknown { at } => p <= at < s.len() && pos_of(a.alphabet, s[at]) is None,
            ScanOutcome::NoToken => forall|l: int| !accepts_prefix(a, s, start, l),
        },
    decreases s.len() - p,
{
    if p >= s.len() {
        assert forall|l: int| accepts_prefix(a, s, start, l) implies l <= p - start by {}
    } else {
        crate::model::lemma_pos_of(a.alphabet, s[p]);
        assert(crate::model::node_wf(a, a.nodes[node]));
        match pos_of(a.alphabet, s[p]) {
            None => {},
            Some(q) => {
                match a.nodes[node].children[q] {
                    None => {
                        assert forall|l: int|
                            accepts_prefix(a, s, start, l) implies l <= p - start by {
                            if l > p - start {
                                assert(s.subrange(start, start + l) =~= s.subrange(start, p)
                                    + s.subrange(p, start + l));
                                lemma_walk_append(
                                    a,
                                    0,
                                    s.subrange(start, p),
                                    s.subrange(p, start + l),
                                );
                                assert(s.subrange(p, start + l)[0] == s[p]);
                            }
                        }
                    },
                    Some(c) => {
                        assert(crate::model::child_ok(
                            a.nodes.len() as int,
                            a.nodes[node].children[q],
                        ));
                        assert(s.subrange(start, p + 1) =~= s.subrange(start, p) + s.subrange(
                            p,
                            p + 1,
                        ));
                        lemma_walk_append(a, 0, s.subrange(start, p), s.subrange(p, p + 1));
                        assert(s.subrange(p, p + 1)[0] == s[p]);
                        assert(s.subrange(p, p + 1).drop_first() =~= Seq::<u8>::empty());
                        assert(walk(a, c, s.subrange(p, p + 1).drop_first()) == (WalkOutcome::Accept {
                            node: c,
                        }));
                        assert(walk(a, node, s.subrange(p, p + 1)) == (WalkOutcome::Accept {
                            node: c,
                        }));
                        assert(walk(a, 0, s.subrange(start, p + 1)) == (WalkOutcome::Accept {
                            node: c,
                        }));
                        let best2 = match a.nodes[c].value {
                            Some(vi) => Some((p, vi)),
                            None => best,
                        };
                        assert(crate::model::node_wf(a, a.nodes[c]));
                        match a.nodes[c].value {
                            Some(vi2) => {
                                assert(accepts_prefix(a, s, start, p + 1 - start));
                            },
                            None => {
                                assert forall|l: int|
                                    1 <= l <= p + 1 - start && accepts_prefix(
                                        a,
                                        s,
                                        start,
                                        l,
                                    ) implies l <= p - start by {
                                    if l == p + 1 - start {
                                        assert(!accepts_prefix(a, s, start, l));
                                    }
                                }
                            },
                        }
                        lemma_scan_from_munch(a, s, start, c, p + 1, best2);
                    },
                }
            },
        }
    }
}

/// Maximal munch: when a scanning attempt emits a token, its length is the
/// greatest length of any accepting prefix at that position; when it
/// reports no token, no accepting prefix exists there; an unknown byte is
/// reported at a position at or past the attempt's start.
pub proof fn lemma_maximal_munch(a: Automaton, s: Seq<u8>, start: int)
    requires
        aut_wf(a),
        0 <= start <= s.len(),
    ensures
        match scan_token(a, s, start) {
            ScanOutcome::Token { end, vi } => {
                &&& start <= end < s.len()
                &&& accepts_prefix(a, s, start, end + 1 - start)
                &&& forall|l: int| accepts_prefix(a, s, start, l) ==> l <= end + 1 - start
            },
            ScanOutcome::Unknown { at } => start <= at < s.len() && pos_of(a.alphabet, s[at])
                is None,
            ScanOutcome::NoToken => forall|l: int| !accepts_prefix(a, s, start, l),
        },
{
    assert(s.subrange(start, start) =~= Seq::<u8>::empty());
    lemma_scan_from_munch(a, s, start, 0, start, None);
}

/// Total consumption on success: when scanning from `start` collects to a
/// sequence of tokens with no error, the tokens tile the rest of the
/// input — the first starts at `start`, each next starts right after the
/// one before, the last ends at the final byte, and the token slices
/// concatenate to the whole remaining input.
pub proof fn lemma_total_consumption(a: Automaton, s: Seq<u8>, start: int)
    requires
        0 <= start <= s.len(),
        scan_seq(a, s, start) is Some,
    ensures
        match scan_seq(a, s, start) {
            Some(toks) => {
                &&& (toks.len() == 0 ==> start == s.len())
                &&& (toks.len() > 0 ==> toks[0].0 == start && toks[toks.len() - 1].1 == s.len()
                    - 1)
                &&& forall|i: int|
                    0 <= i < toks.len() ==> start <= (#[trigger] toks[i]).0 <= toks[i].1 < s.len()
                &&& forall|i: int|
                    0 <= i < toks.len() - 1 ==> (#[trigger] toks[i]).1 + 1 == toks[i + 1].0
                &&& tokens_concat(s, toks) == s.subrange(start, s.len() as int)
            },
            None => false,
        },
    decreases s.len() - start,
{
    if start >= s.len() {
        assert(tokens_concat(s, Seq::empty()) =~= s.subrange(start, s.len() as int));
    } else {
        match scan_token(a, s, start) {
            ScanOutcome::Token { end, vi } => {
                lemma_scan_from_bounds(a, s, 0, start, None, start);
                match scan_seq(a, s, end + 1) {
                    Some(rest) => {
                        lemma_total_consumption(a, s, end + 1);
                        let toks = seq![(start, end)] + rest;
                        assert(toks.drop_first() =~= rest);
                        assert forall|i: int|
                            0 <= i < toks.len() implies start <= (#[trigger] toks[i]).0
                            <= toks[i].1 < s.len() by {
                            if i > 0 {
                                assert(toks[i] == rest[i - 1]);
                            }
                        }
                        assert forall|i: int|
                            0 <= i < toks.len() - 1 implies (#[trigger] toks[i]).1 + 1 == toks[i
                            + 1].0 by {
                            if i > 0 {
                                assert(toks[i] == rest[i - 1]);
                                assert(toks[i + 1] == rest[i]);
                            } else {
                                if rest.len() > 0 {
                                    assert(toks[1] == rest[0]);
                                } else {
                                    assert(end + 1 == s.len());
                                }
                            }
                        }
                        if rest.len() > 0 {
                            assert(toks[toks.len() - 1] == rest[rest.len() - 1]);
                        }
                        assert(tokens_concat(s, toks) == s.subrange(start, s.len() as int)) by {
                            assert(tokens_concat(s, toks) == s.subrange(start, end + 1)
                                + tokens_concat(s, rest));
                            assert(s.subrange(start, end + 1) + s.subrange(
                                end + 1,
                                s.len() as int,
                            ) =~= s.subrange(start, s.len() as int));
                        }
                    },
                    None => {},
                }
            },
            _ => {},
        }
    }
}


/// Two automatons with the same alphabet, node count and links, whatever
/// their accept values.
pub open spec fn same_links(b: Automaton, a: Automaton) -> bool {
    &&& b.alphabet == a.alphabet
    &&& b.nodes.len() == a.nodes.len()
    &&& forall|m: int|
        0 <= m < a.nodes.len() ==> (#[trigger] b.nodes[m]).children == a.nodes[m].children
}

/// Recompiling a pattern of single-position atoms over any automaton that
/// already carries its links allocates nothing: the frontier stays one
/// node wide, and compilation returns the automaton unchanged with the
/// same final frontier.
pub proof fn lemma_recompile_singleton(a: Automaton, n: int, atoms: Seq<SpecAtom>, strict: bool)
    requires
        aut_wf(a),
        0 <= n < a.nodes.len(),
        forall|i: int| 0 <= i < atoms.len() ==> range_ok(a, (#[trigger] atoms[i]).range),
        forall|i: int| 0 <= i < atoms.len() ==> (#[trigger] atoms[i]).range.len() == 1,
        compile_atoms(a, seq![n], atoms, strict) matches CompileOutcome::Done { .. },
    ensures
        match compile_atoms(a, seq![n], atoms, strict) {
            CompileOutcome::Done { aut: af, frontier: ff } => {
                &&& ff.len() == 1
                &&& 0 <= ff[0] < af.nodes.len()
                &&& forall|b: Automaton| #[trigger]
                    same_links(b, af) ==> compile_atoms(b, seq![n], atoms, strict)
                        == (CompileOutcome::Done { aut: b, frontier: ff })
            },
            _ => false,
        },
    decreases atoms.len(),
{
    if atoms.len() == 0 {
        assert forall|b: Automaton| #[trigger]
            same_links(
                b,
                a,
            ) implies compile_atoms(b, seq![n], atoms, strict) == (CompileOutcome::Done {
            aut: b,
            frontier: seq![n],
        }) by {}
    } else {
        let r = atoms[0].range;
        let p = r[0];
        lemma_extend_one(a, n, p);
        let (a1, c) = extend_one(a, n, p);
        // the one-node frontier extends to the one-node frontier [c]
        assert(extend_range(a, n, r) == (a1, seq![c] + extend_range(a1, n, r.drop_first()).1));
        assert(r.drop_first() =~= Seq::<int>::empty());
        assert(extend_range(a, n, r).1 =~= seq![c]);
        assert(extend_range(a, n, r).0 == a1);
        assert(seq![n][0] == n);
        assert(seq![n].drop_first() =~= Seq::<int>::empty());
        assert(extend_frontier(a1, Seq::<int>::empty(), r) == (a1, Seq::<int>::empty()));
        assert(extend_frontier(a, seq![n], r).0 == a1);
        assert(extend_frontier(a, seq![n], r).1 =~= seq![c] + Seq::<int>::empty());
        assert(extend_frontier(a, seq![n], r).1 =~= seq![c]);
        let f1 = extend_frontier(a, seq![n], r).1;
        assert(compile_atoms(a, seq![n], atoms, strict) == (if atoms[0].plus {
            match loop_frontier(a1, f1, r, strict) {
                Ok(a2) => compile_atoms(a2, f1, atoms.drop_first(), strict),
                Err((ae, pe)) => CompileOutcome::Conflict { aut: ae, pos: pe },
            }
        } else {
            compile_atoms(a1, f1, atoms.drop_first(), strict)
        }));
        assert(forall|i: int|
            0 <= i < atoms.drop_first().len() ==> range_ok(
                a1,
                (#[trigger] atoms.drop_first()[i]).range,
            ));
        if atoms[0].plus {
            lemma_loop_frontier(a1, f1, r, strict);
            match loop_frontier(a1, f1, r, strict) {
                Ok(a2) => {
                    // after the loop pass the looping slot is occupied
                    assert(loop_frontier(a1, f1, r, strict) == (match loop_range(
                        a1,
                        c,
                        r,
                        strict,
                    ) {
                        Ok(x) => loop_frontier(x, f1.drop_first(), r, strict),
                        Err(e) => Err(e),
                    })) by {
                        assert(f1[0] == c);
                    }
                    assert(f1.drop_first() =~= Seq::<int>::empty());
                    if a1.nodes[c].children[p] is None {
                        assert(loop_range(a1, c, r, strict) == loop_range(
                            upd_child(a1, c, p, c),
                            c,
                            r.drop_first(),
                            strict,
                        ));
                        assert(a2 == upd_child(a1, c, p, c));
                        assert(a2.nodes[c].children[p] == Some(c));
                    } else {
                        assert(loop_range(a1, c, Seq::<int>::empty(), strict) == Ok::<
                            Automaton,
                            (Automaton, int),
                        >(a1));
                        if a1.nodes[c].children[p] == Some(c) || !strict {
                            assert(loop_range(a1, c, r, strict) == Ok::<
                                Automaton,
                                (Automaton, int),
                            >(a1));
                            assert(a2 == a1);
                        } else {
                            assert(loop_range(a1, c, r, strict) matches Err(_));
                            assert(false);
                        }
                        assert(a2.nodes[c].children[p] is Some);
                        if strict {
                            assert(a2.nodes[c].children[p] == Some(c));
                        }
                    }
                    lemma_recompile_singleton(a2, c, atoms.drop_first(), strict);
                    match compile_atoms(a2, f1, atoms.drop_first(), strict) {
                        CompileOutcome::Done { aut: af, frontier: ff } => {
                            lemma_compile_atoms(a2, f1, atoms.drop_first(), strict);
                            assert forall|b: Automaton| #[trigger]
                                same_links(b, af) implies compile_atoms(b, seq![n], atoms, strict)
                                == (CompileOutcome::Done { aut: b, frontier: ff }) by {
                                assert(af.nodes[n].children[p] == Some(c));
                                assert(b.nodes[n].children[p] == Some(c));
                                assert(extend_one(b, n, p) == (b, c));
                                assert(extend_range(b, n, Seq::<int>::empty()) == (
                                    b,
                                    Seq::<int>::empty(),
                                ));
                                assert(extend_range(b, n, r).1 =~= seq![c]);
                                assert(extend_range(b, n, r).0 == b);
                                assert(extend_frontier(b, Seq::<int>::empty(), r) == (
                                    b,
                                    Seq::<int>::empty(),
                                ));
                                assert(extend_frontier(b, seq![n], r).0 == b);
                                assert(extend_frontier(b, seq![n], r).1 =~= seq![c]
                                    + Seq::<int>::empty());
                                assert(extend_frontier(b, seq![n], r).1 =~= seq![c]);
                                assert(af.nodes[c].children[p] == a2.nodes[c].children[p]);
                                assert(b.nodes[c].children[p] == a2.nodes[c].children[p]);
                                assert(b.nodes[c].children[p] is Some);
                                assert(loop_range(b, c, Seq::<int>::empty(), strict) == Ok::<
                                    Automaton,
                                    (Automaton, int),
                                >(b));
                                if strict {
                                    assert(b.nodes[c].children[p] == Some(c));
                                }
                                assert(loop_range(b, c, r, strict) == Ok::<
                                    Automaton,
                                    (Automaton, int),
                                >(b));
                                assert(seq![c].drop_first() =~= Seq::<int>::empty());
                                assert(loop_frontier(b, Seq::<int>::empty(), r, strict) == Ok::<
                                    Automaton,
                                    (Automaton, int),
                                >(b));
                                assert(loop_frontier(b, seq![c], r, strict) == Ok::<
                                    Automaton,
                                    (Automaton, int),
                                >(b));
                                assert(compile_atoms(b, seq![c], atoms.drop_first(), strict)
                                    == (CompileOutcome::Done { aut: b, frontier: ff }));
                            }
                        },
                        _ => {},
                    }
                },
                Err(_) => {},
            }
        } else {
            lemma_recompile_singleton(a1, c, atoms.drop_first(), strict);
            match compile_atoms(a1, f1, atoms.drop_first(), strict) {
                CompileOutcome::Done { aut: af, frontier: ff } => {
                    lemma_compile_atoms(a1, f1, atoms.drop_first(), strict);
                    assert forall|b: Automaton| #[trigger]
                        same_links(b, af) implies compile_atoms(b, seq![n], atoms, strict)
                        == (CompileOutcome::Done { aut: b, frontier: ff }) by {
                        assert(af.nodes[n].children[p] == Some(c));
                        assert(b.nodes[n].children[p] == Some(c));
                        assert(extend_one(b, n, p) == (b, c));
                        assert(extend_range(b, n, Seq::<int>::empty()) == (
                            b,
                            Seq::<int>::empty(),
                        ));
                        assert(extend_range(b, n, r).1 =~= seq![c]);
                        assert(extend_range(b, n, r).0 == b);
                        assert(extend_frontier(b, Seq::<int>::empty(), r) == (
                            b,
                            Seq::<int>::empty(),
                        ));
                        assert(extend_frontier(b, seq![n], r).0 == b);
                        assert(extend_frontier(b, seq![n], r).1 =~= seq![c] + Seq::<int>::empty());
                        assert(extend_frontier(b, seq![n], r).1 =~= seq![c]);
                        assert(compile_atoms(b, seq![c], atoms.drop_first(), strict)
                            == (CompileOutcome::Done { aut: b, frontier: ff }));
                    }
                },
                _ => {},
            }
        }
    }
}


/// Shared-prefix node reuse: after adding a pattern of single-position
/// atoms, adding the same pattern extended by one literal atom into fresh
/// territory (its accepting node has no transition on that position) grows
/// the node arena by exactly one node, and the extended add succeeds.
pub proof fn lemma_shared_prefix_reuse(
    a: Automaton,
    pat1: Seq<u8>,
    pat2: Seq<u8>,
    q: int,
    strict: bool,
)
    requires
        aut_wf(a),
        add_spec(a, pat1, strict) matches AddOutcome::Added { .. },
        forall|i: int|
            0 <= i < pattern_atoms(a.alphabet, pat1).len() ==> (#[trigger] pattern_atoms(
                a.alphabet,
                pat1,
            )[i]).range.len() == 1,
        parse_pat(a.alphabet, pat2) == ParseOutcome::Parsed(
            pattern_atoms(a.alphabet, pat1).push(SpecAtom { range: seq![q], plus: false }),
        ),
        0 <= q < a.alphabet.len(),
        match add_spec(a, pat1, strict) {
            AddOutcome::Added { aut: a1, installed } => installed.len() == 1
                && a1.nodes[installed[0]].children[q] is None,
            _ => false,
        },
    ensures
        match add_spec(a, pat1, strict) {
            AddOutcome::Added { aut: a1, installed } => match add_spec(a1, pat2, strict) {
                AddOutcome::Added { aut: a2, installed: installed2 } => a2.nodes.len()
                    == a1.nodes.len() + 1,
                _ => false,
            },
            _ => false,
        },
{
    lemma_parse_pat_ranges(a.alphabet, pat1);
    let atoms1 = pattern_atoms(a.alphabet, pat1);
    let atoms2 = atoms1.push(SpecAtom { range: seq![q], plus: false });
    match parse_pat(a.alphabet, pat1) {
        ParseOutcome::Parsed(_) => {},
        _ => {
            assert(false);
        },
    }
    lemma_compile_atoms(a, seq![0int], atoms1, strict);
    lemma_recompile_singleton(a, 0, atoms1, strict);
    match compile_atoms(a, seq![0int], atoms1, strict) {
        CompileOutcome::Done { aut: af, frontier: ff } => {
            let fd = dedup(ff);
            assert(dedup_from(ff, 1) =~= Seq::<int>::empty());
            assert(!ff.subrange(0, 0).contains(ff[0]));
            assert(fd =~= seq![ff[0]] + Seq::<int>::empty());
            assert(fd =~= ff);
            match first_taken(af, fd) {
                Some(_) => {
                    assert(false);
                },
                None => {
                    assert(frontier_ok(af, fd));
                    lemma_set_values(af, fd, af.nvals);
                    let asv = set_values(af, fd, af.nvals);
                    let a1 = Automaton { nvals: af.nvals + 1, ..asv };
                    assert(add_spec(a, pat1, strict) == (AddOutcome::Added {
                        aut: a1,
                        installed: fd,
                    }));
                    assert(same_links(a1, af));
                    assert(compile_atoms(a1, seq![0int], atoms1, strict) == (CompileOutcome::Done {
                        aut: a1,
                        frontier: ff,
                    }));
                    // the fresh literal atom allocates exactly one node
                    let m = ff[0];
                    assert(a1.nodes[m].children[q] is None);
                    lemma_compile_split(a1, seq![0int], atoms2, strict, atoms1.len() as int);
                    assert(atoms2.take(atoms1.len() as int) =~= atoms1);
                    assert(atoms2.skip(atoms1.len() as int) =~= seq![
                        SpecAtom { range: seq![q], plus: false },
                    ]);
                    let fresh = a1.nodes.len() as int;
                    let ag = Automaton { nodes: a1.nodes.push(blank_node(a1)), ..a1 };
                    let a1x = upd_child(ag, m, q, fresh);
                    assert(extend_one(a1, m, q) == (a1x, fresh));
                    assert(seq![q].drop_first() =~= Seq::<int>::empty());
                    assert(extend_range(a1x, m, Seq::<int>::empty()) == (
                        a1x,
                        Seq::<int>::empty(),
                    ));
                    assert(extend_range(a1, m, seq![q]).0 == a1x);
                    assert(extend_range(a1, m, seq![q]).1 =~= seq![fresh] + Seq::<int>::empty());
                    assert(extend_range(a1, m, seq![q]).1 =~= seq![fresh]);
                    assert(ff.drop_first() =~= Seq::<int>::empty());
                    assert(extend_frontier(a1x, Seq::<int>::empty(), seq![q]) == (
                        a1x,
                        Seq::<int>::empty(),
                    ));
                    assert(ff[0] == m);
                    assert(extend_frontier(a1, ff, seq![q]).0 == a1x);
                    assert(extend_frontier(a1, ff, seq![q]).1 =~= seq![fresh] + Seq::<
                        int,
                    >::empty());
                    assert(extend_frontier(a1, ff, seq![q]).1 =~= seq![fresh]);
                    assert(compile_atoms(
                        a1x,
                        seq![fresh],
                        seq![SpecAtom { range: seq![q], plus: false }].drop_first(),
                        strict,
                    ) == (CompileOutcome::Done { aut: a1x, frontier: seq![fresh] })) by {
                        assert(seq![SpecAtom { range: seq![q], plus: false }].drop_first()
                            =~= Seq::<SpecAtom>::empty());
                    }
                    assert(compile_atoms(
                        a1,
                        ff,
                        seq![SpecAtom { range: seq![q], plus: false }],
                        strict,
                    ) == (CompileOutcome::Done { aut: a1x, frontier: seq![fresh] }));
                    assert(compile_atoms(a1, seq![0int], atoms2, strict) == (CompileOutcome::Done {
                        aut: a1x,
                        frontier: seq![fresh],
                    }));
                    // install on the fresh node succeeds and keeps the count
                    let fd2 = dedup(seq![fresh]);
                    assert(dedup_from(seq![fresh], 1) =~= Seq::<int>::empty());
                    assert(!seq![fresh].subrange(0, 0).contains(fresh));
                    assert(fd2 =~= seq![fresh] + Seq::<int>::empty());
                    assert(fd2 =~= seq![fresh]);
                    assert(a1x.nodes[fresh].value is None) by {
                        assert(ag.nodes[fresh] == blank_node(a1));
                    }
                    assert(first_taken(a1x, fd2) is None) by {
                        assert(fd2.drop_first() =~= Seq::<int>::empty());
                        assert(first_taken(a1x, Seq::<int>::empty()) is None);
                        assert(fd2[0] == fresh);
                        assert(first_taken(a1x, fd2) == first_taken(a1x, fd2.drop_first()));
                    }
                    assert(frontier_ok(a1x, fd2));
                    lemma_set_values(a1x, fd2, a1x.nvals);
                    let a2 = Automaton {
                        nvals: a1x.nvals + 1,
                        ..set_values(a1x, fd2, a1x.nvals)
                    };
                    assert(add_spec(a1, pat2, strict) == (AddOutcome::Added {
                        aut: a2,
                        installed: fd2,
                    }));
                    assert(a2.nodes.len() == a1.nodes.len() + 1);
                },
            }
        },
        _ => {
            assert(false);
        },
    }
}


/// Under the permissive policy diverging links converge harmlessly: `add`
/// never reports an ambiguous pattern.
pub proof fn lemma_permissive_never_ambiguous(a: Automaton, pat: Seq<u8>)
    ensures
        !(add_spec(a, pat, false) matches AddOutcome::Conflict { .. }),
{
    match parse_pat(a.alphabet, pat) {
        ParseOutcome::Parsed(atoms) => {
            lemma_compile_permissive(a, seq![0int], atoms);
        },
        _ => {},
    }
}

/// Permissive compilation never stops on a conflict.
proof fn lemma_compile_permissive(a: Automaton, f: Seq<int>, atoms: Seq<SpecAtom>)
    ensures
        !(compile_atoms(a, f, atoms, false) matches CompileOutcome::Conflict { .. }),
    decreases atoms.len(),
{
    if atoms.len() > 0 {
        let (a1, f1) = extend_frontier(a, f, atoms[0].range);
        if atoms[0].plus {
            crate::model::lemma_loop_frontier_permissive(a1, f1, atoms[0].range);
            match loop_frontier(a1, f1, atoms[0].range, false) {
                Ok(a2) => {
                    lemma_compile_permissive(a2, f1, atoms.drop_first());
                },
                Err(_) => {},
            }
        } else {
            lemma_compile_permissive(a1, f1, atoms.drop_first());
        }
    }
}

} // verus!
