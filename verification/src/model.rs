//! The mathematical model of the transition-table automaton.
//!
//! Everything here is specification-level: an [`Automaton`] is the
//! payload-free structure of a table (alphabet, nodes, and how many accept
//! values have been installed), and the functions below define byte
//! positions, pattern parsing, pattern compilation, exact-match walks and
//! maximal-munch scans over that structure. The executable code in
//! [`crate::table`] and [`crate::scanner`] is specified against these
//! functions, and the laws in [`crate::laws`] are proved about them.

use vstd::prelude::*;

verus! {

/// One transition node: a child link per alphabet position, and an optional
/// accept value, stored as an index into the table's value store.
pub struct SpecNode {
    pub children: Seq<Option<int>>,
    pub value: Option<int>,
}

/// The payload-free structure of a table: the alphabet bytes, the node
/// arena, and the number of accept values installed so far.
pub struct Automaton {
    pub alphabet: Seq<u8>,
    pub nodes: Seq<SpecNode>,
    pub nvals: int,
}

/// A parsed pattern atom: the alphabet positions it transitions on, and
/// whether it is repeated with `+`.
pub struct SpecAtom {
    pub range: Seq<int>,
    pub plus: bool,
}

/// The byte `[`, which opens a character class.
pub const OPEN_BRACKET: u8 = 91;

/// The byte `]`, which closes a character class.
pub const CLOSE_BRACKET: u8 = 93;

/// The byte `+`, which marks repetition after a completed atom.
pub const PLUS_BYTE: u8 = 43;

/// A child link is either absent or a valid node index.
pub open spec fn child_ok(n_nodes: int, c: Option<int>) -> bool {
    c matches Some(i) ==> 0 <= i < n_nodes
}

/// An accept slot is either absent or a valid value index.
pub open spec fn value_ok(nvals: int, v: Option<int>) -> bool {
    v matches Some(i) ==> 0 <= i < nvals
}

/// A node is well formed for an automaton: full fan-out, and every link and
/// accept index in range.
pub open spec fn node_wf(a: Automaton, nd: SpecNode) -> bool {
    &&& nd.children.len() == a.alphabet.len()
    &&& forall|p: int|
        0 <= p < nd.children.len() ==> child_ok(a.nodes.len() as int, #[trigger] nd.children[p])
    &&& value_ok(a.nvals, nd.value)
}

/// A well-formed automaton: at least the root node, and every node well
/// formed.
pub open spec fn aut_wf(a: Automaton) -> bool {
    &&& a.nodes.len() >= 1
    &&& a.nvals >= 0
    &&& forall|n: int| 0 <= n < a.nodes.len() ==> node_wf(a, #[trigger] a.nodes[n])
}

/// The automaton of a freshly constructed table: one blank root node.
pub open spec fn initial_automaton(alphabet: Seq<u8>) -> Automaton {
    Automaton {
        alphabet,
        nodes: seq![SpecNode { children: Seq::new(alphabet.len(), |i: int| None), value: None }],
        nvals: 0,
    }
}

/// The ASCII bytes of an ASCII string.
pub open spec fn bytes_of(s: Seq<char>) -> Seq<u8> {
    Seq::new(s.len(), |i: int| s[i] as u8)
}

/// Index of the first occurrence of `b` in `alpha`, if any.
pub open spec fn pos_of(alpha: Seq<u8>, b: u8) -> Option<int>
    decreases alpha.len(),
{
    if alpha.len() == 0 {
        None
    } else if alpha[0] == b {
        Some(0int)
    } else {
        match pos_of(alpha.drop_first(), b) {
            Some(i) => Some(i + 1),
            None => None,
        }
    }
}

/// `pos_of` returns the least index holding `b`, or `None` when `b` does not
/// occur.
pub proof fn lemma_pos_of(alpha: Seq<u8>, b: u8)
    ensures
        match pos_of(alpha, b) {
            Some(i) => {
                &&& 0 <= i < alpha.len()
                &&& alpha[i] == b
                &&& forall|j: int| 0 <= j < i ==> alpha[j] != b
            },
            None => forall|j: int| 0 <= j < alpha.len() ==> alpha[j] != b,
        },
    decreases alpha.len(),
{
    if alpha.len() > 0 && alpha[0] != b {
        lemma_pos_of(alpha.drop_first(), b);
        match pos_of(alpha.drop_first(), b) {
            Some(r) => {
                assert forall|j: int| 0 <= j < r + 1 implies alpha[j] != b by {
                    if j >= 1 {
                        assert(alpha.drop_first()[j - 1] == alpha[j]);
                    }
                }
            },
            None => {
                assert forall|j: int| 0 <= j < alpha.len() implies alpha[j] != b by {
                    if j >= 1 {
                        assert(alpha.drop_first()[j - 1] == alpha[j]);
                    }
                }
            },
        }
    }
}

/// What parsing a pattern yields: its atoms, or the first error.
pub enum ParseOutcome {
    Parsed(Seq<SpecAtom>),
    /// A pattern byte that is not in the alphabet.
    BadByte(u8),
    /// An empty or unterminated character class.
    BadRange,
}

/// What parsing one character class yields: its positions (first occurrence
/// order, no duplicates) and the bytes after the closing bracket, or the
/// first error.
pub enum ClassOutcome {
    Class(Seq<int>, Seq<u8>),
    BadByte(u8),
    BadRange,
}

/// Parses the body of a character class, after the opening bracket.
pub open spec fn parse_class(alpha: Seq<u8>, p: Seq<u8>, acc: Seq<int>) -> ClassOutcome
    decreases p.len(),
{
    if p.len() == 0 {
        ClassOutcome::BadRange
    } else if p[0] == CLOSE_BRACKET {
        if acc.len() == 0 {
            ClassOutcome::BadRange
        } else {
            ClassOutcome::Class(acc, p.drop_first())
        }
    } else {
        match pos_of(alpha, p[0]) {
            None => ClassOutcome::BadByte(p[0]),
            Some(q) => parse_class(
                alpha,
                p.drop_first(),
                if acc.contains(q) {
                    acc
                } else {
                    acc.push(q)
                },
            ),
        }
    }
}

/// A successfully parsed class consumes at least the closing bracket.
pub proof fn lemma_parse_class_len(alpha: Seq<u8>, p: Seq<u8>, acc: Seq<int>)
    ensures
        parse_class(alpha, p, acc) matches ClassOutcome::Class(r, rest) ==> rest.len() < p.len(),
    decreases p.len(),
{
    if p.len() > 0 && p[0] != CLOSE_BRACKET {
        match pos_of(alpha, p[0]) {
            None => {},
            Some(q) => {
                lemma_parse_class_len(
                    alpha,
                    p.drop_first(),
                    if acc.contains(q) {
                        acc
                    } else {
                        acc.push(q)
                    },
                );
            },
        }
    }
}

/// Parses a whole pattern into atoms: `[` opens a class, any other byte is a
/// literal, and a `+` immediately after a completed atom marks repetition.
pub open spec fn parse_pat(alpha: Seq<u8>, p: Seq<u8>) -> ParseOutcome
    decreases p.len(), 0int,
    via parse_pat_decreases
{
    if p.len() == 0 {
        ParseOutcome::Parsed(Seq::empty())
    } else if p[0] == OPEN_BRACKET {
        match parse_class(alpha, p.drop_first(), Seq::empty()) {
            ClassOutcome::BadByte(b) => ParseOutcome::BadByte(b),
            ClassOutcome::BadRange => ParseOutcome::BadRange,
            ClassOutcome::Class(range, rest) => parse_tail(alpha, range, rest),
        }
    } else {
        match pos_of(alpha, p[0]) {
            None => ParseOutcome::BadByte(p[0]),
            Some(q) => parse_tail(alpha, seq![q], p.drop_first()),
        }
    }
}

/// After one atom's range, consumes an optional `+` and parses the rest.
pub open spec fn parse_tail(alpha: Seq<u8>, range: Seq<int>, rest: Seq<u8>) -> ParseOutcome
    decreases rest.len(), 1int,
{
    let plus = rest.len() > 0 && rest[0] == PLUS_BYTE;
    let rest2 = if plus {
        rest.drop_first()
    } else {
        rest
    };
    match parse_pat(alpha, rest2) {
        ParseOutcome::Parsed(atoms) => ParseOutcome::Parsed(
            seq![SpecAtom { range, plus }] + atoms,
        ),
        e => e,
    }
}

#[via_fn]
proof fn parse_pat_decreases(alpha: Seq<u8>, p: Seq<u8>) {
    if p.len() > 0 && p[0] == OPEN_BRACKET {
        lemma_parse_class_len(alpha, p.drop_first(), Seq::empty());
    }
}

/// A blank node for an automaton: full fan-out, all links absent, no value.
pub open spec fn blank_node(a: Automaton) -> SpecNode {
    SpecNode { children: Seq::new(a.alphabet.len(), |i: int| None), value: None }
}

/// Overwrites one child slot.
pub open spec fn upd_child(a: Automaton, n: int, p: int, t: int) -> Automaton {
    Automaton {
        nodes: a.nodes.update(
            n,
            SpecNode { children: a.nodes[n].children.update(p, Some(t)), value: a.nodes[n].value },
        ),
        ..a
    }
}

/// Installs an accept value index on one node.
pub open spec fn upd_value(a: Automaton, n: int, vi: int) -> Automaton {
    Automaton {
        nodes: a.nodes.update(n, SpecNode { children: a.nodes[n].children, value: Some(vi) }),
        ..a
    }
}

/// Reuses the transition from `n` on position `p`, or allocates a fresh node
/// and links it. Returns the new automaton and the target node.
pub open spec fn extend_one(a: Automaton, n: int, p: int) -> (Automaton, int) {
    match a.nodes[n].children[p] {
        Some(c) => (a, c),
        None => {
            let fresh = a.nodes.len() as int;
            let a1 = Automaton { nodes: a.nodes.push(blank_node(a)), ..a };
            (upd_child(a1, n, p, fresh), fresh)
        },
    }
}

/// Extends one frontier node over every position of a range, in order.
pub open spec fn extend_range(a: Automaton, n: int, range: Seq<int>) -> (Automaton, Seq<int>)
    decreases range.len(),
{
    if range.len() == 0 {
        (a, Seq::empty())
    } else {
        let (a1, c) = extend_one(a, n, range[0]);
        let (a2, cs) = extend_range(a1, n, range.drop_first());
        (a2, seq![c] + cs)
    }
}

/// Extends every frontier node over a range, in frontier order. Returns the
/// new automaton and the next frontier.
pub open spec fn extend_frontier(a: Automaton, frontier: Seq<int>, range: Seq<int>) -> (
    Automaton,
    Seq<int>,
)
    decreases frontier.len(),
{
    if frontier.len() == 0 {
        (a, Seq::empty())
    } else {
        let (a1, cs) = extend_range(a, frontier[0], range);
        let (a2, rest) = extend_frontier(a1, frontier.drop_first(), range);
        (a2, cs + rest)
    }
}

/// Installs self-loops on one node for every position of a range. An empty
/// slot is written; a slot already holding the node itself is left alone; a
/// slot holding a different node is left alone under the permissive policy
/// and is a conflict under the strict one: `Err` carries the automaton at
/// the point of the conflict and the offending position.
pub open spec fn loop_range(a: Automaton, n: int, range: Seq<int>, strict: bool) -> Result<
    Automaton,
    (Automaton, int),
>
    decreases range.len(),
{
    if range.len() == 0 {
        Ok(a)
    } else {
        let p = range[0];
        if a.nodes[n].children[p] is None {
            loop_range(upd_child(a, n, p, n), n, range.drop_first(), strict)
        } else if a.nodes[n].children[p] == Some(n) || !strict {
            loop_range(a, n, range.drop_first(), strict)
        } else {
            Err((a, p))
        }
    }
}

/// Installs self-loops on every frontier node.
pub open spec fn loop_frontier(
    a: Automaton,
    frontier: Seq<int>,
    range: Seq<int>,
    strict: bool,
) -> Result<Automaton, (Automaton, int)>
    decreases frontier.len(),
{
    if frontier.len() == 0 {
        Ok(a)
    } else {
        match loop_range(a, frontier[0], range, strict) {
            Ok(a1) => loop_frontier(a1, frontier.drop_first(), range, strict),
            Err(e) => Err(e),
        }
    }
}

/// What compiling a sequence of atoms yields: the extended automaton and the
/// final frontier, or a strict-mode conflict carrying the automaton as built
/// so far and the offending alphabet position.
pub enum CompileOutcome {
    Done { aut: Automaton, frontier: Seq<int> },
    Conflict { aut: Automaton, pos: int },
}

/// Compiles atoms left to right, starting from a frontier.
pub open spec fn compile_atoms(
    a: Automaton,
    frontier: Seq<int>,
    atoms: Seq<SpecAtom>,
    strict: bool,
) -> CompileOutcome
    decreases atoms.len(),
{
    if atoms.len() == 0 {
        CompileOutcome::Done { aut: a, frontier }
    } else {
        let (a1, f1) = extend_frontier(a, frontier, atoms[0].range);
        if atoms[0].plus {
            match loop_frontier(a1, f1, atoms[0].range, strict) {
                Ok(a2) => compile_atoms(a2, f1, atoms.drop_first(), strict),
                Err((ae, p)) => CompileOutcome::Conflict { aut: ae, pos: p },
            }
        } else {
            compile_atoms(a1, f1, atoms.drop_first(), strict)
        }
    }
}

/// Keeps the first occurrence of every element of `s` from index `i` on,
/// dropping the ones already seen before `i`.
pub open spec fn dedup_from(s: Seq<int>, i: int) -> Seq<int>
    decreases s.len() - i,
{
    if i < 0 || i >= s.len() {
        Seq::empty()
    } else {
        let rest = dedup_from(s, i + 1);
        if s.subrange(0, i).contains(s[i]) {
            rest
        } else {
            seq![s[i]] + rest
        }
    }
}

/// The distinct elements of `s`, first occurrences first.
pub open spec fn dedup(s: Seq<int>) -> Seq<int> {
    dedup_from(s, 0)
}

/// `dedup` keeps exactly the elements of `s`, once each.
pub proof fn lemma_dedup_from(s: Seq<int>, i: int)
    requires
        0 <= i <= s.len(),
    ensures
        forall|x: int| #[trigger]
            dedup_from(s, i).contains(x) <==> (s.subrange(i, s.len() as int).contains(x)
                && !s.subrange(0, i).contains(x)),
        dedup_from(s, i).no_duplicates(),
    decreases s.len() - i,
{
    if i < s.len() {
        lemma_dedup_from(s, i + 1);
        let rest = dedup_from(s, i + 1);
        assert forall|x: int|
            s.subrange(i + 1, s.len() as int).contains(x) implies s.subrange(
            i,
            s.len() as int,
        ).contains(x) by {
            let j = choose|j: int|
                0 <= j < s.subrange(i + 1, s.len() as int).len() && #[trigger] s.subrange(
                    i + 1,
                    s.len() as int,
                )[j] == x;
            assert(s.subrange(i, s.len() as int)[j + 1] == x);
        }
        assert forall|x: int|
            s.subrange(0, i).contains(x) implies s.subrange(0, i + 1).contains(x) by {
            let j = choose|j: int| 0 <= j < i && #[trigger] s.subrange(0, i)[j] == x;
            assert(s.subrange(0, i + 1)[j] == x);
        }
        if s.subrange(0, i).contains(s[i]) {
            assert forall|x: int|
                s.subrange(i, s.len() as int).contains(x) && !s.subrange(0, i).contains(
                    x,
                ) implies s.subrange(i + 1, s.len() as int).contains(x) by {
                let j = choose|j: int|
                    0 <= j < s.subrange(i, s.len() as int).len() && #[trigger] s.subrange(
                        i,
                        s.len() as int,
                    )[j] == x;
                if j == 0 {
                    assert(s.subrange(0, i).contains(x));
                } else {
                    assert(s.subrange(i + 1, s.len() as int)[j - 1] == x);
                }
            }
        } else {
            assert(s.subrange(i, s.len() as int)[0] == s[i]);
            assert forall|x: int|
                s.subrange(i, s.len() as int).contains(x) && !s.subrange(0, i).contains(x) && x
                    != s[i] implies s.subrange(i + 1, s.len() as int).contains(x) by {
                let j = choose|j: int|
                    0 <= j < s.subrange(i, s.len() as int).len() && #[trigger] s.subrange(
                        i,
                        s.len() as int,
                    )[j] == x;
                assert(j != 0);
                assert(s.subrange(i + 1, s.len() as int)[j - 1] == x);
            }
            assert forall|x: int| #[trigger]
                (seq![s[i]] + rest).contains(x) implies (s.subrange(i, s.len() as int).contains(x)
                && !s.subrange(0, i).contains(x)) by {
                if x == s[i] {
                    assert(s.subrange(i, s.len() as int)[0] == x);
                } else {
                    assert(rest.contains(x));
                }
            }
            assert forall|x: int|
                (s.subrange(i, s.len() as int).contains(x) && !s.subrange(0, i).contains(
                    x,
                )) implies #[trigger] (seq![s[i]] + rest).contains(x) by {
                if x == s[i] {
                    assert((seq![s[i]] + rest)[0] == x);
                } else {
                    assert(rest.contains(x));
                    let j = choose|j: int| 0 <= j < rest.len() && #[trigger] rest[j] == x;
                    assert((seq![s[i]] + rest)[j + 1] == x);
                }
            }
            assert(!rest.contains(s[i])) by {
                if rest.contains(s[i]) {
                    assert(!s.subrange(0, i + 1).contains(s[i]));
                    assert(s.subrange(0, i + 1)[i] == s[i]);
                }
            }
        }
    } else {
        assert(s.subrange(i, s.len() as int).len() == 0);
    }
}

/// Marks the first node of a frontier that already carries an accept value.
pub open spec fn first_taken(a: Automaton, f: Seq<int>) -> Option<int>
    decreases f.len(),
{
    if f.len() == 0 {
        None
    } else if a.nodes[f[0]].value is Some {
        Some(f[0])
    } else {
        first_taken(a, f.drop_first())
    }
}

/// Installs value index `vi` on every node of `f`.
pub open spec fn set_values(a: Automaton, f: Seq<int>, vi: int) -> Automaton
    decreases f.len(),
{
    if f.len() == 0 {
        a
    } else {
        set_values(upd_value(a, f[0], vi), f.drop_first(), vi)
    }
}

/// What one `add` call yields.
pub enum AddOutcome {
    /// The pattern compiled and its value was installed on every node of
    /// `installed` (the deduplicated final frontier), as value index
    /// `aut.nvals - 1`.
    Added { aut: Automaton, installed: Seq<int> },
    /// A pattern byte that is not in the alphabet; the table is unchanged.
    BadByte(u8),
    /// An empty or unterminated class; the table is unchanged.
    BadRange,
    /// A strict-mode link conflict at alphabet position `pos`; the table is
    /// left as compiled so far.
    Conflict { aut: Automaton, pos: int },
    /// Node `node` of the compiled frontier already carries a value; the
    /// table is left compiled but without the new value.
    Taken { aut: Automaton, node: int },
}

/// The full effect of `add`: parse, compile, then install the value on the
/// deduplicated final frontier.
pub open spec fn add_spec(a: Automaton, pat: Seq<u8>, strict: bool) -> AddOutcome {
    match parse_pat(a.alphabet, pat) {
        ParseOutcome::BadByte(b) => AddOutcome::BadByte(b),
        ParseOutcome::BadRange => AddOutcome::BadRange,
        ParseOutcome::Parsed(atoms) => match compile_atoms(a, seq![0int], atoms, strict) {
            CompileOutcome::Conflict { aut, pos } => AddOutcome::Conflict { aut, pos },
            CompileOutcome::Done { aut, frontier } => {
                let f = dedup(frontier);
                match first_taken(aut, f) {
                    Some(n) => AddOutcome::Taken { aut, node: n },
                    None => AddOutcome::Added {
                        aut: Automaton { nvals: aut.nvals + 1, ..set_values(aut, f, aut.nvals) },
                        installed: f,
                    },
                }
            },
        },
    }
}

/// What walking an exact key from a node yields.
pub enum WalkOutcome {
    /// The whole key was consumed; `node` is where it ended.
    Accept { node: int },
    /// A transition was missing before the key was consumed.
    Reject,
    /// A key byte that is not in the alphabet.
    BadByte(u8),
}

/// Walks the automaton over `s`, one transition per byte.
pub open spec fn walk(a: Automaton, n: int, s: Seq<u8>) -> WalkOutcome
    decreases s.len(),
{
    if s.len() == 0 {
        WalkOutcome::Accept { node: n }
    } else {
        match pos_of(a.alphabet, s[0]) {
            None => WalkOutcome::BadByte(s[0]),
            Some(p) => match a.nodes[n].children[p] {
                None => WalkOutcome::Reject,
                Some(c) => walk(a, c, s.drop_first()),
            },
        }
    }
}

/// What one scanning attempt yields.
pub enum ScanOutcome {
    /// A token covering input indexes `start..=end`, with value index `vi`.
    Token { end: int, vi: int },
    /// The byte at `at` is not in the alphabet.
    Unknown { at: int },
    /// The attempt found no accepting prefix.
    NoToken,
}

/// Turns the best candidate seen into a scan outcome.
pub open spec fn finish_scan(best: Option<(int, int)>) -> ScanOutcome {
    match best {
        Some((e, vi)) => ScanOutcome::Token { end: e, vi },
        None => ScanOutcome::NoToken,
    }
}

/// One scanning attempt: walk from `node` at input position `p`, remembering
/// in `best` the rightmost accepting position seen (paired with its value
/// index), until the input ends, a byte is outside the alphabet, or a
/// transition is missing.
pub open spec fn scan_from(
    a: Automaton,
    s: Seq<u8>,
    node: int,
    p: int,
    best: Option<(int, int)>,
) -> ScanOutcome
    decreases s.len() - p,
{
    if p < 0 || p >= s.len() {
        finish_scan(best)
    } else {
        match pos_of(a.alphabet, s[p]) {
            None => ScanOutcome::Unknown { at: p },
            Some(q) => match a.nodes[node].children[q] {
                None => finish_scan(best),
                Some(c) => scan_from(
                    a,
                    s,
                    c,
                    p + 1,
                    match a.nodes[c].value {
                        Some(vi) => Some((p, vi)),
                        None => best,
                    },
                ),
            },
        }
    }
}

/// The token (or error) found by one scanning attempt starting at `start`.
pub open spec fn scan_token(a: Automaton, s: Seq<u8>, start: int) -> ScanOutcome {
    scan_from(a, s, 0, start, None)
}

/// Whether byte `b` is matched by an atom range.
pub open spec fn matches_atom(alpha: Seq<u8>, range: Seq<int>, b: u8) -> bool {
    match pos_of(alpha, b) {
        Some(p) => range.contains(p),
        None => false,
    }
}

/// The language of a parsed pattern: which byte strings it accepts.
pub open spec fn in_lang(alpha: Seq<u8>, atoms: Seq<SpecAtom>, s: Seq<u8>) -> bool
    decreases atoms.len(), s.len(),
{
    if atoms.len() == 0 {
        s.len() == 0
    } else if !atoms[0].plus {
        &&& s.len() >= 1
        &&& matches_atom(alpha, atoms[0].range, s[0])
        &&& in_lang(alpha, atoms.drop_first(), s.drop_first())
    } else {
        &&& s.len() >= 1
        &&& matches_atom(alpha, atoms[0].range, s[0])
        &&& (in_lang(alpha, atoms.drop_first(), s.drop_first()) || in_lang(
            alpha,
            atoms,
            s.drop_first(),
        ))
    }
}

/// Monotone growth: `a2` has every node of `a1`, with every present link and
/// accept value unchanged, the same alphabet, and at least as many values.
pub open spec fn aut_extends(a2: Automaton, a1: Automaton) -> bool {
    &&& a2.alphabet == a1.alphabet
    &&& a2.nodes.len() >= a1.nodes.len()
    &&& a2.nvals >= a1.nvals
    &&& forall|n: int|
        0 <= n < a1.nodes.len() ==> (#[trigger] a2.nodes[n]).children.len()
            == a1.nodes[n].children.len()
    &&& forall|n: int, p: int|
        0 <= n < a1.nodes.len() && 0 <= p < a1.nodes[n].children.len() && (
        #[trigger] a1.nodes[n].children[p]) is Some ==> a2.nodes[n].children[p]
            == a1.nodes[n].children[p]
    &&& forall|n: int|
        0 <= n < a1.nodes.len() && (#[trigger] a1.nodes[n].value) is Some ==> a2.nodes[n].value
            == a1.nodes[n].value
}


/// Every element of a frontier is a valid node index.
pub open spec fn frontier_ok(a: Automaton, f: Seq<int>) -> bool {
    forall|k: int| 0 <= k < f.len() ==> 0 <= #[trigger] f[k] < a.nodes.len()
}

/// Every element of a range is a valid alphabet position.
pub open spec fn range_ok(a: Automaton, r: Seq<int>) -> bool {
    forall|k: int| 0 <= k < r.len() ==> 0 <= #[trigger] r[k] < a.alphabet.len()
}

/// `aut_extends` is transitive.
pub proof fn lemma_extends_trans(a3: Automaton, a2: Automaton, a1: Automaton)
    requires
        aut_extends(a3, a2),
        aut_extends(a2, a1),
    ensures
        aut_extends(a3, a1),
{
    assert forall|n: int, p: int|
        0 <= n < a1.nodes.len() && 0 <= p < a1.nodes[n].children.len() && (
        #[trigger] a1.nodes[n].children[p]) is Some implies a3.nodes[n].children[p]
        == a1.nodes[n].children[p] by {
        assert(a2.nodes[n].children[p] == a1.nodes[n].children[p]);
    }
    assert forall|n: int|
        0 <= n < a1.nodes.len() && (#[trigger] a1.nodes[n].value) is Some implies a3.nodes[n].value
        == a1.nodes[n].value by {
        assert(a2.nodes[n].value == a1.nodes[n].value);
    }
}

/// Writing an empty child slot yields a well-formed, monotone extension.
pub proof fn lemma_upd_child(a: Automaton, n: int, p: int, t: int)
    requires
        aut_wf(a),
        0 <= n < a.nodes.len(),
        0 <= p < a.alphabet.len(),
        0 <= t < a.nodes.len(),
        a.nodes[n].children[p] is None,
    ensures
        aut_wf(upd_child(a, n, p, t)),
        aut_extends(upd_child(a, n, p, t), a),
        upd_child(a, n, p, t).nodes.len() == a.nodes.len(),
        upd_child(a, n, p, t).nvals == a.nvals,
        upd_child(a, n, p, t).nodes[n].children[p] == Some(t),
{
    let a1 = upd_child(a, n, p, t);
    assert(node_wf(a, a.nodes[n]));
    assert forall|m: int| 0 <= m < a1.nodes.len() implies node_wf(a1, #[trigger] a1.nodes[m]) by {
        assert(node_wf(a, a.nodes[m]));
        if m == n {
            assert(forall|q: int|
                0 <= q < a1.nodes[m].children.len() ==> child_ok(
                    a1.nodes.len() as int,
                    #[trigger] a1.nodes[m].children[q],
                ));
        }
    }
}

/// Extending one transition yields a well-formed, monotone extension whose
/// returned node carries the link.
pub proof fn lemma_extend_one(a: Automaton, n: int, p: int)
    requires
        aut_wf(a),
        0 <= n < a.nodes.len(),
        0 <= p < a.alphabet.len(),
    ensures
        ({
            let (a1, c) = extend_one(a, n, p);
            &&& aut_wf(a1)
            &&& aut_extends(a1, a)
            &&& a1.nvals == a.nvals
            &&& 0 <= c < a1.nodes.len()
            &&& a1.nodes[n].children[p] == Some(c)
        }),
{
    assert(node_wf(a, a.nodes[n]));
    match a.nodes[n].children[p] {
        Some(c) => {
            assert(child_ok(a.nodes.len() as int, a.nodes[n].children[p]));
        },
        None => {
            let fresh = a.nodes.len() as int;
            let ag = Automaton { nodes: a.nodes.push(blank_node(a)), ..a };
            assert(aut_wf(ag)) by {
                assert forall|m: int|
                    0 <= m < ag.nodes.len() implies node_wf(ag, #[trigger] ag.nodes[m]) by {
                    if m < a.nodes.len() {
                        assert(node_wf(a, a.nodes[m]));
                    }
                }
            }
            assert(ag.nodes[n].children[p] is None);
            lemma_upd_child(ag, n, p, fresh);
        },
    }
}

/// Extending one frontier node over a range: well-formed monotone growth,
/// one output per position, and in the result every position of the range
/// carries a link from `n` into the output.
pub proof fn lemma_extend_range(a: Automaton, n: int, range: Seq<int>)
    requires
        aut_wf(a),
        0 <= n < a.nodes.len(),
        range_ok(a, range),
    ensures
        ({
            let (a1, cs) = extend_range(a, n, range);
            &&& aut_wf(a1)
            &&& aut_extends(a1, a)
            &&& a1.nvals == a.nvals
            &&& cs.len() == range.len()
            &&& frontier_ok(a1, cs)
            &&& forall|j: int|
                0 <= j < range.len() ==> a1.nodes[n].children[range[j]] == Some(#[trigger] cs[j])
        }),
    decreases range.len(),
{
    if range.len() > 0 {
        let (a1, c) = extend_one(a, n, range[0]);
        lemma_extend_one(a, n, range[0]);
        assert(range_ok(a1, range.drop_first()));
        lemma_extend_range(a1, n, range.drop_first());
        let (a2, cs) = extend_range(a1, n, range.drop_first());
        lemma_extends_trans(a2, a1, a);
        let out = seq![c] + cs;
        assert forall|j: int|
            0 <= j < range.len() implies a2.nodes[n].children[range[j]] == Some(
            #[trigger] out[j],
        ) by {
            if j == 0 {
                assert(a1.nodes[n].children[range[0]] == Some(c));
                assert(a2.nodes[n].children[range[0]] == Some(c));
                assert(out[0] == c);
            } else {
                assert(a2.nodes[n].children[range.drop_first()[j - 1]] == Some(cs[j - 1]));
                assert(range.drop_first()[j - 1] == range[j]);
                assert(out[j] == cs[j - 1]);
            }
        }
    }
}

/// Extending a whole frontier: well-formed monotone growth, and in the
/// result every frontier node is linked on every position of the range to
/// some node of the output.
pub proof fn lemma_extend_frontier(a: Automaton, f: Seq<int>, range: Seq<int>)
    requires
        aut_wf(a),
        frontier_ok(a, f),
        range_ok(a, range),
    ensures
        ({
            let (a1, out) = extend_frontier(a, f, range);
            &&& aut_wf(a1)
            &&& aut_extends(a1, a)
            &&& a1.nvals == a.nvals
            &&& frontier_ok(a1, out)
            &&& forall|k: int, j: int|
                0 <= k < f.len() && 0 <= j < range.len() ==> ((#[trigger] a1.nodes[f[k]].children[
                    range[j]
                ]) matches Some(c) && out.contains(c))
        }),
    decreases f.len(),
{
    if f.len() > 0 {
        let (a1, cs) = extend_range(a, f[0], range);
        lemma_extend_range(a, f[0], range);
        assert(frontier_ok(a1, f.drop_first()));
        assert(range_ok(a1, range));
        lemma_extend_frontier(a1, f.drop_first(), range);
        let (a2, rest) = extend_frontier(a1, f.drop_first(), range);
        lemma_extends_trans(a2, a1, a);
        let out = cs + rest;
        assert forall|k: int, j: int|
            0 <= k < f.len() && 0 <= j < range.len() implies ((#[trigger] a2.nodes[f[k]].children[
            range[j]
        ]) matches Some(c) && out.contains(c)) by {
            if k == 0 {
                assert(a1.nodes[f[0]].children[range[j]] == Some(cs[j]));
                assert(a2.nodes[f[0]].children[range[j]] == Some(cs[j]));
                assert(out[j] == cs[j]);
            } else {
                assert(f.drop_first()[k - 1] == f[k]);
                assert(((a2.nodes[f[k]].children[range[j]]) matches Some(c) && rest.contains(c)));
                let c = choose|c: int| a2.nodes[f[k]].children[range[j]] == Some(c) && rest.contains(c);
                let m = choose|m: int| 0 <= m < rest.len() && #[trigger] rest[m] == c;
                assert(out[cs.len() + m] == c);
            }
        }
    }
}

/// Installing self-loops on one node: well-formed monotone growth; under
/// the strict policy success means every position of the range loops back.
pub proof fn lemma_loop_range(a: Automaton, n: int, range: Seq<int>, strict: bool)
    requires
        aut_wf(a),
        0 <= n < a.nodes.len(),
        range_ok(a, range),
    ensures
        ({
            match loop_range(a, n, range, strict) {
                Ok(a1) => {
                    &&& aut_wf(a1)
                    &&& aut_extends(a1, a)
                    &&& a1.nvals == a.nvals
                    &&& a1.nodes.len() == a.nodes.len()
                    &&& (strict ==> forall|j: int|
                        0 <= j < range.len() ==> a1.nodes[n].children[#[trigger] range[j]] == Some(
                            n,
                        ))
                },
                Err((ae, p)) => {
                    &&& aut_wf(ae)
                    &&& aut_extends(ae, a)
                    &&& ae.nvals == a.nvals
                    &&& ae.nodes.len() == a.nodes.len()
                    &&& 0 <= p < a.alphabet.len()
                },
            }
        }),
    decreases range.len(),
{
    if range.len() > 0 {
        let p = range[0];
        if a.nodes[n].children[p] is None {
            lemma_upd_child(a, n, p, n);
            let au = upd_child(a, n, p, n);
            lemma_loop_range(au, n, range.drop_first(), strict);
            match loop_range(au, n, range.drop_first(), strict) {
                Ok(a1) => {
                    lemma_extends_trans(a1, au, a);
                    if strict {
                        assert forall|j: int|
                            0 <= j < range.len() implies a1.nodes[n].children[#[trigger] range[j]]
                            == Some(n) by {
                            if j == 0 {
                                assert(au.nodes[n].children[p] == Some(n));
                            } else {
                                assert(range.drop_first()[j - 1] == range[j]);
                            }
                        }
                    }
                },
                Err(_) => {},
            }
        } else if a.nodes[n].children[p] == Some(n) || !strict {
            lemma_loop_range(a, n, range.drop_first(), strict);
            match loop_range(a, n, range.drop_first(), strict) {
                Ok(a1) => {
                    if strict {
                        assert forall|j: int|
                            0 <= j < range.len() implies a1.nodes[n].children[#[trigger] range[j]]
                            == Some(n) by {
                            if j == 0 {
                                assert(a.nodes[n].children[p] == Some(n));
                                assert(a1.nodes[n].children[p] == Some(n));
                            } else {
                                assert(range.drop_first()[j - 1] == range[j]);
                            }
                        }
                    }
                },
                Err(_) => {},
            }
        }
    }
}

/// Installing self-loops on a frontier: well-formed monotone growth; under
/// the strict policy success means every frontier node loops on every
/// position of the range.
pub proof fn lemma_loop_frontier(a: Automaton, f: Seq<int>, range: Seq<int>, strict: bool)
    requires
        aut_wf(a),
        frontier_ok(a, f),
        range_ok(a, range),
    ensures
        ({
            match loop_frontier(a, f, range, strict) {
                Ok(a1) => {
                    &&& aut_wf(a1)
                    &&& aut_extends(a1, a)
                    &&& a1.nvals == a.nvals
                    &&& a1.nodes.len() == a.nodes.len()
                    &&& (strict ==> forall|k: int, j: int|
                        0 <= k < f.len() && 0 <= j < range.len() ==> a1.nodes[#[trigger] f[k]].children[
                            #[trigger] range[j]
                        ] == Some(f[k]))
                },
                Err((ae, p)) => {
                    &&& aut_wf(ae)
                    &&& aut_extends(ae, a)
                    &&& ae.nvals == a.nvals
                    &&& ae.nodes.len() == a.nodes.len()
                    &&& 0 <= p < a.alphabet.len()
                },
            }
        }),
    decreases f.len(),
{
    if f.len() > 0 {
        lemma_loop_range(a, f[0], range, strict);
        match loop_range(a, f[0], range, strict) {
            Ok(a1) => {
                lemma_loop_frontier(a1, f.drop_first(), range, strict);
                match loop_frontier(a1, f.drop_first(), range, strict) {
                    Ok(a2) => {
                        lemma_extends_trans(a2, a1, a);
                        if strict {
                            assert forall|k: int, j: int|
                                0 <= k < f.len() && 0 <= j < range.len() implies a2.nodes[
                                #[trigger] f[k]
                            ].children[#[trigger] range[j]] == Some(f[k]) by {
                                if k == 0 {
                                    assert(a1.nodes[f[0]].children[range[j]] == Some(f[0]));
                                    assert(a2.nodes[f[0]].children[range[j]] == Some(f[0]));
                                } else {
                                    assert(f.drop_first()[k - 1] == f[k]);
                                }
                            }
                        }
                    },
                    Err((ae, p)) => {
                        lemma_extends_trans(ae, a1, a);
                    },
                }
            },
            Err(_) => {},
        }
    }
}

/// Compiling atoms: well-formed monotone growth of the automaton, and a
/// valid final frontier.
pub proof fn lemma_compile_atoms(a: Automaton, f: Seq<int>, atoms: Seq<SpecAtom>, strict: bool)
    requires
        aut_wf(a),
        frontier_ok(a, f),
        forall|i: int| 0 <= i < atoms.len() ==> range_ok(a, (#[trigger] atoms[i]).range),
    ensures
        ({
            match compile_atoms(a, f, atoms, strict) {
                CompileOutcome::Done { aut, frontier } => {
                    &&& aut_wf(aut)
                    &&& aut_extends(aut, a)
                    &&& aut.nvals == a.nvals
                    &&& frontier_ok(aut, frontier)
                },
                CompileOutcome::Conflict { aut, pos } => {
                    &&& aut_wf(aut)
                    &&& aut_extends(aut, a)
                    &&& aut.nvals == a.nvals
                    &&& 0 <= pos < a.alphabet.len()
                },
            }
        }),
    decreases atoms.len(),
{
    if atoms.len() > 0 {
        assert(range_ok(a, atoms[0].range));
        let (a1, f1) = extend_frontier(a, f, atoms[0].range);
        lemma_extend_frontier(a, f, atoms[0].range);
        assert(forall|i: int|
            0 <= i < atoms.drop_first().len() ==> range_ok(
                a1,
                (#[trigger] atoms.drop_first()[i]).range,
            ));
        if atoms[0].plus {
            lemma_loop_frontier(a1, f1, atoms[0].range, strict);
            match loop_frontier(a1, f1, atoms[0].range, strict) {
                Ok(a2) => {
                    lemma_compile_atoms(a2, f1, atoms.drop_first(), strict);
                    match compile_atoms(a2, f1, atoms.drop_first(), strict) {
                        CompileOutcome::Done { aut, frontier } => {
                            lemma_extends_trans(a2, a1, a);
                            lemma_extends_trans(aut, a2, a);
                        },
                        CompileOutcome::Conflict { aut, pos } => {
                            lemma_extends_trans(a2, a1, a);
                            lemma_extends_trans(aut, a2, a);
                        },
                    }
                },
                Err((ae, p)) => {
                    lemma_extends_trans(ae, a1, a);
                },
            }
        } else {
            lemma_compile_atoms(a1, f1, atoms.drop_first(), strict);
            match compile_atoms(a1, f1, atoms.drop_first(), strict) {
                CompileOutcome::Done { aut, frontier } => {
                    lemma_extends_trans(aut, a1, a);
                },
                CompileOutcome::Conflict { aut, pos } => {
                    lemma_extends_trans(aut, a1, a);
                },
            }
        }
    }
}

/// Installing a value index on a frontier: nodes and links unchanged,
/// values set exactly on the frontier.
pub proof fn lemma_set_values(a: Automaton, f: Seq<int>, vi: int)
    requires
        frontier_ok(a, f),
    ensures
        ({
            let a1 = set_values(a, f, vi);
            &&& a1.alphabet == a.alphabet
            &&& a1.nvals == a.nvals
            &&& a1.nodes.len() == a.nodes.len()
            &&& forall|n: int|
                0 <= n < a.nodes.len() ==> (#[trigger] a1.nodes[n]).children == a.nodes[n].children
            &&& forall|n: int|
                0 <= n < a.nodes.len() ==> (#[trigger] a1.nodes[n]).value == (if f.contains(n) {
                    Some(vi)
                } else {
                    a.nodes[n].value
                })
        }),
    decreases f.len(),
{
    if f.len() > 0 {
        let au = upd_value(a, f[0], vi);
        assert(frontier_ok(au, f.drop_first()));
        lemma_set_values(au, f.drop_first(), vi);
        let a1 = set_values(au, f.drop_first(), vi);
        assert forall|n: int|
            0 <= n < a.nodes.len() implies (#[trigger] a1.nodes[n]).value == (if f.contains(n) {
            Some(vi)
        } else {
            a.nodes[n].value
        }) by {
            if f.contains(n) {
                if n == f[0] {
                    if !f.drop_first().contains(n) {
                        assert(au.nodes[n].value == Some(vi));
                    }
                } else {
                    let k = choose|k: int| 0 <= k < f.len() && #[trigger] f[k] == n;
                    assert(f.drop_first()[k - 1] == n);
                    assert(f.drop_first().contains(n));
                }
            } else {
                assert(n != f[0]);
                assert(!f.drop_first().contains(n)) by {
                    if f.drop_first().contains(n) {
                        let k = choose|k: int|
                            0 <= k < f.drop_first().len() && #[trigger] f.drop_first()[k] == n;
                        assert(f[k + 1] == n);
                    }
                }
            }
        }
    }
}


/// Every position in a parsed class lies inside the alphabet, provided the
/// accumulator's do.
pub proof fn lemma_parse_class_ranges(alpha: Seq<u8>, p: Seq<u8>, acc: Seq<int>)
    requires
        forall|j: int| 0 <= j < acc.len() ==> 0 <= #[trigger] acc[j] < alpha.len(),
    ensures
        parse_class(alpha, p, acc) matches ClassOutcome::Class(r, rest) ==> forall|j: int|
            0 <= j < r.len() ==> 0 <= #[trigger] r[j] < alpha.len(),
    decreases p.len(),
{
    if p.len() > 0 && p[0] != CLOSE_BRACKET {
        match pos_of(alpha, p[0]) {
            None => {},
            Some(q) => {
                lemma_pos_of(alpha, p[0]);
                let acc2 = if acc.contains(q) {
                    acc
                } else {
                    acc.push(q)
                };
                assert(forall|j: int| 0 <= j < acc2.len() ==> 0 <= #[trigger] acc2[j] < alpha.len());
                lemma_parse_class_ranges(alpha, p.drop_first(), acc2);
            },
        }
    }
}

/// Every position in every atom of a parsed pattern lies inside the
/// alphabet.
pub proof fn lemma_parse_pat_ranges(alpha: Seq<u8>, p: Seq<u8>)
    ensures
        parse_pat(alpha, p) matches ParseOutcome::Parsed(atoms) ==> forall|i: int, j: int|
            0 <= i < atoms.len() && 0 <= j < (#[trigger] atoms[i]).range.len() ==> 0 <= #[trigger] atoms[i].range[j] < alpha.len(),
    decreases p.len(), 0int,
{
    if p.len() == 0 {
    } else if p[0] == OPEN_BRACKET {
        lemma_parse_class_len(alpha, p.drop_first(), Seq::empty());
        lemma_parse_class_ranges(alpha, p.drop_first(), Seq::empty());
        match parse_class(alpha, p.drop_first(), Seq::empty()) {
            ClassOutcome::Class(range, rest) => {
                lemma_parse_tail_ranges(alpha, range, rest);
            },
            _ => {},
        }
    } else {
        match pos_of(alpha, p[0]) {
            None => {},
            Some(q) => {
                lemma_pos_of(alpha, p[0]);
                lemma_parse_tail_ranges(alpha, seq![q], p.drop_first());
            },
        }
    }
}

/// Helper for [`lemma_parse_pat_ranges`], covering the optional `+` and the
/// remaining atoms.
pub proof fn lemma_parse_tail_ranges(alpha: Seq<u8>, range: Seq<int>, rest: Seq<u8>)
    requires
        forall|j: int| 0 <= j < range.len() ==> 0 <= #[trigger] range[j] < alpha.len(),
    ensures
        parse_tail(alpha, range, rest) matches ParseOutcome::Parsed(atoms) ==> forall|i: int, j: int|
            0 <= i < atoms.len() && 0 <= j < (#[trigger] atoms[i]).range.len() ==> 0 <= #[trigger] atoms[i].range[j] < alpha.len(),
    decreases rest.len(), 1int,
{
    let plus = rest.len() > 0 && rest[0] == PLUS_BYTE;
    let rest2 = if plus {
        rest.drop_first()
    } else {
        rest
    };
    lemma_parse_pat_ranges(alpha, rest2);
    match parse_pat(alpha, rest2) {
        ParseOutcome::Parsed(atoms) => {
            let head = SpecAtom { range, plus };
            let whole = seq![head] + atoms;
            assert forall|i: int, j: int|
                0 <= i < whole.len() && 0 <= j < (#[trigger] whole[i]).range.len() implies 0 <= #[trigger] whole[i].range[j] < alpha.len() by {
                if i == 0 {
                    assert(whole[0] == head);
                } else {
                    assert(whole[i] == atoms[i - 1]);
                }
            }
        },
        _ => {},
    }
}


/// When no frontier node is marked taken, none carries a value.
pub proof fn lemma_first_taken_none(a: Automaton, f: Seq<int>)
    ensures
        first_taken(a, f) is None ==> forall|k: int|
            0 <= k < f.len() ==> (#[trigger] a.nodes[f[k]].value) is None,
    decreases f.len(),
{
    if f.len() > 0 && a.nodes[f[0]].value is None {
        lemma_first_taken_none(a, f.drop_first());
        if first_taken(a, f.drop_first()) is None {
            assert forall|k: int|
                0 <= k < f.len() implies (#[trigger] a.nodes[f[k]].value) is None by {
                if k > 0 {
                    assert(f.drop_first()[k - 1] == f[k]);
                }
            }
        }
    }
}


/// A token found by a scanning attempt lies between the attempt's lower
/// bound and the end of the input.
pub proof fn lemma_scan_from_bounds(
    a: Automaton,
    s: Seq<u8>,
    node: int,
    p: int,
    best: Option<(int, int)>,
    lo: int,
)
    requires
        0 <= lo <= p <= s.len(),
        best matches Some((e, vi)) ==> lo <= e < p,
    ensures
        (scan_from(a, s, node, p, best) matches ScanOutcome::Token { end, vi } ==> lo <= end
            < s.len()),
    decreases s.len() - p,
{
    if p < s.len() {
        match pos_of(a.alphabet, s[p]) {
            None => {},
            Some(q) => {
                match a.nodes[node].children[q] {
                    None => {},
                    Some(c) => {
                        lemma_scan_from_bounds(
                            a,
                            s,
                            c,
                            p + 1,
                            match a.nodes[c].value {
                                Some(vi) => Some((p, vi)),
                                None => best,
                            },
                            lo,
                        );
                    },
                }
            },
        }
    }
}

/// Scans the whole input from `start`: the bounds (inclusive) of each
/// token in order, or `None` when any attempt fails.
pub open spec fn scan_seq(a: Automaton, s: Seq<u8>, start: int) -> Option<Seq<(int, int)>>
    decreases s.len() - start,
    when 0 <= start
    via scan_seq_decreases
{
    if start >= s.len() {
        Some(Seq::empty())
    } else {
        match scan_token(a, s, start) {
            ScanOutcome::Token { end, vi } => match scan_seq(a, s, end + 1) {
                Some(rest) => Some(seq![(start, end)] + rest),
                None => None,
            },
            _ => None,
        }
    }
}

#[via_fn]
proof fn scan_seq_decreases(a: Automaton, s: Seq<u8>, start: int) {
    if 0 <= start < s.len() {
        lemma_scan_from_bounds(a, s, 0, start, None, start);
    }
}

/// The concatenation of the input slices named by token bounds.
pub open spec fn tokens_concat(s: Seq<u8>, toks: Seq<(int, int)>) -> Seq<u8>
    decreases toks.len(),
{
    if toks.len() == 0 {
        Seq::empty()
    } else {
        s.subrange(toks[0].0, toks[0].1 + 1) + tokens_concat(s, toks.drop_first())
    }
}


/// The permissive policy never reports a conflict when looping one node.
pub proof fn lemma_loop_range_permissive(a: Automaton, n: int, range: Seq<int>)
    ensures
        loop_range(a, n, range, false) is Ok,
    decreases range.len(),
{
    if range.len() > 0 {
        let p = range[0];
        if a.nodes[n].children[p] is None {
            lemma_loop_range_permissive(upd_child(a, n, p, n), n, range.drop_first());
        } else {
            lemma_loop_range_permissive(a, n, range.drop_first());
        }
    }
}

/// The permissive policy never reports a conflict when looping a frontier.
pub proof fn lemma_loop_frontier_permissive(a: Automaton, f: Seq<int>, range: Seq<int>)
    ensures
        loop_frontier(a, f, range, false) is Ok,
    decreases f.len(),
{
    if f.len() > 0 {
        lemma_loop_range_permissive(a, f[0], range);
        match loop_range(a, f[0], range, false) {
            Ok(a1) => {
                lemma_loop_frontier_permissive(a1, f.drop_first(), range);
            },
            Err(_) => {},
        }
    }
}

} // verus!
