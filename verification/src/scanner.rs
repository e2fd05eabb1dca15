//! The maximal-munch scanner: a lazy token stream over a compiled table.

use crate::error::LexerError;
use crate::model::{bytes_of, scan_from, scan_token, ScanOutcome};
use crate::table::Table;
use vstd::prelude::*;
use vstd::string::StrSliceExecFns;

verus! {

/// Lifts the best-candidate pair to the model's integers.
pub open spec fn best_view(b: Option<(usize, usize)>) -> Option<(int, int)> {
    match b {
        Some((e, vi)) => Some((e as int, vi as int)),
        None => None,
    }
}

/// A lazy sequence of tokens over one input string, reading a compiled
/// table. Each call of [`TableIterator::next`] emits one token or one
/// error, or `None` once the input is exhausted.
pub struct TableIterator<'a, T> {
    table: &'a Table<T>,
    input: &'a str,
    index: usize,
}

impl<'a, T> TableIterator<'a, T> {
    /// The table this stream reads.
    pub closed spec fn tbl(&self) -> Table<T> {
        *self.table
    }

    /// The characters of the input string.
    pub closed spec fn input_view(&self) -> Seq<char> {
        self.input@
    }

    /// The position where the next scanning attempt starts.
    pub closed spec fn cursor(&self) -> int {
        self.index as int
    }

    /// Well-formedness: the table is well formed, the input is ASCII, and
    /// the cursor is inside the input (or just past it).
    pub open spec fn wf(&self) -> bool {
        &&& self.tbl().wf()
        &&& vstd::utf8::is_ascii_chars(self.input_view())
        &&& 0 <= self.cursor() <= self.input_view().len()
    }

    /// Emits the next token or error, or `None` once the input is
    /// exhausted. A token is the longest prefix from the cursor that
    /// reaches an accepting node, and the cursor moves past it; on an
    /// error the cursor stays.
    #[verifier::loop_isolation(false)]
    pub fn next(&mut self) -> (r: Option<Result<(&'a T, &'a str), LexerError>>)
        requires
            old(self).wf(),
        ensures
            final(self).wf(),
            final(self).tbl() == old(self).tbl(),
            final(self).input_view() == old(self).input_view(),
            ({
                let a = old(self).tbl().aut();
                let bb = bytes_of(old(self).input_view());
                let start = old(self).cursor();
                if start >= bb.len() {
                    r is None && final(self).cursor() == start
                } else {
                    match scan_token(a, bb, start) {
                        ScanOutcome::Token { end, vi } => {
                            &&& final(self).cursor() == end + 1
                            &&& match r {
                                Some(Ok((v, sub))) => *v == old(self).tbl().vals()[vi] && sub@
                                    == old(self).input_view().subrange(start, end + 1),
                                _ => false,
                            }
                        },
                        ScanOutcome::Unknown { at } => {
                            &&& final(self).cursor() == start
                            &&& match r {
                                Some(Err(LexerError::UnknownChar { char: c, position })) => c == (
                                bb[at] as char) && position as int == at,
                                _ => false,
                            }
                        },
                        ScanOutcome::NoToken => {
                            &&& final(self).cursor() == start
                            &&& match r {
                                Some(Err(LexerError::UnexpectedEnd { position })) => position as int
                                    == start,
                                _ => false,
                            }
                        },
                    }
                }
            }),
    {
        let inp: &'a str = self.input;
        let tbl: &'a Table<T> = self.table;
        let n = inp.unicode_len();
        if self.index >= n {
            return None;
        }
        let ghost a = old(self).tbl().aut();
        let ghost bb = bytes_of(old(self).input_view());
        let start = self.index;
        let mut node: usize = 0;
        let mut p: usize = start;
        let mut best: Option<(usize, usize)> = None;
        while p < n
            invariant
                *self == *old(self),
                start == old(self).cursor(),
                start < bb.len(),
                n == bb.len(),
                start <= p <= n,
                node < a.nodes.len(),
                best matches Some((e, vi)) ==> start <= e < p && vi < old(self).tbl().vals().len(),
                scan_token(a, bb, start as int) == scan_from(a, bb, node as int, p as int, best_view(best)),
            decreases n - p,
        {
            let b = inp.get_ascii(p);
            proof {
                assert(b == bb[p as int]);
            }
            match tbl.calculate_position(b) {
                Err(_) => {
                    return Some(
                        Err(LexerError::UnknownChar { char: b as char, position: p }),
                    );
                },
                Ok(pos) => {
                    match tbl.transition(node, pos) {
                        None => {
                            match best {
                                Some((e, vi)) => {
                                    let content = inp.substring_ascii(start, e + 1);
                                    self.index = e + 1;
                                    return Some(Ok((tbl.value_at(vi), content)));
                                },
                                None => {
                                    return Some(
                                        Err(LexerError::UnexpectedEnd { position: start }),
                                    );
                                },
                            }
                        },
                        Some(next_node) => {
                            match tbl.node_value(next_node) {
                                Some(vi) => {
                                    best = Some((p, vi));
                                },
                                None => {},
                            }
                            node = next_node;
                            p += 1;
                        },
                    }
                },
            }
        }
        match best {
            Some((e, vi)) => {
                let content = inp.substring_ascii(start, e + 1);
                self.index = e + 1;
                Some(Ok((tbl.value_at(vi), content)))
            },
            None => Some(Err(LexerError::UnexpectedEnd { position: start })),
        }
    }
}

impl<T> Table<T> {
    /// A maximal-munch token stream over `s`, or `InvalidString` when `s`
    /// is not ASCII. The stream borrows this table and the input.
    pub fn lexer<'a>(&'a self, s: &'a str) -> (r: Result<TableIterator<'a, T>, LexerError>)
        requires
            self.wf(),
        ensures
            match r {
                Ok(it) => {
                    &&& s.is_ascii()
                    &&& it.wf()
                    &&& it.tbl() == *self
                    &&& it.input_view() == s@
                    &&& it.cursor() == 0
                },
                Err(e) => {
                    &&& !s.is_ascii()
                    &&& match e {
                        LexerError::InvalidString(m) => m@ == s@,
                        _ => false,
                    }
                },
            },
    {
        if !s.is_ascii() {
            return Err(LexerError::InvalidString(s.to_owned()));
        }
        Ok(TableIterator { table: self, input: s, index: 0 })
    }
}

} // verus!
