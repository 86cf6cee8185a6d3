//! The pattern-file scanner: extracts whitespace-separated pattern tokens
//! from the `\patterns{ ... }` block of a TeX pattern file, skipping `%`
//! line comments.

use vstd::prelude::*;

verus! {

/// ASCII whitespace, as the token separator of a pattern file.
pub open spec fn is_space(b: u8) -> bool {
    b == 32 || b == 9 || b == 10 || b == 13 || b == 11 || b == 12
}

/// A byte that may stand inside a pattern token: anything but a closing
/// brace, a comment sign or whitespace.
pub open spec fn token_byte(b: u8) -> bool {
    b != 125 && b != 37 && !is_space(b)
}

/// The byte classes the scanner consumes runs of.
#[derive(Clone, Copy, PartialEq, Eq, Structural)]
pub enum ByteClass {
    /// Anything but a line feed: the rest of a comment line.
    NotNewline,
    /// A byte that may stand inside a pattern token.
    TokenByte,
    /// ASCII whitespace.
    Whitespace,
}

pub open spec fn class_holds(c: ByteClass, b: u8) -> bool {
    match c {
        ByteClass::NotNewline => b != 10,
        ByteClass::TokenByte => token_byte(b),
        ByteClass::Whitespace => is_space(b),
    }
}

fn class_test(c: ByteClass, b: u8) -> (r: bool)
    ensures
        r == class_holds(c, b),
{
    match c {
        ByteClass::NotNewline => b != 10,
        ByteClass::TokenByte => b != 125 && b != 37 && !(b == 32 || b == 9 || b == 10 || b == 13
            || b == 11 || b == 12),
        ByteClass::Whitespace => b == 32 || b == 9 || b == 10 || b == 13 || b == 11 || b == 12,
    }
}

/// A cursor over the bytes of a pattern file.
pub struct Scanner<'a> {
    s: &'a [u8],
    pos: usize,
}

impl<'a> Scanner<'a> {
    pub closed spec fn bytes(&self) -> Seq<u8> {
        self.s@
    }

    pub closed spec fn at(&self) -> int {
        self.pos as int
    }

    pub open spec fn wf(&self) -> bool {
        0 <= self.at() <= self.bytes().len()
    }

    pub fn new(s: &'a [u8]) -> (r: Self)
        ensures
            r.bytes() == s@,
            r.at() == 0,
            r.wf(),
    {
        Scanner { s, pos: 0 }
    }

    /// Consume and return the next byte, if any.
    pub fn eat(&mut self) -> (r: Option<u8>)
        requires
            old(self).wf(),
        ensures
            final(self).wf(),
            final(self).bytes() == old(self).bytes(),
            match r {
                Some(b) => old(self).at() < old(self).bytes().len() && b == old(self).bytes()[old(
                    self,
                ).at()] && final(self).at() == old(self).at() + 1,
                None => old(self).at() == old(self).bytes().len() && final(self).at() == old(
                    self,
                ).at(),
            },
    {
        if self.pos < self.s.len() {
            let b = self.s[self.pos];
            self.pos = self.pos + 1;
            Some(b)
        } else {
            None
        }
    }

    /// Consume `pat` if the input continues with exactly it.
    pub fn eat_if(&mut self, pat: &Vec<u8>) -> (r: bool)
        requires
            old(self).wf(),
        ensures
            final(self).wf(),
            final(self).bytes() == old(self).bytes(),
            r == (old(self).at() + pat@.len() <= old(self).bytes().len() && old(
                self,
            ).bytes().subrange(old(self).at(), old(self).at() + pat@.len()) == pat@),
            final(self).at() == if r {
                old(self).at() + pat@.len()
            } else {
                old(self).at()
            },
    {
        let pl = pat.len();
        let sl = self.s.len();
        if pl > sl - self.pos {
            proof {
                assert(old(self).at() + pat@.len() > old(self).bytes().len());
            }
            return false;
        }
        let mut k: usize = 0;
        while k < pl
            invariant
                k <= pl,
                pl == pat@.len(),
                self.bytes() == old(self).bytes(),
                self.at() == old(self).at(),
                self.wf(),
                self.at() + pl <= self.bytes().len(),
                forall|x: int| 0 <= x < k ==> self.bytes()[self.at() + x] == pat@[x],
            decreases pl - k,
        {
            let sl2: usize = self.s.len();
            assert(self.pos + k < sl2);
            let a = self.s[self.pos + k];
            if a != pat[k] {
                proof {
                    assert(old(self).bytes().subrange(
                        old(self).at(),
                        old(self).at() + pat@.len(),
                    )[k as int] != pat@[k as int]);
                }
                return false;
            }
            k += 1;
        }
        proof {
            assert(old(self).bytes().subrange(old(self).at(), old(self).at() + pat@.len())
                =~= pat@);
        }
        self.pos = self.pos + pl;
        true
    }

    /// Consume the longest run of bytes of the class, returning it.
    pub fn eat_while(&mut self, c: ByteClass) -> (r: Vec<u8>)
        requires
            old(self).wf(),
        ensures
            final(self).wf(),
            final(self).bytes() == old(self).bytes(),
            final(self).at() == old(self).at() + r@.len(),
            r@ == old(self).bytes().subrange(old(self).at(), final(self).at()),
            forall|x: int| 0 <= x < r@.len() ==> class_holds(c, #[trigger] r@[x]),
            final(self).at() < final(self).bytes().len() ==> !class_holds(
                c,
                final(self).bytes()[final(self).at()],
            ),
    {
        let mut out: Vec<u8> = Vec::new();
        while self.pos < self.s.len() && class_test(c, self.s[self.pos])
            invariant
                self.bytes() == old(self).bytes(),
                self.wf(),
                self.at() == old(self).at() + out@.len(),
                out@ =~= old(self).bytes().subrange(old(self).at(), self.at()),
                forall|x: int| 0 <= x < out@.len() ==> class_holds(c, #[trigger] out@[x]),
            decreases self.bytes().len() - self.at(),
        {
            let b = self.s[self.pos];
            out.push(b);
            self.pos = self.pos + 1;
            proof {
                assert(out@ =~= old(self).bytes().subrange(old(self).at(), self.at()));
            }
        }
        out
    }
}

/// The shape `parse` guarantees of its output: only nonempty tokens made of
/// token bytes.
pub open spec fn tokens_ok(pats: Seq<Seq<u8>>) -> bool {
    forall|i: int|
        0 <= i < pats.len() ==> (#[trigger] pats[i]).len() > 0 && forall|j: int|
            0 <= j < pats[i].len() ==> token_byte(#[trigger] pats[i][j])
}

/// Parse a TeX pattern file, returning each whitespace-separated token of
/// its `\\patterns{ ... }` blocks, in textual order. `%` begins a line
/// comment. An unterminated block ends with the input.
pub fn parse(tex: &[u8]) -> (r: Vec<Vec<u8>>)
    ensures
        r@.map_values(|p: Vec<u8>| p@) == scan_tokens(tex@),
        tokens_ok(r@.map_values(|p: Vec<u8>| p@)),
{
    let mut out: Vec<Vec<u8>> = Vec::new();
    let mut s = Scanner::new(tex);
    let opener: Vec<u8> = vec![112, 97, 116, 116, 101, 114, 110, 115, 123];
    proof {
        assert(opener@ =~= opener_seq());
        assert(out@.map_values(|p: Vec<u8>| p@) =~= Seq::<Seq<u8>>::empty());
        assert(out@.map_values(|p: Vec<u8>| p@) + scan_outer(tex@, 0) =~= scan_tokens(tex@));
    }
    loop
        invariant_except_break
            s.bytes() == tex@,
            s.wf(),
            opener@ == opener_seq(),
            tokens_ok(out@.map_values(|p: Vec<u8>| p@)),
            out@.map_values(|p: Vec<u8>| p@) + scan_outer(tex@, s.at()) == scan_tokens(tex@),
        ensures
            out@.map_values(|p: Vec<u8>| p@) == scan_tokens(tex@),
            tokens_ok(out@.map_values(|p: Vec<u8>| p@)),
        decreases s.bytes().len() - s.at(),
    {
        let ghost p = s.at();
        match s.eat() {
            None => {
                proof {
                    assert(scan_outer(tex@, p) =~= Seq::<Seq<u8>>::empty());
                    assert(out@.map_values(|pp: Vec<u8>| pp@) =~= scan_tokens(tex@));
                }
                break;
            },
            Some(c) => {
                if c == 37 {
                    let skipped = s.eat_while(ByteClass::NotNewline);
                    proof {
                        assert forall|x: int| p + 1 <= x < s.at() implies class_holds(
                            ByteClass::NotNewline,
                            #[trigger] tex@[x],
                        ) by {
                            assert(tex@[x] == skipped@[x - (p + 1)]);
                            assert(class_holds(ByteClass::NotNewline, skipped@[x - (p + 1)]));
                        }
                        lemma_run_end_unique(tex@, p + 1, ByteClass::NotNewline, s.at());
                        assert(scan_outer(tex@, p) == scan_outer(tex@, s.at()));
                    }
                } else if c == 92 && s.eat_if(&opener) {
                    proof {
                        assert(tex@.subrange(p + 1, p + 10) == opener_seq());
                        assert(s.at() == p + 10);
                        assert(scan_outer(tex@, p) == scan_inner(tex@, p + 10));
                    }
                    let ghost at0 = s.at();
                    loop
                        invariant_except_break
                            s.bytes() == tex@,
                            s.wf(),
                            s.at() >= at0,
                            tokens_ok(out@.map_values(|pp: Vec<u8>| pp@)),
                            out@.map_values(|pp: Vec<u8>| pp@) + scan_inner(tex@, s.at())
                                == scan_tokens(tex@),
                        ensures
                            s.bytes() == tex@,
                            s.wf(),
                            s.at() >= at0,
                            tokens_ok(out@.map_values(|pp: Vec<u8>| pp@)),
                            out@.map_values(|pp: Vec<u8>| pp@) + scan_outer(tex@, s.at())
                                == scan_tokens(tex@),
                        decreases s.bytes().len() - s.at(),
                    {
                        let ghost pi = s.at();
                        let ghost out0 = out@.map_values(|pp: Vec<u8>| pp@);
                        let pat = s.eat_while(ByteClass::TokenByte);
                        let ghost e = s.at();
                        let ghost tok = tex@.subrange(pi, e);
                        let ghost rest = (if e >= tex@.len() {
                            Seq::<Seq<u8>>::empty()
                        } else if tex@[e] == 125 {
                            scan_outer(tex@, e + 1)
                        } else if tex@[e] == 37 {
                            scan_inner(tex@, run_end(tex@, e + 1, ByteClass::NotNewline))
                        } else {
                            scan_inner(tex@, run_end(tex@, e + 1, ByteClass::Whitespace))
                        });
                        proof {
                            assert forall|x: int| pi <= x < e implies class_holds(
                                ByteClass::TokenByte,
                                #[trigger] tex@[x],
                            ) by {
                                assert(tex@[x] == pat@[x - pi]);
                                assert(class_holds(ByteClass::TokenByte, pat@[x - pi]));
                            }
                            lemma_run_end_unique(tex@, pi, ByteClass::TokenByte, e);
                            assert(pat@ == tok);
                            assert(0 <= pi <= tex@.len());
                            assert(run_end(tex@, pi, ByteClass::TokenByte) == e);
                            if e < tex@.len() {
                                lemma_run_end_bounds(tex@, e + 1, ByteClass::NotNewline);
                                lemma_run_end_bounds(tex@, e + 1, ByteClass::Whitespace);
                            }
                            assert(scan_inner(tex@, pi) == if tok.len() > 0 {
                                seq![tok] + rest
                            } else {
                                rest
                            });
                        }
                        if pat.len() > 0 {
                            out.push(pat);
                            proof {
                                assert(out@.map_values(|pp: Vec<u8>| pp@) =~= out0.push(tok));
                                assert(out0.push(tok) + rest =~= out0 + (seq![tok] + rest));
                                assert(out@.map_values(|pp: Vec<u8>| pp@) + rest
                                    =~= scan_tokens(tex@));
                            }
                        } else {
                            proof {
                                assert(out@.map_values(|pp: Vec<u8>| pp@) + rest
                                    == scan_tokens(tex@));
                            }
                        }
                        match s.eat() {
                            None => {
                                proof {
                                    assert(e == tex@.len());
                                    assert(rest =~= Seq::<Seq<u8>>::empty());
                                    assert(scan_outer(tex@, s.at()) =~= Seq::<Seq<u8>>::empty());
                                    assert(out@.map_values(|pp: Vec<u8>| pp@) + scan_outer(
                                        tex@,
                                        s.at(),
                                    ) =~= scan_tokens(tex@));
                                }
                                break;
                            },
                            Some(d) => {
                                proof {
                                    assert(e < tex@.len() && d == tex@[e] && s.at() == e + 1);
                                    assert(!class_holds(ByteClass::TokenByte, tex@[e]));
                                }
                                if d == 125 {
                                    proof {
                                        assert(rest == scan_outer(tex@, e + 1));
                                    }
                                    break;
                                } else if d == 37 {
                                    let sk = s.eat_while(ByteClass::NotNewline);
                                    proof {
                                        assert forall|x: int| e + 1 <= x < s.at() implies
                                            class_holds(
                                            ByteClass::NotNewline,
                                            #[trigger] tex@[x],
                                        ) by {
                                            assert(tex@[x] == sk@[x - (e + 1)]);
                                            assert(class_holds(
                                                ByteClass::NotNewline,
                                                sk@[x - (e + 1)],
                                            ));
                                        }
                                        lemma_run_end_unique(
                                            tex@,
                                            e + 1,
                                            ByteClass::NotNewline,
                                            s.at(),
                                        );
                                        assert(rest == scan_inner(tex@, s.at()));
                                    }
                                } else {
                                    proof {
                                        assert(is_space(d));
                                    }
                                    let sk = s.eat_while(ByteClass::Whitespace);
                                    proof {
                                        assert forall|x: int| e + 1 <= x < s.at() implies
                                            class_holds(
                                            ByteClass::Whitespace,
                                            #[trigger] tex@[x],
                                        ) by {
                                            assert(tex@[x] == sk@[x - (e + 1)]);
                                            assert(class_holds(
                                                ByteClass::Whitespace,
                                                sk@[x - (e + 1)],
                                            ));
                                        }
                                        lemma_run_end_unique(
                                            tex@,
                                            e + 1,
                                            ByteClass::Whitespace,
                                            s.at(),
                                        );
                                        assert(rest == scan_inner(tex@, s.at()));
                                    }
                                }
                            },
                        }
                    }
                } else {
                    proof {
                        assert(s.at() == p + 1);
                        if tex@[p] == 92 && p + 10 <= tex@.len() && tex@.subrange(p + 1, p + 10)
                            == opener_seq() {
                            assert(tex@.subrange(p + 1, p + 1 + opener@.len() as int)
                                == opener@);
                            assert(false);
                        }
                        assert(scan_outer(tex@, p) == scan_outer(tex@, p + 1));
                    }
                }
            },
        }
    }
    out
}

/// The end of the maximal run of bytes of class `c` starting at `p`: the
/// first position at or after `p` holding a byte outside the class, or the
/// end of the input.
pub open spec fn run_end(tex: Seq<u8>, p: int, c: ByteClass) -> int
    decreases tex.len() - p,
{
    if p < 0 || p >= tex.len() {
        p
    } else if class_holds(c, tex[p]) {
        run_end(tex, p + 1, c)
    } else {
        p
    }
}

pub proof fn lemma_run_end_bounds(tex: Seq<u8>, p: int, c: ByteClass)
    requires
        0 <= p <= tex.len(),
    ensures
        p <= run_end(tex, p, c) <= tex.len(),
        forall|x: int| p <= x < run_end(tex, p, c) ==> class_holds(c, #[trigger] tex[x]),
        run_end(tex, p, c) < tex.len() ==> !class_holds(c, tex[run_end(tex, p, c)]),
    decreases tex.len() - p,
{
    if p < tex.len() && class_holds(c, tex[p]) {
        lemma_run_end_bounds(tex, p + 1, c);
    }
}

/// A maximal run is unique: any position with the run property is the one
/// `run_end` computes.
pub proof fn lemma_run_end_unique(tex: Seq<u8>, p: int, c: ByteClass, q: int)
    requires
        0 <= p <= q <= tex.len(),
        forall|x: int| p <= x < q ==> class_holds(c, #[trigger] tex[x]),
        q < tex.len() ==> !class_holds(c, tex[q]),
    ensures
        run_end(tex, p, c) == q,
    decreases q - p,
{
    if p < q {
        assert(class_holds(c, tex[p]));
        lemma_run_end_unique(tex, p + 1, c, q);
    }
}

/// The nine bytes `patterns{` that open a pattern block after a backslash.
pub open spec fn opener_seq() -> Seq<u8> {
    seq![112u8, 97u8, 116u8, 116u8, 101u8, 114u8, 110u8, 115u8, 123u8]
}

/// The tokens found from position `p` on, outside any pattern block: `%`
/// skips to the end of the line, `\patterns{` enters a block, anything else
/// is passed over.
pub open spec fn scan_outer(tex: Seq<u8>, p: int) -> Seq<Seq<u8>>
    decreases tex.len() - p, 1int,
        when 0 <= p <= tex.len()
        via scan_outer_dec
{
    if p >= tex.len() {
        Seq::empty()
    } else if tex[p] == 37 {
        scan_outer(tex, run_end(tex, p + 1, ByteClass::NotNewline))
    } else if tex[p] == 92 && p + 10 <= tex.len() && tex.subrange(p + 1, p + 10) == opener_seq() {
        scan_inner(tex, p + 10)
    } else {
        scan_outer(tex, p + 1)
    }
}

#[via_fn]
proof fn scan_outer_dec(tex: Seq<u8>, p: int) {
    if 0 <= p < tex.len() && tex[p] == 37 {
        lemma_run_end_bounds(tex, p + 1, ByteClass::NotNewline);
    }
}

/// The tokens found from position `p` on, inside a pattern block: the
/// maximal run of token bytes, if nonempty, is a token; then `}` closes the
/// block, `%` skips to the end of the line, and whitespace is skipped.
pub open spec fn scan_inner(tex: Seq<u8>, p: int) -> Seq<Seq<u8>>
    decreases tex.len() - p, 0int,
        when 0 <= p <= tex.len()
        via scan_inner_dec
{
    let e = run_end(tex, p, ByteClass::TokenByte);
    let tok = tex.subrange(p, e);
    let rest = if e >= tex.len() {
        Seq::<Seq<u8>>::empty()
    } else if tex[e] == 125 {
        scan_outer(tex, e + 1)
    } else if tex[e] == 37 {
        scan_inner(tex, run_end(tex, e + 1, ByteClass::NotNewline))
    } else {
        scan_inner(tex, run_end(tex, e + 1, ByteClass::Whitespace))
    };
    if tok.len() > 0 {
        seq![tok] + rest
    } else {
        rest
    }
}

#[via_fn]
proof fn scan_inner_dec(tex: Seq<u8>, p: int) {
    if 0 <= p <= tex.len() {
        lemma_run_end_bounds(tex, p, ByteClass::TokenByte);
        let e = run_end(tex, p, ByteClass::TokenByte);
        if e < tex.len() {
            lemma_run_end_bounds(tex, e + 1, ByteClass::NotNewline);
            lemma_run_end_bounds(tex, e + 1, ByteClass::Whitespace);
        }
    }
}

/// What scanning a whole pattern file yields: every token of its
/// `\patterns{ ... }` blocks, in textual order.
pub open spec fn scan_tokens(tex: Seq<u8>) -> Seq<Seq<u8>> {
    scan_outer(tex, 0)
}


/// Every token `scan_outer` yields from `p` on is a contiguous slice of the
/// input.
proof fn lemma_scan_outer_slices(tex: Seq<u8>, p: int, k: int)
    requires
        0 <= p <= tex.len(),
        0 <= k < scan_outer(tex, p).len(),
    ensures
        exists|lo: int, hi: int|
            0 <= lo <= hi <= tex.len() && scan_outer(tex, p)[k] == tex.subrange(lo, hi),
    decreases tex.len() - p, 1int,
{
    if p < tex.len() {
        if tex[p] == 37 {
            lemma_run_end_bounds(tex, p + 1, ByteClass::NotNewline);
            lemma_scan_outer_slices(tex, run_end(tex, p + 1, ByteClass::NotNewline), k);
        } else if tex[p] == 92 && p + 10 <= tex.len() && tex.subrange(p + 1, p + 10)
            == opener_seq() {
            lemma_scan_inner_slices(tex, p + 10, k);
        } else {
            lemma_scan_outer_slices(tex, p + 1, k);
        }
    }
}

/// Every token `scan_inner` yields from `p` on is a contiguous slice of the
/// input.
proof fn lemma_scan_inner_slices(tex: Seq<u8>, p: int, k: int)
    requires
        0 <= p <= tex.len(),
        0 <= k < scan_inner(tex, p).len(),
    ensures
        exists|lo: int, hi: int|
            0 <= lo <= hi <= tex.len() && scan_inner(tex, p)[k] == tex.subrange(lo, hi),
    decreases tex.len() - p, 0int,
{
    lemma_run_end_bounds(tex, p, ByteClass::TokenByte);
    let e = run_end(tex, p, ByteClass::TokenByte);
    let tok = tex.subrange(p, e);
    if e < tex.len() {
        lemma_run_end_bounds(tex, e + 1, ByteClass::NotNewline);
        lemma_run_end_bounds(tex, e + 1, ByteClass::Whitespace);
    }
    if tok.len() > 0 && k == 0 {
        assert(scan_inner(tex, p)[0] == tex.subrange(p, e));
        assert(0 <= p <= e <= tex.len() && scan_inner(tex, p)[0] == tex.subrange(p, e));
    } else {
        let kr = if tok.len() > 0 {
            k - 1
        } else {
            k
        };
        if e >= tex.len() {
            assert(false);
        } else if tex[e] == 125 {
            lemma_scan_outer_slices(tex, e + 1, kr);
            assert(scan_inner(tex, p)[k] == scan_outer(tex, e + 1)[kr]);
        } else if tex[e] == 37 {
            lemma_scan_inner_slices(tex, run_end(tex, e + 1, ByteClass::NotNewline), kr);
            assert(scan_inner(tex, p)[k] == scan_inner(
                tex,
                run_end(tex, e + 1, ByteClass::NotNewline),
            )[kr]);
        } else {
            lemma_scan_inner_slices(tex, run_end(tex, e + 1, ByteClass::Whitespace), kr);
            assert(scan_inner(tex, p)[k] == scan_inner(
                tex,
                run_end(tex, e + 1, ByteClass::Whitespace),
            )[kr]);
        }
    }
}

/// Every token the scan yields is a contiguous slice of the input file, so
/// every pattern `parse` hands out is one as well.
pub proof fn lemma_scan_tokens_slices(tex: Seq<u8>, k: int)
    requires
        0 <= k < scan_tokens(tex).len(),
    ensures
        exists|lo: int, hi: int|
            0 <= lo <= hi <= tex.len() && scan_tokens(tex)[k] == tex.subrange(lo, hi),
{
    lemma_scan_outer_slices(tex, 0, k);
}

} // verus!


