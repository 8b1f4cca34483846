//! The text reader: splits raw text into lines and the lines into
//! blank-line-delimited blocks of non-empty lines.

use vstd::prelude::*;

use crate::strings::{
    lemma_split_concat, sp_find,
    sp_free, sp_trim, split_once_str, trim,
};

verus! {

/// A line with one trailing carriage return removed.
pub open spec fn sp_strip_cr(s: Seq<char>) -> Seq<char> {
    if s.len() > 0 && s.last() == '\r' {
        s.drop_last()
    } else {
        s
    }
}

/// The lines of `s`: pieces between `'\n'` characters, each with a
/// trailing `'\r'` removed, and no phantom empty line after a final
/// newline.
pub open spec fn sp_lines(s: Seq<char>) -> Seq<Seq<char>>
    decreases s.len(),
    when true
    via sp_lines_decreases
{
    if s.len() == 0 {
        seq![]
    } else {
        match sp_find(s, seq!['\n']) {
            None => seq![sp_strip_cr(s)],
            Some(i) => seq![sp_strip_cr(s.subrange(0, i))] + sp_lines(
                s.subrange(i + 1, s.len() as int),
            ),
        }
    }
}

#[via_fn]
proof fn sp_lines_decreases(s: Seq<char>) {
    crate::strings::lemma_find_spec(s, seq!['\n']);
}

/// The lines joined back into text, one `'\n'` after each line.
pub open spec fn sp_unlines(lines: Seq<Seq<char>>) -> Seq<char>
    decreases lines.len(),
{
    if lines.len() == 0 {
        Seq::empty()
    } else {
        lines[0] + seq!['\n'] + sp_unlines(lines.skip(1))
    }
}

/// A line fit for `sp_unlines`: it holds no newline and does not end in
/// a carriage return.
pub open spec fn sp_plain_line(l: Seq<char>) -> bool {
    sp_free(l, seq!['\n']) && (l.len() == 0 || l.last() != '\r')
}

/// Splitting joined plain lines recovers them exactly.
pub proof fn lemma_lines_unlines(lines: Seq<Seq<char>>)
    requires
        forall|i: int| 0 <= i < lines.len() ==> sp_plain_line(#[trigger] lines[i]),
    ensures
        sp_lines(sp_unlines(lines)) == lines,
    decreases lines.len(),
{
    let nl = seq!['\n'];
    if lines.len() == 0 {
    } else {
        let l0 = lines[0];
        let rest = sp_unlines(lines.skip(1));
        let s = l0 + nl + rest;
        assert(crate::strings::sp_clean_prefix(l0, nl)) by {
            assert forall|i: int| 0 <= i < l0.len() implies !crate::strings::sp_occurs_at(
                l0 + nl,
                nl,
                i,
            ) by {
                if crate::strings::sp_occurs_at(l0 + nl, nl, i) {
                    assert((l0 + nl).subrange(i, i + 1)[0] == (l0 + nl)[i]);
                    assert((l0 + nl)[i] == l0[i]);
                    assert(crate::strings::sp_occurs_at(l0, nl, i)) by {
                        assert(l0.subrange(i, i + 1) =~= nl);
                    }
                }
            }
        }
        lemma_split_concat(l0, nl, rest);
        assert(s.len() > 0);
        assert(sp_find(s, nl) == Some(l0.len() as int));
        assert(s.subrange(0, l0.len() as int) =~= l0);
        assert(s.subrange(l0.len() + 1 as int, s.len() as int) =~= rest);
        assert(sp_strip_cr(l0) == l0);
        lemma_lines_unlines(lines.skip(1));
        assert(sp_lines(s) =~= seq![l0] + lines.skip(1));
        assert(seq![l0] + lines.skip(1) =~= lines);
    }
}

/// Joining distributes over concatenation of line runs.
pub proof fn lemma_unlines_concat(a: Seq<Seq<char>>, b: Seq<Seq<char>>)
    ensures
        sp_unlines(a + b) == sp_unlines(a) + sp_unlines(b),
    decreases a.len(),
{
    if a.len() == 0 {
        assert(a + b =~= b);
        assert(sp_unlines(a) =~= Seq::<char>::empty());
        assert(sp_unlines(a) + sp_unlines(b) =~= sp_unlines(b));
    } else {
        lemma_unlines_concat(a.skip(1), b);
        assert((a + b).len() > 0);
        assert((a + b)[0] == a[0]);
        assert((a + b).skip(1) =~= a.skip(1) + b);
        assert(a[0] + seq!['\n'] + (sp_unlines(a.skip(1)) + sp_unlines(b)) =~= (a[0]
            + seq!['\n'] + sp_unlines(a.skip(1))) + sp_unlines(b));
    }
}

/// Joining one more line appends it with its newline.
pub proof fn lemma_unlines_push(lines: Seq<Seq<char>>, i: int)
    requires
        0 <= i < lines.len(),
    ensures
        sp_unlines(lines.take(i + 1)) == sp_unlines(lines.take(i)) + lines[i] + seq!['\n'],
{
    assert(lines.take(i + 1) =~= lines.take(i) + seq![lines[i]]);
    lemma_unlines_concat(lines.take(i), seq![lines[i]]);
    assert(sp_unlines(seq![lines[i]]) =~= lines[i] + seq!['\n']) by {
        assert(seq![lines[i]].skip(1) =~= Seq::<Seq<char>>::empty());
        assert(sp_unlines(Seq::<Seq<char>>::empty()) == Seq::<char>::empty());
        assert(sp_unlines(seq![lines[i]]) == seq![lines[i]][0] + seq!['\n'] + sp_unlines(
            seq![lines[i]].skip(1),
        ));
        assert(lines[i] + seq!['\n'] + Seq::<char>::empty() =~= lines[i] + seq!['\n']);
    }
    assert(sp_unlines(lines.take(i)) + (lines[i] + seq!['\n']) =~= sp_unlines(lines.take(i))
        + lines[i] + seq!['\n']);
}

/// Splits text into its lines.
pub fn split_lines(s: &str) -> (r: Vec<String>)
    ensures
        r.deep_view() == sp_lines(s@),
{
    let mut out: Vec<String> = Vec::new();
    let mut rest: &str = s;
    let ghost full = s@;
    loop
        invariant
            full == s@,
            sp_lines(full) == out.deep_view() + sp_lines(rest@),
        decreases rest@.len(),
    {
        if rest.unicode_len() == 0 {
            proof {
                assert(sp_lines(rest@) =~= Seq::<Seq<char>>::empty());
                assert(out.deep_view() + sp_lines(rest@) =~= out.deep_view());
            }
            return out;
        }
        let ghost prev = out.deep_view();
        match split_once_str(rest, "\n") {
            Some((a, b)) => {
                proof {
                    reveal_strlit("\n");
                    crate::strings::lemma_find_spec(rest@, "\n"@);
                    assert("\n"@ =~= seq!['\n']);
                }
                let line = strip_cr(a);
                out.push(String::from_str(line));
                proof {
                    assert(out.deep_view() =~= prev.push(line@));
                    assert(sp_lines(rest@) == seq![sp_strip_cr(a@)] + sp_lines(b@));
                    assert(prev + (seq![sp_strip_cr(a@)] + sp_lines(b@)) =~= prev.push(
                        sp_strip_cr(a@),
                    ) + sp_lines(b@));
                }
                rest = b;
            },
            None => {
                proof {
                    reveal_strlit("\n");
                    assert("\n"@ =~= seq!['\n']);
                }
                let line = strip_cr(rest);
                out.push(String::from_str(line));
                proof {
                    assert(out.deep_view() =~= prev.push(line@));
                    assert(sp_lines(rest@) == seq![sp_strip_cr(rest@)]);
                    assert(prev + seq![sp_strip_cr(rest@)] =~= prev.push(sp_strip_cr(rest@)));
                }
                return out;
            },
        }
    }
}

/// Removes one trailing carriage return, if present.
fn strip_cr(s: &str) -> (r: &str)
    ensures
        r@ == sp_strip_cr(s@),
{
    let n = s.unicode_len();
    if n > 0 && s.get_char(n - 1) == '\r' {
        let r = s.substring_char(0, n - 1);
        proof {
            assert(s@.subrange(0, n - 1 as int) =~= s@.drop_last());
        }
        r
    } else {
        s
    }
}

/// A line as the reader stores it: trimmed when trimming is on.
pub open spec fn sp_proc(l: Seq<char>, t: bool) -> Seq<char> {
    if t {
        sp_trim(l)
    } else {
        l
    }
}

/// A line the reader treats as blank.
pub open spec fn sp_blank(l: Seq<char>, t: bool) -> bool {
    sp_proc(l, t).len() == 0
}

/// One step of block extraction: the next block (if any) and the lines
/// that remain after it, the delimiting blank line consumed.
pub open spec fn sp_next_block(lines: Seq<Seq<char>>, t: bool) -> (Option<Seq<Seq<char>>>, Seq<
    Seq<char>,
>)
    decreases lines.len(),
{
    if lines.len() == 0 {
        (None, lines)
    } else if sp_blank(lines[0], t) {
        sp_next_block(lines.skip(1), t)
    } else {
        let (b, r) = sp_collect_block(lines, t);
        (Some(b), r)
    }
}

/// Collects the leading non-blank lines as a block; the first blank line
/// (if any) is consumed.
pub open spec fn sp_collect_block(lines: Seq<Seq<char>>, t: bool) -> (Seq<Seq<char>>, Seq<
    Seq<char>,
>)
    decreases lines.len(),
{
    if lines.len() == 0 {
        (seq![], lines)
    } else if sp_blank(lines[0], t) {
        (seq![], lines.skip(1))
    } else {
        let (rest_block, rest) = sp_collect_block(lines.skip(1), t);
        (seq![sp_proc(lines[0], t)] + rest_block, rest)
    }
}

/// The lines of one block, as the reader stores them.
pub open spec fn sp_proc_lines(lines: Seq<Seq<char>>, t: bool) -> Seq<Seq<char>> {
    lines.map_values(|l: Seq<char>| sp_proc(l, t))
}

/// Collecting a run of non-blank lines closed by one blank line yields
/// exactly that run, with the rest following the blank line.
pub proof fn lemma_collect_chunk(blk: Seq<Seq<char>>, rest: Seq<Seq<char>>, t: bool)
    requires
        forall|i: int| 0 <= i < blk.len() ==> !sp_blank(#[trigger] blk[i], t),
    ensures
        sp_collect_block(blk + seq![Seq::<char>::empty()] + rest, t) == (
            sp_proc_lines(blk, t),
            rest,
        ),
    decreases blk.len(),
{
    let s = blk + seq![Seq::<char>::empty()] + rest;
    if blk.len() == 0 {
        assert(s[0] =~= Seq::<char>::empty());
        assert(sp_blank(s[0], t));
        assert(s.skip(1) =~= rest);
        assert(sp_proc_lines(blk, t) =~= Seq::<Seq<char>>::empty());
    } else {
        assert(s[0] == blk[0]);
        assert(!sp_blank(s[0], t));
        assert(s.skip(1) =~= blk.skip(1) + seq![Seq::<char>::empty()] + rest);
        lemma_collect_chunk(blk.skip(1), rest, t);
        assert(seq![sp_proc(blk[0], t)] + sp_proc_lines(blk.skip(1), t) =~= sp_proc_lines(
            blk,
            t,
        ));
    }
}

/// Collecting a run of non-blank lines that ends the input yields the
/// run with nothing left.
pub proof fn lemma_collect_all(blk: Seq<Seq<char>>, t: bool)
    requires
        forall|i: int| 0 <= i < blk.len() ==> !sp_blank(#[trigger] blk[i], t),
    ensures
        sp_collect_block(blk, t) == (sp_proc_lines(blk, t), Seq::<Seq<char>>::empty()),
    decreases blk.len(),
{
    if blk.len() == 0 {
        assert(sp_proc_lines(blk, t) =~= Seq::<Seq<char>>::empty());
        assert(blk =~= Seq::<Seq<char>>::empty());
    } else {
        lemma_collect_all(blk.skip(1), t);
        assert(seq![sp_proc(blk[0], t)] + sp_proc_lines(blk.skip(1), t) =~= sp_proc_lines(
            blk,
            t,
        ));
    }
}

/// The next block of a chunked line stream is the first chunk.
pub proof fn lemma_next_block_chunk(blk: Seq<Seq<char>>, rest: Seq<Seq<char>>, t: bool)
    requires
        blk.len() > 0,
        forall|i: int| 0 <= i < blk.len() ==> !sp_blank(#[trigger] blk[i], t),
    ensures
        sp_next_block(blk + seq![Seq::<char>::empty()] + rest, t) == (
            Some(sp_proc_lines(blk, t)),
            rest,
        ),
{
    let s = blk + seq![Seq::<char>::empty()] + rest;
    assert(s[0] == blk[0]);
    lemma_collect_chunk(blk, rest, t);
}

/// The next block of a line stream that is one run of non-blank lines
/// is that run, with nothing left.
pub proof fn lemma_next_block_last(blk: Seq<Seq<char>>, t: bool)
    requires
        blk.len() > 0,
        forall|i: int| 0 <= i < blk.len() ==> !sp_blank(#[trigger] blk[i], t),
    ensures
        sp_next_block(blk, t) == (Some(sp_proc_lines(blk, t)), Seq::<Seq<char>>::empty()),
{
    assert(!sp_blank(blk[0], t));
    lemma_collect_all(blk, t);
}

/// Splits a stream of lines into blocks of non-empty (trimmed) lines.
pub struct Reader {
    /// All lines of the underlying text.
    pub lines: Vec<String>,
    /// How many lines have been consumed so far.
    pub pos: usize,
    /// Whether lines are trimmed before blank detection and storage.
    pub should_trim: bool,
}

impl Reader {
    /// The lines not yet consumed.
    pub open spec fn remaining(&self) -> Seq<Seq<char>> {
        self.lines.deep_view().skip(self.pos as int)
    }

    /// The reader's position is within its line list.
    pub open spec fn wf(&self) -> bool {
        self.pos <= self.lines.len()
    }

    /// A reader over the lines of `text`.
    pub fn new(text: &str, should_trim: bool) -> (r: Reader)
        ensures
            r.wf(),
            r.remaining() == sp_lines(text@),
            r.should_trim == should_trim,
    {
        let lines = split_lines(text);
        proof {
            assert(lines.deep_view().skip(0) =~= lines.deep_view());
        }
        Reader { lines, pos: 0, should_trim }
    }

    /// Returns the next block of non-blank lines, or `None` once no
    /// non-blank content remains; skips blank lines before the block and
    /// consumes the blank line that ends it.
    pub fn next_block(&mut self) -> (r: Option<Vec<String>>)
        requires
            old(self).wf(),
        ensures
            final(self).wf(),
            final(self).should_trim == old(self).should_trim,
            match r {
                Some(blk) => sp_next_block(old(self).remaining(), old(self).should_trim) == (
                    Some(blk.deep_view()),
                    final(self).remaining(),
                ) && blk.len() > 0,
                None => sp_next_block(old(self).remaining(), old(self).should_trim) == (
                    None::<Seq<Seq<char>>>,
                    final(self).remaining(),
                ) && final(self).remaining().len() == 0,
            },
    {
        let n = self.lines.len();
        // Skip leading blank lines.
        while self.pos < n && self.line_blank(self.pos)
            invariant
                self.wf(),
                n == self.lines.len(),
                self.lines == old(self).lines,
                self.should_trim == old(self).should_trim,
                sp_next_block(old(self).remaining(), self.should_trim) == sp_next_block(
                    self.remaining(),
                    self.should_trim,
                ),
            decreases n - self.pos,
        {
            proof {
                assert(self.remaining().skip(1) =~= self.lines.deep_view().skip(
                    self.pos + 1 as int,
                ));
            }
            self.pos = self.pos + 1;
        }
        if self.pos == n {
            proof {
                assert(self.remaining().len() == 0);
            }
            return None;
        }
        // Collect the block.
        let mut block: Vec<String> = Vec::new();
        let ghost entry = self.remaining();
        proof {
            assert(entry.len() > 0);
            assert(!sp_blank(entry[0], self.should_trim));
        }
        while self.pos < n && !self.line_blank(self.pos)
            invariant
                self.wf(),
                n == self.lines.len(),
                self.lines == old(self).lines,
                self.should_trim == old(self).should_trim,
                entry.len() > 0 && !sp_blank(entry[0], self.should_trim),
                block.len() == 0 ==> self.remaining() == entry,
                sp_collect_block(entry, self.should_trim).0 == block.deep_view()
                    + sp_collect_block(self.remaining(), self.should_trim).0,
                sp_collect_block(entry, self.should_trim).1 == sp_collect_block(
                    self.remaining(),
                    self.should_trim,
                ).1,
            decreases n - self.pos,
        {
            let ghost prev = block.deep_view();
            let line = self.read_line(self.pos);
            block.push(line);
            proof {
                assert(block.deep_view() =~= prev.push(sp_proc(
                    self.lines.deep_view()[self.pos as int],
                    self.should_trim,
                )));
                assert(self.remaining()[0] == self.lines.deep_view()[self.pos as int]);
                assert(self.remaining().skip(1) =~= self.lines.deep_view().skip(
                    self.pos + 1 as int,
                ));
                let b2 = sp_collect_block(self.remaining().skip(1), self.should_trim).0;
                assert(sp_collect_block(self.remaining(), self.should_trim).0 == seq![sp_proc(
                    self.remaining()[0],
                    self.should_trim,
                )] + b2);
                assert(prev + (seq![sp_proc(self.remaining()[0], self.should_trim)] + b2)
                    =~= prev.push(sp_proc(self.remaining()[0], self.should_trim)) + b2);
            }
            self.pos = self.pos + 1;
        }
        proof {
            let t = self.should_trim;
            if self.pos < n {
                assert(sp_blank(self.remaining()[0], t));
                assert(sp_collect_block(self.remaining(), t).0 =~= Seq::<Seq<char>>::empty());
                assert(sp_collect_block(self.remaining(), t).1 =~= self.lines.deep_view().skip(
                    self.pos + 1 as int,
                ));
            } else {
                assert(self.remaining().len() == 0);
                assert(sp_collect_block(self.remaining(), t).0 =~= Seq::<Seq<char>>::empty());
            }
            assert(block.deep_view() + Seq::<Seq<char>>::empty() =~= block.deep_view());
            if block.len() == 0 {
                assert(self.remaining() == entry);
                assert(false);
            }
        }
        if self.pos < n {
            self.pos = self.pos + 1;
        }
        Some(block)
    }

    /// Whether the stored line at `i` is blank under the trim mode.
    fn line_blank(&self, i: usize) -> (r: bool)
        requires
            i < self.lines.len(),
        ensures
            r == sp_blank(self.lines.deep_view()[i as int], self.should_trim),
    {
        let line: &str = self.lines[i].as_str();
        if self.should_trim {
            let t = trim(line);
            t.unicode_len() == 0
        } else {
            line.unicode_len() == 0
        }
    }

    /// The stored line at `i`, trimmed when trimming is on.
    fn read_line(&self, i: usize) -> (r: String)
        requires
            i < self.lines.len(),
        ensures
            r@ == sp_proc(self.lines.deep_view()[i as int], self.should_trim),
    {
        let line: &str = self.lines[i].as_str();
        if self.should_trim {
            String::from_str(trim(line))
        } else {
            String::from_str(line)
        }
    }
}

} // verus!
