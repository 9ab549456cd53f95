//! Textual application of unified-diff patches.
//!
//! A patch is parsed into hunks, and a hunk is applied to the lines of a
//! file either forward (old text to new text) or in reverse (new text back
//! to old text).  Reverse application is forward application of the swapped
//! patch, so the two directions share one engine.

use vstd::prelude::*;

verus! {

// ---------------------------------------------------------------------------
// Splitting text into lines and joining lines back into text.
// ---------------------------------------------------------------------------

/// The line contents of a vector of line vectors.
pub open spec fn lines_view(v: Vec<Vec<char>>) -> Seq<Seq<char>> {
    v@.map_values(|l: Vec<char>| l@)
}

/// The lines of `s`, split at each line feed.  A line feed terminates a
/// line; a final fragment without one is a line of its own.
pub open spec fn split_lines(s: Seq<char>) -> Seq<Seq<char>>
    decreases s.len(),
{
    if s.len() == 0 {
        Seq::empty()
    } else if s[0] == '\n' {
        seq![Seq::<char>::empty()] + split_lines(s.drop_first())
    } else {
        let rest = split_lines(s.drop_first());
        if rest.len() == 0 {
            seq![s]
        } else {
            seq![seq![s[0]] + rest[0]] + rest.drop_first()
        }
    }
}

/// Whether joining the lines of `s` back together ends with a line feed:
/// empty text stays empty, and otherwise the last character decides.
pub open spec fn ends_terminated(s: Seq<char>) -> bool {
    s.len() == 0 || s[s.len() - 1] == '\n'
}

/// The text holding the given lines, with a line feed after every line but
/// the last, and after the last exactly when `trailing` is set.
pub open spec fn join_lines(ls: Seq<Seq<char>>, trailing: bool) -> Seq<char>
    decreases ls.len(),
{
    if ls.len() == 0 {
        Seq::empty()
    } else if ls.len() == 1 {
        ls[0] + if trailing {
            seq!['\n']
        } else {
            Seq::<char>::empty()
        }
    } else {
        ls[0] + seq!['\n'] + join_lines(ls.drop_first(), trailing)
    }
}

/// Whether no character of `s` is a line feed.
pub open spec fn no_nl(s: Seq<char>) -> bool {
    forall|i: int| 0 <= i < s.len() ==> s[i] != '\n'
}

/// Nonempty text splits into at least one line.
proof fn lemma_split_len(s: Seq<char>)
    requires
        s.len() > 0,
    ensures
        split_lines(s).len() > 0,
    decreases s.len(),
{
    if s[0] == '\n' {
    } else if s.len() == 1 {
        assert(split_lines(s.drop_first()) =~= Seq::<Seq<char>>::empty());
    } else {
        lemma_split_len(s.drop_first());
    }
}

/// A line-feed-free nonempty text is one single line.
proof fn lemma_split_no_nl(s: Seq<char>)
    requires
        no_nl(s),
        s.len() > 0,
    ensures
        split_lines(s) == seq![s],
    decreases s.len(),
{
    if s.len() == 1 {
        assert(split_lines(s.drop_first()) =~= Seq::<Seq<char>>::empty());
    } else {
        lemma_split_no_nl(s.drop_first());
        let rest = split_lines(s.drop_first());
        assert(rest[0] == s.drop_first());
        assert(seq![s[0]] + rest[0] =~= s);
        assert(split_lines(s) =~= seq![s]);
    }
}

/// Splitting text that starts with one terminated line yields that line
/// followed by the split of the remainder.
proof fn lemma_split_terminated(line: Seq<char>, rest: Seq<char>)
    requires
        no_nl(line),
    ensures
        split_lines(line + seq!['\n'] + rest) == seq![line] + split_lines(rest),
    decreases line.len(),
{
    let s = line + seq!['\n'] + rest;
    if line.len() == 0 {
        assert(s[0] == '\n');
        assert(s.drop_first() =~= rest);
        assert(line =~= Seq::<char>::empty());
        assert(split_lines(s) =~= seq![line] + split_lines(rest));
    } else {
        lemma_split_terminated(line.drop_first(), rest);
        assert(s[0] == line[0]);
        assert(s[0] != '\n');
        assert(s.drop_first() =~= line.drop_first() + seq!['\n'] + rest);
        let inner = split_lines(s.drop_first());
        assert(inner == seq![line.drop_first()] + split_lines(rest));
        assert(inner.len() > 0);
        assert(inner[0] == line.drop_first());
        assert(seq![s[0]] + inner[0] =~= line);
        assert(inner.drop_first() =~= split_lines(rest));
        assert(split_lines(s) =~= seq![line] + split_lines(rest));
    }
}

/// Splitting and rejoining with the original termination flag restores the
/// original text.
pub proof fn lemma_join_split(s: Seq<char>)
    ensures
        join_lines(split_lines(s), ends_terminated(s)) == s,
    decreases s.len(),
{
    if s.len() == 0 {
        assert(join_lines(split_lines(s), ends_terminated(s)) =~= s);
    } else if s[0] == '\n' {
        lemma_join_split(s.drop_first());
        let ls = split_lines(s);
        let rest = split_lines(s.drop_first());
        if s.len() == 1 {
            assert(rest =~= Seq::<Seq<char>>::empty());
            assert(ls =~= seq![Seq::<char>::empty()]);
            assert(ends_terminated(s));
            assert(join_lines(ls, true) =~= s);
        } else {
            assert(ends_terminated(s.drop_first()) == ends_terminated(s));
            lemma_split_len(s.drop_first());
            assert(ls =~= seq![Seq::<char>::empty()] + rest);
            assert(ls.len() > 1);
            assert(ls.drop_first() =~= rest);
            assert(ls[0] =~= Seq::<char>::empty());
            assert(join_lines(ls, ends_terminated(s)) =~= seq!['\n'] + join_lines(
                rest,
                ends_terminated(s),
            ));
            assert(seq!['\n'] + s.drop_first() =~= s);
        }
    } else {
        lemma_join_split(s.drop_first());
        let rest = split_lines(s.drop_first());
        if rest.len() == 0 {
            assert(s.drop_first().len() == 0) by {
                if s.drop_first().len() > 0 {
                    lemma_split_len(s.drop_first());
                }
            }
            assert(s.len() == 1);
            assert(!ends_terminated(s));
            assert(split_lines(s) == seq![s]);
            assert(join_lines(seq![s], false) =~= s);
        } else {
            let ls = split_lines(s);
            assert(ls == seq![seq![s[0]] + rest[0]] + rest.drop_last().drop_first().push(
                rest.last(),
            ) || ls == seq![seq![s[0]] + rest[0]] + rest.drop_first());
            assert(s.drop_first().len() > 0);
            assert(ends_terminated(s.drop_first()) == ends_terminated(s));
            let t = ends_terminated(s);
            if rest.len() == 1 {
                assert(ls =~= seq![seq![s[0]] + rest[0]]);
                assert(join_lines(rest, t) == rest[0] + if t {
                    seq!['\n']
                } else {
                    Seq::<char>::empty()
                });
                assert(join_lines(ls, t) == ls[0] + if t {
                    seq!['\n']
                } else {
                    Seq::<char>::empty()
                });
                assert(join_lines(ls, t) =~= seq![s[0]] + join_lines(rest, t));
                assert(seq![s[0]] + s.drop_first() =~= s);
            } else {
                assert(ls.len() > 1);
                assert(ls[0] == seq![s[0]] + rest[0]);
                assert(ls.drop_first() =~= rest.drop_first());
                assert(join_lines(rest, t) == rest[0] + seq!['\n'] + join_lines(
                    rest.drop_first(),
                    t,
                ));
                assert(join_lines(ls, t) == ls[0] + seq!['\n'] + join_lines(ls.drop_first(), t));
                assert(join_lines(ls, t) =~= seq![s[0]] + join_lines(rest, t));
                assert(seq![s[0]] + s.drop_first() =~= s);
            }
        }
    }
}

/// No split line contains a line feed.
pub proof fn lemma_split_lines_no_nl(s: Seq<char>)
    ensures
        forall|i: int| 0 <= i < split_lines(s).len() ==> no_nl(#[trigger] split_lines(s)[i]),
    decreases s.len(),
{
    if s.len() == 0 {
    } else if s[0] == '\n' {
        lemma_split_lines_no_nl(s.drop_first());
        let rest = split_lines(s.drop_first());
        assert forall|i: int| 0 <= i < split_lines(s).len() implies no_nl(
            #[trigger] split_lines(s)[i],
        ) by {
            if i == 0 {
                assert(no_nl(Seq::<char>::empty()));
            } else {
                assert(split_lines(s)[i] == rest[i - 1]);
            }
        }
    } else {
        lemma_split_lines_no_nl(s.drop_first());
        let rest = split_lines(s.drop_first());
        if rest.len() == 0 {
            assert(s.drop_first().len() == 0) by {
                if s.drop_first().len() > 0 {
                    lemma_split_len(s.drop_first());
                }
            }
            assert(no_nl(s));
            assert(split_lines(s) == seq![s]);
        } else {
            assert(no_nl(rest[0]));
            let first = seq![s[0]] + rest[0];
            assert(no_nl(first)) by {
                assert(first[0] == s[0]);
                assert(forall|k: int| 1 <= k < first.len() ==> first[k] == rest[0][k - 1]);
            }
            assert forall|i: int| 0 <= i < split_lines(s).len() implies no_nl(
                #[trigger] split_lines(s)[i],
            ) by {
                if i == 0 {
                    assert(split_lines(s)[0] == first);
                } else {
                    assert(split_lines(s)[i] == rest[i]);
                }
            }
        }
    }
}

/// Joining line-feed-free lines and splitting again restores the lines,
/// provided a trailing terminator is used whenever the last line is empty.
pub proof fn lemma_split_join(ls: Seq<Seq<char>>, trailing: bool)
    requires
        forall|i: int| 0 <= i < ls.len() ==> no_nl(#[trigger] ls[i]),
        trailing || ls.len() == 0 || ls[ls.len() - 1].len() > 0,
    ensures
        split_lines(join_lines(ls, trailing)) == ls,
    decreases ls.len(),
{
    if ls.len() == 0 {
    } else if ls.len() == 1 {
        if trailing {
            lemma_split_terminated(ls[0], Seq::empty());
            assert(ls[0] + seq!['\n'] + Seq::<char>::empty() =~= join_lines(ls, trailing));
            assert(seq![ls[0]] + split_lines(Seq::<char>::empty()) =~= ls);
        } else {
            assert(join_lines(ls, trailing) =~= ls[0]);
            lemma_split_no_nl(ls[0]);
            assert(seq![ls[0]] =~= ls);
        }
    } else {
        lemma_split_join(ls.drop_first(), trailing);
        lemma_split_terminated(ls[0], join_lines(ls.drop_first(), trailing));
        assert(ls[0] + seq!['\n'] + join_lines(ls.drop_first(), trailing) =~= join_lines(
            ls,
            trailing,
        ));
        assert(seq![ls[0]] + ls.drop_first() =~= ls);
    }
}

/// The lines of `text`, as vectors of characters.
pub fn split_lines_exec(text: &Vec<char>) -> (r: Vec<Vec<char>>)
    ensures
        lines_view(r) == split_lines(text@),
{
    let mut out: Vec<Vec<char>> = Vec::new();
    let mut cur: Vec<char> = Vec::new();
    let n = text.len();
    proof {
        assert(cur@ + text@.subrange(0, n as int) =~= text@);
        assert(lines_view(out) + split_lines(text@) =~= split_lines(text@));
    }
    for i in 0..n
        invariant
            n == text@.len(),
            no_nl(cur@),
            lines_view(out) + split_lines(cur@ + text@.subrange(i as int, n as int)) == split_lines(
                text@,
            ),
    {
        let c = text[i];
        let ghost suffix = text@.subrange(i as int, n as int);
        let ghost suffix2 = text@.subrange(i + 1, n as int);
        let ghost cur0 = cur@;
        let ghost dv0 = lines_view(out);
        proof {
            assert(suffix =~= seq![text@[i as int]] + suffix2);
        }
        if c == '\n' {
            proof {
                lemma_split_terminated(cur0, suffix2);
                assert(cur0 + suffix =~= cur0 + seq!['\n'] + suffix2);
            }
            out.push(cur);
            cur = Vec::new();
            proof {
                assert(lines_view(out) =~= dv0 + seq![cur0]);
                assert(cur@ + suffix2 =~= suffix2);
                assert(lines_view(out) + split_lines(suffix2) =~= dv0 + (seq![cur0] + split_lines(
                    suffix2,
                )));
            }
        } else {
            cur.push(c);
            proof {
                assert(cur@ + suffix2 =~= cur0 + suffix);
            }
        }
    }
    proof {
        assert(cur@ + text@.subrange(n as int, n as int) =~= cur@);
    }
    if cur.len() > 0 {
        let ghost dv0 = lines_view(out);
        let ghost cur0 = cur@;
        proof {
            lemma_split_no_nl(cur0);
        }
        out.push(cur);
        proof {
            assert(lines_view(out) =~= dv0 + seq![cur0]);
        }
    } else {
        proof {
            assert(split_lines(cur@) =~= Seq::<Seq<char>>::empty());
            assert(lines_view(out) + split_lines(cur@) =~= lines_view(out));
        }
    }
    out
}

/// The text holding the given lines.
pub fn join_lines_exec(ls: &Vec<Vec<char>>, trailing: bool) -> (r: Vec<char>)
    ensures
        r@ == join_lines(lines_view(*ls), trailing),
{
    let mut out: Vec<char> = Vec::new();
    let n = ls.len();
    proof {
        assert(lines_view(*ls).subrange(0, n as int) =~= lines_view(*ls));
        assert(out@ + join_lines(lines_view(*ls), trailing) =~= join_lines(
            lines_view(*ls),
            trailing,
        ));
    }
    for i in 0..n
        invariant
            n == ls@.len(),
            out@ + join_lines(lines_view(*ls).subrange(i as int, n as int), trailing) == join_lines(
                lines_view(*ls),
                trailing,
            ),
    {
        let ghost dv = lines_view(*ls);
        let ghost rem = dv.subrange(i as int, n as int);
        let ghost rem2 = dv.subrange(i + 1, n as int);
        let ghost out0 = out@;
        let line = &ls[i];
        let m = line.len();
        for j in 0..m
            invariant
                m == line@.len(),
                out@ == out0 + line@.subrange(0, j as int),
        {
            out.push(line[j]);
            proof {
                assert(out@ =~= out0 + line@.subrange(0, j + 1));
            }
        }
        proof {
            assert(line@.subrange(0, m as int) =~= line@);
            assert(line@ == rem[0]);
        }
        if i + 1 < n || trailing {
            out.push('\n');
        }
        proof {
            assert(rem.drop_first() =~= rem2);
            if i + 1 < n {
                assert(join_lines(rem, trailing) == rem[0] + seq!['\n'] + join_lines(
                    rem2,
                    trailing,
                ));
                assert(out@ =~= out0 + rem[0] + seq!['\n']);
            } else {
                assert(rem.len() == 1);
                assert(join_lines(rem2, trailing) =~= Seq::<char>::empty());
                if trailing {
                    assert(join_lines(rem, trailing) == rem[0] + seq!['\n']);
                    assert(out@ =~= out0 + rem[0] + seq!['\n']);
                } else {
                    assert(join_lines(rem, trailing) == rem[0] + Seq::<char>::empty());
                    assert(out@ =~= out0 + rem[0]);
                }
            }
            assert(out@ + join_lines(rem2, trailing) =~= out0 + join_lines(rem, trailing));
        }
    }
    proof {
        assert(join_lines(lines_view(*ls).subrange(n as int, n as int), trailing) =~= Seq::<
            char,
        >::empty());
        assert(out@ + Seq::<char>::empty() =~= out@);
    }
    out
}

// ---------------------------------------------------------------------------
// Patch model: hunks of context, deleted and added lines.
// ---------------------------------------------------------------------------

/// One line of a hunk body.
pub enum PatchLine {
    /// A line present in both the old and the new text.
    Context(Vec<char>),
    /// A line present only in the old text.
    Del(Vec<char>),
    /// A line present only in the new text.
    Add(Vec<char>),
}

/// The mathematical value of a [`PatchLine`].
pub enum PatchLineV {
    Context(Seq<char>),
    Del(Seq<char>),
    Add(Seq<char>),
}

impl View for PatchLine {
    type V = PatchLineV;

    open spec fn view(&self) -> PatchLineV {
        match self {
            PatchLine::Context(l) => PatchLineV::Context(l@),
            PatchLine::Del(l) => PatchLineV::Del(l@),
            PatchLine::Add(l) => PatchLineV::Add(l@),
        }
    }
}

/// One hunk: a starting line number and length on each side, and the body
/// lines.  Line numbers are 1-based as in unified-diff headers; a start of
/// zero marks an insertion before the first line.
pub struct Hunk {
    pub old_start: usize,
    pub old_count: usize,
    pub new_start: usize,
    pub new_count: usize,
    pub lines: Vec<PatchLine>,
}

/// The mathematical value of a [`Hunk`].
pub struct HunkV {
    pub old_start: int,
    pub old_count: int,
    pub new_start: int,
    pub new_count: int,
    pub lines: Seq<PatchLineV>,
}

impl View for Hunk {
    type V = HunkV;

    open spec fn view(&self) -> HunkV {
        HunkV {
            old_start: self.old_start as int,
            old_count: self.old_count as int,
            new_start: self.new_start as int,
            new_count: self.new_count as int,
            lines: self.lines@.map_values(|l: PatchLine| l@),
        }
    }
}

/// The hunk values of a vector of hunks.
pub open spec fn hunks_view(v: Vec<Hunk>) -> Seq<HunkV> {
    v@.map_values(|h: Hunk| h@)
}

/// The text carried by a patch line.
pub open spec fn line_text(l: PatchLineV) -> Seq<char> {
    match l {
        PatchLineV::Context(t) => t,
        PatchLineV::Del(t) => t,
        PatchLineV::Add(t) => t,
    }
}

/// Whether the line occurs in the old text.
pub open spec fn in_old(l: PatchLineV) -> bool {
    !(l is Add)
}

/// Whether the line occurs in the new text.
pub open spec fn in_new(l: PatchLineV) -> bool {
    !(l is Del)
}

/// The lines of the old text covered by a hunk body.
pub open spec fn old_side(ls: Seq<PatchLineV>) -> Seq<Seq<char>>
    decreases ls.len(),
{
    if ls.len() == 0 {
        Seq::empty()
    } else {
        let rest = old_side(ls.drop_first());
        if in_old(ls[0]) {
            seq![line_text(ls[0])] + rest
        } else {
            rest
        }
    }
}

/// The lines of the new text covered by a hunk body.
pub open spec fn new_side(ls: Seq<PatchLineV>) -> Seq<Seq<char>>
    decreases ls.len(),
{
    if ls.len() == 0 {
        Seq::empty()
    } else {
        let rest = new_side(ls.drop_first());
        if in_new(ls[0]) {
            seq![line_text(ls[0])] + rest
        } else {
            rest
        }
    }
}

/// The same line read in the opposite direction: deletions become
/// additions and additions become deletions.
pub open spec fn swap_line(l: PatchLineV) -> PatchLineV {
    match l {
        PatchLineV::Context(t) => PatchLineV::Context(t),
        PatchLineV::Del(t) => PatchLineV::Add(t),
        PatchLineV::Add(t) => PatchLineV::Del(t),
    }
}

/// The hunk read in the opposite direction.
pub open spec fn swap_hunk(h: HunkV) -> HunkV {
    HunkV {
        old_start: h.new_start,
        old_count: h.new_count,
        new_start: h.old_start,
        new_count: h.old_count,
        lines: h.lines.map_values(|l: PatchLineV| swap_line(l)),
    }
}

/// The whole patch read in the opposite direction.
pub open spec fn swap_hunks(hs: Seq<HunkV>) -> Seq<HunkV> {
    hs.map_values(|h: HunkV| swap_hunk(h))
}

/// Swapping a hunk body exchanges its two sides.
pub proof fn lemma_swap_sides(ls: Seq<PatchLineV>)
    ensures
        old_side(ls.map_values(|l: PatchLineV| swap_line(l))) == new_side(ls),
        new_side(ls.map_values(|l: PatchLineV| swap_line(l))) == old_side(ls),
    decreases ls.len(),
{
    let sw = ls.map_values(|l: PatchLineV| swap_line(l));
    if ls.len() == 0 {
        assert(sw =~= Seq::<PatchLineV>::empty());
    } else {
        lemma_swap_sides(ls.drop_first());
        assert(sw.drop_first() =~= ls.drop_first().map_values(|l: PatchLineV| swap_line(l)));
        assert(sw[0] == swap_line(ls[0]));
        assert(line_text(swap_line(ls[0])) == line_text(ls[0]));
        assert(in_old(swap_line(ls[0])) == in_new(ls[0]));
        assert(in_new(swap_line(ls[0])) == in_old(ls[0]));
    }
}

// ---------------------------------------------------------------------------
// Parsing a patch text into hunks.
// ---------------------------------------------------------------------------

/// Whether the character is a decimal digit.
pub open spec fn is_digit(c: char) -> bool {
    48 <= c as u32 <= 57
}

/// The value of a decimal digit.
pub open spec fn digit_val(c: char) -> int {
    c as u32 - 48
}

/// The first index at or after `i` that does not hold a digit.
pub open spec fn digits_end(s: Seq<char>, i: int) -> int
    decreases s.len() - i,
    when 0 <= i <= s.len()
{
    if i < s.len() && is_digit(s[i]) {
        digits_end(s, i + 1)
    } else {
        i
    }
}

/// The value of the digit run `s[i..j]`.
pub open spec fn digits_val(s: Seq<char>, i: int, j: int) -> int
    decreases j - i,
    when i <= j
{
    if i >= j {
        0
    } else {
        digits_val(s, i, j - 1) * 10 + digit_val(s[j - 1])
    }
}

/// The largest line number or line count a hunk header may carry.
pub open spec fn max_header_number() -> int {
    1000000
}

/// One `start[,count]` pair of a hunk header, read at index `i`: the start,
/// the count (one when omitted), and the index after the pair.
pub open spec fn parse_pair(l: Seq<char>, i: int) -> Option<(int, int, int)> {
    let e1 = digits_end(l, i);
    if e1 == i || digits_val(l, i, e1) > max_header_number() {
        None
    } else {
        let n1 = digits_val(l, i, e1);
        if e1 < l.len() && l[e1] == ',' {
            let e2 = digits_end(l, e1 + 1);
            if e2 == e1 + 1 || digits_val(l, e1 + 1, e2) > max_header_number() {
                None
            } else {
                Some((n1, digits_val(l, e1 + 1, e2), e2))
            }
        } else {
            Some((n1, 1, e1))
        }
    }
}

/// The opening of a hunk header.
pub open spec fn header_prefix() -> Seq<char> {
    seq!['@', '@', ' ', '-']
}

/// The two `start,count` pairs of a hunk header line, or nothing when the
/// line is not a well-formed header.
pub open spec fn parse_header(l: Seq<char>) -> Option<(int, int, int, int)> {
    if l.len() < 4 || l.subrange(0, 4) != header_prefix() {
        None
    } else {
        match parse_pair(l, 4) {
            None => None,
            Some((os, oc, i)) => {
                if i + 2 <= l.len() && l[i] == ' ' && l[i + 1] == '+' {
                    match parse_pair(l, i + 2) {
                        None => None,
                        Some((ns, nc, j)) => {
                            if j + 3 <= l.len() && l[j] == ' ' && l[j + 1] == '@' && l[j + 2]
                                == '@' {
                                Some((os, oc, ns, nc))
                            } else {
                                None
                            }
                        },
                    }
                } else {
                    None
                }
            },
        }
    }
}

/// Whether the line is a no-newline annotation, which carries no content.
pub open spec fn is_skip_line(l: Seq<char>) -> bool {
    l.len() > 0 && l[0] == '\\'
}

/// The body line denoted by one patch line: an empty line counts as empty
/// context, and the first character otherwise picks the side.
pub open spec fn classify_line(l: Seq<char>) -> Option<PatchLineV> {
    if l.len() == 0 {
        Some(PatchLineV::Context(Seq::empty()))
    } else if l[0] == ' ' {
        Some(PatchLineV::Context(l.drop_first()))
    } else if l[0] == '-' {
        Some(PatchLineV::Del(l.drop_first()))
    } else if l[0] == '+' {
        Some(PatchLineV::Add(l.drop_first()))
    } else {
        None
    }
}

/// The body of one hunk, read at line `i` with `no` old-side and `nn`
/// new-side lines still owed: the body lines and the index after them.
pub open spec fn parse_body(ls: Seq<Seq<char>>, i: int, no: int, nn: int) -> Option<
    (Seq<PatchLineV>, int),
>
    decreases ls.len() - i,
    when 0 <= i <= ls.len()
{
    if no == 0 && nn == 0 {
        Some((Seq::empty(), i))
    } else if i >= ls.len() {
        None
    } else if is_skip_line(ls[i]) {
        parse_body(ls, i + 1, no, nn)
    } else {
        match classify_line(ls[i]) {
            None => None,
            Some(pl) => {
                let no2 = if in_old(pl) {
                    no - 1
                } else {
                    no
                };
                let nn2 = if in_new(pl) {
                    nn - 1
                } else {
                    nn
                };
                if no2 < 0 || nn2 < 0 {
                    None
                } else {
                    match parse_body(ls, i + 1, no2, nn2) {
                        None => None,
                        Some((rest, j)) => Some((seq![pl] + rest, j)),
                    }
                }
            },
        }
    }
}

/// The index the hunk reader continues at, clamped into range so that the
/// reader always advances; a successful body read stays in range anyway.
pub open spec fn next_hunk_index(j: int, i: int, n: int) -> int {
    if j < i + 1 {
        i + 1
    } else if j > n {
        n
    } else {
        j
    }
}

/// The hunks of the patch whose lines are `ls`, read from line `i` on.
pub open spec fn parse_hunks_from(ls: Seq<Seq<char>>, i: int) -> Option<Seq<HunkV>>
    decreases ls.len() - i,
    when 0 <= i <= ls.len()
{
    if i >= ls.len() {
        Some(Seq::empty())
    } else if is_skip_line(ls[i]) {
        parse_hunks_from(ls, i + 1)
    } else {
        match parse_header(ls[i]) {
            None => None,
            Some((os, oc, ns, nc)) => match parse_body(ls, i + 1, oc, nc) {
                None => None,
                Some((plines, j0)) => {
                    let j = next_hunk_index(j0, i, ls.len() as int);
                    match parse_hunks_from(ls, j) {
                        None => None,
                        Some(rest) => Some(
                            seq![
                                HunkV {
                                    old_start: os,
                                    old_count: oc,
                                    new_start: ns,
                                    new_count: nc,
                                    lines: plines,
                                },
                            ] + rest,
                        ),
                    }
                },
            },
        }
    }
}

/// The hunks of a patch text, or nothing when the text is malformed.
pub open spec fn parse_patch(text: Seq<char>) -> Option<Seq<HunkV>> {
    parse_hunks_from(split_lines(text), 0)
}

// ---------------------------------------------------------------------------
// Applying hunks to the lines of a file.
// ---------------------------------------------------------------------------

/// Failure of parsing or applying a patch.
#[derive(Debug, PartialEq, Eq, Structural)]
pub enum PatchError {
    /// The patch text does not follow the unified-diff shape.
    Malformed,
    /// A hunk does not match the text it is applied to.
    Mismatch,
}

/// The patch-line values of a vector of patch lines.
pub open spec fn plines_view(v: Vec<PatchLine>) -> Seq<PatchLineV> {
    v@.map_values(|l: PatchLine| l@)
}

/// Digit runs have nonnegative values.
proof fn lemma_digits_val_nonneg(s: Seq<char>, i: int, j: int)
    requires
        0 <= i <= j <= s.len(),
        forall|k: int| i <= k < j ==> is_digit(#[trigger] s[k]),
    ensures
        digits_val(s, i, j) >= 0,
    decreases j - i,
{
    if i < j {
        lemma_digits_val_nonneg(s, i, j - 1);
    }
}

/// A digit run's value never shrinks as the run extends.
proof fn lemma_digits_val_mono(s: Seq<char>, i: int, j: int, k: int)
    requires
        0 <= i <= j <= k <= s.len(),
        forall|m: int| i <= m < k ==> is_digit(#[trigger] s[m]),
    ensures
        digits_val(s, i, j) <= digits_val(s, i, k),
    decreases k - j,
{
    if j < k {
        lemma_digits_val_mono(s, i, j, k - 1);
        lemma_digits_val_nonneg(s, i, k - 1);
    }
}

/// The first index at or after `i` without a digit.
fn digits_end_exec(l: &Vec<char>, i: usize) -> (r: usize)
    requires
        i <= l@.len(),
    ensures
        i <= r <= l@.len(),
        r as int == digits_end(l@, i as int),
        forall|k: int| i <= k < r ==> is_digit(#[trigger] l@[k]),
        r < l@.len() ==> !is_digit(l@[r as int]),
    decreases l@.len() - i,
{
    let mut j = i;
    while j < l.len() && (l[j] as u32) >= 48 && (l[j] as u32) <= 57
        invariant
            i <= j <= l@.len(),
            digits_end(l@, i as int) == digits_end(l@, j as int),
            forall|k: int| i <= k < j ==> is_digit(#[trigger] l@[k]),
        decreases l@.len() - j,
    {
        j = j + 1;
    }
    j
}

/// The value of the digit run `l[i..j]`, or nothing when it is larger than
/// the biggest number a hunk header may carry.
fn digits_val_exec(l: &Vec<char>, i: usize, j: usize) -> (r: Option<usize>)
    requires
        i <= j <= l@.len(),
        forall|k: int| i <= k < j ==> is_digit(#[trigger] l@[k]),
    ensures
        match r {
            Some(v) => v as int == digits_val(l@, i as int, j as int) && v <= 1000000,
            None => digits_val(l@, i as int, j as int) > max_header_number(),
        },
{
    let mut acc: usize = 0;
    let mut k = i;
    while k < j
        invariant
            i <= k <= j <= l@.len(),
            forall|m: int| i <= m < j ==> is_digit(#[trigger] l@[m]),
            acc as int == digits_val(l@, i as int, k as int),
            acc <= 1000000,
        decreases j - k,
    {
        let d = (l[k] as u32) - 48;
        let next: usize = acc * 10 + (d as usize);
        k = k + 1;
        if next > 1000000 {
            proof {
                lemma_digits_val_mono(l@, i as int, k as int, j as int);
            }
            return None;
        }
        acc = next;
    }
    Some(acc)
}

/// One `start[,count]` pair of a hunk header, read at index `i`.
fn parse_pair_exec(l: &Vec<char>, i: usize) -> (r: Option<(usize, usize, usize)>)
    requires
        i <= l@.len(),
    ensures
        match r {
            Some((a, b, j)) => parse_pair(l@, i as int) == Some((a as int, b as int, j as int))
                && j <= l@.len(),
            None => parse_pair(l@, i as int) is None,
        },
{
    let e1 = digits_end_exec(l, i);
    if e1 == i {
        return None;
    }
    let n1 = match digits_val_exec(l, i, e1) {
        Some(v) => v,
        None => {
            return None;
        },
    };
    if e1 < l.len() && l[e1] == ',' {
        let e2 = digits_end_exec(l, e1 + 1);
        if e2 == e1 + 1 {
            return None;
        }
        let n2 = match digits_val_exec(l, e1 + 1, e2) {
            Some(v) => v,
            None => {
                return None;
            },
        };
        Some((n1, n2, e2))
    } else {
        Some((n1, 1, e1))
    }
}

/// The two `start,count` pairs of a hunk header line.
fn parse_header_exec(l: &Vec<char>) -> (r: Option<(usize, usize, usize, usize)>)
    ensures
        match r {
            Some((os, oc, ns, nc)) => parse_header(l@) == Some(
                (os as int, oc as int, ns as int, nc as int),
            ),
            None => parse_header(l@) is None,
        },
{
    if l.len() < 4 || !(l[0] == '@' && l[1] == '@' && l[2] == ' ' && l[3] == '-') {
        proof {
            if l@.len() >= 4 {
                assert(l@.subrange(0, 4)[0] == l@[0]);
                assert(l@.subrange(0, 4)[1] == l@[1]);
                assert(l@.subrange(0, 4)[2] == l@[2]);
                assert(l@.subrange(0, 4)[3] == l@[3]);
                assert(l@.subrange(0, 4) != header_prefix());
            }
        }
        return None;
    }
    proof {
        assert(l@.subrange(0, 4) =~= header_prefix());
    }
    let (os, oc, i) = match parse_pair_exec(l, 4) {
        Some(t) => t,
        None => {
            return None;
        },
    };
    if !(l.len() >= 2 && i <= l.len() - 2 && l[i] == ' ' && l[i + 1] == '+') {
        return None;
    }
    let (ns, nc, j) = match parse_pair_exec(l, i + 2) {
        Some(t) => t,
        None => {
            return None;
        },
    };
    if l.len() >= 3 && j <= l.len() - 3 && l[j] == ' ' && l[j + 1] == '@' && l[j + 2] == '@' {
        Some((os, oc, ns, nc))
    } else {
        None
    }
}

/// The hunks of the patch whose lines are `lines`, or `Malformed` when the
/// text does not follow the unified-diff shape.
pub fn parse_hunks_exec(lines: &Vec<Vec<char>>) -> (r: Result<Vec<Hunk>, PatchError>)
    ensures
        match parse_hunks_from(lines_view(*lines), 0) {
            Some(hs) => r matches Ok(v) && hunks_view(v) == hs,
            None => r == Err::<Vec<Hunk>, PatchError>(PatchError::Malformed),
        },
{
    let ghost orig = lines_view(*lines);
    let n = lines.len();
    let mut i: usize = 0;
    let mut out: Vec<Hunk> = Vec::new();
    proof {
        assert(hunks_view(out) =~= Seq::<HunkV>::empty());
        match parse_hunks_from(orig, 0) {
            Some(hs) => {
                assert(hunks_view(out) + hs =~= hs);
            },
            None => {},
        }
    }
    while i < n
        invariant
            n == orig.len(),
            orig == lines_view(*lines),
            i <= n,
            match parse_hunks_from(orig, i as int) {
                Some(hs) => parse_hunks_from(orig, 0) == Some(hunks_view(out) + hs),
                None => parse_hunks_from(orig, 0) is None,
            },
        decreases n - i,
    {
        let ghost start = i as int;
        proof {
            assert(orig[start] == lines@[start]@);
        }
        let is_skip = lines[i].len() > 0 && lines[i][0] == '\\';
        proof {
            assert(is_skip == is_skip_line(orig[start]));
        }
        if is_skip {
            i = i + 1;
            continue ;
        }
        let (os, oc, ns, nc) = match parse_header_exec(&lines[i]) {
            Some(t) => t,
            None => {
                proof {
                    assert(parse_header(orig[start]) is None);
                    assert(parse_hunks_from(orig, start) is None);
                }
                return Err(PatchError::Malformed);
            },
        };
        proof {
            assert(parse_header(orig[start]) == Some((os as int, oc as int, ns as int, nc as int)));
        }
        i = i + 1;
        let ghost body_start = i as int;
        let mut no = oc;
        let mut nn = nc;
        let mut body: Vec<PatchLine> = Vec::new();
        proof {
            assert(plines_view(body) =~= Seq::<PatchLineV>::empty());
            match parse_body(orig, body_start, oc as int, nc as int) {
                Some(p) => {
                    assert(plines_view(body) + p.0 =~= p.0);
                },
                None => {},
            }
        }
        while no > 0 || nn > 0
            invariant
                n == orig.len(),
                orig == lines_view(*lines),
                0 <= start < n,
                body_start == start + 1,
                body_start <= i <= n,
                no <= oc,
                nn <= nc,
                !is_skip_line(orig[start]),
                parse_header(orig[start]) == Some((os as int, oc as int, ns as int, nc as int)),
                match parse_hunks_from(orig, start) {
                    Some(hs) => parse_hunks_from(orig, 0) == Some(hunks_view(out) + hs),
                    None => parse_hunks_from(orig, 0) is None,
                },
                match parse_body(orig, i as int, no as int, nn as int) {
                    Some(p) => parse_body(orig, body_start, oc as int, nc as int) == Some(
                        (plines_view(body) + p.0, p.1),
                    ),
                    None => parse_body(orig, body_start, oc as int, nc as int) is None,
                },
            decreases n - i, no + nn,
        {
            let ghost bi = i as int;
            if i == n {
                proof {
                    assert(parse_body(orig, bi, no as int, nn as int) is None);
                    assert(parse_body(orig, body_start, oc as int, nc as int) is None);
                    assert(parse_hunks_from(orig, start) is None);
                }
                return Err(PatchError::Malformed);
            }
            let l = &lines[i];
            i = i + 1;
            proof {
                assert(l@ == orig[bi]);
            }
            if l.len() > 0 && l[0] == '\\' {
                proof {
                    assert(is_skip_line(orig[bi]));
                }
                continue ;
            }
            proof {
                assert(!is_skip_line(orig[bi]));
            }
            let ghost no0 = no;
            let ghost nn0 = nn;
            let ghost body0 = plines_view(body);
            let pl: PatchLine = if l.len() == 0 {
                PatchLine::Context(Vec::new())
            } else {
                let c = l[0];
                if c == ' ' {
                    PatchLine::Context(crate::text::copy_tail(l, 1))
                } else if c == '-' {
                    PatchLine::Del(crate::text::copy_tail(l, 1))
                } else if c == '+' {
                    PatchLine::Add(crate::text::copy_tail(l, 1))
                } else {
                    proof {
                        assert(classify_line(orig[bi]) is None);
                        assert(parse_body(orig, bi, no as int, nn as int) is None);
                        assert(parse_hunks_from(orig, start) is None);
                    }
                    return Err(PatchError::Malformed);
                }
            };
            proof {
                assert(classify_line(orig[bi]) == Some(pl@)) by {
                    if orig[bi].len() == 0 {
                        assert(pl@ =~~= PatchLineV::Context(Seq::<char>::empty()));
                    } else {
                        assert(orig[bi].subrange(1, orig[bi].len() as int) =~= orig[
                            bi
                        ].drop_first());
                        assert(pl matches PatchLine::Context(v) ==> v@ =~= orig[bi].drop_first());
                        assert(pl matches PatchLine::Del(v) ==> v@ =~= orig[bi].drop_first());
                        assert(pl matches PatchLine::Add(v) ==> v@ =~= orig[bi].drop_first());
                    }
                }
            }
            let old_line = match &pl {
                PatchLine::Context(_) => true,
                PatchLine::Del(_) => true,
                PatchLine::Add(_) => false,
            };
            let new_line = match &pl {
                PatchLine::Context(_) => true,
                PatchLine::Del(_) => false,
                PatchLine::Add(_) => true,
            };
            if old_line {
                if no == 0 {
                    proof {
                        assert(parse_body(orig, bi, no0 as int, nn0 as int) is None);
                        assert(parse_hunks_from(orig, start) is None);
                    }
                    return Err(PatchError::Malformed);
                }
                no = no - 1;
            }
            if new_line {
                if nn == 0 {
                    proof {
                        assert(parse_body(orig, bi, no0 as int, nn0 as int) is None);
                        assert(parse_hunks_from(orig, start) is None);
                    }
                    return Err(PatchError::Malformed);
                }
                nn = nn - 1;
            }
            body.push(pl);
            proof {
                assert(plines_view(body) =~= body0.push(pl@));
                assert(in_old(pl@) == old_line);
                assert(in_new(pl@) == new_line);
                match parse_body(orig, i as int, no as int, nn as int) {
                    Some(p) => {
                        assert(parse_body(orig, bi, no0 as int, nn0 as int) == Some(
                            (seq![pl@] + p.0, p.1),
                        ));
                        assert(body0.push(pl@) + p.0 =~= body0 + (seq![pl@] + p.0));
                    },
                    None => {
                        assert(parse_body(orig, bi, no0 as int, nn0 as int) is None);
                    },
                }
            }
        }
        proof {
            assert(parse_body(orig, i as int, 0, 0) == Some(
                (Seq::<PatchLineV>::empty(), i as int),
            ));
            assert(plines_view(body) + Seq::<PatchLineV>::empty() =~= plines_view(body));
            assert(parse_body(orig, body_start, oc as int, nc as int) == Some(
                (plines_view(body), i as int),
            ));
        }
        let h = Hunk { old_start: os, old_count: oc, new_start: ns, new_count: nc, lines: body };
        let ghost out0 = hunks_view(out);
        let ghost hv = h@;
        out.push(h);
        proof {
            assert(hunks_view(out) =~= out0.push(hv));
            assert(next_hunk_index(i as int, start, n as int) == i as int);
            match parse_hunks_from(orig, i as int) {
                Some(hs) => {
                    assert(parse_hunks_from(orig, start) == Some(seq![hv] + hs));
                    assert(out0.push(hv) + hs =~= out0 + (seq![hv] + hs));
                },
                None => {
                    assert(parse_hunks_from(orig, start) is None);
                },
            }
        }
    }
    proof {
        assert(parse_hunks_from(orig, n as int) == Some(Seq::<HunkV>::empty()));
        assert(hunks_view(out) + Seq::<HunkV>::empty() =~= hunks_view(out));
    }
    Ok(out)
}


/// The index of the first line a hunk touches: headers are 1-based, and a
/// start of zero marks an insertion before the first line.
pub open spec fn hunk_pos(start: int) -> int {
    if start == 0 {
        0
    } else {
        start - 1
    }
}

/// The transformed tail of `ls` from line `cursor` on, after applying the
/// hunks `hs[k..]` in order, or nothing when some hunk does not match.
pub open spec fn apply_from(ls: Seq<Seq<char>>, hs: Seq<HunkV>, k: int, cursor: int) -> Option<
    Seq<Seq<char>>,
>
    decreases hs.len() - k,
    when 0 <= k <= hs.len() && 0 <= cursor
{
    if k >= hs.len() {
        if cursor <= ls.len() {
            Some(ls.subrange(cursor, ls.len() as int))
        } else {
            None
        }
    } else {
        let h = hs[k];
        let pos = hunk_pos(h.old_start);
        let ob = old_side(h.lines);
        let nb = new_side(h.lines);
        if pos < cursor || pos + ob.len() > ls.len() {
            None
        } else if ls.subrange(pos, pos + ob.len()) != ob {
            None
        } else {
            match apply_from(ls, hs, k + 1, pos + ob.len()) {
                None => None,
                Some(rest) => Some(ls.subrange(cursor, pos) + nb + rest),
            }
        }
    }
}

/// The patch read in the opposite direction, hunk by hunk.
pub fn swap_patch(hunks: &Vec<Hunk>) -> (r: Vec<Hunk>)
    ensures
        hunks_view(r) == swap_hunks(hunks_view(*hunks)),
{
    let mut out: Vec<Hunk> = Vec::new();
    let kn = hunks.len();
    proof {
        assert(hunks_view(out) =~= swap_hunks(hunks_view(*hunks)).subrange(0, 0));
    }
    for k in 0..kn
        invariant
            kn == hunks@.len(),
            hunks_view(out) == swap_hunks(hunks_view(*hunks)).subrange(0, k as int),
        decreases kn - k,
    {
        let h = &hunks[k];
        proof {
            assert(hunks_view(*hunks)[k as int] == h@);
        }
        let m = h.lines.len();
        let mut ls: Vec<PatchLine> = Vec::new();
        proof {
            assert(plines_view(ls) =~= h@.lines.map_values(|l: PatchLineV| swap_line(l)).subrange(
                0,
                0,
            ));
        }
        for j in 0..m
            invariant
                m == h.lines@.len(),
                plines_view(ls) == h@.lines.map_values(|l: PatchLineV| swap_line(l)).subrange(
                    0,
                    j as int,
                ),
            decreases m - j,
        {
            let ghost prev = plines_view(ls);
            let nl = match &h.lines[j] {
                PatchLine::Context(t) => PatchLine::Context(crate::text::copy_tail(t, 0)),
                PatchLine::Del(t) => PatchLine::Add(crate::text::copy_tail(t, 0)),
                PatchLine::Add(t) => PatchLine::Del(crate::text::copy_tail(t, 0)),
            };
            proof {
                assert(line_text(h.lines@[j as int]@).subrange(
                    0,
                    line_text(h.lines@[j as int]@).len() as int,
                ) =~= line_text(h.lines@[j as int]@));
                assert(nl@ == swap_line(h.lines@[j as int]@));
                assert(h@.lines[j as int] == h.lines@[j as int]@);
            }
            let ghost nlv = nl@;
            ls.push(nl);
            proof {
                assert(plines_view(ls) =~= prev.push(nlv));
                assert(nlv == h@.lines.map_values(|l: PatchLineV| swap_line(l))[j as int]);
                assert(plines_view(ls) =~= h@.lines.map_values(
                    |l: PatchLineV| swap_line(l),
                ).subrange(0, j + 1));
            }
        }
        let ghost out0 = hunks_view(out);
        let nh = Hunk {
            old_start: h.new_start,
            old_count: h.new_count,
            new_start: h.old_start,
            new_count: h.old_count,
            lines: ls,
        };
        proof {
            assert(h@.lines.map_values(|l: PatchLineV| swap_line(l)).subrange(
                0,
                m as int,
            ) =~= h@.lines.map_values(|l: PatchLineV| swap_line(l)));
            assert(nh@ == swap_hunk(h@));
        }
        out.push(nh);
        proof {
            assert(hunks_view(out) =~= out0.push(swap_hunk(h@)));
            assert(hunks_view(out) =~= swap_hunks(hunks_view(*hunks)).subrange(0, k + 1));
        }
    }
    proof {
        assert(swap_hunks(hunks_view(*hunks)).subrange(0, kn as int) =~= swap_hunks(
            hunks_view(*hunks),
        ));
    }
    out
}

/// Whether the output built so far, together with a correct transformation
/// of the rest, yields the full transformation.
pub open spec fn tracks(
    ls: Seq<Seq<char>>,
    hs: Seq<HunkV>,
    k: int,
    cursor: int,
    outv: Seq<Seq<char>>,
) -> bool {
    match apply_from(ls, hs, k, cursor) {
        Some(rest) => apply_from(ls, hs, 0, 0) == Some(outv + rest),
        None => apply_from(ls, hs, 0, 0) is None,
    }
}

/// Moving one untouched line from the input to the output keeps the
/// transformation on track.
proof fn lemma_apply_cons(ls: Seq<Seq<char>>, hs: Seq<HunkV>, k: int, cursor: int)
    requires
        0 <= cursor < ls.len(),
        0 <= k,
        k < hs.len() ==> cursor < hunk_pos(hs[k].old_start),
        k >= hs.len() ==> k == hs.len(),
    ensures
        match apply_from(ls, hs, k, cursor + 1) {
            Some(r) => apply_from(ls, hs, k, cursor) == Some(seq![ls[cursor]] + r),
            None => apply_from(ls, hs, k, cursor) is None,
        },
{
    if k >= hs.len() {
        assert(ls.subrange(cursor, ls.len() as int) =~= seq![ls[cursor]] + ls.subrange(
            cursor + 1,
            ls.len() as int,
        ));
    } else {
        let h = hs[k];
        let pos = hunk_pos(h.old_start);
        let ob = old_side(h.lines);
        let nb = new_side(h.lines);
        if pos + ob.len() <= ls.len() && ls.subrange(pos, pos + ob.len()) == ob {
            match apply_from(ls, hs, k + 1, pos + ob.len()) {
                None => {},
                Some(rest) => {
                    assert(ls.subrange(cursor, pos) =~= seq![ls[cursor]] + ls.subrange(
                        cursor + 1,
                        pos,
                    ));
                    assert(apply_from(ls, hs, k, cursor) == Some(
                        ls.subrange(cursor, pos) + nb + rest,
                    ));
                    assert(ls.subrange(cursor, pos) + nb + rest =~= seq![ls[cursor]] + (ls.subrange(
                        cursor + 1,
                        pos,
                    ) + nb + rest));
                },
            }
        }
    }
}

/// Applies the hunks to the lines of a file, forward.
pub fn apply_hunks_exec(hunks: &Vec<Hunk>, lines: &Vec<Vec<char>>) -> (r: Result<
    Vec<Vec<char>>,
    PatchError,
>)
    ensures
        match apply_from(lines_view(*lines), hunks_view(*hunks), 0, 0) {
            Some(out) => r matches Ok(v) && lines_view(v) == out,
            None => r == Err::<Vec<Vec<char>>, PatchError>(PatchError::Mismatch),
        },
{
    let ghost ls = lines_view(*lines);
    let ghost hs = hunks_view(*hunks);
    let n = lines.len();
    let kn = hunks.len();
    let mut cursor: usize = 0;
    let mut out: Vec<Vec<char>> = Vec::new();
    proof {
        match apply_from(ls, hs, 0, 0) {
            Some(rest) => {
                assert(lines_view(out) + rest =~= rest);
            },
            None => {},
        }
    }
    for k in 0..kn
        invariant
            ls == lines_view(*lines),
            hs == hunks_view(*hunks),
            n == ls.len(),
            kn == hs.len(),
            cursor <= n,
            tracks(ls, hs, k as int, cursor as int, lines_view(out)),
        decreases kn - k,
    {
        let h = &hunks[k];
        proof {
            assert(hs[k as int] == h@);
        }
        let pos: usize = if h.old_start == 0 {
            0
        } else {
            h.old_start - 1
        };
        proof {
            assert(pos as int == hunk_pos(hs[k as int].old_start));
        }
        if pos < cursor {
            proof {
                assert(apply_from(ls, hs, k as int, cursor as int) is None);
            }
            return Err(PatchError::Mismatch);
        }
        while cursor < pos
            invariant
                ls == lines_view(*lines),
                hs == hunks_view(*hunks),
                n == ls.len(),
                kn == hs.len(),
                k < kn,
                cursor <= pos,
                cursor <= n,
                pos as int == hunk_pos(hs[k as int].old_start),
                tracks(ls, hs, k as int, cursor as int, lines_view(out)),
            decreases pos - cursor,
        {
            if cursor == n {
                proof {
                    assert(apply_from(ls, hs, k as int, cursor as int) is None);
                }
                return Err(PatchError::Mismatch);
            }
            let ghost out0 = lines_view(out);
            proof {
                lemma_apply_cons(ls, hs, k as int, cursor as int);
            }
            out.push(crate::text::copy_tail(&lines[cursor], 0));
            cursor = cursor + 1;
            proof {
                assert(lines[cursor - 1]@.subrange(0, lines[cursor - 1]@.len() as int) =~= lines[
                    cursor - 1
                ]@);
                assert(lines_view(out) =~= out0.push(ls[cursor - 1]));
                match apply_from(ls, hs, k as int, cursor as int) {
                    Some(r) => {
                        assert(out0 + (seq![ls[cursor - 1]] + r) =~= lines_view(out) + r);
                    },
                    None => {},
                }
            }
        }
        let ghost out_h = lines_view(out);
        let m = h.lines.len();
        proof {
            assert(plines_view(h.lines) == hs[k as int].lines);
            assert(ls.subrange(pos as int, cursor as int) =~= Seq::<Seq<char>>::empty());
            assert(hs[k as int].lines.subrange(0, m as int) =~= hs[k as int].lines);
        }
        for j in 0..m
            invariant
                ls == lines_view(*lines),
                hs == hunks_view(*hunks),
                n == ls.len(),
                kn == hs.len(),
                k < kn,
                m == h.lines@.len(),
                h@ == hs[k as int],
                pos as int == hunk_pos(hs[k as int].old_start),
                pos <= cursor <= n,
                tracks(ls, hs, k as int, pos as int, out_h),
                old_side(hs[k as int].lines) == ls.subrange(pos as int, cursor as int) + old_side(
                    hs[k as int].lines.subrange(j as int, m as int),
                ),
                lines_view(out) == out_h + new_side(hs[k as int].lines).subrange(
                    0,
                    lines_view(out).len() - out_h.len(),
                ),
                new_side(hs[k as int].lines) == new_side(hs[k as int].lines).subrange(
                    0,
                    lines_view(out).len() - out_h.len(),
                ) + new_side(hs[k as int].lines.subrange(j as int, m as int)),
                out_h.len() <= lines_view(out).len(),
            decreases m - j,
        {
            let ghost suffix = hs[k as int].lines.subrange(j as int, m as int);
            let ghost suffix2 = hs[k as int].lines.subrange(j + 1, m as int);
            let ghost ob = old_side(hs[k as int].lines);
            let ghost nb = new_side(hs[k as int].lines);
            let ghost nbdone = lines_view(out).len() - out_h.len();
            proof {
                assert(suffix[0] == h.lines@[j as int]@);
                assert(suffix.drop_first() =~= suffix2);
            }
            let pl = &h.lines[j];
            let is_old = match pl {
                PatchLine::Context(_) => true,
                PatchLine::Del(_) => true,
                PatchLine::Add(_) => false,
            };
            proof {
                assert(is_old == in_old(suffix[0]));
                if is_old {
                    assert(old_side(suffix) == seq![line_text(suffix[0])] + old_side(suffix2));
                    assert(ob.len() == (cursor - pos) + old_side(suffix).len());
                }
            }
            if is_old {
                let t = match pl {
                    PatchLine::Context(t) => t,
                    PatchLine::Del(t) => t,
                    PatchLine::Add(t) => t,
                };
                proof {
                    assert(t@ == line_text(suffix[0]));
                }
                if cursor == n {
                    proof {
                        assert(pos + ob.len() > n);
                        assert(apply_from(ls, hs, k as int, pos as int) is None);
                    }
                    return Err(PatchError::Mismatch);
                }
                if !crate::text::chars_eq(&lines[cursor], t) {
                    proof {
                        assert(ls[cursor as int] != line_text(suffix[0]));
                        if pos + ob.len() <= n {
                            let block = ls.subrange(pos as int, pos + ob.len());
                            assert(ob[cursor - pos] == line_text(suffix[0]));
                            assert(block[cursor - pos] == ls[cursor as int]);
                            assert(block != ob);
                        }
                        assert(apply_from(ls, hs, k as int, pos as int) is None);
                    }
                    return Err(PatchError::Mismatch);
                }
                let is_new = match pl {
                    PatchLine::Context(_) => true,
                    PatchLine::Del(_) => false,
                    PatchLine::Add(_) => true,
                };
                if is_new {
                    let ghost out0 = lines_view(out);
                    out.push(crate::text::copy_tail(&lines[cursor], 0));
                    proof {
                        assert(lines[cursor as int]@.subrange(
                            0,
                            lines[cursor as int]@.len() as int,
                        ) =~= lines[cursor as int]@);
                        assert(lines_view(out) =~= out0.push(ls[cursor as int]));
                        assert(new_side(suffix) == seq![line_text(suffix[0])] + new_side(suffix2));
                        assert(nb.subrange(0, nbdone + 1) =~= nb.subrange(0, nbdone).push(
                            nb[nbdone],
                        ));
                        assert(lines_view(out) =~= out_h + nb.subrange(0, nbdone + 1));
                    }
                } else {
                    proof {
                        assert(new_side(suffix) == new_side(suffix2));
                    }
                }
                cursor = cursor + 1;
                proof {
                    assert(ls.subrange(pos as int, cursor as int) =~= ls.subrange(
                        pos as int,
                        cursor - 1,
                    ).push(ls[cursor - 1]));
                    assert(ls.subrange(pos as int, cursor - 1) + old_side(suffix) =~= ls.subrange(
                        pos as int,
                        cursor as int,
                    ) + old_side(suffix2));
                }
            } else {
                let t = match pl {
                    PatchLine::Context(t) => t,
                    PatchLine::Del(t) => t,
                    PatchLine::Add(t) => t,
                };
                let ghost out0 = lines_view(out);
                out.push(crate::text::copy_tail(t, 0));
                proof {
                    assert(t@.subrange(0, t@.len() as int) =~= t@);
                    assert(t@ == line_text(suffix[0]));
                    assert(lines_view(out) =~= out0.push(line_text(suffix[0])));
                    assert(old_side(suffix) == old_side(suffix2));
                    assert(new_side(suffix) == seq![line_text(suffix[0])] + new_side(suffix2));
                    assert(nb.subrange(0, nbdone + 1) =~= nb.subrange(0, nbdone).push(nb[nbdone]));
                    assert(lines_view(out) =~= out_h + nb.subrange(0, nbdone + 1));
                }
            }
        }
        proof {
            let ob = old_side(hs[k as int].lines);
            let nb = new_side(hs[k as int].lines);
            assert(hs[k as int].lines.subrange(m as int, m as int) =~= Seq::<PatchLineV>::empty());
            assert(old_side(Seq::<PatchLineV>::empty()) =~= Seq::<Seq<char>>::empty());
            assert(new_side(Seq::<PatchLineV>::empty()) =~= Seq::<Seq<char>>::empty());
            assert(ob =~= ls.subrange(pos as int, cursor as int));
            assert(pos + ob.len() == cursor);
            assert(nb =~= nb.subrange(0, lines_view(out).len() - out_h.len()));
            assert(lines_view(out) == out_h + nb);
            assert(ls.subrange(pos as int, pos as int) =~= Seq::<Seq<char>>::empty());
            match apply_from(ls, hs, k + 1, cursor as int) {
                Some(rest) => {
                    assert(apply_from(ls, hs, k as int, pos as int) == Some(
                        ls.subrange(pos as int, pos as int) + nb + rest,
                    ));
                    assert(ls.subrange(pos as int, pos as int) + nb + rest =~= nb + rest);
                    assert(out_h + (nb + rest) =~= lines_view(out) + rest);
                },
                None => {
                    assert(apply_from(ls, hs, k as int, pos as int) is None);
                },
            }
        }
    }
    while cursor < n
        invariant
            ls == lines_view(*lines),
            n == ls.len(),
            kn == hs.len(),
            cursor <= n,
            tracks(ls, hs, kn as int, cursor as int, lines_view(out)),
        decreases n - cursor,
    {
        let ghost out0 = lines_view(out);
        proof {
            lemma_apply_cons(ls, hs, kn as int, cursor as int);
        }
        out.push(crate::text::copy_tail(&lines[cursor], 0));
        cursor = cursor + 1;
        proof {
            assert(lines[cursor - 1]@.subrange(0, lines[cursor - 1]@.len() as int) =~= lines[cursor
                - 1]@);
            assert(lines_view(out) =~= out0.push(ls[cursor - 1]));
            match apply_from(ls, hs, kn as int, cursor as int) {
                Some(r) => {
                    assert(out0 + (seq![ls[cursor - 1]] + r) =~= lines_view(out) + r);
                },
                None => {},
            }
        }
    }
    proof {
        assert(apply_from(ls, hs, kn as int, cursor as int) == Some(
            ls.subrange(n as int, n as int),
        ));
        assert(lines_view(out) + ls.subrange(n as int, n as int) =~= lines_view(out));
    }
    Ok(out)
}

/// Applies `patch_text` to `content`, forward when `reverse` is unset and
/// backwards when it is set.  The result keeps a trailing line terminator
/// exactly when `content` is empty or ends with one.
///
/// Fails with `Malformed` when the patch text does not follow the
/// unified-diff shape, and with `Mismatch` when some hunk does not match
/// the content.
pub fn apply_to_text(patch_text: &str, content: &str, reverse: bool) -> (r: Result<
    String,
    PatchError,
>)
    ensures
        match parse_patch(patch_text@) {
            None => r == Err::<String, PatchError>(PatchError::Malformed),
            Some(hs) => {
                let hs2 = if reverse {
                    swap_hunks(hs)
                } else {
                    hs
                };
                match apply_from(split_lines(content@), hs2, 0, 0) {
                    None => r == Err::<String, PatchError>(PatchError::Mismatch),
                    Some(out) => r matches Ok(s) && s@ == join_lines(
                        out,
                        ends_terminated(content@),
                    ),
                }
            },
        },
{
    let pchars = crate::text::chars_of(patch_text);
    let plines = split_lines_exec(&pchars);
    let hunks = match parse_hunks_exec(&plines) {
        Ok(h) => h,
        Err(e) => {
            return Err(e);
        },
    };
    let hunks2 = if reverse {
        swap_patch(&hunks)
    } else {
        hunks
    };
    let cchars = crate::text::chars_of(content);
    let clines = split_lines_exec(&cchars);
    let out = match apply_hunks_exec(&hunks2, &clines) {
        Ok(o) => o,
        Err(e) => {
            return Err(e);
        },
    };
    let trailing = match cchars.last() {
        None => true,
        Some(c) => *c == '\n',
    };
    let joined = join_lines_exec(&out, trailing);
    Ok(crate::text::string_of(&joined))
}

// ---------------------------------------------------------------------------
// The reversal round trip.
// ---------------------------------------------------------------------------

/// The texts of parsed body lines carry no line feed.
proof fn lemma_parse_body_no_nl(ls: Seq<Seq<char>>, i: int, no: int, nn: int)
    requires
        0 <= i <= ls.len(),
        forall|k: int| 0 <= k < ls.len() ==> no_nl(#[trigger] ls[k]),
        parse_body(ls, i, no, nn) is Some,
    ensures
        forall|j: int|
            0 <= j < parse_body(ls, i, no, nn).unwrap().0.len() ==> no_nl(
                line_text(#[trigger] parse_body(ls, i, no, nn).unwrap().0[j]),
            ),
    decreases ls.len() - i,
{
    if no == 0 && nn == 0 {
    } else if i >= ls.len() {
    } else if is_skip_line(ls[i]) {
        lemma_parse_body_no_nl(ls, i + 1, no, nn);
    } else {
        match classify_line(ls[i]) {
            None => {},
            Some(pl) => {
                let no2 = if in_old(pl) {
                    no - 1
                } else {
                    no
                };
                let nn2 = if in_new(pl) {
                    nn - 1
                } else {
                    nn
                };
                if no2 >= 0 && nn2 >= 0 && parse_body(ls, i + 1, no2, nn2) is Some {
                    lemma_parse_body_no_nl(ls, i + 1, no2, nn2);
                    let rest = parse_body(ls, i + 1, no2, nn2).unwrap().0;
                    let whole = parse_body(ls, i, no, nn).unwrap().0;
                    assert(no_nl(line_text(pl))) by {
                        if ls[i].len() > 0 {
                            assert(forall|m: int|
                                0 <= m < ls[i].drop_first().len() ==> ls[i].drop_first()[m] == ls[
                                    i
                                ][m + 1]);
                        }
                    }
                    assert forall|j: int| 0 <= j < whole.len() implies no_nl(
                        line_text(whole[j]),
                    ) by {
                        if j == 0 {
                            assert(whole[0] == pl);
                        } else {
                            assert(whole[j] == rest[j - 1]);
                        }
                    }
                }
            },
        }
    }
}

/// The texts of all parsed hunk lines carry no line feed.
proof fn lemma_parse_hunks_no_nl(ls: Seq<Seq<char>>, i: int)
    requires
        0 <= i <= ls.len(),
        forall|k: int| 0 <= k < ls.len() ==> no_nl(#[trigger] ls[k]),
        parse_hunks_from(ls, i) is Some,
    ensures
        forall|k: int, j: int|
            0 <= k < parse_hunks_from(ls, i).unwrap().len() && 0 <= j < parse_hunks_from(
                ls,
                i,
            ).unwrap()[k].lines.len() ==> no_nl(
                line_text(#[trigger] parse_hunks_from(ls, i).unwrap()[k].lines[j]),
            ),
    decreases ls.len() - i,
{
    if i >= ls.len() {
    } else if is_skip_line(ls[i]) {
        lemma_parse_hunks_no_nl(ls, i + 1);
    } else {
        match parse_header(ls[i]) {
            None => {},
            Some((os, oc, ns, nc)) => match parse_body(ls, i + 1, oc, nc) {
                None => {},
                Some((plines, j0)) => {
                    lemma_parse_body_no_nl(ls, i + 1, oc, nc);
                    let j = next_hunk_index(j0, i, ls.len() as int);
                    lemma_parse_hunks_no_nl(ls, j);
                    let rest = parse_hunks_from(ls, j).unwrap();
                    let whole = parse_hunks_from(ls, i).unwrap();
                    assert forall|k: int, j2: int|
                        0 <= k < whole.len() && 0 <= j2 < whole[k].lines.len() implies no_nl(
                        line_text(#[trigger] whole[k].lines[j2]),
                    ) by {
                        if k == 0 {
                            assert(whole[0].lines == plines);
                        } else {
                            assert(whole[k] == rest[k - 1]);
                        }
                    }
                },
            },
        }
    }
}

/// Every line of a hunk side is the text of some body line.
proof fn lemma_side_lines_from_body(ls: Seq<PatchLineV>)
    ensures
        forall|j: int|
            0 <= j < old_side(ls).len() ==> exists|m: int|
                0 <= m < ls.len() && #[trigger] old_side(ls)[j] == line_text(ls[m]),
        forall|j: int|
            0 <= j < new_side(ls).len() ==> exists|m: int|
                0 <= m < ls.len() && #[trigger] new_side(ls)[j] == line_text(ls[m]),
    decreases ls.len(),
{
    if ls.len() > 0 {
        lemma_side_lines_from_body(ls.drop_first());
        assert forall|j: int| 0 <= j < old_side(ls).len() implies exists|m: int|
            0 <= m < ls.len() && #[trigger] old_side(ls)[j] == line_text(ls[m]) by {
            if in_old(ls[0]) && j == 0 {
                assert(old_side(ls)[0] == line_text(ls[0]));
            } else {
                let j2 = if in_old(ls[0]) {
                    j - 1
                } else {
                    j
                };
                assert(old_side(ls)[j] == old_side(ls.drop_first())[j2]);
                let m2 = choose|m2: int|
                    0 <= m2 < ls.drop_first().len() && old_side(ls.drop_first())[j2] == line_text(
                        ls.drop_first()[m2],
                    );
                assert(old_side(ls)[j] == line_text(ls[m2 + 1]));
            }
        }
        assert forall|j: int| 0 <= j < new_side(ls).len() implies exists|m: int|
            0 <= m < ls.len() && #[trigger] new_side(ls)[j] == line_text(ls[m]) by {
            if in_new(ls[0]) && j == 0 {
                assert(new_side(ls)[0] == line_text(ls[0]));
            } else {
                let j2 = if in_new(ls[0]) {
                    j - 1
                } else {
                    j
                };
                assert(new_side(ls)[j] == new_side(ls.drop_first())[j2]);
                let m2 = choose|m2: int|
                    0 <= m2 < ls.drop_first().len() && new_side(ls.drop_first())[j2] == line_text(
                        ls.drop_first()[m2],
                    );
                assert(new_side(ls)[j] == line_text(ls[m2 + 1]));
            }
        }
    }
}

/// Law: the reversal round trip at the level of lines.  For a single hunk
/// whose two sides start at the same line, applying the hunk forward to the
/// result of the reverse application restores the starting lines.
pub proof fn lemma_hunk_roundtrip(h: HunkV, ls: Seq<Seq<char>>)
    requires
        h.old_start == h.new_start,
        apply_from(ls, seq![swap_hunk(h)], 0, 0) is Some,
    ensures
        apply_from(apply_from(ls, seq![swap_hunk(h)], 0, 0).unwrap(), seq![h], 0, 0) == Some(ls),
        apply_from(ls, seq![swap_hunk(h)], 0, 0).unwrap() == ls.subrange(0, hunk_pos(h.old_start))
            + old_side(h.lines) + ls.subrange(
            hunk_pos(h.old_start) + new_side(h.lines).len(),
            ls.len() as int,
        ),
{
    let sh = swap_hunk(h);
    let pos = hunk_pos(sh.old_start);
    lemma_swap_sides(h.lines);
    let obs = old_side(sh.lines);
    let nbs = new_side(sh.lines);
    assert(obs == new_side(h.lines));
    assert(nbs == old_side(h.lines));
    assert(seq![swap_hunk(h)][0] == sh);
    assert(pos + obs.len() <= ls.len());
    assert(ls.subrange(pos, pos + obs.len()) == obs);
    assert(apply_from(ls, seq![sh], 1, pos + obs.len()) == Some(
        ls.subrange(pos + obs.len(), ls.len() as int),
    ));
    let orig = apply_from(ls, seq![swap_hunk(h)], 0, 0).unwrap();
    assert(orig == ls.subrange(0, pos) + nbs + ls.subrange(pos + obs.len(), ls.len() as int));
    assert(hunk_pos(h.old_start) == pos);
    assert(seq![h][0] == h);
    assert(orig.len() == pos + nbs.len() + (ls.len() - pos - obs.len()));
    assert(orig.subrange(pos, pos + nbs.len()) =~= nbs);
    assert(apply_from(orig, seq![h], 1, pos + nbs.len()) == Some(
        orig.subrange(pos + nbs.len(), orig.len() as int),
    ));
    assert(orig.subrange(pos + nbs.len(), orig.len() as int) =~= ls.subrange(
        pos + obs.len(),
        ls.len() as int,
    ));
    assert(apply_from(orig, seq![h], 0, 0) == Some(
        orig.subrange(0, pos) + new_side(h.lines) + ls.subrange(pos + obs.len(), ls.len() as int),
    ));
    assert(orig.subrange(0, pos) =~= ls.subrange(0, pos));
    assert(orig.subrange(0, pos) + new_side(h.lines) + ls.subrange(
        pos + obs.len(),
        ls.len() as int,
    ) =~= ls);
}

/// Law: the reversal round trip at the level of texts.  For a patch with one
/// balanced hunk, forward-applying the patch to the text produced by the
/// reverse application reproduces the starting text exactly, provided the
/// starting text is empty or ends with a line terminator.
pub proof fn lemma_reverse_roundtrip(patch: Seq<char>, content: Seq<char>)
    requires
        parse_patch(patch) is Some,
        parse_patch(patch).unwrap().len() == 1,
        parse_patch(patch).unwrap()[0].old_start == parse_patch(patch).unwrap()[0].new_start,
        apply_from(split_lines(content), swap_hunks(parse_patch(patch).unwrap()), 0, 0) is Some,
        ends_terminated(content),
    ensures
        ({
            let hs = parse_patch(patch).unwrap();
            let orig_lines = apply_from(split_lines(content), swap_hunks(hs), 0, 0).unwrap();
            let orig_text = join_lines(orig_lines, ends_terminated(content));
            &&& ends_terminated(orig_text)
            &&& apply_from(split_lines(orig_text), hs, 0, 0) == Some(split_lines(content))
            &&& join_lines(split_lines(content), ends_terminated(orig_text)) == content
        }),
{
    let hs = parse_patch(patch).unwrap();
    let h = hs[0];
    let cls = split_lines(content);
    assert(hs =~= seq![h]);
    assert(swap_hunks(hs) =~= seq![swap_hunk(h)]);
    let orig_lines = apply_from(cls, swap_hunks(hs), 0, 0).unwrap();
    lemma_hunk_roundtrip(h, cls);
    assert(apply_from(orig_lines, seq![h], 0, 0) == Some(cls));
    // Every produced line is free of line feeds, so joining and re-splitting
    // the reversed text restores exactly these lines.
    let sh = swap_hunk(h);
    let pos = hunk_pos(sh.old_start);
    let obs = old_side(sh.lines);
    let nbs = new_side(sh.lines);
    lemma_swap_sides(h.lines);
    assert(pos == hunk_pos(h.old_start));
    assert(orig_lines == cls.subrange(0, pos) + old_side(h.lines) + cls.subrange(
        pos + new_side(h.lines).len(),
        cls.len() as int,
    ));
    assert(orig_lines == cls.subrange(0, pos) + nbs + cls.subrange(
        pos + obs.len(),
        cls.len() as int,
    ));
    lemma_split_lines_no_nl(content);
    lemma_split_lines_no_nl(patch);
    lemma_parse_hunks_no_nl(split_lines(patch), 0);
    lemma_side_lines_from_body(h.lines);
    assert(forall|j: int| 0 <= j < orig_lines.len() ==> no_nl(#[trigger] orig_lines[j])) by {
        assert forall|j: int| 0 <= j < orig_lines.len() implies no_nl(
            #[trigger] orig_lines[j],
        ) by {
            if j < pos {
                assert(orig_lines[j] == cls[j]);
            } else if j < pos + nbs.len() {
                assert(orig_lines[j] == old_side(h.lines)[j - pos]);
                let m = choose|m: int|
                    0 <= m < h.lines.len() && old_side(h.lines)[j - pos] == line_text(h.lines[m]);
                assert(no_nl(line_text(h.lines[m])));
            } else {
                assert(orig_lines[j] == cls[j - pos - nbs.len() + pos + obs.len()]);
            }
        }
    }
    let orig_text = join_lines(orig_lines, true);
    assert(ends_terminated(orig_text)) by {
        lemma_join_terminated(orig_lines);
    }
    lemma_split_join(orig_lines, true);
    assert(split_lines(orig_text) == orig_lines);
    assert(apply_from(split_lines(orig_text), hs, 0, 0) == Some(cls));
    lemma_join_split(content);
    assert(join_lines(cls, ends_terminated(orig_text)) == content);
}

/// Joining with a trailing terminator yields empty text or text that ends
/// with a line feed.
proof fn lemma_join_terminated(ls: Seq<Seq<char>>)
    ensures
        ends_terminated(join_lines(ls, true)),
    decreases ls.len(),
{
    if ls.len() == 0 {
    } else if ls.len() == 1 {
        let t = join_lines(ls, true);
        assert(t == ls[0] + seq!['\n']);
        assert(t[t.len() - 1] == '\n');
    } else {
        lemma_join_terminated(ls.drop_first());
        let t = join_lines(ls, true);
        let rest = join_lines(ls.drop_first(), true);
        assert(rest.len() > 0) by {
            if ls.drop_first().len() == 1 {
                assert(rest == ls.drop_first()[0] + seq!['\n']);
            }
        }
        assert(t == ls[0] + seq!['\n'] + rest);
        assert(t[t.len() - 1] == rest[rest.len() - 1]);
    }
}

} // verus!
