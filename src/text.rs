use vstd::prelude::*;

verus! {

/// A byte span `[start, end)` of a document.
#[derive(Clone, Copy, Debug, PartialEq, Eq, Structural)]
pub struct Span {
    pub start: usize,
    pub end: usize,
}

/// `n` space characters.
pub open spec fn spaces(n: nat) -> Seq<u8>
    decreases n,
{
    if n == 0 {
        Seq::empty()
    } else {
        spaces((n - 1) as nat).push(0x20u8)
    }
}

/// The index of the first line feed at or after `i`, or the length of `s`.
pub open spec fn line_end(s: Seq<u8>, i: int) -> int
    decreases s.len() - i,
{
    if i >= s.len() || i < 0 {
        s.len() as int
    } else if s[i] == 0x0au8 {
        i
    } else {
        line_end(s, i + 1)
    }
}

/// The line that starts at `i` and ends at `j`, without a carriage return that stood
/// right before a terminating line feed.
pub open spec fn trim_line(s: Seq<u8>, i: int, j: int) -> Seq<u8> {
    if j < s.len() && j > i && s[j - 1] == 0x0du8 {
        s.subrange(i, j - 1)
    } else {
        s.subrange(i, j)
    }
}

/// The lines of `s` from byte `i` on: split at line feeds, a terminating `\r\n` counts as
/// one line ending, and a final line ending opens no further line.
pub open spec fn lines_from(s: Seq<u8>, i: int) -> Seq<Seq<u8>>
    decreases s.len() - i,
{
    if i >= s.len() || i < 0 {
        Seq::empty()
    } else {
        let j = line_end(s, i);
        if j < i || j >= s.len() {
            seq![trim_line(s, i, s.len() as int)]
        } else {
            seq![trim_line(s, i, j)] + lines_from(s, j + 1)
        }
    }
}

pub open spec fn lines_of(s: Seq<u8>) -> Seq<Seq<u8>> {
    lines_from(s, 0)
}

/// The lines rejoined with line feeds, each line after the first prefixed by `n` spaces.
pub open spec fn join_indented(ls: Seq<Seq<u8>>, n: nat) -> Seq<u8>
    decreases ls.len(),
{
    if ls.len() == 0 {
        Seq::empty()
    } else if ls.len() == 1 {
        ls[0]
    } else {
        join_indented(ls.drop_last(), n) + seq![0x0au8] + spaces(n) + ls.last()
    }
}

/// The nested content formatted for a splice point with indentation `n`.
pub open spec fn indented(s: Seq<u8>, n: nat) -> Seq<u8> {
    join_indented(lines_of(s), n)
}

/// `x` with the span `sp` replaced by `r`.
pub open spec fn put(x: Seq<u8>, sp: Span, r: Seq<u8>) -> Seq<u8> {
    x.subrange(0, sp.start as int) + r + x.subrange(sp.end as int, x.len() as int)
}

/// The spans lie inside a document of length `len`, in order and without overlap.
pub open spec fn spans_placed(spans: Seq<Span>, len: nat) -> bool {
    &&& forall|i: int| 0 <= i < spans.len() ==> #[trigger] spans[i].start <= spans[i].end
    &&& forall|i: int| 0 <= i < spans.len() ==> #[trigger] spans[i].end <= len
    &&& forall|i: int, j: int|
        0 <= i < j < spans.len() ==> #[trigger] spans[i].end <= #[trigger] spans[j].start
}

/// Every replacement computed at once against the offsets of the unchanged document: the
/// text between the spans is taken from `c` as it stands.
pub open spec fn splice_all(c: Seq<u8>, spans: Seq<Span>, reps: Seq<Seq<u8>>) -> Seq<u8>
    decreases spans.len(),
{
    if spans.len() == 0 || reps.len() == 0 {
        c
    } else {
        let sp = spans.last();
        splice_all(c.subrange(0, sp.start as int), spans.drop_last(), reps.drop_last())
            + reps.last() + c.subrange(sp.end as int, c.len() as int)
    }
}

/// The replacements applied one after the other to the buffer, rightmost first.
pub open spec fn splice_reverse(c: Seq<u8>, spans: Seq<Span>, reps: Seq<Seq<u8>>) -> Seq<u8>
    decreases spans.len(),
{
    if spans.len() == 0 || reps.len() == 0 {
        c
    } else {
        splice_reverse(put(c, spans.last(), reps.last()), spans.drop_last(), reps.drop_last())
    }
}

proof fn lemma_reverse_append(p: Seq<u8>, q: Seq<u8>, spans: Seq<Span>, reps: Seq<Seq<u8>>)
    requires
        spans_placed(spans, p.len()),
        spans.len() == reps.len(),
    ensures
        splice_reverse(p + q, spans, reps) == splice_reverse(p, spans, reps) + q,
    decreases spans.len(),
{
    if spans.len() > 0 {
        let k = spans.len() - 1;
        let sp = spans.last();
        let r = reps.last();
        let p2 = put(p, sp, r);
        assert(put(p + q, sp, r) =~= p2 + q);
        let init = spans.drop_last();
        assert forall|i: int| 0 <= i < init.len() implies #[trigger] init[i].end <= p2.len() by {
            assert(spans[i].end <= spans[k].start);
        }
        assert forall|i: int, j: int| 0 <= i < j < init.len() implies #[trigger] init[i].end
            <= #[trigger] init[j].start by {
            assert(spans[i].end <= spans[j].start);
        }
        lemma_reverse_append(p2, q, init, reps.drop_last());
    }
}

/// Splicing rightmost first into one buffer gives the same bytes as computing every
/// replacement against the offsets of the unchanged document at once.
pub proof fn lemma_reverse_splice_is_simultaneous(c: Seq<u8>, spans: Seq<Span>, reps: Seq<Seq<u8>>)
    requires
        spans_placed(spans, c.len()),
        spans.len() == reps.len(),
    ensures
        splice_reverse(c, spans, reps) == splice_all(c, spans, reps),
    decreases spans.len(),
{
    if spans.len() > 0 {
        let k = spans.len() - 1;
        let sp = spans.last();
        let r = reps.last();
        let pre = c.subrange(0, sp.start as int);
        let rest = r + c.subrange(sp.end as int, c.len() as int);
        assert(put(c, sp, r) =~= pre + rest);
        let init = spans.drop_last();
        assert forall|i: int| 0 <= i < init.len() implies #[trigger] init[i].end <= pre.len() by {
            assert(spans[i].end <= spans[k].start);
        }
        assert forall|i: int, j: int| 0 <= i < j < init.len() implies #[trigger] init[i].end
            <= #[trigger] init[j].start by {
            assert(spans[i].end <= spans[j].start);
        }
        lemma_reverse_append(pre, rest, init, reps.drop_last());
        lemma_reverse_splice_is_simultaneous(pre, init, reps.drop_last());
        assert(splice_all(c, spans, reps) =~= splice_all(pre, init, reps.drop_last()) + rest);
    }
}

/// How much the first `k` replacements lengthen the document.
pub open spec fn growth(spans: Seq<Span>, reps: Seq<Seq<u8>>, k: int) -> int
    decreases k,
{
    if k <= 0 {
        0
    } else {
        growth(spans, reps, k - 1) + reps[k - 1].len() - (spans[k - 1].end - spans[k - 1].start)
    }
}

proof fn lemma_growth_prefix(spans: Seq<Span>, reps: Seq<Seq<u8>>, k: int)
    requires
        0 <= k < spans.len(),
        k < reps.len(),
    ensures
        growth(spans.drop_last(), reps.drop_last(), k) == growth(spans, reps, k),
    decreases k,
{
    if k > 0 {
        lemma_growth_prefix(spans, reps, k - 1);
    }
}

proof fn lemma_splice_len(c: Seq<u8>, spans: Seq<Span>, reps: Seq<Seq<u8>>)
    requires
        spans_placed(spans, c.len()),
        spans.len() == reps.len(),
    ensures
        splice_all(c, spans, reps).len() == c.len() + growth(spans, reps, spans.len() as int),
    decreases spans.len(),
{
    if spans.len() > 0 {
        let n = spans.len() - 1;
        let sp = spans.last();
        let init = spans.drop_last();
        let pre = c.subrange(0, sp.start as int);
        assert forall|i: int| 0 <= i < init.len() implies #[trigger] init[i].end <= pre.len() by {
            assert(spans[i].end <= spans[n].start);
        }
        assert forall|i: int, j: int| 0 <= i < j < init.len() implies #[trigger] init[i].end
            <= #[trigger] init[j].start by {
            assert(spans[i].end <= spans[j].start);
        }
        lemma_splice_len(pre, init, reps.drop_last());
        if n > 0 {
            lemma_growth_prefix(spans, reps, n);
        }
    }
}

/// Each replacement stands in the spliced document exactly as given, at its start in the unchanged document
/// shifted by what the replacements before it added or removed.
pub proof fn lemma_replacement_at_splice_point(
    c: Seq<u8>,
    spans: Seq<Span>,
    reps: Seq<Seq<u8>>,
    k: int,
)
    requires
        spans_placed(spans, c.len()),
        spans.len() == reps.len(),
        0 <= k < spans.len(),
    ensures
        ({
            let pos = spans[k].start + growth(spans, reps, k);
            &&& 0 <= pos
            &&& pos + reps[k].len() <= splice_all(c, spans, reps).len()
            &&& splice_all(c, spans, reps).subrange(pos, pos + reps[k].len()) == reps[k]
        }),
    decreases spans.len(),
{
    let n = spans.len() - 1;
    let sp = spans.last();
    let init = spans.drop_last();
    let ri = reps.drop_last();
    let pre = c.subrange(0, sp.start as int);
    assert forall|i: int| 0 <= i < init.len() implies #[trigger] init[i].end <= pre.len() by {
        assert(spans[i].end <= spans[n].start);
    }
    assert forall|i: int, j: int| 0 <= i < j < init.len() implies #[trigger] init[i].end
        <= #[trigger] init[j].start by {
        assert(spans[i].end <= spans[j].start);
    }
    let head = splice_all(pre, init, ri);
    let tail = reps.last() + c.subrange(sp.end as int, c.len() as int);
    assert(splice_all(c, spans, reps) == head + tail);
    lemma_splice_len(pre, init, ri);
    if n > 0 {
        lemma_growth_prefix(spans, reps, n);
    }
    lemma_growth_nonneg_start(spans, reps, k);
    if k == n {
        assert((head + tail).subrange(head.len() as int, (head.len() + reps[k].len()) as int) =~= reps[k]);
    } else {
        lemma_replacement_at_splice_point(pre, init, ri, k);
        lemma_growth_prefix(spans, reps, k);
        let pos = spans[k].start + growth(spans, reps, k);
        assert((head + tail).subrange(pos, pos + reps[k].len()) =~= head.subrange(
            pos,
            pos + reps[k].len(),
        ));
    }
}

/// Where the stretch of `c` before span `k` starts: the end of span `k - 1`, or 0.
pub open spec fn gap_start(spans: Seq<Span>, k: int) -> int {
    if k == 0 {
        0
    } else {
        spans[k - 1].end as int
    }
}

/// Where the stretch of `c` before span `k` ends: the start of span `k`, or the end of `c`
/// after the last span.
pub open spec fn gap_end(c: Seq<u8>, spans: Seq<Span>, k: int) -> int {
    if k == spans.len() {
        c.len() as int
    } else {
        spans[k].start as int
    }
}

/// The text around and between the spans is left as it is: each stretch of `c` outside
/// the spans stands in the spliced document, shifted by what the replacements before it
/// added or removed.
pub proof fn lemma_text_between_spans_kept(
    c: Seq<u8>,
    spans: Seq<Span>,
    reps: Seq<Seq<u8>>,
    k: int,
)
    requires
        spans_placed(spans, c.len()),
        spans.len() == reps.len(),
        0 <= k <= spans.len(),
    ensures
        ({
            let gs = gap_start(spans, k);
            let ge = gap_end(c, spans, k);
            let pos = gs + growth(spans, reps, k);
            &&& 0 <= pos
            &&& gs <= ge
            &&& pos + (ge - gs) <= splice_all(c, spans, reps).len()
            &&& splice_all(c, spans, reps).subrange(pos, pos + (ge - gs)) == c.subrange(gs, ge)
        }),
    decreases spans.len(),
{
    if spans.len() == 0 {
        assert(c.subrange(0, c.len() as int) =~= c);
        return;
    }
    let n = spans.len() - 1;
    let sp = spans.last();
    let init = spans.drop_last();
    let ri = reps.drop_last();
    let pre = c.subrange(0, sp.start as int);
    assert forall|i: int| 0 <= i < init.len() implies #[trigger] init[i].end <= pre.len() by {
        assert(spans[i].end <= spans[n].start);
    }
    assert forall|i: int, j: int| 0 <= i < j < init.len() implies #[trigger] init[i].end
        <= #[trigger] init[j].start by {
        assert(spans[i].end <= spans[j].start);
    }
    let head = splice_all(pre, init, ri);
    let tail = reps.last() + c.subrange(sp.end as int, c.len() as int);
    assert(splice_all(c, spans, reps) == head + tail);
    lemma_splice_len(pre, init, ri);
    if n > 0 {
        lemma_growth_prefix(spans, reps, n);
    }
    if k == n + 1 {
        let pos = sp.end + growth(spans, reps, k);
        assert(growth(spans, reps, k) == growth(spans, reps, n) + reps[n].len() - (spans[n].end
            - spans[n].start));
        assert(pre.len() == sp.start);
        assert(growth(init, ri, n) == growth(spans, reps, n));
        assert(pos == head.len() + reps.last().len());
        assert((head + tail).subrange(pos, pos + (c.len() - sp.end)) =~= c.subrange(
            sp.end as int,
            c.len() as int,
        ));
    } else {
        lemma_text_between_spans_kept(pre, init, ri, k);
        if k > 0 {
            lemma_growth_prefix(spans, reps, k - 1);
            lemma_growth_prefix(spans, reps, k);
        }
        if k < n {
            assert(spans[k].start <= spans[n].start) by {
                assert(spans[k].end <= spans[n].start);
            }
        }
        assert(gap_end(pre, init, k) == gap_end(c, spans, k));
        assert(gap_start(init, k) == gap_start(spans, k));
        let gs = gap_start(spans, k);
        let ge = gap_end(c, spans, k);
        let pos = gs + growth(spans, reps, k);
        assert(pre.subrange(gs, ge) =~= c.subrange(gs, ge));
        assert((head + tail).subrange(pos, pos + (ge - gs)) =~= head.subrange(pos, pos + (ge - gs)));
    }
}

proof fn lemma_growth_nonneg_start(spans: Seq<Span>, reps: Seq<Seq<u8>>, k: int)
    requires
        forall|i: int| 0 <= i < spans.len() ==> #[trigger] spans[i].start <= spans[i].end,
        forall|i: int, j: int|
            0 <= i < j < spans.len() ==> #[trigger] spans[i].end <= #[trigger] spans[j].start,
        spans.len() == reps.len(),
        0 <= k < spans.len(),
    ensures
        spans[k].start + growth(spans, reps, k) >= 0,
        k > 0 ==> spans[k].start + growth(spans, reps, k) >= spans[k - 1].start + growth(
            spans,
            reps,
            k - 1,
        ) + reps[k - 1].len(),
    decreases k,
{
    if k > 0 {
        lemma_growth_nonneg_start(spans, reps, k - 1);
        assert(spans[k - 1].end <= spans[k].start);
    }
}

/// A document without occurrences is left as it is.
pub proof fn lemma_no_occurrences_unchanged(c: Seq<u8>)
    ensures
        splice_all(c, Seq::empty(), Seq::empty()) == c,
        splice_reverse(c, Seq::empty(), Seq::empty()) == c,
{
}

proof fn lemma_join_starts_with_first(ls: Seq<Seq<u8>>, n: nat)
    requires
        ls.len() > 0,
    ensures
        join_indented(ls, n).len() >= ls[0].len(),
        join_indented(ls, n).subrange(0, ls[0].len() as int) == ls[0],
    decreases ls.len(),
{
    if ls.len() > 1 {
        let init = ls.drop_last();
        lemma_join_starts_with_first(init, n);
        let j = join_indented(init, n);
        let rest = seq![0x0au8] + spaces(n) + ls.last();
        assert(join_indented(ls, n) == j + rest);
        assert((j + rest).subrange(0, ls[0].len() as int) =~= j.subrange(0, ls[0].len() as int));
    }
}

/// Formatting never touches the first line: the nested content's first line opens the
/// formatted block exactly as it was.
pub proof fn lemma_first_line_kept(s: Seq<u8>, n: nat)
    requires
        lines_of(s).len() > 0,
    ensures
        indented(s, n).len() >= lines_of(s)[0].len(),
        indented(s, n).subrange(0, lines_of(s)[0].len() as int) == lines_of(s)[0],
{
    lemma_join_starts_with_first(lines_of(s), n);
}

/// Every line after the first is written after a line feed and exactly `n` spaces: the
/// block of the first `k + 1` lines is the block of the first `k` lines, a line feed,
/// `n` spaces and line `k`.
pub proof fn lemma_later_lines_indented(s: Seq<u8>, n: nat, k: int)
    requires
        1 <= k < lines_of(s).len(),
    ensures
        join_indented(lines_of(s).take(k + 1), n) == join_indented(lines_of(s).take(k), n)
            + seq![0x0au8] + spaces(n) + lines_of(s)[k],
        join_indented(lines_of(s), n) == indented(s, n),
        spaces(n).len() == n,
        forall|i: int| 0 <= i < n ==> #[trigger] spaces(n)[i] == 0x20u8,
{
    lemma_spaces(n);
    let ls = lines_of(s);
    assert(ls.take(k + 1).drop_last() =~= ls.take(k));
}

proof fn lemma_spaces(n: nat)
    ensures
        spaces(n).len() == n,
        forall|i: int| 0 <= i < n ==> #[trigger] spaces(n)[i] == 0x20u8,
    decreases n,
{
    if n > 0 {
        lemma_spaces((n - 1) as nat);
    }
}

/// Appends `s[from..to]` to `out`.
pub fn append_range(out: &mut Vec<u8>, s: &[u8], from: usize, to: usize)
    requires
        from <= to <= s@.len(),
    ensures
        final(out)@ == old(out)@ + s@.subrange(from as int, to as int),
{
    let mut k: usize = from;
    while k < to
        invariant
            from <= k <= to <= s@.len(),
            out@ == old(out)@ + s@.subrange(from as int, k as int),
        decreases to - k,
    {
        out.push(s[k]);
        assert(s@.subrange(from as int, k + 1) =~= s@.subrange(from as int, k as int).push(s@[k as int]));
        k = k + 1;
    }
}

fn find_line_end(s: &[u8], i: usize) -> (j: usize)
    requires
        i <= s@.len(),
    ensures
        j == line_end(s@, i as int),
        i <= j <= s@.len(),
{
    let mut j: usize = i;
    while j < s.len() && s[j] != 0x0au8
        invariant
            i <= j <= s@.len(),
            line_end(s@, i as int) == line_end(s@, j as int),
        decreases s@.len() - j,
    {
        j = j + 1;
    }
    j
}

/// Formats nested content for a splice point: the first line stays as it is, every later
/// line is prefixed by `indentation` spaces, and the lines are rejoined with line feeds.
pub fn indent_block(s: &[u8], indentation: usize) -> (r: Vec<u8>)
    ensures
        r@ == indented(s@, indentation as nat),
{
    let mut out: Vec<u8> = Vec::new();
    let mut i: usize = 0;
    let mut first: bool = true;
    let ghost mut done: Seq<Seq<u8>> = Seq::empty();
    while i < s.len()
        invariant
            i <= s@.len(),
            first == (done.len() == 0),
            done + lines_from(s@, i as int) == lines_of(s@),
            out@ == join_indented(done, indentation as nat),
        decreases s@.len() - i,
    {
        let j = find_line_end(s, i);
        let stop: usize = if j < s.len() && j > i && s[j - 1] == 0x0du8 {
            j - 1
        } else {
            j
        };
        let ghost line = trim_line(s@, i as int, j as int);
        assert(line == s@.subrange(i as int, stop as int));
        if !first {
            let ghost before = out@;
            out.push(0x0au8);
            let mut k: usize = 0;
            while k < indentation
                invariant
                    k <= indentation,
                    out@ == before + seq![0x0au8] + spaces(k as nat),
                decreases indentation - k,
            {
                out.push(0x20u8);
                k = k + 1;
            }
        }
        append_range(&mut out, s, i, stop);
        first = false;
        proof {
            let nd = done.push(line);
            assert(nd.drop_last() =~= done);
            if j < s@.len() {
                assert(lines_from(s@, i as int) =~= seq![line] + lines_from(s@, j + 1));
            } else {
                assert(lines_from(s@, i as int) =~= seq![line]);
                assert(lines_from(s@, s@.len() as int) =~= Seq::<Seq<u8>>::empty());
            }
            done = nd;
        }
        i = if j < s.len() {
            j + 1
        } else {
            s.len()
        };
        assert(done + lines_from(s@, i as int) =~= lines_of(s@));
    }
    assert(done =~= lines_of(s@));
    out
}

/// The replacements spliced into `c` at their spans, rightmost first, into one buffer.
pub fn splice(c: &[u8], spans: &Vec<Span>, reps: &Vec<Vec<u8>>) -> (r: Vec<u8>)
    requires
        spans_placed(spans@, c@.len()),
        spans@.len() == reps@.len(),
    ensures
        r@ == splice_all(c@, spans@, reps.deep_view()),
{
    let ghost rv = reps.deep_view();
    let mut buf: Vec<u8> = Vec::new();
    append_range(&mut buf, c, 0, c.len());
    assert(buf@ =~= c@);
    let mut i: usize = spans.len();
    assert(spans@.subrange(0, i as int) =~= spans@);
    assert(rv.subrange(0, i as int) =~= rv);
    while i > 0
        invariant
            i <= spans@.len() == reps@.len() == rv.len(),
            rv == reps.deep_view(),
            spans_placed(spans@, c@.len()),
            splice_reverse(buf@, spans@.subrange(0, i as int), rv.subrange(0, i as int))
                == splice_reverse(c@, spans@, rv),
            i == spans@.len() ==> buf@ == c@,
            i < spans@.len() ==> buf@.len() >= spans@[i as int].start && buf@.subrange(
                0,
                spans@[i as int].start as int,
            ) == c@.subrange(0, spans@[i as int].start as int),
        decreases i,
    {
        let sp = spans[i - 1];
        proof {
            if i < spans@.len() {
                assert(spans@[i - 1].end <= spans@[i as int].start);
            }
        }
        let mut nb: Vec<u8> = Vec::new();
        append_range(&mut nb, &buf, 0, sp.start);
        append_range(&mut nb, &reps[i - 1], 0, reps[i - 1].len());
        append_range(&mut nb, &buf, sp.end, buf.len());
        proof {
            let st = spans@.subrange(0, i as int);
            let rt = rv.subrange(0, i as int);
            assert(st.last() == sp);
            assert(rt.last() == reps@[i - 1]@);
            assert(st.drop_last() =~= spans@.subrange(0, i - 1));
            assert(rt.drop_last() =~= rv.subrange(0, i - 1));
            assert(reps@[i - 1]@.subrange(0, reps@[i - 1]@.len() as int) =~= reps@[i - 1]@);
            assert(nb@ =~= put(buf@, sp, rt.last()));
            if i < spans@.len() {
                assert(nb@.subrange(0, sp.start as int) =~= buf@.subrange(0, sp.start as int));
                assert(buf@.subrange(0, sp.start as int) =~= buf@.subrange(
                    0,
                    spans@[i as int].start as int,
                ).subrange(0, sp.start as int));
                assert(c@.subrange(0, sp.start as int) =~= c@.subrange(
                    0,
                    spans@[i as int].start as int,
                ).subrange(0, sp.start as int));
            } else {
                assert(nb@.subrange(0, sp.start as int) =~= c@.subrange(0, sp.start as int));
            }
        }
        buf = nb;
        i = i - 1;
    }
    proof {
        assert(spans@.subrange(0, 0) =~= Seq::<Span>::empty());
        lemma_reverse_splice_is_simultaneous(c@, spans@, rv);
    }
    buf
}

} // verus!
