//! Line-oriented text handling: splitting a buffer into lines, counting its
//! lines, and padding or truncating every line to a fixed width.

use crate::lines::LineNumber;
use vstd::prelude::*;
use vstd::string::StrSliceExecFns;
use vstd::string::StringExecFns;

verus! {

/// The index of the first newline character of `s`, or `s.len()` when `s`
/// holds none.
pub open spec fn first_newline(s: Seq<char>) -> nat
    decreases s.len(),
{
    if s.len() == 0 {
        0
    } else if s[0] == '\n' {
        0
    } else {
        1 + first_newline(s.drop_first())
    }
}

/// `first_newline` points at the first newline character, or past the end
/// when there is none.
pub proof fn lemma_first_newline(s: Seq<char>)
    ensures
        0 <= first_newline(s) <= s.len(),
        first_newline(s) < s.len() ==> s[first_newline(s) as int] == '\n',
        forall|j: int| 0 <= j < first_newline(s) ==> s[j] != '\n',
    decreases s.len(),
{
    if s.len() == 0 {
    } else if s[0] == '\n' {
    } else {
        lemma_first_newline(s.drop_first());
        assert forall|j: int| 0 <= j < first_newline(s) implies s[j] != '\n' by {
            if j >= 1 {
                assert(s.drop_first()[j - 1] != '\n');
            }
        }
    }
}

/// A position holding a newline, preceded by none, is exactly where
/// `first_newline` points.
pub proof fn lemma_first_newline_at(s: Seq<char>, k: int)
    requires
        0 <= k <= s.len(),
        k < s.len() ==> s[k] == '\n',
        forall|j: int| 0 <= j < k ==> s[j] != '\n',
    ensures
        first_newline(s) == k,
    decreases s.len(),
{
    if s.len() == 0 {
    } else if s[0] == '\n' {
    } else {
        assert(forall|j: int| 0 <= j < k - 1 ==> s.drop_first()[j] == s[j + 1]);
        lemma_first_newline_at(s.drop_first(), k - 1);
    }
}

/// The lines of `s`: the segments between newline characters, with the
/// newlines themselves left out. A trailing newline opens no further line,
/// and the empty text has no lines.
pub open spec fn lines_of(s: Seq<char>) -> Seq<Seq<char>>
    decreases s.len(),
{
    if s.len() == 0 {
        seq![]
    } else {
        let i = first_newline(s) as int;
        if i >= s.len() {
            seq![s]
        } else {
            seq![s.take(i)] + lines_of(s.skip(i + 1))
        }
    }
}

/// Holds no newline character.
pub open spec fn newline_free(l: Seq<char>) -> bool {
    forall|j: int| 0 <= j < l.len() ==> l[j] != '\n'
}

/// Consuming a newline-free line and its terminating newline from the front
/// of a text takes off exactly its first line.
pub proof fn lemma_lines_of_step(l: Seq<char>, rest: Seq<char>)
    requires
        newline_free(l),
    ensures
        lines_of(l + seq!['\n'] + rest) == seq![l] + lines_of(rest),
{
    let s = l + seq!['\n'] + rest;
    assert(forall|j: int| 0 <= j < l.len() ==> s[j] == l[j]);
    lemma_first_newline_at(s, l.len() as int);
    assert(s.take(l.len() as int) =~= l);
    assert(s.skip(l.len() as int + 1) =~= rest);
}

/// A nonempty text without newlines is one single line.
pub proof fn lemma_lines_of_last(l: Seq<char>)
    requires
        l.len() > 0,
        newline_free(l),
    ensures
        lines_of(l) == seq![l],
{
    lemma_first_newline_at(l, l.len() as int);
}

/// A run of `n` spaces.
pub open spec fn spaces(n: int) -> Seq<char> {
    Seq::new(n as nat, |k: int| ' ')
}

/// `l` fitted to exactly `w` units: truncated when longer, right-padded with
/// spaces when shorter.
pub open spec fn fit_line(l: Seq<char>, w: int) -> Seq<char> {
    if l.len() > w {
        l.take(w)
    } else {
        l + spaces(w - l.len())
    }
}

/// Every line of `ls` fitted to `w` units, each followed by a newline.
pub open spec fn render_lines(ls: Seq<Seq<char>>, w: int) -> Seq<char>
    decreases ls.len(),
{
    if ls.len() == 0 {
        seq![]
    } else {
        fit_line(ls[0], w) + seq!['\n'] + render_lines(ls.drop_first(), w)
    }
}

/// The text `s` with every line padded or truncated to exactly `w` units and
/// newline-terminated.
pub open spec fn enforce_spec(s: Seq<char>, w: int) -> Seq<char> {
    render_lines(lines_of(s), w)
}

/// Appends the segment `s[q..p]`, fitted to exactly `width` units, and a
/// terminating newline to `out`.
#[verifier::loop_isolation(false)]
fn push_fitted(out: &mut String, s: &str, q: usize, p: usize, width: usize)
    requires
        q <= p <= s@.len(),
    ensures
        final(out)@ == old(out)@ + fit_line(s@.subrange(q as int, p as int), width as int) + seq![
            '\n',
        ],
{
    proof {
        reveal_strlit("\n");
        reveal_strlit(" ");
    }
    let ghost l = s@.subrange(q as int, p as int);
    let line_len: usize = p - q;
    if line_len > width {
        // Truncate.
        let piece = s.substring_char(q, q + width);
        out.append(piece);
        proof {
            assert(piece@ =~= l.take(width as int));
        }
    } else {
        // Pad with spaces.
        let piece = s.substring_char(q, p);
        out.append(piece);
        let ghost base = out@;
        proof {
            assert(base =~= base + spaces(0));
        }
        let mut pad: usize = line_len;
        while pad < width
            invariant
                line_len <= pad <= width,
                out@ == base + spaces(pad - line_len),
            decreases width - pad,
        {
            out.append(" ");
            proof {
                assert(" "@ =~= seq![' ']);
                assert(base + spaces(pad - line_len) + " "@ =~= base + spaces(
                    pad + 1 - line_len,
                ));
            }
            pad = pad + 1;
        }
        proof {
            assert(out@ =~= old(out)@ + fit_line(l, width as int));
        }
    }
    out.append("\n");
    proof {
        assert("\n"@ =~= seq!['\n']);
        assert(out@ =~= old(out)@ + fit_line(l, width as int) + seq!['\n']);
    }
}

/// Ensure that every line in `s` has this length. Pad short lines and
/// truncate long lines. Every output line, the last included, is
/// newline-terminated.
#[verifier::loop_isolation(false)]
pub fn enforce_length(s: &str, line_length: usize) -> (r: String)
    ensures
        r@ == enforce_spec(s@, line_length as int),
{
    let n: usize = s.unicode_len();
    let mut result = String::new();
    // Start of the line under scan, and the scan position within it.
    let mut q: usize = 0;
    let mut p: usize = 0;
    proof {
        assert(s@.skip(0) =~= s@);
    }
    while p < n
        invariant
            q <= p <= n,
            n == s@.len(),
            forall|j: int| q <= j < p ==> s@[j] != '\n',
            result@ + enforce_spec(s@.skip(q as int), line_length as int) == enforce_spec(
                s@,
                line_length as int,
            ),
        decreases n - p,
    {
        let c = s.get_char(p);
        if c == '\n' {
            let ghost prev = result@;
            push_fitted(&mut result, s, q, p, line_length);
            proof {
                let w = line_length as int;
                let lseq = s@.subrange(q as int, p as int);
                let rest = s@.skip(p as int + 1);
                assert(s@.skip(q as int) =~= lseq + seq!['\n'] + rest);
                lemma_lines_of_step(lseq, rest);
                assert((seq![lseq] + lines_of(rest)).drop_first() =~= lines_of(rest));
                assert(enforce_spec(s@.skip(q as int), w) == fit_line(lseq, w) + seq!['\n']
                    + enforce_spec(rest, w));
                assert(result@ + enforce_spec(rest, w) =~= prev + enforce_spec(
                    s@.skip(q as int),
                    w,
                ));
            }
            q = p + 1;
        }
        p = p + 1;
    }
    if q < n {
        let ghost prev = result@;
        push_fitted(&mut result, s, q, n, line_length);
        proof {
            let w = line_length as int;
            let lseq = s@.subrange(q as int, n as int);
            assert(s@.skip(q as int) =~= lseq);
            lemma_lines_of_last(lseq);
            assert((seq![lseq]).drop_first() =~= Seq::<Seq<char>>::empty());
            assert(enforce_spec(s@.skip(q as int), w) == fit_line(lseq, w) + seq!['\n']
                + render_lines(Seq::<Seq<char>>::empty(), w));
            assert(result@ =~= prev + enforce_spec(s@.skip(q as int), w));
            assert(result@ =~= enforce_spec(s@, w));
        }
    } else {
        proof {
            assert(s@.skip(q as int) =~= Seq::<char>::empty());
            assert(result@ =~= enforce_spec(s@, line_length as int));
        }
    }
    result
}

/// A fitted line has exactly the asked-for width.
proof fn lemma_fit_line_len(l: Seq<char>, w: int)
    requires
        w >= 0,
    ensures
        fit_line(l, w).len() == w,
{
}

/// Every line of any text is newline-free.
pub proof fn lemma_lines_of_newline_free(s: Seq<char>)
    ensures
        forall|k: int| 0 <= k < lines_of(s).len() ==> newline_free(#[trigger] lines_of(s)[k]),
    decreases s.len(),
{
    lemma_first_newline(s);
    if s.len() == 0 {
    } else {
        let i = first_newline(s) as int;
        if i >= s.len() {
        } else {
            lemma_lines_of_newline_free(s.skip(i + 1));
            assert(forall|k: int|
                1 <= k < lines_of(s).len() ==> lines_of(s)[k] == lines_of(s.skip(i + 1))[k - 1]);
        }
    }
}

/// The lines of the rendered output are exactly the fitted input lines.
proof fn lemma_lines_of_render(ls: Seq<Seq<char>>, w: int)
    requires
        w >= 0,
        forall|k: int| 0 <= k < ls.len() ==> newline_free(#[trigger] ls[k]),
    ensures
        lines_of(render_lines(ls, w)) == ls.map_values(|l: Seq<char>| fit_line(l, w)),
    decreases ls.len(),
{
    if ls.len() == 0 {
        assert(lines_of(render_lines(ls, w)) =~= ls.map_values(|l: Seq<char>| fit_line(l, w)));
    } else {
        let fitted = fit_line(ls[0], w);
        assert(newline_free(fitted));
        lemma_lines_of_step(fitted, render_lines(ls.drop_first(), w));
        lemma_lines_of_render(ls.drop_first(), w);
        assert(ls.drop_first().map_values(|l: Seq<char>| fit_line(l, w)) =~= ls.map_values(
            |l: Seq<char>| fit_line(l, w),
        ).drop_first());
        assert(lines_of(render_lines(ls, w)) =~= ls.map_values(|l: Seq<char>| fit_line(l, w)));
    }
}

/// Rendering the fitted lines renders the same text as the lines themselves.
proof fn lemma_render_fitted(ls: Seq<Seq<char>>, w: int)
    requires
        w >= 0,
    ensures
        render_lines(ls.map_values(|l: Seq<char>| fit_line(l, w)), w) == render_lines(ls, w),
    decreases ls.len(),
{
    if ls.len() == 0 {
        assert(ls.map_values(|l: Seq<char>| fit_line(l, w)) =~= Seq::<Seq<char>>::empty());
    } else {
        lemma_fit_line_len(ls[0], w);
        assert(fit_line(fit_line(ls[0], w), w) =~= fit_line(ls[0], w));
        lemma_render_fitted(ls.drop_first(), w);
        assert(ls.drop_first().map_values(|l: Seq<char>| fit_line(l, w)) =~= ls.map_values(
            |l: Seq<char>| fit_line(l, w),
        ).drop_first());
    }
}

/// The fixed-width formatter is idempotent: re-applying it to its own output
/// with the same width changes nothing.
pub proof fn lemma_enforce_length_idempotent(s: Seq<char>, w: int)
    requires
        w >= 0,
    ensures
        enforce_spec(enforce_spec(s, w), w) == enforce_spec(s, w),
{
    lemma_lines_of_newline_free(s);
    lemma_lines_of_render(lines_of(s), w);
    lemma_render_fitted(lines_of(s), w);
}

/// The zero-indexed number of the last line of `s`, which must be nonempty.
#[verifier::loop_isolation(false)]
pub fn max_line(s: &str) -> (r: LineNumber)
    requires
        s@.len() > 0,
    ensures
        r.number == lines_of(s@).len() - 1,
{
    let n: usize = s.unicode_len();
    let mut count: usize = 0;
    let mut q: usize = 0;
    let mut p: usize = 0;
    proof {
        assert(s@.skip(0) =~= s@);
    }
    while p < n
        invariant
            q <= p <= n,
            count <= q,
            n == s@.len(),
            forall|j: int| q <= j < p ==> s@[j] != '\n',
            count + lines_of(s@.skip(q as int)).len() == lines_of(s@).len(),
        decreases n - p,
    {
        let c = s.get_char(p);
        if c == '\n' {
            proof {
                let lseq = s@.subrange(q as int, p as int);
                let rest = s@.skip(p as int + 1);
                assert(s@.skip(q as int) =~= lseq + seq!['\n'] + rest);
                lemma_lines_of_step(lseq, rest);
            }
            count = count + 1;
            q = p + 1;
        }
        p = p + 1;
    }
    if q < n {
        proof {
            let lseq = s@.subrange(q as int, n as int);
            assert(s@.skip(q as int) =~= lseq);
            lemma_lines_of_last(lseq);
        }
        count = count + 1;
    } else {
        proof {
            assert(s@.skip(q as int) =~= Seq::<char>::empty());
        }
    }
    LineNumber::from(count - 1)
}

} // verus!
