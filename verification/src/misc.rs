//! Small text and collection helpers used by difference reporting.

use crate::path::chars_to_string;
use crate::path::str_chars;
use vstd::prelude::*;

verus! {

/// A run of spaces.
pub open spec fn spaces(n: int) -> Seq<char>
    decreases n,
    when n >= 0
{
    if n <= 0 {
        Seq::empty()
    } else {
        spaces(n - 1).push(' ')
    }
}

/// Position of the first line break at or after position i, or the end of
/// the text.
pub open spec fn line_break(s: Seq<char>, i: int) -> int
    decreases s.len() - i,
    when 0 <= i <= s.len()
{
    if i < s.len() && s[i] != '\n' {
        line_break(s, i + 1)
    } else {
        i
    }
}

/// One line's content: the characters up to the break, without a carriage
/// return just before the break.
pub open spec fn line_content(s: Seq<char>, i: int, e: int) -> Seq<char> {
    let raw = s.subrange(i, e);
    if raw.len() > 0 && raw[raw.len() - 1] == '\r' {
        raw.drop_last()
    } else {
        raw
    }
}

/// The lines of a text, split at line breaks, each without its line break
/// and without a carriage return just before it; text after the last break
/// forms a final line only when it is nonempty.
pub open spec fn spec_lines(s: Seq<char>) -> Seq<Seq<char>>
    decreases s.len(),
{
    if s.len() == 0 {
        Seq::empty()
    } else {
        let e = line_break(s, 0);
        let line = line_content(s, 0, e);
        if 0 <= e && e < s.len() {
            seq![line] + spec_lines(s.subrange(e + 1, s.len() as int))
        } else {
            seq![line]
        }
    }
}

/// Lines joined by line breaks, each preceded by the given padding.
pub open spec fn join_indented(lines: Seq<Seq<char>>, pad: Seq<char>) -> Seq<char>
    decreases lines.len(),
{
    if lines.len() == 0 {
        Seq::empty()
    } else if lines.len() == 1 {
        pad + lines[0]
    } else {
        pad + lines[0] + seq!['\n'] + join_indented(lines.drop_first(), pad)
    }
}

/// What indenting a text by a level yields: every line of the text, each
/// preceded by that many spaces, joined by line breaks.
pub open spec fn spec_indent(s: Seq<char>, level: int) -> Seq<char> {
    join_indented(spec_lines(s), spaces(level))
}

/// The scanned break position is within the text, no break comes before it,
/// and it sits on a break or at the end.
pub proof fn lemma_line_break(s: Seq<char>, i: int)
    requires
        0 <= i <= s.len(),
    ensures
        i <= line_break(s, i) <= s.len(),
        forall|x: int| i <= x < line_break(s, i) ==> (#[trigger] s[x]) != '\n',
        line_break(s, i) < s.len() ==> s[line_break(s, i)] == '\n',
    decreases s.len() - i,
{
    if i < s.len() && s[i] != '\n' {
        lemma_line_break(s, i + 1);
    }
}

/// Indentation of text: every line of the text preceded by a number of
/// spaces.
pub trait Indent {
    /// The characters of the text.
    spec fn text_model(&self) -> Seq<char>;

    /// Returns the text with every line preceded by the given number of
    /// spaces.
    fn indent(&self, level: u32) -> (r: String)
        ensures
            r@ == spec_indent(self.text_model(), level as int),
    ;
}

impl Indent for str {
    open spec fn text_model(&self) -> Seq<char> {
        self@
    }

    fn indent(&self, level: u32) -> (r: String) {
        let chars = str_chars(self);
        let mut pad: Vec<char> = Vec::new();
        let mut q: u32 = 0;
        while q < level
            invariant
                q <= level,
                pad@ == spaces(q as int),
            decreases level - q,
        {
            pad.push(' ');
            q = q + 1;
            proof {
                assert(pad@ =~= spaces(q as int));
            }
        }
        let mut out: Vec<char> = Vec::new();
        proof {
            assert(chars@.subrange(0, chars@.len() as int) =~= chars@);
        }
        indent_tail(&chars, 0, &pad, &mut out);
        proof {
            assert(out@ =~= Seq::<char>::empty() + spec_indent(self@, level as int));
        }
        chars_to_string(&out)
    }
}

impl Indent for String {
    open spec fn text_model(&self) -> Seq<char> {
        self@
    }

    fn indent(&self, level: u32) -> (r: String) {
        self.as_str().indent(level)
    }
}

/// Appends the indented form of the text from the given position on.
#[verifier::loop_isolation(false)]
#[verifier::rlimit(100)]
fn indent_tail(chars: &Vec<char>, pos: usize, pad: &Vec<char>, out: &mut Vec<char>)
    requires
        pos <= chars@.len(),
    ensures
        final(out)@ == old(out)@ + join_indented(
            spec_lines(chars@.subrange(pos as int, chars@.len() as int)),
            pad@,
        ),
    decreases chars@.len() - pos,
{
    let ghost s = chars@.subrange(pos as int, chars@.len() as int);
    let ghost base = out@;
    let n = chars.len();
    if pos == n {
        proof {
            assert(s.len() == 0);
            assert(out@ =~= base + join_indented(spec_lines(s), pad@));
        }
        return ;
    }
    proof {
        lemma_line_break(s, 0);
    }
    let mut e = pos;
    while e < n && chars[e] != '\n'
        invariant
            pos <= e <= n,
            line_break(s, 0) == line_break(s, e - pos),
            forall|x: int| 0 <= x < e - pos ==> (#[trigger] s[x]) != '\n',
        decreases n - e,
    {
        proof {
            assert(s[e - pos] == chars@[e as int]);
        }
        e = e + 1;
    }
    proof {
        if e < n {
            assert(s[e - pos] == chars@[e as int]);
        }
        assert(line_break(s, e - pos) == e - pos);
        assert(line_break(s, 0) == e - pos);
    }
    let ghost eb = (e - pos) as int;
    let content_end: usize = if e > pos && chars[e - 1] == '\r' {
        e - 1
    } else {
        e
    };
    proof {
        if e > pos {
            assert(s[eb - 1] == chars@[e - 1]);
        }
        assert(line_content(s, 0, eb) =~= chars@.subrange(pos as int, content_end as int));
    }
    let mut k: usize = 0;
    let np = pad.len();
    while k < np
        invariant
            k <= np,
            np == pad@.len(),
            out@ == base + pad@.subrange(0, k as int),
        decreases np - k,
    {
        out.push(pad[k]);
        k = k + 1;
        proof {
            assert(pad@.subrange(0, k as int) =~= pad@.subrange(0, k - 1).push(pad@[k - 1]));
            assert(out@ =~= base + pad@.subrange(0, k as int));
        }
    }
    proof {
        assert(pad@.subrange(0, np as int) =~= pad@);
    }
    let mut c = pos;
    while c < content_end
        invariant
            pos <= c <= content_end <= chars@.len(),
            out@ == base + pad@ + chars@.subrange(pos as int, c as int),
        decreases content_end - c,
    {
        out.push(chars[c]);
        c = c + 1;
        proof {
            assert(chars@.subrange(pos as int, c as int) =~= chars@.subrange(
                pos as int,
                c - 1,
            ).push(chars@[c - 1]));
            assert(out@ =~= base + pad@ + chars@.subrange(pos as int, c as int));
        }
    }
    if e == n {
        proof {
            assert(spec_lines(s) == seq![line_content(s, 0, eb)]);
            assert(join_indented(spec_lines(s), pad@) =~= pad@ + line_content(s, 0, eb));
            assert(out@ =~= base + join_indented(spec_lines(s), pad@));
        }
        return ;
    }
    let ghost rest = s.subrange(eb + 1, s.len() as int);
    proof {
        assert(spec_lines(s) == seq![line_content(s, 0, eb)] + spec_lines(rest));
        assert(rest =~= chars@.subrange(e + 1, chars@.len() as int));
    }
    if e + 1 == n {
        proof {
            assert(rest.len() == 0);
            assert(spec_lines(rest) =~= Seq::<Seq<char>>::empty());
            assert(spec_lines(s) =~= seq![line_content(s, 0, eb)]);
            assert(join_indented(spec_lines(s), pad@) =~= pad@ + line_content(s, 0, eb));
            assert(out@ =~= base + join_indented(spec_lines(s), pad@));
        }
        return ;
    }
    out.push('\n');
    let ghost mid = out@;
    indent_tail(chars, e + 1, pad, out);
    proof {
        assert(rest.len() > 0);
        assert(spec_lines(rest).len() > 0);
        assert(spec_lines(s).len() >= 2);
        assert(spec_lines(s)[0] == line_content(s, 0, eb));
        assert(spec_lines(s).drop_first() =~= spec_lines(rest));
        assert(join_indented(spec_lines(s), pad@) =~= pad@ + line_content(s, 0, eb) + seq!['\n']
            + join_indented(spec_lines(rest), pad@));
        assert(out@ =~= base + join_indented(spec_lines(s), pad@));
    }
}

/// The positions of a vector's elements.
pub trait Indexes {
    /// Returns the positions of the elements, in increasing order.
    fn indexes(&self) -> (r: Vec<usize>);
}

impl<T> Indexes for Vec<T> {
    fn indexes(&self) -> (r: Vec<usize>)
        ensures
            r@.len() == self@.len(),
            forall|i: int| 0 <= i < r@.len() ==> (#[trigger] r@[i]) == i,
    {
        let mut out: Vec<usize> = Vec::new();
        let n = self.len();
        for k in 0..n
            invariant
                out@.len() == k,
                forall|i: int| 0 <= i < k ==> (#[trigger] out@[i]) == i,
            decreases n - k,
        {
            out.push(k);
        }
        out
    }
}

} // verus!
