//! Reads the request/response test cases embedded in a documentation file's
//! text: fenced code blocks describe a request to send and the response
//! expected back, and bracketed directives between them register addresses
//! to exclude from comparison or compare unordered, variables to capture,
//! and retry policies.

use crate::domain::{HttpMethod, Request, Response, RetryPolicy, TestCase};
use crate::misc::spec_lines;
use crate::path::{path_fits, spec_parse, Path};
use vstd::prelude::*;
use vstd::string::StringExecFns;

verus! {

/// Every address of the list parses in the path-expression grammar.
pub open spec fn valid_paths(ps: Seq<String>) -> bool {
    forall|i: int|
        0 <= i < ps.len() ==> spec_parse((#[trigger] ps[i])@) is Some && path_fits(
            spec_parse(ps[i]@)->Some_0,
        )
}

/// What parsing guarantees of every response it returns: the status code is
/// an HTTP status, and every registered address parses in the grammar, so a
/// comparison configuration can always be built from it.
pub open spec fn wf_response(r: Response) -> bool {
    &&& 100 <= r.code <= 599
    &&& valid_paths(r.ignore_paths@)
    &&& valid_paths(r.ignore_orders@)
}

/// Whether a character is blank.
fn is_space_c(c: char) -> (r: bool)
    ensures
        r == (c == ' ' || c == '\t' || c == '\r' || c == '\n'),
{
    c == ' ' || c == '\t' || c == '\r' || c == '\n'
}

/// The text split into its lines.
#[verifier::loop_isolation(false)]
#[verifier::rlimit(100)]
fn split_lines(text: &str) -> (r: Vec<String>)
    ensures
        r@.len() == spec_lines(text@).len(),
        forall|i: int| 0 <= i < r@.len() ==> (#[trigger] r@[i])@ == spec_lines(text@)[i],
{
    let chars = crate::path::str_chars(text);
    let n = chars.len();
    let mut out: Vec<String> = Vec::new();
    let mut pos: usize = 0;
    let ghost whole = text@;
    proof {
        assert(whole.subrange(0, n as int) =~= whole);
    }
    while pos < n
        invariant
            pos <= n,
            spec_lines(whole).len() == out@.len() + spec_lines(
                whole.subrange(pos as int, n as int),
            ).len(),
            forall|i: int|
                0 <= i < out@.len() ==> (#[trigger] out@[i])@ == spec_lines(whole)[i],
            forall|i: int|
                0 <= i < spec_lines(whole.subrange(pos as int, n as int)).len()
                    ==> #[trigger] spec_lines(whole.subrange(pos as int, n as int))[i]
                    == spec_lines(whole)[out@.len() + i],
        decreases n - pos,
    {
        let ghost s = whole.subrange(pos as int, n as int);
        let ghost len0 = out@.len() as int;
        proof {
            crate::misc::lemma_line_break(s, 0);
        }
        let mut e = pos;
        while e < n && chars[e] != '\n'
            invariant
                pos <= e <= n,
                crate::misc::line_break(s, 0) == crate::misc::line_break(s, e - pos),
                forall|x: int| 0 <= x < e - pos ==> (#[trigger] s[x]) != '\n',
            decreases n - e,
        {
            proof {
                assert(s[e - pos] == chars@[e as int]);
            }
            e = e + 1;
        }
        proof {
            if e < n {
                assert(s[e - pos] == chars@[e as int]);
            }
            assert(crate::misc::line_break(s, e - pos) == e - pos);
            assert(crate::misc::line_break(s, 0) == e - pos);
        }
        let ghost eb = (e - pos) as int;
        let content_end: usize = if e > pos && chars[e - 1] == '\r' {
            e - 1
        } else {
            e
        };
        let line = crate::path::extract_string(&chars, pos, content_end);
        proof {
            if e > pos {
                assert(s[eb - 1] == chars@[e - 1]);
            }
            assert(crate::misc::line_content(s, 0, eb) =~= whole.subrange(
                pos as int,
                content_end as int,
            ));
            assert(line@ == crate::misc::line_content(s, 0, eb));
        }
        out.push(line);
        if e == n {
            proof {
                assert(s.len() > 0);
                assert(crate::misc::line_break(s, 0) == s.len());
                assert(eb == crate::misc::line_break(s, 0));
                assert(crate::misc::line_content(s, 0, eb) == crate::misc::line_content(
                    s,
                    0,
                    crate::misc::line_break(s, 0),
                ));
                assert(spec_lines(s) =~= seq![
                    crate::misc::line_content(s, 0, crate::misc::line_break(s, 0)),
                ]);
                assert(spec_lines(s) =~~= seq![crate::misc::line_content(s, 0, eb)]);
                assert(spec_lines(s) == seq![crate::misc::line_content(s, 0, eb)]);
                assert(out@[len0] == line);
                assert(spec_lines(s)[0] == crate::misc::line_content(s, 0, eb));
                assert(spec_lines(whole.subrange(pos as int, n as int))[0] == spec_lines(
                    whole,
                )[len0]);
                assert(out@[len0]@ == spec_lines(whole)[len0]);
                assert(whole.subrange(n as int, n as int).len() == 0);
                assert(spec_lines(whole.subrange(n as int, n as int)).len() == 0);
            }
            pos = n;
        } else {
            let ghost rest = s.subrange(eb + 1, s.len() as int);
            proof {
                assert(spec_lines(s) == seq![crate::misc::line_content(s, 0, eb)] + spec_lines(
                    rest,
                ));
                assert(rest =~= whole.subrange(e + 1, n as int));
                assert(out@[len0]@ == spec_lines(s)[0]);
                assert(spec_lines(s)[0] == spec_lines(whole)[len0]);
                assert forall|i: int|
                    0 <= i < spec_lines(whole.subrange(e + 1, n as int)).len()
                        implies #[trigger] spec_lines(whole.subrange(e + 1, n as int))[i]
                        == spec_lines(whole)[len0 + 1 + i] by {
                    assert(spec_lines(whole.subrange(e + 1, n as int)) == spec_lines(rest));
                    assert(spec_lines(rest)[i] == spec_lines(s)[i + 1]);
                    assert(spec_lines(s)[i + 1] == spec_lines(whole)[len0 + i + 1]);
                }
            }
            pos = e + 1;
        }
    }
    proof {
        assert(whole.subrange(pos as int, n as int).len() == 0);
        assert(spec_lines(whole.subrange(pos as int, n as int)).len() == 0);
    }
    out
}

/// Whether the line starts with the given text.
fn line_starts_with(line: &String, prefix: &str) -> (r: bool)
    ensures
        r == (line@.len() >= prefix@.len() && line@.subrange(0, prefix@.len() as int) == prefix@),
{
    let lc = crate::path::str_chars(line.as_str());
    let pc = crate::path::str_chars(prefix);
    if lc.len() < pc.len() {
        return false;
    }
    let n = pc.len();
    for k in 0..n
        invariant
            n == pc@.len() <= lc@.len(),
            lc@ == line@,
            pc@ == prefix@,
            forall|i: int| 0 <= i < k ==> lc@[i] == pc@[i],
        decreases n - k,
    {
        if lc[k] != pc[k] {
            proof {
                assert(line@.subrange(0, prefix@.len() as int)[k as int] != prefix@[k as int]);
            }
            return false;
        }
    }
    proof {
        assert(line@.subrange(0, prefix@.len() as int) =~= prefix@);
    }
    true
}

/// Whether a line opens or closes a fenced code block.
pub open spec fn is_fence(l: Seq<char>) -> bool {
    l.len() >= 3 && l.subrange(0, 3) == "```"@
}

/// The text of a fenced code block from the given line on: every line up
/// to the first fence, each followed by a line break; and the position
/// just after that fence, or the end when no fence follows.
pub open spec fn spec_code(lines: Seq<Seq<char>>, start: int) -> (Seq<char>, int)
    decreases lines.len() - start,
    when 0 <= start
{
    if start >= lines.len() {
        (Seq::<char>::empty(), lines.len() as int)
    } else if is_fence(lines[start]) {
        (Seq::<char>::empty(), start + 1)
    } else {
        let rest = spec_code(lines, start + 1);
        (lines[start] + seq!['\n'] + rest.0, rest.1)
    }
}

/// Collects the lines of a fenced code block, from the line after the
/// opening fence up to the closing fence; returns the block's text, each
/// line ended by a line break, and the position just after the closing
/// fence.
#[verifier::loop_isolation(false)]
pub fn get_code(lines: &Vec<String>, start: usize) -> (r: (String, usize))
    requires
        start <= lines@.len(),
    ensures
        ({
            let lm = Seq::new(lines@.len(), |q: int| lines@[q]@);
            &&& r.0@ == spec_code(lm, start as int).0
            &&& r.1 == spec_code(lm, start as int).1
            &&& start <= r.1 <= lines@.len()
        }),
{
    let ghost lm = Seq::new(lines@.len(), |q: int| lines@[q]@);
    let mut buff = String::new();
    let n = lines.len();
    let mut i = start;
    proof {
        reveal_strlit("```");
    }
    while i < n
        invariant
            start <= i <= n,
            n == lines@.len(),
            spec_code(lm, start as int).0 == buff@ + spec_code(lm, i as int).0,
            spec_code(lm, start as int).1 == spec_code(lm, i as int).1,
        decreases n - i,
    {
        proof {
            assert(lm[i as int] == lines@[i as int]@);
        }
        if line_starts_with(&lines[i], "```") {
            proof {
                assert(is_fence(lm[i as int]));
                assert(buff@ =~= spec_code(lm, start as int).0);
            }
            return (buff, i + 1);
        }
        proof {
            assert(!is_fence(lm[i as int]));
            assert(spec_code(lm, i as int).0 == lm[i as int] + seq!['\n'] + spec_code(
                lm,
                i + 1,
            ).0);
        }
        buff.append(lines[i].as_str());
        buff.append("\n");
        proof {
            reveal_strlit("\n");
            assert(spec_code(lm, start as int).0 =~= buff@ + spec_code(lm, i + 1).0);
        }
        i = i + 1;
    }
    proof {
        assert(spec_code(lm, n as int).0 =~= Seq::<char>::empty());
        assert(buff@ =~= spec_code(lm, start as int).0);
    }
    (buff, n)
}

/// Blank character.
pub open spec fn is_blank(c: char) -> bool {
    c == ' ' || c == '\t' || c == '\r' || c == '\n'
}

/// The text without its blank characters.
pub open spec fn strip_blanks(s: Seq<char>) -> Seq<char>
    decreases s.len(),
{
    if s.len() == 0 {
        Seq::empty()
    } else {
        (if is_blank(s[0]) {
            Seq::<char>::empty()
        } else {
            seq![s[0]]
        }) + strip_blanks(s.drop_first())
    }
}

/// Stripping one more character extends the stripped prefix by that
/// character, unless it is blank.
proof fn lemma_strip_blanks_snoc(s: Seq<char>)
    requires
        s.len() > 0,
    ensures
        strip_blanks(s) == strip_blanks(s.drop_last()) + (if is_blank(s.last()) {
            Seq::<char>::empty()
        } else {
            seq![s.last()]
        }),
    decreases s.len(),
{
    if s.len() == 1 {
        assert(s.drop_last() =~= Seq::<char>::empty());
        assert(s.drop_first() =~= Seq::<char>::empty());
        assert(strip_blanks(s) =~= strip_blanks(s.drop_last()) + (if is_blank(s.last()) {
            Seq::<char>::empty()
        } else {
            seq![s.last()]
        }));
    } else {
        lemma_strip_blanks_snoc(s.drop_first());
        assert(s.drop_first().drop_last() =~= s.drop_last().drop_first());
        assert(s.drop_first().last() == s.last());
        assert(s.drop_last()[0] == s[0]);
        assert(strip_blanks(s) == (if is_blank(s[0]) {
            Seq::<char>::empty()
        } else {
            seq![s[0]]
        }) + strip_blanks(s.drop_first()));
        assert(strip_blanks(s.drop_last()) == (if is_blank(s[0]) {
            Seq::<char>::empty()
        } else {
            seq![s[0]]
        }) + strip_blanks(s.drop_last().drop_first()));
        assert(strip_blanks(s) =~= strip_blanks(s.drop_last()) + (if is_blank(s.last()) {
            Seq::<char>::empty()
        } else {
            seq![s.last()]
        }));
    }
}

/// The scan past directive markers from position i: whether a marker pair
/// occurs, and the text after the first marker with any further marker
/// pairs removed.
pub open spec fn marker_scan(s: Seq<char>, i: int, seen: bool) -> (bool, Seq<char>)
    decreases s.len() - i,
    when 0 <= i
{
    if i >= s.len() {
        (seen, Seq::<char>::empty())
    } else if i + 1 < s.len() && s[i] == ':' && s[i + 1] == '#' {
        marker_scan(s, i + 2, true)
    } else {
        let rest = marker_scan(s, i + 1, seen);
        (
            rest.0,
            (if seen {
                seq![s[i]]
            } else {
                Seq::<char>::empty()
            }) + rest.1,
        )
    }
}

/// Reads the address of an ignore directive. The line's blanks are
/// dropped, the text after the first marker is taken with any further
/// markers removed, and its outer pair of characters is stripped; the
/// result must parse in the path-expression grammar with indices that fit,
/// else the directive is an error naming the line.
#[verifier::loop_isolation(false)]
pub fn get_ignore_path(line: &String) -> (r: Result<String, String>)
    ensures
        ({
            let scan = marker_scan(strip_blanks(line@), 0, false);
            match r {
                Ok(p) => {
                    &&& scan.0
                    &&& scan.1.len() >= 2
                    &&& p@ == scan.1.subrange(1, scan.1.len() - 1)
                    &&& spec_parse(p@) is Some
                    &&& path_fits(spec_parse(p@)->Some_0)
                },
                Err(_) => !scan.0 || scan.1.len() < 2 || !(spec_parse(
                    scan.1.subrange(1, scan.1.len() - 1),
                ) matches Some(m2) && path_fits(m2)),
            }
        }),
{
    let chars = crate::path::str_chars(line.as_str());
    let mut stripped: Vec<char> = Vec::new();
    let n = chars.len();
    proof {
        assert(chars@.subrange(0, 0) =~= Seq::<char>::empty());
        assert(stripped@ =~= strip_blanks(chars@.subrange(0, 0)));
    }
    for k in 0..n
        invariant
            n == chars@.len(),
            stripped@ == strip_blanks(chars@.subrange(0, k as int)),
        decreases n - k,
    {
        let c = chars[k];
        proof {
            lemma_strip_blanks_snoc(chars@.subrange(0, k + 1));
            assert(chars@.subrange(0, k + 1).drop_last() =~= chars@.subrange(0, k as int));
            assert(chars@.subrange(0, k + 1).last() == chars@[k as int]);
        }
        if !is_space_c(c) {
            stripped.push(c);
        }
        proof {
            assert(stripped@ =~= strip_blanks(chars@.subrange(0, k + 1)));
        }
    }
    proof {
        assert(chars@.subrange(0, n as int) =~= chars@);
    }
    let ghost sv = strip_blanks(line@);
    let m = stripped.len();
    let mut after: Vec<char> = Vec::new();
    let mut seen_marker = false;
    let mut k: usize = 0;
    while k < m
        invariant
            k <= m,
            m == stripped@.len(),
            stripped@ == sv,
            marker_scan(sv, 0, false).0 == marker_scan(sv, k as int, seen_marker).0,
            marker_scan(sv, 0, false).1 == after@ + marker_scan(sv, k as int, seen_marker).1,
        decreases m - k,
    {
        if k + 1 < m && stripped[k] == ':' && stripped[k + 1] == '#' {
            proof {
                assert(marker_scan(sv, k as int, seen_marker) == marker_scan(sv, k + 2, true));
            }
            seen_marker = true;
            k = k + 2;
        } else {
            let ghost step = marker_scan(sv, k as int, seen_marker);
            proof {
                assert(step.0 == marker_scan(sv, k + 1, seen_marker).0);
                assert(step.1 == (if seen_marker {
                    seq![sv[k as int]]
                } else {
                    Seq::<char>::empty()
                }) + marker_scan(sv, k + 1, seen_marker).1);
            }
            if seen_marker {
                after.push(stripped[k]);
            }
            proof {
                assert(marker_scan(sv, 0, false).1 =~= after@ + marker_scan(
                    sv,
                    k + 1,
                    seen_marker,
                ).1);
            }
            k = k + 1;
        }
    }
    proof {
        assert(marker_scan(sv, m as int, seen_marker) == (seen_marker, Seq::<char>::empty()));
        assert(marker_scan(sv, 0, false).0 == seen_marker);
        assert(marker_scan(sv, 0, false).1 =~= after@);
    }
    if !seen_marker || after.len() < 2 {
        let mut out = String::new();
        out.append("invalid ignore path ");
        out.append(line.as_str());
        return Err(out);
    }
    let inner = crate::path::extract_string(&after, 1, after.len() - 1);
    match Path::from_jsonpath(inner.as_str()) {
        Ok(_) => Ok(inner),
        Err(_) => {
            let mut out = String::new();
            out.append("invalid ignore path ");
            out.append(line.as_str());
            Err(out)
        },
    }
}

/// Whether a character may appear in a variable name.
fn is_word_c(c: char) -> (r: bool)
{
    let u = c as u32;
    (97 <= u && u <= 122) || (65 <= u && u <= 90) || (48 <= u && u <= 57) || u == 95
}

/// Reads a variable-capture directive: the variable's name and the address,
/// inside the document, of the value to capture into it.
pub fn get_variable_template(line: &String) -> (r: Result<(String, Path), String>)
    ensures
        r matches Ok(nv) ==> nv.0@.len() > 0 && crate::path::path_fits(nv.1@)
            && crate::path::renderable(nv.1@),
{
    let chars = crate::path::str_chars(line.as_str());
    let n = chars.len();
    proof {
        reveal_strlit("[let ");
    }
    if !line_starts_with(line, "[let ") {
        return Err(invalid_variable(line));
    }
    let mut k: usize = 5;
    let name_start = k;
    while k < n && is_word_c(chars[k])
        invariant
            name_start <= k <= n,
            n == chars@.len(),
        decreases n - k,
    {
        k = k + 1;
    }
    if k == name_start {
        return Err(invalid_variable(line));
    }
    let name = crate::path::extract_string(&chars, name_start, k);
    // expect "]: # (" then the address then ")"
    if !(n >= 6 && k <= n - 6 && chars[k] == ']' && chars[k + 1] == ':' && chars[k + 2] == ' '
        && chars[k + 3] == '#' && chars[k + 4] == ' ' && chars[k + 5] == '(') {
        return Err(invalid_variable(line));
    }
    let path_start = k + 6;
    let mut e = path_start;
    while e < n && chars[e] != ')'
        invariant
            path_start <= e <= n,
            n == chars@.len(),
        decreases n - e,
    {
        e = e + 1;
    }
    if e == n {
        return Err(invalid_variable(line));
    }
    let path_text = crate::path::extract_string(&chars, path_start, e);
    match Path::from_jsonpath(path_text.as_str()) {
        Ok(p) => {
            proof {
                assert(name@.len() > 0);
                crate::path::lemma_parse_renderable(path_text@, p@);
            }
            Ok((name, p))
        },
        Err(_) => Err(invalid_variable(line)),
    }
}

/// The error text of a malformed variable-capture directive.
fn invalid_variable(line: &String) -> (r: String) {
    let mut out = String::new();
    out.append("invalid variable template: ");
    out.append(line.as_str());
    out
}

/// Reads the digit run at the given position as a machine integer: its
/// value and the position just after it. An empty run, or a value that
/// does not fit, yields nothing.
#[verifier::loop_isolation(false)]
fn read_u64(chars: &Vec<char>, from: usize) -> (r: Option<(u64, usize)>)
    requires
        from <= chars@.len(),
    ensures
        match r {
            Some(ve) => from < ve.1 <= chars@.len() && ve.1 == crate::path::digits_end(
                chars@,
                from as int,
            ) && ve.0 == crate::path::digits_val(chars@, from as int, ve.1 as int),
            None => crate::path::digits_end(chars@, from as int) == from
                || crate::path::digits_val(
                chars@,
                from as int,
                crate::path::digits_end(chars@, from as int),
            ) > u64::MAX,
        },
{
    proof {
        crate::path::lemma_digits_end(chars@, from as int);
    }
    let n = chars.len();
    let mut k = from;
    let mut val: u64 = 0;
    let mut any = false;
    while k < n
        invariant
            from <= k <= n,
            any ==> k > from,
            !any ==> k == from,
            crate::path::digits_end(chars@, from as int) == crate::path::digits_end(
                chars@,
                k as int,
            ),
            forall|x: int|
                from <= x < k ==> crate::path::is_digit(#[trigger] chars@[x]),
            val as int == crate::path::digits_val(chars@, from as int, k as int),
        decreases n - k,
    {
        let c = chars[k];
        let u = c as u32;
        if 48 <= u && u <= 57 {
            let d = (u - 48) as u64;
            let next = match val.checked_mul(10) {
                Some(t) => t.checked_add(d),
                None => None,
            };
            match next {
                Some(nv) => {
                    val = nv;
                },
                None => {
                    proof {
                        let e = crate::path::digits_end(chars@, from as int);
                        assert forall|x: int| from <= x < e implies 0 <= crate::path::digit_val(
                            #[trigger] chars@[x],
                        ) by {
                            assert(crate::path::is_digit(chars@[x]));
                        }
                        assert(crate::path::digits_val(chars@, from as int, k + 1)
                            == crate::path::digits_val(chars@, from as int, k as int) * 10
                            + crate::path::digit_val(chars@[k as int]));
                        crate::path::lemma_digits_val_monotone(chars@, from as int, k + 1, e);
                    }
                    return None;
                },
            }
            any = true;
            k = k + 1;
        } else {
            proof {
                assert(crate::path::digits_end(chars@, k as int) == k);
            }
            if any {
                return Some((val, k));
            }
            return None;
        }
    }
    proof {
        assert(crate::path::digits_end(chars@, k as int) == k);
    }
    if any {
        Some((val, k))
    } else {
        None
    }
}

/// Position just after the run of plain spaces starting at i.
pub open spec fn spaces_run(s: Seq<char>, i: int) -> int
    decreases s.len() - i,
    when 0 <= i <= s.len()
{
    if i < s.len() && s[i] == ' ' {
        spaces_run(s, i + 1)
    } else {
        i
    }
}

/// Reads a retry directive: after the directive marker and opening
/// parenthesis, the number of tries, a comma, optional spaces, the pause
/// in milliseconds, and the closing parenthesis. A successful read returns
/// exactly the two decimal values written on the line; anything else is an
/// error naming the line.
#[verifier::loop_isolation(false)]
pub fn get_retry_policy(line: &String) -> (r: Result<RetryPolicy, String>)
    ensures
        r matches Ok(policy) ==> ({
            let lm = line@;
            let d1 = crate::path::digits_end(lm, 12);
            let s2 = spaces_run(lm, d1 + 1);
            let d2 = crate::path::digits_end(lm, s2);
            &&& lm.len() >= 12
            &&& lm.subrange(0, 12) == "[retry]: # ("@
            &&& 12 < d1 < lm.len()
            &&& lm[d1] == ','
            &&& policy.max_retries == crate::path::digits_val(lm, 12, d1)
            &&& s2 < d2 < lm.len()
            &&& lm[d2] == ')'
            &&& policy.delay == crate::path::digits_val(lm, s2, d2)
        }),
{
    let chars = crate::path::str_chars(line.as_str());
    let n = chars.len();
    proof {
        reveal_strlit("[retry]: # (");
    }
    if !line_starts_with(line, "[retry]: # (") {
        let mut out = String::new();
        out.append("invalid retry properties: ");
        out.append(line.as_str());
        return Err(out);
    }
    let k: usize = 12;
    match read_u64(&chars, k) {
        Some((max_retries, mut p)) => {
            if p < n && chars[p] == ',' {
                p = p + 1;
                let ghost after_comma = p as int;
                while p < n && chars[p] == ' '
                    invariant
                        after_comma <= p <= n,
                        n == chars@.len(),
                        chars@ == line@,
                        spaces_run(line@, after_comma) == spaces_run(line@, p as int),
                    decreases n - p,
                {
                    p = p + 1;
                }
                proof {
                    assert(spaces_run(line@, p as int) == p);
                }
                match read_u64(&chars, p) {
                    Some((delay, q)) => {
                        if q < n && chars[q] == ')' {
                            return Ok(RetryPolicy { max_retries, delay });
                        }
                    },
                    None => {},
                }
            }
            let mut out = String::new();
            out.append("invalid retry properties: ");
            out.append(line.as_str());
            Err(out)
        },
        None => {
            let mut out = String::new();
            out.append("invalid retry properties: ");
            out.append(line.as_str());
            Err(out)
        },
    }
}

/// Position just after the run of leading blanks starting at i.
pub open spec fn blanks_end(s: Seq<char>, i: int) -> int
    decreases s.len() - i,
    when 0 <= i <= s.len()
{
    if i < s.len() && is_blank(s[i]) {
        blanks_end(s, i + 1)
    } else {
        i
    }
}

/// Position just before the run of trailing blanks ending at b, not
/// reaching back past a.
pub open spec fn blanks_back(s: Seq<char>, a: int, b: int) -> int
    decreases b,
    when 0 <= a <= b <= s.len()
{
    if b > a && is_blank(s[b - 1]) {
        blanks_back(s, a, b - 1)
    } else {
        b
    }
}

/// The text without its leading and trailing blanks.
pub open spec fn spec_trim(s: Seq<char>) -> Seq<char> {
    let a = blanks_end(s, 0);
    if 0 <= a <= s.len() {
        s.subrange(a, blanks_back(s, a, s.len() as int))
    } else {
        s
    }
}

/// Whether the text holds the character.
pub open spec fn has_char(s: Seq<char>, c: char) -> bool {
    exists|i: int| 0 <= i < s.len() && s[i] == c
}

/// How many times the character occurs in the text.
pub open spec fn count_char(s: Seq<char>, c: char) -> int
    decreases s.len(),
{
    if s.len() == 0 {
        0
    } else {
        (if s[0] == c {
            1int
        } else {
            0int
        }) + count_char(s.drop_first(), c)
    }
}

/// Position of the first occurrence of the character, or -1 when there is
/// none.
pub open spec fn first_pos(s: Seq<char>, c: char) -> int
    decreases s.len(),
{
    if s.len() == 0 {
        -1
    } else if s[0] == c {
        0
    } else {
        let r = first_pos(s.drop_first(), c);
        if r < 0 {
            -1
        } else {
            r + 1
        }
    }
}

/// Counting one more character extends the count by one when it is the
/// sought character.
proof fn lemma_count_char_snoc(s: Seq<char>, c: char)
    requires
        s.len() > 0,
    ensures
        count_char(s, c) == count_char(s.drop_last(), c) + (if s.last() == c {
            1int
        } else {
            0int
        }),
    decreases s.len(),
{
    if s.len() == 1 {
        assert(s.drop_last() =~= Seq::<char>::empty());
        assert(s.drop_first() =~= Seq::<char>::empty());
    } else {
        lemma_count_char_snoc(s.drop_first(), c);
        assert(s.drop_first().drop_last() =~= s.drop_last().drop_first());
        assert(s.drop_first().last() == s.last());
        assert(s.drop_last()[0] == s[0]);
        assert(count_char(s.drop_last(), c) == (if s[0] == c {
            1int
        } else {
            0int
        }) + count_char(s.drop_last().drop_first(), c));
    }
}

/// The position returned for a character is its first occurrence, and a
/// negative position means it does not occur.
proof fn lemma_first_pos(s: Seq<char>, c: char)
    ensures
        first_pos(s, c) == -1 || 0 <= first_pos(s, c) < s.len(),
        first_pos(s, c) >= 0 ==> s[first_pos(s, c)] == c,
        first_pos(s, c) >= 0 ==> forall|q: int| 0 <= q < first_pos(s, c) ==> (#[trigger] s[q]) != c,
        first_pos(s, c) == -1 ==> forall|q: int| 0 <= q < s.len() ==> (#[trigger] s[q]) != c,
    decreases s.len(),
{
    if s.len() > 0 && s[0] != c {
        lemma_first_pos(s.drop_first(), c);
        assert forall|q: int| 1 <= q < s.len() implies s.drop_first()[q - 1] == s[q] by {}
    }
}

/// Whether a line is a header line: it holds a colon and no brace.
pub open spec fn is_header_line(l: Seq<char>) -> bool {
    has_char(l, ':') && !has_char(l, '{')
}

/// The scan of a block's remaining lines for its headers and its body: a
/// line holding a colon and no brace, before any body text, is a header
/// and must hold exactly one colon, split there and trimmed on both sides;
/// every other line, trimmed, joins the body. The flag says whether body
/// text was already seen. A header line with more than one colon is no
/// result: it is the invalid-header error.
pub open spec fn hb_scan(lines: Seq<Seq<char>>, i: int, body_empty: bool) -> Option<
    (Seq<(Seq<char>, Seq<char>)>, Seq<char>),
>
    decreases lines.len() - i,
    when 0 <= i
{
    if i >= lines.len() {
        Some((Seq::<(Seq<char>, Seq<char>)>::empty(), Seq::<char>::empty()))
    } else {
        let l = lines[i];
        if body_empty && is_header_line(l) {
            if count_char(l, ':') != 1 {
                None
            } else {
                let fp = first_pos(l, ':');
                if 0 <= fp < l.len() {
                    let name = spec_trim(l.subrange(0, fp));
                    let value = spec_trim(l.subrange(fp + 1, l.len() as int));
                    match hb_scan(lines, i + 1, body_empty) {
                        Some(rest) => Some((seq![(name, value)] + rest.0, rest.1)),
                        None => None,
                    }
                } else {
                    None
                }
            }
        } else {
            let t = spec_trim(l);
            match hb_scan(lines, i + 1, body_empty && t.len() == 0) {
                Some(rest) => Some((rest.0, t + rest.1)),
                None => None,
            }
        }
    }
}

/// The blank-separated words of a line.
fn split_words(line: &String) -> (r: Vec<String>) {
    let chars = crate::path::str_chars(line.as_str());
    let n = chars.len();
    let mut out: Vec<String> = Vec::new();
    let mut k: usize = 0;
    while k < n
        invariant
            k <= n,
            n == chars@.len(),
        decreases n - k,
    {
        if is_space_c(chars[k]) {
            k = k + 1;
        } else {
            let start = k;
            while k < n && !is_space_c(chars[k])
                invariant
                    start <= k <= n,
                    n == chars@.len(),
                decreases n - k,
            {
                k = k + 1;
            }
            out.push(crate::path::extract_string(&chars, start, k));
        }
    }
    out
}

/// The text without its leading and trailing blanks.
fn trim_string(s: &String) -> (r: String)
    ensures
        r@ == spec_trim(s@),
{
    let chars = crate::path::str_chars(s.as_str());
    let n = chars.len();
    let mut a: usize = 0;
    while a < n && is_space_c(chars[a])
        invariant
            a <= n,
            n == chars@.len(),
            chars@ == s@,
            blanks_end(s@, 0) == blanks_end(s@, a as int),
        decreases n - a,
    {
        a = a + 1;
    }
    proof {
        assert(blanks_end(s@, a as int) == a);
    }
    let mut b = n;
    while b > a && is_space_c(chars[b - 1])
        invariant
            a <= b <= n,
            n == chars@.len(),
            chars@ == s@,
            blanks_back(s@, a as int, n as int) == blanks_back(s@, a as int, b as int),
        decreases b,
    {
        b = b - 1;
    }
    proof {
        assert(blanks_back(s@, a as int, b as int) == b);
    }
    crate::path::extract_string(&chars, a, b)
}

/// Whether the line holds the character.
fn line_contains(line: &String, c: char) -> (r: bool)
    ensures
        r == has_char(line@, c),
{
    let chars = crate::path::str_chars(line.as_str());
    let n = chars.len();
    for k in 0..n
        invariant
            n == chars@.len(),
            chars@ == line@,
            forall|i: int| 0 <= i < k ==> (#[trigger] line@[i]) != c,
        decreases n - k,
    {
        if chars[k] == c {
            proof {
                assert(line@[k as int] == c);
            }
            return true;
        }
    }
    false
}

/// Reads the header lines and the body of a code block: a line with
/// exactly one colon and no brace, before any body text, is a header,
/// split at the colon and trimmed; the remaining lines, each trimmed, form
/// the body. A header line with more than one colon is an error naming the
/// line.
#[verifier::loop_isolation(false)]
#[verifier::rlimit(100)]
pub fn get_headers_and_body(lines: &Vec<String>, start: usize) -> (r: Result<
    (Vec<(String, String)>, Option<String>),
    String,
>)
    requires
        start <= lines@.len(),
    ensures
        ({
            let lm = Seq::new(lines@.len(), |q: int| lines@[q]@);
            match r {
                Ok((headers, body)) => hb_scan(lm, start as int, true) matches Some(hb) && {
                    &&& headers@.len() == hb.0.len()
                    &&& forall|q: int|
                        0 <= q < headers@.len() ==> (#[trigger] headers@[q]).0@ == hb.0[q].0
                            && headers@[q].1@ == hb.0[q].1
                    &&& (match body {
                        Some(b) => hb.1.len() > 0 && b@ == hb.1,
                        None => hb.1.len() == 0,
                    })
                },
                Err(_) => hb_scan(lm, start as int, true) is None,
            }
        }),
{
    let ghost lm = Seq::new(lines@.len(), |q: int| lines@[q]@);
    let mut headers: Vec<(String, String)> = Vec::new();
    let mut body = String::new();
    let mut body_empty = true;
    let n = lines.len();
    let mut i = start;
    while i < n
        invariant
            start <= i <= n,
            n == lines@.len(),
            body_empty == (body@.len() == 0),
            (hb_scan(lm, start as int, true) is Some) == (hb_scan(lm, i as int, body_empty)
                is Some),
            hb_scan(lm, i as int, body_empty) matches Some(rest) ==> (hb_scan(
                lm,
                start as int,
                true,
            ) matches Some(total) && total.0 == Seq::new(headers@.len(), |q: int| (headers@[q].0@, headers@[q].1@))
                + rest.0 && total.1 == body@ + rest.1),
        decreases n - i,
    {
        let ghost hview = Seq::new(headers@.len(), |q: int| (headers@[q].0@, headers@[q].1@));
        let line = &lines[i];
        proof {
            assert(lm[i as int] == lines@[i as int]@);
        }
        if body_empty && line_contains(line, ':') && !line_contains(line, '{') {
            let chars = crate::path::str_chars(line.as_str());
            let m = chars.len();
            let mut colon_count: usize = 0;
            let mut colon_at: usize = 0;
            proof {
                lemma_first_pos(line@, ':');
                assert(line@.subrange(0, 0).len() == 0);
                assert(count_char(line@.subrange(0, 0), ':') == 0);
            }
            for k in 0..m
                invariant
                    m == chars@.len(),
                    chars@ == line@,
                    colon_count as int == count_char(line@.subrange(0, k as int), ':'),
                    colon_count <= k,
                    colon_count > 0 ==> colon_at < k && line@[colon_at as int] == ':'
                        && colon_at as int == first_pos(line@, ':'),
                decreases m - k,
            {
                proof {
                    lemma_count_char_snoc(line@.subrange(0, k + 1), ':');
                    assert(line@.subrange(0, k + 1).drop_last() =~= line@.subrange(0, k as int));
                    assert(line@.subrange(0, k + 1).last() == line@[k as int]);
                }
                if chars[k] == ':' {
                    if colon_count == 0 {
                        colon_at = k;
                        proof {
                            let fp = first_pos(line@, ':');
                            assert forall|q: int| 0 <= q < k implies (#[trigger] line@[q])
                                != ':' by {
                                assert(count_char(line@.subrange(0, k as int), ':') == 0);
                                lemma_count_has(line@.subrange(0, k as int), ':');
                                assert(line@.subrange(0, k as int)[q] == line@[q]);
                            }
                            if fp == -1 {
                                assert(line@[k as int] != ':');
                                assert(false);
                            } else if fp < k {
                                assert(line@[fp] == ':');
                                assert(false);
                            } else if fp > k {
                                assert(line@[k as int] != ':');
                                assert(false);
                            }
                        }
                    }
                    colon_count = colon_count + 1;
                }
            }
            proof {
                assert(line@.subrange(0, m as int) =~= line@);
            }
            if colon_count != 1 {
                proof {
                    assert(count_char(lm[i as int], ':') != 1);
                    assert(has_char(lm[i as int], ':'));
                    assert(!has_char(lm[i as int], '{'));
                    assert(is_header_line(lm[i as int]));
                    assert(hb_scan(lm, i as int, body_empty) is None);
                }
                let mut out = String::new();
                out.append("invalid header line ");
                out.append(line.as_str());
                return Err(out);
            }
            let name_raw = crate::path::extract_string(&chars, 0, colon_at);
            let value_raw = crate::path::extract_string(&chars, colon_at + 1, m);
            let name = trim_string(&name_raw);
            let value = trim_string(&value_raw);
            proof {
                let l = lm[i as int];
                let fp = first_pos(l, ':');
                assert(fp == colon_at as int);
                assert(name@ == spec_trim(l.subrange(0, fp)));
                assert(value@ == spec_trim(l.subrange(fp + 1, l.len() as int)));
                assert(is_header_line(l));
                assert(hb_scan(lm, i as int, body_empty) matches Some(rest) ==> rest == (
                seq![(name@, value@)] + hb_scan(lm, i + 1, body_empty)->Some_0.0,
                hb_scan(lm, i + 1, body_empty)->Some_0.1,
                ));
            }
            headers.push((name, value));
            proof {
                assert(Seq::new(headers@.len(), |q: int| (headers@[q].0@, headers@[q].1@))
                    =~~= hview.push((name@, value@)));
                if hb_scan(lm, i + 1, body_empty) is Some {
                    let rest2 = hb_scan(lm, i + 1, body_empty)->Some_0;
                    assert(hview + (seq![(name@, value@)] + rest2.0) =~= hview.push(
                        (name@, value@),
                    ) + rest2.0);
                }
            }
        } else {
            let trimmed = trim_string(line);
            proof {
                let l = lm[i as int];
                if body_empty {
                    assert(!is_header_line(l));
                }
                assert(trimmed@ == spec_trim(l));
            }
            if trimmed.as_str().unicode_len() > 0 {
                body_empty = false;
            }
            body.append(trimmed.as_str());
            proof {
                if hb_scan(lm, i + 1, body_empty) is Some {
                    let rest2 = hb_scan(lm, i + 1, body_empty)->Some_0;
                    assert(hb_scan(lm, start as int, true)->Some_0.1 =~= body@ + rest2.1);
                }
            }
        }
        i = i + 1;
    }
    proof {
        assert(hb_scan(lm, n as int, body_empty) matches Some(fin) && fin.0.len() == 0
            && fin.1.len() == 0);
        let total = hb_scan(lm, start as int, true)->Some_0;
        assert(total.0 =~~= Seq::new(headers@.len(), |q: int| (headers@[q].0@, headers@[q].1@)));
        assert(total.1 =~= body@);
    }
    if body_empty {
        Ok((headers, None))
    } else {
        Ok((headers, Some(body)))
    }
}

/// A text without occurrences of a character counts it zero times, and
/// conversely.
proof fn lemma_count_has(s: Seq<char>, c: char)
    ensures
        count_char(s, c) == 0 ==> forall|q: int| 0 <= q < s.len() ==> (#[trigger] s[q]) != c,
        count_char(s, c) >= 0,
    decreases s.len(),
{
    if s.len() > 0 {
        lemma_count_has(s.drop_first(), c);
        assert forall|q: int| 1 <= q < s.len() implies s.drop_first()[q - 1] == s[q] by {}
        if count_char(s, c) == 0 {
            assert forall|q: int| 0 <= q < s.len() implies (#[trigger] s[q]) != c by {
                if q == 0 {
                } else {
                    assert(s.drop_first()[q - 1] == s[q]);
                }
            }
        }
    }
}

/// Reads a request code block: its first line names the method and the
/// target, the rest are headers and the body.
#[verifier::loop_isolation(false)]
pub fn get_request(code_block_line_no: usize, code: &String) -> (r: Result<Request, String>)
    ensures
        r matches Ok(req) ==> ({
            let lm = spec_lines(code@);
            &&& req.line_number == code_block_line_no
            &&& lm.len() > 0
            &&& hb_scan(lm, 1, true) matches Some(hb) && {
                &&& req.headers@.len() == hb.0.len()
                &&& forall|q: int|
                    0 <= q < req.headers@.len() ==> (#[trigger] req.headers@[q]).0@ == hb.0[q].0
                        && req.headers@[q].1@ == hb.0[q].1
                &&& (match req.body {
                    Some(b) => hb.1.len() > 0 && b@ == hb.1,
                    None => hb.1.len() == 0,
                })
            }
        }),
{
    let lines = split_lines(code.as_str());
    proof {
        assert(Seq::new(lines@.len(), |q: int| lines@[q]@) =~~= spec_lines(code@));
    }
    if lines.len() == 0 {
        let mut out = String::new();
        out.append("expected HTTP method and URI");
        return Err(out);
    }
    let parts = split_words(&lines[0]);
    if parts.len() != 2 {
        let mut out = String::new();
        out.append("invalid HTTP method or URI: \"");
        out.append(lines[0].as_str());
        out.append("\"");
        return Err(out);
    }
    let method = match HttpMethod::parse(parts[0].as_str()) {
        Ok(m) => m,
        Err(e) => {
            return Err(e);
        },
    };
    match get_headers_and_body(&lines, 1) {
        Ok((headers, body)) => {
            let uri = parts[1].clone();
            Ok(
                Request {
                    http_method: method,
                    uri,
                    headers,
                    body,
                    line_number: code_block_line_no,
                },
            )
        },
        Err(e) => Err(e),
    }
}

/// Reads a response code block: its first line names the protocol and the
/// status code, which must lie in the HTTP status range, the rest are
/// headers and the body.
#[verifier::loop_isolation(false)]
pub fn get_response(code_block_line_no: usize, code: &String) -> (r: Result<Response, String>)
    ensures
        r matches Ok(resp) ==> ({
            let lm = spec_lines(code@);
            &&& resp.line_number == code_block_line_no
            &&& wf_response(resp)
            &&& resp.ignore_paths@.len() == 0
            &&& resp.ignore_orders@.len() == 0
            &&& resp.variables@.len() == 0
            &&& resp.retries == (RetryPolicy { max_retries: 1, delay: 0 })
            &&& lm.len() > 0
            &&& hb_scan(lm, 1, true) matches Some(hb) && {
                &&& resp.headers@.len() == hb.0.len()
                &&& forall|q: int|
                    0 <= q < resp.headers@.len() ==> (#[trigger] resp.headers@[q]).0@
                        == hb.0[q].0 && resp.headers@[q].1@ == hb.0[q].1
                &&& (match resp.body {
                    Some(b) => hb.1.len() > 0 && b@ == hb.1,
                    None => hb.1.len() == 0,
                })
            }
        }),
{
    let lines = split_lines(code.as_str());
    proof {
        assert(Seq::new(lines@.len(), |q: int| lines@[q]@) =~~= spec_lines(code@));
    }
    if lines.len() == 0 {
        let mut out = String::new();
        out.append("response code line not found");
        return Err(out);
    }
    let parts = split_words(&lines[0]);
    if parts.len() != 2 {
        let mut out = String::new();
        out.append("invalid response code line ");
        out.append(lines[0].as_str());
        return Err(out);
    }
    let code_chars = crate::path::str_chars(parts[1].as_str());
    let http_code: u16 = match read_u64(&code_chars, 0) {
        Some((v, e)) => {
            if e == code_chars.len() && v <= 599 {
                v as u16
            } else {
                let mut out = String::new();
                out.append("invalid HTTP code: ");
                out.append(parts[1].as_str());
                return Err(out);
            }
        },
        None => {
            let mut out = String::new();
            out.append("invalid HTTP code: ");
            out.append(parts[1].as_str());
            return Err(out);
        },
    };
    if http_code < 100 {
        let mut out = String::new();
        out.append("HTTP code ");
        out.append(parts[1].as_str());
        out.append(" outside of valid range");
        return Err(out);
    }
    match get_headers_and_body(&lines, 1) {
        Ok((headers, body)) => {
            let resp = Response {
                code: http_code,
                headers,
                ignore_paths: Vec::new(),
                ignore_orders: Vec::new(),
                body,
                line_number: code_block_line_no,
                variables: Vec::new(),
                retries: RetryPolicy { max_retries: 1, delay: 0 },
            };
            proof {
                assert(valid_paths(resp.ignore_paths@));
                assert(valid_paths(resp.ignore_orders@));
            }
            Ok(resp)
        },
        Err(e) => Err(e),
    }
}

/// The error text of a misplaced directive.
fn misplaced(kind: &str, line_no: usize, line: &String) -> (r: String) {
    let mut out = String::new();
    out.append("misplaced ");
    out.append(kind);
    out.append(" at line ");
    let num = crate::path::dec_string(line_no);
    out.append(num.as_str());
    out.append(": ");
    out.append(line.as_str());
    out
}

/// Reads every test case of a documentation file's text: each request code
/// block is paired, in order, with a response code block, and the
/// directives between them attach to the response read last. Every response
/// returned has an HTTP status code and registered addresses that parse in
/// the path-expression grammar.
#[verifier::loop_isolation(false)]
#[verifier::rlimit(100)]
pub fn parse(content: &str) -> (r: Result<Vec<TestCase>, String>)
    ensures
        r matches Ok(tcs) ==> forall|i: int|
            0 <= i < tcs@.len() ==> wf_response((#[trigger] tcs@[i]).response),
{
    let lines = split_lines(content);
    let n = lines.len();
    let mut requests: Vec<Request> = Vec::new();
    let mut responses: Vec<Response> = Vec::new();
    let mut i: usize = 0;
    while i < n
        invariant
            i <= n,
            n == lines@.len(),
            forall|q: int|
                0 <= q < responses@.len() ==> wf_response(#[trigger] responses@[q]),
        decreases n - i,
    {
        let line_no = i + 1;
        if line_starts_with(&lines[i], "```docassertrequest") {
            let (code, next) = get_code(&lines, i + 1);
            match get_request(line_no, &code) {
                Ok(req) => {
                    requests.push(req);
                },
                Err(e) => {
                    let mut out = String::new();
                    out.append("parsing error of a request code block starting at line ");
                    let num = crate::path::dec_string(line_no);
                    out.append(num.as_str());
                    out.append(": ");
                    out.append(e.as_str());
                    return Err(out);
                },
            }
            i = next;
            continue ;
        }
        if line_starts_with(&lines[i], "```docassertresponse") {
            let (code, next) = get_code(&lines, i + 1);
            match get_response(line_no, &code) {
                Ok(resp) => {
                    responses.push(resp);
                },
                Err(e) => {
                    let mut out = String::new();
                    out.append("parsing error of a response code block starting at line ");
                    let num = crate::path::dec_string(line_no);
                    out.append(num.as_str());
                    out.append(": ");
                    out.append(e.as_str());
                    return Err(out);
                },
            }
            i = next;
            continue ;
        }
        if line_starts_with(&lines[i], "[ignore-order]") {
            if responses.len() == 0 || responses.len() != requests.len() {
                return Err(misplaced("ignore-order", line_no, &lines[i]));
            }
            match get_ignore_path(&lines[i]) {
                Ok(p) => {
                    match responses.pop() {
                        Some(mut last) => {
                            last.ignore_orders.push(p);
                            responses.push(last);
                        },
                        None => {},
                    }
                },
                Err(e) => {
                    return Err(e);
                },
            }
        } else if line_starts_with(&lines[i], "[ignore]") {
            if responses.len() == 0 || responses.len() != requests.len() {
                return Err(misplaced("ignore", line_no, &lines[i]));
            }
            match get_ignore_path(&lines[i]) {
                Ok(p) => {
                    match responses.pop() {
                        Some(mut last) => {
                            last.ignore_paths.push(p);
                            responses.push(last);
                        },
                        None => {},
                    }
                },
                Err(e) => {
                    return Err(e);
                },
            }
        } else if line_starts_with(&lines[i], "[let ") {
            if responses.len() == 0 || responses.len() != requests.len() {
                return Err(misplaced("variable", line_no, &lines[i]));
            }
            match get_variable_template(&lines[i]) {
                Ok((name, path)) => {
                    match responses.pop() {
                        Some(mut last) => {
                            last.variables.push((name, path));
                            responses.push(last);
                        },
                        None => {},
                    }
                },
                Err(e) => {
                    return Err(e);
                },
            }
        } else if line_starts_with(&lines[i], "[retry]") {
            if responses.len() == 0 || responses.len() != requests.len() {
                return Err(misplaced("retry", line_no, &lines[i]));
            }
            match get_retry_policy(&lines[i]) {
                Ok(policy) => {
                    match responses.pop() {
                        Some(mut last) => {
                            last.retries = policy;
                            responses.push(last);
                        },
                        None => {},
                    }
                },
                Err(e) => {
                    return Err(e);
                },
            }
        }
        i = i + 1;
    }
    match pair_cases(requests, responses) {
        Ok(test_cases) => {
            proof {
                assert forall|i: int|
                    0 <= i < test_cases@.len() implies wf_response(
                    (#[trigger] test_cases@[i]).response,
                ) by {}
            }
            Ok(test_cases)
        },
        Err(e) => Err(e),
    }
}

/// Pairs the collected code blocks into test cases: the i-th request block
/// with the i-th response block, in document order. Unequal counts are an
/// error naming both counts.
#[verifier::loop_isolation(false)]
pub fn pair_cases(requests: Vec<Request>, responses: Vec<Response>) -> (r: Result<
    Vec<TestCase>,
    String,
>)
    ensures
        match r {
            Ok(tcs) => {
                &&& requests@.len() == responses@.len()
                &&& tcs@.len() == requests@.len()
                &&& forall|i: int|
                    0 <= i < tcs@.len() ==> (#[trigger] tcs@[i]).request == requests@[i]
                        && tcs@[i].response == responses@[i]
            },
            Err(_) => requests@.len() != responses@.len(),
        },
{
    let ghost req0 = requests@;
    let ghost resp0 = responses@;
    let mut reqs = requests;
    let mut resps = responses;
    if reqs.len() != resps.len() {
        let mut out = String::new();
        out.append("there is ");
        let rq = crate::path::dec_string(reqs.len());
        out.append(rq.as_str());
        out.append(" requests and ");
        let rs = crate::path::dec_string(resps.len());
        out.append(rs.as_str());
        out.append(" responses but you need equal number of both");
        return Err(out);
    }
    let n = reqs.len();
    let mut reversed: Vec<TestCase> = Vec::new();
    while resps.len() > 0
        invariant
            reqs@.len() == resps@.len(),
            reqs@ == req0.subrange(0, reqs@.len() as int),
            resps@ == resp0.subrange(0, resps@.len() as int),
            reversed@.len() + resps@.len() == n,
            forall|j: int|
                0 <= j < reversed@.len() ==> (#[trigger] reversed@[j]).request == req0[n - 1 - j]
                    && reversed@[j].response == resp0[n - 1 - j],
        decreases resps.len(),
    {
        let ghost len_before = resps@.len() as int;
        let resp = match resps.pop() {
            Some(r1) => r1,
            None => {
                proof {
                    assert(false);
                }
                return Err(String::new());
            },
        };
        let req = match reqs.pop() {
            Some(r2) => r2,
            None => {
                proof {
                    assert(false);
                }
                return Err(String::new());
            },
        };
        proof {
            assert(req == req0[len_before - 1]);
            assert(resp == resp0[len_before - 1]);
            assert(reqs@ =~= req0.subrange(0, reqs@.len() as int));
            assert(resps@ =~= resp0.subrange(0, resps@.len() as int));
        }
        reversed.push(TestCase { request: req, response: resp });
    }
    let mut test_cases: Vec<TestCase> = Vec::new();
    while reversed.len() > 0
        invariant
            test_cases@.len() + reversed@.len() == n,
            forall|j: int|
                0 <= j < reversed@.len() ==> (#[trigger] reversed@[j]).request == req0[n - 1 - j]
                    && reversed@[j].response == resp0[n - 1 - j],
            forall|q: int|
                0 <= q < test_cases@.len() ==> (#[trigger] test_cases@[q]).request == req0[q]
                    && test_cases@[q].response == resp0[q],
        decreases reversed.len(),
    {
        let ghost len_before = reversed@.len() as int;
        let ghost rv0 = reversed@;
        match reversed.pop() {
            Some(tc) => {
                proof {
                    assert(tc == rv0[len_before - 1]);
                    assert(tc.request == req0[n - len_before]);
                }
                test_cases.push(tc);
            },
            None => {
                proof {
                    assert(false);
                }
                return Err(String::new());
            },
        }
    }
    Ok(test_cases)
}

} // verus!

