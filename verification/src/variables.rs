//! Variables shared between requests and responses: named JSON values that
//! replace backtick-quoted placeholders in request and response texts, and
//! that can be captured out of a response body by address.

use crate::diff::obj_index;
use crate::domain::{Request, Response};
use crate::path::{Key, KeyModel, Path, PathModel};
use crate::value::{entry_views_of_seq, JsonValue, ValueModel};
use vstd::prelude::*;
use vstd::string::StringExecFns;

verus! {

/// The mapping after binding a name to a value.
pub open spec fn spec_bind(
    entries: Seq<(Seq<char>, ValueModel)>,
    name: Seq<char>,
    value: ValueModel,
) -> Seq<(Seq<char>, ValueModel)> {
    entries.push((name, value))
}

/// What a value-addressing walk yields: the root yields nothing, a field
/// step reads the named member of an object, an index step reads the
/// numbered element of an array, any other step yields nothing.
pub open spec fn spec_extract(keys: Seq<KeyModel>, i: int, v: ValueModel) -> Option<ValueModel>
    decreases keys.len() - i,
    when 0 <= i
{
    if i >= keys.len() {
        Some(v)
    } else {
        match keys[i] {
            KeyModel::Field(name) => match v {
                ValueModel::Object(entries) => {
                    let idx = obj_index(entries, name);
                    if 0 <= idx < entries.len() {
                        spec_extract(keys, i + 1, entries[idx].1)
                    } else {
                        None
                    }
                },
                _ => None,
            },
            KeyModel::Idx(n) => match v {
                ValueModel::Array(items) => if 0 <= n < items.len() {
                    spec_extract(keys, i + 1, items[n])
                } else {
                    None
                },
                _ => None,
            },
            _ => None,
        }
    }
}

/// What extracting at an address yields: nothing for the root, the value of
/// the walk for a step sequence.
pub open spec fn spec_extract_path(p: PathModel, v: ValueModel) -> Option<ValueModel> {
    match p {
        PathModel::Root => None,
        PathModel::Keys(keys) => spec_extract(keys, 0, v),
    }
}

/// Reads the value at an address inside a value, walking field and index
/// steps; an address using wildcard or range steps addresses no single
/// value and yields nothing.
pub fn extract_value(path: &Path, value: &JsonValue) -> (r: Option<JsonValue>)
    ensures
        match r {
            Some(out) => spec_extract_path(path@, value@) == Some(out@),
            None => spec_extract_path(path@, value@) is None,
        },
{
    match path {
        Path::Root => None,
        Path::Keys(keys) => {
            match extract_walk(keys, 0, value) {
                Some(found) => Some(found.clone()),
                None => None,
            }
        },
    }
}

/// The value-addressing walk from step i.
#[verifier::loop_isolation(false)]
fn extract_walk<'a>(keys: &Vec<Key>, i: usize, v: &'a JsonValue) -> (r: Option<&'a JsonValue>)
    requires
        i <= keys@.len(),
    ensures
        ({
            let km = Seq::new(keys@.len(), |q: int| keys@[q]@);
            match r {
                Some(out) => spec_extract(km, i as int, v@) == Some(out@),
                None => spec_extract(km, i as int, v@) is None,
            }
        }),
    decreases keys@.len() - i,
{
    broadcast use crate::value::lemma_views_of_seq, crate::value::lemma_entry_views_of_seq;

    let ghost km = Seq::new(keys@.len(), |q: int| keys@[q]@);
    if i == keys.len() {
        return Some(v);
    }
    proof {
        assert(km[i as int] == keys@[i as int]@);
    }
    match &keys[i] {
        Key::Field(name) => match v {
            JsonValue::Object(entries) => {
                proof {
                    crate::diff::lemma_obj_index(entry_views_of_seq(entries@), name@);
                }
                match crate::diff::obj_find(entries, name) {
                    Some(idx) => {
                        proof {
                            assert(entry_views_of_seq(entries@)[idx as int].1
                                == entries@[idx as int].1@);
                            assert(spec_extract(km, i as int, v@) == spec_extract(
                                km,
                                i + 1,
                                entries@[idx as int].1@,
                            ));
                        }
                        extract_walk(keys, i + 1, &entries[idx].1)
                    },
                    None => {
                        proof {
                            assert(spec_extract(km, i as int, v@) is None);
                        }
                        None
                    },
                }
            },
            _ => {
                proof {
                    assert(spec_extract(km, i as int, v@) is None);
                }
                None
            },
        },
        Key::Idx(n) => match v {
            JsonValue::Array(items) => {
                if *n < items.len() {
                    proof {
                        assert(crate::value::views_of_seq(items@)[*n as int]
                            == items@[*n as int]@);
                        assert(spec_extract(km, i as int, v@) == spec_extract(
                            km,
                            i + 1,
                            items@[*n as int]@,
                        ));
                    }
                    extract_walk(keys, i + 1, &items[*n])
                } else {
                    proof {
                        assert(spec_extract(km, i as int, v@) is None);
                    }
                    None
                }
            },
            _ => {
                proof {
                    assert(spec_extract(km, i as int, v@) is None);
                }
                None
            },
        },
        _ => {
            proof {
                assert(spec_extract(km, i as int, v@) is None);
            }
            None
        },
    }
}

/// No backtick occurs in the text: every placeholder was substituted.
pub open spec fn no_backticks(s: Seq<char>) -> bool {
    forall|i: int| 0 <= i < s.len() ==> (#[trigger] s[i]) != '`'
}

/// Named JSON values to be substituted for backtick-quoted placeholders in
/// request and response texts. Binding a name again replaces its value.
pub struct Variables {
    /// The bindings, in binding order; the last binding of a name wins.
    pub map: Vec<(String, JsonValue)>,
}

impl View for Variables {
    type V = Seq<(Seq<char>, ValueModel)>;

    open spec fn view(&self) -> Seq<(Seq<char>, ValueModel)> {
        entry_views_of_seq(self.map@)
    }
}

impl Variables {
    /// An empty set of variables.
    pub fn new() -> (r: Variables)
        ensures
            r@.len() == 0,
    {
        let r = Variables { map: Vec::new() };
        proof {
            crate::value::lemma_entry_views_of_seq(r.map@);
        }
        r
    }

    /// The variables given by a JSON object: one binding per member. A
    /// value that is not an object is an error.
    pub fn from_json(json: &JsonValue) -> (r: Result<Variables, String>)
        ensures
            match r {
                Ok(vars) => json@ matches ValueModel::Object(entries) && vars@ == entries,
                Err(_) => !(json@ is Object),
            },
    {
        broadcast use crate::value::lemma_entry_views_of_seq;

        match json {
            JsonValue::Object(entries) => {
                let copied = clone_object_entries(entries);
                let r = Variables { map: copied };
                proof {
                    assert(r@ =~~= entry_views_of_seq(entries@));
                }
                Ok(r)
            },
            _ => {
                let mut out = String::new();
                out.append("variables must be an object");
                Err(out)
            },
        }
    }

    /// Binds a name to a value.
    pub fn insert_value(&mut self, name: String, value: JsonValue)
        ensures
            final(self)@ == spec_bind(old(self)@, name@, value@),
    {
        broadcast use crate::value::lemma_entry_views_of_seq;

        let ghost before = self@;
        self.map.push((name, value));
        proof {
            assert(self@ =~~= spec_bind(before, name@, value@));
        }
    }

    /// Binds a name to a string value.
    pub fn insert_string(&mut self, name: String, value: String)
        ensures
            final(self)@ == spec_bind(old(self)@, name@, ValueModel::Str(value@)),
    {
        self.insert_value(name, JsonValue::Str(value));
    }

    /// Binds a name to a boolean value.
    pub fn insert_bool(&mut self, name: String, value: bool)
        ensures
            final(self)@ == spec_bind(old(self)@, name@, ValueModel::Bool(value)),
    {
        self.insert_value(name, JsonValue::Bool(value));
    }

    /// Binds a name to the null value.
    pub fn insert_null(&mut self, name: String)
        ensures
            final(self)@ == spec_bind(old(self)@, name@, ValueModel::Null),
    {
        self.insert_value(name, JsonValue::Null);
    }

    /// Captures variables out of a response body: each template names a
    /// variable and the address of the value to bind to it; an address that
    /// resolves to no value is an error naming the variable.
    pub fn obtain_from_response(
        &mut self,
        response: &JsonValue,
        variable_templates: &Vec<(String, Path)>,
    ) -> (r: Result<(), String>)
        ensures
            ({
                let ts = variable_templates@;
                match r {
                    Ok(_) => {
                        &&& forall|i: int|
                            0 <= i < ts.len() ==> spec_extract_path(
                                (#[trigger] ts[i]).1@,
                                response@,
                            ) is Some
                        &&& final(self)@ == old(self)@ + Seq::new(
                            ts.len(),
                            |i: int|
                                (
                                    ts[i].0@,
                                    spec_extract_path(ts[i].1@, response@)->Some_0,
                                ),
                        )
                    },
                    Err(_) => exists|i: int|
                        0 <= i < ts.len() && spec_extract_path(
                            (#[trigger] ts[i]).1@,
                            response@,
                        ) is None,
                }
            }),
    {
        let ghost base = self@;
        let ghost ts = variable_templates@;
        let ghost bound = Seq::new(
            ts.len(),
            |i: int| (ts[i].0@, spec_extract_path(ts[i].1@, response@)->Some_0),
        );
        let n = variable_templates.len();
        for k in 0..n
            invariant
                n == variable_templates@.len(),
                ts == variable_templates@,
                bound == Seq::new(
                    ts.len(),
                    |i: int| (ts[i].0@, spec_extract_path(ts[i].1@, response@)->Some_0),
                ),
                self@ == base + bound.subrange(0, k as int),
                forall|i: int|
                    0 <= i < k ==> spec_extract_path((#[trigger] ts[i]).1@, response@) is Some,
            decreases n - k,
        {
            let name = &variable_templates[k].0;
            let path = &variable_templates[k].1;
            match extract_value(path, response) {
                Some(value) => {
                    self.insert_value(name.clone(), value);
                    proof {
                        assert(bound.subrange(0, k + 1) =~= bound.subrange(0, k as int).push(
                            bound[k as int],
                        ));
                        assert(self@ =~~= base + bound.subrange(0, k + 1));
                    }
                },
                None => {
                    let mut out = String::new();
                    out.append("variable template ");
                    out.append(name.as_str());
                    out.append(" not found in the response body");
                    return Err(out);
                },
            }
        }
        proof {
            assert(bound.subrange(0, n as int) =~= bound);
            assert(self@ =~~= base + bound);
            assert(self@ == base + bound);
        }
        Ok(())
    }

    /// Replaces every backtick-quoted placeholder naming a variable by that
    /// variable's JSON text; for targets outside a JSON body the quotes
    /// around a string value are dropped. Text still holding a backtick
    /// after every variable was substituted is an error: it names an
    /// unbound placeholder.
    #[verifier::loop_isolation(false)]
    pub fn replace_placeholders(&self, input: &String, trim_quotes: bool) -> (r: Result<
        String,
        String,
    >)
        ensures
            match r {
                Ok(out) => out@ == apply_bindings(input@, self@, 0, trim_quotes) && no_backticks(
                    out@,
                ),
                Err(_) => !no_backticks(apply_bindings(input@, self@, 0, trim_quotes)),
            },
    {
        let ghost vars = self@;
        let mut current = input.clone();
        let n = self.map.len();
        proof {
            crate::value::lemma_entry_views_of_seq(self.map@);
            assert(vars.len() == n);
        }
        for k in 0..n
            invariant
                n == self.map@.len(),
                vars == self@,
                apply_bindings(input@, vars, 0, trim_quotes) == apply_bindings(
                    current@,
                    vars,
                    k as int,
                    trim_quotes,
                ),
            decreases n - k,
        {
            let ghost name_m = vars[k as int].0;
            let ghost value_m = vars[k as int].1;
            proof {
                crate::value::lemma_entry_views_of_seq(self.map@);
                assert(name_m == self.map@[k as int].0@);
                assert(value_m == self.map@[k as int].1@);
            }
            let mut pattern_chars: Vec<char> = Vec::new();
            pattern_chars.push('`');
            let name_chars = crate::path::str_chars(self.map[k].0.as_str());
            let m = name_chars.len();
            for q in 0..m
                invariant
                    m == name_chars@.len(),
                    name_chars@ == name_m,
                    pattern_chars@ == seq!['`'] + name_m.subrange(0, q as int),
                decreases m - q,
            {
                pattern_chars.push(name_chars[q]);
                proof {
                    assert(name_m.subrange(0, q + 1) =~= name_m.subrange(0, q as int).push(
                        name_m[q as int],
                    ));
                    assert(pattern_chars@ =~= seq!['`'] + name_m.subrange(0, q + 1));
                }
            }
            pattern_chars.push('`');
            proof {
                assert(name_m.subrange(0, m as int) =~= name_m);
                assert(pattern_chars@ =~= placeholder(name_m));
            }
            let value_text = self.map[k].1.to_text();
            let rendered = if trim_quotes {
                trim_quote_chars(&value_text)
            } else {
                value_text
            };
            proof {
                assert(rendered@ == substituted_text(value_m, trim_quotes));
            }
            let next = replace_all(&current, &pattern_chars, &rendered);
            proof {
                assert(apply_bindings(current@, vars, k as int, trim_quotes) == apply_bindings(
                    next@,
                    vars,
                    k + 1,
                    trim_quotes,
                ));
            }
            current = next;
        }
        proof {
            assert(apply_bindings(current@, vars, n as int, trim_quotes) == current@);
        }
        let out_chars = crate::path::str_chars(current.as_str());
        let l = out_chars.len();
        for k in 0..l
            invariant
                l == out_chars@.len(),
                out_chars@ == current@,
                forall|i: int| 0 <= i < k ==> (#[trigger] out_chars@[i]) != '`',
            decreases l - k,
        {
            if out_chars[k] == '`' {
                let mut out = String::new();
                out.append("unresolved variable placeholders in ");
                out.append(current.as_str());
                return Err(out);
            }
        }
        Ok(current)
    }

    /// Replaces the placeholders of a request: in its target and its
    /// headers with string quotes dropped, in its body verbatim. After a
    /// successful replacement no placeholder is left anywhere in the
    /// request.
    pub fn replace_request_placeholders(&self, input: &mut Request) -> (r: Result<(), String>)
        ensures
            r is Ok ==> {
                &&& no_backticks(final(input).uri@)
                &&& (final(input).body matches Some(b) ==> no_backticks(b@))
                &&& forall|i: int|
                    0 <= i < final(input).headers@.len() ==> no_backticks(
                        (#[trigger] final(input).headers@[i]).1@,
                    )
            },
    {
        match self.replace_placeholders(&input.uri, true) {
            Ok(out) => {
                input.uri = out;
            },
            Err(e) => {
                return Err(e);
            },
        }
        match &input.body {
            Some(body) => {
                match self.replace_placeholders(body, false) {
                    Ok(out) => {
                        input.body = Some(out);
                    },
                    Err(e) => {
                        return Err(e);
                    },
                }
            },
            None => {},
        }
        let n = input.headers.len();
        let mut replaced: Vec<(String, String)> = Vec::new();
        let mut i: usize = 0;
        while i < n
            invariant
                i <= n,
                n == input.headers@.len(),
                replaced@.len() == i,
                forall|q: int|
                    0 <= q < i ==> no_backticks((#[trigger] replaced@[q]).1@),
            decreases n - i,
        {
            let name = input.headers[i].0.clone();
            match self.replace_placeholders(&input.headers[i].1, true) {
                Ok(out) => {
                    replaced.push((name, out));
                },
                Err(e) => {
                    return Err(e);
                },
            }
            i = i + 1;
        }
        input.headers = replaced;
        Ok(())
    }

    /// Replaces the placeholders of an expected response: in its body
    /// verbatim, in its headers with string quotes dropped. After a
    /// successful replacement no placeholder is left in the body or the
    /// headers.
    pub fn replace_response_placeholders(&self, input: &mut Response) -> (r: Result<(), String>)
        ensures
            r is Ok ==> {
                &&& (final(input).body matches Some(b) ==> no_backticks(b@))
                &&& forall|i: int|
                    0 <= i < final(input).headers@.len() ==> no_backticks(
                        (#[trigger] final(input).headers@[i]).1@,
                    )
            },
    {
        match &input.body {
            Some(body) => {
                match self.replace_placeholders(body, false) {
                    Ok(out) => {
                        input.body = Some(out);
                    },
                    Err(e) => {
                        return Err(e);
                    },
                }
            },
            None => {},
        }
        let n = input.headers.len();
        let mut replaced: Vec<(String, String)> = Vec::new();
        let mut i: usize = 0;
        while i < n
            invariant
                i <= n,
                n == input.headers@.len(),
                replaced@.len() == i,
                forall|q: int|
                    0 <= q < i ==> no_backticks((#[trigger] replaced@[q]).1@),
            decreases n - i,
        {
            let name = input.headers[i].0.clone();
            match self.replace_placeholders(&input.headers[i].1, true) {
                Ok(out) => {
                    replaced.push((name, out));
                },
                Err(e) => {
                    return Err(e);
                },
            }
            i = i + 1;
        }
        input.headers = replaced;
        Ok(())
    }
}

/// Copies an object's entries, preserving each entry's model.
fn clone_object_entries(entries: &Vec<(String, JsonValue)>) -> (r: Vec<(String, JsonValue)>)
    ensures
        r@.len() == entries@.len(),
        forall|i: int|
            0 <= i < entries@.len() ==> (#[trigger] r@[i]).0@ == entries@[i].0@ && r@[i].1@
                == entries@[i].1@,
{
    let mut out: Vec<(String, JsonValue)> = Vec::new();
    let n = entries.len();
    for k in 0..n
        invariant
            n == entries@.len(),
            out@.len() == k,
            forall|i: int|
                0 <= i < k ==> (#[trigger] out@[i]).0@ == entries@[i].0@ && out@[i].1@
                    == entries@[i].1@,
        decreases n - k,
    {
        let key = entries[k].0.clone();
        let val = entries[k].1.clone();
        out.push((key, val));
    }
    out
}

/// The text with every occurrence of a nonempty pattern replaced, scanning
/// once from the left without overlap.
pub open spec fn spec_replace(s: Seq<char>, pat: Seq<char>, rep: Seq<char>) -> Seq<char>
    decreases s.len(),
    when pat.len() > 0
{
    if s.len() < pat.len() {
        s
    } else if s.subrange(0, pat.len() as int) == pat {
        rep + spec_replace(s.skip(pat.len() as int), pat, rep)
    } else {
        seq![s[0]] + spec_replace(s.drop_first(), pat, rep)
    }
}

/// Position just after the run of leading string quotes starting at i.
pub open spec fn quotes_end(s: Seq<char>, i: int) -> int
    decreases s.len() - i,
    when 0 <= i <= s.len()
{
    if i < s.len() && s[i] == '"' {
        quotes_end(s, i + 1)
    } else {
        i
    }
}

/// Position just before the run of trailing string quotes ending at b, not
/// reaching back past a.
pub open spec fn quotes_back(s: Seq<char>, a: int, b: int) -> int
    decreases b,
    when 0 <= a <= b <= s.len()
{
    if b > a && s[b - 1] == '"' {
        quotes_back(s, a, b - 1)
    } else {
        b
    }
}

/// The text without its leading and trailing string quotes.
pub open spec fn spec_trim_quotes(s: Seq<char>) -> Seq<char> {
    let a = quotes_end(s, 0);
    if 0 <= a <= s.len() {
        s.subrange(a, quotes_back(s, a, s.len() as int))
    } else {
        s
    }
}

/// The backtick-quoted placeholder of a variable name.
pub open spec fn placeholder(name: Seq<char>) -> Seq<char> {
    seq!['`'] + name + seq!['`']
}

/// The text a variable's value is substituted as: its JSON text, without
/// the quotes around a string value when they are to be dropped.
pub open spec fn substituted_text(v: ValueModel, trim: bool) -> Seq<char> {
    if trim {
        spec_trim_quotes(crate::value::render_value(v))
    } else {
        crate::value::render_value(v)
    }
}

/// The text after substituting the bindings from position i on, in order.
pub open spec fn apply_bindings(
    s: Seq<char>,
    entries: Seq<(Seq<char>, ValueModel)>,
    i: int,
    trim: bool,
) -> Seq<char>
    decreases entries.len() - i,
    when 0 <= i
{
    if i >= entries.len() {
        s
    } else {
        apply_bindings(
            spec_replace(s, placeholder(entries[i].0), substituted_text(entries[i].1, trim)),
            entries,
            i + 1,
            trim,
        )
    }
}

/// The scanned quote run ends at or after its start, within the text.
proof fn lemma_quotes_end(s: Seq<char>, i: int)
    requires
        0 <= i <= s.len(),
    ensures
        i <= quotes_end(s, i) <= s.len(),
    decreases s.len() - i,
{
    if i < s.len() && s[i] == '"' {
        lemma_quotes_end(s, i + 1);
    }
}

/// Whether the pattern occurs at the given position.
fn matches_at(chars: &Vec<char>, k: usize, pattern: &Vec<char>) -> (r: bool)
    requires
        k <= chars@.len(),
    ensures
        r == (k + pattern@.len() <= chars@.len() && chars@.subrange(
            k as int,
            k + pattern@.len(),
        ) == pattern@),
{
    let n = chars.len();
    let m = pattern.len();
    if m > n - k {
        return false;
    }
    for q in 0..m
        invariant
            m == pattern@.len(),
            n == chars@.len(),
            k + m <= n,
            forall|x: int| 0 <= x < q ==> chars@[k + x] == pattern@[x],
        decreases m - q,
    {
        if chars[k + q] != pattern[q] {
            proof {
                assert(chars@.subrange(k as int, k + pattern@.len())[q as int]
                    != pattern@[q as int]);
            }
            return false;
        }
    }
    proof {
        assert(chars@.subrange(k as int, k + pattern@.len()) =~= pattern@);
    }
    true
}

/// The text without leading and trailing string quotes.
fn trim_quote_chars(s: &String) -> (r: String)
    ensures
        r@ == spec_trim_quotes(s@),
{
    let chars = crate::path::str_chars(s.as_str());
    let n = chars.len();
    let mut a: usize = 0;
    while a < n && chars[a] == '"'
        invariant
            a <= n,
            n == chars@.len(),
            chars@ == s@,
            quotes_end(s@, 0) == quotes_end(s@, a as int),
        decreases n - a,
    {
        a = a + 1;
    }
    proof {
        assert(quotes_end(s@, a as int) == a);
    }
    let mut b = n;
    while b > a && chars[b - 1] == '"'
        invariant
            a <= b <= n,
            n == chars@.len(),
            chars@ == s@,
            quotes_back(s@, a as int, n as int) == quotes_back(s@, a as int, b as int),
        decreases b,
    {
        b = b - 1;
    }
    proof {
        assert(quotes_back(s@, a as int, b as int) == b);
    }
    crate::path::extract_string(&chars, a, b)
}

/// The text with every occurrence of a nonempty pattern replaced, scanning
/// once from the left without overlap.
#[verifier::loop_isolation(false)]
fn replace_all(input: &String, pattern: &Vec<char>, replacement: &String) -> (r: String)
    requires
        pattern@.len() > 0,
    ensures
        r@ == spec_replace(input@, pattern@, replacement@),
{
    let chars = crate::path::str_chars(input.as_str());
    let rep_chars = crate::path::str_chars(replacement.as_str());
    let n = chars.len();
    let m = pattern.len();
    let mut out: Vec<char> = Vec::new();
    let mut k: usize = 0;
    proof {
        assert(chars@.subrange(0, n as int) =~= chars@);
        assert(out@ + spec_replace(chars@.subrange(0, n as int), pattern@, replacement@)
            =~= spec_replace(chars@, pattern@, replacement@));
    }
    while k < n
        invariant
            k <= n,
            spec_replace(chars@, pattern@, replacement@) == out@ + spec_replace(
                chars@.subrange(k as int, n as int),
                pattern@,
                replacement@,
            ),
        decreases n - k,
    {
        let ghost suf = chars@.subrange(k as int, n as int);
        if matches_at(&chars, k, pattern) {
            proof {
                assert forall|x: int| 0 <= x < m implies suf.subrange(0, m as int)[x] == (
                #[trigger] pattern@[x]) by {
                    assert(suf.subrange(0, m as int)[x] == chars@[k + x]);
                    assert(chars@.subrange(k as int, k + pattern@.len())[x] == chars@[k + x]);
                }
                assert(suf.subrange(0, m as int) =~= pattern@);
                assert(spec_replace(suf, pattern@, replacement@) == replacement@ + spec_replace(
                    suf.skip(m as int),
                    pattern@,
                    replacement@,
                ));
                assert(suf.skip(m as int) =~= chars@.subrange(k + m, n as int));
            }
            let rl = rep_chars.len();
            let ghost out0 = out@;
            for q in 0..rl
                invariant
                    rl == rep_chars@.len(),
                    out@ == out0 + rep_chars@.subrange(0, q as int),
                decreases rl - q,
            {
                out.push(rep_chars[q]);
                proof {
                    assert(rep_chars@.subrange(0, q + 1) =~= rep_chars@.subrange(0, q as int).push(
                        rep_chars@[q as int],
                    ));
                    assert(out@ =~= out0 + rep_chars@.subrange(0, q + 1));
                }
            }
            proof {
                assert(rep_chars@.subrange(0, rl as int) =~= rep_chars@);
                assert(out@ =~= out0 + replacement@);
                assert(out@ + spec_replace(chars@.subrange(k + m, n as int), pattern@, replacement@)
                    =~= out0 + spec_replace(suf, pattern@, replacement@));
            }
            k = k + m;
        } else {
            proof {
                if suf.len() >= m {
                    assert forall|x: int|
                        0 <= x < m implies chars@.subrange(k as int, k + pattern@.len())[x] == (
                    #[trigger] suf.subrange(0, m as int)[x]) by {
                        assert(chars@.subrange(k as int, k + pattern@.len())[x] == chars@[k + x]);
                        assert(suf.subrange(0, m as int)[x] == chars@[k + x]);
                    }
                    if suf.subrange(0, m as int) == pattern@ {
                        assert(chars@.subrange(k as int, k + pattern@.len()) =~= pattern@);
                        assert(false);
                    }
                    assert(spec_replace(suf, pattern@, replacement@) == seq![suf[0]]
                        + spec_replace(suf.drop_first(), pattern@, replacement@));
                } else {
                    assert(spec_replace(suf, pattern@, replacement@) == suf);
                    assert(suf.drop_first().len() < m);
                    assert(spec_replace(suf.drop_first(), pattern@, replacement@)
                        == suf.drop_first());
                    assert(spec_replace(suf, pattern@, replacement@) =~= seq![suf[0]]
                        + spec_replace(suf.drop_first(), pattern@, replacement@));
                }
                assert(suf[0] == chars@[k as int]);
                assert(suf.drop_first() =~= chars@.subrange(k + 1, n as int));
            }
            out.push(chars[k]);
            proof {
                assert(out@ + spec_replace(chars@.subrange(k + 1, n as int), pattern@, replacement@)
                    =~= spec_replace(chars@, pattern@, replacement@));
            }
            k = k + 1;
        }
    }
    proof {
        assert(chars@.subrange(n as int, n as int).len() == 0);
        assert(spec_replace(chars@.subrange(n as int, n as int), pattern@, replacement@)
            =~= Seq::<char>::empty());
        assert(out@ =~= spec_replace(chars@, pattern@, replacement@));
    }
    crate::path::chars_to_string(&out)
}

} // verus!
