//! The JSON value algebra that the diff engine walks: null, boolean, number,
//! string, array, object. Values are owned, immutable during a comparison.
//!
//! Numbers keep three things: their representation class (the same number may
//! be written as an integer or as a floating literal), the bit pattern of the
//! value read as a double-precision float (so that the two classes can be
//! unified without floating-point arithmetic), and the decimal text used when
//! a value has to be rendered.

use vstd::prelude::*;

verus! {

/// Representation class and exact identity of a JSON number, following the
/// usual split: non-negative integers, negative integers, floating literals.
#[derive(Clone, Copy)]
pub enum NumberRepr {
    /// Integer literal with a non-negative value.
    PosInt(u64),
    /// Integer literal with a negative value. Always less than zero.
    NegInt(i64),
    /// Floating literal; its identity is the bit pattern held by the number.
    Float,
}

/// A JSON number.
pub struct Number {
    /// Representation class and, for integers, the exact value.
    pub repr: NumberRepr,
    /// Bit pattern of the value converted to a double-precision float.
    /// Callers that build numbers must use the IEEE-754 encoding of the
    /// numeric value, with a negative zero encoded as positive zero and
    /// never a NaN, so that bit equality coincides with float equality.
    pub bits: u64,
    /// Decimal text of the number, used for rendering only.
    pub text: String,
}

/// Mathematical model of a number: the same three components, with the text
/// as a sequence of characters.
pub struct NumberModel {
    pub repr: NumberRepr,
    pub bits: u64,
    pub text: Seq<char>,
}

impl View for Number {
    type V = NumberModel;

    open spec fn view(&self) -> NumberModel {
        NumberModel { repr: self.repr, bits: self.bits, text: self.text@ }
    }
}

/// A JSON value.
pub enum JsonValue {
    Null,
    Bool(bool),
    Num(Number),
    Str(String),
    Array(Vec<JsonValue>),
    Object(Vec<(String, JsonValue)>),
}

/// Mathematical model of a JSON value.
pub enum ValueModel {
    Null,
    Bool(bool),
    Num(NumberModel),
    Str(Seq<char>),
    Array(Seq<ValueModel>),
    Object(Seq<(Seq<char>, ValueModel)>),
}

impl View for JsonValue {
    type V = ValueModel;

    open spec fn view(&self) -> ValueModel
        decreases self,
    {
        match self {
            JsonValue::Null => ValueModel::Null,
            JsonValue::Bool(b) => ValueModel::Bool(*b),
            JsonValue::Num(n) => ValueModel::Num(n@),
            JsonValue::Str(s) => ValueModel::Str(s@),
            JsonValue::Array(items) => ValueModel::Array(views_of_vec(*items)),
            JsonValue::Object(entries) => ValueModel::Object(entry_views_of_vec(*entries)),
        }
    }
}

/// The models of the elements of an array, in order.
pub open spec fn views_of_vec(items: Vec<JsonValue>) -> Seq<ValueModel>
    decreases items,
{
    views_of_seq(items@)
}

/// The models of the elements of a sequence of values, in order.
pub open spec fn views_of_seq(items: Seq<JsonValue>) -> Seq<ValueModel>
    decreases items,
{
    if items.len() == 0 {
        Seq::empty()
    } else {
        seq![items[0]@] + views_of_seq(items.drop_first())
    }
}

/// The models of the entries of an object, in order.
pub open spec fn entry_views_of_vec(entries: Vec<(String, JsonValue)>) -> Seq<
    (Seq<char>, ValueModel),
>
    decreases entries,
{
    entry_views_of_seq(entries@)
}

/// The models of the entries of a sequence of object entries, in order.
pub open spec fn entry_views_of_seq(entries: Seq<(String, JsonValue)>) -> Seq<
    (Seq<char>, ValueModel),
>
    decreases entries,
{
    if entries.len() == 0 {
        Seq::empty()
    } else {
        seq![(entries[0].0@, entries[0].1@)] + entry_views_of_seq(entries.drop_first())
    }
}

/// The model of an array is the sequence of the models of its elements.
pub broadcast proof fn lemma_views_of_seq(items: Seq<JsonValue>)
    ensures
        (#[trigger] views_of_seq(items)).len() == items.len(),
        forall|i: int| 0 <= i < items.len() ==> views_of_seq(items)[i] == items[i]@,
    decreases items,
{
    if items.len() > 0 {
        lemma_views_of_seq(items.drop_first());
        assert(views_of_seq(items) == seq![items[0]@] + views_of_seq(items.drop_first()));
        assert forall|i: int| 0 <= i < items.len() implies views_of_seq(items)[i]
            == items[i]@ by {
            if i == 0 {
                assert(views_of_seq(items)[0] == items[0]@);
            } else {
                assert(items.drop_first()[i - 1] == items[i]);
                assert(views_of_seq(items)[i] == views_of_seq(items.drop_first())[i - 1]);
            }
        }
    }
}

/// The model of an object is the sequence of the models of its entries.
pub broadcast proof fn lemma_entry_views_of_seq(entries: Seq<(String, JsonValue)>)
    ensures
        (#[trigger] entry_views_of_seq(entries)).len() == entries.len(),
        forall|i: int|
            0 <= i < entries.len() ==> entry_views_of_seq(entries)[i] == (
            entries[i].0@,
            entries[i].1@,
            ),
    decreases entries,
{
    if entries.len() > 0 {
        lemma_entry_views_of_seq(entries.drop_first());
        assert(entry_views_of_seq(entries) == seq![(entries[0].0@, entries[0].1@)]
            + entry_views_of_seq(entries.drop_first()));
        assert forall|i: int|
            0 <= i < entries.len() implies entry_views_of_seq(entries)[i] == (
        entries[i].0@,
        entries[i].1@,
        ) by {
            if i == 0 {
                assert(entry_views_of_seq(entries)[0] == (entries[0].0@, entries[0].1@));
            } else {
                assert(entries.drop_first()[i - 1] == entries[i]);
                assert(entry_views_of_seq(entries)[i] == entry_views_of_seq(
                    entries.drop_first(),
                )[i - 1]);
            }
        }
    }
}

/// Two numbers are equal under the strict numeric mode when they have the
/// same representation class and the same value in it.
pub open spec fn num_strict_eq(a: NumberModel, b: NumberModel) -> bool {
    match (a.repr, b.repr) {
        (NumberRepr::PosInt(x), NumberRepr::PosInt(y)) => x == y,
        (NumberRepr::NegInt(x), NumberRepr::NegInt(y)) => x == y,
        (NumberRepr::Float, NumberRepr::Float) => a.bits == b.bits,
        _ => false,
    }
}

/// Two numbers are equal under the float numeric mode when they denote the
/// same double-precision value, whatever class they were written in.
pub open spec fn num_float_eq(a: NumberModel, b: NumberModel) -> bool {
    a.bits == b.bits
}

impl Number {
    /// Well-formed: a negative-integer representation holds a negative value.
    pub open spec fn wf(self) -> bool {
        self@.wf()
    }

    /// Equality under the strict numeric mode.
    pub fn strict_eq(&self, other: &Number) -> (r: bool)
        ensures
            r == num_strict_eq(self@, other@),
    {
        match (&self.repr, &other.repr) {
            (NumberRepr::PosInt(x), NumberRepr::PosInt(y)) => *x == *y,
            (NumberRepr::NegInt(x), NumberRepr::NegInt(y)) => *x == *y,
            (NumberRepr::Float, NumberRepr::Float) => self.bits == other.bits,
            _ => false,
        }
    }

    /// Equality under the float numeric mode.
    pub fn float_eq(&self, other: &Number) -> (r: bool)
        ensures
            r == num_float_eq(self@, other@),
    {
        self.bits == other.bits
    }
}

impl NumberModel {
    pub open spec fn wf(self) -> bool {
        match self.repr {
            NumberRepr::NegInt(x) => x < 0,
            _ => true,
        }
    }
}

impl Clone for Number {
    fn clone(&self) -> (r: Number)
        ensures
            r@ == self@,
    {
        Number { repr: self.repr, bits: self.bits, text: self.text.clone() }
    }
}

impl Clone for JsonValue {
    fn clone(&self) -> (r: JsonValue)
        ensures
            r@ == self@,
        decreases self,
    {
        match self {
            JsonValue::Null => JsonValue::Null,
            JsonValue::Bool(b) => JsonValue::Bool(*b),
            JsonValue::Num(n) => JsonValue::Num(n.clone()),
            JsonValue::Str(s) => JsonValue::Str(s.clone()),
            JsonValue::Array(items) => {
                let copy = clone_values(items);
                proof {
                    lemma_views_of_seq(items@);
                    lemma_views_of_seq(copy@);
                    assert(views_of_seq(copy@) =~= views_of_seq(items@));
                }
                JsonValue::Array(copy)
            },
            JsonValue::Object(entries) => {
                let copy = clone_entries(entries);
                proof {
                    lemma_entry_views_of_seq(entries@);
                    lemma_entry_views_of_seq(copy@);
                    assert(entry_views_of_seq(copy@) =~= entry_views_of_seq(entries@));
                }
                JsonValue::Object(copy)
            },
        }
    }
}

/// Copies the elements of an array, preserving each element's model.
fn clone_values(items: &Vec<JsonValue>) -> (r: Vec<JsonValue>)
    ensures
        r@.len() == items@.len(),
        forall|i: int| 0 <= i < items@.len() ==> r@[i]@ == items@[i]@,
    decreases items,
{
    let mut out: Vec<JsonValue> = Vec::new();
    let n = items.len();
    for k in 0..n
        invariant
            n == items@.len(),
            out@.len() == k,
            forall|i: int| 0 <= i < k ==> out@[i]@ == items@[i]@,
        decreases n - k,
    {
        out.push(items[k].clone());
    }
    out
}

/// Copies the entries of an object, preserving each entry's model.
fn clone_entries(entries: &Vec<(String, JsonValue)>) -> (r: Vec<(String, JsonValue)>)
    ensures
        r@.len() == entries@.len(),
        forall|i: int|
            0 <= i < entries@.len() ==> r@[i].0@ == entries@[i].0@ && r@[i].1@ == entries@[i].1@,
    decreases entries,
{
    let mut out: Vec<(String, JsonValue)> = Vec::new();
    let n = entries.len();
    for k in 0..n
        invariant
            n == entries@.len(),
            out@.len() == k,
            forall|i: int| 0 <= i < k ==> out@[i].0@ == entries@[i].0@ && out@[i].1@ == entries@[i].1@,
        decreases n - k,
    {
        let key = entries[k].0.clone();
        let val = entries[k].1.clone();
        out.push((key, val));
    }
    out
}

/// Well-formed value: object keys are pairwise distinct at every level, and
/// numbers are well-formed.
pub open spec fn wf_value(v: ValueModel) -> bool
    decreases v, 1int,
{
    match v {
        ValueModel::Num(n) => n.wf(),
        ValueModel::Array(items) => wf_values(items),
        ValueModel::Object(entries) => distinct_keys(entries) && wf_entries(entries),
        _ => true,
    }
}

/// Every element is well-formed.
pub open spec fn wf_values(items: Seq<ValueModel>) -> bool
    decreases items, 0int,
{
    forall|i: int| 0 <= i < items.len() ==> wf_value(#[trigger] items[i])
}

/// Every entry's value is well-formed.
pub open spec fn wf_entries(entries: Seq<(Seq<char>, ValueModel)>) -> bool
    decreases entries, 0int,
{
    forall|i: int| 0 <= i < entries.len() ==> wf_value((#[trigger] entries[i]).1)
}

/// The entries' keys are pairwise distinct.
pub open spec fn distinct_keys(entries: Seq<(Seq<char>, ValueModel)>) -> bool {
    forall|i: int, j: int|
        0 <= i < j < entries.len() ==> (#[trigger] entries[i].0) != (#[trigger] entries[j].0)
}

// ---------------------------------------------------------------------------
// Rendering of values as JSON text, used when a difference is reported.
// ---------------------------------------------------------------------------
/// The lower-case hexadecimal digit character of a value below sixteen.
pub open spec fn hex_digit(d: int) -> char {
    if d == 0 {
        '0'
    } else if d == 1 {
        '1'
    } else if d == 2 {
        '2'
    } else if d == 3 {
        '3'
    } else if d == 4 {
        '4'
    } else if d == 5 {
        '5'
    } else if d == 6 {
        '6'
    } else if d == 7 {
        '7'
    } else if d == 8 {
        '8'
    } else if d == 9 {
        '9'
    } else if d == 10 {
        'a'
    } else if d == 11 {
        'b'
    } else if d == 12 {
        'c'
    } else if d == 13 {
        'd'
    } else if d == 14 {
        'e'
    } else {
        'f'
    }
}

/// The JSON escape of one string character: quotes, backslashes and control
/// characters are escaped, every other character stands for itself.
pub open spec fn escape_char(c: char) -> Seq<char> {
    if c == '"' {
        seq!['\\', '"']
    } else if c == '\\' {
        seq!['\\', '\\']
    } else if c == '\n' {
        seq!['\\', 'n']
    } else if c == '\r' {
        seq!['\\', 'r']
    } else if c == '\t' {
        seq!['\\', 't']
    } else if c as u32 == 8 {
        seq!['\\', 'b']
    } else if c as u32 == 12 {
        seq!['\\', 'f']
    } else if (c as u32) < 32 {
        seq!['\\', 'u', '0', '0', hex_digit(((c as u32) / 16) as int), hex_digit(((c as u32) % 16) as int)]
    } else {
        seq![c]
    }
}

/// The JSON escape of a whole string.
pub open spec fn escape_string(s: Seq<char>) -> Seq<char>
    decreases s.len(),
{
    if s.len() == 0 {
        Seq::empty()
    } else {
        escape_char(s[0]) + escape_string(s.drop_first())
    }
}

/// A string as a quoted JSON string literal.
pub open spec fn quoted(s: Seq<char>) -> Seq<char> {
    seq!['"'] + escape_string(s) + seq!['"']
}

/// The JSON text of a value, without insignificant whitespace. Numbers are
/// rendered as the decimal text they carry.
pub open spec fn render_value(v: ValueModel) -> Seq<char>
    decreases v, 2int, 0int,
{
    match v {
        ValueModel::Null => seq!['n', 'u', 'l', 'l'],
        ValueModel::Bool(b) => if b {
            seq!['t', 'r', 'u', 'e']
        } else {
            seq!['f', 'a', 'l', 's', 'e']
        },
        ValueModel::Num(n) => n.text,
        ValueModel::Str(s) => quoted(s),
        ValueModel::Array(items) => seq!['['] + render_elements(items, 0) + seq![']'],
        ValueModel::Object(entries) => seq!['{'] + render_members(entries, 0) + seq!['}'],
    }
}

/// The JSON text of an array's elements from position i, comma-separated.
pub open spec fn render_elements(items: Seq<ValueModel>, i: int) -> Seq<char>
    decreases items, 1int, items.len() - i,
    when 0 <= i
{
    if i >= items.len() {
        Seq::empty()
    } else {
        (if i > 0 {
            seq![',']
        } else {
            Seq::empty()
        }) + render_value(items[i]) + render_elements(items, i + 1)
    }
}

/// The JSON text of an object's members from position i, comma-separated.
pub open spec fn render_members(entries: Seq<(Seq<char>, ValueModel)>, i: int) -> Seq<char>
    decreases entries, 1int, entries.len() - i,
    when 0 <= i
{
    if i >= entries.len() {
        Seq::empty()
    } else {
        (if i > 0 {
            seq![',']
        } else {
            Seq::empty()
        }) + quoted(entries[i].0) + seq![':'] + render_value(entries[i].1) + render_members(
            entries,
            i + 1,
        )
    }
}

/// The lower-case hexadecimal digit character of a value below sixteen.
fn hex_digit_c(d: u32) -> (r: char)
    requires
        d < 16,
    ensures
        r == hex_digit(d as int),
{
    if d == 0 {
        '0'
    } else if d == 1 {
        '1'
    } else if d == 2 {
        '2'
    } else if d == 3 {
        '3'
    } else if d == 4 {
        '4'
    } else if d == 5 {
        '5'
    } else if d == 6 {
        '6'
    } else if d == 7 {
        '7'
    } else if d == 8 {
        '8'
    } else if d == 9 {
        '9'
    } else if d == 10 {
        'a'
    } else if d == 11 {
        'b'
    } else if d == 12 {
        'c'
    } else if d == 13 {
        'd'
    } else if d == 14 {
        'e'
    } else {
        'f'
    }
}

/// Appends a quoted JSON string literal for the given text.
#[verifier::loop_isolation(false)]
fn push_quoted(out: &mut Vec<char>, text: &String)
    ensures
        final(out)@ == old(out)@ + quoted(text@),
{
    let ghost base = out@;
    out.push('"');
    let cs = crate::path::str_chars(text.as_str());
    let n = cs.len();
    let ghost mut done = Seq::<char>::empty();
    for k in 0..n
        invariant
            n == cs@.len(),
            cs@ == text@,
            out@ == base + seq!['"'] + done,
            escape_string(text@.subrange(0, k as int)) == done,
        decreases n - k,
    {
        let c = cs[k];
        let u = c as u32;
        if c == '"' {
            out.push('\\');
            out.push('"');
        } else if c == '\\' {
            out.push('\\');
            out.push('\\');
        } else if c == '\n' {
            out.push('\\');
            out.push('n');
        } else if c == '\r' {
            out.push('\\');
            out.push('r');
        } else if c == '\t' {
            out.push('\\');
            out.push('t');
        } else if u == 8 {
            out.push('\\');
            out.push('b');
        } else if u == 12 {
            out.push('\\');
            out.push('f');
        } else if u < 32 {
            out.push('\\');
            out.push('u');
            out.push('0');
            out.push('0');
            out.push(hex_digit_c(u / 16));
            out.push(hex_digit_c(u % 16));
        } else {
            out.push(c);
        }
        proof {
            done = done + escape_char(text@[k as int]);
            assert(out@ =~= base + seq!['"'] + done);
            lemma_escape_string_step(text@, k as int);
            assert(escape_string(text@.subrange(0, k + 1)) == done);
        }
    }
    out.push('"');
    proof {
        assert(text@.subrange(0, text@.len() as int) =~= text@);
        assert(out@ =~= base + quoted(text@));
    }
}

/// Escaping one more character extends the escaped prefix by that
/// character's escape.
proof fn lemma_escape_string_step(s: Seq<char>, k: int)
    requires
        0 <= k < s.len(),
    ensures
        escape_string(s.subrange(0, k + 1)) == escape_string(s.subrange(0, k)) + escape_char(s[k]),
    decreases k,
{
    lemma_escape_string_split(s.subrange(0, k + 1));
    assert(s.subrange(0, k + 1).drop_last() =~= s.subrange(0, k));
    assert(s.subrange(0, k + 1).last() == s[k]);
}

/// Escaping a nonempty text escapes all but the last character, then the
/// last.
proof fn lemma_escape_string_split(s: Seq<char>)
    requires
        s.len() > 0,
    ensures
        escape_string(s) == escape_string(s.drop_last()) + escape_char(s.last()),
    decreases s.len(),
{
    if s.len() == 1 {
        assert(s.drop_last() =~= Seq::<char>::empty());
        assert(escape_string(s.drop_last()) + escape_char(s.last()) =~= escape_char(s[0])
            + escape_string(s.drop_first()));
        assert(s.drop_first() =~= Seq::<char>::empty());
    } else {
        lemma_escape_string_split(s.drop_first());
        assert(s.drop_first().drop_last() =~= s.drop_last().drop_first());
        assert(s.drop_first().last() == s.last());
        assert(s.drop_last()[0] == s[0]);
        assert(escape_string(s) == escape_char(s[0]) + escape_string(s.drop_first()));
        assert(escape_string(s.drop_last()) == escape_char(s.drop_last()[0]) + escape_string(
            s.drop_last().drop_first(),
        ));
        assert(escape_string(s) =~= escape_string(s.drop_last()) + escape_char(s.last()));
    }
}

/// Appends the JSON text of a value.
#[verifier::loop_isolation(false)]
#[verifier::rlimit(100)]
fn push_value(v: &JsonValue, out: &mut Vec<char>)
    ensures
        final(out)@ == old(out)@ + render_value(v@),
    decreases v, 1int,
{
    broadcast use lemma_views_of_seq, lemma_entry_views_of_seq;

    let ghost base = out@;
    match v {
        JsonValue::Null => {
            out.push('n');
            out.push('u');
            out.push('l');
            out.push('l');
            proof {
                assert(out@ =~= base + render_value(v@));
            }
        },
        JsonValue::Bool(b) => {
            if *b {
                out.push('t');
                out.push('r');
                out.push('u');
                out.push('e');
            } else {
                out.push('f');
                out.push('a');
                out.push('l');
                out.push('s');
                out.push('e');
            }
            proof {
                assert(out@ =~= base + render_value(v@));
            }
        },
        JsonValue::Num(num) => {
            let cs = crate::path::str_chars(num.text.as_str());
            let n = cs.len();
            for k in 0..n
                invariant
                    n == cs@.len(),
                    cs@ == num.text@,
                    out@ == base + cs@.subrange(0, k as int),
                decreases n - k,
            {
                out.push(cs[k]);
                proof {
                    assert(cs@.subrange(0, k + 1) =~= cs@.subrange(0, k as int).push(
                        cs@[k as int],
                    ));
                    assert(out@ =~= base + cs@.subrange(0, k + 1));
                }
            }
            proof {
                assert(cs@.subrange(0, cs@.len() as int) =~= cs@);
                assert(out@ =~= base + render_value(v@));
            }
        },
        JsonValue::Str(s) => {
            push_quoted(out, s);
            proof {
                assert(out@ =~= base + render_value(v@));
            }
        },
        JsonValue::Array(items) => {
            let ghost m = views_of_seq(items@);
            out.push('[');
            let n = items.len();
            let ghost mut done = Seq::<char>::empty();
            for i in 0..n
                invariant
                    n == items@.len(),
                    m == views_of_seq(items@),
                    out@ == base + seq!['['] + done,
                    render_elements(m, 0) == done + render_elements(m, i as int),
                decreases n - i,
            {
                let ghost d_i = (if i > 0 {
                    seq![',']
                } else {
                    Seq::<char>::empty()
                }) + render_value(m[i as int]);
                proof {
                    assert(render_elements(m, i as int) == (if i > 0 {
                        seq![',']
                    } else {
                        Seq::<char>::empty()
                    }) + render_value(m[i as int]) + render_elements(m, i + 1));
                }
                if i > 0 {
                    out.push(',');
                }
                proof {
                    assert(m[i as int] == items@[i as int]@);
                    assert(decreases_to!(*items => items@));
                    assert(decreases_to!(items@ => items@[i as int]));
                }
                push_value(&items[i], out);
                proof {
                    done = done + d_i;
                    assert(out@ =~= base + seq!['['] + done);
                    assert(render_elements(m, 0) =~= done + render_elements(m, i + 1));
                }
            }
            out.push(']');
            proof {
                assert(render_elements(m, n as int) =~= Seq::<char>::empty());
                assert(out@ =~= base + render_value(v@));
            }
        },
        JsonValue::Object(entries) => {
            let ghost m = entry_views_of_seq(entries@);
            out.push('{');
            let n = entries.len();
            let ghost mut done = Seq::<char>::empty();
            for i in 0..n
                invariant
                    n == entries@.len(),
                    m == entry_views_of_seq(entries@),
                    out@ == base + seq!['{'] + done,
                    render_members(m, 0) == done + render_members(m, i as int),
                decreases n - i,
            {
                let ghost d_i = (if i > 0 {
                    seq![',']
                } else {
                    Seq::<char>::empty()
                }) + quoted(m[i as int].0) + seq![':'] + render_value(m[i as int].1);
                proof {
                    assert(render_members(m, i as int) == (if i > 0 {
                        seq![',']
                    } else {
                        Seq::<char>::empty()
                    }) + quoted(m[i as int].0) + seq![':'] + render_value(m[i as int].1)
                        + render_members(m, i + 1));
                }
                if i > 0 {
                    out.push(',');
                }
                proof {
                    assert(m[i as int].0 == entries@[i as int].0@);
                    assert(m[i as int].1 == entries@[i as int].1@);
                }
                push_quoted(out, &entries[i].0);
                out.push(':');
                proof {
                    assert(decreases_to!(*entries => entries@));
                    assert(decreases_to!(entries@ => entries@[i as int]));
                    assert(decreases_to!(entries@[i as int] => entries@[i as int].1));
                }
                push_value(&entries[i].1, out);
                proof {
                    done = done + d_i;
                    assert(out@ =~= base + seq!['{'] + done);
                    assert(render_members(m, 0) =~= done + render_members(m, i + 1));
                }
            }
            out.push('}');
            proof {
                assert(render_members(m, n as int) =~= Seq::<char>::empty());
                assert(out@ =~= base + render_value(v@));
            }
        },
    }
}

impl JsonValue {
    /// The JSON text of this value, without insignificant whitespace.
    pub fn to_text(&self) -> (r: String)
        ensures
            r@ == render_value(self@),
    {
        let mut out: Vec<char> = Vec::new();
        push_value(self, &mut out);
        proof {
            assert(out@ =~= render_value(self@));
        }
        crate::path::chars_to_string(&out)
    }
}

/// The JSON text of a value in pretty form, as it appears inside difference
/// messages: arrays and objects spread over lines, each nesting level
/// indented by two more spaces than the given padding; scalars render as in
/// the compact form.
pub open spec fn render_value_pretty(v: ValueModel, pad: Seq<char>) -> Seq<char>
    decreases v, 2int, 0int,
{
    match v {
        ValueModel::Array(items) => if items.len() == 0 {
            seq!['[', ']']
        } else {
            seq!['['] + pretty_elements(items, pad + seq![' ', ' '], 0) + seq!['\n'] + pad
                + seq![']']
        },
        ValueModel::Object(entries) => if entries.len() == 0 {
            seq!['{', '}']
        } else {
            seq!['{'] + pretty_members(entries, pad + seq![' ', ' '], 0) + seq!['\n'] + pad
                + seq!['}']
        },
        _ => render_value(v),
    }
}

/// The pretty text of an array's elements from position i: each element on
/// its own line under the given padding, separated by commas.
pub open spec fn pretty_elements(items: Seq<ValueModel>, pad: Seq<char>, i: int) -> Seq<char>
    decreases items, 1int, items.len() - i,
    when 0 <= i
{
    if i >= items.len() {
        Seq::empty()
    } else {
        (if i > 0 {
            seq![',']
        } else {
            Seq::empty()
        }) + seq!['\n'] + pad + render_value_pretty(items[i], pad) + pretty_elements(
            items,
            pad,
            i + 1,
        )
    }
}

/// The pretty text of an object's members from position i: each member on
/// its own line under the given padding, separated by commas.
pub open spec fn pretty_members(
    entries: Seq<(Seq<char>, ValueModel)>,
    pad: Seq<char>,
    i: int,
) -> Seq<char>
    decreases entries, 1int, entries.len() - i,
    when 0 <= i
{
    if i >= entries.len() {
        Seq::empty()
    } else {
        (if i > 0 {
            seq![',']
        } else {
            Seq::empty()
        }) + seq!['\n'] + pad + quoted(entries[i].0) + seq![':', ' '] + render_value_pretty(
            entries[i].1,
            pad,
        ) + pretty_members(entries, pad, i + 1)
    }
}

/// Appends the padding characters.
fn push_pad(out: &mut Vec<char>, pad: &Vec<char>)
    ensures
        final(out)@ == old(out)@ + pad@,
{
    let ghost base = out@;
    let np = pad.len();
    for q in 0..np
        invariant
            np == pad@.len(),
            out@ == base + pad@.subrange(0, q as int),
        decreases np - q,
    {
        out.push(pad[q]);
        proof {
            assert(pad@.subrange(0, q + 1) =~= pad@.subrange(0, q as int).push(pad@[q as int]));
            assert(out@ =~= base + pad@.subrange(0, q + 1));
        }
    }
    proof {
        assert(pad@.subrange(0, np as int) =~= pad@);
    }
}

/// Appends the pretty JSON text of a value under the given padding.
fn push_value_pretty(v: &JsonValue, pad: &Vec<char>, out: &mut Vec<char>)
    ensures
        final(out)@ == old(out)@ + render_value_pretty(v@, pad@),
    decreases v, 1int,
{
    let ghost base = out@;
    match v {
        JsonValue::Array(items) => {
            push_array_pretty(items, pad, out);
            proof {
                assert(out@ =~= base + render_value_pretty(v@, pad@));
            }
        },
        JsonValue::Object(entries) => {
            push_object_pretty(entries, pad, out);
            proof {
                assert(out@ =~= base + render_value_pretty(v@, pad@));
            }
        },
        _ => {
            push_value(v, out);
            proof {
                assert(out@ =~= base + render_value_pretty(v@, pad@));
            }
        },
    }
}

/// Appends the pretty JSON text of an array under the given padding.
#[verifier::loop_isolation(false)]
#[verifier::rlimit(100)]
fn push_array_pretty(items: &Vec<JsonValue>, pad: &Vec<char>, out: &mut Vec<char>)
    ensures
        final(out)@ == old(out)@ + render_value_pretty(
            ValueModel::Array(views_of_seq(items@)),
            pad@,
        ),
    decreases items, 0int,
{
    broadcast use lemma_views_of_seq;

    let ghost base = out@;
    let ghost m = views_of_seq(items@);
    if items.len() == 0 {
        out.push('[');
        out.push(']');
        proof {
            assert(out@ =~= base + render_value_pretty(ValueModel::Array(m), pad@));
        }
        return ;
    }
    let mut child_pad: Vec<char> = Vec::new();
    proof {
        assert(child_pad@ + pad@ =~= pad@);
    }
    push_pad(&mut child_pad, pad);
    child_pad.push(' ');
    child_pad.push(' ');
    proof {
        assert(child_pad@ =~= pad@ + seq![' ', ' ']);
    }
    out.push('[');
    let n = items.len();
    let ghost mut done = Seq::<char>::empty();
    for i in 0..n
        invariant
            n == items@.len(),
            m == views_of_seq(items@),
            child_pad@ == pad@ + seq![' ', ' '],
            out@ == base + seq!['['] + done,
            pretty_elements(m, child_pad@, 0) == done + pretty_elements(m, child_pad@, i as int),
        decreases n - i,
    {
        let ghost d_i = (if i > 0 {
            seq![',']
        } else {
            Seq::<char>::empty()
        }) + seq!['\n'] + child_pad@ + render_value_pretty(m[i as int], child_pad@);
        proof {
            assert(pretty_elements(m, child_pad@, i as int) == d_i + pretty_elements(
                m,
                child_pad@,
                i + 1,
            ));
        }
        if i > 0 {
            out.push(',');
        }
        out.push('\n');
        push_pad(out, &child_pad);
        proof {
            assert(m[i as int] == items@[i as int]@);
            assert(decreases_to!(*items => items@));
            assert(decreases_to!(items@ => items@[i as int]));
        }
        push_value_pretty(&items[i], &child_pad, out);
        proof {
            done = done + d_i;
            assert(out@ =~= base + seq!['['] + done);
            assert(pretty_elements(m, child_pad@, 0) =~= done + pretty_elements(
                m,
                child_pad@,
                i + 1,
            ));
        }
    }
    out.push('\n');
    push_pad(out, pad);
    out.push(']');
    proof {
        assert(pretty_elements(m, child_pad@, n as int) =~= Seq::<char>::empty());
        assert(out@ =~= base + render_value_pretty(ValueModel::Array(m), pad@));
    }
}

/// Appends the pretty JSON text of an object under the given padding.
#[verifier::loop_isolation(false)]
#[verifier::rlimit(100)]
fn push_object_pretty(entries: &Vec<(String, JsonValue)>, pad: &Vec<char>, out: &mut Vec<char>)
    ensures
        final(out)@ == old(out)@ + render_value_pretty(
            ValueModel::Object(entry_views_of_seq(entries@)),
            pad@,
        ),
    decreases entries, 0int,
{
    broadcast use lemma_entry_views_of_seq;

    let ghost base = out@;
    let ghost m = entry_views_of_seq(entries@);
    if entries.len() == 0 {
        out.push('{');
        out.push('}');
        proof {
            assert(out@ =~= base + render_value_pretty(ValueModel::Object(m), pad@));
        }
        return ;
    }
    let mut child_pad: Vec<char> = Vec::new();
    proof {
        assert(child_pad@ + pad@ =~= pad@);
    }
    push_pad(&mut child_pad, pad);
    child_pad.push(' ');
    child_pad.push(' ');
    proof {
        assert(child_pad@ =~= pad@ + seq![' ', ' ']);
    }
    out.push('{');
    let n = entries.len();
    let ghost mut done = Seq::<char>::empty();
    for i in 0..n
        invariant
            n == entries@.len(),
            m == entry_views_of_seq(entries@),
            child_pad@ == pad@ + seq![' ', ' '],
            out@ == base + seq!['{'] + done,
            pretty_members(m, child_pad@, 0) == done + pretty_members(m, child_pad@, i as int),
        decreases n - i,
    {
        let ghost d_i = (if i > 0 {
            seq![',']
        } else {
            Seq::<char>::empty()
        }) + seq!['\n'] + child_pad@ + quoted(m[i as int].0) + seq![':', ' ']
            + render_value_pretty(m[i as int].1, child_pad@);
        proof {
            assert(pretty_members(m, child_pad@, i as int) == d_i + pretty_members(
                m,
                child_pad@,
                i + 1,
            ));
        }
        if i > 0 {
            out.push(',');
        }
        out.push('\n');
        push_pad(out, &child_pad);
        proof {
            assert(m[i as int].0 == entries@[i as int].0@);
            assert(m[i as int].1 == entries@[i as int].1@);
        }
        push_quoted(out, &entries[i].0);
        out.push(':');
        out.push(' ');
        proof {
            assert(decreases_to!(*entries => entries@));
            assert(decreases_to!(entries@ => entries@[i as int]));
            assert(decreases_to!(entries@[i as int] => entries@[i as int].1));
        }
        push_value_pretty(&entries[i].1, &child_pad, out);
        proof {
            done = done + d_i;
            assert(out@ =~= base + seq!['{'] + done);
            assert(pretty_members(m, child_pad@, 0) =~= done + pretty_members(
                m,
                child_pad@,
                i + 1,
            ));
        }
    }
    out.push('\n');
    push_pad(out, pad);
    out.push('}');
    proof {
        assert(pretty_members(m, child_pad@, n as int) =~= Seq::<char>::empty());
        assert(out@ =~= base + render_value_pretty(ValueModel::Object(m), pad@));
    }
}

impl JsonValue {
    /// The pretty JSON text of this value: arrays and objects spread over
    /// lines, two more spaces of indentation per nesting level.
    pub fn to_pretty_text(&self) -> (r: String)
        ensures
            r@ == render_value_pretty(self@, Seq::<char>::empty()),
    {
        let pad: Vec<char> = Vec::new();
        let mut out: Vec<char> = Vec::new();
        proof {
            assert(pad@ =~= Seq::<char>::empty());
        }
        push_value_pretty(self, &pad, &mut out);
        proof {
            assert(out@ =~= render_value_pretty(self@, Seq::<char>::empty()));
        }
        crate::path::chars_to_string(&out)
    }
}

} // verus!
