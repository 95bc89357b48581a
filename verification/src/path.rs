//! Addresses of locations inside a JSON document: the root, or an ordered
//! sequence of steps (field name, array index, index range, or wildcard),
//! together with the textual path-expression language, its parser, and the
//! prefix/pattern matching that exclusion lists rely on.

use vstd::prelude::*;

verus! {

/// One step of an address.
#[derive(PartialEq, Eq, Debug)]
pub enum Key {
    /// Exact array position.
    Idx(usize),
    /// Array positions i with start <= i < end.
    IdxRange(usize, usize),
    /// Array positions i with start <= i.
    IdxRangeStart(usize),
    /// Array positions i with i < end.
    IdxRangeEnd(usize),
    /// Any object field name.
    Wildcard,
    /// Any array position.
    WildcardArray,
    /// Exact object field name.
    Field(String),
}

/// An address: the document root, or a sequence of steps from the root.
#[derive(PartialEq, Eq, Debug)]
pub enum Path {
    Root,
    Keys(Vec<Key>),
}

/// Mathematical model of a step.
pub enum KeyModel {
    Idx(int),
    IdxRange(int, int),
    IdxRangeStart(int),
    IdxRangeEnd(int),
    Wildcard,
    WildcardArray,
    Field(Seq<char>),
}

/// Mathematical model of an address.
pub enum PathModel {
    Root,
    Keys(Seq<KeyModel>),
}

impl View for Key {
    type V = KeyModel;

    open spec fn view(&self) -> KeyModel {
        match self {
            Key::Idx(n) => KeyModel::Idx(*n as int),
            Key::IdxRange(a, b) => KeyModel::IdxRange(*a as int, *b as int),
            Key::IdxRangeStart(a) => KeyModel::IdxRangeStart(*a as int),
            Key::IdxRangeEnd(b) => KeyModel::IdxRangeEnd(*b as int),
            Key::Wildcard => KeyModel::Wildcard,
            Key::WildcardArray => KeyModel::WildcardArray,
            Key::Field(name) => KeyModel::Field(name@),
        }
    }
}

impl View for Path {
    type V = PathModel;

    open spec fn view(&self) -> PathModel {
        match self {
            Path::Root => PathModel::Root,
            Path::Keys(keys) => PathModel::Keys(Seq::new(keys@.len(), |i: int| keys@[i]@)),
        }
    }
}

impl Clone for Key {
    fn clone(&self) -> (r: Key)
        ensures
            r@ == self@,
    {
        match self {
            Key::Idx(n) => Key::Idx(*n),
            Key::IdxRange(a, b) => Key::IdxRange(*a, *b),
            Key::IdxRangeStart(a) => Key::IdxRangeStart(*a),
            Key::IdxRangeEnd(b) => Key::IdxRangeEnd(*b),
            Key::Wildcard => Key::Wildcard,
            Key::WildcardArray => Key::WildcardArray,
            Key::Field(name) => Key::Field(name.clone()),
        }
    }
}

impl Clone for Path {
    fn clone(&self) -> (r: Path)
        ensures
            r@ == self@,
    {
        match self {
            Path::Root => Path::Root,
            Path::Keys(keys) => {
                let mut copy: Vec<Key> = Vec::new();
                let n = keys.len();
                for k in 0..n
                    invariant
                        n == keys@.len(),
                        copy@.len() == k,
                        forall|i: int| 0 <= i < k ==> copy@[i]@ == keys@[i]@,
                    decreases n - k,
                {
                    copy.push(keys[k].clone());
                }
                let r = Path::Keys(copy);
                proof {
                    assert(r@ == self@) by {
                        assert(Seq::new(copy@.len(), |i: int| copy@[i]@) =~= Seq::new(
                            keys@.len(),
                            |i: int| keys@[i]@,
                        ));
                    }
                }
                r
            },
        }
    }
}

/// Whether a pattern step covers a subject step: the steps are identical, or
/// a wildcard-field pattern meets a field, a wildcard-index pattern meets an
/// index, or a range pattern meets an index inside the range.
pub open spec fn key_matches(pattern: KeyModel, subject: KeyModel) -> bool {
    pattern == subject || match (pattern, subject) {
        (KeyModel::Wildcard, KeyModel::Field(_)) => true,
        (KeyModel::WildcardArray, KeyModel::Idx(_)) => true,
        (KeyModel::IdxRange(a, b), KeyModel::Idx(c)) => a <= c && c < b,
        (KeyModel::IdxRangeStart(a), KeyModel::Idx(b)) => a <= b,
        (KeyModel::IdxRangeEnd(a), KeyModel::Idx(b)) => b < a,
        _ => false,
    }
}

/// Whether a pattern step sequence covers a subject step sequence: the
/// pattern is no longer than the subject and matches it step by step over
/// the pattern's whole length.
pub open spec fn keys_prefix(ps: Seq<KeyModel>, ss: Seq<KeyModel>) -> bool {
    ps.len() <= ss.len() && forall|i: int| 0 <= i < ps.len() ==> key_matches(#[trigger] ps[i], ss[i])
}

/// Whether a pattern address covers a subject address: the root covers
/// everything, a non-root pattern covers no root, and otherwise the
/// pattern's steps cover the subject's steps.
pub open spec fn path_prefixes(pattern: PathModel, subject: PathModel) -> bool {
    match (pattern, subject) {
        (PathModel::Root, _) => true,
        (PathModel::Keys(_), PathModel::Root) => false,
        (PathModel::Keys(ps), PathModel::Keys(ss)) => keys_prefix(ps, ss),
    }
}

/// The root covers every address, and the only address covering the root is
/// the root itself.
pub proof fn lemma_root_prefixes(a: PathModel)
    ensures
        path_prefixes(PathModel::Root, a),
        path_prefixes(a, PathModel::Root) <==> a == PathModel::Root,
{
}

impl Key {
    /// Whether this step, as a pattern, covers the given subject step.
    pub fn matches(&self, subject: &Key) -> (r: bool)
        ensures
            r == key_matches(self@, subject@),
    {
        match (self, subject) {
            (Key::Idx(a), Key::Idx(b)) => *a == *b,
            (Key::IdxRange(a, b), Key::Idx(c)) => *a <= *c && *c < *b,
            (Key::IdxRange(a, b), Key::IdxRange(c, d)) => *a == *c && *b == *d,
            (Key::IdxRangeStart(a), Key::Idx(b)) => *a <= *b,
            (Key::IdxRangeStart(a), Key::IdxRangeStart(b)) => *a == *b,
            (Key::IdxRangeEnd(a), Key::Idx(b)) => *b < *a,
            (Key::IdxRangeEnd(a), Key::IdxRangeEnd(b)) => *a == *b,
            (Key::Wildcard, Key::Wildcard) => true,
            (Key::Wildcard, Key::Field(_)) => true,
            (Key::WildcardArray, Key::WildcardArray) => true,
            (Key::WildcardArray, Key::Idx(_)) => true,
            (Key::Field(a), Key::Field(b)) => a.eq(b),
            _ => false,
        }
    }

    /// Whether two steps are the same step.
    pub fn key_eq(&self, other: &Key) -> (r: bool)
        ensures
            r == (self@ == other@),
    {
        match (self, other) {
            (Key::Idx(a), Key::Idx(b)) => *a == *b,
            (Key::IdxRange(a, b), Key::IdxRange(c, d)) => *a == *c && *b == *d,
            (Key::IdxRangeStart(a), Key::IdxRangeStart(b)) => *a == *b,
            (Key::IdxRangeEnd(a), Key::IdxRangeEnd(b)) => *a == *b,
            (Key::Wildcard, Key::Wildcard) => true,
            (Key::WildcardArray, Key::WildcardArray) => true,
            (Key::Field(a), Key::Field(b)) => a.eq(b),
            _ => false,
        }
    }
}

/// Appends a step to an address.
pub open spec fn spec_append(p: PathModel, k: KeyModel) -> PathModel {
    match p {
        PathModel::Root => PathModel::Keys(seq![k]),
        PathModel::Keys(ks) => PathModel::Keys(ks.push(k)),
    }
}

impl Path {
    /// Returns this address extended by one more step.
    pub fn append(&self, next: Key) -> (r: Path)
        ensures
            r@ == spec_append(self@, next@),
    {
        match self {
            Path::Root => {
                let ghost nv = next@;
                let r = Path::Keys(vec![next]);
                proof {
                    assert(r@ == spec_append(self@, nv)) by {
                        match r {
                            Path::Keys(ks) => {
                                assert(Seq::new(ks@.len(), |i: int| ks@[i]@) =~= seq![nv]);
                            },
                            _ => {},
                        }
                    }
                }
                r
            },
            Path::Keys(list) => {
                let copied = self.clone();
                match copied {
                    Path::Keys(mut ks) => {
                        let ghost before = ks@;
                        let ghost nv = next@;
                        ks.push(next);
                        let r = Path::Keys(ks);
                        proof {
                            assert(r@ == spec_append(self@, nv)) by {
                                match (r, self) {
                                    (Path::Keys(rs), Path::Keys(os)) => {
                                        assert(Seq::new(rs@.len(), |i: int| rs@[i]@) =~= Seq::new(
                                            os@.len(),
                                            |i: int| os@[i]@,
                                        ).push(nv));
                                    },
                                    _ => {},
                                }
                            }
                        }
                        r
                    },
                    Path::Root => Path::Keys(vec![next]),
                }
            },
        }
    }

    /// Whether this address, as a pattern, covers the given subject address:
    /// the pattern addresses the subject's location or a location above it,
    /// honoring wildcards and index ranges.
    pub fn prefixes(&self, other: &Path) -> (r: bool)
        ensures
            r == path_prefixes(self@, other@),
    {
        match (self, other) {
            (Path::Root, _) => true,
            (Path::Keys(_), Path::Root) => false,
            (Path::Keys(ps), Path::Keys(ss)) => {
                if ps.len() > ss.len() {
                    false
                } else {
                    let n = ps.len();
                    let mut all = true;
                    for k in 0..n
                        invariant
                            n == ps@.len(),
                            n <= ss@.len(),
                            all == forall|i: int|
                                0 <= i < k ==> key_matches(#[trigger] ps@[i]@, ss@[i]@),
                        decreases n - k,
                    {
                        let m = ps[k].matches(&ss[k]);
                        all = all && m;
                    }
                    proof {
                        let ps_m = Seq::new(ps@.len(), |i: int| ps@[i]@);
                        let ss_m = Seq::new(ss@.len(), |i: int| ss@[i]@);
                        if all {
                            assert forall|i: int| 0 <= i < ps_m.len() implies key_matches(
                                #[trigger] ps_m[i],
                                ss_m[i],
                            ) by {
                                assert(key_matches(ps@[i]@, ss@[i]@));
                            }
                        } else {
                            let i = choose|i: int|
                                0 <= i < n && !key_matches(#[trigger] ps@[i]@, ss@[i]@);
                            assert(ps_m[i] == ps@[i]@);
                            assert(ss_m[i] == ss@[i]@);
                            assert(!key_matches(ps_m[i], ss_m[i]));
                        }
                    }
                    all
                }
            },
        }
    }

    /// Whether two addresses are the same address.
    pub fn path_eq(&self, other: &Path) -> (r: bool)
        ensures
            r == (self@ == other@),
    {
        match (self, other) {
            (Path::Root, Path::Root) => true,
            (Path::Root, Path::Keys(_)) => false,
            (Path::Keys(_), Path::Root) => false,
            (Path::Keys(ps), Path::Keys(ss)) => {
                if ps.len() != ss.len() {
                    proof {
                        assert(Seq::new(ps@.len(), |i: int| ps@[i]@).len() != Seq::new(
                            ss@.len(),
                            |i: int| ss@[i]@,
                        ).len());
                    }
                    false
                } else {
                    let n = ps.len();
                    let mut all = true;
                    for k in 0..n
                        invariant
                            n == ps@.len(),
                            n == ss@.len(),
                            all == forall|i: int| 0 <= i < k ==> (#[trigger] ps@[i]@) == ss@[i]@,
                        decreases n - k,
                    {
                        let m = ps[k].key_eq(&ss[k]);
                        all = all && m;
                    }
                    proof {
                        if all {
                            assert(Seq::new(ps@.len(), |i: int| ps@[i]@) =~= Seq::new(
                                ss@.len(),
                                |i: int| ss@[i]@,
                            ));
                        } else {
                            let i = choose|i: int| 0 <= i < n && (#[trigger] ps@[i]@) != ss@[i]@;
                            assert(Seq::new(ps@.len(), |j: int| ps@[j]@)[i] != Seq::new(
                                ss@.len(),
                                |j: int| ss@[j]@,
                            )[i]);
                        }
                    }
                    all
                }
            },
        }
    }
}

// ---------------------------------------------------------------------------
// The textual path-expression grammar.
//
// A path expression is `$`, optionally followed by one bracket suffix, then
// by any number of dotted segments. A dotted segment is `.*`, or `.name` for
// an identifier `name`, optionally followed by one bracket suffix. A bracket
// suffix is `[n]`, `[*]`, `[a:b]`, `[a:]`, `[:b]` or `[:]`. The whole string
// must match before any segment is interpreted.
// ---------------------------------------------------------------------------
/// Decimal digit.
pub open spec fn is_digit(c: char) -> bool {
    48 <= c as u32 && c as u32 <= 57
}

/// Numeric value of a decimal digit.
pub open spec fn digit_val(c: char) -> int {
    c as u32 - 48
}

/// Character that may start an identifier.
pub open spec fn is_ident_start(c: char) -> bool {
    (97 <= c as u32 && c as u32 <= 122) || (65 <= c as u32 && c as u32 <= 90) || c as u32 == 95
}

/// Character that may continue an identifier.
pub open spec fn is_ident_char(c: char) -> bool {
    is_ident_start(c) || is_digit(c)
}

/// Position just after the run of digits starting at position i.
pub open spec fn digits_end(s: Seq<char>, i: int) -> int
    decreases s.len() - i,
    when 0 <= i <= s.len()
{
    if i < s.len() && is_digit(s[i]) {
        digits_end(s, i + 1)
    } else {
        i
    }
}

/// Value of the decimal digits at positions i up to j.
pub open spec fn digits_val(s: Seq<char>, i: int, j: int) -> int
    decreases j - i,
    when i <= j
{
    if i >= j {
        0
    } else {
        digits_val(s, i, j - 1) * 10 + digit_val(s[j - 1])
    }
}

/// Position just after the run of identifier characters starting at i, where
/// the first character must be an identifier-start character.
pub open spec fn ident_end(s: Seq<char>, i: int) -> int {
    if i < s.len() && is_ident_start(s[i]) {
        ident_chars_end(s, i + 1)
    } else {
        i
    }
}

/// Position just after the run of identifier characters starting at i.
pub open spec fn ident_chars_end(s: Seq<char>, i: int) -> int
    decreases s.len() - i,
    when 0 <= i <= s.len()
{
    if i < s.len() && is_ident_char(s[i]) {
        ident_chars_end(s, i + 1)
    } else {
        i
    }
}

/// Reads one bracket suffix starting at position i (which holds `[`);
/// returns the step it denotes and the position just after the closing `]`.
pub open spec fn parse_bracket(s: Seq<char>, i: int) -> Option<(KeyModel, int)>
    recommends
        0 <= i < s.len(),
{
    let j = i + 1;
    if j + 1 < s.len() && s[j] == '*' && s[j + 1] == ']' {
        Some((KeyModel::WildcardArray, j + 2))
    } else {
        let d1 = digits_end(s, j);
        if d1 < s.len() && s[d1] == ']' {
            if d1 > j {
                Some((KeyModel::Idx(digits_val(s, j, d1)), d1 + 1))
            } else {
                None
            }
        } else if d1 < s.len() && s[d1] == ':' {
            let d2 = digits_end(s, d1 + 1);
            if d2 < s.len() && s[d2] == ']' {
                if d1 == j && d2 == d1 + 1 {
                    Some((KeyModel::WildcardArray, d2 + 1))
                } else if d1 > j && d2 == d1 + 1 {
                    Some((KeyModel::IdxRangeStart(digits_val(s, j, d1)), d2 + 1))
                } else if d1 == j {
                    Some((KeyModel::IdxRangeEnd(digits_val(s, d1 + 1, d2)), d2 + 1))
                } else {
                    Some(
                        (
                            KeyModel::IdxRange(digits_val(s, j, d1), digits_val(s, d1 + 1, d2)),
                            d2 + 1,
                        ),
                    )
                }
            } else {
                None
            }
        } else {
            None
        }
    }
}

/// Reads the dotted segments from position i to the end of the string;
/// returns the steps they denote.
pub open spec fn parse_keys(s: Seq<char>, i: int) -> Option<Seq<KeyModel>>
    decreases s.len() - i,
    when 0 <= i <= s.len()
{
    if i == s.len() {
        Some(Seq::empty())
    } else if s[i] == '.' {
        if i + 1 < s.len() && s[i + 1] == '*' {
            match parse_keys(s, i + 2) {
                Some(ks) => Some(seq![KeyModel::Wildcard] + ks),
                None => None,
            }
        } else {
            let e = ident_end(s, i + 1);
            if i + 1 < e && e <= s.len() {
                let name = s.subrange(i + 1, e);
                if e < s.len() && s[e] == '[' {
                    match parse_bracket(s, e) {
                        Some((k, j)) => if e < j && j <= s.len() {
                            match parse_keys(s, j) {
                                Some(ks) => Some(seq![KeyModel::Field(name), k] + ks),
                                None => None,
                            }
                        } else {
                            None
                        },
                        None => None,
                    }
                } else {
                    match parse_keys(s, e) {
                        Some(ks) => Some(seq![KeyModel::Field(name)] + ks),
                        None => None,
                    }
                }
            } else {
                None
            }
        }
    } else {
        None
    }
}

/// What a path-expression text denotes: the root for `$` alone, a sequence
/// of steps for `$` followed by segments, nothing for text outside the
/// grammar.
pub open spec fn spec_parse(s: Seq<char>) -> Option<PathModel> {
    if s.len() == 0 || s[0] != '$' {
        None
    } else if s.len() == 1 {
        Some(PathModel::Root)
    } else if s[1] == '[' {
        match parse_bracket(s, 1) {
            Some((k, j)) => if 1 < j && j <= s.len() {
                match parse_keys(s, j) {
                    Some(ks) => Some(PathModel::Keys(seq![k] + ks)),
                    None => None,
                }
            } else {
                None
            },
            None => None,
        }
    } else {
        match parse_keys(s, 1) {
            Some(ks) => Some(PathModel::Keys(ks)),
            None => None,
        }
    }
}

/// The digit run ends at or after its start, within the string, every
/// character in it is a digit, and it ends only at the end of the string or
/// before a non-digit.
pub proof fn lemma_digits_end(s: Seq<char>, i: int)
    requires
        0 <= i <= s.len(),
    ensures
        i <= digits_end(s, i) <= s.len(),
        forall|x: int| i <= x < digits_end(s, i) ==> is_digit(#[trigger] s[x]),
        digits_end(s, i) < s.len() ==> !is_digit(s[digits_end(s, i)]),
    decreases s.len() - i,
{
    if i < s.len() && is_digit(s[i]) {
        lemma_digits_end(s, i + 1);
    }
}

/// The identifier-character run ends at or after its start, within the
/// string, every character in it is an identifier character, and it ends
/// only at the end of the string or before a non-identifier character.
pub proof fn lemma_ident_chars_end(s: Seq<char>, i: int)
    requires
        0 <= i <= s.len(),
    ensures
        i <= ident_chars_end(s, i) <= s.len(),
        forall|x: int| i <= x < ident_chars_end(s, i) ==> is_ident_char(#[trigger] s[x]),
        ident_chars_end(s, i) < s.len() ==> !is_ident_char(s[ident_chars_end(s, i)]),
    decreases s.len() - i,
{
    if i < s.len() && is_ident_char(s[i]) {
        lemma_ident_chars_end(s, i + 1);
    }
}

/// A longer digit run never has a smaller value.
pub proof fn lemma_digits_val_monotone(s: Seq<char>, i: int, j: int, k: int)
    requires
        i <= j <= k,
        forall|x: int| i <= x < k ==> 0 <= digit_val(#[trigger] s[x]),
    ensures
        digits_val(s, i, j) <= digits_val(s, i, k),
        0 <= digits_val(s, i, j),
    decreases k - j,
{
    if j == i {
        lemma_digits_val_nonneg(s, i, k);
    } else if j < k {
        lemma_digits_val_monotone(s, i, j, k - 1);
        lemma_digits_val_nonneg(s, i, j);
        assert(digits_val(s, i, k) == digits_val(s, i, k - 1) * 10 + digit_val(s[k - 1]));
        assert(digits_val(s, i, k - 1) * 10 >= digits_val(s, i, k - 1)) by (nonlinear_arith)
            requires
                digits_val(s, i, k - 1) >= 0,
        ;
    } else {
        lemma_digits_val_nonneg(s, i, j);
    }
}

/// The value of a digit run is never negative.
pub proof fn lemma_digits_val_nonneg(s: Seq<char>, i: int, j: int)
    requires
        i <= j,
        forall|x: int| i <= x < j ==> 0 <= digit_val(#[trigger] s[x]),
    ensures
        0 <= digits_val(s, i, j),
    decreases j - i,
{
    if i < j {
        lemma_digits_val_nonneg(s, i, j - 1);
        assert(digits_val(s, i, j - 1) * 10 >= 0) by (nonlinear_arith)
            requires
                digits_val(s, i, j - 1) >= 0,
        ;
    }
}

/// Whether the indices named by a step fit the machine's index type.
/// Whether the indices named by a step fit the machine's index type.
pub open spec fn key_fits(k: KeyModel) -> bool {
    match k {
        KeyModel::Idx(n) => 0 <= n <= usize::MAX,
        KeyModel::IdxRange(a, b) => 0 <= a <= usize::MAX && 0 <= b <= usize::MAX,
        KeyModel::IdxRangeStart(a) => 0 <= a <= usize::MAX,
        KeyModel::IdxRangeEnd(b) => 0 <= b <= usize::MAX,
        _ => true,
    }
}

/// Whether every index named by an address fits the machine's index type.
pub open spec fn keys_fit(ks: Seq<KeyModel>) -> bool {
    forall|i: int| 0 <= i < ks.len() ==> key_fits(#[trigger] ks[i])
}

/// Whether every index named by an address fits the machine's index type.
pub open spec fn path_fits(m: PathModel) -> bool {
    match m {
        PathModel::Root => true,
        PathModel::Keys(ks) => keys_fit(ks),
    }
}

/// Relies on `FromIterator for String` through `collect`: the returned
/// string holds exactly the given characters, in order.
#[verifier::external_body]
pub(crate) fn chars_to_string(chars: &Vec<char>) -> (r: String)
    ensures
        r@ == chars@,
{
    chars.iter().collect()
}

/// The characters of a string slice, in order.
pub(crate) fn str_chars(text: &str) -> (r: Vec<char>)
    ensures
        r@ == text@,
{
    let n = text.unicode_len();
    let mut v: Vec<char> = Vec::new();
    for k in 0..n
        invariant
            n == text@.len(),
            v@.len() == k,
            forall|i: int| 0 <= i < k ==> v@[i] == text@[i],
        decreases n - k,
    {
        v.push(text.get_char(k));
    }
    proof {
        assert(v@ =~= text@);
    }
    v
}

/// The characters at positions from up to to, as a string.
pub(crate) fn extract_string(chars: &Vec<char>, from: usize, to: usize) -> (r: String)
    requires
        from <= to <= chars@.len(),
    ensures
        r@ == chars@.subrange(from as int, to as int),
{
    let mut v: Vec<char> = Vec::new();
    for k in from..to
        invariant
            from <= k <= to <= chars@.len(),
            v@.len() == k - from,
            forall|i: int| 0 <= i < k - from ==> v@[i] == chars@[from + i],
        decreases to - k,
    {
        v.push(chars[k]);
    }
    proof {
        assert(v@ =~= chars@.subrange(from as int, to as int));
    }
    chars_to_string(&v)
}

/// Decimal digit.
fn is_digit_c(c: char) -> (r: bool)
    ensures
        r == is_digit(c),
{
    let u = c as u32;
    48 <= u && u <= 57
}

/// Character that may start an identifier.
fn is_ident_start_c(c: char) -> (r: bool)
    ensures
        r == is_ident_start(c),
{
    let u = c as u32;
    (97 <= u && u <= 122) || (65 <= u && u <= 90) || u == 95
}

/// Character that may continue an identifier.
fn is_ident_char_c(c: char) -> (r: bool)
    ensures
        r == is_ident_char(c),
{
    is_ident_start_c(c) || is_digit_c(c)
}

/// Position just after the run of digits starting at the given position.
fn scan_digits_end(chars: &Vec<char>, from: usize) -> (r: usize)
    requires
        from <= chars@.len(),
    ensures
        r == digits_end(chars@, from as int),
        from <= r <= chars@.len(),
{
    let n = chars.len();
    let mut k = from;
    while k < n && is_digit_c(chars[k])
        invariant
            from <= k <= n,
            n == chars@.len(),
            digits_end(chars@, from as int) == digits_end(chars@, k as int),
        decreases n - k,
    {
        k = k + 1;
    }
    proof {
        lemma_digits_end(chars@, k as int);
    }
    k
}

/// Position just after the run of identifier characters starting at the
/// given position.
fn scan_ident_chars_end(chars: &Vec<char>, from: usize) -> (r: usize)
    requires
        from <= chars@.len(),
    ensures
        r == ident_chars_end(chars@, from as int),
        from <= r <= chars@.len(),
{
    let n = chars.len();
    let mut k = from;
    while k < n && is_ident_char_c(chars[k])
        invariant
            from <= k <= n,
            n == chars@.len(),
            ident_chars_end(chars@, from as int) == ident_chars_end(chars@, k as int),
        decreases n - k,
    {
        k = k + 1;
    }
    proof {
        lemma_ident_chars_end(chars@, k as int);
    }
    k
}

/// Value of the decimal digits at positions from up to to, if it fits the
/// machine's index type.
fn parse_usize(chars: &Vec<char>, from: usize, to: usize) -> (r: Option<usize>)
    requires
        from <= to <= chars@.len(),
        forall|x: int| from <= x < to ==> is_digit(#[trigger] chars@[x]),
    ensures
        match r {
            Some(v) => v as int == digits_val(chars@, from as int, to as int),
            None => digits_val(chars@, from as int, to as int) > usize::MAX,
        },
{
    let mut val: usize = 0;
    let mut k = from;
    while k < to
        invariant
            from <= k <= to <= chars@.len(),
            forall|x: int| from <= x < to ==> is_digit(#[trigger] chars@[x]),
            val as int == digits_val(chars@, from as int, k as int),
        decreases to - k,
    {
        let d = (chars[k] as u32 - 48) as usize;
        let next = match val.checked_mul(10) {
            Some(t) => t.checked_add(d),
            None => None,
        };
        match next {
            Some(nv) => {
                val = nv;
                proof {
                    assert(val as int == digits_val(chars@, from as int, k + 1 as int));
                }
                k = k + 1;
            },
            None => {
                proof {
                    assert forall|x: int| from <= x < to implies 0 <= digit_val(
                        #[trigger] chars@[x],
                    ) by {
                        assert(is_digit(chars@[x]));
                    }
                    assert(digits_val(chars@, from as int, k + 1) == digits_val(
                        chars@,
                        from as int,
                        k as int,
                    ) * 10 + digit_val(chars@[k as int]));
                    assert(digits_val(chars@, from as int, k + 1) > usize::MAX);
                    lemma_digits_val_monotone(chars@, from as int, k + 1, to as int);
                }
                return None;
            },
        }
    }
    Some(val)
}

/// Why a textual path expression was rejected.
#[derive(PartialEq, Eq, Debug)]
pub enum PathError {
    /// The text does not match the path grammar; carries the offending text.
    Syntax(String),
    /// The text matches the grammar, but an index in it does not fit the
    /// machine's index type; carries the offending text.
    IndexOverflow(String),
}

/// Outcome of reading one bracket suffix.
enum BracketRead {
    /// The text does not match the bracket grammar.
    Syntax,
    /// A step was read, ending just before the returned position. The step
    /// itself is absent when one of its indices does not fit the machine's
    /// index type; the ghost model carries the exact step either way.
    Parsed(Option<Key>, usize, Ghost<KeyModel>),
}

/// Reads one bracket suffix starting at the given position, which must hold
/// the opening bracket.
fn read_bracket(chars: &Vec<char>, i: usize) -> (r: BracketRead)
    requires
        i < chars@.len(),
        chars@[i as int] == '[',
    ensures
        match r {
            BracketRead::Syntax => parse_bracket(chars@, i as int) is None,
            BracketRead::Parsed(okey, j, gk) => {
                &&& parse_bracket(chars@, i as int) == Some((gk@, j as int))
                &&& i < j <= chars@.len()
                &&& match okey {
                    Some(k) => k@ == gk@ && key_fits(gk@),
                    None => !key_fits(gk@),
                }
            },
        },
{
    let n = chars.len();
    let j = i + 1;
    if j < n && j + 1 < n && chars[j] == '*' && chars[j + 1] == ']' {
        return BracketRead::Parsed(
            Some(Key::WildcardArray),
            j + 2,
            Ghost(KeyModel::WildcardArray),
        );
    }
    let d1 = scan_digits_end(chars, j);
    proof {
        lemma_digits_end(chars@, j as int);
    }
    if d1 < n && chars[d1] == ']' {
        if d1 > j {
            match parse_usize(chars, j, d1) {
                Some(v) => BracketRead::Parsed(
                    Some(Key::Idx(v)),
                    d1 + 1,
                    Ghost(KeyModel::Idx(digits_val(chars@, j as int, d1 as int))),
                ),
                None => BracketRead::Parsed(
                    None,
                    d1 + 1,
                    Ghost(KeyModel::Idx(digits_val(chars@, j as int, d1 as int))),
                ),
            }
        } else {
            BracketRead::Syntax
        }
    } else if d1 < n && chars[d1] == ':' {
        let d2 = scan_digits_end(chars, d1 + 1);
        proof {
            lemma_digits_end(chars@, d1 + 1);
        }
        if d2 < n && chars[d2] == ']' {
            if d1 == j && d2 == d1 + 1 {
                BracketRead::Parsed(Some(Key::WildcardArray), d2 + 1, Ghost(KeyModel::WildcardArray))
            } else if d1 > j && d2 == d1 + 1 {
                let ghost gv = digits_val(chars@, j as int, d1 as int);
                match parse_usize(chars, j, d1) {
                    Some(v) => BracketRead::Parsed(
                        Some(Key::IdxRangeStart(v)),
                        d2 + 1,
                        Ghost(KeyModel::IdxRangeStart(gv)),
                    ),
                    None => BracketRead::Parsed(None, d2 + 1, Ghost(KeyModel::IdxRangeStart(gv))),
                }
            } else if d1 == j {
                let ghost gv = digits_val(chars@, d1 + 1, d2 as int);
                match parse_usize(chars, d1 + 1, d2) {
                    Some(v) => BracketRead::Parsed(
                        Some(Key::IdxRangeEnd(v)),
                        d2 + 1,
                        Ghost(KeyModel::IdxRangeEnd(gv)),
                    ),
                    None => BracketRead::Parsed(None, d2 + 1, Ghost(KeyModel::IdxRangeEnd(gv))),
                }
            } else {
                let ghost ga = digits_val(chars@, j as int, d1 as int);
                let ghost gb = digits_val(chars@, d1 + 1, d2 as int);
                let va = parse_usize(chars, j, d1);
                let vb = parse_usize(chars, d1 + 1, d2);
                match (va, vb) {
                    (Some(a), Some(b)) => BracketRead::Parsed(
                        Some(Key::IdxRange(a, b)),
                        d2 + 1,
                        Ghost(KeyModel::IdxRange(ga, gb)),
                    ),
                    _ => BracketRead::Parsed(None, d2 + 1, Ghost(KeyModel::IdxRange(ga, gb))),
                }
            }
        } else {
            BracketRead::Syntax
        }
    } else {
        BracketRead::Syntax
    }
}

impl Path {
    /// Parses a textual path expression. The whole text must match the
    /// grammar before any segment is interpreted: any deviation yields a
    /// syntax error, and a grammatical text whose indices do not fit the
    /// machine's index type is reported separately.
    #[verifier::rlimit(50)]
    pub fn from_jsonpath(text: &str) -> (r: Result<Path, PathError>)
        ensures
            match r {
                Ok(p) => spec_parse(text@) == Some(p@) && path_fits(p@),
                Err(PathError::Syntax(t)) => spec_parse(text@) is None && t@ == text@,
                Err(PathError::IndexOverflow(t)) => t@ == text@ && (spec_parse(text@) matches Some(
                    m,
                ) && !path_fits(m)),
            },
    {
        let chars = str_chars(text);
        let n = chars.len();
        if n == 0 || chars[0] != '$' {
            return Err(PathError::Syntax(text.to_owned()));
        }
        if n == 1 {
            assert(spec_parse(text@) == Some(Path::Root@));
            return Ok(Path::Root);
        }
        let mut keys: Vec<Key> = Vec::new();
        let ghost mut acc: Seq<KeyModel> = Seq::empty();
        let mut overflow = false;
        let mut pos: usize;
        if chars[1] == '[' {
            match read_bracket(&chars, 1) {
                BracketRead::Syntax => {
                    return Err(PathError::Syntax(text.to_owned()));
                },
                BracketRead::Parsed(okey, j, gk) => {
                    proof {
                        acc = seq![gk@];
                    }
                    match okey {
                        Some(k) => {
                            keys.push(k);
                            proof {
                                assert(Seq::new(keys@.len(), |i: int| keys@[i]@) =~= acc);
                            }
                        },
                        None => {
                            proof {
                                assert(!key_fits(acc[0]));
                            }
                            overflow = true;
                        },
                    }
                    pos = j;
                },
            }
        } else {
            pos = 1;
            proof {
                if parse_keys(text@, 1) is Some {
                    let rest = parse_keys(text@, 1)->Some_0;
                    assert(acc + rest =~= rest);
                }
                assert(Seq::new(keys@.len(), |i: int| keys@[i]@) =~= acc);
            }
        }
        while pos < n
            invariant
                1 <= pos <= n,
                n == chars@.len(),
                chars@ == text@,
                (parse_keys(text@, pos as int) matches Some(rest) ==> spec_parse(text@) == Some(
                    PathModel::Keys(acc + rest),
                )),
                (parse_keys(text@, pos as int) is None ==> spec_parse(text@) is None),
                !overflow ==> Seq::new(keys@.len(), |i: int| keys@[i]@) == acc,
                overflow ==> exists|q: int| 0 <= q < acc.len() && !key_fits(#[trigger] acc[q]),
            decreases n - pos,
        {
            if chars[pos] != '.' {
                return Err(PathError::Syntax(text.to_owned()));
            }
            if pos + 1 < n && chars[pos + 1] == '*' {
                let ghost acc0 = acc;
                proof {
                    acc = acc.push(KeyModel::Wildcard);
                    if parse_keys(text@, pos + 2) is Some {
                        let rest = parse_keys(text@, pos + 2)->Some_0;
                        assert(parse_keys(text@, pos as int) == Some(seq![KeyModel::Wildcard] + rest));
                        assert(acc0 + (seq![KeyModel::Wildcard] + rest) =~= acc + rest);
                    }
                    if overflow {
                        let q0 = choose|q: int| 0 <= q < acc0.len() && !key_fits(#[trigger] acc0[q]);
                        assert(acc[q0] == acc0[q0]);
                    }
                }
                if !overflow {
                    keys.push(Key::Wildcard);
                    proof {
                        assert(Seq::new(keys@.len(), |i: int| keys@[i]@) =~= acc);
                    }
                }
                pos = pos + 2;
            } else {
                let start = pos + 1;
                let e: usize = if start < n && is_ident_start_c(chars[start]) {
                    scan_ident_chars_end(&chars, start + 1)
                } else {
                    start
                };
                proof {
                    assert(e == ident_end(text@, start as int));
                }
                if e == start {
                    return Err(PathError::Syntax(text.to_owned()));
                }
                let name = extract_string(&chars, start, e);
                let ghost name_m = text@.subrange(start as int, e as int);
                if e < n && chars[e] == '[' {
                    match read_bracket(&chars, e) {
                        BracketRead::Syntax => {
                            return Err(PathError::Syntax(text.to_owned()));
                        },
                        BracketRead::Parsed(okey, j, gk) => {
                            let ghost acc0 = acc;
                            proof {
                                acc = acc + seq![KeyModel::Field(name_m), gk@];
                                if parse_keys(text@, j as int) is Some {
                                    let rest = parse_keys(text@, j as int)->Some_0;
                                    assert(parse_keys(text@, pos as int) == Some(
                                        seq![KeyModel::Field(name_m), gk@] + rest,
                                    ));
                                    assert(acc0 + (seq![KeyModel::Field(name_m), gk@] + rest)
                                        =~= acc + rest);
                                }
                                if overflow {
                                    let q0 = choose|q: int|
                                        0 <= q < acc0.len() && !key_fits(#[trigger] acc0[q]);
                                    assert(acc[q0] == acc0[q0]);
                                }
                            }
                            match okey {
                                Some(k) => {
                                    if !overflow {
                                        keys.push(Key::Field(name));
                                        keys.push(k);
                                        proof {
                                            assert(Seq::new(keys@.len(), |i: int| keys@[i]@)
                                                =~= acc);
                                        }
                                    }
                                },
                                None => {
                                    proof {
                                        assert(!key_fits(acc[acc.len() - 1]));
                                    }
                                    overflow = true;
                                },
                            }
                            pos = j;
                        },
                    }
                } else {
                    let ghost acc0 = acc;
                    proof {
                        acc = acc.push(KeyModel::Field(name_m));
                        if parse_keys(text@, e as int) is Some {
                            let rest = parse_keys(text@, e as int)->Some_0;
                            assert(parse_keys(text@, pos as int) == Some(
                                seq![KeyModel::Field(name_m)] + rest,
                            ));
                            assert(acc0 + (seq![KeyModel::Field(name_m)] + rest) =~= acc + rest);
                        }
                        if overflow {
                            let q0 = choose|q: int|
                                0 <= q < acc0.len() && !key_fits(#[trigger] acc0[q]);
                            assert(acc[q0] == acc0[q0]);
                        }
                    }
                    if !overflow {
                        keys.push(Key::Field(name));
                        proof {
                            assert(Seq::new(keys@.len(), |i: int| keys@[i]@) =~= acc);
                        }
                    }
                    pos = e;
                }
            }
        }
        proof {
            assert(parse_keys(text@, pos as int) == Some(Seq::<KeyModel>::empty()));
            assert(acc + Seq::<KeyModel>::empty() =~= acc);
            assert(spec_parse(text@) == Some(PathModel::Keys(acc)));
        }
        if overflow {
            proof {
                let q0 = choose|q: int| 0 <= q < acc.len() && !key_fits(#[trigger] acc[q]);
                assert(0 <= q0 < acc.len() && !key_fits(acc[q0]));
                assert(path_fits(PathModel::Keys(acc)) == (forall|i: int|
                    0 <= i < acc.len() ==> key_fits(#[trigger] acc[i])));
                assert(!path_fits(PathModel::Keys(acc)));
            }
            return Err(PathError::IndexOverflow(text.to_owned()));
        }
        let r = Path::Keys(keys);
        proof {
            assert(path_fits(r@));
        }
        Ok(r)
    }
}

/// Parsing of textual path expressions, available on string slices.
pub trait JSONPath {
    /// The characters of the expression.
    spec fn text_model(&self) -> Seq<char>;

    /// Parses this text as a path expression.
    fn jsonpath(&self) -> (r: Result<Path, PathError>)
        ensures
            match r {
                Ok(p) => spec_parse(self.text_model()) == Some(p@) && path_fits(p@),
                Err(PathError::Syntax(t)) => spec_parse(self.text_model()) is None && t@
                    == self.text_model(),
                Err(PathError::IndexOverflow(t)) => t@ == self.text_model() && (spec_parse(
                    self.text_model(),
                ) matches Some(m) && !path_fits(m)),
            },
    ;
}

impl JSONPath for str {
    open spec fn text_model(&self) -> Seq<char> {
        self@
    }

    fn jsonpath(&self) -> (r: Result<Path, PathError>) {
        Path::from_jsonpath(self)
    }
}


// ---------------------------------------------------------------------------
// Rendering of addresses back to text.
//
// `to_jsonpath` yields the canonical expression of an address in the grammar:
// `$` for the root, then one segment per step. `display_text` yields the form
// used inside difference messages: `(root)` for the root, and the segments
// without the leading `$`, with a bare `*` for a field wildcard.
// ---------------------------------------------------------------------------
/// The decimal digit character of a value below ten.
pub open spec fn digit_char(d: int) -> char {
    if d == 0 {
        '0'
    } else if d == 1 {
        '1'
    } else if d == 2 {
        '2'
    } else if d == 3 {
        '3'
    } else if d == 4 {
        '4'
    } else if d == 5 {
        '5'
    } else if d == 6 {
        '6'
    } else if d == 7 {
        '7'
    } else if d == 8 {
        '8'
    } else {
        '9'
    }
}

/// The decimal digits of a non-negative value, most significant first.
pub open spec fn dec_digits(n: int) -> Seq<char>
    decreases n,
    when n >= 0
{
    if n < 10 {
        seq![digit_char(n)]
    } else {
        dec_digits(n / 10).push(digit_char(n % 10))
    }
}

/// The canonical text of one step: a bracket suffix for the index family,
/// a dotted segment for fields and the field wildcard.
pub open spec fn render_key(k: KeyModel) -> Seq<char> {
    match k {
        KeyModel::Idx(n) => seq!['['] + dec_digits(n) + seq![']'],
        KeyModel::IdxRange(a, b) => seq!['['] + dec_digits(a) + seq![':'] + dec_digits(b)
            + seq![']'],
        KeyModel::IdxRangeStart(a) => seq!['['] + dec_digits(a) + seq![':', ']'],
        KeyModel::IdxRangeEnd(b) => seq!['[', ':'] + dec_digits(b) + seq![']'],
        KeyModel::Wildcard => seq!['.', '*'],
        KeyModel::WildcardArray => seq!['[', '*', ']'],
        KeyModel::Field(name) => seq!['.'] + name,
    }
}

/// The canonical text of a sequence of steps.
pub open spec fn render_keys(ks: Seq<KeyModel>) -> Seq<char>
    decreases ks.len(),
{
    if ks.len() == 0 {
        Seq::empty()
    } else {
        render_key(ks[0]) + render_keys(ks.drop_first())
    }
}

/// The canonical text of an address in the path-expression grammar.
pub open spec fn spec_render(m: PathModel) -> Seq<char> {
    match m {
        PathModel::Root => seq!['$'],
        PathModel::Keys(ks) => seq!['$'] + render_keys(ks),
    }
}

/// The text of one step inside a difference message: as its canonical text,
/// except that a field wildcard is a bare star.
pub open spec fn display_key(k: KeyModel) -> Seq<char> {
    match k {
        KeyModel::Wildcard => seq!['*'],
        _ => render_key(k),
    }
}

/// The text of a sequence of steps inside a difference message.
pub open spec fn display_keys(ks: Seq<KeyModel>) -> Seq<char>
    decreases ks.len(),
{
    if ks.len() == 0 {
        Seq::empty()
    } else {
        display_key(ks[0]) + display_keys(ks.drop_first())
    }
}

/// The text of an address inside a difference message.
pub open spec fn spec_display(m: PathModel) -> Seq<char> {
    match m {
        PathModel::Root => seq!['(', 'r', 'o', 'o', 't', ')'],
        PathModel::Keys(ks) => display_keys(ks),
    }
}

/// The decimal digit character of a value below ten.
fn digit_char_c(d: usize) -> (r: char)
    requires
        d < 10,
    ensures
        r == digit_char(d as int),
{
    if d == 0 {
        '0'
    } else if d == 1 {
        '1'
    } else if d == 2 {
        '2'
    } else if d == 3 {
        '3'
    } else if d == 4 {
        '4'
    } else if d == 5 {
        '5'
    } else if d == 6 {
        '6'
    } else if d == 7 {
        '7'
    } else if d == 8 {
        '8'
    } else {
        '9'
    }
}

/// Appends the decimal digits of a value.
fn push_dec(out: &mut Vec<char>, n: usize)
    ensures
        final(out)@ == old(out)@ + dec_digits(n as int),
    decreases n,
{
    if n >= 10 {
        push_dec(out, n / 10);
        out.push(digit_char_c(n % 10));
        proof {
            assert(out@ =~= old(out)@ + dec_digits(n as int));
        }
    } else {
        out.push(digit_char_c(n));
        proof {
            assert(out@ =~= old(out)@ + dec_digits(n as int));
        }
    }
}

/// Appends the canonical text of one step.
fn push_key(out: &mut Vec<char>, k: &Key)
    ensures
        final(out)@ == old(out)@ + render_key(k@),
{
    match k {
        Key::Idx(n) => {
            out.push('[');
            push_dec(out, *n);
            out.push(']');
        },
        Key::IdxRange(a, b) => {
            out.push('[');
            push_dec(out, *a);
            out.push(':');
            push_dec(out, *b);
            out.push(']');
        },
        Key::IdxRangeStart(a) => {
            out.push('[');
            push_dec(out, *a);
            out.push(':');
            out.push(']');
        },
        Key::IdxRangeEnd(b) => {
            out.push('[');
            out.push(':');
            push_dec(out, *b);
            out.push(']');
        },
        Key::Wildcard => {
            out.push('.');
            out.push('*');
        },
        Key::WildcardArray => {
            out.push('[');
            out.push('*');
            out.push(']');
        },
        Key::Field(name) => {
            out.push('.');
            let cs = str_chars(name.as_str());
            let m = cs.len();
            for q in 0..m
                invariant
                    m == cs@.len(),
                    cs@ == name@,
                    out@ == old(out)@ + seq!['.'] + name@.subrange(0, q as int),
                decreases m - q,
            {
                out.push(cs[q]);
                proof {
                    assert(name@.subrange(0, q + 1) =~= name@.subrange(0, q as int).push(
                        name@[q as int],
                    ));
                    assert(out@ =~= old(out)@ + seq!['.'] + name@.subrange(0, q + 1));
                }
            }
            proof {
                assert(name@.subrange(0, name@.len() as int) =~= name@);
            }
        },
    }
    proof {
        assert(out@ =~= old(out)@ + render_key(k@));
    }
}

impl Path {
    /// The canonical textual expression of this address in the grammar: `$`
    /// for the root, then one segment per step.
    pub fn to_jsonpath(&self) -> (r: String)
        ensures
            r@ == spec_render(self@),
    {
        let mut out: Vec<char> = Vec::new();
        out.push('$');
        match self {
            Path::Root => {
                proof {
                    assert(out@ =~= spec_render(self@));
                }
            },
            Path::Keys(keys) => {
                let ghost ks = Seq::new(keys@.len(), |i: int| keys@[i]@);
                let n = keys.len();
                for i in 0..n
                    invariant
                        n == keys@.len(),
                        ks == Seq::new(keys@.len(), |q: int| keys@[q]@),
                        out@ == seq!['$'] + rendered_prefix(ks, i as int),
                    decreases n - i,
                {
                    proof {
                        assert(ks[i as int] == keys@[i as int]@);
                        lemma_rendered_prefix_step(ks, i as int);
                    }
                    push_key(&mut out, &keys[i]);
                    proof {
                        assert(out@ =~= seq!['$'] + rendered_prefix(ks, i + 1));
                    }
                }
                proof {
                    lemma_rendered_prefix_all(ks);
                    assert(out@ =~= spec_render(self@));
                }
            },
        }
        chars_to_string(&out)
    }

    /// The text of this address as it appears inside difference messages.
    pub fn display_text(&self) -> (r: String)
        ensures
            r@ == spec_display(self@),
    {
        let mut out: Vec<char> = Vec::new();
        match self {
            Path::Root => {
                out.push('(');
                out.push('r');
                out.push('o');
                out.push('o');
                out.push('t');
                out.push(')');
                proof {
                    assert(out@ =~= spec_display(self@));
                }
            },
            Path::Keys(keys) => {
                let ghost ks = Seq::new(keys@.len(), |i: int| keys@[i]@);
                let n = keys.len();
                for i in 0..n
                    invariant
                        n == keys@.len(),
                        ks == Seq::new(keys@.len(), |q: int| keys@[q]@),
                        out@ == displayed_prefix(ks, i as int),
                    decreases n - i,
                {
                    proof {
                        assert(ks[i as int] == keys@[i as int]@);
                        lemma_displayed_prefix_step(ks, i as int);
                    }
                    match &keys[i] {
                        Key::Wildcard => {
                            out.push('*');
                        },
                        other => {
                            push_key(&mut out, other);
                        },
                    }
                    proof {
                        assert(out@ =~= displayed_prefix(ks, i + 1));
                    }
                }
                proof {
                    lemma_displayed_prefix_all(ks);
                    assert(out@ =~= spec_display(self@));
                }
            },
        }
        chars_to_string(&out)
    }
}

/// The text of the first i steps of a sequence, canonically rendered.
pub open spec fn rendered_prefix(ks: Seq<KeyModel>, i: int) -> Seq<char>
    decreases i,
    when 0 <= i <= ks.len()
{
    if i <= 0 {
        Seq::empty()
    } else {
        rendered_prefix(ks, i - 1) + render_key(ks[i - 1])
    }
}

/// Rendering one more step extends the rendered prefix by that step's text.
proof fn lemma_rendered_prefix_step(ks: Seq<KeyModel>, i: int)
    requires
        0 <= i < ks.len(),
    ensures
        rendered_prefix(ks, i + 1) == rendered_prefix(ks, i) + render_key(ks[i]),
{
}

/// The full rendered prefix is the rendering of the whole sequence.
proof fn lemma_rendered_prefix_all(ks: Seq<KeyModel>)
    ensures
        rendered_prefix(ks, ks.len() as int) =~= render_keys(ks),
    decreases ks.len(),
{
    lemma_rendered_prefix_suffix(ks, 0);
    assert(ks.subrange(0, ks.len() as int) =~= ks);
    assert(rendered_prefix(ks, 0) + render_keys(ks) =~= render_keys(ks));
}

/// Splitting the rendering at any position: what is rendered after position
/// i is the rendering of the steps from i on.
proof fn lemma_rendered_prefix_suffix(ks: Seq<KeyModel>, i: int)
    requires
        0 <= i <= ks.len(),
    ensures
        rendered_prefix(ks, ks.len() as int) =~= rendered_prefix(ks, i) + render_keys(
            ks.subrange(i, ks.len() as int),
        ),
    decreases ks.len() - i,
{
    if i == ks.len() {
        assert(render_keys(ks.subrange(i, ks.len() as int)) =~= Seq::<char>::empty());
    } else {
        lemma_rendered_prefix_suffix(ks, i + 1);
        let tail = ks.subrange(i, ks.len() as int);
        assert(tail[0] == ks[i]);
        assert(tail.drop_first() =~= ks.subrange(i + 1, ks.len() as int));
        assert(render_keys(tail) == render_key(ks[i]) + render_keys(
            ks.subrange(i + 1, ks.len() as int),
        ));
        assert(rendered_prefix(ks, i + 1) == rendered_prefix(ks, i) + render_key(ks[i]));
    }
}

/// The text of the first i steps of a sequence, in message form.
pub open spec fn displayed_prefix(ks: Seq<KeyModel>, i: int) -> Seq<char>
    decreases i,
    when 0 <= i <= ks.len()
{
    if i <= 0 {
        Seq::empty()
    } else {
        displayed_prefix(ks, i - 1) + display_key(ks[i - 1])
    }
}

/// Displaying one more step extends the displayed prefix by that step's text.
proof fn lemma_displayed_prefix_step(ks: Seq<KeyModel>, i: int)
    requires
        0 <= i < ks.len(),
    ensures
        displayed_prefix(ks, i + 1) == displayed_prefix(ks, i) + display_key(ks[i]),
{
}

/// The full displayed prefix is the display text of the whole sequence.
proof fn lemma_displayed_prefix_all(ks: Seq<KeyModel>)
    ensures
        displayed_prefix(ks, ks.len() as int) =~= display_keys(ks),
    decreases ks.len(),
{
    lemma_displayed_prefix_suffix(ks, 0);
    assert(ks.subrange(0, ks.len() as int) =~= ks);
    assert(displayed_prefix(ks, 0) + display_keys(ks) =~= display_keys(ks));
}

/// Splitting the display text at any position.
proof fn lemma_displayed_prefix_suffix(ks: Seq<KeyModel>, i: int)
    requires
        0 <= i <= ks.len(),
    ensures
        displayed_prefix(ks, ks.len() as int) =~= displayed_prefix(ks, i) + display_keys(
            ks.subrange(i, ks.len() as int),
        ),
    decreases ks.len() - i,
{
    if i == ks.len() {
        assert(display_keys(ks.subrange(i, ks.len() as int)) =~= Seq::<char>::empty());
    } else {
        lemma_displayed_prefix_suffix(ks, i + 1);
        let tail = ks.subrange(i, ks.len() as int);
        assert(tail[0] == ks[i]);
        assert(tail.drop_first() =~= ks.subrange(i + 1, ks.len() as int));
        assert(display_keys(tail) == display_key(ks[i]) + display_keys(
            ks.subrange(i + 1, ks.len() as int),
        ));
        assert(displayed_prefix(ks, i + 1) == displayed_prefix(ks, i) + display_key(ks[i]));
    }
}

// ---------------------------------------------------------------------------
// The parser inverts the renderer.
// ---------------------------------------------------------------------------
/// A step of the index family: one written as a bracket suffix.
pub open spec fn index_family(k: KeyModel) -> bool {
    match k {
        KeyModel::Idx(_) => true,
        KeyModel::IdxRange(_, _) => true,
        KeyModel::IdxRangeStart(_) => true,
        KeyModel::IdxRangeEnd(_) => true,
        KeyModel::WildcardArray => true,
        _ => false,
    }
}

/// A valid field name: a nonempty identifier.
pub open spec fn valid_field_name(name: Seq<char>) -> bool {
    name.len() > 0 && is_ident_start(name[0]) && forall|i: int|
        0 <= i < name.len() ==> is_ident_char(#[trigger] name[i])
}

/// A step the grammar can express: indices are non-negative and field names
/// are identifiers.
pub open spec fn wf_key(k: KeyModel) -> bool {
    match k {
        KeyModel::Idx(n) => n >= 0,
        KeyModel::IdxRange(a, b) => a >= 0 && b >= 0,
        KeyModel::IdxRangeStart(a) => a >= 0,
        KeyModel::IdxRangeEnd(b) => b >= 0,
        KeyModel::Field(name) => valid_field_name(name),
        _ => true,
    }
}

/// A step sequence the grammar can express: at least one step, every step
/// well-formed, and a bracket step only at the start or right after a field.
pub open spec fn renderable_keys(ks: Seq<KeyModel>) -> bool {
    &&& ks.len() > 0
    &&& forall|i: int| 0 <= i < ks.len() ==> wf_key(#[trigger] ks[i])
    &&& forall|i: int|
        1 <= i < ks.len() && index_family(#[trigger] ks[i]) ==> ks[i - 1] is Field
}

/// An address the grammar can express.
pub open spec fn renderable(m: PathModel) -> bool {
    match m {
        PathModel::Root => true,
        PathModel::Keys(ks) => renderable_keys(ks),
    }
}

/// The decimal digits of a value are at least one character, all of them
/// digits.
proof fn lemma_dec_digits_props(n: int)
    requires
        n >= 0,
    ensures
        dec_digits(n).len() >= 1,
        forall|q: int| 0 <= q < dec_digits(n).len() ==> is_digit(#[trigger] dec_digits(n)[q]),
    decreases n,
{
    if n < 10 {
        lemma_digit_char_val(n);
    } else {
        lemma_dec_digits_props(n / 10);
        lemma_digit_char_val(n % 10);
        assert(dec_digits(n) == dec_digits(n / 10).push(digit_char(n % 10)));
        assert forall|q: int| 0 <= q < dec_digits(n).len() implies is_digit(
            #[trigger] dec_digits(n)[q],
        ) by {
            if q < dec_digits(n / 10).len() {
                assert(dec_digits(n)[q] == dec_digits(n / 10)[q]);
            } else {
                assert(dec_digits(n)[q] == digit_char(n % 10));
            }
        }
    }
}

/// A digit below ten renders to a digit character carrying that value.
proof fn lemma_digit_char_val(d: int)
    requires
        0 <= d < 10,
    ensures
        is_digit(digit_char(d)),
        digit_val(digit_char(d)) == d,
{
}

/// A digit run that ends at the end of the string or just before a
/// non-digit is scanned exactly to its end.
proof fn lemma_digits_end_exact(s: Seq<char>, i: int, e: int)
    requires
        0 <= i <= e <= s.len(),
        forall|x: int| i <= x < e ==> is_digit(#[trigger] s[x]),
        e == s.len() || !is_digit(s[e]),
    ensures
        digits_end(s, i) == e,
    decreases e - i,
{
    if i < e {
        lemma_digits_end_exact(s, i + 1, e);
    }
}

/// An identifier-character run that ends at the end of the string or just
/// before a non-identifier character is scanned exactly to its end.
proof fn lemma_ident_chars_end_exact(s: Seq<char>, i: int, e: int)
    requires
        0 <= i <= e <= s.len(),
        forall|x: int| i <= x < e ==> is_ident_char(#[trigger] s[x]),
        e == s.len() || !is_ident_char(s[e]),
    ensures
        ident_chars_end(s, i) == e,
    decreases e - i,
{
    if i < e {
        lemma_ident_chars_end_exact(s, i + 1, e);
    }
}

/// Rendered digits read back as the value they render.
proof fn lemma_digits_val_render(s: Seq<char>, i: int, n: int)
    requires
        n >= 0,
        0 <= i,
        i + dec_digits(n).len() <= s.len(),
        forall|q: int|
            0 <= q < dec_digits(n).len() ==> s[i + q] == (#[trigger] dec_digits(n)[q]),
    ensures
        digits_val(s, i, i + dec_digits(n).len()) == n,
    decreases n,
{
    let l = dec_digits(n).len() as int;
    if n < 10 {
        assert(s[i + 0] == dec_digits(n)[0]);
        assert(s[i] == digit_char(n));
        lemma_digit_char_val(n);
        assert(digits_val(s, i, i + 1) == digits_val(s, i, i) * 10 + digit_val(s[i]));
    } else {
        let l1 = dec_digits(n / 10).len() as int;
        assert(dec_digits(n) == dec_digits(n / 10).push(digit_char(n % 10)));
        assert(l == l1 + 1);
        assert forall|q: int|
            0 <= q < dec_digits(n / 10).len() implies s[i + q] == (#[trigger] dec_digits(
            n / 10,
        )[q]) by {
            assert(dec_digits(n)[q] == dec_digits(n / 10)[q]);
            assert(s[i + q] == dec_digits(n)[q]);
        }
        lemma_digits_val_render(s, i, n / 10);
        assert(s[i + (l - 1)] == dec_digits(n)[l - 1]);
        assert(dec_digits(n)[l - 1] == digit_char(n % 10));
        lemma_digit_char_val(n % 10);
        assert(digits_val(s, i, i + l) == digits_val(s, i, i + l - 1) * 10 + digit_val(
            s[i + l - 1],
        ));
        assert(n / 10 * 10 + n % 10 == n) by (nonlinear_arith);
    }
}

/// For a well-formed step, the rendered text is at least two characters and
/// starts with a bracket for the index family, with a dot otherwise.
proof fn lemma_render_key_first(k: KeyModel)
    requires
        wf_key(k),
    ensures
        render_key(k).len() >= 2,
        index_family(k) ==> render_key(k)[0] == '[',
        !index_family(k) ==> render_key(k)[0] == '.',
{
    match k {
        KeyModel::Idx(n) => {
            lemma_dec_digits_props(n);
        },
        KeyModel::IdxRange(a, b) => {
            lemma_dec_digits_props(a);
            lemma_dec_digits_props(b);
        },
        KeyModel::IdxRangeStart(a) => {
            lemma_dec_digits_props(a);
        },
        KeyModel::IdxRangeEnd(b) => {
            lemma_dec_digits_props(b);
        },
        _ => {},
    }
}

/// A rendered bracket step, followed by anything, reads back as that step.
#[verifier::rlimit(100)]
proof fn lemma_parse_bracket_render(s: Seq<char>, i: int, k: KeyModel, rest: Seq<char>)
    requires
        0 <= i,
        index_family(k),
        wf_key(k),
        i + render_key(k).len() + rest.len() == s.len(),
        forall|q: int|
            0 <= q < render_key(k).len() + rest.len() ==> s[i + q] == (#[trigger] (render_key(k)
                + rest)[q]),
    ensures
        parse_bracket(s, i) == Some((k, i + render_key(k).len())),
{
    let t = render_key(k);
    let n = s.len() as int;
    assert forall|q: int| 0 <= q < t.len() implies s[i + q] == t[q] by {
        assert((t + rest)[q] == t[q]);
        assert(s[i + q] == (t + rest)[q]);
    }
    let j = i + 1;
    match k {
        KeyModel::WildcardArray => {
            assert(t == seq!['[', '*', ']']);
            assert(s[i] == '[' && s[i + 1] == '*' && s[i + 2] == ']');
        },
        KeyModel::Idx(v) => {
            lemma_dec_digits_props(v);
            let l = dec_digits(v).len() as int;
            assert(t =~= seq!['['] + dec_digits(v) + seq![']']);
            assert(s[i] == t[0] && t[0] == '[');
            assert forall|x: int| j <= x < j + l implies is_digit(#[trigger] s[x]) by {
                assert(s[x] == t[x - i]);
                assert(t[x - i] == dec_digits(v)[x - j]);
            }
            assert(s[j + l] == t[1 + l] && t[1 + l] == ']');
            assert(!is_digit(']'));
            lemma_digits_end_exact(s, j, j + l);
            assert(s[j] == t[1]);
            assert(t[1] == dec_digits(v)[0]);
            assert(is_digit(s[j]));
            assert(s[j] != '*');
            assert forall|q: int| 0 <= q < l implies s[j + q] == (#[trigger] dec_digits(v)[q]) by {
                assert(s[j + q] == t[1 + q]);
            }
            lemma_digits_val_render(s, j, v);
            assert(parse_bracket(s, i) == Some((KeyModel::Idx(v), j + l + 1)));
        },
        KeyModel::IdxRangeStart(v) => {
            lemma_dec_digits_props(v);
            let l = dec_digits(v).len() as int;
            assert(t =~= seq!['['] + dec_digits(v) + seq![':', ']']);
            assert(s[i] == t[0] && t[0] == '[');
            assert forall|x: int| j <= x < j + l implies is_digit(#[trigger] s[x]) by {
                assert(s[x] == t[x - i]);
                assert(t[x - i] == dec_digits(v)[x - j]);
            }
            assert(s[j + l] == t[1 + l] && t[1 + l] == ':');
            assert(s[j + l + 1] == t[1 + l + 1] && t[1 + l + 1] == ']');
            assert(!is_digit(':'));
            assert(!is_digit(']'));
            lemma_digits_end_exact(s, j, j + l);
            lemma_digits_end_exact(s, j + l + 1, j + l + 1);
            assert(s[j] == t[1]);
            assert(t[1] == dec_digits(v)[0]);
            assert(is_digit(s[j]));
            assert(s[j] != '*');
            assert forall|q: int| 0 <= q < l implies s[j + q] == (#[trigger] dec_digits(v)[q]) by {
                assert(s[j + q] == t[1 + q]);
            }
            lemma_digits_val_render(s, j, v);
            assert(parse_bracket(s, i) == Some((KeyModel::IdxRangeStart(v), j + l + 2)));
        },
        KeyModel::IdxRangeEnd(v) => {
            lemma_dec_digits_props(v);
            let l = dec_digits(v).len() as int;
            assert(t =~= seq!['[', ':'] + dec_digits(v) + seq![']']);
            assert(s[i] == t[0] && t[0] == '[');
            assert(s[i + 1] == t[1] && t[1] == ':');
            assert(!is_digit(':'));
            assert(s[i + 1] != '*');
            lemma_digits_end_exact(s, j, j);
            assert forall|x: int| j + 1 <= x < j + 1 + l implies is_digit(#[trigger] s[x]) by {
                assert(s[x] == t[x - i]);
                assert(t[x - i] == dec_digits(v)[x - j - 1]);
            }
            assert(s[j + 1 + l] == t[2 + l] && t[2 + l] == ']');
            assert(!is_digit(']'));
            lemma_digits_end_exact(s, j + 1, j + 1 + l);
            assert forall|q: int| 0 <= q < l implies s[j + 1 + q] == (#[trigger] dec_digits(
                v,
            )[q]) by {
                assert(s[j + 1 + q] == t[2 + q]);
            }
            lemma_digits_val_render(s, j + 1, v);
            assert(parse_bracket(s, i) == Some((KeyModel::IdxRangeEnd(v), j + 1 + l + 1)));
        },
        KeyModel::IdxRange(a, b) => {
            lemma_dec_digits_props(a);
            lemma_dec_digits_props(b);
            let la = dec_digits(a).len() as int;
            let lb = dec_digits(b).len() as int;
            assert(t =~= seq!['['] + dec_digits(a) + seq![':'] + dec_digits(b) + seq![']']);
            assert(s[i] == t[0] && t[0] == '[');
            assert forall|x: int| j <= x < j + la implies is_digit(#[trigger] s[x]) by {
                assert(s[x] == t[x - i]);
                assert(t[x - i] == dec_digits(a)[x - j]);
            }
            assert(s[j + la] == t[1 + la] && t[1 + la] == ':');
            assert(!is_digit(':'));
            lemma_digits_end_exact(s, j, j + la);
            assert(s[j] == t[1]);
            assert(t[1] == dec_digits(a)[0]);
            assert(is_digit(s[j]));
            assert(s[j] != '*');
            assert forall|x: int| j + la + 1 <= x < j + la + 1 + lb implies is_digit(
                #[trigger] s[x],
            ) by {
                assert(s[x] == t[x - i]);
                assert(t[x - i] == dec_digits(b)[x - j - la - 1]);
            }
            assert(s[j + la + 1 + lb] == t[2 + la + lb] && t[2 + la + lb] == ']');
            assert(!is_digit(']'));
            lemma_digits_end_exact(s, j + la + 1, j + la + 1 + lb);
            assert forall|q: int| 0 <= q < la implies s[j + q] == (#[trigger] dec_digits(a)[q]) by {
                assert(s[j + q] == t[1 + q]);
            }
            lemma_digits_val_render(s, j, a);
            assert forall|q: int| 0 <= q < lb implies s[j + la + 1 + q] == (#[trigger] dec_digits(
                b,
            )[q]) by {
                assert(s[j + la + 1 + q] == t[2 + la + q]);
            }
            lemma_digits_val_render(s, j + la + 1, b);
            assert(parse_bracket(s, i) == Some((KeyModel::IdxRange(a, b), j + la + 1 + lb + 1)));
        },
        _ => {},
    }
}

/// Rendered steps, starting with a dotted segment, read back as those steps.
#[verifier::rlimit(100)]
proof fn lemma_parse_render_keys(s: Seq<char>, i: int, ks: Seq<KeyModel>)
    requires
        0 <= i <= s.len(),
        s.subrange(i, s.len() as int) == render_keys(ks),
        forall|q: int| 0 <= q < ks.len() ==> wf_key(#[trigger] ks[q]),
        forall|q: int|
            1 <= q < ks.len() && index_family(#[trigger] ks[q]) ==> ks[q - 1] is Field,
        ks.len() > 0 ==> !index_family(ks[0]),
    ensures
        parse_keys(s, i) == Some(ks),
    decreases ks.len(),
{
    let n = s.len() as int;
    let rk = render_keys(ks);
    assert forall|q: int| 0 <= q < n - i implies s[i + q] == rk[q] by {
        assert(s.subrange(i, n)[q] == s[i + q]);
    }
    if ks.len() == 0 {
        assert(rk.len() == 0);
        assert(s.subrange(i, n).len() == n - i);
        assert(i == n);
    } else {
        let t0 = render_key(ks[0]);
        let drop1 = ks.drop_first();
        let rest1 = render_keys(drop1);
        assert(rk == t0 + rest1);
        lemma_render_key_first(ks[0]);
        assert(n - i == t0.len() + rest1.len());
        assert(s[i] == rk[0]);
        assert(rk[0] == t0[0]);
        if drop1.len() > 0 {
            lemma_render_key_first(drop1[0]);
            assert(rest1 == render_key(drop1[0]) + render_keys(drop1.drop_first()));
            assert(rest1.len() >= 2);
        } else {
            assert(rest1 =~= Seq::<char>::empty());
        }
        match ks[0] {
            KeyModel::Wildcard => {
                assert(t0 =~= seq!['.', '*']);
                assert(s[i] == '.');
                assert(s[i + 1] == rk[1]);
                assert(rk[1] == '*');
                assert forall|q: int| 0 <= q < n - (i + 2) implies s.subrange(i + 2, n)[q]
                    == rest1[q] by {
                    assert(s.subrange(i + 2, n)[q] == s[i + 2 + q]);
                    assert(s[i + 2 + q] == rk[2 + q]);
                    assert(rk[2 + q] == rest1[q]);
                }
                assert(s.subrange(i + 2, n) =~= rest1);
                assert forall|q: int| 0 <= q < drop1.len() implies wf_key(#[trigger] drop1[q]) by {
                    assert(drop1[q] == ks[q + 1]);
                }
                assert forall|q: int|
                    1 <= q < drop1.len() && index_family(#[trigger] drop1[q]) implies drop1[q - 1]
                    is Field by {
                    assert(drop1[q] == ks[q + 1]);
                    assert(drop1[q - 1] == ks[q]);
                }
                if drop1.len() > 0 {
                    assert(drop1[0] == ks[1]);
                    if index_family(ks[1]) {
                        assert(ks[0] is Field);
                        assert(false);
                    }
                }
                lemma_parse_render_keys(s, i + 2, drop1);
                assert(seq![KeyModel::Wildcard] + drop1 =~= ks);
            },
            KeyModel::Field(name) => {
                assert(t0 == seq!['.'] + name);
                assert(s[i] == '.');
                let l0 = t0.len() as int;
                assert(l0 == 1 + name.len());
                assert(s[i + 1] == rk[1]);
                assert(rk[1] == t0[1]);
                assert(t0[1] == name[0]);
                assert(!is_ident_start('*'));
                assert(s[i + 1] != '*');
                assert forall|x: int| i + 2 <= x < i + l0 implies is_ident_char(
                    #[trigger] s[x],
                ) by {
                    assert(s[x] == rk[x - i]);
                    assert(rk[x - i] == t0[x - i]);
                    assert(t0[x - i] == name[x - i - 1]);
                    assert(is_ident_char(name[x - i - 1]));
                }
                if i + l0 == n {
                    lemma_ident_chars_end_exact(s, i + 2, i + l0);
                } else {
                    assert(s[i + l0] == rk[l0]);
                    assert(rk[l0] == rest1[0]);
                    assert(rest1[0] == render_key(drop1[0])[0]);
                    assert(!is_ident_char('.'));
                    assert(!is_ident_char('['));
                    assert(!is_ident_char(s[i + l0]));
                    lemma_ident_chars_end_exact(s, i + 2, i + l0);
                }
                let e = ident_end(s, i + 1);
                assert(is_ident_start(s[i + 1]));
                assert(e == i + l0);
                assert forall|q: int| 0 <= q < name.len() implies s.subrange(i + 1, e)[q]
                    == name[q] by {
                    assert(s.subrange(i + 1, e)[q] == s[i + 1 + q]);
                    assert(s[i + 1 + q] == rk[1 + q]);
                    assert(rk[1 + q] == t0[1 + q]);
                    assert(t0[1 + q] == name[q]);
                }
                assert(s.subrange(i + 1, e) =~= name);
                if drop1.len() > 0 && index_family(drop1[0]) {
                    let t1 = render_key(drop1[0]);
                    let drop2 = drop1.drop_first();
                    let rest2 = render_keys(drop2);
                    assert(rest1 == t1 + rest2);
                    assert(s[e] == rk[l0]);
                    assert(rk[l0] == rest1[0]);
                    assert(rest1[0] == t1[0]);
                    assert(t1[0] == '[');
                    assert(e < n);
                    assert forall|q: int| 0 <= q < t1.len() + rest2.len() implies s[e + q] == (
                    #[trigger] (t1 + rest2)[q]) by {
                        assert(s[e + q] == rk[l0 + q]);
                        assert(rk[l0 + q] == rest1[q]);
                    }
                    assert(e + t1.len() + rest2.len() == n);
                    assert(wf_key(drop1[0])) by {
                        assert(drop1[0] == ks[1]);
                    }
                    lemma_parse_bracket_render(s, e, drop1[0], rest2);
                    let j = e + t1.len() as int;
                    assert(parse_bracket(s, e) == Some((drop1[0], j)));
                    assert(e < j <= n);
                    assert forall|q: int| 0 <= q < n - j implies s.subrange(j, n)[q]
                        == rest2[q] by {
                        assert(s.subrange(j, n)[q] == s[j + q]);
                        assert(s[j + q] == rk[l0 + t1.len() + q]);
                        assert(rk[l0 + t1.len() + q] == rest1[t1.len() + q]);
                        assert(rest1[t1.len() + q] == rest2[q]);
                    }
                    assert(s.subrange(j, n) =~= rest2);
                    assert forall|q: int| 0 <= q < drop2.len() implies wf_key(
                        #[trigger] drop2[q],
                    ) by {
                        assert(drop2[q] == ks[q + 2]);
                    }
                    assert forall|q: int|
                        1 <= q < drop2.len() && index_family(#[trigger] drop2[q]) implies drop2[q
                        - 1] is Field by {
                        assert(drop2[q] == ks[q + 2]);
                        assert(drop2[q - 1] == ks[q + 1]);
                    }
                    if drop2.len() > 0 {
                        assert(drop2[0] == ks[2]);
                        if index_family(ks[2]) {
                            assert(ks[1] is Field);
                            assert(!(ks[1] is Field));
                            assert(false);
                        }
                    }
                    lemma_parse_render_keys(s, j, drop2);
                    assert(seq![KeyModel::Field(name), drop1[0]] + drop2 =~= ks);
                    assert(parse_keys(s, i) == Some(seq![KeyModel::Field(name), drop1[0]] + drop2));
                } else {
                    if drop1.len() > 0 {
                        assert(s[e] == rk[l0]);
                        assert(rk[l0] == rest1[0]);
                        assert(rest1[0] == render_key(drop1[0])[0]);
                        assert(wf_key(drop1[0])) by {
                            assert(drop1[0] == ks[1]);
                        }
                        assert(render_key(drop1[0])[0] == '.');
                        assert(s[e] != '[');
                    } else {
                        assert(e == n);
                    }
                    assert forall|q: int| 0 <= q < n - e implies s.subrange(e, n)[q]
                        == rest1[q] by {
                        assert(s.subrange(e, n)[q] == s[e + q]);
                        assert(s[e + q] == rk[l0 + q]);
                        assert(rk[l0 + q] == rest1[q]);
                    }
                    assert(s.subrange(e, n) =~= rest1);
                    assert forall|q: int| 0 <= q < drop1.len() implies wf_key(
                        #[trigger] drop1[q],
                    ) by {
                        assert(drop1[q] == ks[q + 1]);
                    }
                    assert forall|q: int|
                        1 <= q < drop1.len() && index_family(#[trigger] drop1[q]) implies drop1[q
                        - 1] is Field by {
                        assert(drop1[q] == ks[q + 1]);
                        assert(drop1[q - 1] == ks[q]);
                    }
                    lemma_parse_render_keys(s, e, drop1);
                    assert(seq![KeyModel::Field(name)] + drop1 =~= ks);
                    assert(parse_keys(s, i) == Some(seq![KeyModel::Field(name)] + drop1));
                }
            },
            _ => {
                assert(!index_family(ks[0]));
                assert(false);
            },
        }
    }
}

/// Parsing the canonical text of an expressible address yields that address
/// back: the renderer and the parser invert each other.
#[verifier::rlimit(100)]
pub proof fn lemma_parse_render(m: PathModel)
    requires
        renderable(m),
    ensures
        spec_parse(spec_render(m)) == Some(m),
{
    match m {
        PathModel::Root => {
            let s = spec_render(m);
            assert(s == seq!['$']);
            assert(s[0] == '$');
        },
        PathModel::Keys(ks) => {
            let s = spec_render(m);
            let rk = render_keys(ks);
            assert(s == seq!['$'] + rk);
            let n = s.len() as int;
            assert(s[0] == '$');
            lemma_render_key_first(ks[0]);
            assert(rk == render_key(ks[0]) + render_keys(ks.drop_first()));
            assert(n >= 3);
            assert forall|q: int| 0 <= q < n - 1 implies s[1 + q] == rk[q] by {}
            if index_family(ks[0]) {
                let t0 = render_key(ks[0]);
                let drop1 = ks.drop_first();
                let rest1 = render_keys(drop1);
                assert(s[1] == rk[0]);
                assert(rk[0] == t0[0]);
                assert(t0[0] == '[');
                assert forall|q: int| 0 <= q < t0.len() + rest1.len() implies s[1 + q] == (
                #[trigger] (t0 + rest1)[q]) by {
                    assert(s[1 + q] == rk[q]);
                }
                lemma_parse_bracket_render(s, 1, ks[0], rest1);
                let j = 1 + t0.len() as int;
                assert(parse_bracket(s, 1) == Some((ks[0], j)));
                assert(1 < j <= n);
                assert forall|q: int| 0 <= q < n - j implies s.subrange(j, n)[q] == rest1[q] by {
                    assert(s.subrange(j, n)[q] == s[j + q]);
                    assert(s[j + q] == rk[t0.len() + q]);
                    assert(rk[t0.len() + q] == rest1[q]);
                }
                assert(s.subrange(j, n) =~= rest1);
                assert forall|q: int| 0 <= q < drop1.len() implies wf_key(#[trigger] drop1[q]) by {
                    assert(drop1[q] == ks[q + 1]);
                }
                assert forall|q: int|
                    1 <= q < drop1.len() && index_family(#[trigger] drop1[q]) implies drop1[q - 1]
                    is Field by {
                    assert(drop1[q] == ks[q + 1]);
                    assert(drop1[q - 1] == ks[q]);
                }
                if drop1.len() > 0 {
                    assert(drop1[0] == ks[1]);
                    if index_family(ks[1]) {
                        assert(ks[0] is Field);
                        assert(!(ks[0] is Field));
                        assert(false);
                    }
                }
                lemma_parse_render_keys(s, j, drop1);
                assert(seq![ks[0]] + drop1 =~= ks);
                assert(spec_parse(s) == Some(PathModel::Keys(seq![ks[0]] + drop1)));
            } else {
                assert(s[1] == rk[0]);
                assert(rk[0] == render_key(ks[0])[0]);
                assert(render_key(ks[0])[0] == '.');
                assert(s[1] != '[');
                assert forall|q: int| 0 <= q < n - 1 implies s.subrange(1, n)[q] == rk[q] by {
                    assert(s.subrange(1, n)[q] == s[1 + q]);
                }
                assert(s.subrange(1, n) =~= rk);
                lemma_parse_render_keys(s, 1, ks);
            }
        },
    }
}

/// A step read from a bracket suffix is a well-formed step of the index
/// family, and reading it advances the position but not past the end.
proof fn lemma_parse_bracket_wf(s: Seq<char>, i: int)
    requires
        0 <= i < s.len(),
    ensures
        parse_bracket(s, i) matches Some((k, j)) ==> index_family(k) && wf_key(k) && i + 2 <= j
            <= s.len(),
{
    let jj = i + 1;
    lemma_digits_end(s, jj);
    let d1 = digits_end(s, jj);
    assert forall|x: int| jj <= x < d1 implies 0 <= digit_val(#[trigger] s[x]) by {
        assert(is_digit(s[x]));
    }
    lemma_digits_val_nonneg(s, jj, d1);
    if d1 < s.len() && s[d1] == ':' {
        lemma_digits_end(s, d1 + 1);
        let d2 = digits_end(s, d1 + 1);
        assert forall|x: int| d1 + 1 <= x < d2 implies 0 <= digit_val(#[trigger] s[x]) by {
            assert(is_digit(s[x]));
        }
        lemma_digits_val_nonneg(s, d1 + 1, d2);
    }
}

/// Steps read from dotted segments are well-formed, a bracket step among
/// them always follows a field, the first of them is never a bracket step,
/// and they are at least one when any text is left.
proof fn lemma_parse_keys_wf(s: Seq<char>, i: int)
    requires
        0 <= i <= s.len(),
    ensures
        parse_keys(s, i) matches Some(ks) ==> {
            &&& forall|q: int| 0 <= q < ks.len() ==> wf_key(#[trigger] ks[q])
            &&& forall|q: int|
                0 <= q < ks.len() && index_family(#[trigger] ks[q]) ==> q >= 1 && ks[q - 1]
                    is Field
            &&& (ks.len() > 0 ==> !index_family(ks[0]))
            &&& (i < s.len() ==> ks.len() > 0)
        },
    decreases s.len() - i,
{
    if i == s.len() {
    } else if s[i] == '.' {
        if i + 1 < s.len() && s[i + 1] == '*' {
            lemma_parse_keys_wf(s, i + 2);
            if parse_keys(s, i + 2) is Some {
                let tail = parse_keys(s, i + 2)->Some_0;
                let ks = seq![KeyModel::Wildcard] + tail;
                assert(ks[0] == KeyModel::Wildcard);
                assert forall|q: int| 0 <= q < ks.len() implies wf_key(#[trigger] ks[q]) by {
                    if q >= 1 {
                        assert(ks[q] == tail[q - 1]);
                    }
                }
                assert forall|q: int|
                    0 <= q < ks.len() && index_family(#[trigger] ks[q]) implies q >= 1 && ks[q - 1]
                    is Field by {
                    assert(q >= 1);
                    assert(ks[q] == tail[q - 1]);
                    assert(q - 1 >= 1);
                    assert(tail[q - 2] is Field);
                    assert(ks[q - 1] == tail[q - 2]);
                }
            }
        } else {
            let e = ident_end(s, i + 1);
            if i + 1 < e && e <= s.len() {
                assert(is_ident_start(s[i + 1]));
                lemma_ident_chars_end(s, i + 2);
                let name = s.subrange(i + 1, e);
                assert(name[0] == s[i + 1]);
                assert forall|q: int| 0 <= q < name.len() implies is_ident_char(
                    #[trigger] name[q],
                ) by {
                    assert(name[q] == s[i + 1 + q]);
                    if q == 0 {
                        assert(is_ident_start(s[i + 1]));
                    } else {
                        assert(is_ident_char(s[i + 1 + q]));
                    }
                }
                assert(valid_field_name(name));
                if e < s.len() && s[e] == '[' {
                    lemma_parse_bracket_wf(s, e);
                    match parse_bracket(s, e) {
                        Some((k1, j)) => {
                            if e < j <= s.len() {
                                lemma_parse_keys_wf(s, j);
                                if parse_keys(s, j) is Some {
                                    let tail = parse_keys(s, j)->Some_0;
                                    let ks = seq![KeyModel::Field(name), k1] + tail;
                                    assert(ks[0] == KeyModel::Field(name));
                                    assert(ks[1] == k1);
                                    assert forall|q: int| 0 <= q < ks.len() implies wf_key(
                                        #[trigger] ks[q],
                                    ) by {
                                        if q >= 2 {
                                            assert(ks[q] == tail[q - 2]);
                                        }
                                    }
                                    assert forall|q: int|
                                        0 <= q < ks.len() && index_family(
                                            #[trigger] ks[q],
                                        ) implies q >= 1 && ks[q - 1] is Field by {
                                        if q == 0 {
                                            assert(!index_family(ks[0]));
                                        } else if q == 1 {
                                            assert(ks[0] is Field);
                                        } else {
                                            assert(ks[q] == tail[q - 2]);
                                            if q == 2 {
                                                assert(!index_family(tail[0]));
                                            } else {
                                                assert(tail[q - 3] is Field);
                                                assert(ks[q - 1] == tail[q - 3]);
                                            }
                                        }
                                    }
                                }
                            }
                        },
                        None => {},
                    }
                } else {
                    lemma_parse_keys_wf(s, e);
                    if parse_keys(s, e) is Some {
                        let tail = parse_keys(s, e)->Some_0;
                        let ks = seq![KeyModel::Field(name)] + tail;
                        assert(ks[0] == KeyModel::Field(name));
                        assert forall|q: int| 0 <= q < ks.len() implies wf_key(
                            #[trigger] ks[q],
                        ) by {
                            if q >= 1 {
                                assert(ks[q] == tail[q - 1]);
                            }
                        }
                        assert forall|q: int|
                            0 <= q < ks.len() && index_family(#[trigger] ks[q]) implies q >= 1
                            && ks[q - 1] is Field by {
                            assert(q >= 1);
                            assert(ks[q] == tail[q - 1]);
                            if q == 1 {
                                assert(ks[0] is Field);
                            } else {
                                assert(tail[q - 2] is Field);
                                assert(ks[q - 1] == tail[q - 2]);
                            }
                        }
                    }
                }
            }
        }
    }
}

/// Every address the parser accepts can be expressed by the renderer, so
/// rendering it and parsing it again yields the same address.
pub proof fn lemma_parse_renderable(s: Seq<char>, m: PathModel)
    requires
        spec_parse(s) == Some(m),
    ensures
        renderable(m),
{
    if s.len() == 0 || s[0] != '$' {
    } else if s.len() == 1 {
    } else if s[1] == '[' {
        lemma_parse_bracket_wf(s, 1);
        match parse_bracket(s, 1) {
            Some((k0, j)) => {
                if 1 < j <= s.len() {
                    lemma_parse_keys_wf(s, j);
                    match parse_keys(s, j) {
                        Some(tail) => {
                            let ks = seq![k0] + tail;
                            assert(ks[0] == k0);
                            assert(ks.len() > 0);
                            assert forall|q: int| 0 <= q < ks.len() implies wf_key(
                                #[trigger] ks[q],
                            ) by {
                                if q >= 1 {
                                    assert(ks[q] == tail[q - 1]);
                                }
                            }
                            assert forall|q: int|
                                1 <= q < ks.len() && index_family(#[trigger] ks[q]) implies ks[q
                                - 1] is Field by {
                                assert(ks[q] == tail[q - 1]);
                                if q == 1 {
                                    assert(!index_family(tail[0]));
                                } else {
                                    assert(tail[q - 2] is Field);
                                    assert(ks[q - 1] == tail[q - 2]);
                                }
                            }
                            assert(renderable_keys(ks));
                        },
                        None => {},
                    }
                }
            },
            None => {},
        }
    } else {
        lemma_parse_keys_wf(s, 1);
        match parse_keys(s, 1) {
            Some(ks) => {
                assert(ks.len() > 0);
                assert(renderable_keys(ks));
            },
            None => {},
        }
    }
}

/// The decimal text of a machine integer.
pub(crate) fn dec_string(n: usize) -> (r: String)
    ensures
        r@ == dec_digits(n as int),
{
    let mut out: Vec<char> = Vec::new();
    push_dec(&mut out, n);
    proof {
        assert(out@ =~= dec_digits(n as int));
    }
    chars_to_string(&out)
}

} // verus!
