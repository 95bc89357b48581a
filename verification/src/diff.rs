//! The diff engine: walks two JSON values in lock-step, address in hand,
//! applying a configuration (comparison mode, numeric mode, exclusion lists)
//! and producing the located differences.
//!
//! The walk is driven by the first value (the "expected" side): its runtime
//! type selects the rule, and in the inclusive comparison mode the members of
//! the second value (the "actual" side) are the ones enumerated, so the
//! expected side may hold members beyond those of the actual side without any
//! difference being reported. Members are enumerated in stored order, and the
//! strict walks visit the actual side's members first, then the expected
//! side's members the actual side lacks, so the order of the reported
//! differences is deterministic.

use crate::path::{path_prefixes, spec_append, Key, KeyModel, Path, PathModel};
use crate::value::{
    entry_views_of_seq, entry_views_of_vec, lemma_entry_views_of_seq, lemma_views_of_seq,
    num_float_eq, num_strict_eq, views_of_seq, JsonValue, NumberModel, ValueModel,
};
use crate::misc::Indent;
use vstd::prelude::*;
use vstd::string::StringExecFns;

verus! {

broadcast use lemma_views_of_seq, lemma_entry_views_of_seq;

/// How two JSON values are compared.
#[derive(Clone, Copy, PartialEq, Eq, Structural)]
pub enum CompareMode {
    /// The expected value must be reproduced inside the actual value, which
    /// may hold additional members.
    Inclusive,
    /// The two values must match exactly, member for member.
    Strict,
}

/// How numbers are compared.
#[derive(Clone, Copy, PartialEq, Eq, Structural)]
pub enum NumericMode {
    /// Numbers of different representation classes are never equal.
    Strict,
    /// Numbers are compared by their value as double-precision floats, so an
    /// integer literal can equal a floating literal.
    AssumeFloat,
}

/// Configuration of one comparison.
pub struct Config {
    pub compare_mode: CompareMode,
    pub numeric_mode: NumericMode,
    /// Addresses whose covered locations are excluded from reporting.
    pub ignore_paths: Vec<Path>,
    /// Addresses whose arrays are compared as unordered collections.
    pub ignore_orders: Vec<Path>,
}

/// Mathematical model of a configuration.
pub struct ConfigModel {
    pub compare_mode: CompareMode,
    pub numeric_mode: NumericMode,
    pub ignore_paths: Seq<PathModel>,
    pub ignore_orders: Seq<PathModel>,
}

impl View for Config {
    type V = ConfigModel;

    open spec fn view(&self) -> ConfigModel {
        ConfigModel {
            compare_mode: self.compare_mode,
            numeric_mode: self.numeric_mode,
            ignore_paths: Seq::new(self.ignore_paths@.len(), |i: int| self.ignore_paths@[i]@),
            ignore_orders: Seq::new(self.ignore_orders@.len(), |i: int| self.ignore_orders@[i]@),
        }
    }
}

/// Whether a location is covered by some address of the exclusion list.
pub open spec fn spec_to_ignore(c: ConfigModel, p: PathModel) -> bool {
    exists|i: int|
        0 <= i < c.ignore_paths.len() && path_prefixes(#[trigger] c.ignore_paths[i], p)
}

/// Whether a location is registered for order-insensitive array comparison.
pub open spec fn spec_to_ignore_order(c: ConfigModel, p: PathModel) -> bool {
    exists|i: int| 0 <= i < c.ignore_orders.len() && #[trigger] c.ignore_orders[i] == p
}

/// One located mismatch: the address at which it occurred, the value on each
/// side (or nothing, for a member missing from that side), and the comparison
/// mode active when it was recorded.
pub struct Difference {
    pub path: Path,
    pub expected: Option<JsonValue>,
    pub actual: Option<JsonValue>,
    pub compare_mode: CompareMode,
}

/// Mathematical model of a difference.
pub struct DiffModel {
    pub path: PathModel,
    pub expected: Option<ValueModel>,
    pub actual: Option<ValueModel>,
    pub compare_mode: CompareMode,
}

impl View for Difference {
    type V = DiffModel;

    open spec fn view(&self) -> DiffModel {
        DiffModel {
            path: self.path@,
            expected: match &self.expected {
                Some(v) => Some(v@),
                None => None,
            },
            actual: match &self.actual {
                Some(v) => Some(v@),
                None => None,
            },
            compare_mode: self.compare_mode,
        }
    }
}

/// The models of a sequence of differences, in order.
pub open spec fn diff_views(ds: Seq<Difference>) -> Seq<DiffModel> {
    Seq::new(ds.len(), |i: int| ds[i]@)
}

/// What one emission point records: nothing when the location is covered by
/// the exclusion list, else exactly one difference.
pub open spec fn emit(
    c: ConfigModel,
    p: PathModel,
    e: Option<ValueModel>,
    a: Option<ValueModel>,
) -> Seq<DiffModel> {
    if spec_to_ignore(c, p) {
        Seq::empty()
    } else {
        seq![DiffModel { path: p, expected: e, actual: a, compare_mode: c.compare_mode }]
    }
}

/// Whether a number equals a value under the given numeric mode.
pub open spec fn num_eq_mode(n: NumberModel, a: ValueModel, nm: NumericMode) -> bool {
    match a {
        ValueModel::Num(m) => match nm {
            NumericMode::Strict => num_strict_eq(n, m),
            NumericMode::AssumeFloat => num_float_eq(n, m),
        },
        _ => false,
    }
}

/// Position of the first entry with the given key, or -1 when there is none.
pub open spec fn obj_index(entries: Seq<(Seq<char>, ValueModel)>, key: Seq<char>) -> int
    decreases entries.len(),
{
    if entries.len() == 0 {
        -1
    } else if entries[0].0 == key {
        0
    } else {
        let r = obj_index(entries.drop_first(), key);
        if r < 0 {
            -1
        } else {
            r + 1
        }
    }
}

/// The position returned for a key is the first entry holding that key, and
/// a negative position means no entry holds it.
pub proof fn lemma_obj_index(entries: Seq<(Seq<char>, ValueModel)>, key: Seq<char>)
    ensures
        obj_index(entries, key) == -1 || 0 <= obj_index(entries, key) < entries.len(),
        obj_index(entries, key) >= 0 ==> entries[obj_index(entries, key)].0 == key,
        obj_index(entries, key) >= 0 ==> forall|q: int|
            0 <= q < obj_index(entries, key) ==> (#[trigger] entries[q]).0 != key,
        obj_index(entries, key) == -1 ==> forall|q: int|
            0 <= q < entries.len() ==> (#[trigger] entries[q]).0 != key,
    decreases entries.len(),
{
    if entries.len() > 0 && entries[0].0 != key {
        lemma_obj_index(entries.drop_first(), key);
        assert forall|q: int| 1 <= q < entries.len() implies entries.drop_first()[q - 1]
            == entries[q] by {}
    }
}

/// The differences of the whole walk, starting from two values, a
/// configuration and the address of the values.
pub open spec fn diffs_of(e: ValueModel, a: ValueModel, c: ConfigModel, p: PathModel) -> Seq<
    DiffModel,
>
    decreases e, 2int, 0int,
{
    match e {
        ValueModel::Null => if a == ValueModel::Null {
            Seq::empty()
        } else {
            emit(c, p, Some(e), Some(a))
        },
        ValueModel::Bool(_) => if a == e {
            Seq::empty()
        } else {
            emit(c, p, Some(e), Some(a))
        },
        ValueModel::Str(_) => if a == e {
            Seq::empty()
        } else {
            emit(c, p, Some(e), Some(a))
        },
        ValueModel::Num(n) => if num_eq_mode(n, a, c.numeric_mode) {
            Seq::empty()
        } else {
            emit(c, p, Some(e), Some(a))
        },
        ValueModel::Array(exp) => if spec_to_ignore_order(c, p) {
            match a {
                ValueModel::Array(act) => {
                    let pre1 = if act.len() > exp.len() {
                        emit(c, p, Some(e), Some(a))
                    } else {
                        Seq::empty()
                    };
                    let pre2 = if act.len() != exp.len() && c.compare_mode
                        == CompareMode::Strict {
                        emit(c, p, Some(e), Some(a))
                    } else {
                        Seq::empty()
                    };
                    let walk = unordered_walk(exp, act, e, a, c, p, 0, Set::empty(), 0);
                    let post = if walk.1 != exp.len() {
                        emit(c, p, Some(e), Some(a))
                    } else {
                        Seq::empty()
                    };
                    pre1 + pre2 + walk.0 + post
                },
                _ => emit(c, p, Some(e), Some(a)),
            }
        } else {
            match a {
                ValueModel::Array(act) => match c.compare_mode {
                    CompareMode::Inclusive => arr_incl(exp, act, a, c, p, 0),
                    CompareMode::Strict => arr_strict(exp, act, c, p, 0),
                },
                _ => emit(c, p, Some(e), Some(a)),
            }
        },
        ValueModel::Object(exp) => match a {
            ValueModel::Object(act) => match c.compare_mode {
                CompareMode::Inclusive => obj_incl(exp, act, a, c, p, 0),
                CompareMode::Strict => obj_strict_act(exp, act, c, p, 0) + obj_strict_exp(
                    exp,
                    act,
                    c,
                    p,
                    0,
                ),
            },
            _ => emit(c, p, Some(e), Some(a)),
        },
    }
}

/// Inclusive array walk from position i: every position of the actual side
/// is enumerated; a position beyond the expected side's length records one
/// difference at the array's own address, carrying the whole actual array.
pub open spec fn arr_incl(
    exp: Seq<ValueModel>,
    act: Seq<ValueModel>,
    a_whole: ValueModel,
    c: ConfigModel,
    p: PathModel,
    i: int,
) -> Seq<DiffModel>
    decreases exp, 1int, act.len() - i,
    when 0 <= i
{
    if i >= act.len() {
        Seq::empty()
    } else {
        let here = if i < exp.len() {
            diffs_of(exp[i], act[i], c, spec_append(p, KeyModel::Idx(i)))
        } else {
            emit(c, p, None, Some(a_whole))
        };
        here + arr_incl(exp, act, a_whole, c, p, i + 1)
    }
}

/// Strict array walk from position i, over the union of the two sides'
/// positions in increasing order: positions on both sides are compared, a
/// position on only one side records one difference at the array's own
/// address, carrying the element of the side that has it.
pub open spec fn arr_strict(
    exp: Seq<ValueModel>,
    act: Seq<ValueModel>,
    c: ConfigModel,
    p: PathModel,
    i: int,
) -> Seq<DiffModel>
    decreases exp, 1int, (if exp.len() >= act.len() { exp.len() } else { act.len() }) - i,
    when 0 <= i
{
    let n = if exp.len() >= act.len() {
        exp.len() as int
    } else {
        act.len() as int
    };
    if i >= n {
        Seq::empty()
    } else {
        let here = if i < exp.len() && i < act.len() {
            diffs_of(exp[i], act[i], c, spec_append(p, KeyModel::Idx(i)))
        } else if i < exp.len() {
            emit(c, p, Some(exp[i]), None)
        } else {
            emit(c, p, None, Some(act[i]))
        };
        here + arr_strict(exp, act, c, p, i + 1)
    }
}

/// First not-yet-matched position of the expected side, at or after j, whose
/// element compares without difference to the given actual element.
pub open spec fn first_match(
    exp: Seq<ValueModel>,
    a_i: ValueModel,
    c: ConfigModel,
    p_i: PathModel,
    visited: Set<int>,
    j: int,
) -> Option<int>
    decreases exp, 0int, exp.len() - j,
    when 0 <= j
{
    if j >= exp.len() {
        None
    } else if !visited.contains(j) && diffs_of(exp[j], a_i, c, p_i).len() == 0 {
        Some(j)
    } else {
        first_match(exp, a_i, c, p_i, visited, j + 1)
    }
}

/// Unordered array walk from position i of the actual side: each actual
/// element greedily takes the first not-yet-matched expected element that
/// compares without difference; an element with no match records one
/// difference at the array's own address, carrying both whole arrays.
/// Returns the differences and the number of matched elements.
///
/// The matching is deliberately first-fit with no backtracking: it is not a
/// minimum-cost pairing, so an ambiguous input can report an unmatched
/// element although a different pairing would have matched every element.
/// This approximation is part of the walk's stated behavior.
pub open spec fn unordered_walk(
    exp: Seq<ValueModel>,
    act: Seq<ValueModel>,
    e_whole: ValueModel,
    a_whole: ValueModel,
    c: ConfigModel,
    p: PathModel,
    i: int,
    visited: Set<int>,
    matched: int,
) -> (Seq<DiffModel>, int)
    decreases exp, 1int, act.len() - i,
    when 0 <= i
{
    if i >= act.len() {
        (Seq::empty(), matched)
    } else {
        let p_i = spec_append(p, KeyModel::Idx(i));
        match first_match(exp, act[i], c, p_i, visited, 0) {
            Some(j) => unordered_walk(
                exp,
                act,
                e_whole,
                a_whole,
                c,
                p,
                i + 1,
                visited.insert(j),
                matched + 1,
            ),
            None => {
                let rest = unordered_walk(exp, act, e_whole, a_whole, c, p, i + 1, visited, matched);
                (emit(c, p, Some(e_whole), Some(a_whole)) + rest.0, rest.1)
            },
        }
    }
}

/// Inclusive object walk from entry i of the actual side: every field of the
/// actual side is enumerated; a field absent from the expected side records
/// one difference at the object's own address, carrying the whole actual
/// object.
pub open spec fn obj_incl(
    exp: Seq<(Seq<char>, ValueModel)>,
    act: Seq<(Seq<char>, ValueModel)>,
    a_whole: ValueModel,
    c: ConfigModel,
    p: PathModel,
    i: int,
) -> Seq<DiffModel>
    decreases exp, 1int, act.len() - i,
    when 0 <= i
{
    if i >= act.len() {
        Seq::empty()
    } else {
        let key = act[i].0;
        let idx = obj_index(exp, key);
        let here = if 0 <= idx < exp.len() {
            diffs_of(exp[idx].1, act[i].1, c, spec_append(p, KeyModel::Field(key)))
        } else {
            emit(c, p, None, Some(a_whole))
        };
        here + obj_incl(exp, act, a_whole, c, p, i + 1)
    }
}

/// Strict object walk, actual pass, from entry i: a field on both sides is
/// compared, a field of the actual side only records one difference at the
/// object's own address, carrying that field's value.
pub open spec fn obj_strict_act(
    exp: Seq<(Seq<char>, ValueModel)>,
    act: Seq<(Seq<char>, ValueModel)>,
    c: ConfigModel,
    p: PathModel,
    i: int,
) -> Seq<DiffModel>
    decreases exp, 1int, act.len() - i,
    when 0 <= i
{
    if i >= act.len() {
        Seq::empty()
    } else {
        let key = act[i].0;
        let idx = obj_index(exp, key);
        let here = if 0 <= idx < exp.len() {
            diffs_of(exp[idx].1, act[i].1, c, spec_append(p, KeyModel::Field(key)))
        } else {
            emit(c, p, None, Some(act[i].1))
        };
        here + obj_strict_act(exp, act, c, p, i + 1)
    }
}

/// Strict object walk, expected pass, from entry i: a field of the expected
/// side that the actual side lacks records one difference at the object's
/// own address, carrying that field's value.
pub open spec fn obj_strict_exp(
    exp: Seq<(Seq<char>, ValueModel)>,
    act: Seq<(Seq<char>, ValueModel)>,
    c: ConfigModel,
    p: PathModel,
    i: int,
) -> Seq<DiffModel>
    decreases exp.len() - i,
    when 0 <= i
{
    if i >= exp.len() {
        Seq::empty()
    } else {
        let here = if obj_index(act, exp[i].0) >= 0 {
            Seq::empty()
        } else {
            emit(c, p, Some(exp[i].1), None)
        };
        here + obj_strict_exp(exp, act, c, p, i + 1)
    }
}

impl Config {
    /// A new configuration with the given comparison mode, the strict
    /// numeric mode, and empty exclusion lists.
    pub fn new(compare_mode: CompareMode) -> (r: Config)
        ensures
            r@ == (ConfigModel {
                compare_mode,
                numeric_mode: NumericMode::Strict,
                ignore_paths: Seq::<PathModel>::empty(),
                ignore_orders: Seq::<PathModel>::empty(),
            }),
    {
        let r = Config {
            compare_mode,
            numeric_mode: NumericMode::Strict,
            ignore_paths: Vec::new(),
            ignore_orders: Vec::new(),
        };
        proof {
            assert(r@.ignore_paths =~= Seq::<PathModel>::empty());
            assert(r@.ignore_orders =~= Seq::<PathModel>::empty());
        }
        r
    }

    /// The same configuration with the given numeric mode.
    pub fn numeric_mode(self, numeric_mode: NumericMode) -> (r: Config)
        ensures
            r@ == (ConfigModel { numeric_mode, ..self@ }),
    {
        let r = Config { numeric_mode, ..self };
        proof {
            assert(r@.ignore_paths =~= self@.ignore_paths);
            assert(r@.ignore_orders =~= self@.ignore_orders);
        }
        r
    }

    /// The same configuration with the given comparison mode.
    pub fn compare_mode(self, compare_mode: CompareMode) -> (r: Config)
        ensures
            r@ == (ConfigModel { compare_mode, ..self@ }),
    {
        let r = Config { compare_mode, ..self };
        proof {
            assert(r@.ignore_paths =~= self@.ignore_paths);
            assert(r@.ignore_orders =~= self@.ignore_orders);
        }
        r
    }

    /// The same configuration with one more address on the exclusion list.
    pub fn ignore_path(self, path: Path) -> (r: Config)
        ensures
            r@ == (ConfigModel { ignore_paths: self@.ignore_paths.push(path@), ..self@ }),
    {
        let ghost pv = path@;
        let ghost before = self@;
        let mut ignore_paths = self.ignore_paths;
        ignore_paths.push(path);
        let r = Config { ignore_paths, ..self };
        proof {
            assert(r@.ignore_paths =~= before.ignore_paths.push(pv));
            assert(r@.ignore_orders =~= before.ignore_orders);
        }
        r
    }

    /// The same configuration with one more address registered for
    /// order-insensitive array comparison.
    pub fn ignore_order(self, path: Path) -> (r: Config)
        ensures
            r@ == (ConfigModel { ignore_orders: self@.ignore_orders.push(path@), ..self@ }),
    {
        let ghost pv = path@;
        let ghost before = self@;
        let mut ignore_orders = self.ignore_orders;
        ignore_orders.push(path);
        let r = Config { ignore_orders, ..self };
        proof {
            assert(r@.ignore_orders =~= before.ignore_orders.push(pv));
            assert(r@.ignore_paths =~= before.ignore_paths);
        }
        r
    }

    /// Whether differences at the given address are excluded from reporting.
    pub fn to_ignore(&self, path: &Path) -> (r: bool)
        ensures
            r == spec_to_ignore(self@, path@),
    {
        let n = self.ignore_paths.len();
        for k in 0..n
            invariant
                n == self.ignore_paths@.len(),
                forall|i: int| 0 <= i < k ==> !path_prefixes(#[trigger] self.ignore_paths@[i]@, path@),
            decreases n - k,
        {
            if self.ignore_paths[k].prefixes(path) {
                proof {
                    assert(self@.ignore_paths[k as int] == self.ignore_paths@[k as int]@);
                }
                return true;
            }
        }
        proof {
            assert forall|i: int| 0 <= i < self@.ignore_paths.len() implies !path_prefixes(
                #[trigger] self@.ignore_paths[i],
                path@,
            ) by {
                assert(self@.ignore_paths[i] == self.ignore_paths@[i]@);
            }
        }
        false
    }

    /// Whether the given address is registered for order-insensitive array
    /// comparison.
    pub fn to_ignore_order(&self, path: &Path) -> (r: bool)
        ensures
            r == spec_to_ignore_order(self@, path@),
    {
        let n = self.ignore_orders.len();
        for k in 0..n
            invariant
                n == self.ignore_orders@.len(),
                forall|i: int| 0 <= i < k ==> (#[trigger] self.ignore_orders@[i]@) != path@,
            decreases n - k,
        {
            if self.ignore_orders[k].path_eq(path) {
                proof {
                    assert(self@.ignore_orders[k as int] == self.ignore_orders@[k as int]@);
                }
                return true;
            }
        }
        proof {
            assert forall|i: int| 0 <= i < self@.ignore_orders.len() implies (
            #[trigger] self@.ignore_orders[i]) != path@ by {
                assert(self@.ignore_orders[i] == self.ignore_orders@[i]@);
            }
        }
        false
    }
}

/// The model of the set of positions marked as visited.
pub open spec fn visited_set(marks: Seq<bool>) -> Set<int> {
    Set::new(|q: int| 0 <= q < marks.len() && marks[q])
}

/// Records one difference, unless the address is excluded from reporting.
fn record(
    acc: &mut Vec<Difference>,
    config: &Config,
    path: &Path,
    expected: Option<&JsonValue>,
    actual: Option<&JsonValue>,
)
    ensures
        diff_views(final(acc)@) == diff_views(old(acc)@) + emit(
            config@,
            path@,
            match expected {
                Some(v) => Some(v@),
                None => None,
            },
            match actual {
                Some(v) => Some(v@),
                None => None,
            },
        ),
{
    let ghost before = acc@;
    let ghost e_m: Option<ValueModel> = match expected {
        Some(v) => Some(v@),
        None => None,
    };
    let ghost a_m: Option<ValueModel> = match actual {
        Some(v) => Some(v@),
        None => None,
    };
    if config.to_ignore(path) {
        proof {
            assert(diff_views(acc@) =~= diff_views(before) + emit(config@, path@, e_m, a_m));
        }
        return ;
    }
    let exp_owned = match expected {
        Some(v) => Some(v.clone()),
        None => None,
    };
    let act_owned = match actual {
        Some(v) => Some(v.clone()),
        None => None,
    };
    let d = Difference {
        path: path.clone(),
        expected: exp_owned,
        actual: act_owned,
        compare_mode: config.compare_mode,
    };
    acc.push(d);
    proof {
        assert(diff_views(acc@) =~= diff_views(before) + emit(config@, path@, e_m, a_m));
    }
}

/// Looks up the position of the first entry with the given field name.
#[verifier::loop_isolation(false)]
pub(crate) fn obj_find(entries: &Vec<(String, JsonValue)>, key: &String) -> (r: Option<usize>)
    ensures
        match r {
            Some(idx) => idx as int == obj_index(entry_views_of_vec(*entries), key@) && idx
                < entries@.len(),
            None => obj_index(entry_views_of_vec(*entries), key@) == -1,
        },
{
    proof {
        lemma_obj_index(entry_views_of_vec(*entries), key@);
        lemma_entry_views_of_seq(entries@);
        assert(entry_views_of_vec(*entries) == entry_views_of_seq(entries@));
    }
    let ghost m = entry_views_of_vec(*entries);
    let n = entries.len();
    for k in 0..n
        invariant
            n == entries@.len(),
            m == entry_views_of_vec(*entries),
            forall|q: int| 0 <= q < k ==> (#[trigger] m[q]).0 != key@,
        decreases n - k,
    {
        if entries[k].0.eq(key) {
            proof {
                assert(m[k as int].0 == key@);
                let idx = obj_index(m, key@);
                if idx == -1 {
                    assert(m[k as int].0 != key@);
                } else if idx < k {
                    assert(m[idx].0 == key@);
                    assert(m[idx].0 != key@);
                } else if idx > k {
                    assert(m[k as int].0 != key@);
                }
            }
            return Some(k);
        }
        proof {
            assert(m[k as int].0 == entries@[k as int].0@);
        }
    }
    proof {
        let idx = obj_index(m, key@);
        if idx >= 0 {
            assert(m[idx].0 == key@);
            assert(m[idx].0 != key@);
        }
    }
    None
}

/// Whether two values compare with any difference: the boolean result mode
/// of the walk, deciding as soon as one difference would be recorded.
#[verifier::loop_isolation(false)]
#[verifier::rlimit(100)]
pub fn any_diff(expected: &JsonValue, actual: &JsonValue, config: &Config, path: &Path) -> (r:
    bool)
    ensures
        r == (diffs_of(expected@, actual@, config@, path@).len() != 0),
    decreases expected, 1int,
{
    let ghost e_m = expected@;
    let ghost a_m = actual@;
    let ghost c_m = config@;
    let ghost p_m = path@;
    match expected {
        JsonValue::Null => match actual {
            JsonValue::Null => false,
            _ => !config.to_ignore(path),
        },
        JsonValue::Bool(b) => match actual {
            JsonValue::Bool(b2) => if *b2 == *b {
                false
            } else {
                !config.to_ignore(path)
            },
            _ => !config.to_ignore(path),
        },
        JsonValue::Str(s) => match actual {
            JsonValue::Str(s2) => if s.eq(s2) {
                false
            } else {
                !config.to_ignore(path)
            },
            _ => !config.to_ignore(path),
        },
        JsonValue::Num(n) => match actual {
            JsonValue::Num(m) => {
                let equal = match config.numeric_mode {
                    NumericMode::Strict => n.strict_eq(m),
                    NumericMode::AssumeFloat => n.float_eq(m),
                };
                if equal {
                    false
                } else {
                    !config.to_ignore(path)
                }
            },
            _ => !config.to_ignore(path),
        },
        JsonValue::Array(exp_items) => {
            let ghost exp = views_of_seq(exp_items@);
            if config.to_ignore_order(path) {
                match actual {
                    JsonValue::Array(act_items) => any_diff_unordered(
                        exp_items,
                        act_items,
                        expected,
                        actual,
                        config,
                        path,
                    ),
                    _ => !config.to_ignore(path),
                }
            } else {
                match actual {
                    JsonValue::Array(act_items) => {
                        let ghost act = views_of_seq(act_items@);
                        match config.compare_mode {
                            CompareMode::Inclusive => {
                                let na = act_items.len();
                                for i in 0..na
                                    invariant
                                        na == act_items@.len(),
                                        exp == views_of_seq(exp_items@),
                                        act == views_of_seq(act_items@),
                                        e_m == expected@,
                                        a_m == actual@,
                                        c_m == config@,
                                        p_m == path@,
                                        diffs_of(e_m, a_m, c_m, p_m) == arr_incl(
                                            exp,
                                            act,
                                            a_m,
                                            c_m,
                                            p_m,
                                            i as int,
                                        ),
                                    decreases na - i,
                                {
                                    let ghost d_i = if (i as int) < exp.len() {
                                        diffs_of(
                                            exp[i as int],
                                            act[i as int],
                                            c_m,
                                            spec_append(p_m, KeyModel::Idx(i as int)),
                                        )
                                    } else {
                                        emit(c_m, p_m, None, Some(a_m))
                                    };
                                    proof {
                                        assert(arr_incl(exp, act, a_m, c_m, p_m, i as int) == d_i
                                            + arr_incl(exp, act, a_m, c_m, p_m, i + 1));
                                    }
                                    let p_i = path.append(Key::Idx(i));
                                    if i < exp_items.len() {
                                        proof {
                                            assert(exp[i as int] == exp_items@[i as int]@);
                                            assert(act[i as int] == act_items@[i as int]@);
                                            assert(decreases_to!(*expected => *exp_items));
                                            assert(decreases_to!(*exp_items => exp_items@));
                                            assert(decreases_to!(exp_items@ => exp_items@[i as int]));
                                        }
                                        if any_diff(&exp_items[i], &act_items[i], config, &p_i) {
                                            proof {
                                                assert(d_i.len() != 0);
                                            }
                                            return true;
                                        }
                                    } else {
                                        if !config.to_ignore(path) {
                                            proof {
                                                assert(d_i.len() != 0);
                                            }
                                            return true;
                                        }
                                    }
                                    proof {
                                        assert(d_i.len() == 0);
                                        assert(d_i =~= Seq::<DiffModel>::empty());
                                        assert(arr_incl(exp, act, a_m, c_m, p_m, i as int)
                                            =~= arr_incl(exp, act, a_m, c_m, p_m, i + 1));
                                    }
                                }
                                false
                            },
                            CompareMode::Strict => {
                                let ne = exp_items.len();
                                let na = act_items.len();
                                let n = if ne >= na {
                                    ne
                                } else {
                                    na
                                };
                                for i in 0..n
                                    invariant
                                        ne == exp_items@.len(),
                                        na == act_items@.len(),
                                        n == if ne >= na {
                                            ne
                                        } else {
                                            na
                                        },
                                        exp == views_of_seq(exp_items@),
                                        act == views_of_seq(act_items@),
                                        e_m == expected@,
                                        a_m == actual@,
                                        c_m == config@,
                                        p_m == path@,
                                        diffs_of(e_m, a_m, c_m, p_m) == arr_strict(
                                            exp,
                                            act,
                                            c_m,
                                            p_m,
                                            i as int,
                                        ),
                                    decreases n - i,
                                {
                                    let ghost d_i = if (i as int) < exp.len() && (i as int)
                                        < act.len() {
                                        diffs_of(
                                            exp[i as int],
                                            act[i as int],
                                            c_m,
                                            spec_append(p_m, KeyModel::Idx(i as int)),
                                        )
                                    } else if (i as int) < exp.len() {
                                        emit(c_m, p_m, Some(exp[i as int]), None)
                                    } else {
                                        emit(c_m, p_m, None, Some(act[i as int]))
                                    };
                                    proof {
                                        assert(arr_strict(exp, act, c_m, p_m, i as int) == d_i
                                            + arr_strict(exp, act, c_m, p_m, i + 1));
                                    }
                                    let p_i = path.append(Key::Idx(i));
                                    if i < ne && i < na {
                                        proof {
                                            assert(exp[i as int] == exp_items@[i as int]@);
                                            assert(act[i as int] == act_items@[i as int]@);
                                            assert(decreases_to!(*expected => *exp_items));
                                            assert(decreases_to!(*exp_items => exp_items@));
                                            assert(decreases_to!(exp_items@ => exp_items@[i as int]));
                                        }
                                        if any_diff(&exp_items[i], &act_items[i], config, &p_i) {
                                            proof {
                                                assert(d_i.len() != 0);
                                            }
                                            return true;
                                        }
                                    } else {
                                        if !config.to_ignore(path) {
                                            proof {
                                                assert(d_i.len() != 0);
                                            }
                                            return true;
                                        }
                                    }
                                    proof {
                                        assert(d_i.len() == 0);
                                        assert(d_i =~= Seq::<DiffModel>::empty());
                                        assert(arr_strict(exp, act, c_m, p_m, i as int)
                                            =~= arr_strict(exp, act, c_m, p_m, i + 1));
                                    }
                                }
                                false
                            },
                        }
                    },
                    _ => !config.to_ignore(path),
                }
            }
        },
        JsonValue::Object(exp_entries) => {
            let ghost exp = entry_views_of_seq(exp_entries@);
            match actual {
                JsonValue::Object(act_entries) => {
                    let ghost act = entry_views_of_seq(act_entries@);
                    let na = act_entries.len();
                    match config.compare_mode {
                        CompareMode::Inclusive => {
                            for i in 0..na
                                invariant
                                    na == act_entries@.len(),
                                    exp == entry_views_of_seq(exp_entries@),
                                    act == entry_views_of_seq(act_entries@),
                                    e_m == expected@,
                                    a_m == actual@,
                                    c_m == config@,
                                    p_m == path@,
                                    diffs_of(e_m, a_m, c_m, p_m) == obj_incl(
                                        exp,
                                        act,
                                        a_m,
                                        c_m,
                                        p_m,
                                        i as int,
                                    ),
                                decreases na - i,
                            {
                                let ghost key_m = act[i as int].0;
                                let ghost idx_m = obj_index(exp, key_m);
                                let ghost d_i = if 0 <= idx_m < exp.len() {
                                    diffs_of(
                                        exp[idx_m].1,
                                        act[i as int].1,
                                        c_m,
                                        spec_append(p_m, KeyModel::Field(key_m)),
                                    )
                                } else {
                                    emit(c_m, p_m, None, Some(a_m))
                                };
                                proof {
                                    lemma_obj_index(exp, key_m);
                                    assert(act[i as int].0 == act_entries@[i as int].0@);
                                    assert(act[i as int].1 == act_entries@[i as int].1@);
                                    assert(obj_incl(exp, act, a_m, c_m, p_m, i as int) == d_i
                                        + obj_incl(exp, act, a_m, c_m, p_m, i + 1));
                                }
                                let p_k = path.append(Key::Field(act_entries[i].0.clone()));
                                match obj_find(exp_entries, &act_entries[i].0) {
                                    Some(idx) => {
                                        proof {
                                            assert(idx as int == idx_m);
                                            assert(exp[idx as int].1
                                                == exp_entries@[idx as int].1@);
                                            assert(decreases_to!(*expected => *exp_entries));
                                            assert(decreases_to!(*exp_entries => exp_entries@));
                                            assert(decreases_to!(exp_entries@ => exp_entries@[idx as int]));
                                            assert(decreases_to!(exp_entries@[idx as int] => exp_entries@[idx as int].1));
                                        }
                                        if any_diff(
                                            &exp_entries[idx].1,
                                            &act_entries[i].1,
                                            config,
                                            &p_k,
                                        ) {
                                            proof {
                                                assert(d_i.len() != 0);
                                            }
                                            return true;
                                        }
                                    },
                                    None => {
                                        if !config.to_ignore(path) {
                                            proof {
                                                assert(d_i.len() != 0);
                                            }
                                            return true;
                                        }
                                    },
                                }
                                proof {
                                    assert(d_i.len() == 0);
                                    assert(d_i =~= Seq::<DiffModel>::empty());
                                    assert(obj_incl(exp, act, a_m, c_m, p_m, i as int) =~= obj_incl(
                                        exp,
                                        act,
                                        a_m,
                                        c_m,
                                        p_m,
                                        i + 1,
                                    ));
                                }
                            }
                            false
                        },
                        CompareMode::Strict => {
                            for i in 0..na
                                invariant
                                    na == act_entries@.len(),
                                    exp == entry_views_of_seq(exp_entries@),
                                    act == entry_views_of_seq(act_entries@),
                                    e_m == expected@,
                                    a_m == actual@,
                                    c_m == config@,
                                    p_m == path@,
                                    diffs_of(e_m, a_m, c_m, p_m) == obj_strict_act(
                                        exp,
                                        act,
                                        c_m,
                                        p_m,
                                        i as int,
                                    ) + obj_strict_exp(exp, act, c_m, p_m, 0),
                                decreases na - i,
                            {
                                let ghost key_m = act[i as int].0;
                                let ghost idx_m = obj_index(exp, key_m);
                                let ghost d_i = if 0 <= idx_m < exp.len() {
                                    diffs_of(
                                        exp[idx_m].1,
                                        act[i as int].1,
                                        c_m,
                                        spec_append(p_m, KeyModel::Field(key_m)),
                                    )
                                } else {
                                    emit(c_m, p_m, None, Some(act[i as int].1))
                                };
                                proof {
                                    lemma_obj_index(exp, key_m);
                                    assert(act[i as int].0 == act_entries@[i as int].0@);
                                    assert(act[i as int].1 == act_entries@[i as int].1@);
                                    assert(obj_strict_act(exp, act, c_m, p_m, i as int) == d_i
                                        + obj_strict_act(exp, act, c_m, p_m, i + 1));
                                }
                                let p_k = path.append(Key::Field(act_entries[i].0.clone()));
                                match obj_find(exp_entries, &act_entries[i].0) {
                                    Some(idx) => {
                                        proof {
                                            assert(idx as int == idx_m);
                                            assert(exp[idx as int].1
                                                == exp_entries@[idx as int].1@);
                                            assert(decreases_to!(*expected => *exp_entries));
                                            assert(decreases_to!(*exp_entries => exp_entries@));
                                            assert(decreases_to!(exp_entries@ => exp_entries@[idx as int]));
                                            assert(decreases_to!(exp_entries@[idx as int] => exp_entries@[idx as int].1));
                                        }
                                        if any_diff(
                                            &exp_entries[idx].1,
                                            &act_entries[i].1,
                                            config,
                                            &p_k,
                                        ) {
                                            proof {
                                                assert(d_i.len() != 0);
                                                assert(diffs_of(e_m, a_m, c_m, p_m).len() != 0);
                                            }
                                            return true;
                                        }
                                    },
                                    None => {
                                        if !config.to_ignore(path) {
                                            proof {
                                                assert(d_i.len() != 0);
                                                assert(diffs_of(e_m, a_m, c_m, p_m).len() != 0);
                                            }
                                            return true;
                                        }
                                    },
                                }
                                proof {
                                    assert(d_i.len() == 0);
                                    assert(d_i =~= Seq::<DiffModel>::empty());
                                    assert(obj_strict_act(exp, act, c_m, p_m, i as int)
                                        =~= obj_strict_act(exp, act, c_m, p_m, i + 1));
                                }
                            }
                            let ne = exp_entries.len();
                            for i in 0..ne
                                invariant
                                    ne == exp_entries@.len(),
                                    exp == entry_views_of_seq(exp_entries@),
                                    act == entry_views_of_seq(act_entries@),
                                    e_m == expected@,
                                    a_m == actual@,
                                    c_m == config@,
                                    p_m == path@,
                                    diffs_of(e_m, a_m, c_m, p_m) == obj_strict_exp(
                                        exp,
                                        act,
                                        c_m,
                                        p_m,
                                        i as int,
                                    ),
                                decreases ne - i,
                            {
                                let ghost d_i = if obj_index(act, exp[i as int].0) >= 0 {
                                    Seq::<DiffModel>::empty()
                                } else {
                                    emit(c_m, p_m, Some(exp[i as int].1), None)
                                };
                                proof {
                                    lemma_obj_index(act, exp[i as int].0);
                                    assert(exp[i as int].0 == exp_entries@[i as int].0@);
                                    assert(obj_strict_exp(exp, act, c_m, p_m, i as int) == d_i
                                        + obj_strict_exp(exp, act, c_m, p_m, i + 1));
                                }
                                match obj_find(act_entries, &exp_entries[i].0) {
                                    Some(_) => {},
                                    None => {
                                        if !config.to_ignore(path) {
                                            proof {
                                                assert(d_i.len() != 0);
                                            }
                                            return true;
                                        }
                                    },
                                }
                                proof {
                                    assert(d_i.len() == 0);
                                    assert(d_i =~= Seq::<DiffModel>::empty());
                                    assert(obj_strict_exp(exp, act, c_m, p_m, i as int)
                                        =~= obj_strict_exp(exp, act, c_m, p_m, i + 1));
                                }
                            }
                            false
                        },
                    }
                },
                _ => !config.to_ignore(path),
            }
        },
    }
}

/// Finds the first not-yet-matched position of the expected side whose
/// element compares without difference to the given actual element.
#[verifier::loop_isolation(false)]
fn find_match(
    exp_items: &Vec<JsonValue>,
    act_elem: &JsonValue,
    config: &Config,
    p_i: &Path,
    marks: &Vec<bool>,
) -> (r: Option<usize>)
    requires
        marks@.len() == exp_items@.len(),
    ensures
        first_match(
            views_of_seq(exp_items@),
            act_elem@,
            config@,
            p_i@,
            visited_set(marks@),
            0,
        ) == match r {
            Some(j) => Some(j as int),
            None => None::<int>,
        },
        r matches Some(j) ==> j < exp_items@.len(),
    decreases exp_items, 0int,
{
    let ghost exp = views_of_seq(exp_items@);
    let ghost vset = visited_set(marks@);
    let n = exp_items.len();
    for j in 0..n
        invariant
            n == exp_items@.len(),
            marks@.len() == exp_items@.len(),
            exp == views_of_seq(exp_items@),
            vset == visited_set(marks@),
            first_match(exp, act_elem@, config@, p_i@, vset, 0) == first_match(
                exp,
                act_elem@,
                config@,
                p_i@,
                vset,
                j as int,
            ),
        decreases n - j,
    {
        proof {
            assert(exp[j as int] == exp_items@[j as int]@);
        }
        if !marks[j] {
            if !any_diff(&exp_items[j], act_elem, config, p_i) {
                proof {
                    assert(!vset.contains(j as int));
                    assert(first_match(exp, act_elem@, config@, p_i@, vset, j as int) == Some(
                        j as int,
                    ));
                }
                return Some(j);
            }
        }
        proof {
            if marks@[j as int] {
                assert(vset.contains(j as int));
            }
            assert(first_match(exp, act_elem@, config@, p_i@, vset, j as int) == first_match(
                exp,
                act_elem@,
                config@,
                p_i@,
                vset,
                j + 1,
            ));
        }
    }
    None
}

/// The boolean result mode of the unordered array walk: whether the walk of
/// two arrays compared as unordered collections records any difference.
#[verifier::loop_isolation(false)]
fn any_diff_unordered(
    exp_items: &Vec<JsonValue>,
    act_items: &Vec<JsonValue>,
    expected: &JsonValue,
    actual: &JsonValue,
    config: &Config,
    path: &Path,
) -> (r: bool)
    requires
        expected@ == ValueModel::Array(views_of_seq(exp_items@)),
        actual@ == ValueModel::Array(views_of_seq(act_items@)),
        spec_to_ignore_order(config@, path@),
    ensures
        r == (diffs_of(expected@, actual@, config@, path@).len() != 0),
    decreases exp_items, 1int,
{
    let ghost exp = views_of_seq(exp_items@);
    let ghost act = views_of_seq(act_items@);
    let ghost e_m = expected@;
    let ghost a_m = actual@;
    let ghost c_m = config@;
    let ghost p_m = path@;
    let ghost pre1 = if act.len() > exp.len() {
        emit(c_m, p_m, Some(e_m), Some(a_m))
    } else {
        Seq::<DiffModel>::empty()
    };
    let ghost pre2 = if act.len() != exp.len() && c_m.compare_mode == CompareMode::Strict {
        emit(c_m, p_m, Some(e_m), Some(a_m))
    } else {
        Seq::<DiffModel>::empty()
    };
    let ignored = config.to_ignore(path);
    if act_items.len() > exp_items.len() && !ignored {
        proof {
            assert(pre1.len() != 0);
            assert(diffs_of(e_m, a_m, c_m, p_m).len() >= pre1.len());
        }
        return true;
    }
    if act_items.len() != exp_items.len() && !ignored {
        match config.compare_mode {
            CompareMode::Strict => {
                proof {
                    assert(pre2.len() != 0);
                    assert(diffs_of(e_m, a_m, c_m, p_m).len() >= pre1.len() + pre2.len());
                }
                return true;
            },
            CompareMode::Inclusive => {},
        }
    }
    proof {
        assert(pre1 =~= Seq::<DiffModel>::empty());
        assert(pre2 =~= Seq::<DiffModel>::empty());
    }
    let mut marks: Vec<bool> = Vec::new();
    let ne = exp_items.len();
    for q in 0..ne
        invariant
            marks@.len() == q,
            forall|x: int| 0 <= x < q ==> !marks@[x],
        decreases ne - q,
    {
        marks.push(false);
    }
    let mut matched: usize = 0;
    let na = act_items.len();
    proof {
        assert(visited_set(marks@) =~= Set::<int>::empty());
    }
    for i in 0..na
        invariant
            na == act_items@.len(),
            marks@.len() == exp_items@.len(),
            matched <= i,
            exp == views_of_seq(exp_items@),
            act == views_of_seq(act_items@),
            e_m == expected@,
            a_m == actual@,
            c_m == config@,
            p_m == path@,
            ignored == spec_to_ignore(c_m, p_m),
            unordered_walk(exp, act, e_m, a_m, c_m, p_m, 0, Set::empty(), 0).0 == unordered_walk(
                exp,
                act,
                e_m,
                a_m,
                c_m,
                p_m,
                i as int,
                visited_set(marks@),
                matched as int,
            ).0,
            unordered_walk(exp, act, e_m, a_m, c_m, p_m, 0, Set::empty(), 0).1 == unordered_walk(
                exp,
                act,
                e_m,
                a_m,
                c_m,
                p_m,
                i as int,
                visited_set(marks@),
                matched as int,
            ).1,
        decreases na - i,
    {
        let ghost vset = visited_set(marks@);
        let p_i = path.append(Key::Idx(i));
        proof {
            assert(act[i as int] == act_items@[i as int]@);
        }
        match find_match(exp_items, &act_items[i], config, &p_i, &marks) {
            Some(j) => {
                marks.set(j, true);
                matched = matched + 1;
                proof {
                    assert(visited_set(marks@) =~= vset.insert(j as int));
                }
            },
            None => {
                proof {
                    assert(unordered_walk(exp, act, e_m, a_m, c_m, p_m, i as int, vset,
                        matched as int).0 == emit(c_m, p_m, Some(e_m), Some(a_m)) + unordered_walk(
                        exp, act, e_m, a_m, c_m, p_m, i + 1, vset, matched as int).0);
                }
                if !ignored {
                    proof {
                        assert(emit(c_m, p_m, Some(e_m), Some(a_m)).len() == 1);
                        assert(unordered_walk(exp, act, e_m, a_m, c_m, p_m, i as int, vset,
                            matched as int).0.len() > 0);
                        assert(diffs_of(e_m, a_m, c_m, p_m).len() > 0);
                    }
                    return true;
                }
                proof {
                    assert(emit(c_m, p_m, Some(e_m), Some(a_m)) =~= Seq::<DiffModel>::empty());
                    assert(unordered_walk(exp, act, e_m, a_m, c_m, p_m, i as int, vset,
                        matched as int).0 =~= unordered_walk(exp, act, e_m, a_m, c_m, p_m, i + 1,
                        vset, matched as int).0);
                }
            },
        }
    }
    let unmatched = matched != exp_items.len();
    let ghost walk0 = unordered_walk(exp, act, e_m, a_m, c_m, p_m, 0, Set::empty(), 0);
    let ghost post = if walk0.1 != exp.len() {
        emit(c_m, p_m, Some(e_m), Some(a_m))
    } else {
        Seq::<DiffModel>::empty()
    };
    proof {
        assert(walk0.0 =~= Seq::<DiffModel>::empty());
        assert(walk0.1 == matched as int);
        assert(diffs_of(e_m, a_m, c_m, p_m) == pre1 + pre2 + walk0.0 + post);
    }
    if unmatched && !ignored {
        proof {
            assert(post.len() == 1);
        }
        true
    } else {
        proof {
            assert(post =~= Seq::<DiffModel>::empty());
            assert(diffs_of(e_m, a_m, c_m, p_m) =~= Seq::<DiffModel>::empty());
        }
        false
    }
}

/// The collecting result mode of the walk: appends every difference that
/// the walk of two values records.
#[verifier::loop_isolation(false)]
#[verifier::rlimit(100)]
fn diff_value(
    expected: &JsonValue,
    actual: &JsonValue,
    config: &Config,
    path: &Path,
    acc: &mut Vec<Difference>,
)
    ensures
        diff_views(final(acc)@) == diff_views(old(acc)@) + diffs_of(
            expected@,
            actual@,
            config@,
            path@,
        ),
    decreases expected, 1int,
{
    let ghost e_m = expected@;
    let ghost a_m = actual@;
    let ghost c_m = config@;
    let ghost p_m = path@;
    let ghost base = diff_views(acc@);
    match expected {
        JsonValue::Null => match actual {
            JsonValue::Null => {
                proof {
                    assert(diff_views(acc@) =~= base + diffs_of(e_m, a_m, c_m, p_m));
                }
            },
            _ => record(acc, config, path, Some(expected), Some(actual)),
        },
        JsonValue::Bool(b) => {
            let equal = match actual {
                JsonValue::Bool(b2) => *b2 == *b,
                _ => false,
            };
            if equal {
                proof {
                    assert(diff_views(acc@) =~= base + diffs_of(e_m, a_m, c_m, p_m));
                }
            } else {
                record(acc, config, path, Some(expected), Some(actual));
            }
        },
        JsonValue::Str(s) => {
            let equal = match actual {
                JsonValue::Str(s2) => s.eq(s2),
                _ => false,
            };
            if equal {
                proof {
                    assert(diff_views(acc@) =~= base + diffs_of(e_m, a_m, c_m, p_m));
                }
            } else {
                record(acc, config, path, Some(expected), Some(actual));
            }
        },
        JsonValue::Num(n) => {
            let equal = match actual {
                JsonValue::Num(m) => match config.numeric_mode {
                    NumericMode::Strict => n.strict_eq(m),
                    NumericMode::AssumeFloat => n.float_eq(m),
                },
                _ => false,
            };
            if equal {
                proof {
                    assert(diff_views(acc@) =~= base + diffs_of(e_m, a_m, c_m, p_m));
                }
            } else {
                record(acc, config, path, Some(expected), Some(actual));
            }
        },
        JsonValue::Array(exp_items) => {
            if config.to_ignore_order(path) {
                match actual {
                    JsonValue::Array(act_items) => {
                        diff_unordered(exp_items, act_items, expected, actual, config, path, acc);
                    },
                    _ => record(acc, config, path, Some(expected), Some(actual)),
                }
            } else {
                match actual {
                    JsonValue::Array(act_items) => {
                        match config.compare_mode {
                            CompareMode::Inclusive => {
                                diff_arr_incl(exp_items, act_items, expected, actual, config, path, acc);
                            },
                            CompareMode::Strict => {
                                diff_arr_strict(exp_items, act_items, expected, actual, config, path, acc);
                            },
                        }
                        proof {
                            assert(diff_views(acc@) =~= base + diffs_of(e_m, a_m, c_m, p_m));
                        }
                    },
                    _ => record(acc, config, path, Some(expected), Some(actual)),
                }
            }
        },
        JsonValue::Object(exp_entries) => {
            match actual {
                JsonValue::Object(act_entries) => {
                    match config.compare_mode {
                        CompareMode::Inclusive => {
                            diff_obj_incl(exp_entries, act_entries, expected, actual, config, path, acc);
                        },
                        CompareMode::Strict => {
                            diff_obj_strict(exp_entries, act_entries, expected, actual, config, path, acc);
                        },
                    }
                    proof {
                        assert(diff_views(acc@) =~= base + diffs_of(e_m, a_m, c_m, p_m));
                    }
                },
                _ => record(acc, config, path, Some(expected), Some(actual)),
            }
        },
    }
}

/// The collecting inclusive array walk.
#[verifier::loop_isolation(false)]
#[verifier::rlimit(100)]
fn diff_arr_incl(
    exp_items: &Vec<JsonValue>,
    act_items: &Vec<JsonValue>,
    expected: &JsonValue,
    actual: &JsonValue,
    config: &Config,
    path: &Path,
    acc: &mut Vec<Difference>,
)
    requires
        expected@ == ValueModel::Array(views_of_seq(exp_items@)),
        actual@ == ValueModel::Array(views_of_seq(act_items@)),
    ensures
        diff_views(final(acc)@) == diff_views(old(acc)@) + arr_incl(
            views_of_seq(exp_items@),
            views_of_seq(act_items@),
            actual@,
            config@,
            path@,
            0,
        ),
    decreases exp_items, 0int,
{
    let ghost exp = views_of_seq(exp_items@);
    let ghost act = views_of_seq(act_items@);
    let ghost a_m = actual@;
    let ghost c_m = config@;
    let ghost p_m = path@;
    let ghost base = diff_views(acc@);
    let ghost mut done = Seq::<DiffModel>::empty();
    let na = act_items.len();
    proof {
        assert(diff_views(acc@) =~= base + done);
    }
    for i in 0..na
        invariant
            na == act_items@.len(),
            diff_views(acc@) == base + done,
            arr_incl(exp, act, a_m, c_m, p_m, 0) == done + arr_incl(exp, act, a_m, c_m, p_m, i as int),
        decreases na - i,
    {
        let ghost d_i = if (i as int) < exp.len() {
            diffs_of(exp[i as int], act[i as int], c_m, spec_append(p_m, KeyModel::Idx(i as int)))
        } else {
            emit(c_m, p_m, None, Some(a_m))
        };
        proof {
            assert(arr_incl(exp, act, a_m, c_m, p_m, i as int) == d_i + arr_incl(
                exp, act, a_m, c_m, p_m, i + 1));
        }
        let p_i = path.append(Key::Idx(i));
        if i < exp_items.len() {
            proof {
                assert(exp[i as int] == exp_items@[i as int]@);
                assert(act[i as int] == act_items@[i as int]@);
                assert(decreases_to!(*exp_items => exp_items@));
                assert(decreases_to!(exp_items@ => exp_items@[i as int]));
            }
            diff_value(&exp_items[i], &act_items[i], config, &p_i, acc);
        } else {
            record(acc, config, path, None, Some(actual));
        }
        proof {
            done = done + d_i;
            assert(diff_views(acc@) =~= base + done);
            assert(arr_incl(exp, act, a_m, c_m, p_m, 0) =~= done + arr_incl(
                exp, act, a_m, c_m, p_m, i + 1));
        }
    }
    proof {
        assert(arr_incl(exp, act, a_m, c_m, p_m, na as int) =~= Seq::<DiffModel>::empty());
        assert(diff_views(acc@) =~= base + arr_incl(exp, act, a_m, c_m, p_m, 0));
    }
}

/// The collecting strict array walk.
#[verifier::loop_isolation(false)]
#[verifier::rlimit(100)]
fn diff_arr_strict(
    exp_items: &Vec<JsonValue>,
    act_items: &Vec<JsonValue>,
    expected: &JsonValue,
    actual: &JsonValue,
    config: &Config,
    path: &Path,
    acc: &mut Vec<Difference>,
)
    requires
        expected@ == ValueModel::Array(views_of_seq(exp_items@)),
        actual@ == ValueModel::Array(views_of_seq(act_items@)),
    ensures
        diff_views(final(acc)@) == diff_views(old(acc)@) + arr_strict(
            views_of_seq(exp_items@),
            views_of_seq(act_items@),
            config@,
            path@,
            0,
        ),
    decreases exp_items, 0int,
{
    let ghost exp = views_of_seq(exp_items@);
    let ghost act = views_of_seq(act_items@);
    let ghost c_m = config@;
    let ghost p_m = path@;
    let ghost base = diff_views(acc@);
    let ghost mut done = Seq::<DiffModel>::empty();
    let ne = exp_items.len();
    let na = act_items.len();
    let n = if ne >= na {
        ne
    } else {
        na
    };
    proof {
        assert(diff_views(acc@) =~= base + done);
    }
    for i in 0..n
        invariant
            ne == exp_items@.len(),
            na == act_items@.len(),
            n == if ne >= na {
                ne
            } else {
                na
            },
            diff_views(acc@) == base + done,
            arr_strict(exp, act, c_m, p_m, 0) == done + arr_strict(exp, act, c_m, p_m, i as int),
        decreases n - i,
    {
        let ghost d_i = if (i as int) < exp.len() && (i as int) < act.len() {
            diffs_of(exp[i as int], act[i as int], c_m, spec_append(p_m, KeyModel::Idx(i as int)))
        } else if (i as int) < exp.len() {
            emit(c_m, p_m, Some(exp[i as int]), None)
        } else {
            emit(c_m, p_m, None, Some(act[i as int]))
        };
        proof {
            assert(arr_strict(exp, act, c_m, p_m, i as int) == d_i + arr_strict(
                exp, act, c_m, p_m, i + 1));
        }
        let p_i = path.append(Key::Idx(i));
        if i < ne && i < na {
            proof {
                assert(exp[i as int] == exp_items@[i as int]@);
                assert(act[i as int] == act_items@[i as int]@);
                assert(decreases_to!(*exp_items => exp_items@));
                assert(decreases_to!(exp_items@ => exp_items@[i as int]));
            }
            diff_value(&exp_items[i], &act_items[i], config, &p_i, acc);
        } else if i < ne {
            proof {
                assert(exp[i as int] == exp_items@[i as int]@);
            }
            record(acc, config, path, Some(&exp_items[i]), None);
        } else {
            proof {
                assert(act[i as int] == act_items@[i as int]@);
            }
            record(acc, config, path, None, Some(&act_items[i]));
        }
        proof {
            done = done + d_i;
            assert(diff_views(acc@) =~= base + done);
            assert(arr_strict(exp, act, c_m, p_m, 0) =~= done + arr_strict(
                exp, act, c_m, p_m, i + 1));
        }
    }
    proof {
        assert(arr_strict(exp, act, c_m, p_m, n as int) =~= Seq::<DiffModel>::empty());
        assert(diff_views(acc@) =~= base + arr_strict(exp, act, c_m, p_m, 0));
    }
}

/// The collecting inclusive object walk.
#[verifier::loop_isolation(false)]
#[verifier::rlimit(100)]
fn diff_obj_incl(
    exp_entries: &Vec<(String, JsonValue)>,
    act_entries: &Vec<(String, JsonValue)>,
    expected: &JsonValue,
    actual: &JsonValue,
    config: &Config,
    path: &Path,
    acc: &mut Vec<Difference>,
)
    requires
        expected@ == ValueModel::Object(entry_views_of_seq(exp_entries@)),
        actual@ == ValueModel::Object(entry_views_of_seq(act_entries@)),
    ensures
        diff_views(final(acc)@) == diff_views(old(acc)@) + obj_incl(
            entry_views_of_seq(exp_entries@),
            entry_views_of_seq(act_entries@),
            actual@,
            config@,
            path@,
            0,
        ),
    decreases exp_entries, 0int,
{
    let ghost exp = entry_views_of_seq(exp_entries@);
    let ghost act = entry_views_of_seq(act_entries@);
    let ghost a_m = actual@;
    let ghost c_m = config@;
    let ghost p_m = path@;
    let ghost base = diff_views(acc@);
    let ghost mut done = Seq::<DiffModel>::empty();
    let na = act_entries.len();
    proof {
        assert(diff_views(acc@) =~= base + done);
    }
    for i in 0..na
        invariant
            na == act_entries@.len(),
            diff_views(acc@) == base + done,
            obj_incl(exp, act, a_m, c_m, p_m, 0) == done + obj_incl(exp, act, a_m, c_m, p_m, i as int),
        decreases na - i,
    {
        let ghost key_m = act[i as int].0;
        let ghost idx_m = obj_index(exp, key_m);
        let ghost d_i = if 0 <= idx_m < exp.len() {
            diffs_of(exp[idx_m].1, act[i as int].1, c_m, spec_append(p_m, KeyModel::Field(key_m)))
        } else {
            emit(c_m, p_m, None, Some(a_m))
        };
        proof {
            lemma_obj_index(exp, key_m);
            assert(act[i as int].0 == act_entries@[i as int].0@);
            assert(act[i as int].1 == act_entries@[i as int].1@);
            assert(obj_incl(exp, act, a_m, c_m, p_m, i as int) == d_i + obj_incl(
                exp, act, a_m, c_m, p_m, i + 1));
        }
        let p_k = path.append(Key::Field(act_entries[i].0.clone()));
        match obj_find(exp_entries, &act_entries[i].0) {
            Some(idx) => {
                proof {
                    assert(idx as int == idx_m);
                    assert(exp[idx as int].1 == exp_entries@[idx as int].1@);
                    assert(decreases_to!(*exp_entries => exp_entries@));
                    assert(decreases_to!(exp_entries@ => exp_entries@[idx as int]));
                    assert(decreases_to!(exp_entries@[idx as int] => exp_entries@[idx as int].1));
                }
                diff_value(&exp_entries[idx].1, &act_entries[i].1, config, &p_k, acc);
            },
            None => {
                record(acc, config, path, None, Some(actual));
            },
        }
        proof {
            done = done + d_i;
            assert(diff_views(acc@) =~= base + done);
            assert(obj_incl(exp, act, a_m, c_m, p_m, 0) =~= done + obj_incl(
                exp, act, a_m, c_m, p_m, i + 1));
        }
    }
    proof {
        assert(obj_incl(exp, act, a_m, c_m, p_m, na as int) =~= Seq::<DiffModel>::empty());
        assert(diff_views(acc@) =~= base + obj_incl(exp, act, a_m, c_m, p_m, 0));
    }
}

/// The collecting strict object walk: the actual side's entries, then the
/// expected side's entries that the actual side lacks.
#[verifier::loop_isolation(false)]
#[verifier::rlimit(100)]
fn diff_obj_strict(
    exp_entries: &Vec<(String, JsonValue)>,
    act_entries: &Vec<(String, JsonValue)>,
    expected: &JsonValue,
    actual: &JsonValue,
    config: &Config,
    path: &Path,
    acc: &mut Vec<Difference>,
)
    requires
        expected@ == ValueModel::Object(entry_views_of_seq(exp_entries@)),
        actual@ == ValueModel::Object(entry_views_of_seq(act_entries@)),
    ensures
        diff_views(final(acc)@) == diff_views(old(acc)@) + (obj_strict_act(
            entry_views_of_seq(exp_entries@),
            entry_views_of_seq(act_entries@),
            config@,
            path@,
            0,
        ) + obj_strict_exp(
            entry_views_of_seq(exp_entries@),
            entry_views_of_seq(act_entries@),
            config@,
            path@,
            0,
        )),
    decreases exp_entries, 0int,
{
    let ghost exp = entry_views_of_seq(exp_entries@);
    let ghost act = entry_views_of_seq(act_entries@);
    let ghost c_m = config@;
    let ghost p_m = path@;
    let ghost base = diff_views(acc@);
    let ghost mut done = Seq::<DiffModel>::empty();
    let na = act_entries.len();
    proof {
        assert(diff_views(acc@) =~= base + done);
    }
    for i in 0..na
        invariant
            na == act_entries@.len(),
            diff_views(acc@) == base + done,
            obj_strict_act(exp, act, c_m, p_m, 0) == done + obj_strict_act(exp, act, c_m, p_m, i as int),
        decreases na - i,
    {
        let ghost key_m = act[i as int].0;
        let ghost idx_m = obj_index(exp, key_m);
        let ghost d_i = if 0 <= idx_m < exp.len() {
            diffs_of(exp[idx_m].1, act[i as int].1, c_m, spec_append(p_m, KeyModel::Field(key_m)))
        } else {
            emit(c_m, p_m, None, Some(act[i as int].1))
        };
        proof {
            lemma_obj_index(exp, key_m);
            assert(act[i as int].0 == act_entries@[i as int].0@);
            assert(act[i as int].1 == act_entries@[i as int].1@);
            assert(obj_strict_act(exp, act, c_m, p_m, i as int) == d_i + obj_strict_act(
                exp, act, c_m, p_m, i + 1));
        }
        let p_k = path.append(Key::Field(act_entries[i].0.clone()));
        match obj_find(exp_entries, &act_entries[i].0) {
            Some(idx) => {
                proof {
                    assert(idx as int == idx_m);
                    assert(exp[idx as int].1 == exp_entries@[idx as int].1@);
                    assert(decreases_to!(*exp_entries => exp_entries@));
                    assert(decreases_to!(exp_entries@ => exp_entries@[idx as int]));
                    assert(decreases_to!(exp_entries@[idx as int] => exp_entries@[idx as int].1));
                }
                diff_value(&exp_entries[idx].1, &act_entries[i].1, config, &p_k, acc);
            },
            None => {
                record(acc, config, path, None, Some(&act_entries[i].1));
            },
        }
        proof {
            done = done + d_i;
            assert(diff_views(acc@) =~= base + done);
            assert(obj_strict_act(exp, act, c_m, p_m, 0) =~= done + obj_strict_act(
                exp, act, c_m, p_m, i + 1));
        }
    }
    let ghost base2 = base + obj_strict_act(exp, act, c_m, p_m, 0);
    let ghost mut done2 = Seq::<DiffModel>::empty();
    proof {
        assert(obj_strict_act(exp, act, c_m, p_m, na as int) =~= Seq::<DiffModel>::empty());
        assert(diff_views(acc@) =~= base2 + done2);
    }
    let ne = exp_entries.len();
    for i in 0..ne
        invariant
            ne == exp_entries@.len(),
            diff_views(acc@) == base2 + done2,
            obj_strict_exp(exp, act, c_m, p_m, 0) == done2 + obj_strict_exp(exp, act, c_m, p_m, i as int),
        decreases ne - i,
    {
        let ghost d_i = if obj_index(act, exp[i as int].0) >= 0 {
            Seq::<DiffModel>::empty()
        } else {
            emit(c_m, p_m, Some(exp[i as int].1), None)
        };
        proof {
            lemma_obj_index(act, exp[i as int].0);
            assert(exp[i as int].0 == exp_entries@[i as int].0@);
            assert(exp[i as int].1 == exp_entries@[i as int].1@);
            assert(obj_strict_exp(exp, act, c_m, p_m, i as int) == d_i + obj_strict_exp(
                exp, act, c_m, p_m, i + 1));
        }
        match obj_find(act_entries, &exp_entries[i].0) {
            Some(_) => {},
            None => {
                record(acc, config, path, Some(&exp_entries[i].1), None);
            },
        }
        proof {
            done2 = done2 + d_i;
            assert(diff_views(acc@) =~= base2 + done2);
            assert(obj_strict_exp(exp, act, c_m, p_m, 0) =~= done2 + obj_strict_exp(
                exp, act, c_m, p_m, i + 1));
        }
    }
    proof {
        assert(obj_strict_exp(exp, act, c_m, p_m, ne as int) =~= Seq::<DiffModel>::empty());
        assert(diff_views(acc@) =~= base + (obj_strict_act(exp, act, c_m, p_m, 0)
            + obj_strict_exp(exp, act, c_m, p_m, 0)));
    }
}


/// The collecting result mode of the unordered array walk.
#[verifier::loop_isolation(false)]
#[verifier::rlimit(100)]
fn diff_unordered(
    exp_items: &Vec<JsonValue>,
    act_items: &Vec<JsonValue>,
    expected: &JsonValue,
    actual: &JsonValue,
    config: &Config,
    path: &Path,
    acc: &mut Vec<Difference>,
)
    requires
        expected@ == ValueModel::Array(views_of_seq(exp_items@)),
        actual@ == ValueModel::Array(views_of_seq(act_items@)),
        spec_to_ignore_order(config@, path@),
    ensures
        diff_views(final(acc)@) == diff_views(old(acc)@) + diffs_of(
            expected@,
            actual@,
            config@,
            path@,
        ),
    decreases exp_items, 1int,
{
    let ghost exp = views_of_seq(exp_items@);
    let ghost act = views_of_seq(act_items@);
    let ghost e_m = expected@;
    let ghost a_m = actual@;
    let ghost c_m = config@;
    let ghost p_m = path@;
    let ghost base = diff_views(acc@);
    let ghost pre1 = if act.len() > exp.len() {
        emit(c_m, p_m, Some(e_m), Some(a_m))
    } else {
        Seq::<DiffModel>::empty()
    };
    let ghost pre2 = if act.len() != exp.len() && c_m.compare_mode == CompareMode::Strict {
        emit(c_m, p_m, Some(e_m), Some(a_m))
    } else {
        Seq::<DiffModel>::empty()
    };
    if act_items.len() > exp_items.len() {
        record(acc, config, path, Some(expected), Some(actual));
    }
    if act_items.len() != exp_items.len() {
        match config.compare_mode {
            CompareMode::Strict => {
                record(acc, config, path, Some(expected), Some(actual));
            },
            CompareMode::Inclusive => {},
        }
    }
    proof {
        assert(diff_views(acc@) =~= base + pre1 + pre2);
    }
    let ghost base2 = base + pre1 + pre2;
    let mut marks: Vec<bool> = Vec::new();
    let ne = exp_items.len();
    for q in 0..ne
        invariant
            marks@.len() == q,
            forall|x: int| 0 <= x < q ==> !marks@[x],
        decreases ne - q,
    {
        marks.push(false);
    }
    let mut matched: usize = 0;
    let na = act_items.len();
    let ghost mut done = Seq::<DiffModel>::empty();
    proof {
        assert(visited_set(marks@) =~= Set::<int>::empty());
        assert(diff_views(acc@) =~= base2 + done);
    }
    for i in 0..na
        invariant
            na == act_items@.len(),
            marks@.len() == exp_items@.len(),
            matched <= i,
            diff_views(acc@) == base2 + done,
            unordered_walk(exp, act, e_m, a_m, c_m, p_m, 0, Set::empty(), 0).0 == done
                + unordered_walk(
                exp,
                act,
                e_m,
                a_m,
                c_m,
                p_m,
                i as int,
                visited_set(marks@),
                matched as int,
            ).0,
            unordered_walk(exp, act, e_m, a_m, c_m, p_m, 0, Set::empty(), 0).1 == unordered_walk(
                exp,
                act,
                e_m,
                a_m,
                c_m,
                p_m,
                i as int,
                visited_set(marks@),
                matched as int,
            ).1,
        decreases na - i,
    {
        let ghost vset = visited_set(marks@);
        let p_i = path.append(Key::Idx(i));
        proof {
            assert(act[i as int] == act_items@[i as int]@);
        }
        match find_match(exp_items, &act_items[i], config, &p_i, &marks) {
            Some(j) => {
                marks.set(j, true);
                matched = matched + 1;
                proof {
                    assert(visited_set(marks@) =~= vset.insert(j as int));
                }
            },
            None => {
                let ghost d_i = emit(c_m, p_m, Some(e_m), Some(a_m));
                proof {
                    assert(unordered_walk(exp, act, e_m, a_m, c_m, p_m, i as int, vset,
                        matched as int).0 == d_i + unordered_walk(exp, act, e_m, a_m, c_m, p_m,
                        i + 1, vset, matched as int).0);
                }
                record(acc, config, path, Some(expected), Some(actual));
                proof {
                    done = done + d_i;
                    assert(diff_views(acc@) =~= base2 + done);
                    assert(unordered_walk(exp, act, e_m, a_m, c_m, p_m, 0, Set::empty(), 0).0
                        =~= done + unordered_walk(exp, act, e_m, a_m, c_m, p_m, i + 1, vset,
                        matched as int).0);
                }
            },
        }
    }
    let ghost walk0 = unordered_walk(exp, act, e_m, a_m, c_m, p_m, 0, Set::empty(), 0);
    proof {
        assert(unordered_walk(exp, act, e_m, a_m, c_m, p_m, na as int, visited_set(marks@),
            matched as int).0 =~= Seq::<DiffModel>::empty());
        assert(walk0.0 =~= done);
        assert(walk0.1 == matched as int);
    }
    if matched != exp_items.len() {
        record(acc, config, path, Some(expected), Some(actual));
    }
    proof {
        let post = if walk0.1 != exp.len() {
            emit(c_m, p_m, Some(e_m), Some(a_m))
        } else {
            Seq::<DiffModel>::empty()
        };
        assert(diff_views(acc@) =~= base2 + done + post);
        assert(diffs_of(e_m, a_m, c_m, p_m) == pre1 + pre2 + walk0.0 + post);
        assert(diff_views(acc@) =~= base + diffs_of(e_m, a_m, c_m, p_m));
    }
}

/// Compares two JSON values under the given configuration and returns every
/// difference the walk records, in walk order.
pub fn diff(expected: &JsonValue, actual: &JsonValue, config: Config) -> (r: Vec<Difference>)
    ensures
        diff_views(r@) == diffs_of(expected@, actual@, config@, PathModel::Root),
{
    let mut acc: Vec<Difference> = Vec::new();
    proof {
        assert(diff_views(acc@) =~= Seq::<DiffModel>::empty());
    }
    diff_value(expected, actual, &config, &Path::Root, &mut acc);
    proof {
        assert(diff_views(acc@) =~= diffs_of(expected@, actual@, config@, PathModel::Root));
    }
    acc
}

/// Comparing a well-formed value with itself yields no difference, under any
/// comparison mode, any numeric mode and any exclusion list, as long as no
/// address is registered for order-insensitive comparison.
pub proof fn lemma_diff_reflexive(v: ValueModel, c: ConfigModel, p: PathModel)
    requires
        crate::value::wf_value(v),
        c.ignore_orders.len() == 0,
    ensures
        diffs_of(v, v, c, p).len() == 0,
    decreases v, 2int, 0int,
{
    assert(!spec_to_ignore_order(c, p));
    match v {
        ValueModel::Num(n) => {
            assert(num_eq_mode(n, v, c.numeric_mode));
        },
        ValueModel::Array(items) => {
            lemma_arr_refl(items, v, c, p, 0);
        },
        ValueModel::Object(entries) => {
            lemma_obj_refl(entries, v, c, p, 0);
        },
        _ => {},
    }
}

/// Helper for the reflexivity law: the array walks of a well-formed array
/// against itself record nothing, from any starting position.
proof fn lemma_arr_refl(
    items: Seq<ValueModel>,
    whole: ValueModel,
    c: ConfigModel,
    p: PathModel,
    i: int,
)
    requires
        crate::value::wf_values(items),
        c.ignore_orders.len() == 0,
        0 <= i,
    ensures
        arr_incl(items, items, whole, c, p, i).len() == 0,
        arr_strict(items, items, c, p, i).len() == 0,
    decreases items, 1int, items.len() - i,
{
    if i < items.len() {
        lemma_diff_reflexive(items[i], c, spec_append(p, KeyModel::Idx(i)));
        lemma_arr_refl(items, whole, c, p, i + 1);
    }
}

/// Helper for the reflexivity law: the object walks of a well-formed object
/// against itself record nothing, from any starting position.
proof fn lemma_obj_refl(
    entries: Seq<(Seq<char>, ValueModel)>,
    whole: ValueModel,
    c: ConfigModel,
    p: PathModel,
    i: int,
)
    requires
        crate::value::distinct_keys(entries),
        crate::value::wf_entries(entries),
        c.ignore_orders.len() == 0,
        0 <= i,
    ensures
        obj_incl(entries, entries, whole, c, p, i).len() == 0,
        obj_strict_act(entries, entries, c, p, i).len() == 0,
        obj_strict_exp(entries, entries, c, p, i).len() == 0,
    decreases entries, 1int, entries.len() - i,
{
    if i < entries.len() {
        lemma_obj_index(entries, entries[i].0);
        let idx = obj_index(entries, entries[i].0);
        assert(idx != -1);
        if idx < i {
            assert(entries[idx].0 == entries[i].0);
            assert(false);
        } else if idx > i {
            assert(entries[i].0 != entries[i].0);
            assert(false);
        }
        assert(idx == i);
        lemma_diff_reflexive(entries[i].1, c, spec_append(p, KeyModel::Field(entries[i].0)));
        lemma_obj_refl(entries, whole, c, p, i + 1);
    }
}

/// The message of one difference: both sides present yields the two values
/// at the address, pretty-printed and indented by eight spaces; a side
/// absent names the side the member is missing from.
pub open spec fn spec_message(d: DiffModel) -> Seq<char> {
    if d.expected is Some && d.actual is Some {
        "json atoms at path \""@ + crate::path::spec_display(d.path)
            + "\" are not equal:\n    actual:\n"@ + crate::misc::spec_indent(
            crate::value::render_value_pretty(d.actual->Some_0, Seq::<char>::empty()),
            8,
        ) + "\n    expected:\n"@ + crate::misc::spec_indent(
            crate::value::render_value_pretty(d.expected->Some_0, Seq::<char>::empty()),
            8,
        )
    } else if d.expected is None {
        "json atom at path \""@ + crate::path::spec_display(d.path)
            + "\" is missing from expected"@
    } else {
        "json atom at path \""@ + crate::path::spec_display(d.path) + "\" is missing from actual"@
    }
}

impl Difference {
    /// Renders this difference as a human-readable message. A difference
    /// never lacks both sides; under the inclusive comparison only the
    /// actual side can lack a member the expected side has, so a recorded
    /// inclusive difference never lacks its actual side. The walk
    /// guarantees both of every difference it records: see
    /// `lemma_diff_sides`.
    pub fn render(&self) -> (r: String)
        requires
            !(self.expected is None && self.actual is None),
            !(self.compare_mode == CompareMode::Inclusive && self.expected is Some
                && self.actual is None),
        ensures
            r@ == spec_message(self@),
    {
        let path_text = self.path.display_text();
        match (&self.expected, &self.actual) {
            (Some(e), Some(a)) => {
                let mut out = String::new();
                out.append("json atoms at path \"");
                out.append(path_text.as_str());
                out.append("\" are not equal:\n    actual:\n");
                let a_text = a.to_pretty_text();
                let a_ind = a_text.indent(8);
                out.append(a_ind.as_str());
                out.append("\n    expected:\n");
                let e_text = e.to_pretty_text();
                let e_ind = e_text.indent(8);
                out.append(e_ind.as_str());
                out
            },
            (None, Some(_)) => {
                let mut out = String::new();
                out.append("json atom at path \"");
                out.append(path_text.as_str());
                out.append("\" is missing from expected");
                out
            },
            (Some(_), None) => {
                let mut out = String::new();
                out.append("json atom at path \"");
                out.append(path_text.as_str());
                out.append("\" is missing from actual");
                out
            },
            (None, None) => {
                proof {
                    assert(false);
                }
                String::new()
            },
        }
    }
}

/// What holds of every difference the walk records: its comparison mode is
/// the configuration's, at least one side is present, and under the
/// inclusive comparison the actual side is always present — only the
/// actual side can lack a member the expected side has.
pub open spec fn wf_difference(d: DiffModel, c: ConfigModel) -> bool {
    &&& d.compare_mode == c.compare_mode
    &&& !(d.expected is None && d.actual is None)
    &&& (c.compare_mode == CompareMode::Inclusive ==> d.actual is Some)
}

/// Every difference of the sequence is well-formed for the configuration.
pub open spec fn wf_differences(ds: Seq<DiffModel>, c: ConfigModel) -> bool {
    forall|i: int| 0 <= i < ds.len() ==> wf_difference(#[trigger] ds[i], c)
}

/// Well-formedness carries over concatenation.
proof fn lemma_wf_concat(x: Seq<DiffModel>, y: Seq<DiffModel>, c: ConfigModel)
    requires
        wf_differences(x, c),
        wf_differences(y, c),
    ensures
        wf_differences(x + y, c),
{
    assert forall|i: int| 0 <= i < (x + y).len() implies wf_difference(#[trigger] (x + y)[i], c) by {
        if i < x.len() {
            assert((x + y)[i] == x[i]);
        } else {
            assert((x + y)[i] == y[i - x.len()]);
        }
    }
}

/// What one emission point records is well-formed, as long as a side is
/// present and the actual side is present under the inclusive comparison.
proof fn lemma_emit_wf(c: ConfigModel, p: PathModel, eo: Option<ValueModel>, ao: Option<ValueModel>)
    requires
        !(eo is None && ao is None),
        c.compare_mode == CompareMode::Inclusive ==> ao is Some,
    ensures
        wf_differences(emit(c, p, eo, ao), c),
{
}

/// Every difference the walk records is well-formed: it carries the
/// configuration's comparison mode, at least one side, and under the
/// inclusive comparison always its actual side. This is what lets a caller
/// render every difference the walk returns.
pub proof fn lemma_diff_sides(e: ValueModel, a: ValueModel, c: ConfigModel, p: PathModel)
    ensures
        wf_differences(diffs_of(e, a, c, p), c),
    decreases e, 2int, 0int,
{
    let empty = Seq::<DiffModel>::empty();
    assert(wf_differences(empty, c));
    match e {
        ValueModel::Array(exp) => {
            if spec_to_ignore_order(c, p) {
                match a {
                    ValueModel::Array(act) => {
                        let pre1 = if act.len() > exp.len() {
                            emit(c, p, Some(e), Some(a))
                        } else {
                            empty
                        };
                        let pre2 = if act.len() != exp.len() && c.compare_mode
                            == CompareMode::Strict {
                            emit(c, p, Some(e), Some(a))
                        } else {
                            empty
                        };
                        let walk = unordered_walk(exp, act, e, a, c, p, 0, Set::empty(), 0);
                        let post = if walk.1 != exp.len() {
                            emit(c, p, Some(e), Some(a))
                        } else {
                            empty
                        };
                        lemma_emit_wf(c, p, Some(e), Some(a));
                        lemma_unordered_sides(exp, act, e, a, c, p, 0, Set::empty(), 0);
                        lemma_wf_concat(pre1, pre2, c);
                        lemma_wf_concat(pre1 + pre2, walk.0, c);
                        lemma_wf_concat(pre1 + pre2 + walk.0, post, c);
                    },
                    _ => {
                        lemma_emit_wf(c, p, Some(e), Some(a));
                    },
                }
            } else {
                match a {
                    ValueModel::Array(act) => match c.compare_mode {
                        CompareMode::Inclusive => {
                            lemma_arr_incl_sides(exp, act, a, c, p, 0);
                        },
                        CompareMode::Strict => {
                            lemma_arr_strict_sides(exp, act, c, p, 0);
                        },
                    },
                    _ => {
                        lemma_emit_wf(c, p, Some(e), Some(a));
                    },
                }
            }
        },
        ValueModel::Object(exp) => {
            match a {
                ValueModel::Object(act) => match c.compare_mode {
                    CompareMode::Inclusive => {
                        lemma_obj_incl_sides(exp, act, a, c, p, 0);
                    },
                    CompareMode::Strict => {
                        lemma_obj_strict_act_sides(exp, act, c, p, 0);
                        lemma_obj_strict_exp_sides(exp, act, c, p, 0);
                        lemma_wf_concat(
                            obj_strict_act(exp, act, c, p, 0),
                            obj_strict_exp(exp, act, c, p, 0),
                            c,
                        );
                    },
                },
                _ => {
                    lemma_emit_wf(c, p, Some(e), Some(a));
                },
            }
        },
        _ => {
            if diffs_of(e, a, c, p).len() != 0 {
                lemma_emit_wf(c, p, Some(e), Some(a));
            }
        },
    }
}

/// Helper for the sides law: the inclusive array walk records only
/// well-formed differences.
proof fn lemma_arr_incl_sides(
    exp: Seq<ValueModel>,
    act: Seq<ValueModel>,
    a_whole: ValueModel,
    c: ConfigModel,
    p: PathModel,
    i: int,
)
    requires
        0 <= i,
    ensures
        wf_differences(arr_incl(exp, act, a_whole, c, p, i), c),
    decreases exp, 1int, act.len() - i,
{
    if i < act.len() {
        let here = if i < exp.len() {
            diffs_of(exp[i], act[i], c, spec_append(p, KeyModel::Idx(i)))
        } else {
            emit(c, p, None, Some(a_whole))
        };
        if i < exp.len() {
            lemma_diff_sides(exp[i], act[i], c, spec_append(p, KeyModel::Idx(i)));
        } else {
            lemma_emit_wf(c, p, None, Some(a_whole));
        }
        lemma_arr_incl_sides(exp, act, a_whole, c, p, i + 1);
        lemma_wf_concat(here, arr_incl(exp, act, a_whole, c, p, i + 1), c);
    }
}

/// Helper for the sides law: the strict array walk records only well-formed
/// differences.
proof fn lemma_arr_strict_sides(
    exp: Seq<ValueModel>,
    act: Seq<ValueModel>,
    c: ConfigModel,
    p: PathModel,
    i: int,
)
    requires
        0 <= i,
        c.compare_mode == CompareMode::Strict,
    ensures
        wf_differences(arr_strict(exp, act, c, p, i), c),
    decreases exp, 1int, (if exp.len() >= act.len() {
        exp.len()
    } else {
        act.len()
    }) - i,
{
    let n = if exp.len() >= act.len() {
        exp.len() as int
    } else {
        act.len() as int
    };
    if i < n {
        let here = if i < exp.len() && i < act.len() {
            diffs_of(exp[i], act[i], c, spec_append(p, KeyModel::Idx(i)))
        } else if i < exp.len() {
            emit(c, p, Some(exp[i]), None)
        } else {
            emit(c, p, None, Some(act[i]))
        };
        if i < exp.len() && i < act.len() {
            lemma_diff_sides(exp[i], act[i], c, spec_append(p, KeyModel::Idx(i)));
        } else if i < exp.len() {
            lemma_emit_wf(c, p, Some(exp[i]), None);
        } else {
            lemma_emit_wf(c, p, None, Some(act[i]));
        }
        lemma_arr_strict_sides(exp, act, c, p, i + 1);
        lemma_wf_concat(here, arr_strict(exp, act, c, p, i + 1), c);
    }
}

/// Helper for the sides law: the unordered array walk records only
/// well-formed differences, whatever the mode.
proof fn lemma_unordered_sides(
    exp: Seq<ValueModel>,
    act: Seq<ValueModel>,
    e_whole: ValueModel,
    a_whole: ValueModel,
    c: ConfigModel,
    p: PathModel,
    i: int,
    visited: Set<int>,
    matched: int,
)
    requires
        0 <= i,
    ensures
        wf_differences(unordered_walk(exp, act, e_whole, a_whole, c, p, i, visited, matched).0, c),
    decreases exp, 1int, act.len() - i,
{
    if i < act.len() {
        let p_i = spec_append(p, KeyModel::Idx(i));
        match first_match(exp, act[i], c, p_i, visited, 0) {
            Some(j) => {
                lemma_unordered_sides(exp, act, e_whole, a_whole, c, p, i + 1, visited.insert(j), matched + 1);
            },
            None => {
                lemma_emit_wf(c, p, Some(e_whole), Some(a_whole));
                lemma_unordered_sides(exp, act, e_whole, a_whole, c, p, i + 1, visited, matched);
                lemma_wf_concat(
                    emit(c, p, Some(e_whole), Some(a_whole)),
                    unordered_walk(exp, act, e_whole, a_whole, c, p, i + 1, visited, matched).0,
                    c,
                );
            },
        }
    }
}

/// Helper for the sides law: the inclusive object walk records only
/// well-formed differences.
proof fn lemma_obj_incl_sides(
    exp: Seq<(Seq<char>, ValueModel)>,
    act: Seq<(Seq<char>, ValueModel)>,
    a_whole: ValueModel,
    c: ConfigModel,
    p: PathModel,
    i: int,
)
    requires
        0 <= i,
    ensures
        wf_differences(obj_incl(exp, act, a_whole, c, p, i), c),
    decreases exp, 1int, act.len() - i,
{
    if i < act.len() {
        let key = act[i].0;
        let idx = obj_index(exp, key);
        let here = if 0 <= idx < exp.len() {
            diffs_of(exp[idx].1, act[i].1, c, spec_append(p, KeyModel::Field(key)))
        } else {
            emit(c, p, None, Some(a_whole))
        };
        if 0 <= idx < exp.len() {
            lemma_diff_sides(exp[idx].1, act[i].1, c, spec_append(p, KeyModel::Field(key)));
        } else {
            lemma_emit_wf(c, p, None, Some(a_whole));
        }
        lemma_obj_incl_sides(exp, act, a_whole, c, p, i + 1);
        lemma_wf_concat(here, obj_incl(exp, act, a_whole, c, p, i + 1), c);
    }
}

/// Helper for the sides law: the strict object walk's actual pass records
/// only well-formed differences.
proof fn lemma_obj_strict_act_sides(
    exp: Seq<(Seq<char>, ValueModel)>,
    act: Seq<(Seq<char>, ValueModel)>,
    c: ConfigModel,
    p: PathModel,
    i: int,
)
    requires
        0 <= i,
        c.compare_mode == CompareMode::Strict,
    ensures
        wf_differences(obj_strict_act(exp, act, c, p, i), c),
    decreases exp, 1int, act.len() - i,
{
    if i < act.len() {
        let key = act[i].0;
        let idx = obj_index(exp, key);
        let here = if 0 <= idx < exp.len() {
            diffs_of(exp[idx].1, act[i].1, c, spec_append(p, KeyModel::Field(key)))
        } else {
            emit(c, p, None, Some(act[i].1))
        };
        if 0 <= idx < exp.len() {
            lemma_diff_sides(exp[idx].1, act[i].1, c, spec_append(p, KeyModel::Field(key)));
        } else {
            lemma_emit_wf(c, p, None, Some(act[i].1));
        }
        lemma_obj_strict_act_sides(exp, act, c, p, i + 1);
        lemma_wf_concat(here, obj_strict_act(exp, act, c, p, i + 1), c);
    }
}

/// Helper for the sides law: the strict object walk's expected pass records
/// only well-formed differences.
proof fn lemma_obj_strict_exp_sides(
    exp: Seq<(Seq<char>, ValueModel)>,
    act: Seq<(Seq<char>, ValueModel)>,
    c: ConfigModel,
    p: PathModel,
    i: int,
)
    requires
        0 <= i,
        c.compare_mode == CompareMode::Strict,
    ensures
        wf_differences(obj_strict_exp(exp, act, c, p, i), c),
    decreases exp.len() - i,
{
    if i < exp.len() {
        let here = if obj_index(act, exp[i].0) >= 0 {
            Seq::<DiffModel>::empty()
        } else {
            emit(c, p, Some(exp[i].1), None)
        };
        if obj_index(act, exp[i].0) < 0 {
            lemma_emit_wf(c, p, Some(exp[i].1), None);
        }
        lemma_obj_strict_exp_sides(exp, act, c, p, i + 1);
        lemma_wf_concat(here, obj_strict_exp(exp, act, c, p, i + 1), c);
    }
}

} // verus!
