//! The transformation pipeline over a stream of values: filters, maps and
//! aggregations applied in document order.

use vstd::prelude::*;
use vstd::string::*;

use crate::mapping::{digits_value, is_digit, lemma_digits_value_monotone};
use crate::text::{first_index_of, split_on, split_str, trim, trim_str, views};
use crate::transform::{transformation_views, AggregationType, Transformation, TransformationView};

verus! {

/// One value of a stream: text as read, or a number an aggregation made.
#[derive(Debug, Clone, PartialEq, Eq)]
pub enum Value {
    Text(String),
    Int(i64),
}

/// The mathematical value of a [`Value`].
pub enum ValueView {
    Text(Seq<char>),
    Int(int),
}

impl View for Value {
    type V = ValueView;

    open spec fn view(&self) -> ValueView {
        match self {
            Value::Text(s) => ValueView::Text(s@),
            Value::Int(n) => ValueView::Int(*n as int),
        }
    }
}

/// The views of a sequence of values.
pub open spec fn value_views(v: Seq<Value>) -> Seq<ValueView> {
    v.map_values(|x: Value| x@)
}

/// Why a pipeline could not be applied.
#[derive(Debug, Clone, PartialEq, Eq)]
pub enum EvalError {
    /// A join edge names a datasource that the catalog lacks.
    UnknownDatasource(String),
    /// A filter or map expression is malformed.
    InvalidExpression(String),
    /// A numeric aggregation met a value that is not an integer.
    NotNumeric(String),
    /// A map met a number rather than text.
    MapOnNumber,
    /// A result does not fit in 64 bits.
    Overflow,
    /// No input was supplied for a join step.
    MissingInput,
}

/// The mathematical value of an [`EvalError`].
pub enum EvalErrorView {
    UnknownDatasource(Seq<char>),
    InvalidExpression(Seq<char>),
    NotNumeric(Seq<char>),
    MapOnNumber,
    Overflow,
    MissingInput,
}

impl View for EvalError {
    type V = EvalErrorView;

    open spec fn view(&self) -> EvalErrorView {
        match self {
            EvalError::UnknownDatasource(s) => EvalErrorView::UnknownDatasource(s@),
            EvalError::InvalidExpression(s) => EvalErrorView::InvalidExpression(s@),
            EvalError::NotNumeric(s) => EvalErrorView::NotNumeric(s@),
            EvalError::MapOnNumber => EvalErrorView::MapOnNumber,
            EvalError::Overflow => EvalErrorView::Overflow,
            EvalError::MissingInput => EvalErrorView::MissingInput,
        }
    }
}

/// Whether every character is a decimal digit.
pub open spec fn all_digits(d: Seq<char>) -> bool {
    forall|i: int| 0 <= i < d.len() ==> is_digit(#[trigger] d[i])
}

/// The digits of an integer text, without its optional sign.
pub open spec fn int_digits(s: Seq<char>) -> Seq<char> {
    if s.len() > 0 && (s[0] == '-' || s[0] == '+') {
        s.drop_first()
    } else {
        s
    }
}

/// The integer a text spells: an optional sign, then decimal digits, within
/// the range of `i64`.
pub open spec fn spec_int(s: Seq<char>) -> Option<int> {
    let d = int_digits(s);
    let v = if s.len() > 0 && s[0] == '-' {
        -digits_value(d)
    } else {
        digits_value(d)
    };
    if d.len() > 0 && all_digits(d) && i64::MIN <= v <= i64::MAX {
        Some(v)
    } else {
        None
    }
}

/// Reads an integer (`i64::from_str`).
pub fn parse_int(s: &str) -> (r: Option<i64>)
    ensures
        match spec_int(s@) {
            Some(v) => r == Some(v as i64),
            None => r is None,
        },
{
    let n = s.unicode_len();
    let mut i: usize = 0;
    let mut neg = false;
    if n > 0 {
        let c = s.get_char(0);
        if c == '-' {
            neg = true;
            i = 1;
        } else if c == '+' {
            i = 1;
        }
    }
    let start = i;
    let ghost d = s@.subrange(start as int, n as int);
    assert(int_digits(s@) =~= d);
    assert(neg == (s@.len() > 0 && s@[0] == '-'));
    if i == n {
        assert(d.len() == 0);
        return None;
    }
    let limit: u64 = 0x8000_0000_0000_0000;
    let mut val: u64 = 0;
    while i < n
        invariant
            n == s@.len(),
            start <= i <= n,
            start < n,
            d == s@.subrange(start as int, n as int),
            forall|k: int| 0 <= k < i - start ==> is_digit(#[trigger] d[k]),
            val as int == digits_value(d.subrange(0, i - start)),
            val <= limit,
            limit == 0x8000_0000_0000_0000u64,
            d.len() > 0,
            neg == (s@.len() > 0 && s@[0] == '-'),
            d == int_digits(s@),
        decreases n - i,
    {
        let c = s.get_char(i);
        let cu = c as u32;
        if !(48 <= cu && cu <= 57) {
            assert(!is_digit(d[i - start]));
            return None;
        }
        let ghost pre = d.subrange(0, i - start);
        let ghost next = d.subrange(0, i - start + 1);
        assert(next.drop_last() =~= pre);
        let digit = (cu - 48) as u64;
        if val > (limit - digit) / 10 {
            proof {
                if all_digits(d) {
                    lemma_digits_value_monotone(d, i - start + 1);
                }
            }
            return None;
        }
        val = val * 10 + digit;
        i = i + 1;
    }
    assert(d.subrange(0, n - start) =~= d);
    if neg {
        if val == limit {
            Some(i64::MIN)
        } else {
            Some(-(val as i64))
        }
    } else if val == limit {
        None
    } else {
        Some(val as i64)
    }
}

/// The integer a value stands for, if any.
pub open spec fn numeric(v: ValueView) -> Option<int> {
    match v {
        ValueView::Text(s) => spec_int(s),
        ValueView::Int(n) => Some(n),
    }
}

/// A comparison of a filter expression.
#[derive(Debug, Clone, Copy, PartialEq, Eq, Structural)]
pub enum Cmp {
    Lt,
    Le,
    Gt,
    Ge,
    Eq,
    Ne,
}

/// Whether `x` compares to `n` as `c` says.
pub open spec fn compare(c: Cmp, x: int, n: int) -> bool {
    match c {
        Cmp::Lt => x < n,
        Cmp::Le => x <= n,
        Cmp::Gt => x > n,
        Cmp::Ge => x >= n,
        Cmp::Eq => x == n,
        Cmp::Ne => x != n,
    }
}

/// Characters that start a comparison.
pub open spec fn is_op_char(c: char) -> bool {
    c == '<' || c == '>' || c == '=' || c == '!'
}

/// Index of the first comparison character.
pub open spec fn first_op(s: Seq<char>) -> Option<int>
    decreases s.len(),
{
    if s.len() == 0 {
        None
    } else if is_op_char(s[0]) {
        Some(0)
    } else {
        match first_op(s.drop_first()) {
            Some(i) => Some(i + 1),
            None => None,
        }
    }
}

/// The comparison spelled by the character `c`, followed by `=` or not.
pub open spec fn spec_cmp(c: char, with_eq: bool) -> Option<Cmp> {
    if with_eq {
        if c == '<' {
            Some(Cmp::Le)
        } else if c == '>' {
            Some(Cmp::Ge)
        } else if c == '=' {
            Some(Cmp::Eq)
        } else {
            Some(Cmp::Ne)
        }
    } else if c == '<' {
        Some(Cmp::Lt)
    } else if c == '>' {
        Some(Cmp::Gt)
    } else if c == '=' {
        Some(Cmp::Eq)
    } else {
        None
    }
}

/// A filter expression `operand OP integer`: the operand (a placeholder for
/// the value) is everything before the first comparison.
pub open spec fn spec_condition(expr: Seq<char>) -> Option<(Cmp, int)> {
    match first_op(expr) {
        None => None,
        Some(i) => {
            let with_eq = i + 1 < expr.len() && expr[i + 1] == '=';
            let after = if with_eq {
                i + 2
            } else {
                i + 1
            };
            match (spec_cmp(expr[i], with_eq), spec_int(trim(expr.subrange(after, expr.len() as int)))) {
                (Some(c), Some(n)) => Some((c, n)),
                _ => None,
            }
        },
    }
}

/// Whether a value passes the condition: it must be an integer.
pub open spec fn passes(c: Cmp, n: int, v: ValueView) -> bool {
    match numeric(v) {
        Some(x) => compare(c, x, n),
        None => false,
    }
}

/// The values that pass the condition, in order.
pub open spec fn spec_filter(c: Cmp, n: int, vs: Seq<ValueView>) -> Seq<ValueView>
    decreases vs.len(),
{
    if vs.len() == 0 {
        Seq::empty()
    } else {
        let rest = spec_filter(c, n, vs.drop_last());
        if passes(c, n, vs.last()) {
            rest.push(vs.last())
        } else {
            rest
        }
    }
}

/// A map template with every `$...$` placeholder replaced by `v`: the pieces
/// between `$` signs alternate between text and placeholder.
pub open spec fn spec_template(pieces: Seq<Seq<char>>, v: Seq<char>) -> Seq<char>
    decreases pieces.len(),
{
    if pieces.len() == 0 {
        Seq::empty()
    } else {
        spec_template(pieces.drop_last(), v) + if (pieces.len() - 1) % 2 == 1 {
            v
        } else {
            pieces.last()
        }
    }
}

/// Every value rewritten by the template `expr`; a template with an
/// unclosed placeholder is malformed.
pub open spec fn spec_map(expr: Seq<char>, vs: Seq<ValueView>) -> Result<Seq<ValueView>, EvalErrorView>
    decreases vs.len(),
{
    if vs.len() == 0 {
        Ok(Seq::empty())
    } else {
        match spec_map(expr, vs.drop_last()) {
            Err(e) => Err(e),
            Ok(done) => {
                let pieces = split_on(expr, '$');
                if pieces.len() % 2 == 0 {
                    Err(EvalErrorView::InvalidExpression(expr))
                } else {
                    match vs.last() {
                        ValueView::Text(s) => Ok(done.push(ValueView::Text(spec_template(pieces, s)))),
                        ValueView::Int(_) => Err(EvalErrorView::MapOnNumber),
                    }
                }
            },
        }
    }
}

/// The integers of the values, or the first value that is not one.
pub open spec fn spec_numbers(vs: Seq<ValueView>) -> Result<Seq<int>, EvalErrorView>
    decreases vs.len(),
{
    if vs.len() == 0 {
        Ok(Seq::empty())
    } else {
        match spec_numbers(vs.drop_last()) {
            Err(e) => Err(e),
            Ok(ns) => match numeric(vs.last()) {
                Some(x) => Ok(ns.push(x)),
                None => Err(
                    EvalErrorView::NotNumeric(
                        match vs.last() {
                            ValueView::Text(s) => s,
                            ValueView::Int(_) => Seq::empty(),
                        },
                    ),
                ),
            },
        }
    }
}

/// The sum of a sequence of integers.
pub open spec fn seq_sum(ns: Seq<int>) -> int
    decreases ns.len(),
{
    if ns.len() == 0 {
        0
    } else {
        seq_sum(ns.drop_last()) + ns.last()
    }
}

/// The least of a non-empty sequence of integers.
pub open spec fn seq_min(ns: Seq<int>) -> int
    decreases ns.len(),
{
    if ns.len() <= 1 {
        ns[0]
    } else if ns.last() < seq_min(ns.drop_last()) {
        ns.last()
    } else {
        seq_min(ns.drop_last())
    }
}

/// The greatest of a non-empty sequence of integers.
pub open spec fn seq_max(ns: Seq<int>) -> int
    decreases ns.len(),
{
    if ns.len() <= 1 {
        ns[0]
    } else if ns.last() > seq_max(ns.drop_last()) {
        ns.last()
    } else {
        seq_max(ns.drop_last())
    }
}

/// `s / n` rounded toward zero, for `n > 0`.
pub open spec fn div_toward_zero(s: int, n: int) -> int {
    if s >= 0 {
        s / n
    } else {
        -((-s) / n)
    }
}

/// A single integer value, if it fits in 64 bits.
pub open spec fn int_result(x: int) -> Result<Seq<ValueView>, EvalErrorView> {
    if i64::MIN <= x <= i64::MAX {
        Ok(seq![ValueView::Int(x)])
    } else {
        Err(EvalErrorView::Overflow)
    }
}

/// The stream reduced to at most one value. `Count` counts, `Any` keeps
/// the first value; the others read every value as an integer, and an empty
/// stream has no minimum, maximum or average and sums to zero.
pub open spec fn spec_aggregate(a: AggregationType, vs: Seq<ValueView>) -> Result<
    Seq<ValueView>,
    EvalErrorView,
> {
    match a {
        AggregationType::Count => int_result(vs.len() as int),
        AggregationType::Any => if vs.len() == 0 {
            Ok(Seq::empty())
        } else {
            Ok(seq![vs[0]])
        },
        _ => match spec_numbers(vs) {
            Err(e) => Err(e),
            Ok(ns) => match a {
                AggregationType::Sum => int_result(seq_sum(ns)),
                AggregationType::Min => if ns.len() == 0 {
                    Ok(Seq::empty())
                } else {
                    int_result(seq_min(ns))
                },
                AggregationType::Max => if ns.len() == 0 {
                    Ok(Seq::empty())
                } else {
                    int_result(seq_max(ns))
                },
                _ => if ns.len() == 0 {
                    Ok(Seq::empty())
                } else {
                    int_result(div_toward_zero(seq_sum(ns), ns.len() as int))
                },
            },
        },
    }
}

/// One transformation applied to a stream.
pub open spec fn spec_transform(t: TransformationView, vs: Seq<ValueView>) -> Result<
    Seq<ValueView>,
    EvalErrorView,
> {
    match t {
        TransformationView::Aggregate(a) => spec_aggregate(a, vs),
        TransformationView::Filter(e) => match spec_condition(e) {
            Some((c, n)) => Ok(spec_filter(c, n, vs)),
            None => Err(EvalErrorView::InvalidExpression(e)),
        },
        TransformationView::MapValue(e) => spec_map(e, vs),
    }
}

/// The transformations applied left to right.
pub open spec fn spec_pipeline(ts: Seq<TransformationView>, vs: Seq<ValueView>) -> Result<
    Seq<ValueView>,
    EvalErrorView,
>
    decreases ts.len(),
{
    if ts.len() == 0 {
        Ok(vs)
    } else {
        match spec_pipeline(ts.drop_last(), vs) {
            Err(e) => Err(e),
            Ok(ws) => spec_transform(ts.last(), ws),
        }
    }
}

proof fn lemma_first_op(s: Seq<char>, i: int)
    requires
        0 <= i < s.len(),
        is_op_char(s[i]),
        forall|k: int| 0 <= k < i ==> !is_op_char(s[k]),
    ensures
        first_op(s) == Some(i),
    decreases s.len(),
{
    if i > 0 {
        lemma_first_op(s.drop_first(), i - 1);
    }
}

proof fn lemma_first_op_none(s: Seq<char>)
    requires
        forall|k: int| 0 <= k < s.len() ==> !is_op_char(s[k]),
    ensures
        first_op(s) is None,
    decreases s.len(),
{
    if s.len() > 0 {
        lemma_first_op_none(s.drop_first());
    }
}

/// Reads a filter expression `operand OP integer`.
pub fn parse_condition(expr: &str) -> (r: Option<(Cmp, i64)>)
    ensures
        match spec_condition(expr@) {
            Some((c, n)) => r == Some((c, n as i64)),
            None => r is None,
        },
{
    let n = expr.unicode_len();
    let mut i: usize = 0;
    while i < n
        invariant
            n == expr@.len(),
            i <= n,
            forall|k: int| 0 <= k < i ==> !is_op_char(expr@[k]),
        decreases n - i,
    {
        let c = expr.get_char(i);
        if c == '<' || c == '>' || c == '=' || c == '!' {
            proof {
                lemma_first_op(expr@, i as int);
            }
            let with_eq = i + 1 < n && expr.get_char(i + 1) == '=';
            let after = if with_eq {
                i + 2
            } else {
                i + 1
            };
            let cmp = if with_eq {
                if c == '<' {
                    Some(Cmp::Le)
                } else if c == '>' {
                    Some(Cmp::Ge)
                } else if c == '=' {
                    Some(Cmp::Eq)
                } else {
                    Some(Cmp::Ne)
                }
            } else if c == '<' {
                Some(Cmp::Lt)
            } else if c == '>' {
                Some(Cmp::Gt)
            } else if c == '=' {
                Some(Cmp::Eq)
            } else {
                None
            };
            let rest = trim_str(expr.substring_char(after, n));
            let lit = parse_int(rest.as_str());
            return match (cmp, lit) {
                (Some(c), Some(x)) => Some((c, x)),
                _ => None,
            };
        }
        i = i + 1;
    }
    proof {
        lemma_first_op_none(expr@);
    }
    None
}

pub(crate) fn copy_value(v: &Value) -> (r: Value)
    ensures
        r@ == v@,
{
    match v {
        Value::Text(s) => Value::Text(s.clone()),
        Value::Int(n) => Value::Int(*n),
    }
}

/// The integer a value stands for, if any.
pub fn value_number(v: &Value) -> (r: Option<i64>)
    ensures
        match numeric(v@) {
            Some(x) => r == Some(x as i64),
            None => r is None,
        },
{
    match v {
        Value::Text(s) => parse_int(s.as_str()),
        Value::Int(n) => Some(*n),
    }
}

fn compare_exec(c: Cmp, x: i64, n: i64) -> (r: bool)
    ensures
        r == compare(c, x as int, n as int),
{
    match c {
        Cmp::Lt => x < n,
        Cmp::Le => x <= n,
        Cmp::Gt => x > n,
        Cmp::Ge => x >= n,
        Cmp::Eq => x == n,
        Cmp::Ne => x != n,
    }
}

/// The values that pass the condition, in order.
pub fn filter_values(c: Cmp, n: i64, vs: &Vec<Value>) -> (r: Vec<Value>)
    ensures
        value_views(r@) == spec_filter(c, n as int, value_views(vs@)),
{
    let ghost vv = value_views(vs@);
    let mut out: Vec<Value> = Vec::new();
    let mut i: usize = 0;
    assert(vv.subrange(0, 0) =~= Seq::<ValueView>::empty());
    assert(value_views(out@) =~= Seq::<ValueView>::empty());
    while i < vs.len()
        invariant
            vv == value_views(vs@),
            i <= vv.len(),
            value_views(out@) == spec_filter(c, n as int, vv.subrange(0, i as int)),
        decreases vv.len() - i,
    {
        assert(vv.subrange(0, i + 1).drop_last() =~= vv.subrange(0, i as int));
        assert(vv[i as int] == vs@[i as int]@);
        let keep = match value_number(&vs[i]) {
            Some(x) => compare_exec(c, x, n),
            None => false,
        };
        if keep {
            let ghost before = value_views(out@);
            let v = copy_value(&vs[i]);
            out.push(v);
            assert(value_views(out@) =~= before.push(v@));
        }
        i = i + 1;
    }
    assert(vv.subrange(0, i as int) =~= vv);
    out
}

fn fill_template(pieces: &Vec<String>, v: &String) -> (r: String)
    ensures
        r@ == spec_template(views(pieces@), v@),
{
    let ghost pv = views(pieces@);
    let mut acc = String::new();
    let mut k: usize = 0;
    assert(pv.subrange(0, 0) =~= Seq::<Seq<char>>::empty());
    while k < pieces.len()
        invariant
            pv == views(pieces@),
            k <= pv.len(),
            acc@ == spec_template(pv.subrange(0, k as int), v@),
        decreases pv.len() - k,
    {
        assert(pv.subrange(0, k + 1).drop_last() =~= pv.subrange(0, k as int));
        assert(pv[k as int] == pieces@[k as int]@);
        if k % 2 == 1 {
            acc.append(v.as_str());
        } else {
            acc.append(pieces[k].as_str());
        }
        k = k + 1;
    }
    assert(pv.subrange(0, k as int) =~= pv);
    acc
}

/// Every value rewritten by the template `expr`.
pub fn map_values(expr: &String, vs: &Vec<Value>) -> (r: Result<Vec<Value>, EvalError>)
    ensures
        match r {
            Ok(w) => spec_map(expr@, value_views(vs@)) == Ok::<Seq<ValueView>, EvalErrorView>(
                value_views(w@),
            ),
            Err(e) => spec_map(expr@, value_views(vs@)) == Err::<Seq<ValueView>, EvalErrorView>(
                e@,
            ),
        },
{
    let ghost vv = value_views(vs@);
    let pieces = split_str(expr.as_str(), '$');
    let mut out: Vec<Value> = Vec::new();
    let mut i: usize = 0;
    assert(vv.subrange(0, 0) =~= Seq::<ValueView>::empty());
    assert(value_views(out@) =~= Seq::<ValueView>::empty());
    while i < vs.len()
        invariant
            vv == value_views(vs@),
            views(pieces@) == split_on(expr@, '$'),
            i <= vv.len(),
            spec_map(expr@, vv.subrange(0, i as int)) == Ok::<Seq<ValueView>, EvalErrorView>(
                value_views(out@),
            ),
        decreases vv.len() - i,
    {
        let ghost pre = vv.subrange(0, i + 1);
        assert(pre.drop_last() =~= vv.subrange(0, i as int));
        assert(vv[i as int] == vs@[i as int]@);
        if pieces.len() % 2 == 0 {
            let e = EvalError::InvalidExpression(expr.clone());
            proof {
                lemma_map_error_persists(expr@, vv, i + 1);
            }
            return Err(e);
        }
        match &vs[i] {
            Value::Text(s) => {
                let ghost before = value_views(out@);
                let t = fill_template(&pieces, s);
                out.push(Value::Text(t));
                assert(value_views(out@) =~= before.push(ValueView::Text(t@)));
            },
            Value::Int(_) => {
                proof {
                    lemma_map_error_persists(expr@, vv, i + 1);
                }
                return Err(EvalError::MapOnNumber);
            },
        }
        i = i + 1;
    }
    assert(vv.subrange(0, i as int) =~= vv);
    Ok(out)
}

proof fn lemma_map_error_persists(expr: Seq<char>, vs: Seq<ValueView>, k: int)
    requires
        0 <= k <= vs.len(),
        spec_map(expr, vs.subrange(0, k)) is Err,
    ensures
        spec_map(expr, vs) == spec_map(expr, vs.subrange(0, k)),
    decreases vs.len() - k,
{
    if k < vs.len() {
        assert(vs.subrange(0, k + 1).drop_last() =~= vs.subrange(0, k));
        lemma_map_error_persists(expr, vs, k + 1);
    } else {
        assert(vs.subrange(0, k) =~= vs);
    }
}

proof fn lemma_numbers_error_persists(vs: Seq<ValueView>, k: int)
    requires
        0 <= k <= vs.len(),
        spec_numbers(vs.subrange(0, k)) is Err,
    ensures
        spec_numbers(vs) == spec_numbers(vs.subrange(0, k)),
    decreases vs.len() - k,
{
    if k < vs.len() {
        assert(vs.subrange(0, k + 1).drop_last() =~= vs.subrange(0, k));
        lemma_numbers_error_persists(vs, k + 1);
    } else {
        assert(vs.subrange(0, k) =~= vs);
    }
}

/// The integers of the values as a sequence of `int`.
pub open spec fn int_views(v: Seq<i64>) -> Seq<int> {
    v.map_values(|x: i64| x as int)
}

fn numbers(vs: &Vec<Value>) -> (r: Result<Vec<i64>, EvalError>)
    ensures
        match r {
            Ok(ns) => spec_numbers(value_views(vs@)) == Ok::<Seq<int>, EvalErrorView>(
                int_views(ns@),
            ),
            Err(e) => spec_numbers(value_views(vs@)) == Err::<Seq<int>, EvalErrorView>(e@),
        },
{
    let ghost vv = value_views(vs@);
    let mut out: Vec<i64> = Vec::new();
    let mut i: usize = 0;
    assert(vv.subrange(0, 0) =~= Seq::<ValueView>::empty());
    assert(int_views(out@) =~= Seq::<int>::empty());
    while i < vs.len()
        invariant
            vv == value_views(vs@),
            i <= vv.len(),
            spec_numbers(vv.subrange(0, i as int)) == Ok::<Seq<int>, EvalErrorView>(
                int_views(out@),
            ),
        decreases vv.len() - i,
    {
        assert(vv.subrange(0, i + 1).drop_last() =~= vv.subrange(0, i as int));
        assert(vv[i as int] == vs@[i as int]@);
        match value_number(&vs[i]) {
            Some(x) => {
                let ghost before = int_views(out@);
                out.push(x);
                assert(int_views(out@) =~= before.push(x as int));
            },
            None => {
                let text = match &vs[i] {
                    Value::Text(s) => s.clone(),
                    Value::Int(_) => String::new(),
                };
                proof {
                    lemma_numbers_error_persists(vv, i + 1);
                }
                return Err(EvalError::NotNumeric(text));
            },
        }
        i = i + 1;
    }
    assert(vv.subrange(0, i as int) =~= vv);
    Ok(out)
}

fn int_value(x: i128) -> (r: Result<Vec<Value>, EvalError>)
    ensures
        match int_result(x as int) {
            Ok(w) => r matches Ok(v) && value_views(v@) == w,
            Err(e) => r matches Err(f) && f@ == e,
        },
{
    if x < i64::MIN as i128 || x > i64::MAX as i128 {
        Err(EvalError::Overflow)
    } else {
        let v = vec![Value::Int(x as i64)];
        assert(value_views(v@) =~= seq![ValueView::Int(x as int)]);
        Ok(v)
    }
}

/// The stream reduced by an aggregation.
pub fn aggregate(a: AggregationType, vs: &Vec<Value>) -> (r: Result<Vec<Value>, EvalError>)
    ensures
        match r {
            Ok(w) => spec_aggregate(a, value_views(vs@)) == Ok::<Seq<ValueView>, EvalErrorView>(
                value_views(w@),
            ),
            Err(e) => spec_aggregate(a, value_views(vs@)) == Err::<Seq<ValueView>, EvalErrorView>(
                e@,
            ),
        },
{
    let ghost vv = value_views(vs@);
    match a {
        AggregationType::Count => {
            return int_value(vs.len() as i128);
        },
        AggregationType::Any => {
            if vs.len() == 0 {
                let v: Vec<Value> = Vec::new();
                assert(value_views(v@) =~= Seq::<ValueView>::empty());
                return Ok(v);
            } else {
                let v = vec![copy_value(&vs[0])];
                assert(value_views(v@) =~= seq![vv[0]]);
                return Ok(v);
            }
        },
        _ => {},
    }
    let ns = match numbers(vs) {
        Ok(ns) => ns,
        Err(e) => return Err(e),
    };
    let ghost nv = int_views(ns@);
    if ns.len() == 0 {
        if a == AggregationType::Sum {
            return int_value(0);
        }
        let v: Vec<Value> = Vec::new();
        assert(value_views(v@) =~= Seq::<ValueView>::empty());
        return Ok(v);
    }
    let mut sum: i128 = 0;
    let mut lo: i64 = ns[0];
    let mut hi: i64 = ns[0];
    let mut i: usize = 0;
    let big: i128 = 0x8000_0000_0000_0000;
    assert(nv.subrange(0, 0) =~= Seq::<int>::empty());
    assert(nv.subrange(0, 1) =~= seq![nv[0]]);
    while i < ns.len()
        invariant
            nv == int_views(ns@),
            nv.len() > 0,
            i <= nv.len(),
            big == 0x8000_0000_0000_0000i128,
            sum as int == seq_sum(nv.subrange(0, i as int)),
            -(i as int) * big <= sum <= (i as int) * big,
            i > 0 ==> lo as int == seq_min(nv.subrange(0, i as int)),
            i > 0 ==> hi as int == seq_max(nv.subrange(0, i as int)),
            i == 0 ==> lo == ns@[0] && hi == ns@[0],
            ns@.len() <= usize::MAX,
        decreases nv.len() - i,
    {
        let x = ns[i];
        let ghost pre = nv.subrange(0, i + 1);
        assert(pre.drop_last() =~= nv.subrange(0, i as int));
        assert(pre.last() == x as int);
        sum = sum + x as i128;
        if i > 0 {
            if x < lo {
                lo = x;
            }
            if x > hi {
                hi = x;
            }
        } else {
            assert(pre.len() == 1);
        }
        i = i + 1;
    }
    assert(nv.subrange(0, i as int) =~= nv);
    match a {
        AggregationType::Sum => int_value(sum),
        AggregationType::Min => int_value(lo as i128),
        AggregationType::Max => int_value(hi as i128),
        _ => {
            let n = ns.len() as u128;
            let q: i128 = if sum >= 0 {
                ((sum as u128) / n) as i128
            } else {
                -((((-sum) as u128) / n) as i128)
            };
            int_value(q)
        },
    }
}

/// One transformation applied to a stream.
pub fn apply_transformation(t: &Transformation, vs: &Vec<Value>) -> (r: Result<Vec<Value>, EvalError>)
    ensures
        match r {
            Ok(w) => spec_transform(t@, value_views(vs@)) == Ok::<Seq<ValueView>, EvalErrorView>(
                value_views(w@),
            ),
            Err(e) => spec_transform(t@, value_views(vs@)) == Err::<Seq<ValueView>, EvalErrorView>(
                e@,
            ),
        },
{
    match t {
        Transformation::Aggregate(a) => aggregate(*a, vs),
        Transformation::Filter(e) => match parse_condition(e.as_str()) {
            Some((c, n)) => Ok(filter_values(c, n, vs)),
            None => Err(EvalError::InvalidExpression(e.clone())),
        },
        Transformation::MapValue(e) => map_values(e, vs),
    }
}

/// A pipeline applied left to right; the first failing step is the error.
#[verifier::loop_isolation(false)]
pub fn apply_pipeline(ts: &Vec<Transformation>, vs: Vec<Value>) -> (r: Result<Vec<Value>, EvalError>)
    ensures
        match r {
            Ok(w) => spec_pipeline(transformation_views(ts@), value_views(vs@)) == Ok::<
                Seq<ValueView>,
                EvalErrorView,
            >(value_views(w@)),
            Err(e) => spec_pipeline(transformation_views(ts@), value_views(vs@)) == Err::<
                Seq<ValueView>,
                EvalErrorView,
            >(e@),
        },
{
    let ghost tv = transformation_views(ts@);
    let ghost v0 = value_views(vs@);
    let mut cur = vs;
    let mut k: usize = 0;
    assert(tv.subrange(0, 0) =~= Seq::<TransformationView>::empty());
    while k < ts.len()
        invariant
            tv == transformation_views(ts@),
            k <= tv.len(),
            spec_pipeline(tv.subrange(0, k as int), v0) == Ok::<Seq<ValueView>, EvalErrorView>(
                value_views(cur@),
            ),
        decreases tv.len() - k,
    {
        let ghost pre = tv.subrange(0, k + 1);
        assert(pre.drop_last() =~= tv.subrange(0, k as int));
        assert(pre.last() == ts@[k as int]@);
        match apply_transformation(&ts[k], &cur) {
            Ok(w) => {
                cur = w;
            },
            Err(e) => {
                assert(spec_pipeline(pre, v0) == Err::<Seq<ValueView>, EvalErrorView>(e@));
                proof {
                    lemma_pipeline_error_persists(tv, v0, k + 1);
                }
                return Err(e);
            },
        }
        k = k + 1;
    }
    assert(tv.subrange(0, k as int) =~= tv);
    Ok(cur)
}

proof fn lemma_pipeline_error_persists(ts: Seq<TransformationView>, vs: Seq<ValueView>, k: int)
    requires
        0 <= k <= ts.len(),
        spec_pipeline(ts.subrange(0, k), vs) is Err,
    ensures
        spec_pipeline(ts, vs) == spec_pipeline(ts.subrange(0, k), vs),
    decreases ts.len() - k,
{
    if k < ts.len() {
        assert(ts.subrange(0, k + 1).drop_last() =~= ts.subrange(0, k));
        lemma_pipeline_error_persists(ts, vs, k + 1);
    } else {
        assert(ts.subrange(0, k) =~= ts);
    }
}

} // verus!
