//! The integer, choice and boolean parameters of a search space: which
//! values they accept and which values they range over. (Float parameters
//! map points with floating-point arithmetic and are handled by the caller.)

use vstd::prelude::*;

use crate::sampler::list_contains;
use crate::text::{i64_text, parse_i64, parse_i64_spec, signed_decimal, str_eq, views};

verus! {

/// An integer value is accepted when it parses, lies in `[min, max]` and,
/// with a positive `step`, is a whole number of steps above `min`.
pub open spec fn int_accepts(value: Seq<char>, min: i64, max: i64, step: Option<i64>) -> bool {
    match parse_i64_spec(value) {
        None => false,
        Some(v) => min <= v <= max && match step {
            Some(st) => st <= 0 || (v - min) % (st as int) == 0,
            None => true,
        },
    }
}

/// Whether an integer parameter accepts `value` (see `int_accepts`).
pub fn int_value_valid(value: &str, min: i64, max: i64, step: Option<i64>) -> (r: bool)
    ensures
        r == int_accepts(value@, min, max, step),
{
    match parse_i64(value) {
        None => false,
        Some(v) => {
            if v < min || v > max {
                return false;
            }
            match step {
                Some(st) => {
                    if st <= 0 {
                        true
                    } else {
                        let diff: i128 = (v as i128) - (min as i128);
                        let m: i128 = diff % (st as i128);
                        m == 0
                    }
                },
                None => true,
            }
        },
    }
}

/// The step of an integer parameter: the given one, else one.
pub open spec fn int_step(step: Option<i64>) -> int {
    match step {
        Some(s) => s as int,
        None => 1,
    }
}

/// How many steps an integer parameter takes from `min` to reach `max`
/// (rounding up), when the step is positive and `min <= max`.
pub open spec fn int_steps(min: i64, max: i64, step: Option<i64>) -> int {
    (max - min + int_step(step) - 1) / int_step(step)
}

/// How many values an integer parameter has: none with a step that is not
/// positive, zero when `max < min`, else one more than its steps, when
/// that fits in a `usize`.
pub open spec fn int_count(min: i64, max: i64, step: Option<i64>) -> Option<int> {
    if int_step(step) <= 0 {
        None
    } else if max < min {
        Some(0)
    } else if int_steps(min, max, step) + 1 <= usize::MAX {
        Some(int_steps(min, max, step) + 1)
    } else {
        None
    }
}

/// The number of values of an integer parameter (see `int_count`).
pub fn int_value_count(min: i64, max: i64, step: Option<i64>) -> (r: Option<usize>)
    ensures
        match int_count(min, max, step) {
            Some(n) => r == Some(n as usize),
            None => r is None,
        },
{
    let st: i64 = match step {
        Some(s) => s,
        None => 1,
    };
    if st <= 0 {
        return None;
    }
    if max < min {
        return Some(0);
    }
    let range: i128 = (max as i128) - (min as i128);
    let steps: i128 = (range + (st as i128) - 1) / (st as i128);
    let n: i128 = steps + 1;
    if n <= usize::MAX as i128 {
        Some(n as usize)
    } else {
        None
    }
}

/// The `i`-th value of an integer parameter: `min + i * step`, capped at
/// `max`.
pub open spec fn int_value_at(min: i64, max: i64, step: Option<i64>, i: int) -> int {
    let v = min + i * int_step(step);
    if v > max {
        max as int
    } else {
        v
    }
}

/// The values of an integer parameter, as text: from `min` in steps, the
/// last one capped at `max`; none when the step is not positive, and an
/// empty list when `max < min`.
pub fn int_values(min: i64, max: i64, step: Option<i64>) -> (r: Option<Vec<String>>)
    ensures
        match int_count(min, max, step) {
            Some(n) => r matches Some(v) && v@.len() == n && forall|i: int|
                0 <= i < n ==> #[trigger] v@[i]@ == signed_decimal(int_value_at(min, max, step, i)),
            None => r is None,
        },
{
    let st: i64 = match step {
        Some(s) => s,
        None => 1,
    };
    if st <= 0 {
        return None;
    }
    if max < min {
        return Some(Vec::new());
    }
    let count = match int_value_count(min, max, step) {
        Some(c) => c,
        None => {
            return None;
        },
    };
    let mut out: Vec<String> = Vec::new();
    let mut i: usize = 0;
    while i < count
        invariant
            st as int == int_step(step),
            st > 0,
            min <= max,
            i <= count,
            count as int == int_steps(min, max, step) + 1,
            out@.len() == i,
            forall|j: int|
                0 <= j < i ==> #[trigger] out@[j]@ == signed_decimal(int_value_at(min, max, step, j)),
        decreases count - i,
    {
        proof {
            assert(i <= int_steps(min, max, step));
            assert((i as int) * (st as int) <= (max - min + st - 1)) by (nonlinear_arith)
                requires
                    i <= (max - min + st - 1) / (st as int),
                    st > 0,
                    max - min + st - 1 >= 0,
            ;
        }
        let raw: i128 = (min as i128) + (i as i128) * (st as i128);
        let v: i64 = if raw > max as i128 {
            max
        } else {
            raw as i64
        };
        out.push(i64_text(v));
        i = i + 1;
    }
    Some(out)
}

/// Whether a choice parameter accepts `value`: it is one of the choices.
pub fn choice_value_valid(values: &[String], value: &str) -> (r: bool)
    ensures
        r == views(values@).contains(value@),
{
    list_contains(values, value)
}

/// Whether a boolean parameter accepts `value`: `true` or `false`.
pub fn bool_value_valid(value: &str) -> (r: bool)
    ensures
        r == (value@ == "true"@ || value@ == "false"@),
{
    str_eq(value, "true") || str_eq(value, "false")
}

/// The values a boolean parameter ranges over, in order: `false`, `true`.
pub fn bool_values() -> (r: Vec<String>)
    ensures
        views(r@) == seq!["false"@, "true"@],
{
    let r = vec!["false".to_owned(), "true".to_owned()];
    assert(views(r@) =~= seq!["false"@, "true"@]);
    r
}

} // verus!
