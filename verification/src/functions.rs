//! The primitive functions and their shared broadcasting rule.
//!
//! Every primitive applies the same way: scalar against scalar gives a
//! scalar; vector against vector works element-wise and demands equal
//! lengths; scalar against vector broadcasts the scalar to every position.
//! Anything else — a function or an empty result as an operand — is a domain
//! error.
//!
//! The semantics is fixed by spec functions over the scaled integer views;
//! each executable function is proved to return exactly what they say.

use vstd::prelude::*;
use crate::error::Error;
use crate::num::{ceil18, fits, floor18, prod_fits, view_unit, Num};
use crate::value::{nums_view, res_view, DyadicPrimitive, MonadicPrimitive, Value, ValueV};

verus! {

/// What a monadic primitive returns on the number with view `x`: the
/// conjugate is the identity, the direction of zero is a domain error, and
/// floor and ceiling round to integers.
pub open spec fn spec_monadic_num(p: MonadicPrimitive, x: int) -> Result<int, Error> {
    match p {
        MonadicPrimitive::Conjugate => Ok(x),
        MonadicPrimitive::Direction => if x == 0 {
            Err(Error::Domain)
        } else if x > 0 {
            Ok(view_unit())
        } else {
            Ok(-view_unit())
        },
        MonadicPrimitive::Ceiling => Ok(ceil18(x) * view_unit()),
        MonadicPrimitive::Floor => Ok(floor18(x) * view_unit()),
    }
}

/// What a dyadic primitive returns on the numbers with views `x` and `y`:
/// exact sums and products, reporting `Limit` where the exact result has no
/// representation; maximum and minimum are total.
pub open spec fn spec_dyadic_num(p: DyadicPrimitive, x: int, y: int) -> Result<int, Error> {
    match p {
        DyadicPrimitive::Plus => if fits(x + y) {
            Ok(x + y)
        } else {
            Err(Error::Limit)
        },
        DyadicPrimitive::Times => if prod_fits(x, y) {
            Ok((x * y) / view_unit())
        } else {
            Err(Error::Limit)
        },
        DyadicPrimitive::Maximum => Ok(
            if x >= y {
                x
            } else {
                y
            },
        ),
        DyadicPrimitive::Minimum => Ok(
            if x <= y {
                x
            } else {
                y
            },
        ),
    }
}

/// The monadic primitive applied to every element from position `i` on,
/// stopping at the first failing element.
pub open spec fn spec_map_monadic(p: MonadicPrimitive, s: Seq<int>, i: int) -> Result<
    Seq<int>,
    Error,
>
    decreases s.len() - i,
{
    if i < 0 || i >= s.len() {
        Ok(Seq::empty())
    } else {
        match spec_monadic_num(p, s[i]) {
            Err(e) => Err(e),
            Ok(v) => match spec_map_monadic(p, s, i + 1) {
                Err(e) => Err(e),
                Ok(rest) => Ok(seq![v] + rest),
            },
        }
    }
}

/// The dyadic primitive applied position by position to two equally long
/// vectors, from position `i` on.
pub open spec fn spec_zip_dyadic(p: DyadicPrimitive, a: Seq<int>, b: Seq<int>, i: int) -> Result<
    Seq<int>,
    Error,
>
    decreases a.len() - i,
{
    if i < 0 || i >= a.len() {
        Ok(Seq::empty())
    } else {
        match spec_dyadic_num(p, a[i], b[i]) {
            Err(e) => Err(e),
            Ok(v) => match spec_zip_dyadic(p, a, b, i + 1) {
                Err(e) => Err(e),
                Ok(rest) => Ok(seq![v] + rest),
            },
        }
    }
}

/// The scalar `x` broadcast from the left against every element of `s`.
pub open spec fn spec_bcast_left(p: DyadicPrimitive, x: int, s: Seq<int>, i: int) -> Result<
    Seq<int>,
    Error,
>
    decreases s.len() - i,
{
    if i < 0 || i >= s.len() {
        Ok(Seq::empty())
    } else {
        match spec_dyadic_num(p, x, s[i]) {
            Err(e) => Err(e),
            Ok(v) => match spec_bcast_left(p, x, s, i + 1) {
                Err(e) => Err(e),
                Ok(rest) => Ok(seq![v] + rest),
            },
        }
    }
}

/// The scalar `y` broadcast from the right against every element of `s`.
pub open spec fn spec_bcast_right(p: DyadicPrimitive, s: Seq<int>, y: int, i: int) -> Result<
    Seq<int>,
    Error,
>
    decreases s.len() - i,
{
    if i < 0 || i >= s.len() {
        Ok(Seq::empty())
    } else {
        match spec_dyadic_num(p, s[i], y) {
            Err(e) => Err(e),
            Ok(v) => match spec_bcast_right(p, s, y, i + 1) {
                Err(e) => Err(e),
                Ok(rest) => Ok(seq![v] + rest),
            },
        }
    }
}

/// The left fold of the dyadic primitive: the accumulator after positions
/// `i, i+1, …` have been folded in.
pub open spec fn spec_fold(p: DyadicPrimitive, acc: int, s: Seq<int>, i: int) -> Result<int, Error>
    decreases s.len() - i,
{
    if i < 0 || i >= s.len() {
        Ok(acc)
    } else {
        match spec_dyadic_num(p, acc, s[i]) {
            Err(e) => Err(e),
            Ok(v) => spec_fold(p, v, s, i + 1),
        }
    }
}

/// A monadic primitive on a whole value, under the shared broadcasting rule.
pub open spec fn spec_apply_monadic(p: MonadicPrimitive, v: ValueV) -> Result<ValueV, Error> {
    match v {
        ValueV::Number(x) => match spec_monadic_num(p, x) {
            Err(e) => Err(e),
            Ok(r) => Ok(ValueV::Number(r)),
        },
        ValueV::Array(s) => match spec_map_monadic(p, s, 0) {
            Err(e) => Err(e),
            Ok(t) => Ok(ValueV::Array(t)),
        },
        _ => Err(Error::Domain),
    }
}

/// A dyadic primitive on two whole values, under the shared broadcasting
/// rule: vectors must agree in length, a scalar is broadcast against a
/// vector.
pub open spec fn spec_apply_dyadic(p: DyadicPrimitive, a: ValueV, b: ValueV) -> Result<
    ValueV,
    Error,
> {
    match (a, b) {
        (ValueV::Number(x), ValueV::Number(y)) => match spec_dyadic_num(p, x, y) {
            Err(e) => Err(e),
            Ok(r) => Ok(ValueV::Number(r)),
        },
        (ValueV::Array(s), ValueV::Array(t)) => if s.len() != t.len() {
            Err(Error::Domain)
        } else {
            match spec_zip_dyadic(p, s, t, 0) {
                Err(e) => Err(e),
                Ok(u) => Ok(ValueV::Array(u)),
            }
        },
        (ValueV::Number(x), ValueV::Array(t)) => match spec_bcast_left(p, x, t, 0) {
            Err(e) => Err(e),
            Ok(u) => Ok(ValueV::Array(u)),
        },
        (ValueV::Array(s), ValueV::Number(y)) => match spec_bcast_right(p, s, y, 0) {
            Err(e) => Err(e),
            Ok(u) => Ok(ValueV::Array(u)),
        },
        _ => Err(Error::Domain),
    }
}

/// Where the element-wise applications all succeed, a map keeps the length
/// and applies the primitive at each position, in order.
pub proof fn lemma_map_monadic_shape(p: MonadicPrimitive, s: Seq<int>, i: int)
    requires
        0 <= i <= s.len(),
        forall|k: int| i <= k < s.len() ==> #[trigger] spec_monadic_num(p, s[k]) is Ok,
    ensures
        spec_map_monadic(p, s, i) matches Ok(t) && t.len() == s.len() - i && forall|k: int|
            0 <= k < s.len() - i ==> t[k] == spec_monadic_num(p, s[i + k])->Ok_0,
    decreases s.len() - i,
{
    if i < s.len() {
        lemma_map_monadic_shape(p, s, i + 1);
    }
}

/// The same shape fact for a scalar broadcast from the right.
pub proof fn lemma_bcast_right_shape(p: DyadicPrimitive, s: Seq<int>, y: int, i: int)
    requires
        0 <= i <= s.len(),
        forall|k: int| i <= k < s.len() ==> #[trigger] spec_dyadic_num(p, s[k], y) is Ok,
    ensures
        spec_bcast_right(p, s, y, i) matches Ok(u) && u.len() == s.len() - i && forall|k: int|
            0 <= k < s.len() - i ==> u[k] == spec_dyadic_num(p, s[i + k], y)->Ok_0,
    decreases s.len() - i,
{
    if i < s.len() {
        lemma_bcast_right_shape(p, s, y, i + 1);
    }
}

/// The broadcast laws of addition: two numbers add exactly; a vector plus a
/// scalar adds the scalar at every position, keeping length and order; two
/// vectors of different lengths are a domain error.  The representable-sum
/// hypotheses name the machine limit: a sum outside the number range reports
/// `Limit` instead of a value.
pub proof fn lemma_plus_broadcast(a: int, b: int, v: Seq<int>, w: Seq<int>)
    ensures
        fits(a + b) ==> spec_apply_dyadic(
            DyadicPrimitive::Plus,
            ValueV::Number(a),
            ValueV::Number(b),
        ) == Ok::<ValueV, Error>(ValueV::Number(a + b)),
        (forall|i: int| 0 <= i < v.len() ==> fits(#[trigger] v[i] + b)) ==> (spec_apply_dyadic(
            DyadicPrimitive::Plus,
            ValueV::Array(v),
            ValueV::Number(b),
        ) matches Ok(u) && u matches ValueV::Array(t) && t.len() == v.len() && forall|i: int|
            0 <= i < v.len() ==> t[i] == v[i] + b),
        v.len() != w.len() ==> spec_apply_dyadic(
            DyadicPrimitive::Plus,
            ValueV::Array(v),
            ValueV::Array(w),
        ) == Err::<ValueV, Error>(Error::Domain),
{
    if forall|i: int| 0 <= i < v.len() ==> fits(#[trigger] v[i] + b) {
        assert(forall|k: int| 0 <= k < v.len() ==> #[trigger] spec_dyadic_num(
            DyadicPrimitive::Plus,
            v[k],
            b,
        ) is Ok);
        lemma_bcast_right_shape(DyadicPrimitive::Plus, v, b, 0);
    }
}

/// One monadic primitive on one number.
fn monadic_num(p: MonadicPrimitive, x: Num) -> (r: Result<Num, Error>)
    ensures
        match r {
            Ok(n) => spec_monadic_num(p, x@) == Ok::<int, Error>(n@),
            Err(e) => spec_monadic_num(p, x@) == Err::<int, Error>(e),
        },
{
    match p {
        MonadicPrimitive::Conjugate => Ok(x),
        MonadicPrimitive::Direction => {
            if x.is_zero() {
                Err(Error::Domain)
            } else {
                Ok(x.signum())
            }
        },
        MonadicPrimitive::Ceiling => Ok(x.ceil()),
        MonadicPrimitive::Floor => Ok(x.floor()),
    }
}

/// One dyadic primitive on two numbers.
fn dyadic_num(p: DyadicPrimitive, x: Num, y: Num) -> (r: Result<Num, Error>)
    ensures
        match r {
            Ok(n) => spec_dyadic_num(p, x@, y@) == Ok::<int, Error>(n@),
            Err(e) => spec_dyadic_num(p, x@, y@) == Err::<int, Error>(e),
        },
{
    match p {
        DyadicPrimitive::Plus => x.add(&y),
        DyadicPrimitive::Times => x.mul(&y),
        DyadicPrimitive::Maximum => {
            if x.le(&y) {
                Ok(y)
            } else {
                Ok(x)
            }
        },
        DyadicPrimitive::Minimum => {
            if x.le(&y) {
                Ok(x)
            } else {
                Ok(y)
            }
        },
    }
}

/// A monadic primitive mapped over a vector.
pub(crate) fn map_monadic_vec(p: MonadicPrimitive, v: &Vec<Num>) -> (r: Result<Vec<Num>, Error>)
    ensures
        match r {
            Ok(out) => spec_map_monadic(p, nums_view(v@), 0) == Ok::<Seq<int>, Error>(
                nums_view(out@),
            ),
            Err(e) => spec_map_monadic(p, nums_view(v@), 0) == Err::<Seq<int>, Error>(e),
        },
{
    let ghost sv = nums_view(v@);
    let mut out: Vec<Num> = Vec::new();
    let mut i: usize = 0;
    while i < v.len()
        invariant
            sv == nums_view(v@),
            sv.len() == v@.len(),
            i <= v@.len(),
            match spec_map_monadic(p, sv, i as int) {
                Ok(rest) => spec_map_monadic(p, sv, 0) == Ok::<Seq<int>, Error>(
                    nums_view(out@) + rest,
                ),
                Err(e) => spec_map_monadic(p, sv, 0) == Err::<Seq<int>, Error>(e),
            },
        decreases v@.len() - i,
    {
        match monadic_num(p, v[i]) {
            Err(e) => {
                return Err(e);
            },
            Ok(n) => {
                let ghost before = out@;
                out.push(n);
                proof {
                    assert(nums_view(out@) =~= nums_view(before).push(n@));
                    if spec_map_monadic(p, sv, i + 1) is Ok {
                        let rest = spec_map_monadic(p, sv, i + 1)->Ok_0;
                        assert(nums_view(before) + (seq![n@] + rest) =~= nums_view(out@) + rest);
                    }
                }
            },
        }
        i = i + 1;
    }
    proof {
        assert(nums_view(out@) + Seq::<int>::empty() =~= nums_view(out@));
    }
    Ok(out)
}

/// A dyadic primitive zipped over two equally long vectors.
fn zip_dyadic(p: DyadicPrimitive, a: &Vec<Num>, b: &Vec<Num>) -> (r: Result<Vec<Num>, Error>)
    requires
        a@.len() == b@.len(),
    ensures
        match r {
            Ok(out) => spec_zip_dyadic(p, nums_view(a@), nums_view(b@), 0) == Ok::<
                Seq<int>,
                Error,
            >(nums_view(out@)),
            Err(e) => spec_zip_dyadic(p, nums_view(a@), nums_view(b@), 0) == Err::<
                Seq<int>,
                Error,
            >(e),
        },
{
    let ghost av = nums_view(a@);
    let ghost bv = nums_view(b@);
    let mut out: Vec<Num> = Vec::new();
    let mut i: usize = 0;
    while i < a.len()
        invariant
            av == nums_view(a@),
            bv == nums_view(b@),
            av.len() == a@.len(),
            bv.len() == b@.len(),
            a@.len() == b@.len(),
            i <= a@.len(),
            match spec_zip_dyadic(p, av, bv, i as int) {
                Ok(rest) => spec_zip_dyadic(p, av, bv, 0) == Ok::<Seq<int>, Error>(
                    nums_view(out@) + rest,
                ),
                Err(e) => spec_zip_dyadic(p, av, bv, 0) == Err::<Seq<int>, Error>(e),
            },
        decreases a@.len() - i,
    {
        match dyadic_num(p, a[i], b[i]) {
            Err(e) => {
                return Err(e);
            },
            Ok(n) => {
                let ghost before = out@;
                out.push(n);
                proof {
                    assert(nums_view(out@) =~= nums_view(before).push(n@));
                    if spec_zip_dyadic(p, av, bv, i + 1) is Ok {
                        let rest = spec_zip_dyadic(p, av, bv, i + 1)->Ok_0;
                        assert(nums_view(before) + (seq![n@] + rest) =~= nums_view(out@) + rest);
                    }
                }
            },
        }
        i = i + 1;
    }
    proof {
        assert(nums_view(out@) + Seq::<int>::empty() =~= nums_view(out@));
    }
    Ok(out)
}

/// A scalar broadcast from the left over a vector.
fn bcast_left(p: DyadicPrimitive, x: Num, v: &Vec<Num>) -> (r: Result<Vec<Num>, Error>)
    ensures
        match r {
            Ok(out) => spec_bcast_left(p, x@, nums_view(v@), 0) == Ok::<Seq<int>, Error>(
                nums_view(out@),
            ),
            Err(e) => spec_bcast_left(p, x@, nums_view(v@), 0) == Err::<Seq<int>, Error>(e),
        },
{
    let ghost sv = nums_view(v@);
    let mut out: Vec<Num> = Vec::new();
    let mut i: usize = 0;
    while i < v.len()
        invariant
            sv == nums_view(v@),
            sv.len() == v@.len(),
            i <= v@.len(),
            match spec_bcast_left(p, x@, sv, i as int) {
                Ok(rest) => spec_bcast_left(p, x@, sv, 0) == Ok::<Seq<int>, Error>(
                    nums_view(out@) + rest,
                ),
                Err(e) => spec_bcast_left(p, x@, sv, 0) == Err::<Seq<int>, Error>(e),
            },
        decreases v@.len() - i,
    {
        match dyadic_num(p, x, v[i]) {
            Err(e) => {
                return Err(e);
            },
            Ok(n) => {
                let ghost before = out@;
                out.push(n);
                proof {
                    assert(nums_view(out@) =~= nums_view(before).push(n@));
                    if spec_bcast_left(p, x@, sv, i + 1) is Ok {
                        let rest = spec_bcast_left(p, x@, sv, i + 1)->Ok_0;
                        assert(nums_view(before) + (seq![n@] + rest) =~= nums_view(out@) + rest);
                    }
                }
            },
        }
        i = i + 1;
    }
    proof {
        assert(nums_view(out@) + Seq::<int>::empty() =~= nums_view(out@));
    }
    Ok(out)
}

/// A scalar broadcast from the right over a vector.
fn bcast_right(p: DyadicPrimitive, v: &Vec<Num>, y: Num) -> (r: Result<Vec<Num>, Error>)
    ensures
        match r {
            Ok(out) => spec_bcast_right(p, nums_view(v@), y@, 0) == Ok::<Seq<int>, Error>(
                nums_view(out@),
            ),
            Err(e) => spec_bcast_right(p, nums_view(v@), y@, 0) == Err::<Seq<int>, Error>(e),
        },
{
    let ghost sv = nums_view(v@);
    let mut out: Vec<Num> = Vec::new();
    let mut i: usize = 0;
    while i < v.len()
        invariant
            sv == nums_view(v@),
            sv.len() == v@.len(),
            i <= v@.len(),
            match spec_bcast_right(p, sv, y@, i as int) {
                Ok(rest) => spec_bcast_right(p, sv, y@, 0) == Ok::<Seq<int>, Error>(
                    nums_view(out@) + rest,
                ),
                Err(e) => spec_bcast_right(p, sv, y@, 0) == Err::<Seq<int>, Error>(e),
            },
        decreases v@.len() - i,
    {
        match dyadic_num(p, v[i], y) {
            Err(e) => {
                return Err(e);
            },
            Ok(n) => {
                let ghost before = out@;
                out.push(n);
                proof {
                    assert(nums_view(out@) =~= nums_view(before).push(n@));
                    if spec_bcast_right(p, sv, y@, i + 1) is Ok {
                        let rest = spec_bcast_right(p, sv, y@, i + 1)->Ok_0;
                        assert(nums_view(before) + (seq![n@] + rest) =~= nums_view(out@) + rest);
                    }
                }
            },
        }
        i = i + 1;
    }
    proof {
        assert(nums_view(out@) + Seq::<int>::empty() =~= nums_view(out@));
    }
    Ok(out)
}

/// The left fold of a dyadic primitive over a vector of at least one
/// element, starting from its first.
pub(crate) fn fold_dyadic(p: DyadicPrimitive, v: &Vec<Num>) -> (r: Result<Num, Error>)
    requires
        v@.len() >= 1,
    ensures
        match r {
            Ok(n) => spec_fold(p, nums_view(v@)[0], nums_view(v@), 1) == Ok::<int, Error>(n@),
            Err(e) => spec_fold(p, nums_view(v@)[0], nums_view(v@), 1) == Err::<int, Error>(e),
        },
{
    let ghost sv = nums_view(v@);
    let mut acc: Num = v[0];
    let mut i: usize = 1;
    while i < v.len()
        invariant
            sv == nums_view(v@),
            sv.len() == v@.len(),
            1 <= i <= v@.len(),
            spec_fold(p, sv[0], sv, 1) == spec_fold(p, acc@, sv, i as int),
        decreases v@.len() - i,
    {
        match dyadic_num(p, acc, v[i]) {
            Err(e) => {
                return Err(e);
            },
            Ok(n) => {
                acc = n;
            },
        }
        i = i + 1;
    }
    Ok(acc)
}

/// A monadic primitive on a whole value.
pub(crate) fn apply_monadic(p: MonadicPrimitive, omega: &Value) -> (r: Result<Value, Error>)
    ensures
        res_view(r) == spec_apply_monadic(p, omega@),
{
    match omega {
        Value::Number(x) => match monadic_num(p, *x) {
            Err(e) => Err(e),
            Ok(n) => Ok(Value::Number(n)),
        },
        Value::Array(v) => match map_monadic_vec(p, v) {
            Err(e) => Err(e),
            Ok(out) => Ok(Value::Array(out)),
        },
        _ => Err(Error::Domain),
    }
}

/// A dyadic primitive on two whole values.
pub(crate) fn apply_dyadic(p: DyadicPrimitive, alpha: &Value, omega: &Value) -> (r: Result<
    Value,
    Error,
>)
    ensures
        res_view(r) == spec_apply_dyadic(p, alpha@, omega@),
{
    match (alpha, omega) {
        (Value::Number(x), Value::Number(y)) => match dyadic_num(p, *x, *y) {
            Err(e) => Err(e),
            Ok(n) => Ok(Value::Number(n)),
        },
        (Value::Array(s), Value::Array(t)) => {
            if s.len() != t.len() {
                Err(Error::Domain)
            } else {
                match zip_dyadic(p, s, t) {
                    Err(e) => Err(e),
                    Ok(out) => Ok(Value::Array(out)),
                }
            }
        },
        (Value::Number(x), Value::Array(t)) => match bcast_left(p, *x, t) {
            Err(e) => Err(e),
            Ok(out) => Ok(Value::Array(out)),
        },
        (Value::Array(s), Value::Number(y)) => match bcast_right(p, s, *y) {
            Err(e) => Err(e),
            Ok(out) => Ok(Value::Array(out)),
        },
        _ => Err(Error::Domain),
    }
}

/// The monadic `+`: the conjugate, the identity on reals.
pub fn conjugate(omega: &Value) -> (r: Result<Value, Error>)
    ensures
        res_view(r) == spec_apply_monadic(MonadicPrimitive::Conjugate, omega@),
{
    apply_monadic(MonadicPrimitive::Conjugate, omega)
}

/// The dyadic `+`: addition under the shared broadcasting rule.
pub fn plus(alpha: &Value, omega: &Value) -> (r: Result<Value, Error>)
    ensures
        res_view(r) == spec_apply_dyadic(DyadicPrimitive::Plus, alpha@, omega@),
{
    apply_dyadic(DyadicPrimitive::Plus, alpha, omega)
}

/// The monadic `×`: the direction, `x / |x|`; zero is a domain error.
pub fn direction(omega: &Value) -> (r: Result<Value, Error>)
    ensures
        res_view(r) == spec_apply_monadic(MonadicPrimitive::Direction, omega@),
{
    apply_monadic(MonadicPrimitive::Direction, omega)
}

/// The dyadic `×`: multiplication under the shared broadcasting rule.
pub fn times(alpha: &Value, omega: &Value) -> (r: Result<Value, Error>)
    ensures
        res_view(r) == spec_apply_dyadic(DyadicPrimitive::Times, alpha@, omega@),
{
    apply_dyadic(DyadicPrimitive::Times, alpha, omega)
}

/// The monadic `⌈`: the ceiling.
pub fn ceiling(omega: &Value) -> (r: Result<Value, Error>)
    ensures
        res_view(r) == spec_apply_monadic(MonadicPrimitive::Ceiling, omega@),
{
    apply_monadic(MonadicPrimitive::Ceiling, omega)
}

/// The dyadic `⌈`: the element-wise maximum.
pub fn maximum(alpha: &Value, omega: &Value) -> (r: Result<Value, Error>)
    ensures
        res_view(r) == spec_apply_dyadic(DyadicPrimitive::Maximum, alpha@, omega@),
{
    apply_dyadic(DyadicPrimitive::Maximum, alpha, omega)
}

/// The monadic `⌊`: the floor.
pub fn floor(omega: &Value) -> (r: Result<Value, Error>)
    ensures
        res_view(r) == spec_apply_monadic(MonadicPrimitive::Floor, omega@),
{
    apply_monadic(MonadicPrimitive::Floor, omega)
}

/// The dyadic `⌊`: the element-wise minimum.
pub fn minimum(alpha: &Value, omega: &Value) -> (r: Result<Value, Error>)
    ensures
        res_view(r) == spec_apply_dyadic(DyadicPrimitive::Minimum, alpha@, omega@),
{
    apply_dyadic(DyadicPrimitive::Minimum, alpha, omega)
}

} // verus!
