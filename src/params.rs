//! Requests as they arrive, and the narrowing of their loosely typed
//! parameters to the primitives that handlers receive.
use vstd::prelude::*;

verus! {

/// A loosely typed request parameter: a JSON value, as far as narrowing
/// reads it.
#[derive(Debug, Clone, PartialEq, Eq)]
pub enum Param {
    Null,
    Bool(bool),
    /// A JSON number, with its value where it is an integer that fits `i64`.
    Number(Option<i64>),
    Text(String),
    Array,
    Object,
}

/// A parameter value that a handler accepts.
#[derive(Debug, Clone, PartialEq, Eq)]
pub enum Primitive {
    Text(String),
    Number(i32),
    Bool(bool),
}

/// Why a parameter could not be narrowed.
#[derive(Debug, Clone, Copy, PartialEq, Eq, Structural)]
pub enum ParamError {
    /// A number that is not an integer in the range of `i32`.
    OutOfRange,
    /// A null, an array or an object.
    Unsupported,
}

/// An inbound call: the name of a registered function and its parameters.
#[derive(Debug, Clone, PartialEq, Eq)]
pub struct FnRequest {
    pub function_name: String,
    pub params: Vec<Param>,
}

/// A serialized payload on its way to one group.
#[derive(Debug, Clone, PartialEq, Eq)]
pub struct Envelope {
    pub group_id: i32,
    pub json: String,
}

pub open spec fn fits_i32(i: i64) -> bool {
    i32::MIN <= i <= i32::MAX
}

/// The primitive a parameter narrows to, or why it does not.
pub open spec fn narrow(v: Param) -> Result<Primitive, ParamError> {
    match v {
        Param::Text(s) => Ok(Primitive::Text(s)),
        Param::Bool(b) => Ok(Primitive::Bool(b)),
        Param::Number(Some(i)) => if fits_i32(i) {
            Ok(Primitive::Number(i as i32))
        } else {
            Err(ParamError::OutOfRange)
        },
        Param::Number(None) => Err(ParamError::OutOfRange),
        _ => Err(ParamError::Unsupported),
    }
}

/// Every parameter of `s` narrows.
pub open spec fn all_narrow(s: Seq<Param>) -> bool {
    forall|i: int| 0 <= i < s.len() ==> (#[trigger] narrow(s[i])) is Ok
}

/// `e` is why the first parameter of `s` that does not narrow fails.
pub open spec fn first_failure(s: Seq<Param>, e: ParamError) -> bool {
    exists|k: int|
        0 <= k < s.len() && narrow(s[k]) == Err::<Primitive, ParamError>(e) && all_narrow(
            s.take(k),
        )
}

impl Primitive {
    /// Narrows one parameter: text and booleans pass through, integers that
    /// fit `i32` become numbers, anything else is refused.
    pub fn try_from(value: Param) -> (r: Result<Primitive, ParamError>)
        ensures
            r == narrow(value),
    {
        match value {
            Param::Text(s) => Ok(Primitive::Text(s)),
            Param::Bool(b) => Ok(Primitive::Bool(b)),
            Param::Number(Some(i)) => {
                if i32::MIN as i64 <= i && i <= i32::MAX as i64 {
                    Ok(Primitive::Number(i as i32))
                } else {
                    Err(ParamError::OutOfRange)
                }
            },
            Param::Number(None) => Err(ParamError::OutOfRange),
            _ => Err(ParamError::Unsupported),
        }
    }
}

/// Narrows a whole parameter list, in order; the first parameter that does
/// not narrow decides the error.
pub fn convert(values: Vec<Param>) -> (r: Result<Vec<Primitive>, ParamError>)
    ensures
        r is Ok <==> all_narrow(values@),
        r matches Ok(out) ==> out@.len() == values@.len() && forall|i: int|
            0 <= i < values@.len() ==> narrow(#[trigger] values@[i]) == Ok::<Primitive, ParamError>(
                out@[i],
            ),
        r matches Err(e) ==> first_failure(values@, e),
{
    let ghost all = values@;
    let mut rest = values;
    let mut out: Vec<Primitive> = Vec::new();
    while rest.len() > 0
        invariant
            all == values@,
            out@.len() + rest@.len() == all.len(),
            rest@ == all.subrange(out@.len() as int, all.len() as int),
            all_narrow(all.take(out@.len() as int)),
            forall|i: int|
                0 <= i < out@.len() ==> narrow(#[trigger] all[i]) == Ok::<Primitive, ParamError>(
                    out@[i],
                ),
        decreases rest@.len(),
    {
        let ghost k = out@.len() as int;
        let v = rest.remove(0);
        assert(v == all[k]);
        match Primitive::try_from(v) {
            Ok(p) => {
                out.push(p);
                assert forall|i: int| 0 <= i < k + 1 implies (#[trigger] narrow(
                    all.take(k + 1)[i],
                )) is Ok by {
                    assert(all.take(k + 1)[i] == all[i]);
                    if i < k {
                        assert(all.take(k)[i] == all[i]);
                    }
                }
                assert(rest@ =~= all.subrange(k + 1, all.len() as int));
            },
            Err(e) => {
                assert(narrow(all[k]) == Err::<Primitive, ParamError>(e));
                assert(first_failure(all, e));
                assert(!all_narrow(all));
                return Err(e);
            },
        }
    }
    assert(all.take(all.len() as int) =~= all);
    Ok(out)
}

} // verus!
