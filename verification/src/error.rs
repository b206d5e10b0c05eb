//! The error type that every fallible operation of the library returns.
//!
//! Each refusal carries the name of the quantity that was refused and the
//! numbers that were compared, so that a caller can tell one refusal from
//! another without parsing text.

use vstd::prelude::*;

verus! {

/// A value that lies outside the range that the named quantity admits.
#[derive(Debug, Clone, Copy)]
pub struct OutOfRangePayload {
    /// The quantity that was refused.
    pub context: &'static str,
    /// What the quantity has to satisfy.
    pub requirement: &'static str,
    /// The refused value.
    pub value: i128,
}

/// Two lengths that have to agree and do not.
#[derive(Debug, Clone, Copy)]
pub struct LengthMismatchPayload {
    /// What is being compared.
    pub context: &'static str,
    /// The length that was called for.
    pub expected: usize,
    /// The length that was found.
    pub actual: usize,
}

/// An array whose number of axes, or whose fixed axis, is not the expected one.
#[derive(Debug, Clone, Copy)]
pub struct RankMismatchPayload {
    /// The array and the shape that it has to have.
    pub context: &'static str,
    /// The number of axes that was found.
    pub rank: usize,
}

/// A product or a sum that does not fit its integer type.
#[derive(Debug, Clone, Copy)]
pub struct ArithmeticOverflowPayload {
    /// The quantity that overflowed.
    pub context: &'static str,
    /// The integer type that it did not fit.
    pub int_type: &'static str,
    /// The first operand.
    pub left: i128,
    /// The second operand.
    pub right: i128,
}

/// A request that is larger than a fixed ceiling.
#[derive(Debug, Clone, Copy)]
pub struct CapExceededPayload {
    /// What was requested.
    pub context: &'static str,
    /// The name of the ceiling.
    pub cap_name: &'static str,
    /// The ceiling.
    pub cap: u64,
    /// The size that was requested.
    pub observed: u64,
}

impl CapExceededPayload {
    /// What was requested.
    pub fn context(&self) -> (r: &'static str)
        ensures
            r == self.context,
    {
        self.context
    }

    /// The name of the ceiling that the request went over.
    pub fn cap_name(&self) -> (r: &'static str)
        ensures
            r == self.cap_name,
    {
        self.cap_name
    }
}

/// A relation between inputs that does not hold.
#[derive(Debug, Clone, Copy)]
pub struct InvariantViolationPayload {
    /// The quantity that breaks the relation.
    pub context: &'static str,
    /// The relation.
    pub requirement: &'static str,
}

/// A required element that the input does not have.
#[derive(Debug, Clone, Copy)]
pub struct MissingFieldPayload {
    /// The operation and what it looked for.
    pub context: &'static str,
    /// The name of the missing element.
    pub field: &'static str,
}

/// A quantity that has to be a multiple of another and is not.
#[derive(Debug, Clone, Copy)]
pub struct DivisibilityConstraintPayload {
    /// The two quantities.
    pub context: &'static str,
    /// The value that has to be a multiple.
    pub value: i128,
    /// The divisor.
    pub divisor: i128,
}

/// A name that was looked up and is not there, or is there and must not be.
#[derive(Debug)]
pub struct KeyPayload {
    /// The lookup.
    pub context: &'static str,
    /// The name.
    pub key: String,
}

/// A string that is none of the values that its field admits.
#[derive(Debug)]
pub struct UnknownEnumValuePayload {
    /// The field.
    pub context: &'static str,
    /// The value that was found.
    pub value: String,
    /// The values that the field admits.
    pub supported: &'static str,
}

/// Why an operation on shapes, sizes or token layouts was refused.
#[derive(Debug)]
pub enum Cause {
    /// A value outside its range.
    OutOfRange(OutOfRangePayload),
    /// Two lengths that disagree.
    LengthMismatch(LengthMismatchPayload),
    /// An integer overflow.
    ArithmeticOverflow(ArithmeticOverflowPayload),
    /// A request over a fixed ceiling.
    CapExceeded(CapExceededPayload),
    /// A broken relation between inputs.
    InvariantViolation(InvariantViolationPayload),
    /// A required element that is absent.
    MissingField(MissingFieldPayload),
    /// A key that was looked up and is not there.
    MissingKey(KeyPayload),
    /// An input that has to hold something and is empty.
    EmptyInput {
        /// The input.
        context: &'static str,
    },
}

/// What an operation of the library refuses, and why.
#[derive(Debug)]
pub enum Error {
    /// Shapes, sizes or token layouts that do not fit together.
    ShapeMismatch {
        /// The check that failed.
        cause: Cause,
    },
    /// A request that the library declines to allocate for.
    Backend {
        /// The check that failed.
        cause: Cause,
    },
    /// The allocator declined a reservation.
    OutOfMemory,
    /// The allocator declined the reservation of a named buffer.
    AllocFailure {
        /// The buffer.
        context: &'static str,
    },
    /// A value outside its range.
    OutOfRange(OutOfRangePayload),
    /// Two lengths that disagree.
    LengthMismatch(LengthMismatchPayload),
    /// An array of the wrong rank.
    RankMismatch(RankMismatchPayload),
    /// An integer overflow.
    ArithmeticOverflow(ArithmeticOverflowPayload),
    /// A request over a fixed ceiling.
    CapExceeded(CapExceededPayload),
    /// A broken relation between inputs.
    InvariantViolation(InvariantViolationPayload),
    /// A value that is not a multiple of its divisor.
    DivisibilityConstraint(DivisibilityConstraintPayload),
    /// A scalar that is not a finite number.
    NonFiniteScalar {
        /// The scalar.
        context: &'static str,
    },
    /// An input that has to hold something and is empty.
    EmptyInput {
        /// The input.
        context: &'static str,
    },
    /// A string outside the set of values that its field admits.
    UnknownEnumValue(UnknownEnumValuePayload),
    /// A key that was looked up and is not there.
    MissingKey(KeyPayload),
    /// A key that is there and must not be.
    KeyCollision(KeyPayload),
    /// A text that is not a well-formed document of its kind.
    Parse {
        /// What was being parsed.
        context: &'static str,
    },
}

/// A refusal with the texts that it carries taken by their characters.
pub enum ErrorModel {
    /// A string outside the set of values that its field admits.
    UnknownEnumValue {
        /// The field.
        context: &'static str,
        /// The value that was found.
        value: Seq<char>,
        /// The values that the field admits.
        supported: &'static str,
    },
    /// A key that was looked up and is not there.
    MissingKey {
        /// The lookup.
        context: &'static str,
        /// The key.
        key: Seq<char>,
    },
    /// A key that is there and must not be.
    KeyCollision {
        /// The lookup.
        context: &'static str,
        /// The key.
        key: Seq<char>,
    },
    /// Any other refusal.
    Plain(Error),
}

impl View for Error {
    type V = ErrorModel;

    open spec fn view(&self) -> ErrorModel {
        match *self {
            Error::UnknownEnumValue(p) => ErrorModel::UnknownEnumValue {
                context: p.context,
                value: p.value@,
                supported: p.supported,
            },
            Error::MissingKey(p) => ErrorModel::MissingKey { context: p.context, key: p.key@ },
            Error::KeyCollision(p) => ErrorModel::KeyCollision { context: p.context, key: p.key@ },
            other => ErrorModel::Plain(other),
        }
    }
}

/// Whether a result is a success that nothing refuses, or the stated refusal.
pub open spec fn answers<T>(r: Result<T, Error>, refusal: Option<ErrorModel>) -> bool {
    match refusal {
        None => r is Ok,
        Some(m) => r matches Err(e) && e@ == m,
    }
}

/// The refusal that a check came to, if it came to one.
pub open spec fn verdict(r: Result<(), Error>) -> Option<ErrorModel> {
    match r {
        Ok(_) => None,
        Err(e) => Some(e@),
    }
}

/// Whether a refusal says that the allocator declined a buffer.
pub open spec fn is_allocation_refusal(e: Error) -> bool {
    e is OutOfMemory || e is AllocFailure
}

/// The first refusal of two checks made in turn.
pub open spec fn first(a: Option<ErrorModel>, b: Option<ErrorModel>) -> Option<ErrorModel> {
    if a is Some {
        a
    } else {
        b
    }
}

/// The refusal of one check.
pub open spec fn refusal(holds: bool, e: Error) -> Option<ErrorModel> {
    if holds {
        None
    } else {
        Some(e@)
    }
}

/// An out-of-range refusal.
#[verifier::allow_in_spec]
pub fn out_of_range(context: &'static str, requirement: &'static str, value: i128) -> Error
    returns
        Error::OutOfRange(OutOfRangePayload { context, requirement, value }),
{
    Error::OutOfRange(OutOfRangePayload { context, requirement, value })
}

/// A length-mismatch refusal.
#[verifier::allow_in_spec]
pub fn length_mismatch(context: &'static str, expected: usize, actual: usize) -> Error
    returns
        Error::LengthMismatch(LengthMismatchPayload { context, expected, actual }),
{
    Error::LengthMismatch(LengthMismatchPayload { context, expected, actual })
}

/// A rank-mismatch refusal.
#[verifier::allow_in_spec]
pub fn rank_mismatch(context: &'static str, rank: usize) -> Error
    returns
        Error::RankMismatch(RankMismatchPayload { context, rank }),
{
    Error::RankMismatch(RankMismatchPayload { context, rank })
}

/// An overflow refusal.
#[verifier::allow_in_spec]
pub fn overflow(context: &'static str, int_type: &'static str, left: i128, right: i128) -> Error
    returns
        Error::ArithmeticOverflow(ArithmeticOverflowPayload { context, int_type, left, right }),
{
    Error::ArithmeticOverflow(ArithmeticOverflowPayload { context, int_type, left, right })
}

/// A cap refusal.
#[verifier::allow_in_spec]
pub fn cap_exceeded(
    context: &'static str,
    cap_name: &'static str,
    cap: u64,
    observed: u64,
) -> Error
    returns
        Error::CapExceeded(CapExceededPayload { context, cap_name, cap, observed }),
{
    Error::CapExceeded(CapExceededPayload { context, cap_name, cap, observed })
}

/// A refusal for a relation that does not hold.
#[verifier::allow_in_spec]
pub fn invariant_violation(context: &'static str, requirement: &'static str) -> Error
    returns
        Error::InvariantViolation(InvariantViolationPayload { context, requirement }),
{
    Error::InvariantViolation(InvariantViolationPayload { context, requirement })
}

/// A refusal for a value that is not a multiple of its divisor.
#[verifier::allow_in_spec]
pub fn not_divisible(context: &'static str, value: i128, divisor: i128) -> Error
    returns
        Error::DivisibilityConstraint(DivisibilityConstraintPayload { context, value, divisor }),
{
    Error::DivisibilityConstraint(DivisibilityConstraintPayload { context, value, divisor })
}

/// A shape refusal for a value outside its range.
#[verifier::allow_in_spec]
pub fn shape_out_of_range(context: &'static str, requirement: &'static str, value: i128) -> Error
    returns
        (Error::ShapeMismatch {
            cause: Cause::OutOfRange(OutOfRangePayload { context, requirement, value }),
        }),
{
    Error::ShapeMismatch {
        cause: Cause::OutOfRange(OutOfRangePayload { context, requirement, value }),
    }
}

/// A shape refusal for two lengths that disagree.
#[verifier::allow_in_spec]
pub fn shape_length(context: &'static str, expected: usize, actual: usize) -> Error
    returns
        (Error::ShapeMismatch {
            cause: Cause::LengthMismatch(LengthMismatchPayload { context, expected, actual }),
        }),
{
    Error::ShapeMismatch {
        cause: Cause::LengthMismatch(LengthMismatchPayload { context, expected, actual }),
    }
}

/// A shape refusal for an integer overflow.
#[verifier::allow_in_spec]
pub fn shape_overflow(
    context: &'static str,
    int_type: &'static str,
    left: i128,
    right: i128,
) -> Error
    returns
        (Error::ShapeMismatch {
            cause: Cause::ArithmeticOverflow(
                ArithmeticOverflowPayload { context, int_type, left, right },
            ),
        }),
{
    Error::ShapeMismatch {
        cause: Cause::ArithmeticOverflow(
            ArithmeticOverflowPayload { context, int_type, left, right },
        ),
    }
}

/// A shape refusal for a request over a fixed ceiling.
#[verifier::allow_in_spec]
pub fn shape_cap(context: &'static str, cap_name: &'static str, cap: u64, observed: u64) -> Error
    returns
        (Error::ShapeMismatch {
            cause: Cause::CapExceeded(CapExceededPayload { context, cap_name, cap, observed }),
        }),
{
    Error::ShapeMismatch {
        cause: Cause::CapExceeded(CapExceededPayload { context, cap_name, cap, observed }),
    }
}

/// A shape refusal for a relation that does not hold.
#[verifier::allow_in_spec]
pub fn shape_violation(context: &'static str, requirement: &'static str) -> Error
    returns
        (Error::ShapeMismatch {
            cause: Cause::InvariantViolation(InvariantViolationPayload { context, requirement }),
        }),
{
    Error::ShapeMismatch {
        cause: Cause::InvariantViolation(InvariantViolationPayload { context, requirement }),
    }
}

/// A shape refusal for a required element that is absent.
#[verifier::allow_in_spec]
pub fn shape_missing(context: &'static str, field: &'static str) -> Error
    returns
        (Error::ShapeMismatch {
            cause: Cause::MissingField(MissingFieldPayload { context, field }),
        }),
{
    Error::ShapeMismatch { cause: Cause::MissingField(MissingFieldPayload { context, field }) }
}

/// Two texts with a colon between them.
pub open spec fn colon(a: Seq<char>, b: Seq<char>) -> Seq<char> {
    a + ": "@ + b
}

fn with_colon(a: &str, b: &str) -> (r: String)
    ensures
        r@ == colon(a@, b@),
{
    let mut s: String = a.to_owned();
    s.append(": ");
    s.append(b);
    s
}

/// What the cause of a refusal reads like.
pub open spec fn cause_text(cause: Cause) -> Seq<char> {
    match cause {
        Cause::OutOfRange(p) => colon(p.context@, p.requirement@),
        Cause::LengthMismatch(p) => colon(p.context@, "length mismatch"@),
        Cause::ArithmeticOverflow(p) => colon(p.context@, "arithmetic overflow"@),
        Cause::CapExceeded(p) => colon(p.context@, p.cap_name@ + " exceeded"@),
        Cause::InvariantViolation(p) => colon(p.context@, p.requirement@),
        Cause::MissingField(p) => colon(p.context@, "no "@ + p.field@),
        Cause::MissingKey(p) => colon(p.context@, "no "@ + p.key@),
        Cause::EmptyInput { context } => colon(context@, "empty input"@),
    }
}

fn cause_message(cause: &Cause) -> (r: String)
    ensures
        r@ == cause_text(*cause),
{
    match cause {
        Cause::OutOfRange(p) => with_colon(p.context, p.requirement),
        Cause::LengthMismatch(p) => with_colon(p.context, "length mismatch"),
        Cause::ArithmeticOverflow(p) => with_colon(p.context, "arithmetic overflow"),
        Cause::CapExceeded(p) => {
            let mut s: String = p.cap_name.to_owned();
            s.append(" exceeded");
            with_colon(p.context, s.as_str())
        },
        Cause::InvariantViolation(p) => with_colon(p.context, p.requirement),
        Cause::MissingField(p) => {
            let mut s: String = "no ".to_owned();
            s.append(p.field);
            with_colon(p.context, s.as_str())
        },
        Cause::MissingKey(p) => {
            let mut s: String = "no ".to_owned();
            s.append(p.key.as_str());
            with_colon(p.context, s.as_str())
        },
        Cause::EmptyInput { context } => with_colon(context, "empty input"),
    }
}

/// What a refusal reads like.
pub open spec fn error_text(e: Error) -> Seq<char> {
    match e {
        Error::ShapeMismatch { cause } => cause_text(cause),
        Error::Backend { cause } => cause_text(cause),
        Error::OutOfMemory => "out of memory"@,
        Error::AllocFailure { context } => colon(context@, "allocation declined"@),
        Error::OutOfRange(p) => colon(p.context@, p.requirement@),
        Error::LengthMismatch(p) => colon(p.context@, "length mismatch"@),
        Error::RankMismatch(p) => colon(p.context@, "rank mismatch"@),
        Error::ArithmeticOverflow(p) => colon(p.context@, "arithmetic overflow"@),
        Error::CapExceeded(p) => colon(p.context@, p.cap_name@ + " exceeded"@),
        Error::InvariantViolation(p) => colon(p.context@, p.requirement@),
        Error::DivisibilityConstraint(p) => colon(p.context@, "not divisible"@),
        Error::NonFiniteScalar { context } => colon(context@, "not finite"@),
        Error::EmptyInput { context } => colon(context@, "empty input"@),
        Error::UnknownEnumValue(p) => colon(p.context@, "unknown value "@ + p.value@),
        Error::MissingKey(p) => colon(p.context@, "no "@ + p.key@),
        Error::KeyCollision(p) => colon(p.context@, "unexpected "@ + p.key@),
        Error::Parse { context } => colon(context@, "malformed document"@),
    }
}

impl Error {
    /// What the refusal reads like: what was refused, and why.
    pub fn message(&self) -> (r: String)
        ensures
            r@ == error_text(*self),
    {
        match self {
            Error::ShapeMismatch { cause } => cause_message(cause),
            Error::Backend { cause } => cause_message(cause),
            Error::OutOfMemory => "out of memory".to_owned(),
            Error::AllocFailure { context } => with_colon(context, "allocation declined"),
            Error::OutOfRange(p) => with_colon(p.context, p.requirement),
            Error::LengthMismatch(p) => with_colon(p.context, "length mismatch"),
            Error::RankMismatch(p) => with_colon(p.context, "rank mismatch"),
            Error::ArithmeticOverflow(p) => with_colon(p.context, "arithmetic overflow"),
            Error::CapExceeded(p) => {
                let mut s: String = p.cap_name.to_owned();
                s.append(" exceeded");
                with_colon(p.context, s.as_str())
            },
            Error::InvariantViolation(p) => with_colon(p.context, p.requirement),
            Error::DivisibilityConstraint(p) => with_colon(p.context, "not divisible"),
            Error::NonFiniteScalar { context } => with_colon(context, "not finite"),
            Error::EmptyInput { context } => with_colon(context, "empty input"),
            Error::UnknownEnumValue(p) => {
                let mut s: String = "unknown value ".to_owned();
                s.append(p.value.as_str());
                with_colon(p.context, s.as_str())
            },
            Error::MissingKey(p) => {
                let mut s: String = "no ".to_owned();
                s.append(p.key.as_str());
                with_colon(p.context, s.as_str())
            },
            Error::KeyCollision(p) => {
                let mut s: String = "unexpected ".to_owned();
                s.append(p.key.as_str());
                with_colon(p.context, s.as_str())
            },
            Error::Parse { context } => with_colon(context, "malformed document"),
        }
    }
}


/// A check answers with a success where nothing refuses, and with the refusal otherwise;
/// of two checks made in turn, the first that refuses decides.
pub proof fn law_the_first_refusal_is_the_answer<T>(
    r: Result<T, Error>,
    holds: bool,
    e: Error,
    later: Option<ErrorModel>,
)
    requires
        answers(r, first(refusal(holds, e), later)),
    ensures
        !holds ==> (r matches Err(f) && f@ == e@),
        holds && later is None ==> r is Ok,
        holds && later is Some ==> (r matches Err(f) && Some(f@) == later),
{
}

/// The model of a refusal keeps what it says: two refusals of one kind without text are
/// told apart by their models as by themselves.
pub proof fn law_models_tell_refusals_apart(a: Error, b: Error)
    requires
        a@ == b@,
        a !is UnknownEnumValue,
        a !is MissingKey,
        a !is KeyCollision,
    ensures
        a == b,
{
}


/// The allocator declines in one of two ways, and nothing else counts as that.
pub proof fn law_only_the_allocator_declines(e: Error)
    ensures
        is_allocation_refusal(e) <==> e == Error::OutOfMemory || e is AllocFailure,
{
}

/// The verdict of a check is its refusal, and none where it succeeds.
pub proof fn law_verdicts_are_refusals(r: Result<(), Error>)
    ensures
        r is Ok <==> verdict(r) is None,
        r matches Err(e) ==> verdict(r) == Some(e@),
        answers(r, verdict(r)),
{
}

/// A refusal reads as what was refused, a colon, and what is wrong with it; one that
/// wraps a cause reads as the cause.
pub proof fn law_refusals_name_what_they_refuse(e: Error)
    ensures
        e matches Error::OutOfRange(p) ==> error_text(e) == p.context@ + ": "@ + p.requirement@,
        e matches Error::InvariantViolation(p) ==> error_text(e) == p.context@ + ": "@
            + p.requirement@,
        e matches Error::LengthMismatch(p) ==> error_text(e) == p.context@ + ": "@
            + "length mismatch"@,
        e matches Error::RankMismatch(p) ==> error_text(e) == p.context@ + ": "@
            + "rank mismatch"@,
        e matches Error::ArithmeticOverflow(p) ==> error_text(e) == p.context@ + ": "@
            + "arithmetic overflow"@,
        e matches Error::CapExceeded(p) ==> error_text(e) == p.context@ + ": "@ + (p.cap_name@
            + " exceeded"@),
        e matches Error::DivisibilityConstraint(p) ==> error_text(e) == p.context@ + ": "@
            + "not divisible"@,
        e matches Error::UnknownEnumValue(p) ==> error_text(e) == p.context@ + ": "@ + (
        "unknown value "@ + p.value@),
        e matches Error::MissingKey(p) ==> error_text(e) == p.context@ + ": "@ + ("no "@ + p.key@),
        e matches Error::KeyCollision(p) ==> error_text(e) == p.context@ + ": "@ + ("unexpected "@
            + p.key@),
        e matches Error::NonFiniteScalar { context } ==> error_text(e) == context@ + ": "@
            + "not finite"@,
        e matches Error::EmptyInput { context } ==> error_text(e) == context@ + ": "@
            + "empty input"@,
        e matches Error::Parse { context } ==> error_text(e) == context@ + ": "@
            + "malformed document"@,
        e matches Error::AllocFailure { context } ==> error_text(e) == context@ + ": "@
            + "allocation declined"@,
        e matches Error::ShapeMismatch { cause } ==> error_text(e) == error_text(
            Error::Backend { cause },
        ),
        e matches Error::ShapeMismatch { cause: Cause::OutOfRange(p) } ==> error_text(e)
            == error_text(Error::OutOfRange(p)),
        e matches Error::ShapeMismatch { cause: Cause::LengthMismatch(p) } ==> error_text(e)
            == error_text(Error::LengthMismatch(p)),
        e matches Error::ShapeMismatch { cause: Cause::ArithmeticOverflow(p) } ==> error_text(e)
            == error_text(Error::ArithmeticOverflow(p)),
        e matches Error::ShapeMismatch { cause: Cause::CapExceeded(p) } ==> error_text(e)
            == error_text(Error::CapExceeded(p)),
        e matches Error::ShapeMismatch { cause: Cause::InvariantViolation(p) } ==> error_text(e)
            == error_text(Error::InvariantViolation(p)),
        e matches Error::ShapeMismatch { cause: Cause::MissingField(p) } ==> error_text(e)
            == p.context@ + ": "@ + ("no "@ + p.field@),
        e matches Error::ShapeMismatch { cause: Cause::MissingKey(p) } ==> error_text(e)
            == error_text(Error::MissingKey(p)),
        e matches Error::ShapeMismatch { cause: Cause::EmptyInput { context } } ==> error_text(e)
            == error_text(Error::EmptyInput { context }),
{
}

} // verus!
