//! The global `BigInt` object: the call that makes an integer, the two
//! reductions to a bit width, and the methods of its prototype.

use crate::integer::{signed_wrap, unsigned_wrap, Integer};
use crate::text::radix_string;
use crate::value::{ToIndexError, Value};
use vstd::arithmetic::div_mod::lemma_mod_twice;
use vstd::arithmetic::power::{lemma_pow_positive, pow};
use vstd::prelude::*;
use vstd::string::StringExecFns;

verus! {

/// The kind of a catchable error.
#[derive(Clone, Copy, Debug, PartialEq, Eq)]
pub enum ErrorKind {
    /// A value outside the domain of the operation.
    RangeError,
    /// An argument of a type that the operation cannot take.
    TypeError,
}

/// A catchable error, with the message it carries.
#[derive(Clone, Debug, PartialEq, Eq)]
pub struct Error {
    pub kind: ErrorKind,
    pub message: String,
}

/// A function of the `BigInt` object.
#[derive(Clone, Copy, Debug, PartialEq, Eq)]
pub enum Builtin {
    MakeBigInt,
    ToString,
    ValueOf,
    AsIntN,
    AsUintN,
}

/// A function as a member of an object: its name, its declared number of parameters
/// and what it runs.
#[derive(Clone, Debug, PartialEq, Eq)]
pub struct Method {
    pub name: String,
    pub length: u32,
    pub function: Builtin,
}

/// The prototype of the wrapper objects: one internal slot and the
/// instance methods.
#[derive(Clone, Debug, PartialEq, Eq)]
pub struct Prototype {
    pub slot_name: String,
    pub slot: Integer,
    pub methods: Vec<Method>,
}

/// The callable `BigInt` with its prototype and its static functions.
#[derive(Clone, Debug, PartialEq, Eq)]
pub struct Constructor {
    pub name: String,
    pub length: u32,
    pub function: Builtin,
    /// Whether `new` may be applied to it.
    pub constructible: bool,
    pub prototype: Prototype,
    pub statics: Vec<Method>,
}

/// The global bindings, as far as this object fills them.
#[derive(Clone, Debug, PartialEq, Eq)]
pub struct Global {
    pub bigint: Option<Constructor>,
}

/// The argument at place `i`, or `undefined` where there is none.
pub open spec fn argument(args: Seq<Value>, i: int) -> Value {
    if 0 <= i < args.len() {
        args[i]
    } else {
        Value::Undefined
    }
}

/// An index limited to 32 bits.
pub open spec fn saturate_u32(v: int) -> nat {
    if v > u32::MAX {
        u32::MAX as nat
    } else {
        v as nat
    }
}

/// The message of the error for a value that converts to no integer: the
/// value's textual form, then why it was refused.
pub open spec fn conversion_message(value: Value) -> Seq<char> {
    value.display() + " can't be converted to BigInt because it isn't an integer"@
}

/// The message of a failed conversion names the value: it begins with the
/// value's textual form.
pub proof fn lemma_conversion_message_names_value(value: Value)
    ensures
        conversion_message(value).len() >= value.display().len(),
        conversion_message(value).subrange(0, value.display().len() as int)
            == value.display(),
{
    let text = value.display();
    let message = conversion_message(value);
    assert(message.subrange(0, text.len() as int) =~= text);
}

/// What the two reductions make of their arguments: the width and the
/// integer to reduce, or the kind and message of the error. An integer
/// argument that converts to no integer is named in the message.
pub open spec fn reduction_arguments(args: Seq<Value>) -> Result<(nat, int), (ErrorKind, Seq<char>)> {
    match argument(args, 0).index_value() {
        Err(ToIndexError::RangeError) => Err(
            (ErrorKind::RangeError, "bits must be convertable to a positive integral number"@),
        ),
        Err(ToIndexError::TypeError) => Err((ErrorKind::TypeError, "wrong type"@)),
        Ok(bits) => match argument(args, 1).bigint_value() {
            None => Err((ErrorKind::RangeError, conversion_message(argument(args, 1)))),
            Some(v) => Ok((saturate_u32(bits), v)),
        },
    }
}

/// Every argument is valid.
pub open spec fn arguments_wf(args: Seq<Value>) -> bool {
    forall|i: int| 0 <= i < args.len() ==> (#[trigger] args[i]).wf()
}

/// Whether `radix` is a radix of a numeral: from 2 to 36, both included.
pub open spec fn radix_valid(radix: int) -> bool {
    2 <= radix <= 36
}

/// The radix that `toString` is asked for: that of the first argument,
/// or 10 where there is none.
pub open spec fn requested_radix(args: Seq<Value>) -> int {
    if args.len() == 0 {
        10
    } else {
        crate::value::clamp_i32(args[0].integer_value())
    }
}

/// What a call of a function of the `BigInt` object comes to: an integer,
/// a text, or an error with its kind and message.
pub enum Outcome {
    Integer(int),
    Text(Seq<char>),
    Error(ErrorKind, Seq<char>),
}

/// Whether the result `r` of a call is the outcome `o`.
pub open spec fn realizes(r: Result<Value, Error>, o: Outcome) -> bool {
    match o {
        Outcome::Integer(v) => r matches Ok(Value::BigInt(n)) && n.wf() && n@ == v,
        Outcome::Text(s) => r matches Ok(Value::Text(t)) && t@ == s,
        Outcome::Error(kind, message) => r matches Err(e) && e.kind == kind && e.message@
            == message,
    }
}

/// `BigInt(value)`: 0 without an argument, else the first argument as an
/// exact integer; a `RangeError` that names the argument where it is none.
pub open spec fn make_bigint_outcome(args: Seq<Value>) -> Outcome {
    if args.len() == 0 {
        Outcome::Integer(0)
    } else {
        match args[0].bigint_value() {
            Some(v) => Outcome::Integer(v),
            None => Outcome::Error(ErrorKind::RangeError, conversion_message(args[0])),
        }
    }
}

/// `toString([radix])` on a receiver that holds the integer `held`: its
/// text in the radix asked for; a `RangeError` where that is no radix.
pub open spec fn to_string_outcome(held: int, args: Seq<Value>) -> Outcome {
    if radix_valid(requested_radix(args)) {
        Outcome::Text(radix_string(held, requested_radix(args)))
    } else {
        Outcome::Error(
            ErrorKind::RangeError,
            "radix must be an integer at least 2 and no greater than 36"@,
        )
    }
}

/// `asUintN(bits, bigint)`: the integer modulo 2^`bits`.
pub open spec fn as_uint_n_outcome(args: Seq<Value>) -> Outcome {
    match reduction_arguments(args) {
        Ok((bits, v)) => Outcome::Integer(unsigned_wrap(v, bits)),
        Err((kind, message)) => Outcome::Error(kind, message),
    }
}

/// `asIntN(bits, bigint)`: the integer in two's complement of `bits`
/// binary digits.
pub open spec fn as_int_n_outcome(args: Seq<Value>) -> Outcome {
    match reduction_arguments(args) {
        Ok((bits, v)) => Outcome::Integer(signed_wrap(v, bits)),
        Err((kind, message)) => Outcome::Error(kind, message),
    }
}

/// A fault of the engine itself, which no program can catch.
#[derive(Clone, Copy, Debug, PartialEq, Eq)]
pub enum Fault {
    /// A method of the prototype was run on a receiver that holds no
    /// integer.
    MissingSlot,
}

/// Whether `function` reads the integer that its receiver holds.
pub open spec fn reads_receiver(function: Builtin) -> bool {
    function == Builtin::ToString || function == Builtin::ValueOf
}

/// What running `function` on `this` and `args` comes to, where the
/// receiver holds what the function reads.
pub open spec fn invoke_outcome(function: Builtin, this: Value, args: Seq<Value>) -> Outcome {
    match function {
        Builtin::MakeBigInt => make_bigint_outcome(args),
        Builtin::ToString => to_string_outcome(this.bigint_value()->Some_0, args),
        Builtin::ValueOf => Outcome::Integer(this.bigint_value()->Some_0),
        Builtin::AsIntN => as_int_n_outcome(args),
        Builtin::AsUintN => as_uint_n_outcome(args),
    }
}

/// Whether `m` is the function `function` under `name`, declared with
/// `length` parameters.
pub open spec fn is_method(m: Method, name: Seq<char>, length: u32, function: Builtin) -> bool {
    m.name@ == name && m.length == length && m.function == function
}

/// Whether `c` is the `BigInt` object: named `BigInt`, called with one
/// parameter, not constructible; its prototype holds the slot `BigIntData`
/// at 0 and the methods `toString` and `valueOf`; its static functions are
/// `asIntN` and `asUintN`.
pub open spec fn is_bigint_object(c: Constructor) -> bool {
    &&& c.name@ == "BigInt"@
    &&& c.length == 1
    &&& c.function == Builtin::MakeBigInt
    &&& !c.constructible
    &&& c.prototype.slot_name@ == "BigIntData"@
    &&& c.prototype.slot@ == 0
    &&& c.prototype.slot.wf()
    &&& c.prototype.methods@.len() == 2
    &&& is_method(c.prototype.methods@[0], "toString"@, 1, Builtin::ToString)
    &&& is_method(c.prototype.methods@[1], "valueOf"@, 0, Builtin::ValueOf)
    &&& c.statics@.len() == 2
    &&& is_method(c.statics@[0], "asIntN"@, 1, Builtin::AsIntN)
    &&& is_method(c.statics@[1], "asUintN"@, 1, Builtin::AsUintN)
}

/// An error of `kind` with `message`.
fn error(kind: ErrorKind, message: &str) -> (r: Error)
    ensures
        r.kind == kind,
        r.message@ == message@,
{
    Error { kind, message: String::from_str(message) }
}

/// The `RangeError` for `value`, which converts to no integer.
fn not_an_integer(value: &Value) -> (r: Error)
    requires
        value.wf(),
    ensures
        r.kind == ErrorKind::RangeError,
        r.message@ == conversion_message(*value),
{
    let message = value.to_text().concat(
        " can't be converted to BigInt because it isn't an integer",
    );
    Error { kind: ErrorKind::RangeError, message }
}

/// The member `name` that runs `function`.
fn method(name: &str, length: u32, function: Builtin) -> (r: Method)
    ensures
        r.name@ == name@,
        r.length == length,
        r.function == function,
{
    Method { name: String::from_str(name), length, function }
}

/// The `BigInt` object.
#[derive(Clone, Copy, Debug)]
pub struct BigInt;

impl BigInt {
    /// `BigInt(value)`: the integer 0 without an argument, else the first
    /// argument as an exact integer. A value that is no integer is a
    /// `RangeError` whose message begins with the value's textual form.
    pub fn make_bigint(_this: &Value, args: &[Value]) -> (r: Result<Value, Error>)
        requires
            arguments_wf(args@),
        ensures
            realizes(r, make_bigint_outcome(args@)),
    {
        if args.len() == 0 {
            return Ok(Value::BigInt(Integer::zero()));
        }
        match args[0].to_bigint() {
            Some(n) => Ok(Value::BigInt(n)),
            None => Err(not_an_integer(&args[0])),
        }
    }

    /// The text of `bigint` in `radix`.
    pub fn to_native_string_radix(bigint: &Integer, radix: u32) -> (r: String)
        requires
            bigint.wf(),
            radix_valid(radix as int),
        ensures
            r@ == radix_string(bigint@, radix as int),
    {
        bigint.to_str_radix(radix)
    }

    /// The decimal text of `bigint`.
    pub fn to_native_string(bigint: &Integer) -> (r: String)
        requires
            bigint.wf(),
        ensures
            r@ == radix_string(bigint@, 10),
    {
        bigint.to_str_radix(10)
    }

    /// `BigInt.prototype.toString([radix])`: the text of the integer that
    /// `this` holds, in the radix asked for. A radix below 2 or above 36
    /// is a `RangeError`.
    pub fn to_string(this: &Value, args: &[Value]) -> (r: Result<Value, Error>)
        requires
            this.wf(),
            this.bigint_value() is Some,
            arguments_wf(args@),
        ensures
            realizes(r, to_string_outcome(this.bigint_value()->Some_0, args@)),
    {
        let radix: i32 = if args.len() > 0 {
            args[0].to_integer()
        } else {
            10
        };
        if radix < 2 || radix > 36 {
            return Err(
                error(
                    ErrorKind::RangeError,
                    "radix must be an integer at least 2 and no greater than 36",
                ),
            );
        }
        match this.to_bigint() {
            Some(n) => Ok(Value::Text(Self::to_native_string_radix(&n, radix as u32))),
            // Not reached: `this` holds an integer.
            None => Ok(Value::Undefined),
        }
    }

    /// `BigInt.prototype.valueOf()`: the primitive integer that `this`
    /// holds.
    pub fn value_of(this: &Value, _args: &[Value]) -> (r: Result<Value, Error>)
        requires
            this.wf(),
            this.bigint_value() is Some,
        ensures
            realizes(r, Outcome::Integer(this.bigint_value()->Some_0)),
    {
        match this.to_bigint() {
            Some(n) => Ok(Value::BigInt(n)),
            // Not reached: `this` holds an integer.
            None => Ok(Value::Undefined),
        }
    }

    /// `BigInt.asIntN(bits, bigint)`: `bigint` reduced to the
    /// two's-complement range of `bits` binary digits.
    pub fn as_int_n(_this: &Value, args: &[Value]) -> (r: Result<Value, Error>)
        requires
            arguments_wf(args@),
        ensures
            realizes(r, as_int_n_outcome(args@)),
    {
        match Self::as_bigint_helper(args) {
            Ok((modulo, bits)) => {
                proof {
                    let v = reduction_arguments(args@)->Ok_0.1;
                    lemma_pow_positive(2, bits as nat);
                    lemma_mod_twice(v, pow(2, bits as nat));
                }
                Ok(Value::BigInt(modulo.wrap_signed(bits)))
            },
            Err(e) => Err(e),
        }
    }

    /// `BigInt.asUintN(bits, bigint)`: `bigint` modulo 2^`bits`.
    pub fn as_uint_n(_this: &Value, args: &[Value]) -> (r: Result<Value, Error>)
        requires
            arguments_wf(args@),
        ensures
            realizes(r, as_uint_n_outcome(args@)),
    {
        match Self::as_bigint_helper(args) {
            Ok((modulo, _)) => Ok(Value::BigInt(modulo)),
            Err(e) => Err(e),
        }
    }

    /// The arguments of a reduction, coerced: the integer modulo 2^`bits`
    /// and the width `bits`, which is at most `u32::MAX`. A missing argument
    /// counts as `undefined`. A width that is no index is a `RangeError` or
    /// a `TypeError`; an integer argument that converts to no integer is a
    /// `RangeError` whose message begins with the argument's textual form.
    pub fn as_bigint_helper(args: &[Value]) -> (r: Result<(Integer, u32), Error>)
        requires
            arguments_wf(args@),
        ensures
            match reduction_arguments(args@) {
                Ok((bits, v)) => r matches Ok((n, b)) && b == bits && n.wf() && n@
                    == unsigned_wrap(v, bits),
                Err((kind, message)) => r matches Err(e) && e.kind == kind && e.message@
                    == message,
            },
    {
        let undefined_value = Value::Undefined;
        let bits_arg: &Value = if args.len() > 0 {
            &args[0]
        } else {
            &undefined_value
        };
        let bigint_arg: &Value = if args.len() > 1 {
            &args[1]
        } else {
            &undefined_value
        };
        let bits: usize = match bits_arg.to_index() {
            Ok(bits) => bits,
            Err(ToIndexError::RangeError) => {
                return Err(
                    error(
                        ErrorKind::RangeError,
                        "bits must be convertable to a positive integral number",
                    ),
                );
            },
            Err(ToIndexError::TypeError) => {
                return Err(error(ErrorKind::TypeError, "wrong type"));
            },
        };
        let bits: u32 = if bits > u32::MAX as usize {
            u32::MAX
        } else {
            bits as u32
        };
        let bigint = match bigint_arg.to_bigint() {
            Some(bigint) => bigint,
            None => {
                return Err(not_an_integer(bigint_arg));
            },
        };
        Ok((bigint.mod_pow2(bits), bits))
    }

    /// Runs `function` on the receiver `this` and the arguments `args`.
    /// An error of the program comes back as `Ok(Err(..))`. A method of the
    /// prototype on a receiver that holds no integer is a fault of the
    /// engine, and comes back as `Err(..)`.
    pub fn invoke(function: Builtin, this: &Value, args: &[Value]) -> (r: Result<
        Result<Value, Error>,
        Fault,
    >)
        requires
            this.wf(),
            arguments_wf(args@),
        ensures
            if reads_receiver(function) && this.bigint_value() is None {
                r == Err::<Result<Value, Error>, Fault>(Fault::MissingSlot)
            } else {
                r matches Ok(done) && realizes(done, invoke_outcome(function, *this, args@))
            },
    {
        match function {
            Builtin::MakeBigInt => Ok(Self::make_bigint(this, args)),
            Builtin::AsIntN => Ok(Self::as_int_n(this, args)),
            Builtin::AsUintN => Ok(Self::as_uint_n(this, args)),
            Builtin::ToString => match this.to_bigint() {
                Some(_) => Ok(Self::to_string(this, args)),
                None => Err(Fault::MissingSlot),
            },
            Builtin::ValueOf => match this.to_bigint() {
                Some(_) => Ok(Self::value_of(this, args)),
                None => Err(Fault::MissingSlot),
            },
        }
    }

    /// The `BigInt` object as it is published: a callable that `new`
    /// cannot be applied to, the prototype with the slot `BigIntData` at 0
    /// and the two instance methods, and the two static functions.
    pub fn create() -> (r: Constructor)
        ensures
            is_bigint_object(r),
    {
        let mut methods: Vec<Method> = Vec::new();
        methods.push(method("toString", 1, Builtin::ToString));
        methods.push(method("valueOf", 0, Builtin::ValueOf));
        let prototype = Prototype {
            slot_name: String::from_str("BigIntData"),
            slot: Integer::zero(),
            methods,
        };
        let mut statics: Vec<Method> = Vec::new();
        statics.push(method("asIntN", 1, Builtin::AsIntN));
        statics.push(method("asUintN", 1, Builtin::AsUintN));
        Constructor {
            name: String::from_str("BigInt"),
            length: 1,
            function: Builtin::MakeBigInt,
            constructible: false,
            prototype,
            statics,
        }
    }

    /// Publishes the `BigInt` object under the global binding `BigInt`.
    pub fn init(global: &mut Global)
        ensures
            final(global).bigint matches Some(c) && is_bigint_object(c),
    {
        global.bigint = Some(Self::create());
    }
}

} // verus!
